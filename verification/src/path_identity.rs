//! When two byte strings name the same path: compared component by
//! component, as `std::path::Path` compares paths on Unix. Repeated and
//! trailing `/` make no difference, nor does a `.` component anywhere but at
//! the start of a relative path.
use vstd::prelude::*;

verus! {

pub const SLASH: u8 = 47u8;

pub const DOT: u8 = 46u8;

/// Index of the first `/` in `p` at or after `from`, or `p.len()`.
pub open spec fn next_slash(p: Seq<u8>, from: int) -> int
    decreases p.len() - from,
{
    if from >= p.len() {
        p.len() as int
    } else if p[from] == SLASH {
        from
    } else {
        next_slash(p, from + 1)
    }
}

pub proof fn lemma_next_slash_bounds(p: Seq<u8>, from: int)
    requires
        0 <= from <= p.len(),
    ensures
        from <= next_slash(p, from) <= p.len(),
        next_slash(p, from) < p.len() ==> p[next_slash(p, from)] == SLASH,
        forall|j: int| from <= j < next_slash(p, from) ==> p[j] != SLASH,
    decreases p.len() - from,
{
    if from < p.len() && p[from] != SLASH {
        lemma_next_slash_bounds(p, from + 1);
    }
}

/// The `/`-separated segments of `p` from offset `start` on, empty ones
/// included.
pub open spec fn segments_from(p: Seq<u8>, start: int) -> Seq<Seq<u8>>
    decreases p.len() - start,
{
    if start < 0 || start > p.len() {
        Seq::empty()
    } else {
        let e = next_slash(p, start);
        proof {
            lemma_next_slash_bounds(p, start);
        }
        if e >= p.len() {
            seq![p.subrange(start, p.len() as int)]
        } else {
            seq![p.subrange(start, e)] + segments_from(p, e + 1)
        }
    }
}

/// A segment that names no component: an empty one, or `.`.
pub open spec fn is_skipped_segment(s: Seq<u8>) -> bool {
    s.len() == 0 || s == seq![DOT]
}

/// The segments that name components.
pub open spec fn kept_segments(segs: Seq<Seq<u8>>) -> Seq<Seq<u8>>
    decreases segs.len(),
{
    if segs.len() == 0 {
        Seq::empty()
    } else {
        let rest = kept_segments(segs.drop_first());
        if is_skipped_segment(segs[0]) {
            rest
        } else {
            seq![segs[0]] + rest
        }
    }
}

/// The path starts at the root.
pub open spec fn is_rooted(p: Seq<u8>) -> bool {
    p.len() > 0 && p[0] == SLASH
}

/// A relative path whose first component is `.`, which is kept.
pub open spec fn has_leading_dot(p: Seq<u8>) -> bool {
    &&& p.len() > 0
    &&& p[0] == DOT
    &&& p.len() == 1 || p[1] == SLASH
}

/// What identifies a path: whether it is rooted, whether it starts with `.`,
/// and its other components in order.
pub open spec fn path_key(p: Seq<u8>) -> (bool, bool, Seq<Seq<u8>>) {
    (is_rooted(p), has_leading_dot(p), kept_segments(segments_from(p, 0)))
}

/// The two byte strings name the same path.
pub open spec fn same_path(a: Seq<u8>, b: Seq<u8>) -> bool {
    path_key(a) == path_key(b)
}

proof fn lemma_kept_segments_append_empty(segs: Seq<Seq<u8>>)
    ensures
        kept_segments(segs.push(Seq::<u8>::empty())) == kept_segments(segs),
    decreases segs.len(),
{
    let e = Seq::<u8>::empty();
    if segs.len() == 0 {
        assert(segs.push(e).drop_first() =~= Seq::<Seq<u8>>::empty());
        assert(kept_segments(Seq::<Seq<u8>>::empty()) == Seq::<Seq<u8>>::empty());
    } else {
        lemma_kept_segments_append_empty(segs.drop_first());
        assert(segs.push(e).drop_first() =~= segs.drop_first().push(e));
        assert(segs.push(e)[0] == segs[0]);
    }
}

proof fn lemma_segments_trailing_slash(x: Seq<u8>, start: int)
    requires
        0 <= start <= x.len(),
    ensures
        segments_from(x.push(SLASH), start) == segments_from(x, start).push(Seq::<u8>::empty()),
    decreases x.len() - start,
{
    let y = x.push(SLASH);
    lemma_next_slash_bounds(x, start);
    lemma_next_slash_bounds(y, start);
    let e = next_slash(x, start);
    assert forall|j: int| start <= j < e implies y[j] != SLASH by {
        assert(y[j] == x[j]);
    }
    if e < x.len() {
        assert(y[e] == SLASH);
        assert(next_slash(y, start) == e);
        lemma_segments_trailing_slash(x, e + 1);
        assert(y.subrange(start, e) =~= x.subrange(start, e));
        assert(segments_from(y, start) == seq![x.subrange(start, e)] + segments_from(y, e + 1));
        assert(segments_from(x, start) == seq![x.subrange(start, e)] + segments_from(x, e + 1));
        assert(seq![x.subrange(start, e)] + segments_from(x, e + 1).push(Seq::<u8>::empty())
            =~= (seq![x.subrange(start, e)] + segments_from(x, e + 1)).push(Seq::<u8>::empty()));
    } else {
        assert(y[x.len() as int] == SLASH);
        assert(next_slash(y, start) == x.len());
        let after = x.len() as int + 1;
        lemma_next_slash_bounds(y, after);
        assert(next_slash(y, after) == y.len());
        assert(segments_from(y, after) == seq![y.subrange(after, after)]);
        assert(y.subrange(after, after) =~= Seq::<u8>::empty());
        assert(y.subrange(start, x.len() as int) =~= x.subrange(start, x.len() as int));
        assert(segments_from(x, start) == seq![x.subrange(start, x.len() as int)]);
        assert(segments_from(y, start) =~= seq![x.subrange(start, x.len() as int)].push(
            Seq::<u8>::empty(),
        ));
    }
}

/// A trailing `/` does not change which path a non-empty path names.
pub proof fn lemma_trailing_slash_same_path(x: Seq<u8>)
    requires
        x.len() > 0,
    ensures
        same_path(x, x.push(SLASH)),
{
    lemma_segments_trailing_slash(x, 0);
    lemma_kept_segments_append_empty(segments_from(x, 0));
    let y = x.push(SLASH);
    assert(y[0] == x[0]);
    if x.len() > 1 {
        assert(y[1] == x[1]);
    }
}

proof fn lemma_next_slash_is(p: Seq<u8>, from: int, e: int)
    requires
        0 <= from <= e <= p.len(),
        forall|j: int| from <= j < e ==> p[j] != SLASH,
        e == p.len() || p[e] == SLASH,
    ensures
        next_slash(p, from) == e,
{
    lemma_next_slash_bounds(p, from);
}

proof fn lemma_segments_shift(pre: Seq<u8>, b: Seq<u8>, t: int)
    requires
        0 <= t <= b.len(),
    ensures
        segments_from(pre + b, pre.len() + t) == segments_from(b, t),
    decreases b.len() - t,
{
    let q = pre + b;
    let n = pre.len() as int;
    lemma_next_slash_bounds(b, t);
    let e = next_slash(b, t);
    assert forall|j: int| n + t <= j < n + e implies q[j] != SLASH by {
        assert(q[j] == b[j - n]);
    }
    if e < b.len() {
        assert(q[n + e] == b[e]);
    }
    lemma_next_slash_is(q, n + t, n + e);
    assert(q.subrange(n + t, n + e) =~= b.subrange(t, e));
    if e < b.len() {
        lemma_segments_shift(pre, b, e + 1);
        assert(segments_from(q, n + t) == seq![q.subrange(n + t, n + e)] + segments_from(q, n + e + 1));
    } else {
        assert(q.subrange(n + t, q.len() as int) =~= b.subrange(t, b.len() as int));
    }
}

/// The segments of `a/b` are those of `a` followed by those of `b`.
proof fn lemma_segments_join(a: Seq<u8>, b: Seq<u8>, s: int)
    requires
        0 <= s <= a.len(),
    ensures
        segments_from(a + seq![SLASH] + b, s) == segments_from(a, s) + segments_from(b, 0),
    decreases a.len() - s,
{
    let q = a + seq![SLASH] + b;
    lemma_next_slash_bounds(a, s);
    let e = next_slash(a, s);
    assert forall|j: int| s <= j < e implies q[j] != SLASH by {
        assert(q[j] == a[j]);
    }
    if e < a.len() {
        assert(q[e] == a[e]);
    } else {
        assert(q[e] == SLASH);
    }
    lemma_next_slash_is(q, s, e);
    assert(q.subrange(s, e) =~= a.subrange(s, e));
    if e < a.len() {
        lemma_segments_join(a, b, e + 1);
        assert(segments_from(q, s) == seq![a.subrange(s, e)] + segments_from(q, e + 1));
        assert(segments_from(a, s) == seq![a.subrange(s, e)] + segments_from(a, e + 1));
        assert(seq![a.subrange(s, e)] + (segments_from(a, e + 1) + segments_from(b, 0)) =~= (seq![
            a.subrange(s, e),
        ] + segments_from(a, e + 1)) + segments_from(b, 0));
    } else {
        lemma_segments_shift(a + seq![SLASH], b, 0);
        assert(segments_from(q, s) == seq![a.subrange(s, e)] + segments_from(q, e + 1));
        assert(segments_from(a, s) == seq![a.subrange(s, a.len() as int)]);
    }
}

proof fn lemma_kept_segments_concat(s1: Seq<Seq<u8>>, s2: Seq<Seq<u8>>)
    ensures
        kept_segments(s1 + s2) == kept_segments(s1) + kept_segments(s2),
    decreases s1.len(),
{
    if s1.len() == 0 {
        assert(s1 + s2 =~= s2);
        assert(kept_segments(s1) + kept_segments(s2) =~= kept_segments(s2));
    } else {
        lemma_kept_segments_concat(s1.drop_first(), s2);
        assert((s1 + s2).drop_first() =~= s1.drop_first() + s2);
        assert((s1 + s2)[0] == s1[0]);
        if !is_skipped_segment(s1[0]) {
            assert(seq![s1[0]] + (kept_segments(s1.drop_first()) + kept_segments(s2)) =~= (seq![
                s1[0],
            ] + kept_segments(s1.drop_first())) + kept_segments(s2));
        }
    }
}

/// The components of `seg/x` for a single segment `seg` (no `/` in it).
proof fn lemma_components_after_segment(seg: Seq<u8>, x: Seq<u8>)
    requires
        forall|j: int| 0 <= j < seg.len() ==> seg[j] != SLASH,
    ensures
        kept_segments(segments_from(seg + seq![SLASH] + x, 0)) == kept_segments(seq![seg])
            + kept_segments(segments_from(x, 0)),
{
    lemma_segments_join(seg, x, 0);
    lemma_next_slash_is(seg, 0, seg.len() as int);
    assert(seg.subrange(0, seg.len() as int) =~= seg);
    assert(segments_from(seg, 0) == seq![seg]);
    lemma_kept_segments_concat(seq![seg], segments_from(x, 0));
}

/// The components of `a/seg/x`.
proof fn lemma_components_around_segment(a: Seq<u8>, seg: Seq<u8>, x: Seq<u8>)
    requires
        forall|j: int| 0 <= j < seg.len() ==> seg[j] != SLASH,
    ensures
        kept_segments(segments_from(a + seq![SLASH] + seg + seq![SLASH] + x, 0)) == kept_segments(
            segments_from(a, 0),
        ) + kept_segments(seq![seg]) + kept_segments(segments_from(x, 0)),
        kept_segments(segments_from(a + seq![SLASH] + x, 0)) == kept_segments(segments_from(a, 0))
            + kept_segments(segments_from(x, 0)),
{
    let rest = seg + seq![SLASH] + x;
    assert(a + seq![SLASH] + seg + seq![SLASH] + x =~= a + seq![SLASH] + rest);
    lemma_segments_join(a, rest, 0);
    lemma_kept_segments_concat(segments_from(a, 0), segments_from(rest, 0));
    lemma_components_after_segment(seg, x);
    lemma_segments_join(a, x, 0);
    lemma_kept_segments_concat(segments_from(a, 0), segments_from(x, 0));
    assert(kept_segments(segments_from(a, 0)) + (kept_segments(seq![seg]) + kept_segments(
        segments_from(x, 0),
    )) =~= kept_segments(segments_from(a, 0)) + kept_segments(seq![seg]) + kept_segments(
        segments_from(x, 0),
    ));
}

proof fn lemma_kept_single(seg: Seq<u8>)
    ensures
        kept_segments(seq![seg]) == if is_skipped_segment(seg) {
            Seq::<Seq<u8>>::empty()
        } else {
            seq![seg]
        },
{
    assert(seq![seg].drop_first() =~= Seq::<Seq<u8>>::empty());
    assert(kept_segments(Seq::<Seq<u8>>::empty()) == Seq::<Seq<u8>>::empty());
    assert(seq![seg] + Seq::<Seq<u8>>::empty() =~= seq![seg]);
}

/// `..` is a component: `../x` and `x` name different paths.
pub proof fn lemma_parent_prefix_is_another_path(x: Seq<u8>)
    ensures
        !same_path(seq![DOT, DOT, SLASH] + x, x),
{
    let up = seq![DOT, DOT];
    assert(seq![DOT, DOT, SLASH] + x =~= up + seq![SLASH] + x);
    assert(up != seq![DOT]);
    lemma_components_after_segment(up, x);
    lemma_kept_single(up);
}

/// `..` is a component: `a/../x` and `a/x` name different paths.
pub proof fn lemma_parent_segment_is_kept(a: Seq<u8>, x: Seq<u8>)
    ensures
        !same_path(a + seq![SLASH, DOT, DOT, SLASH] + x, a + seq![SLASH] + x),
{
    let up = seq![DOT, DOT];
    assert(a + seq![SLASH, DOT, DOT, SLASH] + x =~= a + seq![SLASH] + up + seq![SLASH] + x);
    assert(up != seq![DOT]);
    lemma_components_around_segment(a, up, x);
    lemma_kept_single(up);
    let p1 = a + seq![SLASH, DOT, DOT, SLASH] + x;
    let p2 = a + seq![SLASH] + x;
    let base = kept_segments(segments_from(a, 0));
    let tail = kept_segments(segments_from(x, 0));
    assert(path_key(p1).2 == base + seq![up] + tail);
    assert(path_key(p2).2 == base + tail);
    assert(path_key(p1).2.len() != path_key(p2).2.len());
}

/// A `.` segment, or an empty one (a repeated `/`), inside a path is no
/// component: `a/./x`, `a//x` and `a/x` name the same path.
pub proof fn lemma_dot_and_empty_segments_are_ignored(a: Seq<u8>, x: Seq<u8>)
    ensures
        same_path(a + seq![SLASH, DOT, SLASH] + x, a + seq![SLASH] + x),
        same_path(a + seq![SLASH, SLASH] + x, a + seq![SLASH] + x),
{
    let dot = seq![DOT];
    let none = Seq::<u8>::empty();
    let p1 = a + seq![SLASH, DOT, SLASH] + x;
    let p2 = a + seq![SLASH, SLASH] + x;
    let p = a + seq![SLASH] + x;
    assert(p1 =~= a + seq![SLASH] + dot + seq![SLASH] + x);
    assert(p2 =~= a + seq![SLASH] + none + seq![SLASH] + x);
    lemma_components_around_segment(a, dot, x);
    lemma_components_around_segment(a, none, x);
    lemma_kept_single(dot);
    lemma_kept_single(none);
    let base = kept_segments(segments_from(a, 0));
    let tail = kept_segments(segments_from(x, 0));
    assert(base + Seq::<Seq<u8>>::empty() + tail =~= base + tail);
    if a.len() > 0 {
        assert(p1[0] == a[0] && p2[0] == a[0] && p[0] == a[0]);
        if a.len() > 1 {
            assert(p1[1] == a[1] && p2[1] == a[1] && p[1] == a[1]);
        } else {
            assert(p1[1] == SLASH && p2[1] == SLASH && p[1] == SLASH);
        }
    } else {
        assert(p1[0] == SLASH && p2[0] == SLASH && p[0] == SLASH);
    }
}

/// The identity of a path, computed once so it can be compared often.
pub struct PathKey {
    rooted: bool,
    leading_dot: bool,
    parts: Vec<Vec<u8>>,
}

impl View for PathKey {
    type V = (bool, bool, Seq<Seq<u8>>);

    closed spec fn view(&self) -> (bool, bool, Seq<Seq<u8>>) {
        (self.rooted, self.leading_dot, self.parts@.map_values(|v: Vec<u8>| v@))
    }
}

/// The two byte sequences are equal.
fn same_bytes(a: &[u8], b: &[u8]) -> (same: bool)
    ensures
        same == (a@ == b@),
{
    if a.len() != b.len() {
        return false;
    }
    let mut k: usize = 0;
    while k < a.len()
        invariant
            a@.len() == b@.len(),
            k <= a@.len(),
            forall|j: int| 0 <= j < k ==> a@[j] == b@[j],
        decreases a@.len() - k,
    {
        if a[k] != b[k] {
            assert(a@[k as int] != b@[k as int]);
            return false;
        }
        k = k + 1;
    }
    assert(a@ =~= b@);
    true
}

/// Computes the identity of the path `p`.
pub fn path_key_of(p: &[u8]) -> (key: PathKey)
    ensures
        key@ == path_key(p@),
{
    let n = p.len();
    let rooted = n > 0 && p[0] == SLASH;
    let leading_dot = n > 0 && p[0] == DOT && (n == 1 || p[1] == SLASH);
    let mut parts: Vec<Vec<u8>> = Vec::new();
    let mut start: usize = 0;
    loop
        invariant
            n == p@.len(),
            rooted == is_rooted(p@),
            leading_dot == has_leading_dot(p@),
            start <= n,
            kept_segments(segments_from(p@, 0)) == parts@.map_values(|v: Vec<u8>| v@)
                + kept_segments(segments_from(p@, start as int)),
        decreases n - start,
    {
        let mut e = start;
        while e < n && p[e] != SLASH
            invariant
                n == p@.len(),
                start <= e <= n,
                forall|j: int| start <= j < e ==> p@[j] != SLASH,
            decreases n - e,
        {
            e = e + 1;
        }
        let ghost before = parts@.map_values(|v: Vec<u8>| v@);
        let ghost segs = segments_from(p@, start as int);
        proof {
            lemma_next_slash_bounds(p@, start as int);
            assert(next_slash(p@, start as int) == e);
            if e < n {
                assert(segs == seq![p@.subrange(start as int, e as int)] + segments_from(p@, e + 1));
                assert(segs.drop_first() =~= segments_from(p@, e + 1));
            } else {
                assert(segs == seq![p@.subrange(start as int, e as int)]);
                assert(segs.drop_first() =~= Seq::<Seq<u8>>::empty());
            }
            assert(segs[0] == p@.subrange(start as int, e as int));
        }
        let skipped = e == start || (e == start + 1 && p[start] == DOT);
        proof {
            let s = p@.subrange(start as int, e as int);
            if e == start + 1 && p@[start as int] == DOT {
                assert(s =~= seq![DOT]);
            }
            if s == seq![DOT] {
                assert(s[0] == DOT);
            }
            assert(skipped == is_skipped_segment(s));
        }
        if !skipped {
            let mut part: Vec<u8> = Vec::new();
            let mut k = start;
            while k < e
                invariant
                    n == p@.len(),
                    start <= k <= e <= n,
                    part@ == p@.subrange(start as int, k as int),
                decreases e - k,
            {
                part.push(p[k]);
                k = k + 1;
                assert(part@ =~= p@.subrange(start as int, k as int));
            }
            parts.push(part);
            proof {
                assert(parts@.map_values(|v: Vec<u8>| v@) =~= before.push(
                    p@.subrange(start as int, e as int),
                ));
            }
        }
        let ghost rest: Seq<Seq<u8>> = if e < n {
            kept_segments(segments_from(p@, e + 1))
        } else {
            Seq::empty()
        };
        proof {
            assert(kept_segments(segs) == (if skipped {
                rest
            } else {
                seq![p@.subrange(start as int, e as int)] + rest
            })) by {
                if e >= n {
                    assert(kept_segments(segs.drop_first()) == Seq::<Seq<u8>>::empty());
                }
            }
            if skipped {
                assert(parts@.map_values(|v: Vec<u8>| v@) == before);
            } else {
                assert(before + (seq![p@.subrange(start as int, e as int)] + rest) =~= before.push(
                    p@.subrange(start as int, e as int),
                ) + rest);
            }
        }
        if e >= n {
            proof {
                assert(parts@.map_values(|v: Vec<u8>| v@) + rest =~= parts@.map_values(
                    |v: Vec<u8>| v@,
                ));
            }
            return PathKey { rooted, leading_dot, parts };
        }
        start = e + 1;
    }
}

/// The two keys identify the same path.
pub fn same_key(a: &PathKey, b: &PathKey) -> (same: bool)
    ensures
        same == (a@ == b@),
{
    if a.rooted != b.rooted || a.leading_dot != b.leading_dot || a.parts.len() != b.parts.len() {
        assert(a@.2.len() == a.parts@.len() && b@.2.len() == b.parts@.len());
        return false;
    }
    let ghost va = a.parts@.map_values(|v: Vec<u8>| v@);
    let ghost vb = b.parts@.map_values(|v: Vec<u8>| v@);
    let mut i: usize = 0;
    while i < a.parts.len()
        invariant
            va == a.parts@.map_values(|v: Vec<u8>| v@),
            vb == b.parts@.map_values(|v: Vec<u8>| v@),
            a.parts@.len() == b.parts@.len(),
            i <= a.parts@.len(),
            forall|j: int| 0 <= j < i ==> va[j] == vb[j],
        decreases a.parts@.len() - i,
    {
        if !same_bytes(a.parts[i].as_slice(), b.parts[i].as_slice()) {
            assert(va[i as int] != vb[i as int]);
            return false;
        }
        i = i + 1;
    }
    assert(va =~= vb);
    true
}

} // verus!
