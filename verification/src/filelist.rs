//! Turning a manifest of paths into the list of paths to search: blank lines
//! and `#` comments dropped, a leading `~` expanded against the home
//! directory, repeats collapsed to their first occurrence. Also the rule by
//! which a directory walk treats each entry.
//!
//! Paths are handled as the bytes the operating system stores, so a name that
//! is not UTF-8 passes through unaltered.
use vstd::prelude::*;
use vstd::string::*;
use vstd::utf8::*;

use crate::path_identity::{
    lemma_trailing_slash_same_path, path_key, path_key_of, same_key, same_path, PathKey, DOT, SLASH,
};
use crate::search::brute_force::line_end;
use crate::search::model::{
    lemma_lines_from_unfold, lemma_next_newline_bounds, lines, lines_from, NEWLINE,
};

verus! {

pub const TILDE: u8 = 126u8;

pub const CR: u8 = 13u8;

/// `s` with its leading `/` bytes removed.
pub open spec fn trim_leading_slashes(s: Seq<u8>) -> Seq<u8>
    decreases s.len(),
{
    if s.len() > 0 && s[0] == SLASH {
        trim_leading_slashes(s.drop_first())
    } else {
        s
    }
}

/// For a path written with the home shorthand (a bare `~`, or `~/` followed by
/// the rest), the part to place under the home directory. `~user` and an
/// interior `~` are not the shorthand.
pub open spec fn tilde_remainder(path: Seq<u8>) -> Option<Seq<u8>> {
    if path == seq![TILDE] {
        Some(Seq::empty())
    } else if path.len() >= 2 && path[0] == TILDE && path[1] == SLASH {
        Some(trim_leading_slashes(path.skip(2)))
    } else {
        None
    }
}

/// `rest` placed under `base`, with exactly one separator between them when
/// `base` has none of its own; an empty `rest` leaves `base` as it is.
pub open spec fn join_path(base: Seq<u8>, rest: Seq<u8>) -> Seq<u8> {
    if rest.len() == 0 {
        base
    } else if base.len() == 0 || base.last() == SLASH {
        base + rest
    } else {
        base + seq![SLASH] + rest
    }
}

/// The path with the home shorthand expanded against `home`; without a home
/// directory, or without the shorthand, the path as written.
pub open spec fn tilde_expanded(path: Seq<u8>, home: Option<Seq<u8>>) -> Seq<u8> {
    match (tilde_remainder(path), home) {
        (Some(rest), Some(h)) => join_path(h, rest),
        _ => path,
    }
}

/// The bytes behind an optional slice.
pub open spec fn opt_bytes(o: Option<&[u8]>) -> Option<Seq<u8>> {
    match o {
        Some(s) => Some(s@),
        None => None,
    }
}

/// Appends `s[from..]` to `out`.
fn push_all(out: &mut Vec<u8>, s: &[u8], from: usize)
    requires
        from <= s@.len(),
    ensures
        final(out)@ == old(out)@ + s@.skip(from as int),
{
    let mut k = from;
    while k < s.len()
        invariant
            from <= k <= s@.len(),
            out@ == old(out)@ + s@.subrange(from as int, k as int),
        decreases s@.len() - k,
    {
        out.push(s[k]);
        k = k + 1;
        assert(out@ =~= old(out)@ + s@.subrange(from as int, k as int));
    }
    assert(s@.subrange(from as int, s@.len() as int) =~= s@.skip(from as int));
}

proof fn lemma_trim_leading_slashes_skip(s: Seq<u8>, k: int)
    requires
        0 <= k <= s.len(),
        forall|j: int| 0 <= j < k ==> s[j] == SLASH,
        k == s.len() || s[k] != SLASH,
    ensures
        trim_leading_slashes(s) == s.skip(k),
    decreases k,
{
    if k == 0 {
        assert(s.skip(0) =~= s);
    } else {
        lemma_trim_leading_slashes_skip(s.drop_first(), k - 1);
        assert(s.drop_first().skip(k - 1) =~= s.skip(k));
    }
}

/// Expands a leading `~` against `home`.
///
/// A bare `~` becomes the home directory itself, with no trailing separator;
/// `~/rest` becomes `rest` under it, however many `/` follow the `~`, so the
/// home directory is never dropped in favour of an absolute-looking `rest`.
/// Without a home directory the path passes through unchanged, so a later
/// failure names the path the user actually wrote. `~user` is not supported.
pub fn expand_tilde_against(path: &[u8], home: Option<&[u8]>) -> (expanded: Vec<u8>)
    ensures
        expanded@ == tilde_expanded(path@, opt_bytes(home)),
{
    let mut out: Vec<u8> = Vec::new();
    let is_bare = path.len() == 1 && path[0] == TILDE;
    let is_prefixed = path.len() >= 2 && path[0] == TILDE && path[1] == SLASH;
    proof {
        if is_bare {
            assert(path@ =~= seq![TILDE]);
        }
        if path@ == seq![TILDE] {
            assert(path@[0] == TILDE);
        }
    }
    if (!is_bare && !is_prefixed) || home.is_none() {
        push_all(&mut out, path, 0);
        assert(out@ =~= path@);
        return out;
    }
    let h = home.unwrap();
    let mut start: usize = path.len();
    if is_prefixed {
        start = 2;
        while start < path.len() && path[start] == SLASH
            invariant
                2 <= start <= path@.len(),
                forall|j: int| 2 <= j < start ==> path@[j] == SLASH,
            decreases path@.len() - start,
        {
            start = start + 1;
        }
        proof {
            lemma_trim_leading_slashes_skip(path@.skip(2), start - 2);
            assert(path@.skip(2).skip(start - 2) =~= path@.skip(start as int));
        }
    } else {
        assert(path@.skip(start as int) =~= Seq::<u8>::empty());
    }
    proof {
        assert(tilde_remainder(path@) == Some(path@.skip(start as int)));
    }
    push_all(&mut out, h, 0);
    assert(h@.skip(0) =~= h@);
    if start < path.len() && h.len() > 0 && h[h.len() - 1] != SLASH {
        out.push(SLASH);
    }
    push_all(&mut out, path, start);
    proof {
        let rest = path@.skip(start as int);
        if rest.len() == 0 {
            assert(out@ =~= h@);
        } else if h@.len() == 0 || h@.last() == SLASH {
            assert(out@ =~= h@ + rest);
        } else {
            assert(out@ =~= h@ + seq![SLASH] + rest);
        }
    }
    out
}

/// Writing the home directory with a trailing `/` changes nothing about the
/// path a line leads to: for `~/rest` not even its bytes, and for a bare `~`
/// the two results name the same path.
pub proof fn lemma_home_trailing_slash_is_immaterial(path: Seq<u8>, home: Seq<u8>)
    requires
        home.len() > 0,
        home.last() != SLASH,
    ensures
        same_path(tilde_expanded(path, Some(home)), tilde_expanded(path, Some(home.push(SLASH)))),
        (tilde_remainder(path) matches Some(rest) && rest.len() > 0) ==> tilde_expanded(
            path,
            Some(home),
        ) == tilde_expanded(path, Some(home.push(SLASH))),
{
    match tilde_remainder(path) {
        Some(rest) => {
            if rest.len() > 0 {
                assert(home + seq![SLASH] + rest =~= home.push(SLASH) + rest);
            } else {
                lemma_trailing_slash_same_path(home);
            }
        },
        None => {},
    }
}

/// Some element of `kept` names the same path as `x`.
pub open spec fn listed_already(kept: Seq<Seq<u8>>, x: Seq<u8>) -> bool {
    exists|i: int| 0 <= i < kept.len() && same_path(kept[i], x)
}

/// `s` with every path that names the same path as an earlier one removed,
/// first occurrences kept in order.
pub open spec fn first_occurrences(s: Seq<Seq<u8>>) -> Seq<Seq<u8>>
    decreases s.len(),
{
    if s.len() == 0 {
        Seq::empty()
    } else {
        let kept = first_occurrences(s.drop_last());
        if listed_already(kept, s.last()) {
            kept
        } else {
            kept.push(s.last())
        }
    }
}

/// Collapsing repeats keeps no path twice, keeps only paths that were there,
/// and leaves every path represented by the first one naming it.
pub proof fn lemma_first_occurrences(s: Seq<Seq<u8>>)
    ensures
        forall|i: int, j: int|
            0 <= i < j < first_occurrences(s).len() ==> !same_path(
                first_occurrences(s)[i],
                first_occurrences(s)[j],
            ),
        forall|k: int| 0 <= k < first_occurrences(s).len() ==> s.contains(first_occurrences(s)[k]),
        forall|i: int| 0 <= i < s.len() ==> listed_already(first_occurrences(s), #[trigger] s[i]),
    decreases s.len(),
{
    if s.len() > 0 {
        let init = s.drop_last();
        lemma_first_occurrences(init);
        let kept = first_occurrences(init);
        let fo = first_occurrences(s);
        let last = s.last();
        assert forall|k: int| 0 <= k < fo.len() implies s.contains(fo[k]) by {
            if k < kept.len() {
                let i = choose|i: int| 0 <= i < init.len() && init[i] == kept[k];
                assert(s[i] == init[i]);
                assert(fo[k] == kept[k]);
            } else {
                assert(fo[k] == last);
                assert(s[s.len() - 1] == last);
            }
        }
        assert forall|i: int| 0 <= i < s.len() implies listed_already(fo, #[trigger] s[i]) by {
            if i < s.len() - 1 {
                assert(s[i] == init[i]);
                assert(listed_already(kept, init[i]));
                let j = choose|j: int| 0 <= j < kept.len() && same_path(kept[j], init[i]);
                assert(fo[j] == kept[j]);
            } else if listed_already(kept, last) {
                assert(s[i] == last);
            } else {
                assert(fo[kept.len() as int] == last);
                assert(s[i] == last);
            }
        }
        assert forall|i: int, j: int| 0 <= i < j < fo.len() implies !same_path(fo[i], fo[j]) by {
            if j < kept.len() {
                assert(fo[i] == kept[i] && fo[j] == kept[j]);
            } else {
                assert(fo[j] == last);
                assert(fo[i] == kept[i]);
                assert(!listed_already(kept, last));
            }
        }
    }
}

/// Some key among `keys` equals `key`.
fn key_listed(keys: &Vec<PathKey>, key: &PathKey) -> (present: bool)
    ensures
        present == exists|i: int| 0 <= i < keys@.len() && keys@[i]@ == key@,
{
    let mut i: usize = 0;
    while i < keys.len()
        invariant
            i <= keys@.len(),
            forall|j: int| 0 <= j < i ==> keys@[j]@ != key@,
        decreases keys@.len() - i,
    {
        if same_key(&keys[i], key) {
            return true;
        }
        i = i + 1;
    }
    false
}

/// `line` with its trailing `\r` bytes removed.
pub open spec fn strip_trailing_cr(line: Seq<u8>) -> Seq<u8>
    decreases line.len(),
{
    if line.len() > 0 && line.last() == CR {
        strip_trailing_cr(line.drop_last())
    } else {
        line
    }
}

/// A character with the Unicode `White_Space` property, which is what
/// `char::is_whitespace` tests: tab to carriage return, space, U+0085, U+00A0,
/// U+1680, U+2000 to U+200A, U+2028, U+2029, U+202F, U+205F and U+3000.
pub open spec fn is_white_space(c: char) -> bool {
    let u = c as u32;
    ||| 0x09 <= u <= 0x0d
    ||| u == 0x20
    ||| u == 0x85
    ||| u == 0xa0
    ||| u == 0x1680
    ||| 0x2000 <= u <= 0x200a
    ||| u == 0x2028
    ||| u == 0x2029
    ||| u == 0x202f
    ||| u == 0x205f
    ||| u == 0x3000
}

/// `s` without its leading white space.
pub open spec fn without_leading_whitespace(s: Seq<char>) -> Seq<char>
    decreases s.len(),
{
    if s.len() > 0 && is_white_space(s[0]) {
        without_leading_whitespace(s.drop_first())
    } else {
        s
    }
}

/// `str::trim_start`. Trusted: std documents that it removes the leading
/// characters with the Unicode `White_Space` property, as `without_leading_whitespace`
/// states.
#[verifier::external_body]
fn trim_leading_whitespace(s: &str) -> (t: &str)
    ensures
        t@ == without_leading_whitespace(s@),
{
    s.trim_start()
}

/// A comment line: its first character that is not whitespace is `#`. A `#`
/// later in the line does not make it a comment, since `#` is legal in a
/// file name.
pub open spec fn is_comment(line: Seq<u8>) -> bool {
    let rest = without_leading_whitespace(decode_utf8(line));
    rest.len() > 0 && rest[0] == '#'
}

/// The characters before index `k` are all white space.
pub open spec fn blank_before(c: Seq<char>, k: int) -> bool {
    forall|j: int| 0 <= j < k ==> is_white_space(#[trigger] c[j])
}

proof fn lemma_without_leading_whitespace(c: Seq<char>)
    ensures
        exists|k: int|
            0 <= k <= c.len() && blank_before(c, k) && (k == c.len() || !is_white_space(c[k]))
                && without_leading_whitespace(c) == c.skip(k),
    decreases c.len(),
{
    if c.len() > 0 && is_white_space(c[0]) {
        lemma_without_leading_whitespace(c.drop_first());
        let k = choose|k: int|
            0 <= k <= c.drop_first().len() && blank_before(c.drop_first(), k) && (k
                == c.drop_first().len() || !is_white_space(c.drop_first()[k]))
                && without_leading_whitespace(c.drop_first()) == c.drop_first().skip(k);
        assert(c.drop_first().skip(k) =~= c.skip(k + 1));
        assert forall|j: int| 0 <= j < k + 1 implies is_white_space(#[trigger] c[j]) by {
            if j > 0 {
                assert(c[j] == c.drop_first()[j - 1]);
            }
        }
        if k < c.drop_first().len() {
            assert(c[k + 1] == c.drop_first()[k]);
        }
        assert(0 <= k + 1 <= c.len() && blank_before(c, k + 1) && (k + 1 == c.len()
            || !is_white_space(c[k + 1])) && without_leading_whitespace(c) == c.skip(k + 1));
    } else {
        assert(c.skip(0) =~= c);
        assert(blank_before(c, 0));
        assert(0 <= 0 <= c.len() && blank_before(c, 0) && (0 == c.len() || !is_white_space(c[0]))
            && without_leading_whitespace(c) == c.skip(0));
    }
}

/// A line is a comment exactly when its first character that is not white
/// space is `#`, whatever follows the `#`.
pub proof fn lemma_comment_is_hash_after_blanks(line: Seq<u8>)
    ensures
        is_comment(line) <==> exists|k: int|
            0 <= k < decode_utf8(line).len() && blank_before(decode_utf8(line), k)
                && decode_utf8(line)[k] == '#',
{
    let c = decode_utf8(line);
    lemma_without_leading_whitespace(c);
    let k0 = choose|k: int|
        0 <= k <= c.len() && blank_before(c, k) && (k == c.len() || !is_white_space(c[k]))
            && without_leading_whitespace(c) == c.skip(k);
    assert(!is_white_space('#'));
    if is_comment(line) {
        assert(c.skip(k0)[0] == c[k0]);
    }
    if exists|k: int| 0 <= k < c.len() && blank_before(c, k) && c[k] == '#' {
        let k = choose|k: int| 0 <= k < c.len() && blank_before(c, k) && c[k] == '#';
        if k0 < k {
            assert(is_white_space(c[k0]));
        }
        if k < k0 {
            assert(is_white_space(c[k]));
        }
        assert(k == k0);
        assert(c.skip(k0)[0] == c[k0]);
    }
}

/// A manifest line names no path exactly when, without its trailing `\r`, it
/// is empty or its first character that is not white space is `#`.
pub proof fn lemma_manifest_entry_names(line: Seq<u8>, home: Option<Seq<u8>>)
    ensures
        ({
            let t = strip_trailing_cr(line);
            let c = decode_utf8(t);
            manifest_entry(line, home) is None <==> (t.len() == 0 || exists|k: int|
                0 <= k < c.len() && blank_before(c, k) && c[k] == '#')
        }),
{
    lemma_comment_is_hash_after_blanks(strip_trailing_cr(line));
}

/// The path a manifest line names, if any: trailing `\r` is dropped, blank
/// and comment lines name nothing, and the home shorthand is expanded. Leading
/// whitespace is kept, since it is legal in a file name.
pub open spec fn manifest_entry(line: Seq<u8>, home: Option<Seq<u8>>) -> Option<Seq<u8>> {
    let t = strip_trailing_cr(line);
    if t.len() == 0 || is_comment(t) {
        None
    } else {
        Some(tilde_expanded(t, home))
    }
}

/// The paths named by the lines `ls`, in order, repeats included.
pub open spec fn manifest_candidates(ls: Seq<Seq<u8>>, home: Option<Seq<u8>>) -> Seq<Seq<u8>>
    decreases ls.len(),
{
    if ls.len() == 0 {
        Seq::empty()
    } else {
        let rest = manifest_candidates(ls.drop_first(), home);
        match manifest_entry(ls[0], home) {
            Some(p) => seq![p] + rest,
            None => rest,
        }
    }
}

/// The paths a manifest lists: one per naming line, repeats collapsed to their
/// first occurrence (after `~` expansion, so `~/x` and `$HOME/x` are one).
pub open spec fn manifest_paths(text: Seq<u8>, home: Option<Seq<u8>>) -> Seq<Seq<u8>> {
    first_occurrences(manifest_candidates(lines(text), home))
}

proof fn lemma_strip_trailing_cr(line: Seq<u8>, k: int)
    requires
        0 <= k <= line.len(),
        forall|j: int| k <= j < line.len() ==> line[j] == CR,
        k == 0 || line[k - 1] != CR,
    ensures
        strip_trailing_cr(line) == line.take(k),
    decreases line.len() - k,
{
    if k == line.len() {
        assert(line.take(k) =~= line);
    } else {
        lemma_strip_trailing_cr(line.drop_last(), k);
        assert(line.drop_last().take(k) =~= line.take(k));
    }
}

/// The views of a list of byte vectors.
pub open spec fn byte_views(v: Seq<Vec<u8>>) -> Seq<Seq<u8>> {
    v.map_values(|x: Vec<u8>| x@)
}

/// The paths listed in a manifest, given its text and the home directory used
/// for `~` expansion: blank lines and `#` comment lines are skipped, trailing
/// `\r` is dropped, and a path listed again (after expansion) is kept only
/// where it first appears.
pub fn manifest_entries(text: &str, home: Option<&[u8]>) -> (paths: Vec<Vec<u8>>)
    ensures
        byte_views(paths@) == manifest_paths(text.spec_bytes(), opt_bytes(home)),
{
    let bytes = text.as_bytes();
    let n = bytes.len();
    let mut paths: Vec<Vec<u8>> = Vec::new();
    let mut keys: Vec<PathKey> = Vec::new();
    let ghost seen: Seq<Seq<u8>> = Seq::empty();
    let mut rest: &str = text;
    let mut start: usize = 0;
    proof {
        assert(bytes@.skip(0) =~= bytes@);
        assert(byte_views(paths@) =~= first_occurrences(seen));
    }
    loop
        invariant
            bytes@ == text.spec_bytes(),
            n == bytes@.len(),
            start <= n,
            rest.spec_bytes() == bytes@.skip(start as int),
            byte_views(paths@) == first_occurrences(seen),
            keys@.len() == paths@.len(),
            forall|k: int| 0 <= k < keys@.len() ==> (#[trigger] keys@[k])@ == path_key(paths@[k]@),
            manifest_candidates(lines(bytes@), opt_bytes(home)) == seen + manifest_candidates(
                lines_from(bytes@, start as int),
                opt_bytes(home),
            ),
        decreases n - start,
    {
        let e = line_end(bytes, start);
        proof {
            lemma_lines_from_unfold(bytes@, start as int);
            lemma_next_newline_bounds(bytes@, start as int);
            encode_utf8_valid_utf8(rest@);
            is_char_boundary_start_end_of_seq(rest.spec_bytes());
            assert(rest.spec_bytes().len() == n - start);
            if e < n {
                assert(rest.spec_bytes()[e - start] == bytes@[e as int]);
                assert(!is_continuation_byte(rest.spec_bytes()[e - start]));
                is_char_boundary_iff_not_is_continuation_byte(rest.spec_bytes(), e - start);
                assert(is_char_boundary(rest.spec_bytes(), e - start));
            } else {
                assert(is_char_boundary(rest.spec_bytes(), rest.spec_bytes().len() as int));
            }
        }
        let (line, tail) = rest.split_at(e - start);
        let lb = line.as_bytes();
        proof {
            assert(lb@ =~= bytes@.subrange(start as int, e as int));
        }
        // Drop the trailing carriage returns.
        let mut t_end: usize = lb.len();
        while t_end > 0 && lb[t_end - 1] == CR
            invariant
                t_end <= lb@.len(),
                forall|j: int| t_end <= j < lb@.len() ==> lb@[j] == CR,
            decreases t_end,
        {
            t_end = t_end - 1;
        }
        proof {
            lemma_strip_trailing_cr(lb@, t_end as int);
            encode_utf8_valid_utf8(line@);
            is_char_boundary_start_end_of_seq(line.spec_bytes());
            if t_end < lb.len() {
                is_char_boundary_iff_not_is_continuation_byte(line.spec_bytes(), t_end as int);
            }
        }
        let (trimmed, _) = line.split_at(t_end);
        let tb = trimmed.as_bytes();
        proof {
            assert(tb@ =~= strip_trailing_cr(lb@));
            encode_utf8_decode_utf8(trimmed@);
        }
        let ghost entry = manifest_entry(lb@, opt_bytes(home));
        let ghost seen_before = seen;
        if tb.len() > 0 {
            let lead = trim_leading_whitespace(trimmed);
            let comment = !lead.is_empty() && lead.get_char(0) == '#';
            if !comment {
                let path = expand_tilde_against(tb, home);
                proof {
                    assert(entry == Some(path@));
                }
                let key = path_key_of(path.as_slice());
                let present = key_listed(&keys, &key);
                proof {
                    assert(seen.push(path@).drop_last() =~= seen);
                    let kept = first_occurrences(seen);
                    if present {
                        let i = choose|i: int| 0 <= i < keys@.len() && keys@[i]@ == key@;
                        assert(kept[i] == paths@[i]@);
                        assert(same_path(kept[i], path@));
                    } else {
                        assert forall|i: int| 0 <= i < kept.len() implies !same_path(kept[i], path@) by {
                            assert(kept[i] == paths@[i]@);
                            assert(keys@[i]@ == path_key(paths@[i]@));
                        }
                    }
                    assert(present == listed_already(kept, path@));
                }
                if !present {
                    paths.push(path);
                    keys.push(key);
                }
                proof {
                    seen = seen.push(path@);
                    assert(seen.last() == path@);
                    assert(byte_views(paths@) =~= first_occurrences(seen));
                }
            } else {
                assert(entry == None::<Seq<u8>>);
            }
        }
        let ghost here: Seq<Seq<u8>> = match entry {
            Some(p) => seq![p],
            None => Seq::empty(),
        };
        proof {
            assert(seen =~= seen_before + here);
            let ls = lines_from(bytes@, start as int);
            assert(ls[0] == lb@);
            let after = manifest_candidates(ls.drop_first(), opt_bytes(home));
            assert(manifest_candidates(ls, opt_bytes(home)) == here + after);
        }
        if e >= n {
            proof {
                assert(manifest_candidates(lines_from(bytes@, start as int), opt_bytes(home))
                    =~= here);
                assert(manifest_candidates(lines(bytes@), opt_bytes(home)) =~= seen);
            }
            return paths;
        }
        proof {
            let tb2 = tail.spec_bytes();
            assert(tb2[0] == rest.spec_bytes()[e - start]);
            assert(tb2[0] == NEWLINE);
            encode_utf8_valid_utf8(tail@);
            reveal_with_fuel(is_char_boundary, 2);
        }
        let (_, after) = tail.split_at(1);
        proof {
            assert(after.spec_bytes() =~= bytes@.skip(e + 1));
        }
        rest = after;
        start = e + 1;
    }
}

/// What a directory walk does with one entry.
#[derive(Debug, PartialEq, Eq, Clone, Copy)]
pub enum WalkAction {
    /// A subdirectory: walk into it.
    Descend,
    /// A regular file: search it.
    Include,
    /// Anything else, including a symlink: leave it out, as `grep -r` does.
    Skip,
}

/// The kind of a directory entry, as the walk sees it.
#[derive(Debug, PartialEq, Eq, Clone, Copy)]
pub enum EntryKind {
    Directory,
    File,
    Other,
}

/// How a directory walk treats an entry: names starting with `.` are hidden
/// and skipped at every depth, directories are walked, regular files are
/// searched, and everything else is skipped.
pub fn walk_action(file_name: &[u8], kind: EntryKind) -> (action: WalkAction)
    ensures
        file_name@.len() > 0 && file_name@[0] == DOT ==> action == WalkAction::Skip,
        !(file_name@.len() > 0 && file_name@[0] == DOT) ==> action == match kind {
            EntryKind::Directory => WalkAction::Descend,
            EntryKind::File => WalkAction::Include,
            EntryKind::Other => WalkAction::Skip,
        },
{
    if file_name.len() > 0 && file_name[0] == DOT {
        return WalkAction::Skip;
    }
    match kind {
        EntryKind::Directory => WalkAction::Descend,
        EntryKind::File => WalkAction::Include,
        EntryKind::Other => WalkAction::Skip,
    }
}

} // verus!
