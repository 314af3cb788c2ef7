//! The mathematical meaning of a line-scoped search: a buffer is a sequence of
//! lines separated by `\n`, and a search reports every line that contains the
//! word, numbered from 1, in order.
use vstd::prelude::*;

verus! {

/// The line terminator.
pub const NEWLINE: u8 = 10u8;

/// Index of the first `\n` in `buf` at or after `from`, or `buf.len()` when
/// there is none.
pub open spec fn next_newline(buf: Seq<u8>, from: int) -> int
    decreases buf.len() - from,
{
    if from >= buf.len() {
        buf.len() as int
    } else if buf[from] == NEWLINE {
        from
    } else {
        next_newline(buf, from + 1)
    }
}

/// The lines of `buf` from byte offset `start` onwards. A line ends at a `\n`
/// (which belongs to no line) or at the end of the buffer, so a buffer ending
/// in `\n` has an empty last line, as `split` on the terminator gives.
pub open spec fn lines_from(buf: Seq<u8>, start: int) -> Seq<Seq<u8>>
    decreases buf.len() - start,
{
    if start < 0 || start > buf.len() {
        Seq::empty()
    } else {
        let e = next_newline(buf, start);
        proof {
            lemma_next_newline_bounds(buf, start);
        }
        if e >= buf.len() {
            seq![buf.subrange(start, buf.len() as int)]
        } else {
            seq![buf.subrange(start, e)] + lines_from(buf, e + 1)
        }
    }
}

/// All lines of `buf`.
pub open spec fn lines(buf: Seq<u8>) -> Seq<Seq<u8>> {
    lines_from(buf, 0)
}

/// `word` occurs in `hay` starting at index `p`.
pub open spec fn occurs_at(hay: Seq<u8>, word: Seq<u8>, p: int) -> bool {
    0 <= p && p + word.len() <= hay.len() && hay.subrange(p, p + word.len()) == word
}

/// `word` occurs somewhere in `hay`.
pub open spec fn contains_word(hay: Seq<u8>, word: Seq<u8>) -> bool {
    exists|p: int| occurs_at(hay, word, p)
}

/// The lines of `ls` that contain `word`, each paired with its number, the
/// first line of `ls` being number `first`.
pub open spec fn numbered_matches(ls: Seq<Seq<u8>>, word: Seq<u8>, first: int) -> Seq<(int, Seq<u8>)>
    decreases ls.len(),
{
    if ls.len() == 0 {
        Seq::empty()
    } else {
        let rest = numbered_matches(ls.drop_first(), word, first + 1);
        if contains_word(ls[0], word) {
            seq![(first, ls[0])] + rest
        } else {
            rest
        }
    }
}

/// What a search for `word` in `buf` finds: every line containing the word,
/// with its 1-based line number, in buffer order. The empty word finds nothing.
pub open spec fn search_spec(word: Seq<u8>, buf: Seq<u8>) -> Seq<(int, Seq<u8>)> {
    if word.len() == 0 {
        Seq::empty()
    } else {
        numbered_matches(lines(buf), word, 1)
    }
}

pub proof fn lemma_next_newline_bounds(buf: Seq<u8>, from: int)
    requires
        0 <= from <= buf.len(),
    ensures
        from <= next_newline(buf, from) <= buf.len(),
        next_newline(buf, from) < buf.len() ==> buf[next_newline(buf, from)] == NEWLINE,
        forall|j: int| from <= j < next_newline(buf, from) ==> buf[j] != NEWLINE,
    decreases buf.len() - from,
{
    if from < buf.len() && buf[from] != NEWLINE {
        lemma_next_newline_bounds(buf, from + 1);
    }
}

/// The first `\n` at or after `from` is the one the caller found.
pub proof fn lemma_next_newline_is(buf: Seq<u8>, from: int, e: int)
    requires
        0 <= from <= e <= buf.len(),
        forall|j: int| from <= j < e ==> buf[j] != NEWLINE,
        e == buf.len() || buf[e] == NEWLINE,
    ensures
        next_newline(buf, from) == e,
{
    lemma_next_newline_bounds(buf, from);
}

/// `lines_from` is the line starting at `start` followed by the lines after it.
pub proof fn lemma_lines_from_unfold(buf: Seq<u8>, start: int)
    requires
        0 <= start <= buf.len(),
    ensures
        ({
            let e = next_newline(buf, start);
            let ls = lines_from(buf, start);
            &&& start <= e <= buf.len()
            &&& ls.len() > 0
            &&& ls[0] == buf.subrange(start, e)
            &&& e < buf.len() ==> ls.drop_first() == lines_from(buf, e + 1)
            &&& e >= buf.len() ==> ls.drop_first() == Seq::<Seq<u8>>::empty()
        }),
{
    let e = next_newline(buf, start);
    lemma_next_newline_bounds(buf, start);
    let line = buf.subrange(start, e);
    let ls = lines_from(buf, start);
    if e < buf.len() {
        assert(ls == seq![line] + lines_from(buf, e + 1));
        assert(ls.drop_first() =~= lines_from(buf, e + 1));
    } else {
        assert(ls == seq![line]);
        assert(ls.drop_first() =~= Seq::<Seq<u8>>::empty());
    }
}

/// One line taken off the front of `lines_from`, and what the matches become.
pub proof fn lemma_matches_step(buf: Seq<u8>, word: Seq<u8>, start: int, first: int)
    requires
        0 <= start <= buf.len(),
    ensures
        ({
            let e = next_newline(buf, start);
            let line = buf.subrange(start, e);
            let here = if contains_word(line, word) { seq![(first, line)] } else { Seq::empty() };
            &&& start <= e <= buf.len()
            &&& e < buf.len() ==> numbered_matches(lines_from(buf, start), word, first)
                == here + numbered_matches(lines_from(buf, e + 1), word, first + 1)
            &&& e >= buf.len() ==> numbered_matches(lines_from(buf, start), word, first) == here
        }),
{
    let e = next_newline(buf, start);
    lemma_next_newline_bounds(buf, start);
    let line = buf.subrange(start, e);
    let ls = lines_from(buf, start);
    if e < buf.len() {
        let rest = lines_from(buf, e + 1);
        assert(ls == seq![line] + rest);
        assert(ls.drop_first() =~= rest);
        assert(ls[0] == line);
    } else {
        assert(ls == seq![line]);
        assert(ls.drop_first() =~= Seq::<Seq<u8>>::empty());
        assert(numbered_matches(ls.drop_first(), word, first + 1) == Seq::<(int, Seq<u8>)>::empty());
        assert(ls[0] == line);
    }
}

/// An occurrence inside a slice of `buf` is an occurrence in `buf`.
pub proof fn lemma_occurs_in_slice(buf: Seq<u8>, word: Seq<u8>, s: int, e: int, q: int)
    requires
        0 <= s <= e <= buf.len(),
        occurs_at(buf.subrange(s, e), word, q),
    ensures
        occurs_at(buf, word, s + q),
        s + q + word.len() <= e,
{
    let line = buf.subrange(s, e);
    assert(buf.subrange(s + q, s + q + word.len()) =~= line.subrange(q, q + word.len()));
}

/// An occurrence in `buf` that lies inside `[s, e)` is an occurrence in that slice.
pub proof fn lemma_occurs_into_slice(buf: Seq<u8>, word: Seq<u8>, s: int, e: int, p: int)
    requires
        0 <= s <= p,
        p + word.len() <= e <= buf.len(),
        occurs_at(buf, word, p),
    ensures
        occurs_at(buf.subrange(s, e), word, p - s),
{
    let line = buf.subrange(s, e);
    assert(line.subrange(p - s, p - s + word.len()) =~= buf.subrange(p, p + word.len()));
}

/// With no occurrence of `word` in `buf` at or after `start`, no line from
/// `start` on matches.
pub proof fn lemma_no_occurrence_no_matches(buf: Seq<u8>, word: Seq<u8>, start: int, first: int)
    requires
        0 <= start <= buf.len(),
        forall|p: int| start <= p ==> !occurs_at(buf, word, p),
    ensures
        numbered_matches(lines_from(buf, start), word, first) == Seq::<(int, Seq<u8>)>::empty(),
    decreases buf.len() - start,
{
    lemma_matches_step(buf, word, start, first);
    let e = next_newline(buf, start);
    let line = buf.subrange(start, e);
    if contains_word(line, word) {
        let q = choose|q: int| occurs_at(line, word, q);
        lemma_occurs_in_slice(buf, word, start, e, q);
    }
    if e < buf.len() {
        lemma_no_occurrence_no_matches(buf, word, e + 1, first + 1);
        assert(Seq::<(int, Seq<u8>)>::empty() + Seq::<(int, Seq<u8>)>::empty() =~= Seq::<(int, Seq<u8>)>::empty());
    }
}

/// No line contains a `\n`, so a word that holds one matches no line.
pub proof fn lemma_newline_word_no_matches(buf: Seq<u8>, word: Seq<u8>, start: int, first: int)
    requires
        0 <= start <= buf.len(),
        word.contains(NEWLINE),
    ensures
        numbered_matches(lines_from(buf, start), word, first) == Seq::<(int, Seq<u8>)>::empty(),
    decreases buf.len() - start,
{
    lemma_matches_step(buf, word, start, first);
    lemma_next_newline_bounds(buf, start);
    let e = next_newline(buf, start);
    let line = buf.subrange(start, e);
    if contains_word(line, word) {
        let q = choose|q: int| occurs_at(line, word, q);
        let j = choose|j: int| 0 <= j < word.len() && word[j] == NEWLINE;
        assert(line.subrange(q, q + word.len())[j] == line[q + j]);
        assert(line[q + j] == buf[start + q + j]);
    }
    if e < buf.len() {
        lemma_newline_word_no_matches(buf, word, e + 1, first + 1);
        assert(Seq::<(int, Seq<u8>)>::empty() + Seq::<(int, Seq<u8>)>::empty() =~= Seq::<(int, Seq<u8>)>::empty());
    }
}

/// No line holds a `\n`.
pub proof fn lemma_lines_have_no_newline(buf: Seq<u8>, start: int)
    requires
        0 <= start <= buf.len(),
    ensures
        forall|i: int, j: int|
            0 <= i < lines_from(buf, start).len() && 0 <= j < lines_from(buf, start)[i].len()
                ==> lines_from(buf, start)[i][j] != NEWLINE,
    decreases buf.len() - start,
{
    lemma_lines_from_unfold(buf, start);
    lemma_next_newline_bounds(buf, start);
    let e = next_newline(buf, start);
    let ls = lines_from(buf, start);
    if e < buf.len() {
        lemma_lines_have_no_newline(buf, e + 1);
    }
    assert forall|i: int, j: int| 0 <= i < ls.len() && 0 <= j < ls[i].len() implies ls[i][j]
        != NEWLINE by {
        if i == 0 {
            assert(ls[0][j] == buf[start + j]);
        } else {
            assert(ls[i] == ls.drop_first()[i - 1]);
        }
    }
}

/// `numbered_matches` reports exactly the lines that contain the word, each
/// once, with its own number, in increasing order.
pub proof fn lemma_numbered_matches_exact(ls: Seq<Seq<u8>>, word: Seq<u8>, first: int)
    ensures
        ({
            let r = numbered_matches(ls, word, first);
            &&& forall|k: int|
                0 <= k < r.len() ==> first <= (#[trigger] r[k]).0 < first + ls.len() && r[k].1
                    == ls[r[k].0 - first] && contains_word(r[k].1, word)
            &&& forall|k1: int, k2: int| 0 <= k1 < k2 < r.len() ==> (#[trigger] r[k1]).0 < (
            #[trigger] r[k2]).0
            &&& forall|i: int|
                0 <= i < ls.len() && contains_word(#[trigger] ls[i], word) ==> exists|k: int|
                    0 <= k < r.len() && r[k].0 == first + i
        }),
    decreases ls.len(),
{
    if ls.len() > 0 {
        let tail = ls.drop_first();
        lemma_numbered_matches_exact(tail, word, first + 1);
        let rest = numbered_matches(tail, word, first + 1);
        let r = numbered_matches(ls, word, first);
        assert forall|i: int| 0 <= i < ls.len() && contains_word(#[trigger] ls[i], word) implies exists|k: int|
            0 <= k < r.len() && r[k].0 == first + i by {
            if i == 0 {
                assert(r[0].0 == first);
            } else {
                assert(tail[i - 1] == ls[i]);
                let k = choose|k: int| 0 <= k < rest.len() && rest[k].0 == first + 1 + (i - 1);
                if contains_word(ls[0], word) {
                    assert(r[k + 1] == rest[k]);
                } else {
                    assert(r[k] == rest[k]);
                }
            }
        }
        assert forall|k: int| 0 <= k < r.len() implies first <= (#[trigger] r[k]).0 < first
            + ls.len() && r[k].1 == ls[r[k].0 - first] && contains_word(r[k].1, word) by {
            if contains_word(ls[0], word) {
                if k > 0 {
                    assert(r[k] == rest[k - 1]);
                    assert(tail[r[k].0 - first - 1] == ls[r[k].0 - first]);
                }
            } else {
                assert(r[k] == rest[k]);
                assert(tail[r[k].0 - first - 1] == ls[r[k].0 - first]);
            }
        }
        assert forall|k1: int, k2: int| 0 <= k1 < k2 < r.len() implies (#[trigger] r[k1]).0 < (
        #[trigger] r[k2]).0 by {
            if contains_word(ls[0], word) {
                assert(r[k2] == rest[k2 - 1]);
                if k1 > 0 {
                    assert(r[k1] == rest[k1 - 1]);
                }
            } else {
                assert(r[k1] == rest[k1]);
                assert(r[k2] == rest[k2]);
            }
        }
    }
}

/// What a search reports, in terms of the buffer's lines: every line that
/// contains the word, each exactly once, with its 1-based number and its text,
/// in increasing order of line number; none of the reported lines holds a
/// `\n`, and the empty word reports nothing.
pub proof fn lemma_search_reports_matching_lines(word: Seq<u8>, buf: Seq<u8>)
    ensures
        ({
            let r = search_spec(word, buf);
            let ls = lines(buf);
            &&& word.len() == 0 ==> r.len() == 0
            &&& forall|k: int|
                0 <= k < r.len() ==> 1 <= (#[trigger] r[k]).0 <= ls.len() && r[k].1 == ls[r[k].0
                    - 1] && contains_word(r[k].1, word) && !r[k].1.contains(NEWLINE)
            &&& forall|k1: int, k2: int| 0 <= k1 < k2 < r.len() ==> (#[trigger] r[k1]).0 < (
            #[trigger] r[k2]).0
            &&& word.len() > 0 ==> forall|i: int|
                0 <= i < ls.len() && contains_word(#[trigger] ls[i], word) ==> exists|k: int|
                    0 <= k < r.len() && r[k].0 == i + 1
        }),
{
    lemma_numbered_matches_exact(lines(buf), word, 1);
    lemma_lines_have_no_newline(buf, 0);
    let r = search_spec(word, buf);
    let ls = lines(buf);
    assert forall|k: int| 0 <= k < r.len() implies !(#[trigger] r[k]).1.contains(NEWLINE) by {
        if r[k].1.contains(NEWLINE) {
            let j = choose|j: int| 0 <= j < r[k].1.len() && r[k].1[j] == NEWLINE;
            assert(ls[r[k].0 - 1][j] == NEWLINE);
        }
    }
}

} // verus!
