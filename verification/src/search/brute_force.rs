//! The reference algorithm: each line is scanned window by window.
use vstd::prelude::*;
use vstd::slice::slice_subrange;
use vstd::string::*;

use super::model::{
    contains_word, lemma_matches_step, lemma_no_occurrence_no_matches, lemma_next_newline_is, lines_from, next_newline,
    numbered_matches, occurs_at, search_spec, NEWLINE,
};
use super::{line_text, match_is, matches_are, Match, SearchAlgorithm};

verus! {

/// Brute-force search.
pub struct Bf;

/// `hay[at..at + word.len()]` equals `word`.
pub(crate) fn window_matches(hay: &[u8], at: usize, word: &[u8]) -> (eq: bool)
    requires
        at + word@.len() <= hay@.len(),
    ensures
        eq == (hay@.subrange(at as int, at + word@.len()) == word@),
{
    let hay_len = hay.len();
    let mut k: usize = 0;
    while k < word.len()
        invariant
            hay_len == hay@.len(),
            at + word@.len() <= hay@.len(),
            k <= word@.len(),
            forall|j: int| 0 <= j < k ==> hay@[at + j] == word@[j],
        decreases word@.len() - k,
    {
        if hay[at + k] != word[k] {
            assert(hay@.subrange(at as int, at + word@.len())[k as int] != word@[k as int]);
            return false;
        }
        k = k + 1;
    }
    assert(hay@.subrange(at as int, at + word@.len()) =~= word@);
    true
}

/// The first position at which `needle` occurs in `haystack`.
pub(crate) fn find_first(haystack: &[u8], needle: &[u8]) -> (pos: Option<usize>)
    requires
        needle@.len() > 0,
    ensures
        match pos {
            Some(i) => occurs_at(haystack@, needle@, i as int) && forall|j: int|
                0 <= j < i ==> !occurs_at(haystack@, needle@, j),
            None => !contains_word(haystack@, needle@),
        },
{
    if needle.len() > haystack.len() {
        return None;
    }
    let hay_len = haystack.len();
    let last = hay_len - needle.len();
    let mut i: usize = 0;
    while i <= last
        invariant
            hay_len == haystack@.len(),
            needle@.len() > 0,
            last + needle@.len() == haystack@.len(),
            i <= last + 1,
            forall|j: int| 0 <= j < i ==> !occurs_at(haystack@, needle@, j),
        decreases last + 1 - i,
    {
        if window_matches(haystack, i, needle) {
            return Some(i);
        }
        i = i + 1;
    }
    None
}

/// Index of the first `\n` in `buf` at or after `start`, or `buf.len()`.
pub(crate) fn line_end(buf: &[u8], start: usize) -> (e: usize)
    requires
        start <= buf@.len(),
    ensures
        e as int == next_newline(buf@, start as int),
{
    let mut e = start;
    while e < buf.len() && buf[e] != NEWLINE
        invariant
            start <= e <= buf@.len(),
            forall|j: int| start <= j < e ==> buf@[j] != NEWLINE,
        decreases buf@.len() - e,
    {
        e = e + 1;
    }
    proof {
        lemma_next_newline_is(buf@, start as int, e as int);
    }
    e
}

impl SearchAlgorithm for Bf {
    open spec fn code(&self) -> Seq<char> {
        "bf"@
    }

    fn search(&self, word: &str, buf: &[u8]) -> (found: Vec<Match>) {
        let w = word.as_bytes();
        let mut found: Vec<Match> = Vec::new();
        if w.len() == 0 {
            return found;
        }
        let ghost expected: Seq<(int, Seq<u8>)> = Seq::empty();
        let mut start: usize = 0;
        let mut line_number: u64 = 1;
        loop
            invariant
                w@ == word.spec_bytes(),
                w@.len() > 0,
                start <= buf@.len(),
                1 <= line_number <= start + 1,
                matches_are(found@, expected),
                search_spec(w@, buf@) == expected + numbered_matches(
                    lines_from(buf@, start as int),
                    w@,
                    line_number as int,
                ),
            decreases buf@.len() - start,
        {
            let e = line_end(buf, start);
            proof {
                lemma_matches_step(buf@, w@, start as int, line_number as int);
            }
            let line = slice_subrange(buf, start, e);
            let ghost here: Seq<(int, Seq<u8>)> = if contains_word(line@, w@) {
                seq![(line_number as int, line@)]
            } else {
                Seq::empty()
            };
            match find_first(line, w) {
                Some(_) => {
                    let m = Match { line_number, line: line_text(line) };
                    proof {
                        assert(match_is(m, (line_number as int, line@)));
                    }
                    found.push(m);
                },
                None => {},
            }
            proof {
                assert(matches_are(found@, expected + here));
                assert(search_spec(w@, buf@) == expected + (here + numbered_matches(
                    lines_from(buf@, e + 1),
                    w@,
                    line_number + 1,
                ))) by {
                    if e >= buf@.len() {
                        assert(here + numbered_matches(lines_from(buf@, e + 1), w@, line_number + 1)
                            =~= here);
                    }
                }
                assert(expected + (here + numbered_matches(lines_from(buf@, e + 1), w@, line_number + 1))
                    =~= (expected + here) + numbered_matches(lines_from(buf@, e + 1), w@, line_number + 1));
                expected = expected + here;
            }
            if e >= buf.len() {
                assert(search_spec(w@, buf@) =~= expected);
                return found;
            }
            if e + 1 == buf.len() {
                // What follows the last `\n` is one empty line, which cannot
                // hold the (non-empty) word.
                proof {
                    lemma_no_occurrence_no_matches(buf@, w@, e + 1, line_number + 1);
                    assert(search_spec(w@, buf@) =~= expected);
                }
                return found;
            }
            start = e + 1;
            line_number = line_number + 1;
        }
    }
}

} // verus!
