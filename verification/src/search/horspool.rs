//! Boyer-Moore-Horspool: windows over the whole buffer, skipped ahead by a
//! bad-character table, with the line of each match recovered afterwards.
use vstd::prelude::*;
use vstd::slice::slice_subrange;
use vstd::string::*;

use super::brute_force::line_end;
use super::model::{
    contains_word, lemma_matches_step, lemma_newline_word_no_matches,
    lemma_next_newline_bounds, lemma_next_newline_is, lemma_no_occurrence_no_matches,
    lemma_occurs_in_slice, lemma_occurs_into_slice, lines_from, numbered_matches,
    occurs_at, search_spec, NEWLINE,
};
use super::{line_text, match_is, matches_are, Match, SearchAlgorithm};

verus! {

/// Boyer-Moore-Horspool search.
pub struct Bmh;

/// A bad-character table is safe for `word` when every entry is a shift of 1
/// to `word.len()`, and no shift by `table[c]` passes over a window that could
/// match: a byte `c` at `word[j]` (other than the last) needs a shift of at
/// most `word.len() - 1 - j`.
pub open spec fn safe_shift_table(table: Seq<usize>, word: Seq<u8>) -> bool {
    &&& table.len() == 256
    &&& forall|c: int|
        0 <= c < 256 ==> 1 <= #[trigger] table[c] <= word.len()
    &&& forall|j: int|
        0 <= j < word.len() - 1 ==> table[word[j] as int] <= word.len() - 1 - j
}

/// The Horspool table: `word.len() - 1 - j` for the last `j < word.len() - 1`
/// at which a byte occurs, `word.len()` for bytes that occur nowhere before the
/// last position.
fn shift_table(word: &[u8]) -> (table: Vec<usize>)
    requires
        word@.len() > 0,
    ensures
        safe_shift_table(table@, word@),
{
    let m = word.len();
    let mut table: Vec<usize> = Vec::new();
    let mut c: usize = 0;
    while c < 256
        invariant
            c <= 256,
            table@.len() == c,
            forall|i: int| 0 <= i < c ==> table@[i] == m,
        decreases 256 - c,
    {
        table.push(m);
        c = c + 1;
    }
    let mut j: usize = 0;
    while j + 1 < m
        invariant
            m == word@.len(),
            m > 0,
            j < m,
            table@.len() == 256,
            forall|i: int| 0 <= i < 256 ==> 1 <= #[trigger] table@[i] <= m,
            forall|i: int| 0 <= i < j ==> table@[word@[i] as int] <= m - 1 - i,
        decreases m - j,
    {
        let b = word[j] as usize;
        let ghost before = table@;
        table.set(b, m - 1 - j);
        proof {
            assert forall|i: int| 0 <= i < j + 1 implies table@[word@[i] as int] <= m - 1 - i by {
                if word@[i] as int != b as int {
                    assert(table@[word@[i] as int] == before[word@[i] as int]);
                }
            }
        }
        j = j + 1;
    }
    table
}

/// A mismatch at `window` with last byte `c` rules out every start in
/// `[window, window + table[c])`.
proof fn lemma_skip_is_safe(buf: Seq<u8>, word: Seq<u8>, table: Seq<usize>, window: int, p: int)
    requires
        safe_shift_table(table, word),
        word.len() > 0,
        0 <= window,
        window + word.len() <= buf.len(),
        !occurs_at(buf, word, window),
        window <= p < window + table[buf[window + word.len() - 1] as int],
    ensures
        !occurs_at(buf, word, p),
{
    let m = word.len();
    let c = buf[window + m - 1];
    if p > window && occurs_at(buf, word, p) {
        let j = window + m - 1 - p;
        assert(buf.subrange(p, p + m)[j] == buf[window + m - 1]);
        assert(word[j] == c);
        assert(table[word[j] as int] <= m - 1 - j);
    }
}

impl SearchAlgorithm for Bmh {
    open spec fn code(&self) -> Seq<char> {
        "bmh"@
    }

    fn search(&self, word: &str, buf: &[u8]) -> (found: Vec<Match>) {
        let w = word.as_bytes();
        let m = w.len();
        let n = buf.len();
        let mut found: Vec<Match> = Vec::new();
        if m == 0 {
            return found;
        }
        // A line never holds a `\n`, so a word that does can match no line.
        let mut k: usize = 0;
        while k < m
            invariant
                w@ == word.spec_bytes(),
                m == w@.len(),
                found@.len() == 0,
                k <= m,
                forall|i: int| 0 <= i < k ==> w@[i] != NEWLINE,
            decreases m - k,
        {
            if w[k] == NEWLINE {
                proof {
                    assert(w@.contains(NEWLINE));
                    lemma_newline_word_no_matches(buf@, w@, 0, 1);
                }
                return found;
            }
            k = k + 1;
        }
        if m > n {
            proof {
                lemma_no_occurrence_no_matches(buf@, w@, 0, 1);
            }
            return found;
        }
        let table = shift_table(w);
        let ghost expected: Seq<(int, Seq<u8>)> = Seq::empty();
        let mut window: usize = 0;
        let mut scan: usize = 0;
        let mut line_start: usize = 0;
        let mut line_number: u64 = 1;
        while window <= n - m
            invariant
                w@ == word.spec_bytes(),
                m == w@.len(),
                n == buf@.len(),
                0 < m <= n,
                forall|i: int| 0 <= i < m ==> w@[i] != NEWLINE,
                safe_shift_table(table@, w@),
                line_start <= scan <= window <= n,
                1 <= line_number <= line_start + 1,
                forall|j: int| line_start <= j < scan ==> buf@[j] != NEWLINE,
                forall|p: int| line_start <= p < window ==> !occurs_at(buf@, w@, p),
                matches_are(found@, expected),
                search_spec(w@, buf@) == expected + numbered_matches(
                    lines_from(buf@, line_start as int),
                    w@,
                    line_number as int,
                ),
            decreases n - window,
        {
            // Bring the line bookkeeping up to the window: every line closed
            // on the way had no occurrence, since none starts before `window`.
            while scan < window
                invariant
                    w@ == word.spec_bytes(),
                    m == w@.len(),
                    n == buf@.len(),
                    0 < m <= n,
                    line_start <= scan <= window <= n - m,
                    1 <= line_number <= line_start + 1,
                    forall|j: int| line_start <= j < scan ==> buf@[j] != NEWLINE,
                    forall|p: int| line_start <= p < window ==> !occurs_at(buf@, w@, p),
                    search_spec(w@, buf@) == expected + numbered_matches(
                        lines_from(buf@, line_start as int),
                        w@,
                        line_number as int,
                    ),
                decreases window - scan,
            {
                if buf[scan] == NEWLINE {
                    proof {
                        lemma_next_newline_is(buf@, line_start as int, scan as int);
                        lemma_matches_step(buf@, w@, line_start as int, line_number as int);
                        let line = buf@.subrange(line_start as int, scan as int);
                        if contains_word(line, w@) {
                            let q = choose|q: int| occurs_at(line, w@, q);
                            lemma_occurs_in_slice(buf@, w@, line_start as int, scan as int, q);
                        }
                        assert(Seq::<(int, Seq<u8>)>::empty() + numbered_matches(
                            lines_from(buf@, scan + 1),
                            w@,
                            line_number + 1,
                        ) =~= numbered_matches(lines_from(buf@, scan + 1), w@, line_number + 1));
                    }
                    line_start = scan + 1;
                    line_number = line_number + 1;
                }
                scan = scan + 1;
            }
            // Compare the window from its last byte back.
            let mut j: usize = m;
            while j > 0 && buf[window + j - 1] == w[j - 1]
                invariant
                    m == w@.len(),
                    n == buf@.len(),
                    window + m <= n,
                    j <= m,
                    forall|i: int| j <= i < m ==> buf@[window + i] == w@[i],
                decreases j,
            {
                j = j - 1;
            }
            if j == 0 {
                proof {
                    assert(buf@.subrange(window as int, window + m) =~= w@);
                    assert forall|i: int| line_start <= i < window + m implies buf@[i] != NEWLINE by {
                        if i >= window {
                            assert(buf@[i] == w@[i - window]);
                        }
                    }
                }
                let e = line_end(buf, window + m);
                proof {
                    lemma_next_newline_bounds(buf@, window + m);
                    lemma_next_newline_is(buf@, line_start as int, e as int);
                    lemma_matches_step(buf@, w@, line_start as int, line_number as int);
                    lemma_occurs_into_slice(buf@, w@, line_start as int, e as int, window as int);
                }
                let line = slice_subrange(buf, line_start, e);
                let m_found = Match { line_number, line: line_text(line) };
                proof {
                    assert(match_is(m_found, (line_number as int, line@)));
                }
                found.push(m_found);
                let ghost here = seq![(line_number as int, line@)];
                proof {
                    assert(matches_are(found@, expected + here));
                }
                if e >= n {
                    proof {
                        assert(search_spec(w@, buf@) =~= expected + here);
                    }
                    return found;
                }
                if e + 1 == n {
                    // What follows the last `\n` is one empty line, which
                    // cannot hold the (non-empty) word.
                    proof {
                        lemma_no_occurrence_no_matches(buf@, w@, e + 1, line_number + 1);
                        assert(search_spec(w@, buf@) =~= expected + here);
                    }
                    return found;
                }
                proof {
                    assert(expected + (here + numbered_matches(lines_from(buf@, e + 1), w@, line_number + 1))
                        =~= (expected + here) + numbered_matches(lines_from(buf@, e + 1), w@, line_number + 1));
                    expected = expected + here;
                }
                window = e + 1;
                scan = window;
                line_start = window;
                line_number = line_number + 1;
            } else {
                let last = buf[window + m - 1];
                let shift = table[last as usize];
                proof {
                    assert(buf@.subrange(window as int, window + m)[j - 1] != w@[j - 1]);
                    assert forall|p: int| line_start <= p < window + shift implies !occurs_at(buf@, w@, p) by {
                        if p >= window {
                            lemma_skip_is_safe(buf@, w@, table@, window as int, p);
                        }
                    }
                }
                window = window + shift;
            }
        }
        proof {
            assert forall|p: int| line_start <= p implies !occurs_at(buf@, w@, p) by {
                if p >= window {
                    assert(p + m > n);
                }
            }
            lemma_no_occurrence_no_matches(buf@, w@, line_start as int, line_number as int);
            assert(search_spec(w@, buf@) =~= expected);
        }
        found
    }
}

} // verus!
