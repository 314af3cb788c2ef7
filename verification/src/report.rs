//! The bookkeeping of a run: what is shown of each file's matches, the totals
//! kept as each file is reported, the timing summary, and the exit status.
use vstd::prelude::*;
use vstd::string::*;

use crate::search::Match;

verus! {

/// Exit status: at least one line matched and nothing failed.
pub const EXIT_MATCH: i32 = 0i32;

/// Exit status: nothing matched and nothing failed.
pub const EXIT_NO_MATCH: i32 = 1i32;

/// Exit status: something failed, whatever else happened.
pub const EXIT_ERROR: i32 = 2i32;

/// How one file's matches are shown.
#[derive(Debug, PartialEq, Eq, Clone, Copy)]
pub enum MatchDisplay {
    /// Each matching line, with the file name and line number.
    Lines,
    /// A binary file with matches: one notice that it matches, and none of
    /// its bytes, which would corrupt a terminal.
    BinaryNotice,
    /// Nothing at all.
    Nothing,
}

/// How a file's matches are shown: a text file's matching lines are printed;
/// a binary file that matched gets one notice; a binary file that did not
/// match prints nothing, as grep does.
pub fn match_display(binary: bool, match_count: usize) -> (display: MatchDisplay)
    ensures
        !binary ==> display == MatchDisplay::Lines,
        binary && match_count > 0 ==> display == MatchDisplay::BinaryNotice,
        binary && match_count == 0 ==> display == MatchDisplay::Nothing,
{
    if !binary {
        MatchDisplay::Lines
    } else if match_count > 0 {
        MatchDisplay::BinaryNotice
    } else {
        MatchDisplay::Nothing
    }
}

/// The decimal digit `d`.
pub open spec fn digit_text(d: int) -> Seq<char> {
    if d == 0 {
        "0"@
    } else if d == 1 {
        "1"@
    } else if d == 2 {
        "2"@
    } else if d == 3 {
        "3"@
    } else if d == 4 {
        "4"@
    } else if d == 5 {
        "5"@
    } else if d == 6 {
        "6"@
    } else if d == 7 {
        "7"@
    } else if d == 8 {
        "8"@
    } else {
        "9"@
    }
}

/// `n` in decimal, without leading zeros.
pub open spec fn decimal(n: nat) -> Seq<char>
    decreases n,
{
    if n < 10 {
        digit_text(n as int)
    } else {
        decimal(n / 10) + digit_text((n % 10) as int)
    }
}

/// The value of a decimal digit character.
pub open spec fn digit_value(c: char) -> int {
    c as int - '0' as int
}

/// A decimal digit character, `0` to `9`.
pub open spec fn is_digit(c: char) -> bool {
    '0' <= c <= '9'
}

/// The number a string of decimal digits reads as.
pub open spec fn numeral_value(s: Seq<char>) -> int
    decreases s.len(),
{
    if s.len() == 0 {
        0
    } else {
        numeral_value(s.drop_last()) * 10 + digit_value(s.last())
    }
}

/// `text` is how `n` is written in base 10: one or more digits, no leading
/// zero, reading back as `n`.
pub open spec fn writes_number(text: Seq<char>, n: int) -> bool {
    &&& text.len() > 0
    &&& forall|i: int| 0 <= i < text.len() ==> is_digit(#[trigger] text[i])
    &&& text.len() > 1 ==> text[0] != '0'
    &&& numeral_value(text) == n
}

proof fn lemma_digit_text(d: int)
    requires
        0 <= d < 10,
    ensures
        digit_text(d).len() == 1,
        is_digit(digit_text(d)[0]),
        digit_value(digit_text(d)[0]) == d,
{
    reveal_strlit("0");
    reveal_strlit("1");
    reveal_strlit("2");
    reveal_strlit("3");
    reveal_strlit("4");
    reveal_strlit("5");
    reveal_strlit("6");
    reveal_strlit("7");
    reveal_strlit("8");
    reveal_strlit("9");
}

/// Line numbers are written in base 10: the digits of `decimal(n)` read back
/// as `n`, with no leading zero.
pub proof fn lemma_decimal_reads_back(n: nat)
    ensures
        writes_number(decimal(n), n as int),
    decreases n,
{
    if n < 10 {
        lemma_digit_text(n as int);
        let t = decimal(n);
        assert(t.drop_last() =~= Seq::<char>::empty());
        assert(numeral_value(t.drop_last()) == 0);
    } else {
        lemma_decimal_reads_back(n / 10);
        lemma_digit_text((n % 10) as int);
        let hi = decimal(n / 10);
        let d = digit_text((n % 10) as int);
        let t = decimal(n);
        assert(t == hi + d);
        assert(t.drop_last() =~= hi);
        assert(t.last() == d[0]);
        assert(t[0] == hi[0]);
        assert forall|i: int| 0 <= i < t.len() implies is_digit(#[trigger] t[i]) by {
            if i < hi.len() {
                assert(t[i] == hi[i]);
            }
        }
        assert(numeral_value(t) == numeral_value(hi) * 10 + digit_value(d[0]));
        if hi.len() == 1 {
            assert(numeral_value(hi) == numeral_value(hi.drop_last()) * 10 + digit_value(hi.last()));
            assert(hi.drop_last() =~= Seq::<char>::empty());
            assert(digit_value(hi[0]) > 0);
        }
    }
}

/// The output line for one match in file `name` is the name, `:`, the line
/// number in base 10, a space, the line's text and a newline.
pub proof fn lemma_match_line_layout(name: Seq<char>, m: Match)
    ensures
        exists|number: Seq<char>|
            writes_number(number, m.line_number as int) && match_line(name, m) == name + seq![':']
                + number + seq![' '] + m.line@ + seq!['\n'],
{
    reveal_strlit(":");
    reveal_strlit(" ");
    reveal_strlit("\n");
    lemma_decimal_reads_back(m.line_number as nat);
    let number = decimal(m.line_number as nat);
    assert(match_line(name, m) =~= name + seq![':'] + number + seq![' '] + m.line@ + seq!['\n']);
}

/// The output line for one match in file `name`: `name:number text`.
pub open spec fn match_line(name: Seq<char>, m: Match) -> Seq<char> {
    name + ":"@ + decimal(m.line_number as nat) + " "@ + m.line@ + "\n"@
}

/// The output lines for the matches `ms` in file `name`, in order.
pub open spec fn match_lines(name: Seq<char>, ms: Seq<Match>) -> Seq<char>
    decreases ms.len(),
{
    if ms.len() == 0 {
        Seq::empty()
    } else {
        match_lines(name, ms.drop_last()) + match_line(name, ms.last())
    }
}

/// What is written to standard output for file `name`: its matching lines,
/// or for a binary file with matches the one notice, or nothing.
pub open spec fn file_output_text(name: Seq<char>, binary: bool, ms: Seq<Match>) -> Seq<char> {
    if !binary {
        match_lines(name, ms)
    } else if ms.len() > 0 {
        "Binary file "@ + name + " matches\n"@
    } else {
        Seq::empty()
    }
}

/// Appends `n` in decimal to `out`.
fn push_decimal(out: &mut String, n: u64)
    ensures
        final(out)@ == old(out)@ + decimal(n as nat),
    decreases n,
{
    if n >= 10 {
        push_decimal(out, n / 10);
    }
    let d = n % 10;
    if d == 0 {
        out.append("0");
    } else if d == 1 {
        out.append("1");
    } else if d == 2 {
        out.append("2");
    } else if d == 3 {
        out.append("3");
    } else if d == 4 {
        out.append("4");
    } else if d == 5 {
        out.append("5");
    } else if d == 6 {
        out.append("6");
    } else if d == 7 {
        out.append("7");
    } else if d == 8 {
        out.append("8");
    } else {
        out.append("9");
    }
    proof {
        if n < 10 {
            assert(old(out)@ + digit_text(n as int) =~= old(out)@ + decimal(n as nat));
        } else {
            assert(old(out)@ + decimal((n / 10) as nat) + digit_text((n % 10) as int) =~= old(out)@
                + decimal(n as nat));
        }
    }
}

/// The text written to standard output for one file named `name`.
pub fn file_output(name: &str, binary: bool, matches: &[Match]) -> (text: String)
    ensures
        text@ == file_output_text(name@, binary, matches@),
{
    let mut text = String::new();
    match match_display(binary, matches.len()) {
        MatchDisplay::BinaryNotice => {
            text.append("Binary file ");
            text.append(name);
            text.append(" matches\n");
            proof {
                assert(text@ =~= "Binary file "@ + name@ + " matches\n"@);
            }
        },
        MatchDisplay::Lines => {
            let mut i: usize = 0;
            proof {
                assert(matches@.take(0) =~= Seq::<Match>::empty());
            }
            while i < matches.len()
                invariant
                    i <= matches@.len(),
                    text@ == match_lines(name@, matches@.take(i as int)),
                decreases matches@.len() - i,
            {
                let ghost before = text@;
                let m = &matches[i];
                text.append(name);
                text.append(":");
                push_decimal(&mut text, m.line_number);
                text.append(" ");
                text.append(m.line.as_str());
                text.append("\n");
                proof {
                    assert(matches@.take(i + 1).drop_last() =~= matches@.take(i as int));
                    assert(matches@.take(i + 1).last() == matches@[i as int]);
                    assert(text@ =~= before + match_line(name@, matches@[i as int]));
                }
                i = i + 1;
            }
            proof {
                assert(matches@.take(matches@.len() as int) =~= matches@);
            }
        },
        MatchDisplay::Nothing => {},
    }
    text
}

/// Standard output over a run whose files, in argument order, had these
/// (name, binary, matches): each file's text in turn.
pub open spec fn run_output(files: Seq<(Seq<char>, bool, Seq<Match>)>) -> Seq<char>
    decreases files.len(),
{
    if files.len() == 0 {
        Seq::empty()
    } else {
        let f = files.last();
        run_output(files.drop_last()) + file_output_text(f.0, f.1, f.2)
    }
}

/// What the timing summary needs from one file that was searched: its size,
/// and how long the search alone took.
#[derive(Debug, Clone, Copy)]
pub struct TimingInfo {
    pub bytes: u64,
    pub micros: u128,
}

/// Totals over every file reported so far.
pub struct RunTotals {
    /// Files reported, whether they were searched or failed.
    pub files: usize,
    /// Files that failed.
    pub errors: usize,
    /// Files with at least one matching line.
    pub files_matched: usize,
    /// Matching lines over all files, binary ones included: their matches
    /// count even though their lines are not shown.
    pub matches: u64,
    /// One entry per file searched, when timing is on.
    pub timings: Vec<TimingInfo>,
    /// Everything `report_file` has handed out for standard output, in order.
    pub written: Ghost<Seq<char>>,
    /// The (name, binary, matches) of every file `report_file` has reported,
    /// in order.
    pub reported: Ghost<Seq<(Seq<char>, bool, Seq<Match>)>>,
}

impl RunTotals {
    /// Totals before any file is reported.
    pub fn new() -> (totals: RunTotals)
        ensures
            totals.files == 0,
            totals.errors == 0,
            totals.files_matched == 0,
            totals.matches == 0,
            totals.timings@.len() == 0,
            counts(totals) == counts_after(Seq::empty()),
            totals.written@ == Seq::<char>::empty(),
            totals.reported@ == Seq::<(Seq<char>, bool, Seq<Match>)>::empty(),
            totals.written@ == run_output(totals.reported@),
    {
        RunTotals {
            files: 0,
            errors: 0,
            files_matched: 0,
            matches: 0,
            timings: Vec::new(),
            written: Ghost(Seq::empty()),
            reported: Ghost(Seq::empty()),
        }
    }

    /// Reports one file named `name`: counts it as `record` does and returns
    /// the text to write to standard output for it.
    pub fn report_file(
        &mut self,
        name: &str,
        binary: bool,
        matches: &[Match],
        failed: bool,
        timing: Option<TimingInfo>,
    ) -> (text: String)
        requires
            old(self).files < usize::MAX,
            failed ==> old(self).errors < usize::MAX,
            matches@.len() > 0 ==> old(self).files_matched < usize::MAX,
            old(self).matches + matches@.len() <= u64::MAX,
        ensures
            text@ == file_output_text(name@, binary, matches@),
            final(self).written@ == old(self).written@ + text@,
            final(self).reported@ == old(self).reported@.push((name@, binary, matches@)),
            old(self).written@ == run_output(old(self).reported@) ==> final(self).written@
                == run_output(final(self).reported@),
            counts(*final(self)) == count_step(counts(*old(self)), matches@.len() as int, failed),
            final(self).timings@ == match timing {
                Some(t) => old(self).timings@.push(t),
                None => old(self).timings@,
            },
    {
        let text = file_output(name, binary, matches);
        self.record(matches.len(), failed, timing);
        self.written = Ghost(self.written@ + text@);
        self.reported = Ghost(self.reported@.push((name@, binary, matches@)));
        proof {
            assert(self.reported@.drop_last() =~= old(self).reported@);
        }
        text
    }

    /// Counts one file: `match_count` matching lines, whether it failed, and
    /// its timing if it was timed.
    pub fn record(&mut self, match_count: usize, failed: bool, timing: Option<TimingInfo>)
        requires
            old(self).files < usize::MAX,
            failed ==> old(self).errors < usize::MAX,
            match_count > 0 ==> old(self).files_matched < usize::MAX,
            old(self).matches + match_count <= u64::MAX,
        ensures
            final(self).files == old(self).files + 1,
            final(self).errors == old(self).errors + if failed { 1int } else { 0int },
            final(self).files_matched == old(self).files_matched + if match_count > 0 {
                1int
            } else {
                0int
            },
            final(self).matches == old(self).matches + match_count,
            final(self).written == old(self).written,
            final(self).reported == old(self).reported,
            counts(*final(self)) == count_step(counts(*old(self)), match_count as int, failed),
            final(self).timings@ == match timing {
                Some(t) => old(self).timings@.push(t),
                None => old(self).timings@,
            },
    {
        self.files = self.files + 1;
        if match_count > 0 {
            self.files_matched = self.files_matched + 1;
            self.matches = self.matches + match_count as u64;
        }
        if failed {
            self.errors = self.errors + 1;
        }
        match timing {
            Some(t) => self.timings.push(t),
            None => {},
        }
    }

    /// The exit status of the run: 2 when any file failed, even if others
    /// matched; otherwise 0 when any file matched, and 1 when none did.
    pub fn exit_status(&self) -> (status: i32)
        ensures
            self.errors > 0 ==> status == EXIT_ERROR,
            self.errors == 0 && self.files_matched > 0 ==> status == EXIT_MATCH,
            self.errors == 0 && self.files_matched == 0 ==> status == EXIT_NO_MATCH,
            status == status_of_counts(counts(*self)),
    {
        if self.errors > 0 {
            EXIT_ERROR
        } else if self.files_matched > 0 {
            EXIT_MATCH
        } else {
            EXIT_NO_MATCH
        }
    }

    /// The summary over the timed files; `None` when no file was timed.
    pub fn timing_summary(&self) -> (summary: Option<TimingSummary>)
        requires
            micros_total(self.timings@) <= u128::MAX,
            bytes_total(self.timings@) <= u64::MAX,
        ensures
            summary is None <==> self.timings@.len() == 0,
            summary matches Some(s) ==> summarizes(s, self.timings@),
    {
        summarize(self.timings.as_slice())
    }
}

/// The counters of a run: files, failed files, files with a match, and
/// matching lines.
pub open spec fn counts(t: RunTotals) -> (int, int, int, int) {
    (t.files as int, t.errors as int, t.files_matched as int, t.matches as int)
}

/// The counters after one more file, with `match_count` matching lines, that
/// failed or not.
pub open spec fn count_step(c: (int, int, int, int), match_count: int, failed: bool) -> (
    int,
    int,
    int,
    int,
) {
    (
        c.0 + 1,
        c.1 + if failed { 1int } else { 0int },
        c.2 + if match_count > 0 { 1int } else { 0int },
        c.3 + match_count,
    )
}

/// The counters after reporting each (match count, failed) outcome in turn,
/// from a fresh run.
pub open spec fn counts_after(outcomes: Seq<(int, bool)>) -> (int, int, int, int)
    decreases outcomes.len(),
{
    if outcomes.len() == 0 {
        (0, 0, 0, 0)
    } else {
        count_step(counts_after(outcomes.drop_last()), outcomes.last().0, outcomes.last().1)
    }
}

/// The exit status the counters call for.
pub open spec fn status_of_counts(c: (int, int, int, int)) -> i32 {
    if c.1 > 0 {
        EXIT_ERROR
    } else if c.2 > 0 {
        EXIT_MATCH
    } else {
        EXIT_NO_MATCH
    }
}

/// The exit status of a run whose files had these (match count, failed)
/// outcomes: 2 if any file failed, else 0 if any file had a match (a binary
/// file's matches count too), else 1.
pub open spec fn run_status(outcomes: Seq<(int, bool)>) -> i32 {
    if exists|i: int| 0 <= i < outcomes.len() && (#[trigger] outcomes[i]).1 {
        EXIT_ERROR
    } else if exists|i: int| 0 <= i < outcomes.len() && (#[trigger] outcomes[i]).0 > 0 {
        EXIT_MATCH
    } else {
        EXIT_NO_MATCH
    }
}

/// Over a whole run, the counters kept file by file give the exit status the
/// outcomes call for, and count the files, the failures, the files with a
/// match and the matching lines.
pub proof fn lemma_run_exit_status(outcomes: Seq<(int, bool)>)
    requires
        forall|i: int| 0 <= i < outcomes.len() ==> (#[trigger] outcomes[i]).0 >= 0,
    ensures
        status_of_counts(counts_after(outcomes)) == run_status(outcomes),
        counts_after(outcomes).0 == outcomes.len(),
        counts_after(outcomes).1 > 0 <==> exists|i: int| 0 <= i < outcomes.len() && (#[trigger] outcomes[i]).1,
        counts_after(outcomes).2 > 0 <==> exists|i: int| 0 <= i < outcomes.len() && (#[trigger] outcomes[i]).0 > 0,
        counts_after(outcomes).1 >= 0 && counts_after(outcomes).2 >= 0 && counts_after(outcomes).3 >= 0,
    decreases outcomes.len(),
{
    if outcomes.len() > 0 {
        let init = outcomes.drop_last();
        assert forall|i: int| 0 <= i < init.len() implies (#[trigger] init[i]).0 >= 0 by {
            assert(init[i] == outcomes[i]);
        }
        lemma_run_exit_status(init);
        let last = outcomes.last();
        assert(outcomes[outcomes.len() - 1] == last);
        if exists|i: int| 0 <= i < init.len() && (#[trigger] init[i]).1 {
            let i = choose|i: int| 0 <= i < init.len() && (#[trigger] init[i]).1;
            assert(outcomes[i] == init[i]);
        }
        if exists|i: int| 0 <= i < init.len() && (#[trigger] init[i]).0 > 0 {
            let i = choose|i: int| 0 <= i < init.len() && (#[trigger] init[i]).0 > 0;
            assert(outcomes[i] == init[i]);
        }
        if exists|i: int| 0 <= i < outcomes.len() && (#[trigger] outcomes[i]).1 {
            let i = choose|i: int| 0 <= i < outcomes.len() && (#[trigger] outcomes[i]).1;
            if i < init.len() {
                assert(init[i] == outcomes[i]);
            }
        }
        if exists|i: int| 0 <= i < outcomes.len() && (#[trigger] outcomes[i]).0 > 0 {
            let i = choose|i: int| 0 <= i < outcomes.len() && (#[trigger] outcomes[i]).0 > 0;
            if i < init.len() {
                assert(init[i] == outcomes[i]);
            }
        }
    }
}

/// Total search time over `t`.
pub open spec fn micros_total(t: Seq<TimingInfo>) -> int
    decreases t.len(),
{
    if t.len() == 0 {
        0
    } else {
        micros_total(t.drop_last()) + t.last().micros
    }
}

/// Total bytes over `t`.
pub open spec fn bytes_total(t: Seq<TimingInfo>) -> int
    decreases t.len(),
{
    if t.len() == 0 {
        0
    } else {
        bytes_total(t.drop_last()) + t.last().bytes
    }
}

/// Minimum, average (truncated), maximum and total search time, and total bytes.
#[derive(Debug, Clone, Copy)]
pub struct TimingSummary {
    pub min_micros: u128,
    pub avg_micros: u128,
    pub max_micros: u128,
    pub search_micros: u128,
    pub total_bytes: u64,
}

/// `s` is the summary of the (non-empty) timings `t`.
pub open spec fn summarizes(s: TimingSummary, t: Seq<TimingInfo>) -> bool {
    &&& t.len() > 0
    &&& exists|i: int| 0 <= i < t.len() && t[i].micros == s.min_micros
    &&& forall|i: int| 0 <= i < t.len() ==> s.min_micros <= #[trigger] t[i].micros
    &&& exists|i: int| 0 <= i < t.len() && t[i].micros == s.max_micros
    &&& forall|i: int| 0 <= i < t.len() ==> #[trigger] t[i].micros <= s.max_micros
    &&& s.search_micros == micros_total(t)
    &&& s.avg_micros == micros_total(t) / t.len() as int
    &&& s.total_bytes == bytes_total(t)
    &&& s.min_micros <= s.avg_micros <= s.max_micros
}

proof fn lemma_totals_of_prefix(t: Seq<TimingInfo>, k: int)
    requires
        0 <= k <= t.len(),
    ensures
        micros_total(t.take(k)) <= micros_total(t),
        bytes_total(t.take(k)) <= bytes_total(t),
    decreases t.len(),
{
    if k < t.len() {
        lemma_totals_of_prefix(t.drop_last(), k);
        assert(t.drop_last().take(k) =~= t.take(k));
    } else {
        assert(t.take(k) =~= t);
    }
}

proof fn lemma_micros_total_bounds(t: Seq<TimingInfo>, lo: int, hi: int)
    requires
        forall|i: int| 0 <= i < t.len() ==> lo <= #[trigger] t[i].micros <= hi,
    ensures
        t.len() * lo <= micros_total(t) <= t.len() * hi,
    decreases t.len(),
{
    if t.len() > 0 {
        let init = t.drop_last();
        assert forall|i: int| 0 <= i < init.len() implies lo <= #[trigger] init[i].micros <= hi by {
            assert(init[i] == t[i]);
        }
        lemma_micros_total_bounds(init, lo, hi);
        assert(t.last() == t[t.len() - 1]);
        assert(t.len() * lo == init.len() * lo + lo) by (nonlinear_arith)
            requires
                t.len() == init.len() + 1,
        ;
        assert(t.len() * hi == init.len() * hi + hi) by (nonlinear_arith)
            requires
                t.len() == init.len() + 1,
        ;
    }
}

/// Summarizes the timings; `None` when there are none.
fn summarize(timings: &[TimingInfo]) -> (summary: Option<TimingSummary>)
    requires
        micros_total(timings@) <= u128::MAX,
        bytes_total(timings@) <= u64::MAX,
    ensures
        summary is None <==> timings@.len() == 0,
        summary matches Some(s) ==> summarizes(s, timings@),
{
    let n = timings.len();
    if n == 0 {
        return None;
    }
    let ghost t = timings@;
    let mut min = timings[0].micros;
    let mut max = timings[0].micros;
    let mut min_at: Ghost<int> = Ghost(0);
    let mut max_at: Ghost<int> = Ghost(0);
    let mut sum: u128 = 0;
    let mut bytes: u64 = 0;
    let mut i: usize = 0;
    proof {
        assert(t.take(0) =~= Seq::<TimingInfo>::empty());
    }
    while i < n
        invariant
            t == timings@,
            n == t.len(),
            n > 0,
            micros_total(t) <= u128::MAX,
            bytes_total(t) <= u64::MAX,
            i <= n,
            sum == micros_total(t.take(i as int)),
            bytes == bytes_total(t.take(i as int)),
            0 <= min_at@ < n,
            0 <= max_at@ < n,
            t[min_at@].micros == min,
            t[max_at@].micros == max,
            forall|j: int| 0 <= j < i ==> min <= #[trigger] t[j].micros <= max,
        decreases n - i,
    {
        let m = timings[i].micros;
        proof {
            assert(t.take(i + 1).drop_last() =~= t.take(i as int));
            assert(t.take(i + 1).last() == t[i as int]);
            lemma_totals_of_prefix(t, i + 1);
        }
        sum = sum + m;
        bytes = bytes + timings[i].bytes;
        if m < min {
            min = m;
            min_at = Ghost(i as int);
        }
        if m > max {
            max = m;
            max_at = Ghost(i as int);
        }
        i = i + 1;
    }
    proof {
        assert(t.take(n as int) =~= t);
        lemma_micros_total_bounds(t, min as int, max as int);
        let total = micros_total(t);
        assert(total / (n as int) >= min as int && total / (n as int) <= max as int) by (nonlinear_arith)
            requires
                n > 0,
                n * min <= total <= n * max,
        ;
    }
    let avg = sum / (n as u128);
    Some(
        TimingSummary {
            min_micros: min,
            avg_micros: avg,
            max_micros: max,
            search_micros: sum,
            total_bytes: bytes,
        },
    )
}

/// The message for a worker that panicked, with its payload's text when the
/// payload was a string.
pub fn panic_message(payload_text: Option<&str>) -> (message: String)
    ensures
        payload_text matches Some(text) ==> message@ == "worker thread panicked: "@ + text@,
        payload_text is None ==> message@ == "worker thread panicked"@,
{
    match payload_text {
        Some(text) => {
            let mut message = String::from_str("worker thread panicked: ");
            message.append(text);
            message
        },
        None => String::from_str("worker thread panicked"),
    }
}

} // verus!
