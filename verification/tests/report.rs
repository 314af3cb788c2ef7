use greep::report::{
    file_output, match_display, panic_message, MatchDisplay, RunTotals, TimingInfo, EXIT_ERROR, EXIT_MATCH,
    EXIT_NO_MATCH,
};

#[test]
fn a_binary_file_with_matches_gets_one_notice() {
    assert_eq!(match_display(true, 3), MatchDisplay::BinaryNotice);
    assert_eq!(match_display(true, 0), MatchDisplay::Nothing);
    assert_eq!(match_display(false, 2), MatchDisplay::Lines);
}

#[test]
fn totals_count_matched_files_and_matching_lines() {
    let mut totals = RunTotals::new();
    totals.record(2, false, None);
    totals.record(0, false, None);
    totals.record(1, false, None);
    assert_eq!(totals.files, 3);
    assert_eq!(totals.errors, 0);
    assert_eq!(totals.files_matched, 2);
    assert_eq!(totals.matches, 3);
    assert_eq!(totals.exit_status(), EXIT_MATCH);
}

#[test]
fn an_error_outranks_a_match() {
    let mut totals = RunTotals::new();
    totals.record(1, false, None);
    totals.record(0, true, None);
    assert_eq!(totals.exit_status(), EXIT_ERROR);
}

#[test]
fn no_match_and_no_error_exits_1() {
    let mut totals = RunTotals::new();
    totals.record(0, false, None);
    assert_eq!(totals.exit_status(), EXIT_NO_MATCH);
    assert_eq!(RunTotals::new().exit_status(), EXIT_NO_MATCH);
}

#[test]
fn no_timings_give_no_summary() {
    let mut totals = RunTotals::new();
    totals.record(0, true, None);
    assert!(totals.timing_summary().is_none());
}

#[test]
fn the_summary_has_min_avg_max_and_totals() {
    let mut totals = RunTotals::new();
    totals.record(1, false, Some(TimingInfo { bytes: 12, micros: 10 }));
    totals.record(1, false, Some(TimingInfo { bytes: 13, micros: 3 }));
    totals.record(0, false, Some(TimingInfo { bytes: 0, micros: 4 }));
    let s = totals.timing_summary().unwrap();
    assert_eq!(s.min_micros, 3);
    assert_eq!(s.max_micros, 10);
    assert_eq!(s.search_micros, 17);
    assert_eq!(s.avg_micros, 5);
    assert_eq!(s.total_bytes, 25);
}

#[test]
fn a_panic_message_carries_the_payload_text() {
    assert_eq!(panic_message(Some("boom")), "worker thread panicked: boom");
    assert_eq!(panic_message(None), "worker thread panicked");
}

fn m(line_number: u64, line: &str) -> greep::search::Match {
    greep::search::Match {
        line_number,
        line: line.to_string(),
    }
}

#[test]
fn text_lines_are_written_with_name_and_number() {
    let ms = vec![m(1, "hay needle"), m(5001, "needle here")];
    assert_eq!(
        file_output("/dev/stdin", false, &ms),
        "/dev/stdin:1 hay needle\n/dev/stdin:5001 needle here\n"
    );
    assert_eq!(file_output("a.txt", false, &[]), "");
}

#[test]
fn a_binary_file_is_reported_without_its_bytes() {
    assert_eq!(
        file_output("blob.bin", true, &[m(1, "\u{7f}ELF\u{0}needle")]),
        "Binary file blob.bin matches\n"
    );
    assert_eq!(file_output("blob.bin", true, &[]), "");
}

#[test]
fn line_numbers_are_written_in_decimal() {
    let ms = vec![m(0, "z"), m(10, "t"), m(u64::MAX, "max")];
    assert_eq!(
        file_output("f", false, &ms),
        "f:0 z\nf:10 t\nf:18446744073709551615 max\n"
    );
}

#[test]
fn reporting_a_file_counts_it_and_returns_its_text() {
    let mut totals = RunTotals::new();
    let text = totals.report_file("a.txt", false, &[m(2, "needle")], false, None);
    assert_eq!(text, "a.txt:2 needle\n");
    let text = totals.report_file("gone.txt", false, &[], true, None);
    assert_eq!(text, "");
    assert_eq!(totals.files, 2);
    assert_eq!(totals.errors, 1);
    assert_eq!(totals.files_matched, 1);
    assert_eq!(totals.exit_status(), EXIT_ERROR);
}
