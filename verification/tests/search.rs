use greep::search::{find_algorithm, list_algorithms, listing_line, Bf, Bmh, Match, SearchAlgorithm};

fn m(line_number: u64, line: &str) -> Match {
    Match {
        line_number,
        line: line.to_string(),
    }
}

#[test]
fn finds_first_match_per_line() {
    let bf = Bf;
    let result = bf.search("needle", b"hay needle stack\nneedle needle\nno match here\n");
    assert_eq!(
        result,
        vec![
            Match {
                line_number: 1,
                line: "hay needle stack".to_string()
            },
            Match {
                line_number: 2,
                line: "needle needle".to_string()
            },
        ]
    );
}

#[test]
fn no_match() {
    let bf = Bf;
    assert_eq!(bf.search("missing", b"nothing to see\n"), vec![]);
}

#[test]
fn word_longer_than_buffer() {
    let bf = Bf;
    assert_eq!(bf.search("toolong", b"hi"), vec![]);
}

#[test]
fn match_on_last_line_no_trailing_newline() {
    let bf = Bf;
    let result = bf.search("end", b"line one\nline two has end");
    assert_eq!(
        result,
        vec![Match {
            line_number: 2,
            line: "line two has end".to_string()
        }]
    );
}

#[test]
fn blank_lines_still_advance_the_line_number() {
    let bf = Bf;
    let result = bf.search("needle", b"needle\n\n\nneedle\n");
    assert_eq!(
        result,
        vec![
            Match {
                line_number: 1,
                line: "needle".to_string()
            },
            Match {
                line_number: 4,
                line: "needle".to_string()
            },
        ]
    );
}

#[test]
fn trailing_newline_does_not_produce_a_phantom_line() {
    let bf = Bf;
    assert_eq!(
        bf.search("a", b"a\n"),
        vec![Match {
            line_number: 1,
            line: "a".to_string()
        }]
    );
    assert_eq!(
        bf.search("b", b"a\nb\n"),
        vec![Match {
            line_number: 2,
            line: "b".to_string()
        }]
    );
}

#[test]
fn empty_buffer_yields_no_matches() {
    let bf = Bf;
    assert_eq!(bf.search("needle", b""), vec![]);
}

#[test]
fn empty_word_yields_no_matches() {
    let bf = Bf;
    assert_eq!(bf.search("", b"anything at all\n"), vec![]);
}

fn fixtures() -> Vec<(&'static str, &'static [u8], Vec<Match>)> {
    vec![
        (
            "needle",
            b"hay needle stack\nneedle needle\nno match here\n",
            vec![m(1, "hay needle stack"), m(2, "needle needle")],
        ),
        ("missing", b"nothing to see\nhere either\n", vec![]),
        ("toolong", b"hi", vec![]),
        (
            "end",
            b"line one\nline two has end",
            vec![m(2, "line two has end")],
        ),
        ("aa", b"aaaa\n" as &[u8], vec![m(1, "aaaa")]),
    ]
}

#[test]
fn all_algorithms_agree_on_fixtures() {
    for (code, _) in list_algorithms() {
        let alg = find_algorithm(code).unwrap();
        for (word, buf, expected) in fixtures() {
            let actual = alg.search(word, buf);
            assert_eq!(actual, expected, "algorithm {code} on word {word:?}");
        }
    }
}

#[test]
fn all_listed_algorithms_are_findable() {
    for (code, _) in list_algorithms() {
        assert!(
            find_algorithm(code).is_some(),
            "algorithm '{code}' is listed but not findable"
        );
    }
}

// ---------------------------------------------------------------------------
// Further cases, for both algorithms.
// ---------------------------------------------------------------------------

fn both() -> Vec<Box<dyn SearchAlgorithm>> {
    vec![Box::new(Bf), Box::new(Bmh)]
}

#[test]
fn a_word_spanning_a_line_break_matches_nothing() {
    for alg in both() {
        assert_eq!(alg.search("alpha\nbeta", b"alpha\nbeta\ngamma\n"), vec![]);
    }
}

#[test]
fn bmh_reports_one_match_per_line_with_overlapping_occurrences() {
    let found = Bmh.search("aba", b"abababa\nxx\nzzaba");
    assert_eq!(found, vec![m(1, "abababa"), m(3, "zzaba")]);
}

#[test]
fn bmh_skips_without_missing_a_match() {
    // The shift after "x" under the last position is the whole word; a match
    // that starts inside that skip would be missed if the table were wrong.
    let buf = b"xxxxxxxxabcabd\nabd at start\nno\nends with abd";
    let expected = vec![m(1, "xxxxxxxxabcabd"), m(2, "abd at start"), m(4, "ends with abd")];
    assert_eq!(Bmh.search("abd", buf), expected);
    assert_eq!(Bf.search("abd", buf), expected);
}

#[test]
fn bmh_handles_the_word_filling_the_whole_buffer() {
    assert_eq!(Bmh.search("whole", b"whole"), vec![m(1, "whole")]);
    assert_eq!(Bmh.search("whole", b"whol"), vec![]);
}

#[test]
fn blank_and_crlf_lines_are_counted_by_both() {
    let buf = b"\r\n\r\nneedle\r\n\nlast needle";
    for alg in both() {
        assert_eq!(
            alg.search("needle", buf),
            vec![m(3, "needle\r"), m(5, "last needle")]
        );
    }
}

#[test]
fn invalid_utf8_lines_are_decoded_lossily() {
    let buf = b"caf\xff needle\nok\n";
    for alg in both() {
        assert_eq!(alg.search("needle", buf), vec![m(1, "caf\u{fffd} needle")]);
    }
}

#[test]
fn multibyte_words_match_on_their_bytes() {
    let buf = "naïve\nnaive\nnaïveté\n".as_bytes();
    for alg in both() {
        assert_eq!(alg.search("ï", buf), vec![m(1, "naïve"), m(3, "naïveté")]);
    }
}

#[test]
fn unknown_codes_are_not_found() {
    assert!(find_algorithm("nope").is_none());
    assert!(find_algorithm("").is_none());
    assert!(find_algorithm("BF").is_none());
    assert!(find_algorithm("bmhx").is_none());
}

#[test]
fn the_listing_names_both_algorithms() {
    assert_eq!(
        list_algorithms(),
        &[("bf", "brute force"), ("bmh", "boyer-moore-horspool")]
    );
}

#[test]
fn listing_lines_pad_the_code_column() {
    assert_eq!(listing_line("bf", "brute force"), "bf     brute force");
    assert_eq!(listing_line("bmh", "boyer-moore-horspool"), "bmh    boyer-moore-horspool");
    assert_eq!(listing_line("longcode", "x"), "longcode x");
}
