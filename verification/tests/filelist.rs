use greep::filelist::{expand_tilde_against, manifest_entries, walk_action, EntryKind, WalkAction};

const HOME: &[u8] = b"/home/pete";

fn entries(text: &str) -> Vec<String> {
    manifest_entries(text, Some(HOME))
        .into_iter()
        .map(|p| String::from_utf8(p).unwrap())
        .collect()
}

#[test]
fn read_filelist_skips_blank_lines_and_trims() {
    assert_eq!(entries("first.txt\n\nsecond.txt\r\n"), vec!["first.txt", "second.txt"]);
}

#[test]
fn read_filelist_dedupes_preserving_first_occurrence_order() {
    assert_eq!(
        entries("b.txt\nc.txt\nb.txt\na.txt\nc.txt\nb.txt\n"),
        vec!["b.txt", "c.txt", "a.txt"]
    );
}

#[test]
fn read_filelist_skips_comment_lines() {
    assert_eq!(
        entries("# a leading comment\nfirst.txt\n   # an indented one\nsecond.txt\n"),
        vec!["first.txt", "second.txt"]
    );
}

#[test]
fn read_filelist_does_not_strip_trailing_comments_from_paths() {
    assert_eq!(
        entries("notes#2.txt\n./#literal.txt\n"),
        vec!["notes#2.txt", "./#literal.txt"]
    );
}

#[test]
fn read_filelist_expands_a_leading_tilde() {
    assert_eq!(entries("~/notes.txt\n~\n"), vec!["/home/pete/notes.txt", "/home/pete"]);
}

#[test]
fn read_filelist_leaves_other_tildes_alone() {
    assert_eq!(
        entries("~someone/notes.txt\nback~up.txt\n./~odd\n"),
        vec!["~someone/notes.txt", "back~up.txt", "./~odd"]
    );
}

#[test]
fn read_filelist_dedupes_after_tilde_expansion() {
    assert_eq!(
        entries("~/notes.txt\n/home/pete/notes.txt\n"),
        vec!["/home/pete/notes.txt"]
    );
}

#[test]
fn a_comment_after_unicode_whitespace_is_still_a_comment() {
    assert_eq!(entries("\u{a0}\u{2003}# spaced\nkept\n"), vec!["kept"]);
}

#[test]
fn leading_whitespace_stays_part_of_a_path() {
    assert_eq!(entries("  padded.txt\n"), vec!["  padded.txt"]);
}

#[test]
fn an_empty_manifest_lists_nothing() {
    assert!(entries("").is_empty());
    assert!(entries("\n\r\n# only a comment").is_empty());
}

#[test]
fn a_last_line_without_newline_is_kept() {
    assert_eq!(entries("a.txt\nb.txt"), vec!["a.txt", "b.txt"]);
}

#[test]
fn without_a_home_the_shorthand_is_kept() {
    let listed = manifest_entries("~/notes.txt\n", None);
    assert_eq!(listed, vec![b"~/notes.txt".to_vec()]);
}

#[test]
fn expand_tilde_is_indifferent_to_a_trailing_slash_on_home() {
    let plain = expand_tilde_against(b"~/notes.txt", Some(b"/home/pete"));
    let trailing = expand_tilde_against(b"~/notes.txt", Some(b"/home/pete/"));
    assert_eq!(plain, b"/home/pete/notes.txt".to_vec());
    assert_eq!(trailing, plain);
}

#[test]
fn expand_tilde_keeps_home_when_the_remainder_starts_with_a_separator() {
    let result = expand_tilde_against(b"~//notes.txt", Some(b"/home/pete"));
    assert_eq!(result, b"/home/pete/notes.txt".to_vec());
}

#[test]
fn expand_tilde_of_a_bare_tilde_has_no_trailing_separator() {
    let result = expand_tilde_against(b"~", Some(b"/home/pete"));
    assert_eq!(result, b"/home/pete".to_vec());
}

#[test]
fn expand_tilde_passes_the_path_through_when_home_is_unset() {
    assert_eq!(expand_tilde_against(b"~/notes.txt", None), b"~/notes.txt".to_vec());
    assert_eq!(expand_tilde_against(b"~", None), b"~".to_vec());
}

#[test]
fn expand_tilde_leaves_non_tilde_paths_untouched_regardless_of_home() {
    for path in ["notes.txt", "~someone/notes.txt", "back~up.txt", "./~odd"] {
        assert_eq!(
            expand_tilde_against(path.as_bytes(), Some(b"/home/pete")),
            path.as_bytes().to_vec()
        );
    }
}

#[test]
fn expand_tilde_keeps_non_utf8_home_bytes() {
    let result = expand_tilde_against(b"~/x", Some(b"/home/caf\xff"));
    assert_eq!(result, b"/home/caf\xff/x".to_vec());
}

#[test]
fn the_walk_skips_dotfiles_and_descends_into_directories() {
    assert_eq!(walk_action(b".hidden", EntryKind::File), WalkAction::Skip);
    assert_eq!(walk_action(b".hiddendir", EntryKind::Directory), WalkAction::Skip);
    assert_eq!(walk_action(b"sub", EntryKind::Directory), WalkAction::Descend);
    assert_eq!(walk_action(b"a.txt", EntryKind::File), WalkAction::Include);
    assert_eq!(walk_action(b"link", EntryKind::Other), WalkAction::Skip);
    assert_eq!(walk_action(b"caf\xff.txt", EntryKind::File), WalkAction::Include);
}

#[test]
fn paths_that_name_the_same_file_are_listed_once() {
    assert_eq!(
        entries("docs//a.txt\ndocs/a.txt\ndocs/./a.txt\ndir/\ndir\n~\n/home/pete/\n"),
        vec!["docs//a.txt", "dir/", "/home/pete"]
    );
}

#[test]
fn a_leading_dot_component_keeps_a_path_distinct() {
    assert_eq!(entries("./a.txt\na.txt\n/a.txt\n"), vec!["./a.txt", "a.txt", "/a.txt"]);
}
