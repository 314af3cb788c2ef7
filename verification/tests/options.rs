use std::path::PathBuf;

use greep::options::{resolve, AppError, Args};

fn base_args() -> Args {
    Args {
        verbose: false,
        timing: false,
        algorithm: "bf".to_string(),
        list: false,
        filelist: None,
        search_word: None,
        files: vec![],
    }
}

#[test]
fn unknown_algorithm_errors() {
    let mut args = base_args();
    args.algorithm = "nope".to_string();
    let err = resolve(args, "word".to_string()).unwrap_err();
    assert!(matches!(err, AppError::UnknownAlgorithm(code) if code == "nope"));
}

#[test]
fn options_filelist_and_positional_files_conflict() {
    let mut args = base_args();
    args.filelist = Some(PathBuf::from("/tmp/somelist"));
    args.files = vec!["a.txt".to_string()];
    let err = resolve(args, "word".to_string()).unwrap_err();
    assert!(matches!(err, AppError::ConflictingFileArgs));
}

#[test]
fn defaults_to_stdin_when_no_files_given() {
    let args = base_args();
    let resolved = resolve(args, "word".to_string()).unwrap();
    assert_eq!(resolved.files, vec!["/dev/stdin".to_string()]);
}

#[test]
fn uses_positional_files_when_given() {
    let mut args = base_args();
    args.files = vec!["a.txt".to_string(), "b.txt".to_string()];
    let resolved = resolve(args, "word".to_string()).unwrap();
    assert_eq!(resolved.files, vec!["a.txt".to_string(), "b.txt".to_string()]);
}

#[test]
fn an_empty_search_word_is_rejected() {
    let err = resolve(base_args(), String::new()).unwrap_err();
    assert!(matches!(err, AppError::EmptySearchWord));
}

#[test]
fn the_algorithm_is_checked_before_the_search_word() {
    let mut args = base_args();
    args.algorithm = "nope".to_string();
    let err = resolve(args, String::new()).unwrap_err();
    assert!(matches!(err, AppError::UnknownAlgorithm(_)));
}

#[test]
fn a_manifest_leaves_the_files_to_it() {
    let mut args = base_args();
    args.algorithm = "bmh".to_string();
    args.verbose = true;
    args.filelist = Some(PathBuf::from("/tmp/somelist"));
    let resolved = resolve(args, "word".to_string()).unwrap();
    assert!(resolved.files.is_empty());
    assert_eq!(resolved.filelist, Some(PathBuf::from("/tmp/somelist")));
    assert_eq!(resolved.algorithm_code, "bmh");
    assert_eq!(resolved.search_word, "word");
    assert!(resolved.verbose);
    assert!(!resolved.timing);
}

#[test]
fn an_unreadable_manifest_is_a_filelist_open_error() {
    let err = greep::options::manifest_files(
        PathBuf::from("/tmp/missing-list"),
        Err(std::io::Error::new(std::io::ErrorKind::NotFound, "gone")),
        None,
    )
    .unwrap_err();
    assert!(matches!(err, AppError::FilelistOpen(p, _) if p == PathBuf::from("/tmp/missing-list")));
}

#[test]
fn a_read_manifest_gives_its_entries() {
    let files = greep::options::manifest_files(
        PathBuf::from("list.txt"),
        Ok("# notes\na.txt\n~/b.txt\na.txt\n".to_string()),
        Some(b"/home/pete"),
    )
    .unwrap();
    assert_eq!(files, vec![b"a.txt".to_vec(), b"/home/pete/b.txt".to_vec()]);
}
