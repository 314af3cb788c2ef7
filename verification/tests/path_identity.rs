use greep::path_identity::{path_key_of, same_key};

fn same(a: &str, b: &str) -> bool {
    same_key(&path_key_of(a.as_bytes()), &path_key_of(b.as_bytes()))
}

#[test]
fn repeated_and_trailing_separators_do_not_matter() {
    assert!(same("a//b", "a/b"));
    assert!(same("a/b/", "a/b"));
    assert!(same("/x", "//x"));
}

#[test]
fn interior_dots_do_not_matter_but_a_leading_one_does() {
    assert!(same("a/./b", "a/b"));
    assert!(same("./.", "."));
    assert!(!same("./a", "a"));
    assert!(!same("/a", "a"));
    assert!(!same("a/../b", "b"));
    assert!(!same("", "/"));
}
