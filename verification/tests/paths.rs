use madore::paths::{join, to_slashes};

#[test]
fn join_follows_pathbuf() {
    assert_eq!(join("/r", "a.md"), "/r/a.md");
    assert_eq!(join("/r/", "a.md"), "/r/a.md");
    assert_eq!(join("", "a.md"), "a.md");
    assert_eq!(join("/r", "/abs"), "/abs");
    assert_eq!(join("/r", ""), "/r/");
    assert_eq!(to_slashes("a\\b\\c"), "a/b/c");
}
