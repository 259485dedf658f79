use madore::fsutil::{is_excluded_name, is_markdown, is_markdown_file_name};

#[test]
fn markdown_extensions() {
    assert!(is_markdown("a.md"));
    assert!(is_markdown("dir/b.markdown"));
    assert!(!is_markdown("a.txt"));
    assert!(!is_markdown("noext"));
    assert!(!is_markdown(".env"));
}

#[test]
fn excluded_names() {
    assert!(is_excluded_name(".git"));
    assert!(is_excluded_name(".hidden"));
    assert!(is_excluded_name("node_modules"));
    assert!(is_excluded_name("target"));
    assert!(is_excluded_name("foo~"));
    assert!(is_excluded_name("foo.swp"));
    assert!(!is_excluded_name("src"));
    assert!(!is_excluded_name("README.md"));
}

#[test]
fn markdown_extension_edge_cases() {
    // The extension is taken from the last component, after its last dot.
    assert!(is_markdown("/root/docs/notes.md/"));
    assert!(is_markdown("a.b.md"));
    assert!(is_markdown(".hidden.md"));
    assert!(!is_markdown("md"));
    assert!(!is_markdown(".md"));
    assert!(!is_markdown("a.md/.."));
    assert!(!is_markdown("a.MD"));
    assert!(!is_markdown(""));
    assert!(is_markdown_file_name("x.markdown"));
    assert!(!is_markdown_file_name("x.mdx"));
}

#[test]
fn excluded_name_edge_cases() {
    assert!(!is_excluded_name("targets"));
    assert!(!is_excluded_name("node_module"));
    assert!(is_excluded_name("~"));
    assert!(is_excluded_name(".swp"));
    assert!(!is_excluded_name("swp"));
    assert!(!is_excluded_name(""));
}
