use madore::tree::{DirEntry, EntryKind, TreeNode, build_children, build_tree, rel_path};

fn file(name: &str) -> DirEntry {
    DirEntry { name: Some(name.to_string()), kind: EntryKind::File, children: Vec::new() }
}

fn dir(name: &str, children: Vec<DirEntry>) -> DirEntry {
    DirEntry { name: Some(name.to_string()), kind: EntryKind::Dir, children }
}

fn names(nodes: &[TreeNode]) -> Vec<&str> {
    nodes.iter().map(|n| n.name.as_str()).collect()
}

#[test]
fn directories_first_then_files_sorted_case_insensitively() {
    let entries = vec![
        file("b.md"),
        file("A.md"),
        dir("zeta", vec![file("z.md")]),
        dir("Alpha", vec![file("x.markdown")]),
        file("c.txt"),
    ];
    let tree = build_tree(&entries);
    assert_eq!(names(&tree), vec!["Alpha", "zeta", "A.md", "b.md"]);
    assert!(tree[0].is_dir);
    assert!(!tree[2].is_dir);
    assert_eq!(tree[0].path, "Alpha");
    assert_eq!(tree[0].children[0].path, "Alpha/x.markdown");
    assert_eq!(tree[1].children[0].path, "zeta/z.md");
}

#[test]
fn empty_and_excluded_directories_are_left_out() {
    let entries = vec![
        dir("empty", vec![]),
        dir("notes", vec![file("todo.txt"), dir("deeper", vec![file("readme.txt")])]),
        dir(".git", vec![file("x.md")]),
        dir("node_modules", vec![file("x.md")]),
        dir("target", vec![file("x.md")]),
        file(".hidden.md"),
        file("draft.md~"),
        file("keep.md"),
    ];
    let tree = build_tree(&entries);
    assert_eq!(names(&tree), vec!["keep.md"]);
}

#[test]
fn links_and_unreadable_names_are_skipped() {
    let entries = vec![
        DirEntry { name: Some("link.md".to_string()), kind: EntryKind::Other, children: Vec::new() },
        DirEntry { name: None, kind: EntryKind::File, children: Vec::new() },
        file("real.md"),
    ];
    let tree = build_tree(&entries);
    assert_eq!(names(&tree), vec!["real.md"]);
}

#[test]
fn equal_keys_keep_their_order() {
    let entries = vec![file("readme.md"), file("README.md"), file("Readme.md")];
    let tree = build_tree(&entries);
    assert_eq!(names(&tree), vec!["readme.md", "README.md", "Readme.md"]);
}

#[test]
fn nested_paths_join_names_with_slashes() {
    let entries = vec![dir("a", vec![dir("b", vec![file("c.md")])])];
    let tree = build_children(&entries, "top");
    assert_eq!(tree[0].path, "top/a");
    assert_eq!(tree[0].children[0].path, "top/a/b");
    assert_eq!(tree[0].children[0].children[0].path, "top/a/b/c.md");
    assert_eq!(rel_path("", "x\\y.md"), "x/y.md");
    assert_eq!(rel_path("d", "e.md"), "d/e.md");
}
