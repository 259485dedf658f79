use madore::daemon::health_matches;
use madore::paths::join;
use madore::render::extract_title;
use madore::routes::health_body;
use madore::tree::{DirEntry, EntryKind, build_tree};
use madore::watcher::{is_relevant, reload_path};

#[test]
fn watcher_reports_tree_files_under_their_tree_paths() {
    let entries = vec![DirEntry {
        name: Some("notes".to_string()),
        kind: EntryKind::Dir,
        children: vec![DirEntry { name: Some("b.md".to_string()), kind: EntryKind::File, children: vec![] }],
    }];
    let tree = build_tree(&entries);
    let file = &tree[0].children[0];
    let on_disk = "/home/u/docs/notes/b.md";
    assert!(is_relevant("/home/u/docs", on_disk));
    assert_eq!(reload_path("/home/u/docs", on_disk), file.path);
    assert!(!is_relevant("/home/u/docs", "/home/u/docs/.notes/b.md"));
}

#[test]
fn launcher_recognises_its_own_health_reply() {
    let root = "/home/u/my docs";
    assert!(health_matches(&health_body(root), root));
    assert!(!health_matches(&health_body(root), "/home/u/other"));
}

#[test]
fn every_tree_file_is_watched_at_any_depth() {
    let entries = vec![
        DirEntry {
            name: Some("a".to_string()),
            kind: EntryKind::Dir,
            children: vec![DirEntry {
                name: Some("B".to_string()),
                kind: EntryKind::Dir,
                children: vec![DirEntry { name: Some("deep.markdown".to_string()), kind: EntryKind::File, children: vec![] }],
            }],
        },
        DirEntry { name: Some("top.md".to_string()), kind: EntryKind::File, children: vec![] },
    ];
    let tree = build_tree(&entries);
    let root = "/srv/docs/";
    let deep = &tree[0].children[0].children[0];
    assert_eq!(deep.path, "a/B/deep.markdown");
    let on_disk = join(root, &deep.path);
    assert!(is_relevant(root, &on_disk));
    assert_eq!(reload_path(root, &on_disk), deep.path);
    let top = &tree[1];
    let on_disk = join(root, &top.path);
    assert!(is_relevant(root, &on_disk));
    assert_eq!(reload_path(root, &on_disk), top.path);
}

#[test]
fn front_matter_does_not_change_the_title() {
    for md in ["# Real\nbody", "Setext\n======\n", "just text", "", "para\n\n# Later"] {
        let with = format!("---\nkey: value\n---\n{}", md);
        assert_eq!(extract_title(&with), extract_title(md));
    }
    assert_eq!(extract_title("---\nkey: value\n---\n# Real").as_deref(), Some("Real"));
}
