use madore::watcher::{
    ChangeKind, ModifyClass, is_content_change, is_content_change_kind, is_relevant, reload_path, reload_targets,
};
use notify_debouncer_full::notify::event::{
    AccessKind, AccessMode, CreateKind, DataChange, MetadataKind, ModifyKind, RemoveKind, RenameMode,
};
use notify_debouncer_full::notify::EventKind;

#[test]
fn ignores_read_and_metadata_events() {
    assert!(!is_content_change(&EventKind::Access(AccessKind::Open(AccessMode::Any))));
    assert!(!is_content_change(&EventKind::Access(AccessKind::Close(AccessMode::Read))));
    assert!(!is_content_change(&EventKind::Modify(ModifyKind::Metadata(MetadataKind::Any))));
}

#[test]
fn reports_real_changes() {
    assert!(is_content_change(&EventKind::Create(CreateKind::File)));
    assert!(is_content_change(&EventKind::Modify(ModifyKind::Data(DataChange::Content))));
    assert!(is_content_change(&EventKind::Remove(RemoveKind::File)));
}

#[test]
fn renames_and_unknown_events_count() {
    assert!(is_content_change(&EventKind::Modify(ModifyKind::Name(RenameMode::Both))));
    assert!(is_content_change(&EventKind::Any));
    assert!(is_content_change(&EventKind::Other));
    assert!(!is_content_change_kind(&ChangeKind::Access));
    assert!(is_content_change_kind(&ChangeKind::Modify(ModifyClass::Data)));
    assert!(is_content_change_kind(&ChangeKind::Modify(ModifyClass::Name)));
    assert!(!is_content_change_kind(&ChangeKind::Modify(ModifyClass::Metadata)));
}

#[test]
fn relevance_follows_the_tree_rules() {
    assert!(is_relevant("/r", "/r/docs/a.md"));
    assert!(!is_relevant("/r", "/r/docs/a.txt"));
    assert!(!is_relevant("/r", "/r/.git/a.md"));
    assert!(!is_relevant("/r", "/r/node_modules/x/a.md"));
    assert!(!is_relevant("/r", "/r/a.md~"));
    // Names above the root are not judged.
    assert!(is_relevant("/home/.hidden/r", "/home/.hidden/r/a.md"));
    // A path outside the root is judged as a whole.
    assert!(!is_relevant("/r", "/other/.cache/a.md"));
    assert!(is_relevant("/r", "/other/a.md"));
}

#[test]
fn reload_paths_are_relative_to_the_root() {
    assert_eq!(reload_path("/r", "/r/docs/a.md"), "docs/a.md");
    assert_eq!(reload_path("/r", "/r/a.md"), "a.md");
    assert_eq!(reload_path("/r", "/elsewhere/a.md"), "/elsewhere/a.md");
    assert_eq!(reload_path("/r", "/r/we\\ird.md"), "we/ird.md");
}

#[test]
fn reload_paths_keep_inner_text_as_strip_prefix_does() {
    assert_eq!(reload_path("/r", "/r//a/./b.md"), "a/./b.md");
    assert_eq!(reload_path("/r", "/r/a.md/."), "a.md");
    assert_eq!(reload_path("/r/", "/r/a.md"), "a.md");
    assert_eq!(reload_path("/r", "/r"), "");
    assert_eq!(reload_path("", "a/b/"), "a/b");
}

#[test]
fn reload_targets_filter_events() {
    let paths = vec![
        "/r/a.md".to_string(),
        "/r/b.txt".to_string(),
        "/r/.hidden/c.md".to_string(),
        "/r/sub/d.markdown".to_string(),
    ];
    assert_eq!(
        reload_targets("/r", &ChangeKind::Modify(ModifyClass::Data), &paths),
        vec!["a.md".to_string(), "sub/d.markdown".to_string()]
    );
    assert!(reload_targets("/r", &ChangeKind::Access, &paths).is_empty());
    assert!(reload_targets("/r", &ChangeKind::Modify(ModifyClass::Metadata), &paths).is_empty());
}
