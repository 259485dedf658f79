use madore::routes::{
    ContentAction, ContentEvent, ContentStage, content_step,
    ContentError, MAX_CONTENT_BYTES, Reply, check_resolved, check_size, content_response, content_target,
    file_stem, health_body, index_reply, markdown_text, reload_data, root_name, serve, tree_response,
};
use madore::tree::{DirEntry, EntryKind};

#[test]
fn content_requests_are_checked_in_order() {
    assert!(matches!(content_target("/r", None), Err(ContentError::BadRequest)));
    assert_eq!(content_target("/r", Some("a/b.md")).ok().unwrap(), "/r/a/b.md");
    assert_eq!(content_target("/r", Some("/etc/passwd.md")).ok().unwrap(), "/etc/passwd.md");
    assert!(check_resolved("/r", "/r/a/b.md").is_ok());
    assert!(matches!(check_resolved("/r", "/rx/b.md"), Err(ContentError::Forbidden)));
    assert!(matches!(check_resolved("/r", "/r/.env"), Err(ContentError::Forbidden)));
    assert!(check_size(MAX_CONTENT_BYTES).is_ok());
    assert!(matches!(check_size(MAX_CONTENT_BYTES + 1), Err(ContentError::PayloadTooLarge)));
}

#[test]
fn error_statuses() {
    assert_eq!(ContentError::BadRequest.status(), 400);
    assert_eq!(ContentError::NotFound.status(), 404);
    assert_eq!(ContentError::Forbidden.status(), 403);
    assert_eq!(ContentError::PayloadTooLarge.status(), 413);
    assert_eq!(ContentError::Internal.status(), 500);
}

#[test]
fn titles_fall_back_to_the_file_stem() {
    let r = content_response("notes/a.md", "/r/notes/a.md", "no heading", "<p>x</p>".to_string());
    assert_eq!(r.title, "a");
    assert_eq!(r.path, "notes/a.md");
    assert_eq!(r.html, "<p>x</p>");
    let r = content_response("b.md", "/r/b.md", "# Head\n", String::new());
    assert_eq!(r.title, "Head");
    assert_eq!(file_stem("/r/archive.tar.md"), "archive.tar");
    assert_eq!(file_stem("/r/.profile"), ".profile");
    assert_eq!(file_stem("/"), "untitled");
}

#[test]
fn documents_decode_lossily() {
    assert_eq!(markdown_text(&b"# ok".to_vec()), "# ok");
    assert_eq!(markdown_text(&vec![b'a', 0xff, b'b']), "a\u{fffd}b");
}

#[test]
fn health_body_quotes_the_root() {
    assert_eq!(health_body("/home/u/docs"), "{\"app\":\"madore\",\"root\":\"/home/u/docs\"}");
    assert_eq!(health_body("/a\"b"), "{\"app\":\"madore\",\"root\":\"/a\\\"b\"}");
}

#[test]
fn reload_data_marks_lost_notices() {
    assert_eq!(reload_data(Some("a.md".to_string())), "a.md");
    assert_eq!(reload_data(None), "*");
}

#[test]
fn replies_for_pages_and_assets() {
    assert!(matches!(index_reply(Some(b"<html>".to_vec())), Reply::Html(b) if b == b"<html>".to_vec()));
    assert!(matches!(index_reply(None), Reply::Status(500, m) if m == "index.html missing"));
    assert!(matches!(serve("style.css", Some(vec![1])), Reply::Typed(t, b) if t == "text/css" && b == vec![1]));
    assert!(matches!(serve("blob", Some(vec![])), Reply::Typed(t, _) if t == "application/octet-stream"));
    assert!(matches!(serve("missing.js", None), Reply::Status(404, m) if m == "not found"));
}

#[test]
fn root_names_and_tree_reply() {
    assert_eq!(root_name("/home/u/docs"), "docs");
    assert_eq!(root_name("/"), "madore");
    let entries = vec![DirEntry { name: Some("a.md".to_string()), kind: EntryKind::File, children: vec![] }];
    let t = tree_response("docs".to_string(), &entries);
    assert_eq!(t.root_name, "docs");
    assert_eq!(t.nodes.len(), 1);
    assert_eq!(t.nodes[0].path, "a.md");
}

#[test]
fn content_step_refuses_a_missing_path() {
    let (stage, action) = content_step("/r", ContentStage::Start, ContentEvent::Begin(None));
    assert!(matches!(stage, ContentStage::Done));
    assert!(matches!(action, ContentAction::Reply(ContentError::BadRequest)));
}

#[test]
fn content_step_unresolvable_is_not_found() {
    let (stage, action) =
        content_step("/r", ContentStage::Start, ContentEvent::Begin(Some("x/missing.md".to_string())));
    assert!(matches!(action, ContentAction::Resolve(ref t) if t == "/r/x/missing.md"));
    let (stage, action) = content_step("/r", stage, ContentEvent::Resolved(None));
    assert!(matches!(stage, ContentStage::Done));
    assert!(matches!(action, ContentAction::Reply(ContentError::NotFound)));
}

#[test]
fn content_step_outside_root_is_forbidden_before_reading() {
    let stage = ContentStage::Resolving("../secret.md".to_string());
    let (stage2, action) = content_step("/r", stage, ContentEvent::Resolved(Some("/secret.md".to_string())));
    assert!(matches!(stage2, ContentStage::Done));
    assert!(matches!(action, ContentAction::Reply(ContentError::Forbidden)));
    let stage = ContentStage::Resolving(".env".to_string());
    let (_, action) = content_step("/r", stage, ContentEvent::Resolved(Some("/r/.env".to_string())));
    assert!(matches!(action, ContentAction::Reply(ContentError::Forbidden)));
}

#[test]
fn content_step_size_limit() {
    let stage = ContentStage::Measuring("a.md".to_string(), "/r/a.md".to_string());
    let (_, action) = content_step("/r", stage, ContentEvent::Measured(Some(MAX_CONTENT_BYTES + 1)));
    assert!(matches!(action, ContentAction::Reply(ContentError::PayloadTooLarge)));
    let stage = ContentStage::Measuring("a.md".to_string(), "/r/a.md".to_string());
    let (_, action) = content_step("/r", stage, ContentEvent::Measured(Some(MAX_CONTENT_BYTES)));
    assert!(matches!(action, ContentAction::Read(ref c) if c == "/r/a.md"));
    let stage = ContentStage::Measuring("a.md".to_string(), "/r/a.md".to_string());
    let (_, action) = content_step("/r", stage, ContentEvent::Measured(None));
    assert!(matches!(action, ContentAction::Reply(ContentError::NotFound)));
}

#[test]
fn content_step_happy_path() {
    let (stage, action) =
        content_step("/r", ContentStage::Start, ContentEvent::Begin(Some("a.md".to_string())));
    assert!(matches!(action, ContentAction::Resolve(ref t) if t == "/r/a.md"));
    let (stage, action) = content_step("/r", stage, ContentEvent::Resolved(Some("/r/a.md".to_string())));
    assert!(matches!(action, ContentAction::CheckSize(ref c) if c == "/r/a.md"));
    let (stage, action) = content_step("/r", stage, ContentEvent::Measured(Some(5)));
    assert!(matches!(action, ContentAction::Read(ref c) if c == "/r/a.md"));
    let (stage, action) = content_step("/r", stage, ContentEvent::Loaded(Some(b"# Hi\n".to_vec())));
    let (rel, canonical, md) = match action {
        ContentAction::Render(r, c, m) => (r, c, m),
        _ => panic!("expected a render"),
    };
    assert_eq!(rel, "a.md");
    assert_eq!(canonical, "/r/a.md");
    assert_eq!(md, "# Hi\n");
    let resp = content_response(&rel, &canonical, &md, "<h1>Hi</h1>".to_string());
    let (stage, action) = content_step("/r", stage, ContentEvent::Rendered(Some(resp)));
    assert!(matches!(stage, ContentStage::Done));
    let resp = match action {
        ContentAction::Respond(r) => r,
        _ => panic!("expected a response"),
    };
    assert_eq!(resp.title, "Hi");
    let (_, action) = content_step("/r", stage, ContentEvent::Measured(Some(1)));
    assert!(matches!(action, ContentAction::Ignore));
}

#[test]
fn content_step_unreadable_is_not_found() {
    let stage = ContentStage::Reading("a.md".to_string(), "/r/a.md".to_string());
    let (_, action) = content_step("/r", stage, ContentEvent::Loaded(None));
    assert!(matches!(action, ContentAction::Reply(ContentError::NotFound)));
}
