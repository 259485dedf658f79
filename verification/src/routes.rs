//! What the HTTP handlers answer: the tree, a rendered document, health, assets
//! and reload events.
use vstd::prelude::*;
use crate::fsutil::{is_markdown, is_markdown_path};
use crate::paths::{comp_prefix_of, comps_start_with, file_name_range, join, join_spec, name_stem_range, path_extension, path_file_name, path_stem};
use crate::render::{extract_title, title_spec};
use crate::daemon::app_marker;
use vstd::utf8::{decode_utf8, valid_utf8};
use crate::text::{chars_of, has_infix, opt_view, slice_chars, string_of};
use crate::tree::{DirEntry, TreeNode, build_tree, children_spec, nodes_view};

verus! {

/// The sidebar tree with the name of its root.
pub struct TreeResponse {
    pub root_name: String,
    pub nodes: Vec<TreeNode>,
}

/// A rendered document: its HTML, its title and the path it was asked by.
pub struct ContentResponse {
    pub html: String,
    pub title: String,
    pub path: String,
}

/// Why a document is not served.
pub enum ContentError {
    /// No `path` was given.
    BadRequest,
    /// The file cannot be found or read.
    NotFound,
    /// The file is outside the root, or not Markdown.
    Forbidden,
    /// The file is larger than the limit.
    PayloadTooLarge,
    /// Rendering did not finish.
    Internal,
}

pub open spec fn status_spec(e: ContentError) -> u16 {
    match e {
        ContentError::BadRequest => 400,
        ContentError::NotFound => 404,
        ContentError::Forbidden => 403,
        ContentError::PayloadTooLarge => 413,
        ContentError::Internal => 500,
    }
}

impl ContentError {
    /// The HTTP status of the error.
    pub fn status(&self) -> (s: u16)
        ensures
            s == status_spec(*self),
    {
        match self {
            ContentError::BadRequest => 400,
            ContentError::NotFound => 404,
            ContentError::Forbidden => 403,
            ContentError::PayloadTooLarge => 413,
            ContentError::Internal => 500,
        }
    }
}

/// The largest document served, in bytes.
pub const MAX_CONTENT_BYTES: u64 = 8 * 1024 * 1024;

/// The name shown for the root: its file name, or `madore` when it has none.
pub fn root_name(root: &str) -> (r: String)
    ensures
        r@ == match path_file_name(root@) {
            Some(n) => n,
            None => "madore"@,
        },
{
    let v = chars_of(root);
    match file_name_range(&v) {
        Some((a, b)) => string_of(&slice_chars(&v, a, b)),
        None => "madore".to_owned(),
    }
}

/// The answer for the tree: the root's name and the tree of its snapshot.
pub fn tree_response(root_name: String, entries: &Vec<DirEntry>) -> (r: TreeResponse)
    ensures
        r.root_name@ == root_name@,
        nodes_view(r.nodes@) == children_spec(entries@, Seq::empty()),
{
    TreeResponse { root_name, nodes: build_tree(entries) }
}

/// The file a document request names: the `path` parameter joined to the
/// root; a request without one is refused.
pub fn content_target(root: &str, path: Option<&str>) -> (r: Result<String, ContentError>)
    ensures
        match path {
            None => r matches Err(ContentError::BadRequest),
            Some(p) => r matches Ok(t) && t@ == join_spec(root@, p@),
        },
{
    match path {
        None => Err(ContentError::BadRequest),
        Some(p) => Ok(join(root, p)),
    }
}

/// Whether the resolved file may be served: it must lie under the root (so
/// that `..` and links cannot lead out of it) and be a Markdown file.
pub fn check_resolved(root: &str, canonical: &str) -> (r: Result<(), ContentError>)
    ensures
        r is Ok <==> (comps_start_with(canonical@, root@) && is_markdown_path(canonical@)),
        r is Err ==> r matches Err(ContentError::Forbidden),
{
    if !comp_prefix_of(root, canonical) {
        return Err(ContentError::Forbidden);
    }
    if !is_markdown(canonical) {
        return Err(ContentError::Forbidden);
    }
    Ok(())
}

/// Whether a file of `len` bytes is small enough to be served.
pub fn check_size(len: u64) -> (r: Result<(), ContentError>)
    ensures
        r is Ok <==> len <= MAX_CONTENT_BYTES,
        r is Err ==> r matches Err(ContentError::PayloadTooLarge),
{
    if len > MAX_CONTENT_BYTES {
        Err(ContentError::PayloadTooLarge)
    } else {
        Ok(())
    }
}

/// The text `String::from_utf8_lossy` makes of some bytes.
pub uninterp spec fn lossy_utf8(bytes: Seq<u8>) -> Seq<char>;

/// Calls `String::from_utf8_lossy` (bad sequences become U+FFFD); the result is
/// named `lossy_utf8` of the bytes, and for valid UTF-8 it is the decoded text.
#[verifier::external_body]
fn from_utf8_lossy(bytes: &[u8]) -> (r: String)
    ensures
        r@ == lossy_utf8(bytes@),
        valid_utf8(bytes@) ==> r@ == decode_utf8(bytes@),
{
    String::from_utf8_lossy(bytes).into_owned()
}

/// The text of a document file; bytes that are not UTF-8 are replaced, not refused.
pub fn markdown_text(bytes: &Vec<u8>) -> (r: String)
    ensures
        r@ == lossy_utf8(bytes@),
        valid_utf8(bytes@) ==> r@ == decode_utf8(bytes@),
{
    from_utf8_lossy(bytes.as_slice())
}

/// The stem of a path's file name, or `untitled` when it has none.
pub fn file_stem(path: &str) -> (r: String)
    ensures
        r@ == match path_stem(path@) {
            Some(s) => s,
            None => "untitled"@,
        },
{
    let v = chars_of(path);
    match file_name_range(&v) {
        Some((a, b)) => {
            let (x, y) = name_stem_range(&v, a, b);
            string_of(&slice_chars(&v, x, y))
        },
        None => "untitled".to_owned(),
    }
}

/// The answer for a document: its HTML, its title (the first level-one heading,
/// else the file's stem) and the path it was asked by.
pub fn content_response(rel: &str, canonical: &str, md: &str, html: String) -> (r: ContentResponse)
    ensures
        r.html@ == html@,
        r.path@ == rel@,
        r.title@ == match title_spec(md@) {
            Some(t) => t,
            None => match path_stem(canonical@) {
                Some(s) => s,
                None => "untitled"@,
            },
        },
{
    let title = match extract_title(md) {
        Some(t) => t,
        None => file_stem(canonical),
    };
    ContentResponse { html, title, path: rel.to_owned() }
}

/// The data of a reload event: the changed path, or `*` (reload everything)
/// when notices were lost.
pub fn reload_data(changed: Option<String>) -> (r: String)
    ensures
        r@ == match changed {
            Some(p) => p@,
            None => "*"@,
        },
{
    match changed {
        Some(p) => p,
        None => "*".to_owned(),
    }
}

/// The text `format!("{:?}", s)` makes of a string: quoted, with escapes.
pub uninterp spec fn debug_text(s: Seq<char>) -> Seq<char>;

/// Text made only of printable ASCII characters other than `"` and `\`:
/// characters that the debug form of a `str` leaves as they are.
pub open spec fn plain_ascii(s: Seq<char>) -> bool {
    forall|k: int| 0 <= k < s.len() ==> {
        let u = #[trigger] s[k] as u32;
        0x20 <= u <= 0x7e && s[k] != '"' && s[k] != '\\'
    }
}

/// Calls `format!("{:?}", s)` on a `str`; the result is named `debug_text` of
/// the text. As std documents it, a text of printable ASCII characters other
/// than `"` and `\` comes out unchanged between double quotes.
#[verifier::external_body]
fn debug_quote(s: &str) -> (r: String)
    ensures
        r@ == debug_text(s@),
        plain_ascii(s@) ==> r@ == seq!['"'] + s@ + seq!['"'],
{
    format!("{:?}", s)
}

/// The health reply for `root`: `{"app":"madore","root":` the quoted root `}`.
pub open spec fn health_body_spec(root: Seq<char>) -> Seq<char> {
    "{\"app\":\"madore\",\"root\":"@ + debug_text(root) + "}"@
}

/// The body of the health reply, by which the launcher recognises the server
/// of a root: for a root of plain printable ASCII it holds the app marker and
/// the root itself, which is what `health_matches` looks for.
pub fn health_body(root: &str) -> (r: String)
    ensures
        r@ == health_body_spec(root@),
        plain_ascii(root@) ==> has_infix(r@, app_marker()) && has_infix(r@, root@),
{
    let mut body = "{\"app\":\"madore\",\"root\":".to_owned();
    let q = debug_quote(root);
    proof {
        if plain_ascii(root@) {
            lemma_health_recognised(root@);
        }
    }
    body.append(q.as_str());
    body.append("}");
    body
}

/// A reply, as the server hands it out.
pub enum Reply {
    /// An HTML page.
    Html(Vec<u8>),
    /// A body with its content type.
    Typed(String, Vec<u8>),
    /// A status with a short text.
    Status(u16, String),
}

/// The content type `mime_guess` gives for a path, `application/octet-stream` when it knows none.
pub uninterp spec fn guessed_mime(path: Seq<char>) -> Seq<char>;

/// Calls `mime_guess::from_path(path).first_or_octet_stream()` and writes the
/// type out; the result is named `guessed_mime` of the path. A path without an
/// extension has no guess, so it gets `application/octet-stream`.
#[verifier::external_body]
fn mime_for(path: &str) -> (r: String)
    ensures
        r@ == guessed_mime(path@),
        path_extension(path@) is None ==> r@ == "application/octet-stream"@,
{
    mime_guess::from_path(path).first_or_octet_stream().to_string()
}

/// The reply for the application page, given the embedded page if it is there.
pub fn index_reply(page: Option<Vec<u8>>) -> (r: Reply)
    ensures
        match page {
            Some(b) => r matches Reply::Html(body) && body@ == b@,
            None => r matches Reply::Status(s, m) && s == 500 && m@ == "index.html missing"@,
        },
{
    match page {
        Some(b) => Reply::Html(b),
        None => Reply::Status(500, "index.html missing".to_owned()),
    }
}

/// The reply for an embedded asset, given its bytes if it is there: the bytes
/// with the content type guessed from the path, or 404.
pub fn serve(path: &str, data: Option<Vec<u8>>) -> (r: Reply)
    ensures
        match data {
            Some(b) => r matches Reply::Typed(t, body) && t@ == guessed_mime(path@) && body@ == b@
                && (path_extension(path@) is None ==> t@ == "application/octet-stream"@),
            None => r matches Reply::Status(s, m) && s == 404 && m@ == "not found"@,
        },
{
    match data {
        Some(b) => Reply::Typed(mime_for(path), b),
        None => Reply::Status(404, "not found".to_owned()),
    }
}

/// The launcher recognises the health reply of the server of the same root
/// (it holds the app marker and the root), whenever the root's debug form is
/// the root between plain quotes, i.e. no character of it needs an escape.
pub proof fn lemma_health_recognised(root: Seq<char>)
    requires
        debug_text(root) == seq!['"'] + root + seq!['"'],
    ensures
        has_infix(health_body_spec(root), app_marker()),
        has_infix(health_body_spec(root), root),
{
    reveal_strlit("{\"app\":\"madore\",\"root\":");
    reveal_strlit("\"app\":\"madore\"");
    reveal_strlit("}");
    let head = "{\"app\":\"madore\",\"root\":"@;
    let body = health_body_spec(root);
    assert(head.len() == 23);
    assert(app_marker().len() == 14);
    assert(body.subrange(1, 1 + app_marker().len() as int) =~= app_marker());
    assert(body.subrange(24, 24 + root.len() as int) =~= root);
}

/// A document request served under `root`: the resolved file lies under the
/// root and is a Markdown file.
pub open spec fn servable(root: Seq<char>, canonical: Seq<char>) -> bool {
    comps_start_with(canonical, root) && is_markdown_path(canonical)
}

/// Where a document request stands.
pub enum ContentStage {
    Start,
    /// The requested path (as given) is being resolved.
    Resolving(String),
    /// The size of the resolved file is being looked up.
    Measuring(String, String),
    /// The resolved file is being read.
    Reading(String, String),
    /// The document is being rendered.
    Rendering,
    /// A reply has been chosen.
    Done,
}

/// What the server learnt for a document request.
pub enum ContentEvent {
    /// The request arrived, with its `path` parameter if any.
    Begin(Option<String>),
    /// The requested file resolved to this path, or could not be resolved.
    Resolved(Option<String>),
    /// The file's size in bytes, or the lookup failed.
    Measured(Option<u64>),
    /// The file's bytes, or reading failed.
    Loaded(Option<Vec<u8>>),
    /// The rendered answer, or rendering did not finish.
    Rendered(Option<ContentResponse>),
}

/// What the server does next for a document request.
pub enum ContentAction {
    /// Resolve this path (follow links, make it absolute).
    Resolve(String),
    /// Look up the size of this file.
    CheckSize(String),
    /// Read this file.
    Read(String),
    /// Render this text, asked by the first path and found at the second.
    Render(String, String, String),
    /// Answer with the rendered document.
    Respond(ContentResponse),
    /// Answer with this error.
    Reply(ContentError),
    /// Nothing is left to do.
    Ignore,
}

pub enum StageV {
    Start,
    Resolving(Seq<char>),
    Measuring(Seq<char>, Seq<char>),
    Reading(Seq<char>, Seq<char>),
    Rendering,
    Done,
}

pub enum EventV {
    Begin(Option<Seq<char>>),
    Resolved(Option<Seq<char>>),
    Measured(Option<u64>),
    Loaded(Option<Seq<u8>>),
    Rendered(bool),
}

pub enum ActionV {
    Resolve(Seq<char>),
    CheckSize(Seq<char>),
    Read(Seq<char>),
    Render(Seq<char>, Seq<char>, Seq<char>),
    Respond,
    Reply(ContentError),
    Ignore,
}

impl View for ContentStage {
    type V = StageV;

    open spec fn view(&self) -> StageV {
        match self {
            ContentStage::Start => StageV::Start,
            ContentStage::Resolving(r) => StageV::Resolving(r@),
            ContentStage::Measuring(r, c) => StageV::Measuring(r@, c@),
            ContentStage::Reading(r, c) => StageV::Reading(r@, c@),
            ContentStage::Rendering => StageV::Rendering,
            ContentStage::Done => StageV::Done,
        }
    }
}

impl View for ContentEvent {
    type V = EventV;

    open spec fn view(&self) -> EventV {
        match self {
            ContentEvent::Begin(p) => EventV::Begin(opt_view(*p)),
            ContentEvent::Resolved(c) => EventV::Resolved(opt_view(*c)),
            ContentEvent::Measured(n) => EventV::Measured(*n),
            ContentEvent::Loaded(b) => EventV::Loaded(
                match b {
                    Some(v) => Some(v@),
                    None => None,
                },
            ),
            ContentEvent::Rendered(r) => EventV::Rendered(r is Some),
        }
    }
}

impl View for ContentAction {
    type V = ActionV;

    open spec fn view(&self) -> ActionV {
        match self {
            ContentAction::Resolve(t) => ActionV::Resolve(t@),
            ContentAction::CheckSize(c) => ActionV::CheckSize(c@),
            ContentAction::Read(c) => ActionV::Read(c@),
            ContentAction::Render(r, c, m) => ActionV::Render(r@, c@, m@),
            ContentAction::Respond(_) => ActionV::Respond,
            ContentAction::Reply(e) => ActionV::Reply(*e),
            ContentAction::Ignore => ActionV::Ignore,
        }
    }
}

/// The next stage and action of a document request. A missing `path` is
/// refused with 400; a path that does not resolve, a size that cannot be
/// looked up or a file that cannot be read gives 404; a file outside the root
/// or not Markdown gives 403, and one over the limit 413, each before anything
/// is read; an event out of turn ends the request with 500; after the reply,
/// nothing more is done.
pub open spec fn content_step_spec(root: Seq<char>, stage: StageV, event: EventV) -> (StageV, ActionV) {
    match stage {
        StageV::Start => match event {
            EventV::Begin(None) => (StageV::Done, ActionV::Reply(ContentError::BadRequest)),
            EventV::Begin(Some(p)) => (StageV::Resolving(p), ActionV::Resolve(join_spec(root, p))),
            _ => (StageV::Done, ActionV::Reply(ContentError::Internal)),
        },
        StageV::Resolving(rel) => match event {
            EventV::Resolved(None) => (StageV::Done, ActionV::Reply(ContentError::NotFound)),
            EventV::Resolved(Some(c)) => if servable(root, c) {
                (StageV::Measuring(rel, c), ActionV::CheckSize(c))
            } else {
                (StageV::Done, ActionV::Reply(ContentError::Forbidden))
            },
            _ => (StageV::Done, ActionV::Reply(ContentError::Internal)),
        },
        StageV::Measuring(rel, c) => match event {
            EventV::Measured(None) => (StageV::Done, ActionV::Reply(ContentError::NotFound)),
            EventV::Measured(Some(len)) => if len <= MAX_CONTENT_BYTES {
                (StageV::Reading(rel, c), ActionV::Read(c))
            } else {
                (StageV::Done, ActionV::Reply(ContentError::PayloadTooLarge))
            },
            _ => (StageV::Done, ActionV::Reply(ContentError::Internal)),
        },
        StageV::Reading(rel, c) => match event {
            EventV::Loaded(None) => (StageV::Done, ActionV::Reply(ContentError::NotFound)),
            EventV::Loaded(Some(b)) => (StageV::Rendering, ActionV::Render(rel, c, lossy_utf8(b))),
            _ => (StageV::Done, ActionV::Reply(ContentError::Internal)),
        },
        StageV::Rendering => match event {
            EventV::Rendered(true) => (StageV::Done, ActionV::Respond),
            EventV::Rendered(false) => (StageV::Done, ActionV::Reply(ContentError::Internal)),
            _ => (StageV::Done, ActionV::Reply(ContentError::Internal)),
        },
        StageV::Done => (StageV::Done, ActionV::Ignore),
    }
}

/// One step of serving a document: from where the request stands and what
/// was learnt, the next stage and what to do.
pub fn content_step(root: &str, stage: ContentStage, event: ContentEvent) -> (r: (
    ContentStage,
    ContentAction,
))
    ensures
        (r.0@, r.1@) == content_step_spec(root@, stage@, event@),
        r.1 matches ContentAction::Respond(x) ==> event matches ContentEvent::Rendered(Some(y)) && x
            == y,
{
    match stage {
        ContentStage::Start => match event {
            ContentEvent::Begin(None) => (ContentStage::Done, ContentAction::Reply(ContentError::BadRequest)),
            ContentEvent::Begin(Some(p)) => {
                let target = join(root, p.as_str());
                (ContentStage::Resolving(p), ContentAction::Resolve(target))
            },
            _ => (ContentStage::Done, ContentAction::Reply(ContentError::Internal)),
        },
        ContentStage::Resolving(rel) => match event {
            ContentEvent::Resolved(None) => (ContentStage::Done, ContentAction::Reply(ContentError::NotFound)),
            ContentEvent::Resolved(Some(c)) => {
                match check_resolved(root, c.as_str()) {
                    Ok(()) => {
                        let c2 = c.clone();
                        (ContentStage::Measuring(rel, c), ContentAction::CheckSize(c2))
                    },
                    Err(_) => (ContentStage::Done, ContentAction::Reply(ContentError::Forbidden)),
                }
            },
            _ => (ContentStage::Done, ContentAction::Reply(ContentError::Internal)),
        },
        ContentStage::Measuring(rel, c) => match event {
            ContentEvent::Measured(None) => (ContentStage::Done, ContentAction::Reply(ContentError::NotFound)),
            ContentEvent::Measured(Some(len)) => {
                match check_size(len) {
                    Ok(()) => {
                        let c2 = c.clone();
                        (ContentStage::Reading(rel, c), ContentAction::Read(c2))
                    },
                    Err(_) => (ContentStage::Done, ContentAction::Reply(ContentError::PayloadTooLarge)),
                }
            },
            _ => (ContentStage::Done, ContentAction::Reply(ContentError::Internal)),
        },
        ContentStage::Reading(rel, c) => match event {
            ContentEvent::Loaded(None) => (ContentStage::Done, ContentAction::Reply(ContentError::NotFound)),
            ContentEvent::Loaded(Some(b)) => {
                let md = markdown_text(&b);
                (ContentStage::Rendering, ContentAction::Render(rel, c, md))
            },
            _ => (ContentStage::Done, ContentAction::Reply(ContentError::Internal)),
        },
        ContentStage::Rendering => match event {
            ContentEvent::Rendered(Some(resp)) => (ContentStage::Done, ContentAction::Respond(resp)),
            _ => (ContentStage::Done, ContentAction::Reply(ContentError::Internal)),
        },
        ContentStage::Done => (ContentStage::Done, ContentAction::Ignore),
    }
}

/// The actions a document request takes for a run of events, from a stage.
pub open spec fn content_run(root: Seq<char>, stage: StageV, events: Seq<EventV>) -> Seq<ActionV>
    decreases events.len(),
{
    if events.len() == 0 {
        Seq::empty()
    } else {
        let (next, action) = content_step_spec(root, stage, events[0]);
        seq![action] + content_run(root, next, events.drop_first())
    }
}

/// A stage that holds a resolved file holds a servable one.
pub open spec fn stage_checked(root: Seq<char>, stage: StageV) -> bool {
    match stage {
        StageV::Measuring(_, c) => servable(root, c),
        StageV::Reading(_, c) => servable(root, c),
        _ => true,
    }
}

proof fn lemma_run_shape(root: Seq<char>, stage: StageV, events: Seq<EventV>, i: int)
    requires
        1 <= i < events.len(),
    ensures
        content_run(root, stage, events).len() == events.len(),
        content_run(root, stage, events)[i] == content_run(
            root,
            content_step_spec(root, stage, events[0]).0,
            events.drop_first(),
        )[i - 1],
        content_run(root, stage, events)[0] == content_step_spec(root, stage, events[0]).1,
    decreases events.len(),
{
    lemma_run_len(root, stage, events);
}

proof fn lemma_run_len(root: Seq<char>, stage: StageV, events: Seq<EventV>)
    ensures
        content_run(root, stage, events).len() == events.len(),
    decreases events.len(),
{
    if events.len() > 0 {
        lemma_run_len(root, content_step_spec(root, stage, events[0]).0, events.drop_first());
    }
}

proof fn lemma_read_checked(root: Seq<char>, stage: StageV, events: Seq<EventV>, i: int)
    requires
        0 <= i < events.len(),
        stage_checked(root, stage),
        content_run(root, stage, events)[i] is Read,
    ensures
        ({
            let c = content_run(root, stage, events)[i]->Read_0;
            &&& servable(root, c)
            &&& events[i] matches EventV::Measured(Some(len)) && len <= MAX_CONTENT_BYTES
            &&& (stage matches StageV::Measuring(_, c2) && c2 == c) || exists|j: int|
                0 <= j < i && events[j] == EventV::Resolved(Some(c))
        }),
    decreases events.len(),
{
    lemma_run_len(root, stage, events);
    let (next, a) = content_step_spec(root, stage, events[0]);
    if i == 0 {
        assert(content_run(root, stage, events)[0] == a);
    } else {
        lemma_run_shape(root, stage, events, i);
        let rest = events.drop_first();
        lemma_read_checked(root, next, rest, i - 1);
        let c = content_run(root, stage, events)[i]->Read_0;
        assert(rest[i - 1] == events[i]);
        if next matches StageV::Measuring(_, c2) && c2 == c {
            assert(events[0] == EventV::Resolved(Some(c)));
        } else {
            let j = choose|j: int| 0 <= j < i - 1 && rest[j] == EventV::Resolved(Some(c));
            assert(events[j + 1] == rest[j]);
        }
    }
}

/// A document request reads a file only after that very file was resolved,
/// found under the root and Markdown, and found no larger than the limit: a
/// refused or unresolvable request reads nothing.
pub proof fn lemma_content_reads_only_checked(root: Seq<char>, events: Seq<EventV>, i: int)
    requires
        0 <= i < events.len(),
        content_run(root, StageV::Start, events)[i] is Read,
    ensures
        ({
            let c = content_run(root, StageV::Start, events)[i]->Read_0;
            &&& servable(root, c)
            &&& events[i] matches EventV::Measured(Some(len)) && len <= MAX_CONTENT_BYTES
            &&& exists|j: int| 0 <= j < i && events[j] == EventV::Resolved(Some(c))
        }),
{
    lemma_read_checked(root, StageV::Start, events, i);
}

proof fn lemma_done_ignores(root: Seq<char>, events: Seq<EventV>, k: int)
    requires
        0 <= k < events.len(),
    ensures
        content_run(root, StageV::Done, events)[k] == ActionV::Ignore,
    decreases events.len(),
{
    lemma_run_len(root, StageV::Done, events);
    if k > 0 {
        lemma_run_shape(root, StageV::Done, events, k);
        lemma_done_ignores(root, events.drop_first(), k - 1);
    }
}

proof fn lemma_reply_ends_from(root: Seq<char>, stage: StageV, events: Seq<EventV>, i: int, k: int)
    requires
        0 <= i < k < events.len(),
        content_run(root, stage, events)[i] is Reply || content_run(root, stage, events)[i] is Respond,
    ensures
        content_run(root, stage, events)[k] == ActionV::Ignore,
    decreases events.len(),
{
    lemma_run_len(root, stage, events);
    let next = content_step_spec(root, stage, events[0]).0;
    lemma_run_shape(root, stage, events, k);
    if i == 0 {
        assert(next == StageV::Done);
        lemma_done_ignores(root, events.drop_first(), k - 1);
    } else {
        lemma_run_shape(root, stage, events, i);
        lemma_reply_ends_from(root, next, events.drop_first(), i - 1, k - 1);
    }
}

/// Once a document request has answered, with a document or an error, it
/// does nothing more.
pub proof fn lemma_content_reply_ends(root: Seq<char>, events: Seq<EventV>, i: int, k: int)
    requires
        0 <= i < k < events.len(),
        content_run(root, StageV::Start, events)[i] is Reply || content_run(root, StageV::Start, events)[i] is Respond,
    ensures
        content_run(root, StageV::Start, events)[k] == ActionV::Ignore,
{
    lemma_reply_ends_from(root, StageV::Start, events, i, k);
}


/// A document request for a file that resolves under the root (at any depth)
/// to a Markdown file no larger than the limit is served: the path is
/// resolved, the file measured, read and rendered, and the rendered document
/// is the answer.
pub proof fn lemma_content_served(root: Seq<char>, p: Seq<char>, c: Seq<char>, len: u64, bytes: Seq<u8>)
    requires
        comps_start_with(c, root),
        is_markdown_path(c),
        len <= MAX_CONTENT_BYTES,
    ensures
        content_run(
            root,
            StageV::Start,
            seq![
                EventV::Begin(Some(p)),
                EventV::Resolved(Some(c)),
                EventV::Measured(Some(len)),
                EventV::Loaded(Some(bytes)),
                EventV::Rendered(true),
            ],
        ) == seq![
            ActionV::Resolve(join_spec(root, p)),
            ActionV::CheckSize(c),
            ActionV::Read(c),
            ActionV::Render(p, c, lossy_utf8(bytes)),
            ActionV::Respond,
        ],
{
    let e0 = EventV::Begin(Some(p));
    let e1 = EventV::Resolved(Some(c));
    let e2 = EventV::Measured(Some(len));
    let e3 = EventV::Loaded(Some(bytes));
    let e4 = EventV::Rendered(true);
    let evs = seq![e0, e1, e2, e3, e4];
    let s1 = StageV::Resolving(p);
    let s2 = StageV::Measuring(p, c);
    let s3 = StageV::Reading(p, c);
    let s4 = StageV::Rendering;
    let s5 = StageV::Done;
    assert(evs.drop_first() =~= seq![e1, e2, e3, e4]);
    assert(seq![e1, e2, e3, e4].drop_first() =~= seq![e2, e3, e4]);
    assert(seq![e2, e3, e4].drop_first() =~= seq![e3, e4]);
    assert(seq![e3, e4].drop_first() =~= seq![e4]);
    assert(seq![e4].drop_first() =~= Seq::<EventV>::empty());
    assert(content_run(root, s5, Seq::<EventV>::empty()) == Seq::<ActionV>::empty());
    assert(content_run(root, s4, seq![e4]) =~= seq![ActionV::Respond]);
    assert(content_run(root, s3, seq![e3, e4]) =~= seq![ActionV::Render(p, c, lossy_utf8(bytes)), ActionV::Respond]);
    assert(content_run(root, s2, seq![e2, e3, e4]) =~= seq![
        ActionV::Read(c),
        ActionV::Render(p, c, lossy_utf8(bytes)),
        ActionV::Respond,
    ]);
    assert(content_run(root, s1, seq![e1, e2, e3, e4]) =~= seq![
        ActionV::CheckSize(c),
        ActionV::Read(c),
        ActionV::Render(p, c, lossy_utf8(bytes)),
        ActionV::Respond,
    ]);
}

/// A request refused for its file (outside the root, not Markdown, or over
/// the limit) is answered with 403 or 413 at that step and reads nothing.
pub proof fn lemma_content_refused(root: Seq<char>, p: Seq<char>, c: Seq<char>, len: u64)
    ensures
        !(comps_start_with(c, root) && is_markdown_path(c)) ==> content_step_spec(
            root,
            StageV::Resolving(p),
            EventV::Resolved(Some(c)),
        ) == (StageV::Done, ActionV::Reply(ContentError::Forbidden)),
        len > MAX_CONTENT_BYTES ==> content_step_spec(root, StageV::Measuring(p, c), EventV::Measured(Some(len)))
            == (StageV::Done, ActionV::Reply(ContentError::PayloadTooLarge)),
{
}

} // verus!
