//! Which file-system events call for a reload, and of which path.
use vstd::prelude::*;
use notify_debouncer_full::notify::event::ModifyKind;
use notify_debouncer_full::notify::EventKind;
use crate::fsutil::{is_excluded, is_excluded_range, is_markdown, is_markdown_name, is_markdown_path};
use crate::tree::{DirEntry, child_path, children_spec, entries_listed, lemma_tree_route, listed_name, node_at, tree_path};
use crate::paths::{
    Comp, PathComp, comp_view, comps_in_bounds, comps_prefix, comps_start_with, comps_view, component_spans,
    components, join_names, join_spec, lemma_join_names, lemma_nonempty_components,
    lemma_slashes_concat, lemma_spans_join, lemma_spans_len, lemma_spans_ordered, normals,
    path_components, path_file_name, path_spans, plain_name, rest_text, slashes, spans_view,
    to_slashes,
};
use crate::text::{chars_of, slice_chars, string_of};

verus! {

/// `notify`'s event kind, carried through as an opaque value.
#[verifier::external_type_specification]
#[verifier::external_body]
pub struct ExEventKind(EventKind);

/// What kind of change a modification event reports, one for one with
/// `notify`'s `ModifyKind`.
pub enum ModifyClass {
    Any,
    Data,
    /// Only metadata changed (times, permissions, owner).
    Metadata,
    Name,
    Other,
}

/// The kind of a file-system event, one for one with `notify`'s `EventKind`
/// and, for modifications, its `ModifyKind`.
pub enum ChangeKind {
    Any,
    /// A file was opened, read or closed.
    Access,
    Create,
    Modify(ModifyClass),
    Remove,
    Other,
}

/// The class of a `notify` event kind, as `change_kind_of` tells it.
pub uninterp spec fn kind_class(kind: EventKind) -> ChangeKind;

/// Tells the variants of `notify`'s `EventKind` apart, and those of its
/// `ModifyKind` inside `Modify`, one arm each; the result is named
/// `kind_class` of the kind (a plain `Copy` value, matched and nothing else).
#[verifier::external_body]
fn change_kind_of(kind: &EventKind) -> (r: ChangeKind)
    ensures
        r == kind_class(*kind),
{
    match kind {
        EventKind::Any => ChangeKind::Any,
        EventKind::Access(_) => ChangeKind::Access,
        EventKind::Create(_) => ChangeKind::Create,
        EventKind::Modify(ModifyKind::Any) => ChangeKind::Modify(ModifyClass::Any),
        EventKind::Modify(ModifyKind::Data(_)) => ChangeKind::Modify(ModifyClass::Data),
        EventKind::Modify(ModifyKind::Metadata(_)) => ChangeKind::Modify(ModifyClass::Metadata),
        EventKind::Modify(ModifyKind::Name(_)) => ChangeKind::Modify(ModifyClass::Name),
        EventKind::Modify(ModifyKind::Other) => ChangeKind::Modify(ModifyClass::Other),
        EventKind::Remove(_) => ChangeKind::Remove,
        EventKind::Other => ChangeKind::Other,
    }
}

/// Events that change what a file holds: all but accesses and metadata-only changes.
pub open spec fn content_change(k: ChangeKind) -> bool {
    !(k is Access) && !(k matches ChangeKind::Modify(ModifyClass::Metadata))
}

/// Whether an event of this kind changes content. Reading a file to serve it
/// raises access events, so these must never count.
pub fn is_content_change_kind(k: &ChangeKind) -> (b: bool)
    ensures
        b == content_change(*k),
{
    match k {
        ChangeKind::Access => false,
        ChangeKind::Modify(ModifyClass::Metadata) => false,
        _ => true,
    }
}

/// Whether a `notify` event kind changes content (`is_content_change_kind` of its kind).
pub fn is_content_change(kind: &EventKind) -> (b: bool)
    ensures
        b == content_change(kind_class(*kind)),
{
    let k = change_kind_of(kind);
    is_content_change_kind(&k)
}

/// The paths to announce for one `notify` event: those `reload_targets` gives
/// for the class of its kind. Whatever the kind, that is either nothing or the
/// reload path of every relevant path.
pub fn event_reloads(root: &str, kind: &EventKind, paths: &Vec<String>) -> (r: Vec<String>)
    ensures
        texts(r@) == reload_targets_spec(root@, kind_class(*kind), texts(paths@)),
        texts(r@) == relevant_paths(root@, texts(paths@)) || r@.len() == 0,
{
    let k = change_kind_of(kind);
    reload_targets(root, &k, paths)
}

/// The components of `path` below `root`, or all of them when `path` is not below `root`.
pub open spec fn rel_components(root: Seq<char>, path: Seq<char>) -> Seq<Comp> {
    if comps_start_with(path, root) {
        path_components(path).subrange(
            path_components(root).len() as int,
            path_components(path).len() as int,
        )
    } else {
        path_components(path)
    }
}

/// A Markdown path none of whose names below the root is excluded.
pub open spec fn relevant_spec(root: Seq<char>, path: Seq<char>) -> bool {
    let rel = rel_components(root, path);
    &&& is_markdown_path(path)
    &&& forall|k: int|
        0 <= k < rel.len() ==> match #[trigger] rel[k] {
            Comp::Normal(n) => !is_excluded(n),
            _ => true,
        }
}

/// The text of one component.
pub open spec fn comp_text(c: Comp) -> Seq<char> {
    match c {
        Comp::Root => Seq::empty(),
        Comp::Cur => seq!['.'],
        Comp::Parent => seq!['.', '.'],
        Comp::Normal(n) => n,
    }
}

/// Components written out with `/` between them.
pub open spec fn join_comps(cs: Seq<Comp>) -> Seq<char>
    decreases cs.len(),
{
    if cs.len() == 0 {
        Seq::empty()
    } else if cs.len() == 1 {
        comp_text(cs[0])
    } else {
        join_comps(cs.drop_last()) + seq!['/'] + comp_text(cs.last())
    }
}

/// The path a reload names: below the root, the text that remains once the
/// root's components are taken off (`Path::strip_prefix`); otherwise the path
/// as it is; `\` turned into `/`.
pub open spec fn reload_path_spec(root: Seq<char>, path: Seq<char>) -> Seq<char> {
    if comps_start_with(path, root) {
        slashes(rest_text(path, path_components(root).len() as int))
    } else {
        slashes(path)
    }
}

/// Whether a change of `path` concerns the viewer of `root`: a Markdown file,
/// no name of which below the root is excluded.
pub fn is_relevant(root: &str, path: &str) -> (b: bool)
    ensures
        b == relevant_spec(root@, path@),
{
    if !is_markdown(path) {
        return false;
    }
    let vr = chars_of(root);
    let vp = chars_of(path);
    let cr = components(&vr);
    let cp = components(&vp);
    let below = comps_prefix(&cr, &vr, &cp, &vp);
    let from: usize = if below { cr.len() } else { 0 };
    let ghost rel = rel_components(root@, path@);
    let ghost all = comps_view(cp@, vp@);
    assert(rel == all.subrange(from as int, all.len() as int));
    let n = cp.len();
    let mut k = from;
    while k < n
        invariant
            from <= k <= n,
            n == cp@.len(),
            comps_in_bounds(cp@, vp@.len()),
            all == comps_view(cp@, vp@),
            rel == all.subrange(from as int, n as int),
            rel == rel_components(root@, path@),
            is_markdown_path(path@),
            forall|t: int|
                0 <= t < k - from ==> match #[trigger] rel[t] {
                    Comp::Normal(m) => !is_excluded(m),
                    _ => true,
                },
        decreases n - k,
    {
        assert(rel[k - from] == comp_view(cp@[k as int], vp@));
        match &cp[k] {
            PathComp::Normal { start, end } => {
                assert(match cp@[k as int] { PathComp::Normal { start, end } => start <= end <= vp@.len(), _ => true });
                if is_excluded_range(&vp, *start, *end) {
                    let ghost t = k - from;
                    assert(rel[t] == Comp::Normal(vp@.subrange(*start as int, *end as int)));
                    assert(is_excluded(vp@.subrange(*start as int, *end as int)));
                    assert(0 <= t < rel.len());
                    assert(!(match rel[t] {
                        Comp::Normal(m) => !is_excluded(m),
                        _ => true,
                    }));
                    return false;
                }
            },
            _ => {},
        }
        k = k + 1;
    }
    true
}

/// The path that a reload for a change of `path` names, relative to `root`
/// when it is below it.
pub fn reload_path(root: &str, path: &str) -> (r: String)
    ensures
        r@ == reload_path_spec(root@, path@),
{
    let vr = chars_of(root);
    let vp = chars_of(path);
    let cr = components(&vr);
    let cp = components(&vp);
    if comps_prefix(&cr, &vr, &cp, &vp) {
        let k = cr.len();
        let sp = component_spans(&vp);
        let n = sp.len();
        let ghost spv = spans_view(sp@);
        proof {
            lemma_spans_ordered(vp@);
            assert(spv.len() == n);
        }
        if n == 0 {
            return to_slashes(path);
        }
        let (_, end) = sp[n - 1];
        assert(spv[n - 1] == (sp@[n - 1].0 as int, sp@[n - 1].1 as int));
        let t = if k == 0 {
            slice_chars(&vp, 0, end)
        } else if k >= n {
            Vec::new()
        } else {
            let (start, _) = sp[k];
            assert(spv[k as int] == (sp@[k as int].0 as int, sp@[k as int].1 as int));
            if k < n - 1 {
                assert(spv[k as int].1 <= spv[n - 1].0);
            }
            slice_chars(&vp, start, end)
        };
        let s = string_of(&t);
        to_slashes(s.as_str())
    } else {
        to_slashes(path)
    }
}

/// Texts of strings.
pub open spec fn texts(v: Seq<String>) -> Seq<Seq<char>> {
    v.map_values(|s: String| s@)
}

/// The reload paths of the relevant ones among `paths`, in order.
pub open spec fn relevant_paths(root: Seq<char>, paths: Seq<Seq<char>>) -> Seq<Seq<char>>
    decreases paths.len(),
{
    if paths.len() == 0 {
        Seq::empty()
    } else {
        let prev = relevant_paths(root, paths.drop_last());
        if relevant_spec(root, paths.last()) {
            prev.push(reload_path_spec(root, paths.last()))
        } else {
            prev
        }
    }
}

/// What one file-system event asks to reload: nothing for an access or a
/// metadata-only change; otherwise the reload path of each relevant path.
pub open spec fn reload_targets_spec(root: Seq<char>, kind: ChangeKind, paths: Seq<Seq<char>>) -> Seq<
    Seq<char>,
> {
    if content_change(kind) {
        relevant_paths(root, paths)
    } else {
        Seq::empty()
    }
}

/// The paths to announce for one file-system event of the given kind and paths.
pub fn reload_targets(root: &str, kind: &ChangeKind, paths: &Vec<String>) -> (r: Vec<String>)
    ensures
        texts(r@) == reload_targets_spec(root@, *kind, texts(paths@)),
{
    let mut out: Vec<String> = Vec::new();
    if !is_content_change_kind(kind) {
        assert(texts(out@) == Seq::<Seq<char>>::empty());
        return out;
    }
    let n = paths.len();
    assert(texts(paths@).take(0) == Seq::<Seq<char>>::empty());
    for i in 0..n
        invariant
            n == paths@.len(),
            texts(out@) == relevant_paths(root@, texts(paths@).take(i as int)),
    {
        let p = paths[i].as_str();
        let ghost ps = texts(paths@).take(i + 1);
        assert(ps.drop_last() == texts(paths@).take(i as int));
        assert(ps.last() == p@);
        if is_relevant(root, p) {
            let t = reload_path(root, p);
            let ghost old_out = out@;
            out.push(t);
            assert(texts(out@) == texts(old_out).push(t@));
        }
    }
    assert(texts(paths@).take(n as int) == texts(paths@));
    out
}

proof fn lemma_tree_path_text(names: Seq<Seq<char>>)
    requires
        names.len() > 0,
        forall|i: int| 0 <= i < names.len() ==> plain_name(#[trigger] names[i]),
    ensures
        slashes(join_comps(normals(names))) == tree_path(names),
        tree_path(names).len() > 0,
    decreases names.len(),
{
    let cs = normals(names);
    let init = names.drop_last();
    assert(plain_name(names[names.len() - 1]));
    if names.len() == 1 {
        assert(init == Seq::<Seq<char>>::empty());
        assert(cs.len() == 1);
        assert(cs[0] == Comp::Normal(names[0]));
        assert(join_comps(cs) == names[0]);
        assert(tree_path(init) == Seq::<char>::empty());
        assert(names.last() == names[0]);
        assert(slashes(names.last()).len() == names.last().len());
    } else {
        assert forall|i: int| 0 <= i < init.len() implies plain_name(#[trigger] init[i]) by {
            assert(init[i] == names[i]);
        }
        lemma_tree_path_text(init);
        assert(cs.drop_last() == normals(init));
        assert(cs.last() == Comp::Normal(names.last()));
        let j = join_comps(normals(init));
        lemma_slashes_concat(j + seq!['/'], names.last());
        lemma_slashes_concat(j, seq!['/']);
        assert(slashes(seq!['/']) == seq!['/']);
        assert(cs.len() >= 2);
        assert(join_comps(cs) == j + seq!['/'] + names.last());
        assert(tree_path(names) == tree_path(init) + seq!['/'] + slashes(names.last()));
    }
}

/// The watcher and the tree judge alike: a file reached from the root through
/// plain names is reported exactly when the tree would show it (no name is
/// excluded and the last one is a Markdown name), and it is reported under the
/// path the tree gives it.
pub proof fn lemma_watch_matches_tree(root: Seq<char>, names: Seq<Seq<char>>)
    requires
        root.len() > 0,
        names.len() > 0,
        forall|i: int| 0 <= i < names.len() ==> plain_name(#[trigger] names[i]),
    ensures
        relevant_spec(root, join_names(root, names)) <==> ((forall|i: int|
            0 <= i < names.len() ==> !is_excluded(#[trigger] names[i])) && is_markdown_name(
            names.last(),
        )),
        reload_path_spec(root, join_names(root, names)) == tree_path(names),
{
    let p = join_names(root, names);
    lemma_join_names(root, names);
    let rc = path_components(root);
    let pc = path_components(p);
    let ns = normals(names);
    assert(pc.subrange(0, rc.len() as int) == rc);
    assert(comps_start_with(p, root));
    assert(rel_components(root, p) == ns);
    assert(pc.last() == Comp::Normal(names.last()));
    assert(path_file_name(p) == Some(names.last()));
    lemma_tree_path_text(names);
    lemma_join_names_text(root, names);
    lemma_spans_len(root);
    lemma_spans_len(p);
    lemma_nonempty_components(root);
    assert(reload_path_spec(root, p) == slashes(rest_text(p, rc.len() as int)));
    assert(rest_text(p, rc.len() as int) == join_comps(normals(names)));
    if relevant_spec(root, p) {
        assert forall|i: int| 0 <= i < names.len() implies !is_excluded(#[trigger] names[i]) by {
            assert(ns[i] == Comp::Normal(names[i]));
        }
    }
    if (forall|i: int| 0 <= i < names.len() ==> !is_excluded(#[trigger] names[i])) && is_markdown_name(
        names.last(),
    ) {
        assert forall|k: int| 0 <= k < ns.len() implies match #[trigger] ns[k] {
            Comp::Normal(n) => !is_excluded(n),
            _ => true,
        } by {
            assert(ns[k] == Comp::Normal(names[k]));
        }
    }
}

/// The ranges of the components of a path reached from `root` through plain
/// names: the root's, then one per name; the text from the first name's start
/// is the names with `/` between them.
proof fn lemma_join_names_text(root: Seq<char>, names: Seq<Seq<char>>)
    requires
        root.len() > 0,
        names.len() > 0,
        forall|i: int| 0 <= i < names.len() ==> plain_name(#[trigger] names[i]),
    ensures
        ({
            let p = join_names(root, names);
            let st = join_spec(root, names[0]).len() - names[0].len();
            &&& path_spans(p).len() == path_spans(root).len() + names.len()
            &&& path_spans(p)[path_spans(root).len() as int].0 == st
            &&& path_spans(p).last().1 == p.len()
            &&& 0 <= st <= p.len()
            &&& p.subrange(st, p.len() as int) == join_comps(normals(names))
            &&& p.len() > 0
            &&& p.last() != '/'
        }),
    decreases names.len(),
{
    let p = join_names(root, names);
    let n0 = names[0];
    assert(plain_name(n0));
    let st = join_spec(root, n0).len() - n0.len();
    let init = names.drop_last();
    let nm = names.last();
    assert(plain_name(names[names.len() - 1]));
    if names.len() == 1 {
        assert(init == Seq::<Seq<char>>::empty());
        assert(nm == n0);
        assert(join_names(root, init) == root);
        assert(p == join_spec(root, n0));
        lemma_spans_join(root, n0);
        let t = if root.last() != '/' { seq!['/'] + n0 } else { n0 };
        assert(p == root + t);
        assert(p.subrange(st, p.len() as int) =~= n0);
        assert(normals(names).len() == 1);
        assert(normals(names)[0] == Comp::Normal(n0));
        assert(p.last() == n0.last());
    } else {
        assert forall|i: int| 0 <= i < init.len() implies plain_name(#[trigger] init[i]) by {
            assert(init[i] == names[i]);
        }
        assert(init[0] == n0);
        lemma_join_names_text(root, init);
        let q = join_names(root, init);
        assert(p == join_spec(q, nm));
        lemma_spans_join(q, nm);
        assert(p == q + seq!['/'] + nm);
        assert(p.subrange(st, p.len() as int) =~= q.subrange(st, q.len() as int) + seq!['/'] + nm);
        let cs = normals(names);
        assert(cs.drop_last() == normals(init));
        assert(cs.last() == Comp::Normal(nm));
        assert(join_comps(cs) == join_comps(normals(init)) + seq!['/'] + nm);
        assert(p.last() == nm.last());
        assert(nm.last() == nm[nm.len() - 1]);
    }
}

proof fn lemma_tree_path_ends(names: Seq<Seq<char>>)
    requires
        names.len() > 0,
        forall|i: int| 0 <= i < names.len() ==> listed_name(#[trigger] names[i]),
    ensures
        tree_path(names).len() > 0,
        tree_path(names)[0] != '/',
        tree_path(names).last() != '/',
    decreases names.len(),
{
    let init = names.drop_last();
    let last = names.last();
    assert(listed_name(names[names.len() - 1]));
    assert(slashes(last) =~= last);
    if init.len() > 0 {
        assert forall|i: int| 0 <= i < init.len() implies listed_name(#[trigger] init[i]) by {
            assert(init[i] == names[i]);
        }
        lemma_tree_path_ends(init);
        let t = tree_path(init);
        assert(tree_path(names) == t + seq!['/'] + last);
        assert((t + seq!['/'] + last)[0] == t[0]);
    } else {
        assert(tree_path(init) =~= Seq::<char>::empty());
        assert(child_path(tree_path(init), last) == slashes(last));
        assert(tree_path(names) == last);
    }
}

/// Joining the root and a node's tree path gives the path reached from the
/// root name by name.
proof fn lemma_join_tree_path(root: Seq<char>, names: Seq<Seq<char>>)
    requires
        names.len() > 0,
        forall|i: int| 0 <= i < names.len() ==> listed_name(#[trigger] names[i]),
    ensures
        join_spec(root, tree_path(names)) == join_names(root, names),
    decreases names.len(),
{
    let init = names.drop_last();
    let last = names.last();
    assert(listed_name(names[names.len() - 1]));
    assert(slashes(last) =~= last);
    if init.len() == 0 {
        assert(tree_path(init) =~= Seq::<char>::empty());
        assert(child_path(tree_path(init), last) == slashes(last));
        assert(tree_path(names) == last);
        assert(join_names(root, init) == root);
    } else {
        assert forall|i: int| 0 <= i < init.len() implies listed_name(#[trigger] init[i]) by {
            assert(init[i] == names[i]);
        }
        lemma_join_tree_path(root, init);
        lemma_tree_path_ends(init);
        let t = tree_path(init);
        let j = join_names(root, init);
        assert(tree_path(names) == t + seq!['/'] + last);
        assert((t + seq!['/'] + last)[0] == t[0]);
        assert(j.len() > 0 && j.last() == t.last());
        assert(join_names(root, names) == j + seq!['/'] + last);
        if root.len() > 0 && root.last() != '/' {
            assert(root + seq!['/'] + (t + seq!['/'] + last) =~= (root + seq!['/'] + t) + seq!['/'] + last);
        } else {
            assert(root + (t + seq!['/'] + last) =~= (root + t) + seq!['/'] + last);
        }
    }
}

/// Every file the tree shows is watched: for a file node at any depth of the
/// tree built from a snapshot of `root` whose names are as a directory listing
/// gives them (no `\` among them), a change of the root joined with the node's
/// path is relevant, and is reported under that very node path.
pub proof fn lemma_tree_files_watched(root: Seq<char>, es: Seq<DirEntry>, route: Seq<int>)
    requires
        root.len() > 0,
        entries_listed(es),
        node_at(children_spec(es, Seq::empty()), route) matches Some(n) && !n.is_dir,
    ensures
        ({
            let n = node_at(children_spec(es, Seq::empty()), route)->0;
            &&& relevant_spec(root, join_spec(root, n.path))
            &&& reload_path_spec(root, join_spec(root, n.path)) == n.path
        }),
{
    let pre: Seq<Seq<char>> = Seq::empty();
    assert(tree_path(pre) == Seq::<char>::empty());
    let names = lemma_tree_route(es, pre, route);
    assert(pre + names == names);
    let n = node_at(children_spec(es, Seq::empty()), route)->0;
    assert forall|i: int| 0 <= i < names.len() implies plain_name(#[trigger] names[i]) by {
        assert(listed_name(names[i]));
    }
    lemma_join_tree_path(root, names);
    lemma_watch_matches_tree(root, names);
    assert(forall|i: int| 0 <= i < names.len() ==> !is_excluded(#[trigger] names[i]));
}


/// What an event announces, path by path: nothing for no paths; for one more
/// path, what the others announce, followed by the new path's reload path when
/// the path is relevant and the event is neither an access nor a metadata-only
/// change. So creations, removals, renames, data changes and unknown kinds
/// announce every relevant path, in order; accesses and metadata-only changes
/// announce nothing.
pub proof fn lemma_reload_targets_by_path(root: Seq<char>, kind: ChangeKind, paths: Seq<Seq<char>>, p: Seq<char>)
    ensures
        reload_targets_spec(root, kind, Seq::empty()) == Seq::<Seq<char>>::empty(),
        reload_targets_spec(root, kind, paths.push(p)) == reload_targets_spec(root, kind, paths) + (
        if relevant_spec(root, p) && !(kind is Access) && !(kind matches ChangeKind::Modify(
            ModifyClass::Metadata,
        )) {
            seq![reload_path_spec(root, p)]
        } else {
            Seq::empty()
        }),
{
    let ps = paths.push(p);
    assert(ps.drop_last() == paths);
    assert(ps.last() == p);
    if content_change(kind) {
        let prev = relevant_paths(root, paths);
        if relevant_spec(root, p) {
            assert(prev.push(reload_path_spec(root, p)) =~= prev + seq![reload_path_spec(root, p)]);
        } else {
            assert(prev =~= prev + Seq::<Seq<char>>::empty());
        }
    } else {
        assert(Seq::<Seq<char>>::empty() =~= Seq::<Seq<char>>::empty() + Seq::<Seq<char>>::empty());
    }
}

/// A change of one relevant path, by any event but an access or a
/// metadata-only change (a creation among them), announces exactly that
/// path's reload path.
pub proof fn lemma_single_change_announced(root: Seq<char>, kind: ChangeKind, p: Seq<char>)
    requires
        relevant_spec(root, p),
        !(kind is Access),
        !(kind matches ChangeKind::Modify(ModifyClass::Metadata)),
    ensures
        reload_targets_spec(root, kind, seq![p]) == seq![reload_path_spec(root, p)],
{
    lemma_reload_targets_by_path(root, kind, Seq::empty(), p);
    assert(Seq::<Seq<char>>::empty().push(p) =~= seq![p]);
    assert(Seq::<Seq<char>>::empty() + seq![reload_path_spec(root, p)] =~= seq![reload_path_spec(root, p)]);
}

} // verus!
