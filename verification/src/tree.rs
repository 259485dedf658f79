//! The file tree of the sidebar, built from a snapshot of the directory tree.
use vstd::prelude::*;
use crate::fsutil::{is_excluded, is_excluded_name, is_markdown_file_name, is_markdown_name};
use crate::paths::{plain_name, slashes, to_slashes};
use crate::text::{
    chars_lt, chars_of, lemma_seq_lt_irreflexive, lemma_seq_lt_transitive, lowercase, seq_lt, string_of,
    to_lowercase,
};

verus! {

/// What a directory entry is, as its own file type says (links are not followed).
pub enum EntryKind {
    Dir,
    File,
    Other,
}

/// One entry of a directory, as read from disk: its name (`None` when the name
/// is not valid UTF-8), its kind and, for a directory, its own entries.
pub struct DirEntry {
    pub name: Option<String>,
    pub kind: EntryKind,
    pub children: Vec<DirEntry>,
}

/// One node of the sidebar tree.
pub struct TreeNode {
    pub name: String,
    /// The path from the root, with `/` between names.
    pub path: String,
    pub is_dir: bool,
    pub children: Vec<TreeNode>,
}

/// A tree node as a value.
pub struct TreeNodeV {
    pub name: Seq<char>,
    pub path: Seq<char>,
    pub is_dir: bool,
    pub children: Seq<TreeNodeV>,
}

pub open spec fn node_view(n: TreeNode) -> TreeNodeV
    decreases n, 1int,
{
    TreeNodeV { name: n.name@, path: n.path@, is_dir: n.is_dir, children: nodes_view(n.children@) }
}

pub open spec fn nodes_view(s: Seq<TreeNode>) -> Seq<TreeNodeV>
    decreases s, 0int,
{
    if s.len() == 0 {
        Seq::empty()
    } else {
        nodes_view(s.drop_last()).push(node_view(s.last()))
    }
}

/// The key by which nodes are ordered: the lower-cased name.
pub open spec fn sort_key(n: TreeNodeV) -> Seq<char> {
    lowercase(n.name)
}

/// `x` placed before the first node whose key is greater than its own.
pub open spec fn insert_by_key(s: Seq<TreeNodeV>, x: TreeNodeV) -> Seq<TreeNodeV>
    decreases s.len(),
{
    if s.len() == 0 {
        seq![x]
    } else if seq_lt(sort_key(x), sort_key(s[0])) {
        seq![x] + s
    } else {
        seq![s[0]] + insert_by_key(s.drop_first(), x)
    }
}

/// The nodes in the order of their keys, nodes with equal keys in their
/// original order (a stable sort by key).
pub open spec fn sort_by_key(s: Seq<TreeNodeV>) -> Seq<TreeNodeV>
    decreases s.len(),
{
    if s.len() == 0 {
        Seq::empty()
    } else {
        insert_by_key(sort_by_key(s.drop_last()), s.last())
    }
}

/// The path of the entry `name` of the directory at `parent` (`""` for the root),
/// with every `\` turned into `/`.
pub open spec fn child_path(parent: Seq<char>, name: Seq<char>) -> Seq<char> {
    if parent.len() == 0 {
        slashes(name)
    } else {
        parent + seq!['/'] + slashes(name)
    }
}

/// The directory nodes of the entries, in the order read: directories whose
/// names are valid and not excluded and that hold some Markdown below them.
pub open spec fn dir_nodes(es: Seq<DirEntry>, parent: Seq<char>) -> Seq<TreeNodeV>
    decreases es, 0int,
{
    if es.len() == 0 {
        Seq::empty()
    } else {
        let prev = dir_nodes(es.drop_last(), parent);
        let e = es.last();
        match e.name {
            Some(n) => if !is_excluded(n@) && e.kind is Dir {
                let p = child_path(parent, n@);
                let kids = children_spec(e.children@, p);
                if kids.len() > 0 {
                    prev.push(TreeNodeV { name: n@, path: p, is_dir: true, children: kids })
                } else {
                    prev
                }
            } else {
                prev
            },
            None => prev,
        }
    }
}

/// The file nodes of the entries, in the order read: regular files whose names
/// are valid, not excluded and Markdown names.
pub open spec fn file_nodes(es: Seq<DirEntry>, parent: Seq<char>) -> Seq<TreeNodeV>
    decreases es.len(),
{
    if es.len() == 0 {
        Seq::empty()
    } else {
        let prev = file_nodes(es.drop_last(), parent);
        let e = es.last();
        match e.name {
            Some(n) => if !is_excluded(n@) && e.kind is File && is_markdown_name(n@) {
                prev.push(
                    TreeNodeV {
                        name: n@,
                        path: child_path(parent, n@),
                        is_dir: false,
                        children: Seq::empty(),
                    },
                )
            } else {
                prev
            },
            None => prev,
        }
    }
}

/// The nodes for the entries of a directory: its directories sorted by key,
/// then its files sorted by key.
pub open spec fn children_spec(es: Seq<DirEntry>, parent: Seq<char>) -> Seq<TreeNodeV>
    decreases es, 1int,
{
    sort_by_key(dir_nodes(es, parent)) + sort_by_key(file_nodes(es, parent))
}

/// The path of the entry `name` of the directory at `parent`, relative to the root.
pub fn rel_path(parent: &str, name: &str) -> (r: String)
    ensures
        r@ == child_path(parent@, name@),
{
    let n = to_slashes(name);
    let mut out = chars_of(parent);
    if out.len() == 0 {
        n
    } else {
        out.push('/');
        let nv = chars_of(n.as_str());
        let ghost head = out@;
        let m = nv.len();
        for i in 0..m
            invariant
                m == nv@.len(),
                out@ == head + nv@.take(i as int),
        {
            out.push(nv[i]);
            assert(nv@.take(i + 1) == nv@.take(i as int).push(nv@[i as int]));
        }
        assert(nv@.take(m as int) == nv@);
        string_of(&out)
    }
}

proof fn lemma_insert_at(s: Seq<TreeNodeV>, x: TreeNodeV, p: int)
    requires
        0 <= p <= s.len(),
        forall|k: int| 0 <= k < p ==> !seq_lt(sort_key(x), #[trigger] sort_key(s[k])),
        p < s.len() ==> seq_lt(sort_key(x), sort_key(s[p])),
    ensures
        insert_by_key(s, x) == s.insert(p, x),
    decreases s.len(),
{
    if s.len() == 0 {
        assert(s.insert(p, x) == seq![x]);
    } else if p == 0 {
        assert(s.insert(0, x) == seq![x] + s);
    } else {
        assert(!seq_lt(sort_key(x), sort_key(s[0])));
        let t = s.drop_first();
        assert forall|k: int| 0 <= k < p - 1 implies !seq_lt(sort_key(x), #[trigger] sort_key(t[k])) by {
            assert(t[k] == s[k + 1]);
        }
        if p - 1 < t.len() {
            assert(t[p - 1] == s[p]);
        }
        lemma_insert_at(t, x, p - 1);
        assert(seq![s[0]] + t.insert(p - 1, x) == s.insert(p, x));
    }
}

pub proof fn lemma_nodes_view(s: Seq<TreeNode>)
    ensures
        nodes_view(s).len() == s.len(),
        forall|k: int| 0 <= k < s.len() ==> #[trigger] nodes_view(s)[k] == node_view(s[k]),
    decreases s.len(),
{
    if s.len() > 0 {
        lemma_nodes_view(s.drop_last());
        assert forall|k: int| 0 <= k < s.len() implies #[trigger] nodes_view(s)[k] == node_view(
            s[k],
        ) by {
            if k < s.len() - 1 {
                assert(s.drop_last()[k] == s[k]);
            }
        }
    }
}

/// Two vectors of nodes whose nodes are pairwise alike look alike.
pub proof fn lemma_nodes_view_ext(s: Seq<TreeNode>, t: Seq<TreeNodeV>)
    requires
        s.len() == t.len(),
        forall|k: int| 0 <= k < s.len() ==> node_view(#[trigger] s[k]) == t[k],
    ensures
        nodes_view(s) == t,
{
    lemma_nodes_view(s);
    assert(nodes_view(s) =~= t);
}

/// The nodes sorted stably by their lower-cased names.
fn sort_nodes(nodes: Vec<TreeNode>) -> (r: Vec<TreeNode>)
    ensures
        nodes_view(r@) == sort_by_key(nodes_view(nodes@)),
{
    let mut rest = nodes;
    let ghost all = nodes_view(rest@);
    proof {
        lemma_nodes_view(rest@);
    }
    let mut out: Vec<TreeNode> = Vec::new();
    let mut keys: Vec<Vec<char>> = Vec::new();
    let ghost mut done: int = 0;
    assert(all.take(0) == Seq::<TreeNodeV>::empty());
    assert(all.skip(0) == all);
    while rest.len() > 0
        invariant
            0 <= done <= all.len(),
            nodes_view(rest@) == all.skip(done),
            nodes_view(out@) == sort_by_key(all.take(done)),
            keys@.len() == out@.len(),
            forall|k: int| 0 <= k < out@.len() ==> #[trigger] keys@[k]@ == sort_key(
                node_view(out@[k]),
            ),
        decreases rest@.len(),
    {
        proof {
            lemma_nodes_view(rest@);
            lemma_nodes_view(out@);
        }
        let ghost old_rest = rest@;
        let ghost old_out = out@;
        let ghost old_keys = keys@;
        let node = rest.remove(0);
        let ghost x = node_view(node);
        assert(x == all[done]) by {
            assert(nodes_view(old_rest)[0] == all.skip(done)[0]);
        }
        let key = chars_of(to_lowercase(node.name.as_str()).as_str());
        let n = keys.len();
        let mut p: usize = 0;
        while p < n && !chars_lt(&key, &keys[p])
            invariant
                p <= n,
                n == keys@.len(),
                n == old_out.len(),
                keys@ == old_keys,
                key@ == sort_key(x),
                forall|k: int| 0 <= k < old_out.len() ==> #[trigger] old_keys[k]@ == sort_key(
                    node_view(old_out[k]),
                ),
                forall|k: int| 0 <= k < p ==> !seq_lt(key@, #[trigger] old_keys[k]@),
            decreases n - p,
        {
            p = p + 1;
        }
        let ghost sorted = nodes_view(old_out);
        proof {
            assert forall|k: int| 0 <= k < p implies !seq_lt(sort_key(x), #[trigger] sort_key(
                sorted[k],
            )) by {
                assert(sorted[k] == node_view(old_out[k]));
                assert(old_keys[k]@ == sort_key(node_view(old_out[k])));
            }
            if p < n {
                assert(sorted[p as int] == node_view(old_out[p as int]));
            }
            lemma_insert_at(sorted, x, p as int);
        }
        out.insert(p, node);
        keys.insert(p, key);
        proof {
            assert forall|k: int| 0 <= k < out@.len() implies node_view(#[trigger] out@[k])
                == sorted.insert(p as int, x)[k] by {
                if k < p {
                    assert(out@[k] == old_out[k]);
                } else if k > p {
                    assert(out@[k] == old_out[k - 1]);
                }
            }
            lemma_nodes_view_ext(out@, sorted.insert(p as int, x));
            assert(all.take(done + 1).drop_last() == all.take(done));
            assert(all.take(done + 1).last() == x);
            assert forall|k: int| 0 <= k < out@.len() implies #[trigger] keys@[k]@ == sort_key(
                node_view(out@[k]),
            ) by {
                if k < p {
                    assert(out@[k] == old_out[k] && keys@[k] == old_keys[k]);
                } else if k > p {
                    assert(out@[k] == old_out[k - 1] && keys@[k] == old_keys[k - 1]);
                }
            }
            lemma_nodes_view(rest@);
            assert forall|k: int| 0 <= k < rest@.len() implies node_view(#[trigger] rest@[k])
                == all.skip(done + 1)[k] by {
                assert(rest@[k] == old_rest[k + 1]);
                assert(nodes_view(old_rest)[k + 1] == all.skip(done)[k + 1]);
            }
            lemma_nodes_view_ext(rest@, all.skip(done + 1));
            done = done + 1;
        }
    }
    proof {
        lemma_nodes_view(rest@);
        assert(all.take(done) == all);
    }
    out
}

pub proof fn lemma_nodes_view_push(s: Seq<TreeNode>, x: TreeNode)
    ensures
        nodes_view(s.push(x)) == nodes_view(s).push(node_view(x)),
{
    assert(s.push(x).drop_last() == s);
}

pub proof fn lemma_nodes_view_concat(a: Seq<TreeNode>, b: Seq<TreeNode>)
    ensures
        nodes_view(a + b) == nodes_view(a) + nodes_view(b),
{
    lemma_nodes_view(a);
    lemma_nodes_view(b);
    lemma_nodes_view(a + b);
    assert(nodes_view(a + b) =~= nodes_view(a) + nodes_view(b));
}

/// The nodes for the entries of the directory at `parent`: its directories that
/// hold Markdown somewhere below, then its Markdown files, each group sorted by
/// lower-cased name; excluded and non-UTF-8 names and other kinds of entries
/// are left out.
pub fn build_children(entries: &Vec<DirEntry>, parent: &str) -> (r: Vec<TreeNode>)
    ensures
        nodes_view(r@) == children_spec(entries@, parent@),
    decreases entries@,
{
    let mut dirs: Vec<TreeNode> = Vec::new();
    let mut files: Vec<TreeNode> = Vec::new();
    let n = entries.len();
    assert(entries@.take(0) == Seq::<DirEntry>::empty());
    for i in 0..n
        invariant
            n == entries@.len(),
            nodes_view(dirs@) == dir_nodes(entries@.take(i as int), parent@),
            nodes_view(files@) == file_nodes(entries@.take(i as int), parent@),
    {
        let e = &entries[i];
        let ghost es = entries@.take(i + 1);
        assert(es.drop_last() == entries@.take(i as int));
        assert(es.last() == *e);
        match &e.name {
            None => {},
            Some(name) => {
                if !is_excluded_name(name.as_str()) {
                    match e.kind {
                        EntryKind::Dir => {
                            let path = rel_path(parent, name.as_str());
                            assert(decreases_to!(entries@ => entries@[i as int]));
                            assert(decreases_to!(entries@[i as int] => entries@[i as int].children));
                            assert(decreases_to!(entries@[i as int].children => entries@[i as int].children@));
                            let kids = build_children(&e.children, path.as_str());
                            if kids.len() > 0 {
                                let node = TreeNode {
                                    name: name.clone(),
                                    path,
                                    is_dir: true,
                                    children: kids,
                                };
                                proof {
                                    lemma_nodes_view_push(dirs@, node);
                                }
                                dirs.push(node);
                            }
                        },
                        EntryKind::File => {
                            if is_markdown_file_name(name.as_str()) {
                                let node = TreeNode {
                                    name: name.clone(),
                                    path: rel_path(parent, name.as_str()),
                                    is_dir: false,
                                    children: Vec::new(),
                                };
                                proof {
                                    lemma_nodes_view_push(files@, node);
                                }
                                files.push(node);
                            }
                        },
                        EntryKind::Other => {},
                    }
                }
            },
        }
    }
    assert(entries@.take(n as int) == entries@);
    let mut d = sort_nodes(dirs);
    let mut f = sort_nodes(files);
    proof {
        lemma_nodes_view_concat(d@, f@);
    }
    d.append(&mut f);
    d
}

/// The sidebar tree of a root directory, from a snapshot of its entries: the
/// root itself is no node; its nodes are those `build_children` gives.
pub fn build_tree(entries: &Vec<DirEntry>) -> (r: Vec<TreeNode>)
    ensures
        nodes_view(r@) == children_spec(entries@, Seq::empty()),
{
    let root = String::new();
    build_children(entries, root.as_str())
}

/// Keys never go down along the sequence.
pub open spec fn sorted_by_key(s: Seq<TreeNodeV>) -> bool {
    forall|i: int, j: int| 0 <= i < j < s.len() ==> !seq_lt(sort_key(#[trigger] s[j]), sort_key(#[trigger] s[i]))
}

proof fn lemma_insert_by_key(s: Seq<TreeNodeV>, x: TreeNodeV)
    ensures
        insert_by_key(s, x).to_multiset() =~= s.to_multiset().insert(x),
        sorted_by_key(s) ==> sorted_by_key(insert_by_key(s, x)),
    decreases s.len(),
{
    broadcast use vstd::seq_lib::group_to_multiset_ensures;
    if s.len() == 0 {
        assert(seq![x] == Seq::<TreeNodeV>::empty().push(x));
    } else if seq_lt(sort_key(x), sort_key(s[0])) {
        assert(seq![x] + s == s.insert(0, x));
        vstd::seq_lib::to_multiset_insert(s, 0, x);
        if sorted_by_key(s) {
            let r = seq![x] + s;
            assert forall|i: int, j: int| 0 <= i < j < r.len() implies !seq_lt(sort_key(#[trigger] r[j]), sort_key(#[trigger] r[i])) by {
                if i == 0 {
                    assert(r[j] == s[j - 1]);
                    if seq_lt(sort_key(s[j - 1]), sort_key(x)) {
                        lemma_seq_lt_transitive(sort_key(s[j - 1]), sort_key(x), sort_key(s[0]));
                        if j - 1 == 0 {
                            lemma_seq_lt_irreflexive(sort_key(s[0]));
                        }
                    }
                } else {
                    assert(r[i] == s[i - 1] && r[j] == s[j - 1]);
                }
            }
        }
    } else {
        let rest = s.drop_first();
        lemma_insert_by_key(rest, x);
        let t = insert_by_key(rest, x);
        assert(seq![s[0]] + t == t.insert(0, s[0]));
        vstd::seq_lib::to_multiset_insert(t, 0, s[0]);
        assert(s == rest.insert(0, s[0]));
        vstd::seq_lib::to_multiset_insert(rest, 0, s[0]);
        if sorted_by_key(s) {
            assert(sorted_by_key(rest)) by {
                assert forall|i: int, j: int| 0 <= i < j < rest.len() implies !seq_lt(sort_key(#[trigger] rest[j]), sort_key(#[trigger] rest[i])) by {
                    assert(rest[i] == s[i + 1] && rest[j] == s[j + 1]);
                }
            }
            let r = seq![s[0]] + t;
            assert forall|i: int, j: int| 0 <= i < j < r.len() implies !seq_lt(sort_key(#[trigger] r[j]), sort_key(#[trigger] r[i])) by {
                if i == 0 {
                    let y = r[j];
                    assert(y == t[j - 1]);
                    assert(t.contains(y));
                    assert(t.to_multiset().count(y) > 0);
                    if y != x {
                        assert(rest.to_multiset().count(y) > 0);
                        assert(rest.contains(y));
                        let k = choose|k: int| 0 <= k < rest.len() && rest[k] == y;
                        assert(rest[k] == s[k + 1]);
                    }
                } else {
                    assert(r[i] == t[i - 1] && r[j] == t[j - 1]);
                }
            }
        }
    }
}

/// Sorting by key orders the nodes by their lower-cased names and keeps
/// every node, each as often as it was there.
pub proof fn lemma_sort_by_key(s: Seq<TreeNodeV>)
    ensures
        sorted_by_key(sort_by_key(s)),
        sort_by_key(s).to_multiset() =~= s.to_multiset(),
    decreases s.len(),
{
    broadcast use vstd::seq_lib::group_to_multiset_ensures;
    if s.len() > 0 {
        lemma_sort_by_key(s.drop_last());
        lemma_insert_by_key(sort_by_key(s.drop_last()), s.last());
        assert(s == s.drop_last().push(s.last()));
    }
}

/// A directory node of the tree under `parent`: a directory with a name that
/// is not excluded, its path below `parent`, and some nodes below it.
pub open spec fn is_dir_node(n: TreeNodeV, parent: Seq<char>) -> bool {
    &&& n.is_dir
    &&& !is_excluded(n.name)
    &&& n.path == child_path(parent, n.name)
    &&& n.children.len() > 0
}

/// A file node of the tree under `parent`: a Markdown file with a name that is
/// not excluded, its path below `parent`, and nothing below it.
pub open spec fn is_file_node(n: TreeNodeV, parent: Seq<char>) -> bool {
    &&& !n.is_dir
    &&& !is_excluded(n.name)
    &&& is_markdown_name(n.name)
    &&& n.path == child_path(parent, n.name)
    &&& n.children.len() == 0
}

proof fn lemma_dir_nodes(es: Seq<DirEntry>, parent: Seq<char>)
    ensures
        forall|k: int| 0 <= k < dir_nodes(es, parent).len() ==> is_dir_node(#[trigger] dir_nodes(es, parent)[k], parent),
    decreases es.len(),
{
    if es.len() > 0 {
        lemma_dir_nodes(es.drop_last(), parent);
        let prev = dir_nodes(es.drop_last(), parent);
        let cur = dir_nodes(es, parent);
        assert forall|k: int| 0 <= k < cur.len() implies is_dir_node(#[trigger] cur[k], parent) by {
            if k < prev.len() {
                assert(cur[k] == prev[k]);
            }
        }
    }
}

proof fn lemma_file_nodes(es: Seq<DirEntry>, parent: Seq<char>)
    ensures
        forall|k: int| 0 <= k < file_nodes(es, parent).len() ==> is_file_node(#[trigger] file_nodes(es, parent)[k], parent),
    decreases es.len(),
{
    if es.len() > 0 {
        lemma_file_nodes(es.drop_last(), parent);
        let prev = file_nodes(es.drop_last(), parent);
        let cur = file_nodes(es, parent);
        assert forall|k: int| 0 <= k < cur.len() implies is_file_node(#[trigger] cur[k], parent) by {
            if k < prev.len() {
                assert(cur[k] == prev[k]);
            }
        }
    }
}

proof fn lemma_sorted_keeps(s: Seq<TreeNodeV>, p: spec_fn(TreeNodeV) -> bool)
    requires
        forall|k: int| 0 <= k < s.len() ==> p(#[trigger] s[k]),
    ensures
        forall|k: int| 0 <= k < sort_by_key(s).len() ==> p(#[trigger] sort_by_key(s)[k]),
{
    broadcast use vstd::seq_lib::group_to_multiset_ensures;
    lemma_sort_by_key(s);
    let t = sort_by_key(s);
    assert forall|k: int| 0 <= k < t.len() implies p(#[trigger] t[k]) by {
        assert(t.contains(t[k]));
        assert(t.to_multiset().count(t[k]) > 0);
        assert(s.contains(t[k]));
    }
}

/// The nodes of a directory: first its directory nodes, then its file nodes,
/// each group in the order of the lower-cased names; every directory node holds
/// something and every file node is a Markdown file; no node has an excluded
/// name; every node's path is its name below `parent`.
pub proof fn lemma_tree_shape(es: Seq<DirEntry>, parent: Seq<char>)
    ensures
        ({
            let nodes = children_spec(es, parent);
            let d = sort_by_key(dir_nodes(es, parent)).len();
            &&& 0 <= d <= nodes.len()
            &&& forall|k: int| 0 <= k < d ==> is_dir_node(#[trigger] nodes[k], parent)
            &&& forall|k: int| d <= k < nodes.len() ==> is_file_node(#[trigger] nodes[k], parent)
            &&& sorted_by_key(nodes.subrange(0, d as int))
            &&& sorted_by_key(nodes.subrange(d as int, nodes.len() as int))
        }),
{
    let ds = sort_by_key(dir_nodes(es, parent));
    let fs = sort_by_key(file_nodes(es, parent));
    let nodes = children_spec(es, parent);
    lemma_dir_nodes(es, parent);
    lemma_file_nodes(es, parent);
    lemma_sorted_keeps(dir_nodes(es, parent), |n: TreeNodeV| is_dir_node(n, parent));
    lemma_sorted_keeps(file_nodes(es, parent), |n: TreeNodeV| is_file_node(n, parent));
    lemma_sort_by_key(dir_nodes(es, parent));
    lemma_sort_by_key(file_nodes(es, parent));
    assert(nodes == ds + fs);
    assert(nodes.subrange(0, ds.len() as int) == ds);
    assert(nodes.subrange(ds.len() as int, nodes.len() as int) == fs);
    assert forall|k: int| 0 <= k < ds.len() implies is_dir_node(#[trigger] nodes[k], parent) by {
        assert(nodes[k] == ds[k]);
    }
    assert forall|k: int| ds.len() <= k < nodes.len() implies is_file_node(#[trigger] nodes[k], parent) by {
        assert(nodes[k] == fs[k - ds.len()]);
    }
}

/// The number of file nodes in the tree of a node (a file node counts itself).
pub open spec fn files_below(n: TreeNodeV) -> nat
    decreases n, 1int,
{
    if n.is_dir {
        files_in(n.children)
    } else {
        1
    }
}

/// The number of file nodes in the trees of the nodes.
pub open spec fn files_in(s: Seq<TreeNodeV>) -> nat
    decreases s, 0int,
{
    if s.len() == 0 {
        0
    } else {
        files_in(s.drop_last()) + files_below(s.last())
    }
}

/// A node that is a file, or a directory with a file somewhere below it.
pub open spec fn holds_markdown(n: TreeNodeV) -> bool {
    files_below(n) > 0
}

proof fn lemma_files_in_some(s: Seq<TreeNodeV>, k: int)
    requires
        0 <= k < s.len(),
        holds_markdown(s[k]),
    ensures
        files_in(s) > 0,
    decreases s.len(),
{
    if k < s.len() - 1 {
        lemma_files_in_some(s.drop_last(), k);
    }
}

proof fn lemma_holds_via_child(n: TreeNodeV)
    requires
        n.is_dir,
        n.children.len() > 0,
        holds_markdown(n.children[0]),
    ensures
        holds_markdown(n),
{
    lemma_files_in_some(n.children, 0);
}

proof fn lemma_dir_nodes_hold(es: Seq<DirEntry>, parent: Seq<char>)
    ensures
        forall|k: int| 0 <= k < dir_nodes(es, parent).len() ==> #[trigger] holds_markdown(dir_nodes(es, parent)[k]),
    decreases es, 0int,
{
    if es.len() > 0 {
        lemma_dir_nodes_hold(es.drop_last(), parent);
        let prev = dir_nodes(es.drop_last(), parent);
        let cur = dir_nodes(es, parent);
        let e = es.last();
        match e.name {
            Some(n) => {
                if !is_excluded(n@) && e.kind is Dir {
                    let p = child_path(parent, n@);
                    let kids = children_spec(e.children@, p);
                    lemma_children_hold(e.children@, p);
                    if kids.len() > 0 {
                        let node = TreeNodeV { name: n@, path: p, is_dir: true, children: kids };
                        assert(holds_markdown(kids[0]));
                        assert(node.children[0] == kids[0]);
                        assert(holds_markdown(node.children[0]));
                        lemma_holds_via_child(node);
                        assert(cur == prev.push(node));
                    }
                }
            },
            None => {},
        }
        assert forall|k: int| 0 <= k < cur.len() implies #[trigger] holds_markdown(cur[k]) by {
            if k < prev.len() {
                assert(cur[k] == prev[k]);
            }
        }
    }
}

/// Every node of a directory is a Markdown file or leads to one: a directory
/// without Markdown anywhere below it is never shown.
pub proof fn lemma_children_hold(es: Seq<DirEntry>, parent: Seq<char>)
    ensures
        forall|k: int| 0 <= k < children_spec(es, parent).len() ==> #[trigger] holds_markdown(children_spec(es, parent)[k]),
    decreases es, 1int,
{
    lemma_dir_nodes_hold(es, parent);
    lemma_file_nodes(es, parent);
    lemma_sorted_keeps(dir_nodes(es, parent), |n: TreeNodeV| holds_markdown(n));
    lemma_sorted_keeps(file_nodes(es, parent), |n: TreeNodeV| is_file_node(n, parent));
    let ds = sort_by_key(dir_nodes(es, parent));
    let fs = sort_by_key(file_nodes(es, parent));
    let nodes = children_spec(es, parent);
    assert(nodes == ds + fs);
    assert forall|k: int| 0 <= k < nodes.len() implies #[trigger] holds_markdown(nodes[k]) by {
        if k < ds.len() {
            assert(nodes[k] == ds[k]);
        } else {
            assert(nodes[k] == fs[k - ds.len()]);
            assert(is_file_node(fs[k - ds.len()], parent));
        }
    }
}


/// The path the tree gives the node reached through the names.
pub open spec fn tree_path(names: Seq<Seq<char>>) -> Seq<char>
    decreases names.len(),
{
    if names.len() == 0 {
        Seq::empty()
    } else {
        child_path(tree_path(names.drop_last()), names.last())
    }
}

/// A name as a directory listing gives it: non-empty, no `/`, not `.` or
/// `..`, and no `\` either.
pub open spec fn listed_name(n: Seq<char>) -> bool {
    plain_name(n) && forall|k: int| 0 <= k < n.len() ==> n[k] != '\\'
}

/// Every name in the snapshot, at any depth, is a listed name.
pub open spec fn entries_listed(es: Seq<DirEntry>) -> bool
    decreases es, 0int,
{
    if es.len() == 0 {
        true
    } else {
        entries_listed(es.drop_last()) && entry_listed(es.last())
    }
}

pub open spec fn entry_listed(e: DirEntry) -> bool
    decreases e, 1int,
{
    &&& match e.name {
        Some(n) => listed_name(n@),
        None => true,
    }
    &&& entries_listed(e.children@)
}

/// The node reached from `nodes` by taking, at each level, the child at the
/// next index of the route.
pub open spec fn node_at(nodes: Seq<TreeNodeV>, route: Seq<int>) -> Option<TreeNodeV>
    decreases route.len(),
{
    if route.len() == 0 || route[0] < 0 || route[0] >= nodes.len() {
        None
    } else if route.len() == 1 {
        Some(nodes[route[0]])
    } else {
        node_at(nodes[route[0]].children, route.drop_first())
    }
}

/// The node stands for the entry: it bears the entry's name and, as a
/// directory, holds the nodes of the entry's own entries.
pub open spec fn entry_named(e: DirEntry, n: TreeNodeV) -> bool {
    &&& e.name matches Some(nm) && nm@ == n.name
    &&& n.is_dir ==> n.children == children_spec(e.children@, n.path)
}

pub open spec fn from_entry(n: TreeNodeV, es: Seq<DirEntry>) -> bool {
    exists|j: int| 0 <= j < es.len() && #[trigger] entry_named(es[j], n)
}

proof fn lemma_entries_listed_at(es: Seq<DirEntry>, j: int)
    requires
        entries_listed(es),
        0 <= j < es.len(),
    ensures
        entry_listed(es[j]),
    decreases es.len(),
{
    if j < es.len() - 1 {
        lemma_entries_listed_at(es.drop_last(), j);
        assert(es.drop_last()[j] == es[j]);
    }
}

proof fn lemma_dir_nodes_from(es: Seq<DirEntry>, parent: Seq<char>)
    ensures
        forall|k: int| 0 <= k < dir_nodes(es, parent).len() ==> from_entry(#[trigger] dir_nodes(es, parent)[k], es),
    decreases es.len(),
{
    if es.len() > 0 {
        let init = es.drop_last();
        lemma_dir_nodes_from(init, parent);
        let prev = dir_nodes(init, parent);
        let cur = dir_nodes(es, parent);
        assert forall|k: int| 0 <= k < cur.len() implies from_entry(#[trigger] cur[k], es) by {
            if k < prev.len() {
                assert(cur[k] == prev[k]);
                let j = choose|j: int| 0 <= j < init.len() && #[trigger] entry_named(init[j], prev[k]);
                assert(init[j] == es[j]);
                assert(entry_named(es[j], cur[k]));
            } else {
                assert(entry_named(es[es.len() - 1], cur[k]));
            }
        }
    }
}

proof fn lemma_file_nodes_from(es: Seq<DirEntry>, parent: Seq<char>)
    ensures
        forall|k: int| 0 <= k < file_nodes(es, parent).len() ==> from_entry(#[trigger] file_nodes(es, parent)[k], es),
    decreases es.len(),
{
    if es.len() > 0 {
        let init = es.drop_last();
        lemma_file_nodes_from(init, parent);
        let prev = file_nodes(init, parent);
        let cur = file_nodes(es, parent);
        assert forall|k: int| 0 <= k < cur.len() implies from_entry(#[trigger] cur[k], es) by {
            if k < prev.len() {
                assert(cur[k] == prev[k]);
                let j = choose|j: int| 0 <= j < init.len() && #[trigger] entry_named(init[j], prev[k]);
                assert(init[j] == es[j]);
                assert(entry_named(es[j], cur[k]));
            } else {
                assert(entry_named(es[es.len() - 1], cur[k]));
            }
        }
    }
}

/// Every node of a directory stands for one of its entries: it bears that
/// entry's name and, as a directory, holds the nodes of that entry's entries.
pub proof fn lemma_children_from(es: Seq<DirEntry>, parent: Seq<char>)
    ensures
        forall|k: int| 0 <= k < children_spec(es, parent).len() ==> from_entry(#[trigger] children_spec(es, parent)[k], es),
{
    lemma_dir_nodes_from(es, parent);
    lemma_file_nodes_from(es, parent);
    lemma_sorted_keeps(dir_nodes(es, parent), |n: TreeNodeV| from_entry(n, es));
    lemma_sorted_keeps(file_nodes(es, parent), |n: TreeNodeV| from_entry(n, es));
    let ds = sort_by_key(dir_nodes(es, parent));
    let fs = sort_by_key(file_nodes(es, parent));
    let nodes = children_spec(es, parent);
    assert(nodes == ds + fs);
    assert forall|k: int| 0 <= k < nodes.len() implies from_entry(#[trigger] nodes[k], es) by {
        if k < ds.len() {
            assert(nodes[k] == ds[k]);
        } else {
            assert(nodes[k] == fs[k - ds.len()]);
        }
    }
}

/// The node at a route below the directory reached through `pre` lies at the
/// end of a path of listed, not excluded names: its tree path is those names
/// below `pre`, it bears the last of them, and a file node's is a Markdown name.
pub proof fn lemma_tree_route(es: Seq<DirEntry>, pre: Seq<Seq<char>>, route: Seq<int>) -> (names: Seq<
    Seq<char>,
>)
    requires
        entries_listed(es),
        node_at(children_spec(es, tree_path(pre)), route) is Some,
    ensures
        names.len() == route.len(),
        names.len() > 0,
        forall|i: int| 0 <= i < names.len() ==> listed_name(#[trigger] names[i]) && !is_excluded(names[i]),
        ({
            let n = node_at(children_spec(es, tree_path(pre)), route)->0;
            &&& n.path == tree_path(pre + names)
            &&& n.name == names.last()
            &&& !n.is_dir ==> is_markdown_name(n.name)
        }),
    decreases route.len(),
{
    let parent = tree_path(pre);
    let nodes = children_spec(es, parent);
    let k = route[0];
    lemma_tree_shape(es, parent);
    lemma_children_from(es, parent);
    let m = nodes[k];
    assert(from_entry(m, es));
    let j = choose|j: int| 0 <= j < es.len() && #[trigger] entry_named(es[j], m);
    lemma_entries_listed_at(es, j);
    let e = es[j];
    let pre2 = pre.push(m.name);
    assert(pre2.drop_last() == pre);
    assert(m.path == child_path(parent, m.name));
    assert(tree_path(pre2) == m.path);
    if route.len() == 1 {
        let names = seq![m.name];
        assert(pre + names == pre2);
        names
    } else {
        assert(node_at(nodes, route) == node_at(m.children, route.drop_first()));
        if !m.is_dir {
            assert(is_file_node(m, parent));
            assert(m.children.len() == 0);
            assert(node_at(m.children, route.drop_first()) is None);
        }
        assert(m.is_dir);
        assert(m.children == children_spec(e.children@, tree_path(pre2)));
        let rest = lemma_tree_route(e.children@, pre2, route.drop_first());
        let names = seq![m.name] + rest;
        assert(pre + names == pre2 + rest);
        assert forall|i: int| 0 <= i < names.len() implies listed_name(#[trigger] names[i]) && !is_excluded(
            names[i],
        ) by {
            if i > 0 {
                assert(names[i] == rest[i - 1]);
            }
        }
        assert(names.last() == rest.last());
        names
    }
}


proof fn lemma_file_nodes_contain(es: Seq<DirEntry>, parent: Seq<char>, j: int)
    requires
        0 <= j < es.len(),
        es[j].kind is File,
        es[j].name is Some,
        !is_excluded(es[j].name->0@),
        is_markdown_name(es[j].name->0@),
    ensures
        file_nodes(es, parent).contains(
            TreeNodeV {
                name: es[j].name->0@,
                path: child_path(parent, es[j].name->0@),
                is_dir: false,
                children: Seq::empty(),
            },
        ),
    decreases es.len(),
{
    let n = es[j].name->0@;
    let node = TreeNodeV { name: n, path: child_path(parent, n), is_dir: false, children: Seq::empty() };
    let init = es.drop_last();
    let prev = file_nodes(init, parent);
    if j == es.len() - 1 {
        assert(file_nodes(es, parent) == prev.push(node));
        assert(file_nodes(es, parent)[prev.len() as int] == node);
    } else {
        assert(init[j] == es[j]);
        lemma_file_nodes_contain(init, parent, j);
        let k = choose|k: int| 0 <= k < prev.len() && prev[k] == node;
        let cur = file_nodes(es, parent);
        assert(cur.len() >= prev.len() && cur[k] == prev[k]);
    }
}

proof fn lemma_dir_nodes_contain(es: Seq<DirEntry>, parent: Seq<char>, j: int)
    requires
        0 <= j < es.len(),
        es[j].kind is Dir,
        es[j].name is Some,
        !is_excluded(es[j].name->0@),
        children_spec(es[j].children@, child_path(parent, es[j].name->0@)).len() > 0,
    ensures
        dir_nodes(es, parent).contains(
            TreeNodeV {
                name: es[j].name->0@,
                path: child_path(parent, es[j].name->0@),
                is_dir: true,
                children: children_spec(es[j].children@, child_path(parent, es[j].name->0@)),
            },
        ),
    decreases es.len(),
{
    let n = es[j].name->0@;
    let p = child_path(parent, n);
    let node = TreeNodeV { name: n, path: p, is_dir: true, children: children_spec(es[j].children@, p) };
    let init = es.drop_last();
    let prev = dir_nodes(init, parent);
    if j == es.len() - 1 {
        assert(dir_nodes(es, parent) == prev.push(node));
        assert(dir_nodes(es, parent)[prev.len() as int] == node);
    } else {
        assert(init[j] == es[j]);
        lemma_dir_nodes_contain(init, parent, j);
        let k = choose|k: int| 0 <= k < prev.len() && prev[k] == node;
        let cur = dir_nodes(es, parent);
        assert(cur.len() >= prev.len() && cur[k] == prev[k]);
    }
}

proof fn lemma_sorted_contains(s: Seq<TreeNodeV>, x: TreeNodeV)
    requires
        s.contains(x),
    ensures
        sort_by_key(s).contains(x),
{
    broadcast use vstd::seq_lib::group_to_multiset_ensures;
    lemma_sort_by_key(s);
    assert(s.to_multiset().count(x) > 0);
    assert(sort_by_key(s).to_multiset().count(x) > 0);
}

/// The tree leaves out no Markdown file: every entry of a directory that is a
/// regular file with a valid, not excluded Markdown name is a file node of
/// that directory, bearing its name and its path below `parent`.
pub proof fn lemma_markdown_files_shown(es: Seq<DirEntry>, parent: Seq<char>, j: int)
    requires
        0 <= j < es.len(),
        es[j].kind is File,
        es[j].name is Some,
        !is_excluded(es[j].name->0@),
        is_markdown_name(es[j].name->0@),
    ensures
        children_spec(es, parent).contains(
            TreeNodeV {
                name: es[j].name->0@,
                path: child_path(parent, es[j].name->0@),
                is_dir: false,
                children: Seq::empty(),
            },
        ),
{
    let node = TreeNodeV {
        name: es[j].name->0@,
        path: child_path(parent, es[j].name->0@),
        is_dir: false,
        children: Seq::empty(),
    };
    lemma_file_nodes_contain(es, parent, j);
    lemma_sorted_contains(file_nodes(es, parent), node);
    let ds = sort_by_key(dir_nodes(es, parent));
    let fs = sort_by_key(file_nodes(es, parent));
    let k = choose|k: int| 0 <= k < fs.len() && fs[k] == node;
    assert((ds + fs)[ds.len() + k] == node);
}

/// The tree leaves out no directory that holds Markdown: every entry of a
/// directory that is a directory with a valid, not excluded name and some
/// nodes below it is a directory node of that directory, holding those nodes.
pub proof fn lemma_markdown_dirs_shown(es: Seq<DirEntry>, parent: Seq<char>, j: int)
    requires
        0 <= j < es.len(),
        es[j].kind is Dir,
        es[j].name is Some,
        !is_excluded(es[j].name->0@),
        children_spec(es[j].children@, child_path(parent, es[j].name->0@)).len() > 0,
    ensures
        children_spec(es, parent).contains(
            TreeNodeV {
                name: es[j].name->0@,
                path: child_path(parent, es[j].name->0@),
                is_dir: true,
                children: children_spec(es[j].children@, child_path(parent, es[j].name->0@)),
            },
        ),
{
    let p = child_path(parent, es[j].name->0@);
    let node = TreeNodeV { name: es[j].name->0@, path: p, is_dir: true, children: children_spec(es[j].children@, p) };
    lemma_dir_nodes_contain(es, parent, j);
    lemma_sorted_contains(dir_nodes(es, parent), node);
    let ds = sort_by_key(dir_nodes(es, parent));
    let fs = sort_by_key(file_nodes(es, parent));
    let k = choose|k: int| 0 <= k < ds.len() && ds[k] == node;
    assert((ds + fs)[k] == node);
}

} // verus!
