//! Which names and paths the viewer shows and watches.
use vstd::prelude::*;
use crate::paths::{file_name_range, name_extension, name_extension_range, path_extension};
use crate::text::{chars_eq_range, chars_of, has_prefix, has_suffix, range_has_prefix, range_has_suffix};

verus! {

/// A file name with the extension `md` or `markdown`.
pub open spec fn is_markdown_name(n: Seq<char>) -> bool {
    name_extension(n) == Some("md"@) || name_extension(n) == Some("markdown"@)
}

/// A path whose extension is `md` or `markdown`.
pub open spec fn is_markdown_path(p: Seq<char>) -> bool {
    path_extension(p) == Some("md"@) || path_extension(p) == Some("markdown"@)
}

/// A name hidden from the tree and from watching: dot names, the build and
/// dependency directories `node_modules` and `target`, and editor leftovers
/// ending in `~` or `.swp`.
pub open spec fn is_excluded(n: Seq<char>) -> bool {
    ||| has_prefix(n, "."@)
    ||| n == "node_modules"@
    ||| n == "target"@
    ||| has_suffix(n, "~"@)
    ||| has_suffix(n, ".swp"@)
}

/// Whether the name `v[lo..hi]` has a Markdown extension.
pub fn is_markdown_range(v: &Vec<char>, lo: usize, hi: usize) -> (b: bool)
    requires
        lo <= hi <= v@.len(),
    ensures
        b == is_markdown_name(v@.subrange(lo as int, hi as int)),
{
    match name_extension_range(v, lo, hi) {
        None => false,
        Some((a, e)) => chars_eq_range(&chars_of("md"), v, a, e) || chars_eq_range(
            &chars_of("markdown"),
            v,
            a,
            e,
        ),
    }
}

/// Whether the path names a Markdown file, judged by its extension.
pub fn is_markdown(path: &str) -> (b: bool)
    ensures
        b == is_markdown_path(path@),
{
    let v = chars_of(path);
    match file_name_range(&v) {
        None => false,
        Some((a, e)) => is_markdown_range(&v, a, e),
    }
}

/// Whether a file name has a Markdown extension.
pub fn is_markdown_file_name(name: &str) -> (b: bool)
    ensures
        b == is_markdown_name(name@),
{
    let v = chars_of(name);
    let b = is_markdown_range(&v, 0, v.len());
    assert(v@.subrange(0, v@.len() as int) == v@);
    b
}

/// Whether the name `v[lo..hi]` is one the tree and the watcher leave out.
pub fn is_excluded_range(v: &Vec<char>, lo: usize, hi: usize) -> (b: bool)
    requires
        lo <= hi <= v@.len(),
    ensures
        b == is_excluded(v@.subrange(lo as int, hi as int)),
{
    range_has_prefix(v, lo, hi, &chars_of(".")) || chars_eq_range(&chars_of("node_modules"), v, lo, hi)
        || chars_eq_range(&chars_of("target"), v, lo, hi) || range_has_suffix(v, lo, hi, &chars_of("~"))
        || range_has_suffix(v, lo, hi, &chars_of(".swp"))
}

/// Whether the tree and the watcher leave out this name (a directory's or a file's).
pub fn is_excluded_name(name: &str) -> (b: bool)
    ensures
        b == is_excluded(name@),
{
    let v = chars_of(name);
    let b = is_excluded_range(&v, 0, v.len());
    assert(v@.subrange(0, v@.len() as int) == v@);
    b
}


/// Exactly these names are hidden: those that start with `.`, the names
/// `node_modules` and `target`, and those that end with `~` or `.swp`; every
/// other name is shown and watched.
pub proof fn lemma_excluded_names(n: Seq<char>)
    ensures
        is_excluded(n) <==> {
            ||| (n.len() > 0 && n[0] == '.')
            ||| n == seq!['n', 'o', 'd', 'e', '_', 'm', 'o', 'd', 'u', 'l', 'e', 's']
            ||| n == seq!['t', 'a', 'r', 'g', 'e', 't']
            ||| (n.len() > 0 && n.last() == '~')
            ||| (n.len() >= 4 && n[n.len() - 4] == '.' && n[n.len() - 3] == 's' && n[n.len() - 2] == 'w'
                && n[n.len() - 1] == 'p')
        },
{
    reveal_strlit(".");
    reveal_strlit("node_modules");
    reveal_strlit("target");
    reveal_strlit("~");
    reveal_strlit(".swp");
    let dot = "."@;
    let swp = ".swp"@;
    if n.len() > 0 {
        assert(has_prefix(n, dot) <==> n[0] == '.') by {
            if n[0] == '.' {
                assert(n.subrange(0, 1) =~= dot);
            }
            if has_prefix(n, dot) {
                assert(n.subrange(0, 1)[0] == n[0]);
            }
        }
        assert(has_suffix(n, "~"@) <==> n.last() == '~') by {
            if n.last() == '~' {
                assert(n.subrange(n.len() - 1, n.len() as int) =~= "~"@);
            }
            if has_suffix(n, "~"@) {
                assert(n.subrange(n.len() - 1, n.len() as int)[0] == n.last());
            }
        }
    }
    if n.len() >= 4 {
        let t = n.subrange(n.len() - 4, n.len() as int);
        assert(t[0] == n[n.len() - 4] && t[1] == n[n.len() - 3] && t[2] == n[n.len() - 2] && t[3]
            == n[n.len() - 1]);
        if n[n.len() - 4] == '.' && n[n.len() - 3] == 's' && n[n.len() - 2] == 'w' && n[n.len() - 1] == 'p' {
            assert(t =~= swp);
        }
    }
    assert("node_modules"@ =~= seq!['n', 'o', 'd', 'e', '_', 'm', 'o', 'd', 'u', 'l', 'e', 's']);
    assert("target"@ =~= seq!['t', 'a', 'r', 'g', 'e', 't']);
}

} // verus!
