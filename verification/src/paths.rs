//! Unix path texts, taken apart the way `std::path::Path::components` does it:
//! a leading `/` is the root, a leading `.` segment is the current directory,
//! empty and `.` segments elsewhere are dropped, and `..` is the parent directory.
//! Only Unix paths are modelled: `/` is the one separator and there are no
//! Windows prefixes, so the library is meant for Unix systems.
use vstd::prelude::*;
use crate::text::{chars_of, has_prefix, range_eq, string_of};

verus! {

/// One component of a path.
pub enum Comp {
    Root,
    Cur,
    Parent,
    Normal(Seq<char>),
}

/// Index of the first `/` at or after `i`, or the length of the text.
pub open spec fn next_sep(s: Seq<char>, i: int) -> int
    decreases s.len() - i,
{
    if i >= s.len() {
        s.len() as int
    } else if s[i] == '/' {
        i
    } else {
        next_sep(s, i + 1)
    }
}

pub proof fn lemma_next_sep(s: Seq<char>, i: int)
    requires
        0 <= i,
    ensures
        i <= s.len() ==> i <= next_sep(s, i) <= s.len(),
        i <= s.len() ==> forall|k: int| i <= k < next_sep(s, i) ==> s[k] != '/',
        next_sep(s, i) < s.len() ==> s[next_sep(s, i)] == '/',
    decreases s.len() - i,
{
    if i < s.len() && s[i] != '/' {
        lemma_next_sep(s, i + 1);
    }
}

/// The component named by one `/`-free segment of a path's body, if any.
pub open spec fn segment_comp(seg: Seq<char>) -> Option<Comp> {
    if seg.len() == 0 || seg == seq!['.'] {
        None
    } else if seg == seq!['.', '.'] {
        Some(Comp::Parent)
    } else {
        Some(Comp::Normal(seg))
    }
}

/// The components of the segments of `s` from index `i` on.
pub open spec fn body_components(s: Seq<char>, i: int) -> Seq<Comp>
    decreases s.len() + 1 - i,
{
    if i < 0 || i >= s.len() {
        Seq::empty()
    } else {
        proof {
            lemma_next_sep(s, i);
        }
        let j = next_sep(s, i);
        let rest = body_components(s, j + 1);
        match segment_comp(s.subrange(i, j)) {
            Some(c) => seq![c] + rest,
            None => rest,
        }
    }
}

/// `Path::components` for a Unix path text.
pub open spec fn path_components(s: Seq<char>) -> Seq<Comp> {
    if s.len() > 0 && s[0] == '/' {
        seq![Comp::Root] + body_components(s, 1)
    } else if s == seq!['.'] || has_prefix(s, seq!['.', '/']) {
        seq![Comp::Cur] + body_components(s, 1)
    } else {
        body_components(s, 0)
    }
}

/// `Path::file_name`: the last component, when it is a normal one.
pub open spec fn path_file_name(s: Seq<char>) -> Option<Seq<char>> {
    let cs = path_components(s);
    if cs.len() > 0 {
        match cs.last() {
            Comp::Normal(n) => Some(n),
            _ => None,
        }
    } else {
        None
    }
}

/// Index of the last occurrence of `c` in `s`, or -1.
pub open spec fn last_index_of(s: Seq<char>, c: char) -> int
    decreases s.len(),
{
    if s.len() == 0 {
        -1
    } else if s.last() == c {
        s.len() - 1
    } else {
        last_index_of(s.drop_last(), c)
    }
}

/// The extension of a file name: the text after its last `.`, unless there is
/// no `.`, the only `.` opens the name, or the name is `..`.
pub open spec fn name_extension(n: Seq<char>) -> Option<Seq<char>> {
    let d = last_index_of(n, '.');
    if n == seq!['.', '.'] || d <= 0 {
        None
    } else {
        Some(n.subrange(d + 1, n.len() as int))
    }
}

/// The stem of a file name: the text before its last `.`, or the whole name
/// when `name_extension` finds no extension.
pub open spec fn name_stem(n: Seq<char>) -> Seq<char> {
    let d = last_index_of(n, '.');
    if n == seq!['.', '.'] || d <= 0 {
        n
    } else {
        n.subrange(0, d)
    }
}

/// `Path::extension`.
pub open spec fn path_extension(s: Seq<char>) -> Option<Seq<char>> {
    match path_file_name(s) {
        Some(n) => name_extension(n),
        None => None,
    }
}

/// `Path::file_stem`.
pub open spec fn path_stem(s: Seq<char>) -> Option<Seq<char>> {
    match path_file_name(s) {
        Some(n) => Some(name_stem(n)),
        None => None,
    }
}

/// `Path::starts_with`: the components of `base` open those of `s`.
pub open spec fn comps_start_with(s: Seq<char>, base: Seq<char>) -> bool {
    let a = path_components(s);
    let b = path_components(base);
    b.len() <= a.len() && a.subrange(0, b.len() as int) == b
}

/// `PathBuf::join` of a Unix path: an absolute `rel` replaces `base`; otherwise
/// `rel` is appended, after a `/` unless `base` is empty or already ends in one.
pub open spec fn join_spec(base: Seq<char>, rel: Seq<char>) -> Seq<char> {
    if rel.len() > 0 && rel[0] == '/' {
        rel
    } else if base.len() > 0 && base.last() != '/' {
        base + seq!['/'] + rel
    } else {
        base + rel
    }
}

/// Every `\` turned into `/`.
pub open spec fn slashes(s: Seq<char>) -> Seq<char> {
    s.map_values(|c: char| if c == '\\' { '/' } else { c })
}

/// A component of a path held in a character vector; normal components
/// name their range in it.
pub enum PathComp {
    Root,
    Cur,
    Parent,
    Normal { start: usize, end: usize },
}

pub open spec fn comp_view(c: PathComp, s: Seq<char>) -> Comp {
    match c {
        PathComp::Root => Comp::Root,
        PathComp::Cur => Comp::Cur,
        PathComp::Parent => Comp::Parent,
        PathComp::Normal { start, end } => Comp::Normal(s.subrange(start as int, end as int)),
    }
}

pub open spec fn comps_view(cs: Seq<PathComp>, s: Seq<char>) -> Seq<Comp> {
    cs.map_values(|c: PathComp| comp_view(c, s))
}

pub open spec fn comps_in_bounds(cs: Seq<PathComp>, len: nat) -> bool {
    forall|k: int|
        0 <= k < cs.len() ==> match #[trigger] cs[k] {
            PathComp::Normal { start, end } => start <= end <= len,
            _ => true,
        }
}

/// The component of the segment `v[i..j]`, if it names one.
fn segment_of(v: &Vec<char>, i: usize, j: usize) -> (r: Option<PathComp>)
    requires
        i <= j <= v@.len(),
    ensures
        match r {
            Some(c) => segment_comp(v@.subrange(i as int, j as int)) == Some(comp_view(c, v@))
                && match c {
                PathComp::Normal { start, end } => start <= end <= v@.len(),
                _ => true,
            },
            None => segment_comp(v@.subrange(i as int, j as int)) is None,
        },
{
    let ghost seg = v@.subrange(i as int, j as int);
    let len = j - i;
    if len == 0 {
        None
    } else if len == 1 && v[i] == '.' {
        assert(seg == seq!['.']);
        None
    } else if len == 2 && v[i] == '.' && v[i + 1] == '.' {
        assert(seg == seq!['.', '.']);
        Some(PathComp::Parent)
    } else {
        proof {
            if len == 1 {
                assert(seg != seq!['.']) by {
                    assert(seg[0] == v@[i as int]);
                }
            }
            if len == 2 {
                assert(seg != seq!['.', '.']) by {
                    assert(seg[0] == v@[i as int]);
                    assert(seg[1] == v@[i + 1]);
                }
            } else {
                assert(seg.len() != seq!['.', '.'].len());
            }
            if len != 1 {
                assert(seg.len() != seq!['.'].len());
            }
        }
        Some(PathComp::Normal { start: i, end: j })
    }
}

/// The components of a path held in a character vector.
pub fn components(v: &Vec<char>) -> (r: Vec<PathComp>)
    ensures
        comps_view(r@, v@) == path_components(v@),
        comps_in_bounds(r@, v@.len()),
{
    let n = v.len();
    let mut out: Vec<PathComp> = Vec::new();
    let mut i: usize = 0;
    if n > 0 && v[0] == '/' {
        out.push(PathComp::Root);
        i = 1;
    } else if (n == 1 && v[0] == '.') || (n >= 2 && v[0] == '.' && v[1] == '/') {
        out.push(PathComp::Cur);
        i = 1;
        proof {
            if n >= 2 {
                assert(v@.subrange(0, 2) == seq!['.', '/']);
            } else {
                assert(v@ == seq!['.']);
            }
        }
    } else {
        proof {
            if n >= 2 && has_prefix(v@, seq!['.', '/']) {
                assert(v@.subrange(0, 2)[0] == v@[0]);
                assert(v@.subrange(0, 2)[1] == v@[1]);
            }
        }
    }
    assert(comps_view(out@, v@) + body_components(v@, i as int) == path_components(v@));
    while i < n
        invariant
            n == v@.len(),
            i <= n,
            comps_view(out@, v@) + body_components(v@, i as int) == path_components(v@),
            comps_in_bounds(out@, v@.len()),
        decreases n - i,
    {
        let mut j = i;
        while j < n && v[j] != '/'
            invariant
                i <= j <= n,
                n == v@.len(),
                next_sep(v@, i as int) == next_sep(v@, j as int),
            decreases n - j,
        {
            j = j + 1;
        }
        proof {
            lemma_next_sep(v@, i as int);
        }
        let ghost seg = v@.subrange(i as int, j as int);
        let ghost before = comps_view(out@, v@);
        let ghost rest = body_components(v@, j + 1);
        assert(body_components(v@, i as int) == match segment_comp(seg) {
            Some(c) => seq![c] + rest,
            None => rest,
        });
        match segment_of(v, i, j) {
            Some(c) => {
                out.push(c);
                assert(comps_view(out@, v@) == before.push(comp_view(c, v@)));
                assert(before.push(comp_view(c, v@)) + rest == before + (seq![comp_view(c, v@)]
                    + rest));
            },
            None => {},
        }
        assert(comps_view(out@, v@) + rest == path_components(v@));
        if j == n {
            assert(body_components(v@, n as int) == rest);
            i = n;
        } else {
            i = j + 1;
        }
    }
    assert(comps_view(out@, v@) + body_components(v@, n as int) == comps_view(out@, v@));
    out
}


/// Index of the last `c` in `v[lo..hi]`, if any.
pub fn last_index_in(v: &Vec<char>, lo: usize, hi: usize, c: char) -> (r: Option<usize>)
    requires
        lo <= hi <= v@.len(),
    ensures
        match r {
            Some(k) => lo <= k < hi && last_index_of(v@.subrange(lo as int, hi as int), c) == k - lo,
            None => last_index_of(v@.subrange(lo as int, hi as int), c) == -1,
        },
{
    let mut k = hi;
    while k > lo
        invariant
            lo <= k <= hi <= v@.len(),
            last_index_of(v@.subrange(lo as int, hi as int), c) == last_index_of(
                v@.subrange(lo as int, k as int),
                c,
            ),
        decreases k - lo,
    {
        assert(v@.subrange(lo as int, k as int).last() == v@[k - 1]);
        if v[k - 1] == c {
            return Some(k - 1);
        }
        assert(v@.subrange(lo as int, k as int).drop_last() == v@.subrange(lo as int, k - 1));
        k = k - 1;
    }
    None
}

/// The range of the last component of a path, when it is a normal one (`Path::file_name`).
pub fn file_name_range(v: &Vec<char>) -> (r: Option<(usize, usize)>)
    ensures
        match r {
            Some((a, b)) => a <= b <= v@.len() && path_file_name(v@) == Some(v@.subrange(a as int, b as int)),
            None => path_file_name(v@) is None,
        },
{
    let cs = components(v);
    let n = cs.len();
    if n == 0 {
        return None;
    }
    proof {
        assert(comps_view(cs@, v@).last() == comp_view(cs@[n - 1], v@));
    }
    match &cs[n - 1] {
        PathComp::Normal { start, end } => {
            assert(comps_in_bounds(cs@, v@.len()));
            assert(match cs@[n - 1] { PathComp::Normal { start, end } => start <= end <= v@.len(), _ => true });
            Some((*start, *end))
        },
        _ => None,
    }
}

proof fn lemma_dotdot(v: Seq<char>, lo: int, hi: int)
    requires
        0 <= lo <= hi <= v.len(),
    ensures
        v.subrange(lo, hi) == seq!['.', '.'] <==> (hi - lo == 2 && v[lo] == '.' && v[lo + 1] == '.'),
{
    let n = v.subrange(lo, hi);
    if n == seq!['.', '.'] {
        assert(n.len() == 2);
        assert(n[0] == v[lo]);
        assert(n[1] == v[lo + 1]);
    }
    if hi - lo == 2 && v[lo] == '.' && v[lo + 1] == '.' {
        assert(n =~= seq!['.', '.']);
    }
}

/// The range of the extension of the name `v[lo..hi]`.
pub fn name_extension_range(v: &Vec<char>, lo: usize, hi: usize) -> (r: Option<(usize, usize)>)
    requires
        lo <= hi <= v@.len(),
    ensures
        match r {
            Some((a, b)) => lo <= a <= b <= hi && name_extension(v@.subrange(lo as int, hi as int))
                == Some(v@.subrange(a as int, b as int)),
            None => name_extension(v@.subrange(lo as int, hi as int)) is None,
        },
{
    let ghost n = v@.subrange(lo as int, hi as int);
    proof {
        lemma_dotdot(v@, lo as int, hi as int);
    }
    if hi - lo == 2 && v[lo] == '.' && v[lo + 1] == '.' {
        return None;
    }
    match last_index_in(v, lo, hi, '.') {
        None => None,
        Some(k) => {
            if k == lo {
                None
            } else {
                assert(n.subrange(k - lo + 1, n.len() as int) == v@.subrange(k + 1, hi as int));
                Some((k + 1, hi))
            }
        },
    }
}

/// The range of the stem of the name `v[lo..hi]`.
pub fn name_stem_range(v: &Vec<char>, lo: usize, hi: usize) -> (r: (usize, usize))
    requires
        lo <= hi <= v@.len(),
    ensures
        lo <= r.0 <= r.1 <= hi,
        name_stem(v@.subrange(lo as int, hi as int)) == v@.subrange(r.0 as int, r.1 as int),
{
    let ghost n = v@.subrange(lo as int, hi as int);
    proof {
        lemma_dotdot(v@, lo as int, hi as int);
    }
    if hi - lo == 2 && v[lo] == '.' && v[lo + 1] == '.' {
        return (lo, hi);
    }
    match last_index_in(v, lo, hi, '.') {
        None => (lo, hi),
        Some(k) => {
            if k == lo {
                (lo, hi)
            } else {
                assert(n.subrange(0, k - lo) == v@.subrange(lo as int, k as int));
                (lo, k)
            }
        },
    }
}

/// `Path::join` on path texts.
pub fn join(base: &str, rel: &str) -> (r: String)
    ensures
        r@ == join_spec(base@, rel@),
{
    let b = chars_of(base);
    let rv = chars_of(rel);
    let mut out: Vec<char>;
    if rv.len() > 0 && rv[0] == '/' {
        out = rv;
    } else {
        out = b;
        if out.len() > 0 && out[out.len() - 1] != '/' {
            out.push('/');
        }
        let ghost head = out@;
        let m = rv.len();
        for i in 0..m
            invariant
                m == rv@.len(),
                out@ == head + rv@.take(i as int),
        {
            out.push(rv[i]);
            assert(rv@.take(i + 1) == rv@.take(i as int).push(rv@[i as int]));
        }
        assert(rv@.take(m as int) == rv@);
    }
    string_of(&out)
}

/// Every `\` in the text turned into `/`.
pub fn to_slashes(s: &str) -> (r: String)
    ensures
        r@ == slashes(s@),
{
    let v = chars_of(s);
    let n = v.len();
    let mut out = String::new();
    for i in 0..n
        invariant
            n == v@.len(),
            out@ == slashes(v@.take(i as int)),
    {
        let c = v[i];
        if c == '\\' {
            out.push('/');
        } else {
            out.push(c);
        }
        assert(slashes(v@.take(i + 1)) == slashes(v@.take(i as int)).push(
            if c == '\\' { '/' } else { c },
        ));
    }
    assert(v@.take(n as int) == v@);
    out
}

/// Where the components of `s` from index `i` on lie in the text: one range per
/// component, in order.
pub open spec fn body_spans(s: Seq<char>, i: int) -> Seq<(int, int)>
    decreases s.len() + 1 - i,
{
    if i < 0 || i >= s.len() {
        Seq::empty()
    } else {
        proof {
            lemma_next_sep(s, i);
        }
        let j = next_sep(s, i);
        let rest = body_spans(s, j + 1);
        match segment_comp(s.subrange(i, j)) {
            Some(_) => seq![(i, j)] + rest,
            None => rest,
        }
    }
}

/// Where the components of `s` lie in the text (the root and the leading `.`
/// take the first character).
pub open spec fn path_spans(s: Seq<char>) -> Seq<(int, int)> {
    if s.len() > 0 && s[0] == '/' {
        seq![(0int, 1int)] + body_spans(s, 1)
    } else if s == seq!['.'] || has_prefix(s, seq!['.', '/']) {
        seq![(0int, 1int)] + body_spans(s, 1)
    } else {
        body_spans(s, 0)
    }
}

pub proof fn lemma_body_spans_len(s: Seq<char>, i: int)
    ensures
        body_spans(s, i).len() == body_components(s, i).len(),
    decreases s.len() + 1 - i,
{
    if 0 <= i < s.len() {
        lemma_next_sep(s, i);
        lemma_body_spans_len(s, next_sep(s, i) + 1);
    }
}

/// A path has one range for each of its components.
pub proof fn lemma_spans_len(s: Seq<char>)
    ensures
        path_spans(s).len() == path_components(s).len(),
{
    lemma_body_spans_len(s, 0);
    lemma_body_spans_len(s, 1);
}

/// The text that remains of `s` once its first `k` components are taken off,
/// as `Path::strip_prefix` gives it: from the start of the next component to
/// the end of the last one (the whole text up to its last component when none
/// is taken off, nothing when none remains).
pub open spec fn rest_text(s: Seq<char>, k: int) -> Seq<char> {
    let sp = path_spans(s);
    if sp.len() == 0 {
        s
    } else if k == 0 {
        s.subrange(0, sp.last().1)
    } else if k >= sp.len() {
        Seq::empty()
    } else {
        s.subrange(sp[k].0, sp.last().1)
    }
}

pub open spec fn spans_in(sp: Seq<(usize, usize)>, len: nat) -> bool {
    forall|k: int| 0 <= k < sp.len() ==> #[trigger] sp[k].0 <= sp[k].1 <= len
}

pub open spec fn spans_view(sp: Seq<(usize, usize)>) -> Seq<(int, int)> {
    sp.map_values(|p: (usize, usize)| (p.0 as int, p.1 as int))
}

/// Where the components of a path held in a character vector lie in it.
pub fn component_spans(v: &Vec<char>) -> (r: Vec<(usize, usize)>)
    ensures
        spans_view(r@) == path_spans(v@),
        spans_in(r@, v@.len()),
{
    let n = v.len();
    let mut out: Vec<(usize, usize)> = Vec::new();
    let mut i: usize = 0;
    if (n > 0 && v[0] == '/') || (n == 1 && v[0] == '.') || (n >= 2 && v[0] == '.' && v[1] == '/') {
        out.push((0, 1));
        i = 1;
        proof {
            if n >= 2 && v[0] == '.' && v[1] == '/' {
                assert(v@.subrange(0, 2) == seq!['.', '/']);
            } else if n == 1 && v[0] == '.' {
                assert(v@ == seq!['.']);
            }
        }
        assert(spans_view(out@) == seq![(0int, 1int)]);
    } else {
        proof {
            if n >= 2 && has_prefix(v@, seq!['.', '/']) {
                assert(v@.subrange(0, 2)[0] == v@[0]);
                assert(v@.subrange(0, 2)[1] == v@[1]);
            }
            if v@ == seq!['.'] {
                assert(v@[0] == '.');
            }
        }
    }
    assert(spans_view(out@) + body_spans(v@, i as int) == path_spans(v@));
    while i < n
        invariant
            n == v@.len(),
            i <= n,
            spans_view(out@) + body_spans(v@, i as int) == path_spans(v@),
            spans_in(out@, v@.len()),
        decreases n - i,
    {
        let mut j = i;
        while j < n && v[j] != '/'
            invariant
                i <= j <= n,
                n == v@.len(),
                next_sep(v@, i as int) == next_sep(v@, j as int),
            decreases n - j,
        {
            j = j + 1;
        }
        proof {
            lemma_next_sep(v@, i as int);
        }
        let ghost seg = v@.subrange(i as int, j as int);
        let ghost before = spans_view(out@);
        let ghost rest = body_spans(v@, j + 1);
        assert(body_spans(v@, i as int) == match segment_comp(seg) {
            Some(_) => seq![(i as int, j as int)] + rest,
            None => rest,
        });
        match segment_of(v, i, j) {
            Some(_) => {
                let ghost old_out = out@;
                out.push((i, j));
                assert(spans_view(out@) == before.push((i as int, j as int)));
                assert(before.push((i as int, j as int)) + rest == before + (seq![(i as int, j as int)]
                    + rest));
                assert forall|k: int| 0 <= k < out@.len() implies #[trigger] out@[k].0 <= out@[k].1
                    <= v@.len() by {
                    if k < old_out.len() {
                        assert(out@[k] == old_out[k]);
                    }
                }
            },
            None => {},
        }
        assert(spans_view(out@) + rest == path_spans(v@));
        if j == n {
            assert(body_spans(v@, n as int) == rest);
            i = n;
        } else {
            i = j + 1;
        }
    }
    assert(spans_view(out@) + body_spans(v@, n as int) == spans_view(out@));
    out
}

/// The ranges of a path's components lie in the text, in order, one after another.
pub open spec fn spans_ordered(sp: Seq<(int, int)>, lo: int, len: int) -> bool {
    &&& forall|t: int| 0 <= t < sp.len() ==> lo <= #[trigger] sp[t].0 <= sp[t].1 <= len
    &&& forall|t: int, u: int| 0 <= t < u < sp.len() ==> #[trigger] sp[t].1 <= #[trigger] sp[u].0
}

proof fn lemma_body_spans_ordered(s: Seq<char>, i: int)
    requires
        0 <= i,
    ensures
        spans_ordered(body_spans(s, i), i, s.len() as int),
    decreases s.len() + 1 - i,
{
    if i < s.len() {
        lemma_next_sep(s, i);
        let j = next_sep(s, i);
        lemma_body_spans_ordered(s, j + 1);
        let rest = body_spans(s, j + 1);
        match segment_comp(s.subrange(i, j)) {
            Some(_) => {
                let sp = seq![(i, j)] + rest;
                assert forall|t: int| 0 <= t < sp.len() implies i <= #[trigger] sp[t].0 <= sp[t].1 <= s.len() by {
                    if t > 0 {
                        assert(sp[t] == rest[t - 1]);
                    }
                }
                assert forall|t: int, u: int| 0 <= t < u < sp.len() implies #[trigger] sp[t].1 <= #[trigger] sp[u].0 by {
                    assert(sp[u] == rest[u - 1]);
                    if t > 0 {
                        assert(sp[t] == rest[t - 1]);
                    }
                }
            },
            None => {},
        }
    }
}

/// The ranges of a path's components lie in it, in order.
pub proof fn lemma_spans_ordered(s: Seq<char>)
    ensures
        spans_ordered(path_spans(s), 0, s.len() as int),
{
    lemma_body_spans_ordered(s, 0);
    lemma_body_spans_ordered(s, 1);
    if (s.len() > 0 && s[0] == '/') || s == seq!['.'] || has_prefix(s, seq!['.', '/']) {
        let b = body_spans(s, 1);
        let sp = seq![(0int, 1int)] + b;
        assert(s.len() >= 1);
        assert forall|t: int| 0 <= t < sp.len() implies 0 <= #[trigger] sp[t].0 <= sp[t].1 <= s.len() by {
            if t > 0 {
                assert(sp[t] == b[t - 1]);
            }
        }
        assert forall|t: int, u: int| 0 <= t < u < sp.len() implies #[trigger] sp[t].1 <= #[trigger] sp[u].0 by {
            assert(sp[u] == b[u - 1]);
            if t > 0 {
                assert(sp[t] == b[t - 1]);
            }
        }
    }
}

/// A path that is not empty has a component.
pub proof fn lemma_nonempty_components(s: Seq<char>)
    requires
        s.len() > 0,
    ensures
        path_components(s).len() > 0,
{
    if !(s[0] == '/') && !(s == seq!['.'] || has_prefix(s, seq!['.', '/'])) {
        lemma_next_sep(s, 0);
        let j = next_sep(s, 0);
        assert(j > 0);
        let seg = s.subrange(0, j);
        if seg == seq!['.'] {
            assert(seg[0] == s[0]);
            if j < s.len() {
                assert(s[j] == '/');
                assert(s.subrange(0, 2) =~= seq!['.', '/']);
            } else {
                assert(s =~= seq!['.']);
            }
        }
        assert(seg.len() > 0);
    }
}

/// A name a directory can hold: not empty, without `/`, neither `.` nor `..`.
pub open spec fn plain_name(n: Seq<char>) -> bool {
    &&& n.len() > 0
    &&& forall|k: int| 0 <= k < n.len() ==> n[k] != '/'
    &&& n != seq!['.']
    &&& n != seq!['.', '.']
}

proof fn lemma_next_sep_prefix(s: Seq<char>, t: Seq<char>, i: int)
    requires
        0 <= i <= s.len(),
        next_sep(s, i) < s.len() || (t.len() > 0 && t[0] == '/'),
    ensures
        next_sep(s + t, i) == next_sep(s, i),
    decreases s.len() - i,
{
    let u = s + t;
    if i < s.len() {
        assert(u[i] == s[i]);
        if s[i] != '/' {
            lemma_next_sep_prefix(s, t, i + 1);
        }
    } else {
        assert(u[i] == t[0]);
    }
}

proof fn lemma_next_sep_none(s: Seq<char>, i: int)
    requires
        0 <= i <= s.len(),
        forall|k: int| i <= k < s.len() ==> s[k] != '/',
    ensures
        next_sep(s, i) == s.len(),
    decreases s.len() - i,
{
    if i < s.len() {
        lemma_next_sep_none(s, i + 1);
    }
}

/// The segments of `s + t` from `i` on are those of `s`, then those of `t`,
/// when `t` is `/` and a plain name, or when `s` ends in `/` and `t` is a plain name.
proof fn lemma_body_append(s: Seq<char>, t: Seq<char>, n: Seq<char>, i: int)
    requires
        plain_name(n),
        s.len() > 0,
        (t == seq!['/'] + n) || (s.last() == '/' && t == n),
        0 <= i <= s.len(),
    ensures
        body_components(s + t, i) == body_components(s, i).push(Comp::Normal(n)),
    decreases s.len() - i,
{
    let u = s + t;
    lemma_next_sep(s, i);
    if t == n {
        if i == s.len() {
            assert forall|k: int| i <= k < u.len() implies u[k] != '/' by {
                assert(u[k] == n[k - i]);
            }
            lemma_next_sep_none(u, i);
            assert(u.subrange(i, u.len() as int) == n);
            assert(segment_comp(n) == Some(Comp::Normal(n)));
            assert(body_components(u, u.len() as int + 1) == Seq::<Comp>::empty());
            assert(body_components(u, i) == seq![Comp::Normal(n)] + Seq::<Comp>::empty());
            assert(body_components(s, i) == Seq::<Comp>::empty());
        } else {
            let j = next_sep(s, i);
            if j == s.len() {
                lemma_next_sep_cover(s, i);
            }
            assert(j < s.len());
            lemma_next_sep_prefix(s, t, i);
            assert(u.subrange(i, j) == s.subrange(i, j));
            lemma_body_append(s, t, n, j + 1);
            let rs = body_components(s, j + 1);
            match segment_comp(s.subrange(i, j)) {
                Some(c) => {
                    assert(seq![c] + rs.push(Comp::Normal(n)) == (seq![c] + rs).push(Comp::Normal(n)));
                },
                None => {},
            }
        }
    } else {
        let m = s.len() as int;
        if i == m {
            assert(u[m] == '/');
            assert(next_sep(u, m) == m);
            assert(u.subrange(m, m) == Seq::<char>::empty());
            assert forall|k: int| m + 1 <= k < u.len() implies u[k] != '/' by {
                assert(u[k] == n[k - m - 1]);
            }
            lemma_next_sep_none(u, m + 1);
            assert(u.subrange(m + 1, u.len() as int) == n);
            assert(body_components(u, u.len() as int + 1) == Seq::<Comp>::empty());
            assert(body_components(u, m + 1) == seq![Comp::Normal(n)] + Seq::<Comp>::empty());
            assert(body_components(s, i) == Seq::<Comp>::empty());
        } else {
            let j = next_sep(s, i);
            lemma_next_sep_prefix(s, t, i);
            assert(u.subrange(i, j) == s.subrange(i, j));
            let rs = body_components(s, j + 1);
            if j < m {
                lemma_body_append(s, t, n, j + 1);
            } else {
                assert(rs == Seq::<Comp>::empty());
                assert forall|k: int| m + 1 <= k < u.len() implies u[k] != '/' by {
                    assert(u[k] == n[k - m - 1]);
                }
                lemma_next_sep_none(u, m + 1);
                assert(u.subrange(m + 1, u.len() as int) == n);
                assert(body_components(u, u.len() as int + 1) == Seq::<Comp>::empty());
                assert(body_components(u, m + 1) == seq![Comp::Normal(n)] + Seq::<Comp>::empty());
            }
            match segment_comp(s.subrange(i, j)) {
                Some(c) => {
                    assert(seq![c] + rs.push(Comp::Normal(n)) == (seq![c] + rs).push(Comp::Normal(n)));
                },
                None => {},
            }
        }
    }
}

proof fn lemma_next_sep_cover(s: Seq<char>, i: int)
    requires
        0 <= i < s.len(),
        s.last() == '/',
    ensures
        next_sep(s, i) < s.len(),
    decreases s.len() - i,
{
    if s[i] != '/' {
        if i + 1 < s.len() {
            lemma_next_sep_cover(s, i + 1);
        }
    }
}

/// Joining a plain name to a non-empty path adds that name as its last component.
pub proof fn lemma_components_join(s: Seq<char>, n: Seq<char>)
    requires
        s.len() > 0,
        plain_name(n),
    ensures
        path_components(join_spec(s, n)) == path_components(s).push(Comp::Normal(n)),
        join_spec(s, n).len() > 0,
{
    let u = join_spec(s, n);
    assert(n[0] != '/');
    let t = if s.last() != '/' {
        seq!['/'] + n
    } else {
        n
    };
    assert(u == s + t);
    assert(u[0] == s[0]);
    if s[0] == '/' {
        lemma_body_append(s, t, n, 1);
        assert(seq![Comp::Root] + body_components(s, 1).push(Comp::Normal(n)) == (seq![Comp::Root]
            + body_components(s, 1)).push(Comp::Normal(n)));
    } else if s == seq!['.'] || has_prefix(s, seq!['.', '/']) {
        if s.len() >= 2 {
            assert(s.subrange(0, 2) == seq!['.', '/']);
            assert(u.subrange(0, 2) == s.subrange(0, 2));
        } else {
            assert(u.subrange(0, 2) == seq!['.', '/']);
        }
        lemma_body_append(s, t, n, 1);
        assert(seq![Comp::Cur] + body_components(s, 1).push(Comp::Normal(n)) == (seq![Comp::Cur]
            + body_components(s, 1)).push(Comp::Normal(n)));
    } else {
        assert(u != seq!['.']);
        if has_prefix(u, seq!['.', '/']) {
            assert(u[0] == '.' && u[1] == '/') by {
                assert(u.subrange(0, 2)[0] == u[0]);
                assert(u.subrange(0, 2)[1] == u[1]);
            }
            if s.len() >= 2 {
                assert(s[1] == u[1]);
                assert(s.subrange(0, 2) == seq!['.', '/']);
            } else {
                assert(s == seq!['.']);
            }
        }
        lemma_body_append(s, t, n, 0);
    }
}

/// The ranges of the segments of `s + t` from `i` on: those of `s`, then that of the name.
proof fn lemma_body_spans_append(s: Seq<char>, t: Seq<char>, n: Seq<char>, i: int)
    requires
        plain_name(n),
        s.len() > 0,
        (t == seq!['/'] + n) || (s.last() == '/' && t == n),
        0 <= i <= s.len(),
    ensures
        body_spans(s + t, i) == body_spans(s, i).push(((s + t).len() - n.len(), (s + t).len() as int)),
    decreases s.len() - i,
{
    let u = s + t;
    let e = (u.len() - n.len(), u.len() as int);
    lemma_next_sep(s, i);
    if t == n {
        if i == s.len() {
            assert forall|k: int| i <= k < u.len() implies u[k] != '/' by {
                assert(u[k] == n[k - i]);
            }
            lemma_next_sep_none(u, i);
            assert(u.subrange(i, u.len() as int) == n);
            assert(segment_comp(n) == Some(Comp::Normal(n)));
            assert(body_spans(u, u.len() as int + 1) == Seq::<(int, int)>::empty());
            assert(body_spans(u, i) == seq![e] + Seq::<(int, int)>::empty());
            assert(body_spans(s, i) == Seq::<(int, int)>::empty());
        } else {
            let j = next_sep(s, i);
            if j == s.len() {
                lemma_next_sep_cover(s, i);
            }
            assert(j < s.len());
            lemma_next_sep_prefix(s, t, i);
            assert(u.subrange(i, j) == s.subrange(i, j));
            lemma_body_spans_append(s, t, n, j + 1);
            let rs = body_spans(s, j + 1);
            match segment_comp(s.subrange(i, j)) {
                Some(_) => {
                    assert(seq![(i, j)] + rs.push(e) == (seq![(i, j)] + rs).push(e));
                },
                None => {},
            }
        }
    } else {
        let m = s.len() as int;
        if i == m {
            assert(u[m] == '/');
            assert(next_sep(u, m) == m);
            assert(u.subrange(m, m) == Seq::<char>::empty());
            assert forall|k: int| m + 1 <= k < u.len() implies u[k] != '/' by {
                assert(u[k] == n[k - m - 1]);
            }
            lemma_next_sep_none(u, m + 1);
            assert(u.subrange(m + 1, u.len() as int) == n);
            assert(body_spans(u, u.len() as int + 1) == Seq::<(int, int)>::empty());
            assert(body_spans(u, m + 1) == seq![e] + Seq::<(int, int)>::empty());
            assert(body_spans(s, i) == Seq::<(int, int)>::empty());
        } else {
            let j = next_sep(s, i);
            lemma_next_sep_prefix(s, t, i);
            assert(u.subrange(i, j) == s.subrange(i, j));
            let rs = body_spans(s, j + 1);
            if j < m {
                lemma_body_spans_append(s, t, n, j + 1);
            } else {
                assert(rs == Seq::<(int, int)>::empty());
                assert forall|k: int| m + 1 <= k < u.len() implies u[k] != '/' by {
                    assert(u[k] == n[k - m - 1]);
                }
                lemma_next_sep_none(u, m + 1);
                assert(u.subrange(m + 1, u.len() as int) == n);
                assert(body_spans(u, u.len() as int + 1) == Seq::<(int, int)>::empty());
                assert(body_spans(u, m + 1) == seq![e] + Seq::<(int, int)>::empty());
            }
            match segment_comp(s.subrange(i, j)) {
                Some(_) => {
                    assert(seq![(i, j)] + rs.push(e) == (seq![(i, j)] + rs).push(e));
                },
                None => {},
            }
        }
    }
}

/// Joining a plain name to a non-empty path adds one range, that of the name at the end.
pub proof fn lemma_spans_join(s: Seq<char>, n: Seq<char>)
    requires
        s.len() > 0,
        plain_name(n),
    ensures
        path_spans(join_spec(s, n)) == path_spans(s).push((join_spec(s, n).len() - n.len(), join_spec(s, n).len() as int)),
        join_spec(s, n).len() > 0,
        join_spec(s, n).len() >= n.len(),
{
    let u = join_spec(s, n);
    assert(n[0] != '/');
    let t = if s.last() != '/' {
        seq!['/'] + n
    } else {
        n
    };
    assert(u == s + t);
    assert(u[0] == s[0]);
    if s[0] == '/' {
        lemma_body_spans_append(s, t, n, 1);
        let e = (u.len() - n.len(), u.len() as int);
        assert(seq![(0int, 1int)] + body_spans(s, 1).push(e) == (seq![(0int, 1int)] + body_spans(s, 1)).push(e));
    } else if s == seq!['.'] || has_prefix(s, seq!['.', '/']) {
        if s.len() >= 2 {
            assert(s.subrange(0, 2) == seq!['.', '/']);
            assert(u.subrange(0, 2) == s.subrange(0, 2));
        } else {
            assert(u.subrange(0, 2) == seq!['.', '/']);
        }
        lemma_body_spans_append(s, t, n, 1);
        let e = (u.len() - n.len(), u.len() as int);
        assert(seq![(0int, 1int)] + body_spans(s, 1).push(e) == (seq![(0int, 1int)] + body_spans(s, 1)).push(e));
    } else {
        assert(u != seq!['.']);
        if has_prefix(u, seq!['.', '/']) {
            assert(u[0] == '.' && u[1] == '/') by {
                assert(u.subrange(0, 2)[0] == u[0]);
                assert(u.subrange(0, 2)[1] == u[1]);
            }
            if s.len() >= 2 {
                assert(s[1] == u[1]);
                assert(s.subrange(0, 2) == seq!['.', '/']);
            } else {
                assert(s == seq!['.']);
            }
        }
        lemma_body_spans_append(s, t, n, 0);
    }
}

/// The path reached from `base` through the names, one join after another.
pub open spec fn join_names(base: Seq<char>, names: Seq<Seq<char>>) -> Seq<char>
    decreases names.len(),
{
    if names.len() == 0 {
        base
    } else {
        join_spec(join_names(base, names.drop_last()), names.last())
    }
}

pub open spec fn normals(names: Seq<Seq<char>>) -> Seq<Comp> {
    names.map_values(|n: Seq<char>| Comp::Normal(n))
}

pub proof fn lemma_join_names(root: Seq<char>, names: Seq<Seq<char>>)
    requires
        root.len() > 0,
        forall|i: int| 0 <= i < names.len() ==> plain_name(#[trigger] names[i]),
    ensures
        path_components(join_names(root, names)) == path_components(root) + normals(names),
        join_names(root, names).len() > 0,
    decreases names.len(),
{
    if names.len() == 0 {
        assert(path_components(root) + normals(names) == path_components(root));
    } else {
        let init = names.drop_last();
        assert forall|i: int| 0 <= i < init.len() implies plain_name(#[trigger] init[i]) by {
            assert(init[i] == names[i]);
        }
        lemma_join_names(root, init);
        assert(plain_name(names[names.len() - 1]));
        lemma_components_join(join_names(root, init), names.last());
        assert(normals(names) == normals(init).push(Comp::Normal(names.last())));
        assert((path_components(root) + normals(init)).push(Comp::Normal(names.last()))
            == path_components(root) + normals(names));
    }
}

pub proof fn lemma_slashes_concat(a: Seq<char>, b: Seq<char>)
    ensures
        slashes(a + b) == slashes(a) + slashes(b),
{
    assert(slashes(a + b) =~= slashes(a) + slashes(b));
}

/// Whether two components, each of its own path, are alike.
fn comp_eq(a: &PathComp, va: &Vec<char>, b: &PathComp, vb: &Vec<char>) -> (r: bool)
    requires
        match *a {
            PathComp::Normal { start, end } => start <= end <= va@.len(),
            _ => true,
        },
        match *b {
            PathComp::Normal { start, end } => start <= end <= vb@.len(),
            _ => true,
        },
    ensures
        r == (comp_view(*a, va@) == comp_view(*b, vb@)),
{
    match (a, b) {
        (PathComp::Root, PathComp::Root) => true,
        (PathComp::Cur, PathComp::Cur) => true,
        (PathComp::Parent, PathComp::Parent) => true,
        (PathComp::Normal { start: s1, end: e1 }, PathComp::Normal { start: s2, end: e2 }) => {
            range_eq(va, *s1, *e1, vb, *s2, *e2)
        },
        _ => false,
    }
}

/// Whether the components of `root` open those of `path` (`Path::starts_with`).
pub fn comps_prefix(cr: &Vec<PathComp>, vr: &Vec<char>, cp: &Vec<PathComp>, vp: &Vec<char>) -> (r:
    bool)
    requires
        comps_in_bounds(cr@, vr@.len()),
        comps_in_bounds(cp@, vp@.len()),
    ensures
        r == (cr@.len() <= cp@.len() && comps_view(cp@, vp@).subrange(0, cr@.len() as int)
            == comps_view(cr@, vr@)),
{
    let n = cr.len();
    if n > cp.len() {
        return false;
    }
    let mut k: usize = 0;
    while k < n
        invariant
            k <= n,
            n == cr@.len(),
            n <= cp@.len(),
            comps_in_bounds(cr@, vr@.len()),
            comps_in_bounds(cp@, vp@.len()),
            forall|t: int| 0 <= t < k ==> comp_view(cp@[t], vp@) == comp_view(#[trigger] cr@[t], vr@),
        decreases n - k,
    {
        if !comp_eq(&cr[k], vr, &cp[k], vp) {
            assert(comps_view(cp@, vp@).subrange(0, n as int)[k as int] != comps_view(cr@, vr@)[k as int]);
            return false;
        }
        k = k + 1;
    }
    assert(comps_view(cp@, vp@).subrange(0, n as int) =~= comps_view(cr@, vr@));
    true
}

/// Whether the components of `base` open those of `path` (`Path::starts_with`).
pub fn comp_prefix_of(base: &str, path: &str) -> (b: bool)
    ensures
        b == comps_start_with(path@, base@),
{
    let vr = chars_of(base);
    let vp = chars_of(path);
    let cr = components(&vr);
    let cp = components(&vp);
    comps_prefix(&cr, &vr, &cp, &vp)
}

} // verus!
