//! The title of a Markdown document: its first level-one heading.
use vstd::prelude::*;
use crate::text::{
    chars_of, lemma_trim_idempotent, find_char_from, has_prefix, lemma_next_index, next_index, opt_view, skip_ws_backward,
    skip_ws_forward, slice_chars, string_of, trim_end_spec, trim_range, trim_spec, trim_start_spec,
};

verus! {

/// A line with the `\r` of a `\r\n` ending removed.
pub open spec fn strip_cr(l: Seq<char>) -> Seq<char> {
    if l.len() > 0 && l.last() == '\r' {
        l.drop_last()
    } else {
        l
    }
}

/// The lines of `s` from index `i` on, as `str::lines` cuts them: at `\n` or
/// `\r\n`, with no empty line after a final line ending.
pub open spec fn lines_from(s: Seq<char>, i: int) -> Seq<Seq<char>>
    decreases s.len() + 1 - i,
{
    if i < 0 || i >= s.len() {
        Seq::empty()
    } else {
        proof {
            lemma_next_index(s, '\n', i);
        }
        let j = next_index(s, '\n', i);
        let line = if j < s.len() {
            strip_cr(s.subrange(i, j))
        } else {
            s.subrange(i, j)
        };
        seq![line] + lines_from(s, j + 1)
    }
}

/// `str::lines`.
pub open spec fn md_lines(s: Seq<char>) -> Seq<Seq<char>> {
    lines_from(s, 0)
}

/// A front-matter fence: `---`, possibly followed by whitespace.
pub open spec fn is_fence(l: Seq<char>) -> bool {
    trim_end_spec(l) == seq!['-', '-', '-']
}

/// The index just after the first fence at or after line `i`.
pub open spec fn fence_after(lines: Seq<Seq<char>>, i: int) -> Option<int>
    decreases lines.len() - i,
{
    if i < 0 || i >= lines.len() {
        None
    } else if is_fence(lines[i]) {
        Some(i + 1)
    } else {
        fence_after(lines, i + 1)
    }
}

/// When the document opens with a closed front matter (a fence, then another
/// fence), the index of the line after the closing fence.
pub open spec fn front_matter_end_spec(lines: Seq<Seq<char>>) -> Option<int> {
    if lines.len() > 0 && is_fence(lines[0]) {
        fence_after(lines, 1)
    } else {
        None
    }
}

/// A setext underline: after trimming, one or more `=` and nothing else.
pub open spec fn is_underline(l: Seq<char>) -> bool {
    let u = trim_spec(l);
    u.len() > 0 && forall|k: int| 0 <= k < u.len() ==> u[k] == '='
}

/// The level-one heading that line `i` opens, if any: an ATX heading `# text`
/// (after leading whitespace), or a line of text that does not start with `#`
/// and is followed by a setext underline.
pub open spec fn h1_at(lines: Seq<Seq<char>>, i: int) -> Option<Seq<char>> {
    let t = trim_start_spec(lines[i]);
    if has_prefix(t, seq!['#', ' ']) {
        Some(trim_spec(t.subrange(2, t.len() as int)))
    } else if t.len() > 0 && t[0] != '#' && i + 1 < lines.len() && is_underline(lines[i + 1]) {
        Some(trim_spec(t))
    } else {
        None
    }
}

/// The first level-one heading at or after line `i`.
pub open spec fn find_h1_from(lines: Seq<Seq<char>>, i: int) -> Option<Seq<char>>
    decreases lines.len() - i,
{
    if i < 0 || i >= lines.len() {
        None
    } else {
        match h1_at(lines, i) {
            Some(t) => Some(t),
            None => find_h1_from(lines, i + 1),
        }
    }
}

/// The first level-one heading of the lines.
pub open spec fn find_h1_spec(lines: Seq<Seq<char>>) -> Option<Seq<char>> {
    find_h1_from(lines, 0)
}

/// The title of a document: the first level-one heading after a closed front
/// matter; failing that, when there was a front matter, the first one anywhere.
pub open spec fn title_spec(md: Seq<char>) -> Option<Seq<char>> {
    let lines = md_lines(md);
    let start = match front_matter_end_spec(lines) {
        Some(e) => e,
        None => 0,
    };
    match find_h1_spec(lines.subrange(start, lines.len() as int)) {
        Some(t) => Some(t),
        None => if start != 0 {
            find_h1_spec(lines)
        } else {
            None
        },
    }
}

/// The lines that ranges of `v` hold.
pub open spec fn ranges_view(rs: Seq<(usize, usize)>, v: Seq<char>) -> Seq<Seq<char>> {
    rs.map_values(|r: (usize, usize)| v.subrange(r.0 as int, r.1 as int))
}

pub open spec fn ranges_in(rs: Seq<(usize, usize)>, len: nat) -> bool {
    forall|k: int| 0 <= k < rs.len() ==> #[trigger] rs[k].0 <= rs[k].1 <= len
}

/// The lines of `v`, as ranges.
pub fn split_lines(v: &Vec<char>) -> (r: Vec<(usize, usize)>)
    ensures
        ranges_view(r@, v@) == md_lines(v@),
        ranges_in(r@, v@.len()),
{
    let n = v.len();
    let mut out: Vec<(usize, usize)> = Vec::new();
    let mut i: usize = 0;
    while i < n
        invariant
            n == v@.len(),
            i <= n,
            ranges_view(out@, v@) + lines_from(v@, i as int) == md_lines(v@),
            ranges_in(out@, v@.len()),
        decreases n - i,
    {
        let j = find_char_from(v, '\n', i);
        let ghost before = ranges_view(out@, v@);
        let ghost rest = lines_from(v@, j + 1);
        let mut e = j;
        if j < n && j > i && v[j - 1] == '\r' {
            e = j - 1;
            assert(v@.subrange(i as int, j as int).drop_last() == v@.subrange(i as int, e as int));
        }
        let ghost line = v@.subrange(i as int, e as int);
        assert(lines_from(v@, i as int) == seq![line] + rest);
        let ghost old_out = out@;
        out.push((i, e));
        assert(ranges_view(out@, v@) == before.push(line));
        assert forall|k: int| 0 <= k < out@.len() implies #[trigger] out@[k].0 <= out@[k].1
            <= v@.len() by {
            if k < old_out.len() {
                assert(out@[k] == old_out[k]);
            }
        }
        assert(before.push(line) + rest == before + (seq![line] + rest));
        if j == n {
            i = n;
        } else {
            i = j + 1;
        }
    }
    assert(ranges_view(out@, v@) + lines_from(v@, n as int) == ranges_view(out@, v@));
    out
}

/// Whether the line `v[a..b]` is a front-matter fence.
fn is_fence_range(v: &Vec<char>, a: usize, b: usize) -> (r: bool)
    requires
        a <= b <= v@.len(),
    ensures
        r == is_fence(v@.subrange(a as int, b as int)),
{
    let e = skip_ws_backward(v, a, b);
    let ghost t = v@.subrange(a as int, e as int);
    if e - a == 3 && v[a] == '-' && v[a + 1] == '-' && v[a + 2] == '-' {
        assert(t == seq!['-', '-', '-']);
        true
    } else {
        proof {
            if t.len() == 3 {
                assert(t[0] == v@[a as int] && t[1] == v@[a + 1] && t[2] == v@[a + 2]);
            }
            assert(seq!['-', '-', '-'].len() == 3);
        }
        false
    }
}

/// The index of the line after a closed front matter that opens the document.
pub fn front_matter_end(v: &Vec<char>, lines: &Vec<(usize, usize)>) -> (r: Option<usize>)
    requires
        ranges_in(lines@, v@.len()),
    ensures
        match r {
            Some(e) => front_matter_end_spec(ranges_view(lines@, v@)) == Some(e as int),
            None => front_matter_end_spec(ranges_view(lines@, v@)) is None,
        },
{
    let ghost ls = ranges_view(lines@, v@);
    let n = lines.len();
    if n == 0 {
        return None;
    }
    let (a0, b0) = lines[0];
    assert(ls[0] == v@.subrange(a0 as int, b0 as int));
    if !is_fence_range(v, a0, b0) {
        return None;
    }
    let mut i: usize = 1;
    while i < n
        invariant
            1 <= i <= n,
            n == lines@.len(),
            ls == ranges_view(lines@, v@),
            is_fence(ls[0]),
            ranges_in(lines@, v@.len()),
            fence_after(ls, 1) == fence_after(ls, i as int),
        decreases n - i,
    {
        let (a, b) = lines[i];
        assert(ls[i as int] == v@.subrange(a as int, b as int));
        assert(lines@[i as int].0 <= lines@[i as int].1 <= v@.len());
        if is_fence_range(v, a, b) {
            return Some(i + 1);
        }
        i = i + 1;
    }
    None
}

/// Whether the line `v[a..b]` is a setext underline.
fn is_underline_range(v: &Vec<char>, a: usize, b: usize) -> (r: bool)
    requires
        a <= b <= v@.len(),
    ensures
        r == is_underline(v@.subrange(a as int, b as int)),
{
    let (x, y) = trim_range(v, a, b);
    let ghost u = v@.subrange(x as int, y as int);
    if x == y {
        return false;
    }
    let mut k = x;
    while k < y
        invariant
            x <= k <= y <= v@.len(),
            a <= b <= v@.len(),
            u == v@.subrange(x as int, y as int),
            trim_spec(v@.subrange(a as int, b as int)) == u,
            forall|t: int| 0 <= t < k - x ==> u[t] == '=',
        decreases y - k,
    {
        if v[k] != '=' {
            assert(u[k - x] != '=');
            return false;
        }
        k = k + 1;
    }
    true
}

/// The level-one heading that line `i` opens, as a range of `v`.
fn h1_range_at(v: &Vec<char>, lines: &Vec<(usize, usize)>, i: usize) -> (r: Option<(usize, usize)>)
    requires
        ranges_in(lines@, v@.len()),
        i < lines@.len(),
    ensures
        match r {
            Some((x, y)) => x <= y <= v@.len() && h1_at(ranges_view(lines@, v@), i as int) == Some(
                v@.subrange(x as int, y as int),
            ),
            None => h1_at(ranges_view(lines@, v@), i as int) is None,
        },
{
    let ghost ls = ranges_view(lines@, v@);
    let (a, b) = lines[i];
    assert(lines@[i as int].0 <= lines@[i as int].1 <= v@.len());
    assert(ls[i as int] == v@.subrange(a as int, b as int));
    let t0 = skip_ws_forward(v, a, b);
    let ghost t = v@.subrange(t0 as int, b as int);
    if b - t0 >= 2 && v[t0] == '#' && v[t0 + 1] == ' ' {
        assert(t.subrange(0, 2) == seq!['#', ' ']);
        let (x, y) = trim_range(v, t0 + 2, b);
        assert(t.subrange(2, t.len() as int) == v@.subrange(t0 + 2, b as int));
        return Some((x, y));
    }
    proof {
        if has_prefix(t, seq!['#', ' ']) {
            assert(t.subrange(0, 2)[0] == t[0] && t.subrange(0, 2)[1] == t[1]);
            assert(seq!['#', ' '].len() == 2);
        }
    }
    let n = lines.len();
    if b > t0 && v[t0] != '#' && i + 1 < n {
        let (a2, b2) = lines[i + 1];
        assert(lines@[i + 1].0 <= lines@[i + 1].1 <= v@.len());
        assert(ls[i + 1] == v@.subrange(a2 as int, b2 as int));
        if is_underline_range(v, a2, b2) {
            let (x, y) = trim_range(v, t0, b);
            return Some((x, y));
        }
    }
    None
}

/// The first level-one heading at or after line `from`, as a range of `v`.
fn find_h1(v: &Vec<char>, lines: &Vec<(usize, usize)>, from: usize) -> (r: Option<
    (usize, usize),
>)
    requires
        ranges_in(lines@, v@.len()),
        from <= lines@.len(),
    ensures
        match r {
            Some((x, y)) => x <= y <= v@.len() && find_h1_from(ranges_view(lines@, v@), from as int)
                == Some(v@.subrange(x as int, y as int)),
            None => find_h1_from(ranges_view(lines@, v@), from as int) is None,
        },
{
    let ghost ls = ranges_view(lines@, v@);
    let n = lines.len();
    let mut i = from;
    while i < n
        invariant
            from <= i <= n,
            n == lines@.len(),
            ls == ranges_view(lines@, v@),
            ranges_in(lines@, v@.len()),
            find_h1_from(ls, from as int) == find_h1_from(ls, i as int),
        decreases n - i,
    {
        match h1_range_at(v, lines, i) {
            Some(r) => {
                return Some(r);
            },
            None => {},
        }
        i = i + 1;
    }
    None
}

/// A heading found at line `s + i` of the lines is the one found at line `i`
/// of the lines from `s` on.
proof fn lemma_find_h1_suffix(ls: Seq<Seq<char>>, s: int, i: int)
    requires
        0 <= s <= ls.len(),
        0 <= i,
    ensures
        find_h1_from(ls.subrange(s, ls.len() as int), i) == find_h1_from(ls, s + i),
    decreases ls.len() - s - i,
{
    let suf = ls.subrange(s, ls.len() as int);
    if i < suf.len() {
        assert(suf[i] == ls[s + i]);
        if i + 1 < suf.len() {
            assert(suf[i + 1] == ls[s + i + 1]);
        }
        assert(h1_at(suf, i) == h1_at(ls, s + i));
        lemma_find_h1_suffix(ls, s, i + 1);
    }
}

/// The title of a Markdown document: the text of its first level-one heading
/// (ATX `# title` or setext `title` over `===`), searched after a closed front
/// matter first and then, if there was one, in the whole document.
pub fn extract_title(md: &str) -> (r: Option<String>)
    ensures
        opt_view(r) == title_spec(md@),
{
    let v = chars_of(md);
    let lines = split_lines(&v);
    let ghost ls = ranges_view(lines@, v@);
    let start = match front_matter_end(&v, &lines) {
        Some(e) => e,
        None => 0,
    };
    proof {
        if start != 0 {
            lemma_fence_after_bound(ls, 1);
        }
        lemma_find_h1_suffix(ls, start as int, 0);
    }
    match find_h1(&v, &lines, start) {
        Some((x, y)) => {
            return Some(string_of(&slice_chars(&v, x, y)));
        },
        None => {},
    }
    if start != 0 {
        match find_h1(&v, &lines, 0) {
            Some((x, y)) => {
                return Some(string_of(&slice_chars(&v, x, y)));
            },
            None => {},
        }
    }
    None
}

proof fn lemma_fence_after_bound(ls: Seq<Seq<char>>, i: int)
    requires
        0 <= i,
    ensures
        match fence_after(ls, i) {
            Some(e) => i < e <= ls.len(),
            None => true,
        },
    decreases ls.len() - i,
{
    if i < ls.len() && !is_fence(ls[i]) {
        lemma_fence_after_bound(ls, i + 1);
    }
}

proof fn lemma_find_h1_earlier(ls: Seq<Seq<char>>, i: int, s: int)
    requires
        0 <= i <= s,
        find_h1_from(ls, s) is Some,
    ensures
        find_h1_from(ls, i) is Some,
    decreases s - i,
{
    if i < s {
        lemma_find_h1_earlier(ls, i + 1, s);
    }
}

/// A document has a title exactly when some line of it opens a level-one
/// heading: front matter only decides which heading names it.
pub proof fn lemma_title_exists(md: Seq<char>)
    ensures
        title_spec(md) is Some <==> find_h1_spec(md_lines(md)) is Some,
{
    let ls = md_lines(md);
    let start = match front_matter_end_spec(ls) {
        Some(e) => e,
        None => 0,
    };
    if start != 0 {
        lemma_fence_after_bound(ls, 1);
        lemma_find_h1_suffix(ls, start, 0);
        if find_h1_from(ls, start) is Some {
            lemma_find_h1_earlier(ls, 0, start);
        }
    } else {
        assert(ls.subrange(0, ls.len() as int) == ls);
    }
}

proof fn lemma_h1_trimmed(lines: Seq<Seq<char>>, i: int)
    requires
        0 <= i < lines.len(),
    ensures
        h1_at(lines, i) matches Some(t) ==> trim_spec(t) == t,
{
    let t = trim_start_spec(lines[i]);
    lemma_trim_idempotent(t.subrange(2, t.len() as int));
    lemma_trim_idempotent(t);
}

proof fn lemma_find_h1_trimmed(lines: Seq<Seq<char>>, i: int)
    requires
        0 <= i,
    ensures
        find_h1_from(lines, i) matches Some(t) ==> trim_spec(t) == t,
    decreases lines.len() - i,
{
    if i < lines.len() {
        lemma_h1_trimmed(lines, i);
        lemma_find_h1_trimmed(lines, i + 1);
    }
}

/// A title has no whitespace at either end.
pub proof fn lemma_title_trimmed(md: Seq<char>)
    ensures
        title_spec(md) matches Some(t) ==> trim_spec(t) == t,
{
    let ls = md_lines(md);
    let start = match front_matter_end_spec(ls) {
        Some(e) => e,
        None => 0,
    };
    if start != 0 {
        lemma_fence_after_bound(ls, 1);
    }
    lemma_find_h1_trimmed(ls.subrange(start, ls.len() as int), 0);
    lemma_find_h1_trimmed(ls, 0);
}


proof fn lemma_next_index_at(s: Seq<char>, c: char, k: int, j: int)
    requires
        0 <= k <= j < s.len(),
        s[j] == c,
        forall|x: int| k <= x < j ==> s[x] != c,
    ensures
        next_index(s, c, k) == j,
    decreases j - k,
{
    if k < j {
        lemma_next_index_at(s, c, k + 1, j);
    }
}

proof fn lemma_next_index_shift(p: Seq<char>, t: Seq<char>, c: char, k: int)
    requires
        0 <= k,
    ensures
        next_index(p + t, c, p.len() + k) == p.len() + next_index(t, c, k),
    decreases t.len() - k,
{
    if k < t.len() {
        assert((p + t)[p.len() + k] == t[k]);
        if t[k] != c {
            lemma_next_index_shift(p, t, c, k + 1);
        }
    }
}

/// The lines of a text after a prefix are cut as in the text alone.
proof fn lemma_lines_shift(p: Seq<char>, t: Seq<char>, k: int)
    requires
        0 <= k,
    ensures
        lines_from(p + t, p.len() + k) == lines_from(t, k),
    decreases t.len() - k,
{
    if k < t.len() {
        let s = p + t;
        lemma_next_index_shift(p, t, '\n', k);
        lemma_next_index(t, '\n', k);
        let j = next_index(t, '\n', k);
        assert(s.subrange(p.len() + k, p.len() + j) =~= t.subrange(k, j));
        if j < t.len() {
            lemma_lines_shift(p, t, j + 1);
        }
        let line = if j < t.len() {
            strip_cr(t.subrange(k, j))
        } else {
            t.subrange(k, j)
        };
        assert(lines_from(t, k) == seq![line] + lines_from(t, j + 1));
        assert(lines_from(s, p.len() + k) == seq![line] + lines_from(s, p.len() + j + 1));
    }
}

/// A line ended by `\n` in front of a text adds that line in front of its lines.
proof fn lemma_lines_cons(line: Seq<char>, t: Seq<char>)
    requires
        forall|x: int| 0 <= x < line.len() ==> line[x] != '\n',
        line.len() == 0 || line.last() != '\r',
    ensures
        md_lines(line.push('\n') + t) == seq![line] + md_lines(t),
{
    let p = line.push('\n');
    let s = p + t;
    assert forall|x: int| 0 <= x < line.len() implies s[x] != '\n' by {
        assert(s[x] == line[x]);
    }
    assert(s[line.len() as int] == '\n');
    lemma_next_index_at(s, '\n', 0, line.len() as int);
    assert(s.subrange(0, line.len() as int) =~= line);
    lemma_lines_shift(p, t, 0);
    assert(p.len() + 0 == line.len() + 1);
}

/// Putting a closed front matter that holds no heading in front of a document
/// does not change its title, as long as the document does not itself begin
/// with a fence or with a setext underline (which would pair with the closing
/// fence).
pub proof fn lemma_front_matter_keeps_title(md: Seq<char>)
    requires
        md_lines(md).len() == 0 || (!is_fence(md_lines(md)[0]) && !is_underline(md_lines(md)[0])),
    ensures
        title_spec("---\nkey: value\n---\n"@ + md) == title_spec(md),
{
    reveal_strlit("---\nkey: value\n---\n");
    reveal_strlit("key: value");
    let fence = seq!['-', '-', '-'];
    let key = "key: value"@;
    assert(key.len() == 10);
    let fm = "---\nkey: value\n---\n"@;
    assert(fm =~= fence.push('\n') + (key.push('\n') + fence.push('\n')));
    let whole = fm + md;
    assert(whole =~= fence.push('\n') + (key.push('\n') + (fence.push('\n') + md)));
    lemma_lines_cons(fence, md);
    lemma_lines_cons(key, fence.push('\n') + md);
    lemma_lines_cons(fence, key.push('\n') + (fence.push('\n') + md));
    let l = md_lines(md);
    let ls = md_lines(whole);
    assert(ls =~= seq![fence, key, fence] + l);
    // the front matter
    assert(trim_end_spec(fence) == fence);
    assert(is_fence(fence));
    assert(trim_end_spec(key) == key);
    assert(!is_fence(key));
    assert(fence_after(ls, 2) == Some(3int));
    assert(fence_after(ls, 1) == Some(3int));
    assert(front_matter_end_spec(ls) == Some(3int));
    assert(ls.subrange(3, ls.len() as int) =~= l);
    // no heading inside it
    assert(trim_start_spec(fence) == fence);
    assert(trim_start_spec(key) == key);
    assert(trim_spec(fence) == fence);
    assert(trim_spec(key) == key);
    assert(!is_underline(fence));
    assert(!is_underline(key));
    assert(fence.subrange(0, 2) != seq!['#', ' ']);
    assert(key.subrange(0, 2) != seq!['#', ' ']);
    assert(ls[0] == fence && ls[1] == key && ls[2] == fence);
    if l.len() > 0 {
        assert(ls[3] == l[0]);
    }
    assert(h1_at(ls, 0) is None);
    assert(h1_at(ls, 1) is None);
    assert(h1_at(ls, 2) is None);
    lemma_find_h1_suffix(ls, 3, 0);
    assert(find_h1_from(ls, 2) == find_h1_from(ls, 3));
    assert(find_h1_from(ls, 1) == find_h1_from(ls, 3));
    assert(find_h1_from(ls, 0) == find_h1_from(ls, 3));
    // the document alone
    assert(front_matter_end_spec(l) is None);
    assert(l.subrange(0, l.len() as int) =~= l);
}


proof fn lemma_first_h1_from(lines: Seq<Seq<char>>, j: int, i: int)
    requires
        0 <= j <= i < lines.len(),
        forall|k: int| 0 <= k < i ==> #[trigger] h1_at(lines, k) is None,
        h1_at(lines, i) is Some,
    ensures
        find_h1_from(lines, j) == h1_at(lines, i),
    decreases i - j,
{
    if j < i {
        assert(h1_at(lines, j) is None);
        lemma_first_h1_from(lines, j + 1, i);
    }
}

/// The heading found is that of the earliest line that opens one: when no
/// line before line `i` opens a level-one heading and line `i` opens `t`,
/// the lines' first heading is `t`.
pub proof fn lemma_first_h1_wins(lines: Seq<Seq<char>>, i: int, t: Seq<char>)
    requires
        0 <= i < lines.len(),
        forall|k: int| 0 <= k < i ==> #[trigger] h1_at(lines, k) is None,
        h1_at(lines, i) == Some(t),
    ensures
        find_h1_spec(lines) == Some(t),
{
    lemma_first_h1_from(lines, 0, i);
}

proof fn lemma_no_h1_from(lines: Seq<Seq<char>>, j: int)
    requires
        0 <= j,
        forall|k: int| 0 <= k < lines.len() ==> #[trigger] h1_at(lines, k) is None,
    ensures
        find_h1_from(lines, j) is None,
    decreases lines.len() - j,
{
    if j < lines.len() {
        assert(h1_at(lines, j) is None);
        lemma_no_h1_from(lines, j + 1);
    }
}

/// Lines none of which opens a level-one heading have none.
pub proof fn lemma_no_h1(lines: Seq<Seq<char>>)
    requires
        forall|k: int| 0 <= k < lines.len() ==> #[trigger] h1_at(lines, k) is None,
    ensures
        find_h1_spec(lines) is None,
{
    lemma_no_h1_from(lines, 0);
}

/// A document that does not open with a fence has as title its first
/// level-one heading: the one of the earliest line that opens one, or none.
pub proof fn lemma_title_first_heading(md: Seq<char>, i: int)
    requires
        md_lines(md).len() > 0,
        !is_fence(md_lines(md)[0]),
        0 <= i <= md_lines(md).len(),
        forall|k: int| 0 <= k < i ==> #[trigger] h1_at(md_lines(md), k) is None,
    ensures
        i < md_lines(md).len() ==> (h1_at(md_lines(md), i) matches Some(t) ==> title_spec(md) == Some(t)),
        i == md_lines(md).len() ==> title_spec(md) is None,
{
    let ls = md_lines(md);
    assert(front_matter_end_spec(ls) is None);
    assert(ls.subrange(0, ls.len() as int) =~= ls);
    if i < ls.len() {
        match h1_at(ls, i) {
            Some(t) => lemma_first_h1_wins(ls, i, t),
            None => {},
        }
    } else {
        lemma_no_h1(ls);
    }
}

} // verus!
