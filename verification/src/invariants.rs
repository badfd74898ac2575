use vstd::prelude::*;

use crate::editor::{
    cut_spec, insert_cache_spec, insert_spec, kill_span, kill_spec, lines_after_cut,
    lines_free_of, place_spec, remove_cache_spec, settle_cursor_spec, Model,
};
use crate::keys::{
    backspace_spec, char_key_spec, ctrl_key_spec, delete_spec, indent_of, is_control, lemma_indent_len, key_spec,
    newline_spec, nonneg, normalize_spec, plain_key_spec, put_spec, spaces, trim_start,
    cursor_in_buffer, lemma_key_keeps_cursor_in_buffer, Key,
};
use crate::lines::{
    count_char, expand_tabs, holds, lemma_expand_count, lemma_expand_tab_free, lemma_split_count,
    lemma_split_len, split_lines,
};

verus! {

/// Whether some character of `s` is `bad`.
pub open spec fn has_any(s: Seq<char>, bad: spec_fn(char) -> bool) -> bool {
    exists|i: int| 0 <= i < s.len() && bad(s[i])
}

/// No line holds a `bad` character.
pub open spec fn lines_avoid(l: Seq<Seq<char>>, bad: spec_fn(char) -> bool) -> bool {
    forall|i: int| 0 <= i < l.len() ==> !has_any(#[trigger] l[i], bad)
}

/// Whether `c` lies outside ASCII.
pub open spec fn non_ascii(c: char) -> bool {
    (c as u32) >= 128
}

/// Every cached stack id lies below `bound`.
pub open spec fn cache_below(h: Seq<usize>, bound: int) -> bool {
    forall|i: int| 0 <= i < h.len() ==> (#[trigger] h[i] as int) < bound
}

proof fn lemma_free_add(a: Seq<char>, b: Seq<char>, bad: spec_fn(char) -> bool)
    requires
        !has_any(a, bad),
        !has_any(b, bad),
    ensures
        !has_any(a + b, bad),
{
    if has_any(a + b, bad) {
        let i = choose|i: int| 0 <= i < (a + b).len() && bad((a + b)[i]);
        if i < a.len() {
            assert(bad(a[i]));
        } else {
            assert(bad(b[i - a.len()]));
        }
    }
}

proof fn lemma_free_sub(s: Seq<char>, a: int, b: int, bad: spec_fn(char) -> bool)
    requires
        !has_any(s, bad),
        0 <= a <= b <= s.len(),
    ensures
        !has_any(s.subrange(a, b), bad),
{
    if has_any(s.subrange(a, b), bad) {
        let i = choose|i: int| 0 <= i < s.subrange(a, b).len() && bad(s.subrange(a, b)[i]);
        assert(s.subrange(a, b)[i] == s[a + i]);
    }
}

proof fn lemma_free_take(s: Seq<char>, n: int, bad: spec_fn(char) -> bool)
    requires
        !has_any(s, bad),
        0 <= n <= s.len(),
    ensures
        !has_any(s.take(n), bad),
{
    lemma_free_sub(s, 0, n, bad);
    assert(s.take(n) =~= s.subrange(0, n));
}

proof fn lemma_free_skip(s: Seq<char>, n: int, bad: spec_fn(char) -> bool)
    requires
        !has_any(s, bad),
        0 <= n <= s.len(),
    ensures
        !has_any(s.skip(n), bad),
{
    lemma_free_sub(s, n, s.len() as int, bad);
    assert(s.skip(n) =~= s.subrange(n, s.len() as int));
}

proof fn lemma_free_spaces(n: nat, bad: spec_fn(char) -> bool)
    requires
        !bad(' '),
    ensures
        !has_any(spaces(n), bad),
{
}

proof fn lemma_free_trim(s: Seq<char>, bad: spec_fn(char) -> bool)
    requires
        !has_any(s, bad),
    ensures
        !has_any(trim_start(s), bad),
    decreases s.len(),
{
    if s.len() > 0 && crate::keys::is_whitespace(s[0]) {
        lemma_free_skip(s, 1, bad);
        assert(s.drop_first() =~= s.skip(1));
        lemma_free_trim(s.drop_first(), bad);
    }
}

/// The pieces of text without a `bad` character cut at newlines hold none
/// either.
proof fn lemma_split_free(s: Seq<char>, bad: spec_fn(char) -> bool)
    requires
        !has_any(s, bad),
    ensures
        lines_avoid(split_lines(s), bad),
    decreases s.len(),
{
    if s.len() > 0 {
        let s0 = s.drop_last();
        lemma_free_take(s, s.len() - 1, bad);
        assert(s0 =~= s.take(s.len() - 1));
        lemma_split_free(s0, bad);
        lemma_split_len(s0);
        let p = split_lines(s0);
        if s.last() != '\n' {
            assert(s[s.len() - 1] == s.last());
            assert(!has_any(seq![s.last()], bad));
            assert(p[p.len() - 1] == p.last());
            lemma_free_add(p.last(), seq![s.last()], bad);
            assert(p.last().push(s.last()) =~= p.last() + seq![s.last()]);
        }
    }
}

proof fn lemma_free_lines_add(a: Seq<Seq<char>>, b: Seq<Seq<char>>, bad: spec_fn(char) -> bool)
    requires
        lines_avoid(a, bad),
        lines_avoid(b, bad),
    ensures
        lines_avoid(a + b, bad),
{
    assert forall|i: int| 0 <= i < (a + b).len() implies !has_any(#[trigger] (a + b)[i], bad) by {
        if i < a.len() {
            assert((a + b)[i] == a[i]);
        } else {
            assert((a + b)[i] == b[i - a.len()]);
        }
    }
}

proof fn lemma_free_lines_sub(l: Seq<Seq<char>>, x: int, y: int, bad: spec_fn(char) -> bool)
    requires
        lines_avoid(l, bad),
        0 <= x <= y <= l.len(),
    ensures
        lines_avoid(l.subrange(x, y), bad),
{
    assert forall|i: int| 0 <= i < y - x implies !has_any(#[trigger] l.subrange(x, y)[i], bad) by {
        assert(l.subrange(x, y)[i] == l[x + i]);
    }
}

proof fn lemma_free_lines_update(l: Seq<Seq<char>>, i: int, s: Seq<char>, bad: spec_fn(char) -> bool)
    requires
        lines_avoid(l, bad),
        !has_any(s, bad),
        0 <= i < l.len(),
    ensures
        lines_avoid(l.update(i, s), bad),
{
    assert forall|j: int| 0 <= j < l.update(i, s).len() implies !has_any(#[trigger] l.update(i, s)[j], bad) by {
        if j != i {
            assert(l.update(i, s)[j] == l[j]);
        }
    }
}

proof fn lemma_free_lines_insert(l: Seq<Seq<char>>, i: int, s: Seq<char>, bad: spec_fn(char) -> bool)
    requires
        lines_avoid(l, bad),
        !has_any(s, bad),
        0 <= i <= l.len(),
    ensures
        lines_avoid(l.insert(i, s), bad),
{
    assert forall|j: int| 0 <= j < l.insert(i, s).len() implies !has_any(#[trigger] l.insert(i, s)[j], bad) by {
        if j < i {
            assert(l.insert(i, s)[j] == l[j]);
        } else if j > i {
            assert(l.insert(i, s)[j] == l[j - 1]);
        }
    }
}

proof fn lemma_free_lines_remove(l: Seq<Seq<char>>, i: int, bad: spec_fn(char) -> bool)
    requires
        lines_avoid(l, bad),
        0 <= i < l.len(),
    ensures
        lines_avoid(l.remove(i), bad),
{
    assert forall|j: int| 0 <= j < l.remove(i).len() implies !has_any(#[trigger] l.remove(i)[j], bad) by {
        if j < i {
            assert(l.remove(i)[j] == l[j]);
        } else {
            assert(l.remove(i)[j] == l[j + 1]);
        }
    }
}

/// Tab expansion brings in no `bad` character when a space is not one.
proof fn lemma_expand_avoid(s: Seq<char>, bad: spec_fn(char) -> bool)
    requires
        !has_any(s, bad),
        !bad(' '),
    ensures
        !has_any(expand_tabs(s), bad),
    decreases s.len(),
{
    if s.len() > 0 {
        lemma_free_take(s, s.len() - 1, bad);
        assert(s.drop_last() =~= s.take(s.len() - 1));
        lemma_expand_avoid(s.drop_last(), bad);
        let b: Seq<char> = if s.last() == '\t' {
            seq![' ', ' ', ' ', ' ']
        } else {
            seq![s.last()]
        };
        assert(s[s.len() - 1] == s.last());
        assert(!has_any(b, bad));
        lemma_free_add(expand_tabs(s.drop_last()), b, bad);
    }
}

proof fn lemma_kill_avoid(n: Model, to: (int, int), bad: spec_fn(char) -> bool)
    requires
        cursor_in_buffer(n),
        to.0 >= 0,
        to.1 >= 0,
        lines_avoid(n.lines, bad),
    ensures
        lines_avoid(kill_spec(n, to).lines, bad),
{
    reveal(kill_spec);
    let (sx, sy, ex, ey) = kill_span(n, to);
    if !(sy == ey && sx == ex) {
        let l = n.lines;
        assert(!has_any(l[sy], bad));
        assert(!has_any(l[ey], bad));
        lemma_free_take(l[sy], sx, bad);
        lemma_free_skip(l[ey], ex, bad);
        lemma_free_add(l[sy].take(sx), l[ey].skip(ex), bad);
        let mid: Seq<Seq<char>> = seq![l[sy].take(sx) + l[ey].skip(ex)];
        assert(lines_avoid(mid, bad));
        lemma_free_lines_sub(l, 0, sy, bad);
        lemma_free_lines_sub(l, ey + 1, l.len() as int, bad);
        assert(l.take(sy) =~= l.subrange(0, sy));
        assert(l.skip(ey + 1) =~= l.subrange(ey + 1, l.len() as int));
        lemma_free_lines_add(l.take(sy), mid, bad);
        lemma_free_lines_add(l.take(sy) + mid, l.skip(ey + 1), bad);
        assert(kill_spec(n, to).lines == lines_after_cut(l, sx, sy, ex, ey));
    }
}

proof fn lemma_insert_avoid(n: Model, text: Seq<char>, bad: spec_fn(char) -> bool)
    requires
        cursor_in_buffer(n),
        lines_avoid(n.lines, bad),
        !has_any(expand_tabs(text), bad),
    ensures
        lines_avoid(insert_spec(n, text).lines, bad),
{
    reveal(insert_spec);
    let ins = expand_tabs(text);
    if ins.len() > 0 {
        assert(settle_cursor_spec(n) == n);
        lemma_split_free(ins, bad);
        lemma_split_len(ins);
        let parts = split_lines(ins);
        let k = parts.len() as int;
        let cy = n.cursor_y;
        let cx = n.cursor_x;
        let line = n.lines[cy];
        assert(!has_any(line, bad));
        lemma_free_take(line, cx, bad);
        lemma_free_skip(line, cx, bad);
        if k == 1 {
            lemma_free_add(line.take(cx), ins, bad);
            lemma_free_add(line.take(cx) + ins, line.skip(cx), bad);
            lemma_free_lines_update(n.lines, cy, line.take(cx) + ins + line.skip(cx), bad);
        } else {
            assert(!has_any(parts[0], bad));
            assert(!has_any(parts[k - 1], bad));
            lemma_free_add(line.take(cx), parts[0], bad);
            lemma_free_add(parts[k - 1], line.skip(cx), bad);
            let first: Seq<Seq<char>> = seq![line.take(cx) + parts[0]];
            let last: Seq<Seq<char>> = seq![parts[k - 1] + line.skip(cx)];
            assert(lines_avoid(first, bad));
            assert(lines_avoid(last, bad));
            lemma_free_lines_sub(parts, 1, k - 1, bad);
            lemma_free_lines_sub(n.lines, 0, cy, bad);
            lemma_free_lines_sub(n.lines, cy + 1, n.lines.len() as int, bad);
            assert(n.lines.take(cy) =~= n.lines.subrange(0, cy));
            assert(n.lines.skip(cy + 1) =~= n.lines.subrange(cy + 1, n.lines.len() as int));
            lemma_free_lines_add(n.lines.take(cy), first, bad);
            lemma_free_lines_add(n.lines.take(cy) + first, parts.subrange(1, k - 1), bad);
            lemma_free_lines_add(n.lines.take(cy) + first + parts.subrange(1, k - 1), last, bad);
            lemma_free_lines_add(
                n.lines.take(cy) + first + parts.subrange(1, k - 1) + last,
                n.lines.skip(cy + 1),
                bad,
            );
            assert(insert_spec(n, text).lines == place_spec(n, ins).lines);
        }
    }
}

/// What keeps a key press from bringing a `bad` character into the buffer:
/// spaces and braces are not bad, neither is a typed printable character,
/// and yanked text, once its tabs are expanded, holds none.
pub open spec fn key_avoids(m: Model, k: Key, bad: spec_fn(char) -> bool) -> bool {
    &&& !bad(' ')
    &&& !bad('{')
    &&& !bad('}')
    &&& !has_any(expand_tabs(m.kill), bad)
    &&& k matches Key::Char(c) ==> (is_control(c) || !bad(c))
}

proof fn lemma_newline_avoid(n: Model, bad: spec_fn(char) -> bool)
    requires
        cursor_in_buffer(n),
        lines_avoid(n.lines, bad),
        !bad(' '),
    ensures
        lines_avoid(newline_spec(n).lines, bad),
{
    let cy = n.cursor_y;
    let cx = n.cursor_x;
    let line = n.lines[cy];
    assert(!has_any(line, bad));
    let right = line.skip(cx);
    let left = line.take(cx);
    lemma_free_take(line, cx, bad);
    lemma_free_skip(line, cx, bad);
    let lead = indent_of(left);
    let rest = trim_start(right);
    lemma_indent_len(left);
    lemma_free_take(left, lead.len() as int, bad);
    lemma_free_trim(right, bad);
    lemma_free_spaces(4, bad);
    lemma_free_add(lead, spaces(4), bad);
    lemma_free_add(lead, rest, bad);
    lemma_free_add(lead, right, bad);
    lemma_free_lines_update(n.lines, cy, left, bad);
    lemma_free_lines_insert(n.lines.update(cy, left), cy + 1, lead + spaces(4), bad);
    lemma_free_lines_insert(
        n.lines.update(cy, left).insert(cy + 1, lead + spaces(4)),
        cy + 2,
        lead + rest,
        bad,
    );
    lemma_free_lines_insert(n.lines.update(cy, left), cy + 1, lead + right, bad);
}

proof fn lemma_delete_avoid(n: Model, bad: spec_fn(char) -> bool)
    requires
        cursor_in_buffer(n),
        lines_avoid(n.lines, bad),
    ensures
        lines_avoid(delete_spec(n).lines, bad),
{
    let cy = n.cursor_y;
    let cx = n.cursor_x;
    let line = n.lines[cy];
    assert(!has_any(line, bad));
    if cx < line.len() {
        let moves: int = if crate::keys::spaces_after(line, cx) {
            4
        } else {
            1
        };
        lemma_free_take(line, cx, bad);
        lemma_free_skip(line, cx + moves, bad);
        lemma_free_add(line.take(cx), line.skip(cx + moves), bad);
        lemma_free_lines_update(n.lines, cy, line.take(cx) + line.skip(cx + moves), bad);
    } else if cy + 1 < n.lines.len() {
        assert(!has_any(n.lines[cy + 1], bad));
        lemma_free_add(line, n.lines[cy + 1], bad);
        lemma_free_lines_remove(n.lines, cy + 1, bad);
        lemma_free_lines_update(n.lines.remove(cy + 1), cy, line + n.lines[cy + 1], bad);
    }
}

proof fn lemma_backspace_avoid(n: Model, bad: spec_fn(char) -> bool)
    requires
        cursor_in_buffer(n),
        lines_avoid(n.lines, bad),
    ensures
        lines_avoid(backspace_spec(n).lines, bad),
{
    let cy = n.cursor_y;
    let cx = n.cursor_x;
    let line = n.lines[cy];
    assert(!has_any(line, bad));
    if cx > 0 {
        let moves = crate::editor::min(
            if crate::keys::spaces_before(line, cx) {
                4
            } else {
                1
            },
            cx,
        );
        lemma_free_take(line, cx - moves, bad);
        lemma_free_skip(line, cx, bad);
        lemma_free_add(line.take(cx - moves), line.skip(cx), bad);
        lemma_free_lines_update(n.lines, cy, line.take(cx - moves) + line.skip(cx), bad);
    } else if cy > 0 {
        assert(!has_any(n.lines[cy - 1], bad));
        lemma_free_add(n.lines[cy - 1], line, bad);
        lemma_free_lines_remove(n.lines, cy, bad);
        lemma_free_lines_update(n.lines.remove(cy), cy - 1, n.lines[cy - 1] + line, bad);
    }
}

proof fn lemma_char_avoid(n: Model, c: char, bad: spec_fn(char) -> bool)
    requires
        cursor_in_buffer(n),
        lines_avoid(n.lines, bad),
        !bad(' '),
        !bad('{'),
        !bad('}'),
        is_control(c) || !bad(c),
    ensures
        lines_avoid(char_key_spec(n, c).lines, bad),
{
    if c == '\n' || c == '\r' {
        lemma_newline_avoid(n, bad);
    } else if c == '\t' || c == '{' || !is_control(c) {
        let cy = n.cursor_y;
        let cx = n.cursor_x;
        let line = n.lines[cy];
        assert(!has_any(line, bad));
        let s: Seq<char> = if c == '\t' {
            spaces(4)
        } else if c == '{' {
            seq!['{', '}']
        } else {
            seq![c]
        };
        assert(!has_any(s, bad)) by {
            if c == '\t' {
                lemma_free_spaces(4, bad);
            } else if c != '{' {
                assert(s[0] == c);
            }
        }
        lemma_free_take(line, cx, bad);
        lemma_free_skip(line, cx, bad);
        lemma_free_add(line.take(cx), s, bad);
        lemma_free_add(line.take(cx) + s, line.skip(cx), bad);
        lemma_free_lines_update(n.lines, cy, line.take(cx) + s + line.skip(cx), bad);
    }
}

proof fn lemma_edit_avoid(n: Model, k: Key, bad: spec_fn(char) -> bool)
    requires
        cursor_in_buffer(n),
        nonneg(n),
        lines_avoid(n.lines, bad),
        key_avoids(n, k, bad),
    ensures
        lines_avoid(plain_key_spec(n, k).lines, bad),
{
    let cy = n.cursor_y;
    let line = n.lines[cy];
    match k {
        Key::Ctrl(c) => {
            if c == 'w' {
                if n.status.selecting {
                    lemma_kill_avoid(n, n.mark, bad);
                }
            } else if c == 'y' {
                lemma_insert_avoid(n, n.kill, bad);
            } else if c == 'k' {
                lemma_kill_avoid(n, (line.len() as int, cy), bad);
            } else if c == 'd' {
                lemma_delete_avoid(n, bad);
            }
        },
        Key::Char(c) => lemma_char_avoid(n, c, bad),
        Key::Backspace => lemma_backspace_avoid(n, bad),
        _ => {},
    }
}

/// No key press brings into the buffer a character of a kind that no line
/// holds, when spaces and braces are not of that kind, the key types none,
/// and the kill buffer holds none once its tabs are expanded.
pub proof fn lemma_key_keeps_lines_avoiding(m: Model, k: Key, bad: spec_fn(char) -> bool)
    requires
        nonneg(m),
        lines_avoid(m.lines, bad),
        key_avoids(m, k, bad),
    ensures
        lines_avoid(key_spec(m, k).lines, bad),
{
    let n = normalize_spec(m);
    lemma_key_keeps_cursor_in_buffer(m, Key::Other);
    assert(cursor_in_buffer(n));
    if m.lines.len() == 0 {
        assert(n.lines == seq![Seq::<char>::empty()]);
        assert(!has_any(Seq::<char>::empty(), bad));
    }
    assert(lines_avoid(n.lines, bad));
    if !m.status.ctrlx {
        lemma_edit_avoid(n, k, bad);
    }
}

/// No key press brings a tab into a buffer that holds none: typed tabs and
/// yanked text come in as four spaces each.
pub proof fn lemma_key_keeps_tab_free(m: Model, k: Key)
    requires
        nonneg(m),
        lines_free_of(m.lines, '\t'),
    ensures
        lines_free_of(key_spec(m, k).lines, '\t'),
{
    let bad = |x: char| x == '\t';
    assert forall|i: int| 0 <= i < m.lines.len() implies !has_any(#[trigger] m.lines[i], bad) by {
        assert(!holds(m.lines[i], '\t'));
    }
    lemma_expand_tab_free(m.kill);
    assert(!has_any(expand_tabs(m.kill), bad)) by {
        if has_any(expand_tabs(m.kill), bad) {
            let i = choose|i: int| 0 <= i < expand_tabs(m.kill).len() && bad(expand_tabs(m.kill)[i]);
            assert(expand_tabs(m.kill)[i] == '\t');
        }
    }
    assert(is_control('\t'));
    lemma_key_keeps_lines_avoiding(m, k, bad);
    let r = key_spec(m, k).lines;
    assert forall|i: int| 0 <= i < r.len() implies !holds(#[trigger] r[i], '\t') by {
        assert(!has_any(r[i], bad));
        if holds(r[i], '\t') {
            let j = choose|j: int| 0 <= j < r[i].len() && r[i][j] == '\t';
            assert(bad(r[i][j]));
        }
    }
}

/// A buffer of ASCII text stays ASCII under every key press that types no
/// other character, when the kill buffer is ASCII too.
pub proof fn lemma_key_keeps_ascii(m: Model, k: Key)
    requires
        nonneg(m),
        lines_avoid(m.lines, |x: char| non_ascii(x)),
        !has_any(m.kill, |x: char| non_ascii(x)),
        k matches Key::Char(c) ==> !non_ascii(c),
    ensures
        lines_avoid(key_spec(m, k).lines, |x: char| non_ascii(x)),
{
    let bad = |x: char| non_ascii(x);
    lemma_expand_avoid(m.kill, bad);
    lemma_key_keeps_lines_avoiding(m, k, bad);
}

proof fn lemma_insert_cache_below(m: Model, at: int, count: int, b: int)
    requires
        cache_below(m.hlcache, b),
        b > 0,
        at >= 0,
        count >= 0,
    ensures
        cache_below(insert_cache_spec(m, at, count).hlcache, b),
{
    if count != 0 {
        let a = crate::editor::min(at, m.hlcache.len() as int);
        let h = m.hlcache;
        let z = Seq::new(count as nat, |i: int| 0usize);
        let r = h.take(a) + z + h.skip(a);
        assert forall|i: int| 0 <= i < r.len() implies (#[trigger] r[i] as int) < b by {
            if i < a {
                assert(r[i] == h[i]);
            } else if i < a + count {
                assert(r[i] == z[i - a]);
            } else {
                assert(r[i] == h[i - count]);
            }
        }
    }
}

proof fn lemma_remove_cache_below(m: Model, at: int, count: int, b: int)
    requires
        cache_below(m.hlcache, b),
        at >= 0,
        count >= 0,
    ensures
        cache_below(remove_cache_spec(m, at, count).hlcache, b),
{
    if !(count == 0 || m.hlcache.len() == 0) {
        let h = m.hlcache;
        let s0 = crate::editor::min(at, h.len() as int);
        let e0 = crate::editor::min(s0 + count, h.len() as int);
        let r = h.take(s0) + h.skip(e0);
        assert forall|i: int| 0 <= i < r.len() implies (#[trigger] r[i] as int) < b by {
            if i < s0 {
                assert(r[i] == h[i]);
            } else {
                assert(r[i] == h[i - s0 + e0]);
            }
        }
    }
}

proof fn lemma_kill_cache_below(n: Model, to: (int, int), b: int)
    requires
        cursor_in_buffer(n),
        to.0 >= 0,
        to.1 >= 0,
        cache_below(n.hlcache, b),
    ensures
        cache_below(kill_spec(n, to).hlcache, b),
{
    reveal(kill_spec);
    let (sx, sy, ex, ey) = kill_span(n, to);
    if !(sy == ey && sx == ex) && sy != ey {
        lemma_remove_cache_below(n, sy + 1, ey - sy, b);
        assert(kill_spec(n, to).hlcache == cut_spec(n, sx, sy, ex, ey).hlcache);
    }
}

proof fn lemma_insert_text_cache_below(n: Model, text: Seq<char>, b: int)
    requires
        cursor_in_buffer(n),
        cache_below(n.hlcache, b),
        b > 0,
    ensures
        cache_below(insert_spec(n, text).hlcache, b),
{
    reveal(insert_spec);
    let ins = expand_tabs(text);
    if ins.len() > 0 {
        assert(settle_cursor_spec(n) == n);
        lemma_split_len(ins);
        let k = split_lines(ins).len() as int;
        if k > 1 {
            lemma_insert_cache_below(n, n.cursor_y + 1, k - 1, b);
        }
    }
}

proof fn lemma_edit_cache_below(n: Model, k: Key, b: int)
    requires
        cursor_in_buffer(n),
        nonneg(n),
        cache_below(n.hlcache, b),
        b > 0,
    ensures
        cache_below(plain_key_spec(n, k).hlcache, b),
{
    let cy = n.cursor_y;
    let cx = n.cursor_x;
    let line = n.lines[cy];
    match k {
        Key::Ctrl(c) => {
            if c == 'w' {
                if n.status.selecting {
                    lemma_kill_cache_below(n, n.mark, b);
                }
            } else if c == 'y' {
                lemma_insert_text_cache_below(n, n.kill, b);
            } else if c == 'k' {
                lemma_kill_cache_below(n, (line.len() as int, cy), b);
            } else if c == 'd' {
                lemma_remove_cache_below(n, cy + 1, 1, b);
            }
        },
        Key::Char(c) => {
            if c == '\n' || c == '\r' {
                lemma_insert_cache_below(n, cy + 1, 1, b);
                lemma_insert_cache_below(insert_cache_spec(n, cy + 1, 1), cy + 2, 1, b);
            }
        },
        Key::Backspace => {
            lemma_remove_cache_below(n, cy, 1, b);
        },
        _ => {},
    }
}

/// No key press puts into the highlighting cache a stack id that was not
/// there before, other than the empty stack: every cached id stays below
/// any bound that all of them were below.
pub proof fn lemma_key_keeps_cache_below(m: Model, k: Key, b: int)
    requires
        nonneg(m),
        cache_below(m.hlcache, b),
        b > 0,
    ensures
        cache_below(key_spec(m, k).hlcache, b),
{
    let n = normalize_spec(m);
    lemma_key_keeps_cursor_in_buffer(m, Key::Other);
    assert(cursor_in_buffer(n));
    assert(cache_below(n.hlcache, b));
    if !m.status.ctrlx {
        lemma_edit_cache_below(n, k, b);
    }
}

/// The lines before `bound` are the same in `a` and `b`.
pub open spec fn same_before(a: Seq<Seq<char>>, b: Seq<Seq<char>>, bound: int) -> bool {
    forall|i: int| 0 <= i < bound && i < a.len() ==> i < b.len() && #[trigger] b[i] == a[i]
}

proof fn lemma_kill_dirty(n: Model, to: (int, int))
    requires
        cursor_in_buffer(n),
        to.0 >= 0,
        to.1 >= 0,
    ensures
        same_before(n.lines, kill_spec(n, to).lines, kill_spec(n, to).recompute),
        kill_spec(n, to).recompute <= n.recompute,
{
    reveal(kill_spec);
    let (sx, sy, ex, ey) = kill_span(n, to);
    if !(sy == ey && sx == ex) {
        let l = n.lines;
        let r = kill_spec(n, to);
        assert(r.lines == lines_after_cut(l, sx, sy, ex, ey));
        assert forall|i: int| 0 <= i < r.recompute && i < l.len() implies i < r.lines.len() && #[trigger] r.lines[i] == l[i] by {
            assert(r.lines[i] == l.take(sy)[i]);
        }
    }
}

proof fn lemma_insert_dirty(n: Model, text: Seq<char>)
    requires
        cursor_in_buffer(n),
    ensures
        same_before(n.lines, insert_spec(n, text).lines, insert_spec(n, text).recompute),
        insert_spec(n, text).recompute <= n.recompute,
{
    reveal(insert_spec);
    let ins = expand_tabs(text);
    if ins.len() > 0 {
        assert(settle_cursor_spec(n) == n);
        lemma_split_len(ins);
        let parts = split_lines(ins);
        let k = parts.len() as int;
        let r = insert_spec(n, text);
        if k > 1 {
            let cy = n.cursor_y;
            let line = n.lines[cy];
            assert(r.lines == n.lines.take(cy) + seq![line.take(n.cursor_x) + parts[0]] + parts.subrange(1, k - 1)
                + seq![parts[k - 1] + line.skip(n.cursor_x)] + n.lines.skip(cy + 1));
            assert forall|i: int| 0 <= i < r.recompute && i < n.lines.len() implies i < r.lines.len() && #[trigger] r.lines[i] == n.lines[i] by {
                assert(r.lines[i] == n.lines.take(cy)[i]);
            }
        }
    }
}

proof fn lemma_edit_dirty(n: Model, k: Key)
    requires
        cursor_in_buffer(n),
        nonneg(n),
    ensures
        same_before(n.lines, plain_key_spec(n, k).lines, plain_key_spec(n, k).recompute),
{
    let cy = n.cursor_y;
    let line = n.lines[cy];
    match k {
        Key::Ctrl(c) => {
            if c == 'w' {
                if n.status.selecting {
                    lemma_kill_dirty(n, n.mark);
                }
            } else if c == 'y' {
                lemma_insert_dirty(n, n.kill);
            } else if c == 'k' {
                lemma_kill_dirty(n, (line.len() as int, cy));
            }
        },
        _ => {},
    }
}

/// Every key press marks what it changes as needing highlighting again: the
/// lines before the first line to re-highlight are left as they were.
pub proof fn lemma_key_marks_changes_dirty(m: Model, k: Key)
    requires
        nonneg(m),
    ensures
        same_before(m.lines, key_spec(m, k).lines, key_spec(m, k).recompute),
{
    let n = normalize_spec(m);
    lemma_key_keeps_cursor_in_buffer(m, Key::Other);
    if !m.status.ctrlx {
        lemma_edit_dirty(n, k);
    }
}

/// The highlighting caches have one entry per line.
pub open spec fn cache_fits(m: Model) -> bool {
    &&& m.hlcache.len() == m.lines.len()
    &&& m.line_hl.len() == m.lines.len()
}

proof fn lemma_kill_shape(n: Model, to: (int, int))
    requires
        cursor_in_buffer(n),
        to.0 >= 0,
        to.1 >= 0,
    ensures
        cache_fits(n) ==> cache_fits(kill_spec(n, to)),
        kill_spec(n, to).recompute <= n.recompute,
        kill_spec(n, to).lines != n.lines ==> kill_spec(n, to).recompute < n.lines.len(),
        kill_spec(n, to).lines != n.lines ==> !kill_spec(n, to).status.saved,
{
    reveal(kill_spec);
    let (sx, sy, ex, ey) = kill_span(n, to);
    if !(sy == ey && sx == ex) {
        let l = n.lines;
        let r = kill_spec(n, to);
        assert(r.lines == lines_after_cut(l, sx, sy, ex, ey));
        assert(r.lines.len() == l.len() - (ey - sy));
    }
}

proof fn lemma_insert_shape(n: Model, text: Seq<char>)
    requires
        cursor_in_buffer(n),
    ensures
        cache_fits(n) ==> cache_fits(insert_spec(n, text)),
        insert_spec(n, text).recompute <= n.recompute,
        insert_spec(n, text).lines != n.lines ==> insert_spec(n, text).recompute < n.lines.len(),
        insert_spec(n, text).lines != n.lines ==> !insert_spec(n, text).status.saved,
{
    reveal(insert_spec);
    let ins = expand_tabs(text);
    if ins.len() > 0 {
        assert(settle_cursor_spec(n) == n);
        lemma_split_len(ins);
        let parts = split_lines(ins);
        let k = parts.len() as int;
        let r = insert_spec(n, text);
        if k > 1 {
            let cy = n.cursor_y;
            let line = n.lines[cy];
            assert(r.lines == n.lines.take(cy) + seq![line.take(n.cursor_x) + parts[0]] + parts.subrange(1, k - 1)
                + seq![parts[k - 1] + line.skip(n.cursor_x)] + n.lines.skip(cy + 1));
            assert(r.lines.len() == n.lines.len() + k - 1);
        }
    }
}

/// What the shape lemmas state of one step from `n` to `r`.
pub open spec fn shape_step(n: Model, r: Model, tab: bool) -> bool {
    &&& cache_fits(n) ==> cache_fits(r)
    &&& r.recompute <= n.recompute
    &&& r.lines != n.lines ==> r.recompute < n.lines.len()
    &&& r.lines != n.lines && !tab ==> !r.status.saved
}

proof fn lemma_delete_shape(n: Model)
    requires
        cursor_in_buffer(n),
    ensures
        shape_step(n, delete_spec(n), false),
{
    let cy = n.cursor_y;
    let r = delete_spec(n);
    if !(n.cursor_x < n.lines[cy].len()) && cy + 1 < n.lines.len() {
        assert(r.lines.len() == n.lines.len() - 1);
        if cache_fits(n) {
            assert(r.hlcache.len() == n.hlcache.len() - 1);
        }
    }
}

proof fn lemma_backspace_shape(n: Model)
    requires
        cursor_in_buffer(n),
    ensures
        shape_step(n, backspace_spec(n), false),
{
    let cy = n.cursor_y;
    let r = backspace_spec(n);
    if n.cursor_x == 0 && cy > 0 {
        assert(r.lines.len() == n.lines.len() - 1);
        if cache_fits(n) {
            assert(r.hlcache.len() == n.hlcache.len() - 1);
        }
    }
}

proof fn lemma_ctrl_shape(n: Model, c: char)
    requires
        cursor_in_buffer(n),
        nonneg(n),
    ensures
        shape_step(n, ctrl_key_spec(n, c), false),
{
    let cy = n.cursor_y;
    let line = n.lines[cy];
    if c == 'w' {
        if n.status.selecting {
            lemma_kill_shape(n, n.mark);
        }
    } else if c == 'y' {
        lemma_insert_shape(n, n.kill);
    } else if c == 'k' {
        lemma_kill_shape(n, (line.len() as int, cy));
    } else if c == 'd' {
        lemma_delete_shape(n);
    }
}

proof fn lemma_char_shape(n: Model, c: char)
    requires
        cursor_in_buffer(n),
    ensures
        shape_step(n, char_key_spec(n, c), c == '\t'),
{
    let r = char_key_spec(n, c);
    if c == '\n' || c == '\r' {
        let cy = n.cursor_y;
        let right = n.lines[cy].skip(n.cursor_x);
        let rest = trim_start(right);
        if rest.len() > 0 && rest[0] == '}' {
            assert(r.lines.len() == n.lines.len() + 2);
        } else {
            assert(r.lines.len() == n.lines.len() + 1);
        }
    }
}

proof fn lemma_edit_shape(n: Model, k: Key)
    requires
        cursor_in_buffer(n),
        nonneg(n),
    ensures
        shape_step(n, plain_key_spec(n, k), k == Key::Char('\t')),
{
    match k {
        Key::Ctrl(c) => lemma_ctrl_shape(n, c),
        Key::Char(c) => lemma_char_shape(n, c),
        Key::Backspace => lemma_backspace_shape(n),
        _ => {},
    }
}

/// Every key press keeps one cache entry per line, never raises the first
/// line to re-highlight, and, when it changes the text, lowers that line
/// into the old buffer (so that, with `lemma_key_marks_changes_dirty`, it
/// lies at or before the first changed line) and clears the saved flag
/// (all but a typed tab, which leaves the flag as it was).
pub proof fn lemma_key_keeps_cache_shape(m: Model, k: Key)
    requires
        nonneg(m),
        m.lines.len() >= 1,
        cache_fits(m),
    ensures
        cache_fits(key_spec(m, k)),
        key_spec(m, k).recompute <= m.recompute,
        key_spec(m, k).lines != m.lines ==> key_spec(m, k).recompute < m.lines.len(),
        key_spec(m, k).lines != m.lines && k != Key::Char('\t') ==> !key_spec(m, k).status.saved,
{
    let n = normalize_spec(m);
    lemma_key_keeps_cursor_in_buffer(m, Key::Other);
    assert(n.lines == m.lines);
    if !m.status.ctrlx {
        lemma_edit_shape(n, k);
    }
}

/// Every key press that changes the text of a non-empty buffer clears the
/// saved flag, but a typed tab, which leaves the flag as it was.
pub proof fn lemma_key_change_clears_saved(m: Model, k: Key)
    requires
        nonneg(m),
        m.lines.len() >= 1,
    ensures
        key_spec(m, k).lines != m.lines && k != Key::Char('\t') ==> !key_spec(m, k).status.saved,
{
    let n = normalize_spec(m);
    lemma_key_keeps_cursor_in_buffer(m, Key::Other);
    assert(n.lines == m.lines);
    if !m.status.ctrlx {
        lemma_edit_shape(n, k);
    }
}

/// Inserting non-empty text adds one line per newline it holds: the caches
/// get one fresh entry per new line right after the cursor line (the cursor
/// first moved into the buffer), and the first line to re-highlight is at
/// most the cursor line.
pub proof fn lemma_insert_adds_lines(m: Model, text: Seq<char>)
    requires
        m.lines.len() >= 1,
        m.cursor_x >= 0,
        m.cursor_y >= 0,
        cache_fits(m),
        text.len() > 0,
    ensures
        ({
            let r = insert_spec(m, text);
            let k = count_char(text, '\n');
            let y = crate::editor::min(m.cursor_y, m.lines.len() - 1);
            &&& r.lines.len() == m.lines.len() + k
            &&& r.hlcache == m.hlcache.take(y + 1) + Seq::new(k, |i: int| 0usize) + m.hlcache.skip(y + 1)
            &&& r.line_hl.len() == r.lines.len()
            &&& r.recompute <= y
        }),
{
    reveal(insert_spec);
    let ins = expand_tabs(text);
    lemma_expand_count(text);
    lemma_split_count(ins);
    let n = settle_cursor_spec(m);
    assert(cursor_in_buffer(n));
    let parts = split_lines(ins);
    let k = parts.len() as int;
    let y = n.cursor_y;
    let r = insert_spec(m, text);
    if k > 1 {
        let line = n.lines[y];
        assert(r.lines == n.lines.take(y) + seq![line.take(n.cursor_x) + parts[0]] + parts.subrange(1, k - 1)
            + seq![parts[k - 1] + line.skip(n.cursor_x)] + n.lines.skip(y + 1));
        assert(r.lines.len() == n.lines.len() + k - 1);
    } else {
        assert(m.hlcache.take(y + 1) + Seq::new(0, |i: int| 0usize) + m.hlcache.skip(y + 1) =~= m.hlcache);
    }
}

} // verus!
