use vstd::prelude::*;

use crate::editor::{
    kill_span, settle_cursor_spec, buf_insert_lines, buf_kill_lines, copy_range, insert_cache_lines, insert_cache_spec, insert_spec,
    kill_spec, mark_recompute, max, min, remove_cache_lines, remove_cache_spec, Model, Status, View,
};
use crate::lines::{expand_tabs, split_lines};
use crate::text::{push_range, push_slice};
use vstd::view::View as _;

verus! {

/// A key press, as the editor tells keys apart.
#[derive(Clone, Copy, Debug, PartialEq, Eq, Structural)]
pub enum Key {
    Backspace,
    Left,
    Right,
    Up,
    Down,
    Char(char),
    Ctrl(char),
    Null,
    Other,
}

/// Control characters: the Unicode general category Cc.
pub open spec fn is_control(c: char) -> bool {
    (c as u32) <= 0x1f || (0x7f <= (c as u32) && (c as u32) <= 0x9f)
}

/// Whitespace: the Unicode property White_Space.
pub open spec fn is_whitespace(c: char) -> bool {
    let u = c as u32;
    (0x09 <= u && u <= 0x0d) || u == 0x20 || u == 0x85 || u == 0xa0 || u == 0x1680 || (0x2000 <= u
        && u <= 0x200a) || u == 0x2028 || u == 0x2029 || u == 0x202f || u == 0x205f || u == 0x3000
}

/// `s` without its leading whitespace.
pub open spec fn trim_start(s: Seq<char>) -> Seq<char>
    decreases s.len(),
{
    if s.len() > 0 && is_whitespace(s[0]) {
        trim_start(s.drop_first())
    } else {
        s
    }
}

/// Whether every character of `s` is a space.
pub open spec fn all_spaces(s: Seq<char>) -> bool {
    forall|i: int| 0 <= i < s.len() ==> s[i] == ' '
}

/// `n` spaces.
pub open spec fn spaces(n: nat) -> Seq<char> {
    Seq::new(n, |i: int| ' ')
}

/// How many whitespace characters `s` starts with.
pub open spec fn indent_len(s: Seq<char>) -> nat
    decreases s.len(),
{
    if s.len() > 0 && is_whitespace(s[0]) {
        1 + indent_len(s.drop_first())
    } else {
        0
    }
}

/// The leading whitespace of `s`: its indentation.
pub open spec fn indent_of(s: Seq<char>) -> Seq<char> {
    s.take(indent_len(s) as int)
}

/// The indentation is a prefix of the text.
pub proof fn lemma_indent_len(s: Seq<char>)
    ensures
        indent_len(s) <= s.len(),
    decreases s.len(),
{
    if s.len() > 0 && is_whitespace(s[0]) {
        lemma_indent_len(s.drop_first());
    }
}

/// The model with `saved` and `selecting` cleared.
pub open spec fn touched(m: Model) -> Model {
    Model { status: Status { saved: false, selecting: false, ..m.status }, ..m }
}

/// The buffer made non-empty and the cursor moved into it, as every key
/// press does first.
pub open spec fn normalize_spec(m: Model) -> Model {
    let m1 = if m.lines.len() == 0 {
        Model {
            lines: seq![Seq::<char>::empty()],
            cursor_x: 0,
            cursor_y: 0,
            offset: 0,
            offcol: 0,
            hlcache: seq![0usize],
            recompute: 0,
            ..m
        }
    } else {
        m
    };
    let n = m1.lines.len() as int;
    let cy = if m1.cursor_y >= n {
        n - 1
    } else {
        m1.cursor_y
    };
    Model { cursor_y: cy, cursor_x: min(m1.cursor_x, m1.lines[cy].len() as int), ..m1 }
}

pub open spec fn down_spec(m: Model) -> Model {
    let wc = max(m.working_col, m.cursor_x);
    if m.cursor_y + 1 < m.lines.len() {
        let y = m.cursor_y + 1;
        Model { working_col: wc, cursor_y: y, cursor_x: min(wc, m.lines[y].len() as int), ..m }
    } else {
        Model { working_col: wc, ..m }
    }
}

pub open spec fn up_spec(m: Model) -> Model {
    let wc = max(m.working_col, m.cursor_x);
    if m.cursor_y > 0 {
        let y = m.cursor_y - 1;
        Model { working_col: wc, cursor_y: y, cursor_x: min(wc, m.lines[y].len() as int), ..m }
    } else {
        Model { working_col: wc, ..m }
    }
}

/// Whether the four columns before column `x` of `line` are spaces.
pub open spec fn spaces_before(line: Seq<char>, x: int) -> bool {
    x >= 4 && all_spaces(line.subrange(x - 4, x))
}

/// Whether the four columns from column `x` of `line` are spaces.
pub open spec fn spaces_after(line: Seq<char>, x: int) -> bool {
    x + 4 <= line.len() && all_spaces(line.subrange(x, x + 4))
}

pub open spec fn left_spec(m: Model) -> Model {
    let line = m.lines[m.cursor_y];
    let m1 = if m.cursor_x > 0 {
        Model {
            cursor_x: m.cursor_x - if spaces_before(line, m.cursor_x) {
                4int
            } else {
                1int
            },
            ..m
        }
    } else if m.cursor_y > 0 {
        Model {
            cursor_y: m.cursor_y - 1,
            cursor_x: m.lines[m.cursor_y - 1].len() as int,
            ..m
        }
    } else {
        m
    };
    Model { working_col: m1.cursor_x, ..m1 }
}

pub open spec fn right_spec(m: Model) -> Model {
    let line = m.lines[m.cursor_y];
    let m1 = if m.cursor_x < line.len() {
        Model {
            cursor_x: m.cursor_x + if spaces_after(line, m.cursor_x) {
                4int
            } else {
                1int
            },
            ..m
        }
    } else if m.cursor_y + 1 < m.lines.len() {
        Model { cursor_y: m.cursor_y + 1, cursor_x: 0, ..m }
    } else {
        m
    };
    Model { working_col: m1.cursor_x, ..m1 }
}

pub open spec fn backspace_spec(m: Model) -> Model {
    let cy = m.cursor_y;
    let cx = m.cursor_x;
    let line = m.lines[cy];
    let moves = min(
        if spaces_before(line, cx) {
            4
        } else {
            1
        },
        cx,
    );
    let m1 = if cx > 0 {
        Model {
            lines: m.lines.update(cy, line.take(cx - moves) + line.skip(cx)),
            cursor_x: cx - moves,
            recompute: min(m.recompute, cy),
            ..m
        }
    } else if cy > 0 {
        let prev = m.lines[cy - 1];
        let mc = remove_cache_spec(m, cy, 1);
        Model {
            lines: m.lines.remove(cy).update(cy - 1, prev + line),
            cursor_y: cy - 1,
            cursor_x: prev.len() as int,
            recompute: min(m.recompute, cy - 1),
            ..mc
        }
    } else {
        m
    };
    touched(m1)
}

pub open spec fn delete_spec(m: Model) -> Model {
    let cy = m.cursor_y;
    let cx = m.cursor_x;
    let line = m.lines[cy];
    let m1 = if cx < line.len() {
        let moves: int = if spaces_after(line, cx) {
            4
        } else {
            1
        };
        Model {
            lines: m.lines.update(cy, line.take(cx) + line.skip(cx + moves)),
            recompute: min(m.recompute, cy),
            ..m
        }
    } else if cy + 1 < m.lines.len() {
        let next = m.lines[cy + 1];
        let mc = remove_cache_spec(m, cy + 1, 1);
        Model {
            lines: m.lines.remove(cy + 1).update(cy, line + next),
            recompute: min(m.recompute, cy),
            ..mc
        }
    } else {
        m
    };
    touched(m1)
}

/// Breaking the line at the cursor: the new line starts with the whole
/// leading whitespace of the text before the cursor; a closing brace right
/// after the cursor goes on a line of its own below an empty line indented
/// four spaces further.
pub open spec fn newline_spec(m: Model) -> Model {
    let cy = m.cursor_y;
    let cx = m.cursor_x;
    let line = m.lines[cy];
    let left = line.take(cx);
    let right = line.skip(cx);
    let lead = indent_of(left);
    let rest = trim_start(right);
    let m1 = insert_cache_spec(m, cy + 1, 1);
    if rest.len() > 0 && rest[0] == '}' {
        let m2 = insert_cache_spec(m1, cy + 2, 1);
        touched(
            Model {
                lines: m.lines.update(cy, left).insert(cy + 1, lead + spaces(4)).insert(
                    cy + 2,
                    lead + rest,
                ),
                cursor_y: cy + 1,
                cursor_x: lead.len() + 4int,
                recompute: min(m.recompute, cy),
                ..m2
            },
        )
    } else {
        touched(
            Model {
                lines: m.lines.update(cy, left).insert(cy + 1, lead + right),
                cursor_y: cy + 1,
                cursor_x: lead.len() as int,
                recompute: min(m.recompute, cy),
                ..m1
            },
        )
    }
}

/// Inserting `s` at the cursor, which ends `adv` columns further.
pub open spec fn put_spec(m: Model, s: Seq<char>, adv: int) -> Model {
    let cy = m.cursor_y;
    let cx = m.cursor_x;
    let line = m.lines[cy];
    Model {
        lines: m.lines.update(cy, line.take(cx) + s + line.skip(cx)),
        cursor_x: cx + adv,
        recompute: min(m.recompute, cy),
        ..m
    }
}

pub open spec fn set_status(m: Model, s: Status) -> Model {
    Model { status: s, ..m }
}

/// What a control chord does when no `C-x` prefix is pending.
pub open spec fn ctrl_key_spec(n: Model, c: char) -> Model {
    let st = n.status;
    if c == 'z' {
        set_status(n, Status { quit: true, save: true, ..st })
    } else if c == 'x' {
        set_status(n, Status { ctrlx: true, ..st })
    } else if c == 'n' {
        down_spec(n)
    } else if c == 'p' {
        up_spec(n)
    } else if c == 'b' {
        left_spec(n)
    } else if c == 'f' {
        right_spec(n)
    } else if c == 'a' {
        Model { cursor_x: 0, ..n }
    } else if c == 'e' {
        Model { cursor_x: n.lines[n.cursor_y].len() as int, ..n }
    } else if c == 'd' {
        delete_spec(n)
    } else if c == ' ' {
        set_mark_spec(n)
    } else if c == 'w' {
        let m1 = if st.selecting {
            let k = kill_spec(n, n.mark);
            set_status(k, Status { selecting: false, ..k.status })
        } else {
            n
        };
        set_status(m1, Status { saved: false, ..m1.status })
    } else if c == 'y' {
        let m1 = insert_spec(n, n.kill);
        set_status(m1, Status { saved: false, ..m1.status })
    } else if c == 'k' {
        let m1 = kill_spec(n, (n.lines[n.cursor_y].len() as int, n.cursor_y));
        set_status(m1, Status { saved: false, ..m1.status })
    } else {
        n
    }
}

/// Setting the mark at the cursor and starting a selection.
pub open spec fn set_mark_spec(n: Model) -> Model {
    Model { mark: (n.cursor_x, n.cursor_y), status: Status { selecting: true, ..n.status }, ..n }
}

/// What typing a character does when no `C-x` prefix is pending.
pub open spec fn char_key_spec(n: Model, c: char) -> Model {
    if c == '\n' || c == '\r' {
        newline_spec(n)
    } else if c == '\t' {
        put_spec(n, spaces(4), 4)
    } else if c == '{' {
        touched(put_spec(n, seq!['{', '}'], 1))
    } else if !is_control(c) {
        touched(put_spec(n, seq![c], 1))
    } else {
        n
    }
}

/// What a key press does when no `C-x` prefix is pending.
pub open spec fn plain_key_spec(n: Model, k: Key) -> Model {
    match k {
        Key::Ctrl(c) => ctrl_key_spec(n, c),
        Key::Char(c) => char_key_spec(n, c),
        Key::Down => down_spec(n),
        Key::Up => up_spec(n),
        Key::Left => left_spec(n),
        Key::Right => right_spec(n),
        Key::Backspace => backspace_spec(n),
        Key::Null => set_mark_spec(n),
        Key::Other => n,
    }
}

/// What a key press does after the `C-x` prefix.
pub open spec fn prefixed_key_spec(n: Model, k: Key) -> Model {
    let st = n.status;
    match k {
        Key::Ctrl('c') => set_status(n, Status { ctrlx: false, quit: true, ..st }),
        Key::Ctrl('s') => set_status(n, Status { ctrlx: false, save: true, ..st }),
        Key::Char('x') => set_status(n, Status { forcequit: true, quit: true, ..st }),
        _ => n,
    }
}

/// What a key press does to the editing state.
pub open spec fn key_spec(m: Model, k: Key) -> Model {
    let n = normalize_spec(m);
    if !m.status.ctrlx {
        plain_key_spec(n, k)
    } else {
        prefixed_key_spec(n, k)
    }
}

/// The cursor lies in a non-empty buffer.
pub open spec fn cursor_in_buffer(m: Model) -> bool {
    &&& m.lines.len() >= 1
    &&& 0 <= m.cursor_y < m.lines.len()
    &&& 0 <= m.cursor_x <= m.lines[m.cursor_y].len()
}

pub fn is_control_char(c: char) -> (r: bool)
    ensures
        r == is_control(c),
{
    let u = c as u32;
    u <= 0x1f || (0x7f <= u && u <= 0x9f)
}

fn is_whitespace_char(c: char) -> (r: bool)
    ensures
        r == is_whitespace(c),
{
    let u = c as u32;
    (0x09 <= u && u <= 0x0d) || u == 0x20 || u == 0x85 || u == 0xa0 || u == 0x1680 || (0x2000 <= u
        && u <= 0x200a) || u == 0x2028 || u == 0x2029 || u == 0x202f || u == 0x205f || u == 0x3000
}

/// How many leading characters `trim_start` drops.
fn leading_whitespace(s: &[char]) -> (r: usize)
    ensures
        r <= s@.len(),
        trim_start(s@) == s@.skip(r as int),
{
    let mut i: usize = 0;
    assert(s@.skip(0) =~= s@);
    while i < s.len() && is_whitespace_char(s[i])
        invariant
            i <= s@.len(),
            trim_start(s@) == trim_start(s@.skip(i as int)),
        decreases s@.len() - i,
    {
        assert(s@.skip(i as int).drop_first() =~= s@.skip(i + 1));
        i = i + 1;
    }
    i
}

/// Whether `s[from..from + 4]` are spaces (`s` has those columns).
fn four_spaces(s: &[char], from: usize) -> (r: bool)
    requires
        from + 4 <= s@.len(),
    ensures
        r == all_spaces(s@.subrange(from as int, from + 4)),
{
    let r = s[from] == ' ' && s[from + 1] == ' ' && s[from + 2] == ' ' && s[from + 3] == ' ';
    proof {
        let t = s@.subrange(from as int, from + 4);
        if r {
            assert forall|i: int| 0 <= i < t.len() implies t[i] == ' ' by {
                assert(t[i] == s@[from + i]);
            }
        } else {
            if all_spaces(t) {
                assert(t[0] == s@[from as int]);
                assert(t[1] == s@[from + 1]);
                assert(t[2] == s@[from + 2]);
                assert(t[3] == s@[from + 3]);
            }
        }
    }
    r
}

/// How many whitespace characters `s` starts with.
fn indent_width(s: &[char]) -> (r: usize)
    ensures
        r == indent_len(s@),
        r <= s@.len(),
{
    let mut i: usize = 0;
    assert(s@.skip(0) =~= s@);
    while i < s.len() && is_whitespace_char(s[i])
        invariant
            i <= s@.len(),
            indent_len(s@) == i + indent_len(s@.skip(i as int)),
        decreases s@.len() - i,
    {
        assert(s@.skip(i as int).drop_first() =~= s@.skip(i + 1));
        i = i + 1;
    }
    i
}

/// A vector of `n` spaces.
fn spaces_vec(n: usize) -> (r: Vec<char>)
    ensures
        r@ == spaces(n as nat),
{
    let mut r: Vec<char> = Vec::new();
    let mut i: usize = 0;
    while i < n
        invariant
            i <= n,
            r@ == spaces(i as nat),
        decreases n - i,
    {
        r.push(' ');
        assert(r@ =~= spaces((i + 1) as nat));
        i = i + 1;
    }
    r
}

/// Makes the buffer non-empty and moves the cursor into it.
pub fn normalize(view: &mut View)
    ensures
        final(view).model() == normalize_spec(old(view).model()),
        final(view).same_setting(old(view)),
        cursor_in_buffer(final(view).model()),
{
    if view.bufvec.is_empty() {
        view.bufvec.push(Vec::new());
        view.cursor_x = 0;
        view.cursor_y = 0;
        view.offset = 0;
        view.offcol = 0;
        view.hlcache.clear();
        let e = view.stack.empty();
        view.hlcache.push(e);
        view.recompute = 0;
        assert(view.bufvec@.map_values(|v: Vec<char>| v@) =~= seq![Seq::<char>::empty()]);
        assert(view.hlcache@ =~= seq![0usize]);
    }
    if view.cursor_y >= view.bufvec.len() {
        view.cursor_y = view.bufvec.len() - 1;
    }
    let len = view.bufvec[view.cursor_y].len();
    if view.cursor_x > len {
        view.cursor_x = len;
    }
    assert(final(view).model() =~= normalize_spec(old(view).model()));
}

fn move_down(view: &mut View)
    requires
        cursor_in_buffer(old(view).model()),
    ensures
        final(view).model() == down_spec(old(view).model()),
        final(view).same_setting(old(view)),
{
    if view.cursor_x > view.working_col {
        view.working_col = view.cursor_x;
    }
    if view.bufvec.len() - view.cursor_y > 1 {
        view.cursor_y = view.cursor_y + 1;
        let len = view.bufvec[view.cursor_y].len();
        view.cursor_x = if view.working_col < len {
            view.working_col
        } else {
            len
        };
    }
    assert(final(view).model() =~= down_spec(old(view).model()));
}

fn move_up(view: &mut View)
    requires
        cursor_in_buffer(old(view).model()),
    ensures
        final(view).model() == up_spec(old(view).model()),
        final(view).same_setting(old(view)),
{
    if view.cursor_x > view.working_col {
        view.working_col = view.cursor_x;
    }
    if view.cursor_y > 0 {
        view.cursor_y = view.cursor_y - 1;
        let len = view.bufvec[view.cursor_y].len();
        view.cursor_x = if view.working_col < len {
            view.working_col
        } else {
            len
        };
    }
    assert(final(view).model() =~= up_spec(old(view).model()));
}

fn move_left(view: &mut View)
    requires
        cursor_in_buffer(old(view).model()),
    ensures
        final(view).model() == left_spec(old(view).model()),
        final(view).same_setting(old(view)),
{
    let ghost line = old(view).model().lines[view.cursor_y as int];
    if view.cursor_x > 0 {
        let jump = view.cursor_x >= 4 && four_spaces(view.bufvec[view.cursor_y].as_slice(), view.cursor_x - 4);
        assert(jump == spaces_before(line, view.cursor_x as int));
        view.cursor_x = view.cursor_x - if jump {
            4
        } else {
            1
        };
    } else if view.cursor_y > 0 {
        view.cursor_y = view.cursor_y - 1;
        view.cursor_x = view.bufvec[view.cursor_y].len();
    }
    view.working_col = view.cursor_x;
    assert(final(view).model() =~= left_spec(old(view).model()));
}

fn move_right(view: &mut View)
    requires
        cursor_in_buffer(old(view).model()),
    ensures
        final(view).model() == right_spec(old(view).model()),
        final(view).same_setting(old(view)),
{
    let ghost line = old(view).model().lines[view.cursor_y as int];
    let len = view.bufvec[view.cursor_y].len();
    if view.cursor_x < len {
        let jump = len - view.cursor_x >= 4 && four_spaces(view.bufvec[view.cursor_y].as_slice(), view.cursor_x);
        assert(jump == spaces_after(line, view.cursor_x as int));
        view.cursor_x = view.cursor_x + if jump {
            4
        } else {
            1
        };
    } else if view.bufvec.len() - view.cursor_y > 1 {
        view.cursor_y = view.cursor_y + 1;
        view.cursor_x = 0;
    }
    view.working_col = view.cursor_x;
    assert(final(view).model() =~= right_spec(old(view).model()));
}

fn backspace(view: &mut View)
    requires
        cursor_in_buffer(old(view).model()),
    ensures
        final(view).model() == backspace_spec(old(view).model()),
        final(view).same_setting(old(view)),
{
    let ghost m = old(view).model();
    let cy = view.cursor_y;
    let cx = view.cursor_x;
    let ghost line = m.lines[cy as int];
    let jump = cx >= 4 && four_spaces(view.bufvec[cy].as_slice(), cx - 4);
    assert(jump == spaces_before(line, cx as int));
    let step: usize = if jump {
        4
    } else {
        1
    };
    let moves = if step < cx {
        step
    } else {
        cx
    };
    if cx > 0 {
        let mut new_line = copy_range(view.bufvec[cy].as_slice(), 0, cx - moves);
        let len = view.bufvec[cy].len();
        push_range(&mut new_line, view.bufvec[cy].as_slice(), cx, len);
        assert(new_line@ =~= line.take(cx - moves) + line.skip(cx as int));
        view.bufvec.set(cy, new_line);
        view.cursor_x = cx - moves;
        mark_recompute(view, cy);
        assert(view.bufvec@.map_values(|v: Vec<char>| v@) =~= m.lines.update(
            cy as int,
            line.take(cx - moves) + line.skip(cx as int),
        ));
    } else if cy > 0 {
        let cur = view.bufvec.remove(cy);
        view.cursor_y = cy - 1;
        let prev_len = view.bufvec[cy - 1].len();
        let mut joined = copy_range(view.bufvec[cy - 1].as_slice(), 0, prev_len);
        push_range(&mut joined, cur.as_slice(), 0, cur.len());
        let ghost prev = m.lines[cy - 1];
        assert(joined@ =~= prev + line);
        view.bufvec.set(cy - 1, joined);
        view.cursor_x = prev_len;
        remove_cache_lines(view, cy, 1);
        mark_recompute(view, cy - 1);
        assert(view.bufvec@.map_values(|v: Vec<char>| v@) =~= m.lines.remove(cy as int).update(
            cy - 1,
            prev + line,
        ));
    }
    view.status.saved = false;
    view.status.selecting = false;
    assert(final(view).model() =~= backspace_spec(m));
}

fn delete_forward(view: &mut View)
    requires
        cursor_in_buffer(old(view).model()),
    ensures
        final(view).model() == delete_spec(old(view).model()),
        final(view).same_setting(old(view)),
{
    let ghost m = old(view).model();
    let cy = view.cursor_y;
    let cx = view.cursor_x;
    let ghost line = m.lines[cy as int];
    let len = view.bufvec[cy].len();
    if cx < len {
        let jump = len - cx >= 4 && four_spaces(view.bufvec[cy].as_slice(), cx);
        assert(jump == spaces_after(line, cx as int));
        let moves: usize = if jump {
            4
        } else {
            1
        };
        let mut new_line = copy_range(view.bufvec[cy].as_slice(), 0, cx);
        push_range(&mut new_line, view.bufvec[cy].as_slice(), cx + moves, len);
        assert(new_line@ =~= line.take(cx as int) + line.skip(cx + moves));
        view.bufvec.set(cy, new_line);
        mark_recompute(view, cy);
        assert(view.bufvec@.map_values(|v: Vec<char>| v@) =~= m.lines.update(
            cy as int,
            line.take(cx as int) + line.skip(cx + moves),
        ));
    } else if view.bufvec.len() - cy > 1 {
        let next = view.bufvec.remove(cy + 1);
        let mut joined = copy_range(view.bufvec[cy].as_slice(), 0, len);
        push_range(&mut joined, next.as_slice(), 0, next.len());
        let ghost nx = m.lines[cy + 1];
        assert(joined@ =~= line + nx);
        view.bufvec.set(cy, joined);
        remove_cache_lines(view, cy + 1, 1);
        mark_recompute(view, cy);
        assert(view.bufvec@.map_values(|v: Vec<char>| v@) =~= m.lines.remove(cy + 1).update(
            cy as int,
            line + nx,
        ));
    }
    view.status.saved = false;
    view.status.selecting = false;
    assert(final(view).model() =~= delete_spec(m));
}

/// Inserts `s` at the cursor and moves the cursor `adv` columns on.
fn put(view: &mut View, s: &[char], adv: usize)
    requires
        cursor_in_buffer(old(view).model()),
        adv <= s@.len(),
    ensures
        final(view).model() == put_spec(old(view).model(), s@, adv as int),
        final(view).same_setting(old(view)),
{
    let ghost m = old(view).model();
    let cy = view.cursor_y;
    let cx = view.cursor_x;
    let ghost line = m.lines[cy as int];
    let len = view.bufvec[cy].len();
    let mut new_line = copy_range(view.bufvec[cy].as_slice(), 0, cx);
    push_range(&mut new_line, s, 0, s.len());
    push_range(&mut new_line, view.bufvec[cy].as_slice(), cx, len);
    assert(new_line@ =~= line.take(cx as int) + s@ + line.skip(cx as int));
    let _new_len = new_line.len();
    view.bufvec.set(cy, new_line);
    view.cursor_x = cx + adv;
    mark_recompute(view, cy);
    assert(view.bufvec@.map_values(|v: Vec<char>| v@) =~= m.lines.update(
        cy as int,
        line.take(cx as int) + s@ + line.skip(cx as int),
    ));
    assert(final(view).model() =~= put_spec(m, s@, adv as int));
}

/// The cursor line replaced by `left` followed by the new line `a` (and
/// `b`, when given), with the cursor at column `x` of `a`.
pub open spec fn break_spec(m: Model, left: Seq<char>, a: Seq<char>, b: Option<Seq<char>>, x: int) -> Model {
    let cy = m.cursor_y;
    let m1 = insert_cache_spec(m, cy + 1, 1);
    match b {
        Some(b) => touched(
            Model {
                lines: m.lines.update(cy, left).insert(cy + 1, a).insert(cy + 2, b),
                cursor_y: cy + 1,
                cursor_x: x,
                recompute: min(m.recompute, cy),
                ..insert_cache_spec(m1, cy + 2, 1)
            },
        ),
        None => touched(
            Model {
                lines: m.lines.update(cy, left).insert(cy + 1, a),
                cursor_y: cy + 1,
                cursor_x: x,
                recompute: min(m.recompute, cy),
                ..m1
            },
        ),
    }
}

fn break_line(view: &mut View, left: Vec<char>, a: Vec<char>, b: Option<Vec<char>>, x: usize)
    requires
        cursor_in_buffer(old(view).model()),
    ensures
        final(view).model() == break_spec(
            old(view).model(),
            left@,
            a@,
            match b {
                Some(v) => Some(v@),
                None => None,
            },
            x as int,
        ),
        final(view).same_setting(old(view)),
{
    let ghost m = old(view).model();
    let ghost lv = left@;
    let ghost av = a@;
    let cy = view.cursor_y;
    let _n = view.bufvec.len();
    view.bufvec.set(cy, left);
    view.bufvec.insert(cy + 1, a);
    let ghost l1 = m.lines.update(cy as int, lv).insert(cy + 1, av);
    assert(view.bufvec@.map_values(|v: Vec<char>| v@) =~= l1);
    insert_cache_lines(view, cy + 1, 1);
    assert(view.bufvec@.map_values(|v: Vec<char>| v@) == l1);
    assert(view.bufvec@.len() == l1.len());
    let ghost bv: Option<Seq<char>> = None;
    match b {
        Some(bb) => {
            proof {
                bv = Some(bb@);
            }
            let ghost bs = bb@;
            let _n2 = view.bufvec.len();
            view.bufvec.insert(cy + 2, bb);
            assert(view.bufvec@.map_values(|v: Vec<char>| v@) =~= l1.insert(cy + 2, bs));
            insert_cache_lines(view, cy + 2, 1);
        },
        None => {
            assert(view.bufvec@.map_values(|v: Vec<char>| v@) =~= m.lines.update(cy as int, lv).insert(
                cy + 1,
                av,
            ));
        },
    }
    view.cursor_y = cy + 1;
    view.cursor_x = x;
    mark_recompute(view, cy);
    view.status.saved = false;
    view.status.selecting = false;
    assert(final(view).model() =~= break_spec(m, lv, av, bv, x as int));
}

fn newline(view: &mut View)
    requires
        cursor_in_buffer(old(view).model()),
    ensures
        final(view).model() == newline_spec(old(view).model()),
        final(view).same_setting(old(view)),
{
    let ghost m = old(view).model();
    let cy = view.cursor_y;
    let cx = view.cursor_x;
    let ghost line = m.lines[cy as int];
    let len = view.bufvec[cy].len();
    let left = copy_range(view.bufvec[cy].as_slice(), 0, cx);
    let right = copy_range(view.bufvec[cy].as_slice(), cx, len);
    assert(left@ =~= line.take(cx as int));
    assert(right@ =~= line.skip(cx as int));
    let k = indent_width(left.as_slice());
    let lead = copy_range(left.as_slice(), 0, k);
    assert(lead@ =~= indent_of(left@));
    let skip = leading_whitespace(right.as_slice());
    let ghost rest = trim_start(right@);
    if skip < right.len() && right[skip] == '}' {
        let mut inner = copy_range(lead.as_slice(), 0, k);
        let four = tab_spaces();
        push_slice(&mut inner, four.as_slice());
        assert(inner@ =~= lead@ + spaces(4));
        let inner_len = inner.len();
        let mut outer = copy_range(lead.as_slice(), 0, k);
        push_range(&mut outer, right.as_slice(), skip, right.len());
        assert(outer@ =~= lead@ + rest);
        break_line(view, left, inner, Some(outer), inner_len);
    } else {
        let mut next = copy_range(lead.as_slice(), 0, k);
        push_range(&mut next, right.as_slice(), 0, right.len());
        assert(next@ =~= lead@ + line.skip(cx as int));
        break_line(view, left, next, None, k);
    }
}

fn tab_spaces() -> (r: Vec<char>)
    ensures
        r@ == spaces(4),
{
    spaces_vec(4)
}

/// Applies a key press with no `C-x` prefix pending.
#[verifier::rlimit(40)]
fn plain_key(k: Key, view: &mut View)
    requires
        cursor_in_buffer(old(view).model()),
    ensures
        final(view).model() == plain_key_spec(old(view).model(), k),
        final(view).same_setting(old(view)),
{
    let ghost n = old(view).model();
    match k {
        Key::Ctrl('z') => {
            view.status.quit = true;
            view.status.save = true;
            assert(view.model() =~= plain_key_spec(n, k));
        },
        Key::Ctrl('x') => {
            view.status.ctrlx = true;
            assert(view.model() =~= plain_key_spec(n, k));
        },
        Key::Ctrl('n') | Key::Down => move_down(view),
        Key::Ctrl('p') | Key::Up => move_up(view),
        Key::Ctrl('b') | Key::Left => move_left(view),
        Key::Ctrl('f') | Key::Right => move_right(view),
        Key::Ctrl('a') => {
            view.cursor_x = 0;
            assert(view.model() =~= plain_key_spec(n, k));
        },
        Key::Ctrl('e') => {
            view.cursor_x = view.bufvec[view.cursor_y].len();
            assert(view.model() =~= plain_key_spec(n, k));
        },
        Key::Backspace => backspace(view),
        Key::Ctrl('d') => delete_forward(view),
        Key::Null | Key::Ctrl(' ') => {
            view.mark = view.trueloc();
            view.status.selecting = true;
            assert(view.model() =~= plain_key_spec(n, k));
        },
        Key::Ctrl('w') => {
            if view.status.selecting {
                let to = view.mark;
                buf_kill_lines(view, to);
                view.status.selecting = false;
            }
            view.status.saved = false;
            assert(view.model() =~= plain_key_spec(n, k));
        },
        Key::Ctrl('y') => {
            let text = copy_range(view.kill.as_slice(), 0, view.kill.len());
            assert(text@ =~= view.kill@);
            buf_insert_lines(view, text.as_slice());
            view.status.saved = false;
            assert(view.model() =~= plain_key_spec(n, k));
        },
        Key::Ctrl('k') => {
            let to = (view.bufvec[view.cursor_y].len(), view.cursor_y);
            buf_kill_lines(view, to);
            view.status.saved = false;
            assert(view.model() =~= plain_key_spec(n, k));
        },
        Key::Char('\n') | Key::Char('\r') => newline(view),
        Key::Char('\t') => {
            let sp = tab_spaces();
            put(view, sp.as_slice(), 4);
        },
        Key::Char('{') => {
            let mut br: Vec<char> = Vec::new();
            br.push('{');
            br.push('}');
            assert(br@ =~= seq!['{', '}']);
            put(view, br.as_slice(), 1);
            view.status.selecting = false;
            view.status.saved = false;
            assert(view.model() =~= plain_key_spec(n, k));
        },
        Key::Char(c) => {
            if !is_control_char(c) {
                let mut one: Vec<char> = Vec::new();
                one.push(c);
                assert(one@ =~= seq![c]);
                put(view, one.as_slice(), 1);
                view.status.saved = false;
                view.status.selecting = false;
                assert(view.model() =~= plain_key_spec(n, k));
            }
        },
        _ => {},
    }
}

/// Applies a key press that follows the `C-x` prefix.
fn prefixed_key(k: Key, view: &mut View)
    ensures
        final(view).model() == prefixed_key_spec(old(view).model(), k),
        final(view).same_setting(old(view)),
{
    let ghost n = old(view).model();
    match k {
        Key::Ctrl('c') => {
            view.status.ctrlx = false;
            view.status.quit = true;
        },
        Key::Ctrl('s') => {
            view.status.ctrlx = false;
            view.status.save = true;
        },
        Key::Char('x') => {
            view.status.forcequit = true;
            view.status.quit = true;
        },
        _ => {},
    }
    assert(view.model() =~= prefixed_key_spec(n, k));
}

/// Applies one key press to the editing state.
pub fn key(k: Key, view: &mut View)
    ensures
        final(view).model() == key_spec(old(view).model(), k),
        final(view).same_setting(old(view)),
{
    let ghost m = old(view).model();
    let ctrlx = view.status.ctrlx;
    normalize(view);
    if !ctrlx {
        plain_key(k, view);
    } else {
        prefixed_key(k, view);
    }
}

/// The numeric fields of a model that come from unsigned fields.
pub open spec fn nonneg(m: Model) -> bool {
    &&& m.cursor_x >= 0
    &&& m.cursor_y >= 0
    &&& m.working_col >= 0
    &&& m.mark.0 >= 0
    &&& m.mark.1 >= 0
}

proof fn lemma_kill_keeps_cursor(n: Model, to: (int, int))
    requires
        cursor_in_buffer(n),
        to.0 >= 0,
        to.1 >= 0,
    ensures
        cursor_in_buffer(kill_spec(n, to)),
{
    reveal(kill_spec);
    let (sx, sy, ex, ey) = kill_span(n, to);
    if !(sy == ey && sx == ex) {
        let l = n.lines;
        let r = kill_spec(n, to);
        assert(r.lines[sy] == l[sy].take(sx) + l[ey].skip(ex));
    }
}

proof fn lemma_insert_keeps_cursor(n: Model, text: Seq<char>)
    requires
        cursor_in_buffer(n),
    ensures
        cursor_in_buffer(insert_spec(n, text)),
{
    reveal(insert_spec);
    let ins = expand_tabs(text);
    if ins.len() > 0 {
        let s = settle_cursor_spec(n);
        assert(s == n);
        crate::lines::lemma_split_len(ins);
        let parts = split_lines(ins);
        let k = parts.len() as int;
        let r = insert_spec(n, text);
        if k > 1 {
            assert(r.lines[r.cursor_y] == parts[k - 1] + n.lines[n.cursor_y].skip(n.cursor_x));
        }
    }
}

proof fn lemma_backspace_keeps_cursor(n: Model)
    requires
        cursor_in_buffer(n),
    ensures
        cursor_in_buffer(backspace_spec(n)),
{
    let cy = n.cursor_y;
    if n.cursor_x == 0 && cy > 0 {
        let r = backspace_spec(n);
        assert(r.lines[cy - 1] == n.lines[cy - 1] + n.lines[cy]);
    }
}

proof fn lemma_delete_keeps_cursor(n: Model)
    requires
        cursor_in_buffer(n),
    ensures
        cursor_in_buffer(delete_spec(n)),
{
    let cy = n.cursor_y;
    let r = delete_spec(n);
    if n.cursor_x < n.lines[cy].len() {
        let line = n.lines[cy];
        if spaces_after(line, n.cursor_x) {
            assert(r.lines[cy] == line.take(n.cursor_x) + line.skip(n.cursor_x + 4));
        } else {
            assert(r.lines[cy] == line.take(n.cursor_x) + line.skip(n.cursor_x + 1));
        }
    } else if cy + 1 < n.lines.len() {
        assert(r.lines[cy] == n.lines[cy] + n.lines[cy + 1]);
    }
}

proof fn lemma_newline_keeps_cursor(n: Model)
    requires
        cursor_in_buffer(n),
    ensures
        cursor_in_buffer(newline_spec(n)),
{
    let cy = n.cursor_y;
    let line = n.lines[cy];
    let right = line.skip(n.cursor_x);
    let lead = indent_of(line.take(n.cursor_x));
    lemma_indent_len(line.take(n.cursor_x));
    let rest = trim_start(right);
    let r = newline_spec(n);
    if rest.len() > 0 && rest[0] == '}' {
        assert(r.lines[cy + 1] == lead + spaces(4));
    } else {
        assert(r.lines[cy + 1] == lead + right);
    }
}

proof fn lemma_put_keeps_cursor(n: Model, s: Seq<char>, adv: int)
    requires
        cursor_in_buffer(n),
        0 <= adv <= s.len(),
    ensures
        cursor_in_buffer(put_spec(n, s, adv)),
        cursor_in_buffer(touched(put_spec(n, s, adv))),
{
    let cy = n.cursor_y;
    let line = n.lines[cy];
    let x = n.cursor_x;
    assert(put_spec(n, s, adv).lines[cy] == line.take(x) + s + line.skip(x));
}

proof fn lemma_ctrl_keeps_cursor(n: Model, c: char)
    requires
        cursor_in_buffer(n),
        n.mark.0 >= 0,
        n.mark.1 >= 0,
        n.working_col >= 0,
    ensures
        cursor_in_buffer(ctrl_key_spec(n, c)),
{
    if c == 'w' {
        lemma_kill_keeps_cursor(n, n.mark);
    } else if c == 'y' {
        lemma_insert_keeps_cursor(n, n.kill);
    } else if c == 'k' {
        lemma_kill_keeps_cursor(n, (n.lines[n.cursor_y].len() as int, n.cursor_y));
    } else if c == 'd' {
        lemma_delete_keeps_cursor(n);
    }
}

proof fn lemma_char_keeps_cursor(n: Model, c: char)
    requires
        cursor_in_buffer(n),
    ensures
        cursor_in_buffer(char_key_spec(n, c)),
{
    if c == '\n' || c == '\r' {
        lemma_newline_keeps_cursor(n);
    } else if c == '\t' {
        lemma_put_keeps_cursor(n, spaces(4), 4);
    } else if c == '{' {
        lemma_put_keeps_cursor(n, seq!['{', '}'], 1);
    } else {
        lemma_put_keeps_cursor(n, seq![c], 1);
    }
}

proof fn lemma_plain_keeps_cursor(n: Model, k: Key)
    requires
        cursor_in_buffer(n),
        n.mark.0 >= 0,
        n.mark.1 >= 0,
        n.working_col >= 0,
    ensures
        cursor_in_buffer(plain_key_spec(n, k)),
{
    match k {
        Key::Ctrl(c) => lemma_ctrl_keeps_cursor(n, c),
        Key::Char(c) => lemma_char_keeps_cursor(n, c),
        Key::Backspace => lemma_backspace_keeps_cursor(n),
        _ => {},
    }
}

/// After any key press the buffer is non-empty and the cursor lies in it.
pub proof fn lemma_key_keeps_cursor_in_buffer(m: Model, k: Key)
    requires
        nonneg(m),
    ensures
        cursor_in_buffer(key_spec(m, k)),
{
    let n = normalize_spec(m);
    if !m.status.ctrlx {
        lemma_plain_keeps_cursor(n, k);
    }
}

/// Cursor motions and setting the mark never change the buffer's text.
pub proof fn lemma_motion_keeps_text(m: Model, k: Key)
    requires
        nonneg(m),
        k == Key::Up || k == Key::Down || k == Key::Left || k == Key::Right || k == Key::Null
            || k == Key::Ctrl('a') || k == Key::Ctrl('e') || k == Key::Ctrl('n') || k == Key::Ctrl('p')
            || k == Key::Ctrl('b') || k == Key::Ctrl('f') || k == Key::Ctrl(' '),
    ensures
        key_spec(m, k).lines == normalize_spec(m).lines,
        key_spec(m, k).kill == m.kill,
{
}

/// Typing a printable character other than a space, then backspace, leaves
/// the text as it was (after the buffer is made non-empty).
pub proof fn lemma_type_then_backspace(m: Model, c: char)
    requires
        nonneg(m),
        !m.status.ctrlx,
        !is_control(c),
        c != ' ',
        c != '{',
    ensures
        key_spec(key_spec(m, Key::Char(c)), Key::Backspace).lines == normalize_spec(m).lines,
{
    let n = normalize_spec(m);
    let t = key_spec(m, Key::Char(c));
    let cy = n.cursor_y;
    let x = n.cursor_x;
    let line = n.lines[cy];
    let line2 = line.take(x) + seq![c] + line.skip(x);
    assert(t.lines == n.lines.update(cy, line2));
    assert(normalize_spec(t) == t);
    assert(!spaces_before(line2, x + 1)) by {
        if spaces_before(line2, x + 1) {
            assert(line2.subrange(x - 3, x + 1)[3] == line2[x]);
        }
    }
    assert(line2.take(x) + line2.skip(x + 1) =~= line);
    assert(n.lines.update(cy, line2).update(cy, line) =~= n.lines);
}

/// Typing a tab, then backspace, leaves the text as it was (after the buffer
/// is made non-empty).
pub proof fn lemma_tab_then_backspace(m: Model)
    requires
        nonneg(m),
        !m.status.ctrlx,
    ensures
        key_spec(key_spec(m, Key::Char('\t')), Key::Backspace).lines == normalize_spec(m).lines,
{
    let n = normalize_spec(m);
    let t = key_spec(m, Key::Char('\t'));
    let cy = n.cursor_y;
    let x = n.cursor_x;
    let line = n.lines[cy];
    let line2 = line.take(x) + spaces(4) + line.skip(x);
    assert(t.lines == n.lines.update(cy, line2));
    assert(normalize_spec(t) == t);
    assert(line2.subrange(x, x + 4) =~= spaces(4));
    assert(spaces_before(line2, x + 4));
    assert(line2.take(x) + line2.skip(x + 4) =~= line);
    assert(n.lines.update(cy, line2).update(cy, line) =~= n.lines);
}

/// After the `C-x` prefix, no key changes the buffer's text.
pub proof fn lemma_prefixed_keys_keep_text(m: Model, k: Key)
    requires
        m.status.ctrlx,
    ensures
        key_spec(m, k).lines == normalize_spec(m).lines,
{
}

/// Breaking a line keeps its indentation: the new line starts with the
/// whole leading whitespace of the text before the cursor, and the cursor
/// goes past it.
pub proof fn lemma_newline_keeps_indent(m: Model)
    requires
        nonneg(m),
        !m.status.ctrlx,
    ensures
        ({
            let n = normalize_spec(m);
            let lead = indent_of(n.lines[n.cursor_y].take(n.cursor_x));
            let r = key_spec(m, Key::Char('\n'));
            &&& r.cursor_y == n.cursor_y + 1
            &&& r.cursor_y < r.lines.len()
            &&& r.lines[r.cursor_y].take(lead.len() as int) == lead
            &&& r.cursor_x >= lead.len()
        }),
{
    lemma_key_keeps_cursor_in_buffer(m, Key::Other);
    let n = normalize_spec(m);
    let cy = n.cursor_y;
    let line = n.lines[cy];
    let left = line.take(n.cursor_x);
    let right = line.skip(n.cursor_x);
    lemma_indent_len(left);
    let lead = indent_of(left);
    let rest = trim_start(right);
    let r = key_spec(m, Key::Char('\n'));
    if rest.len() > 0 && rest[0] == '}' {
        assert(r.lines[cy + 1] == lead + spaces(4));
        assert((lead + spaces(4)).take(lead.len() as int) =~= lead);
    } else {
        assert(r.lines[cy + 1] == lead + right);
        assert((lead + right).take(lead.len() as int) =~= lead);
    }
}

/// Typing an opening brace also puts the closing one right after the
/// cursor, which ends between the two.
pub proof fn lemma_brace_completion(m: Model)
    requires
        nonneg(m),
        !m.status.ctrlx,
    ensures
        ({
            let n = normalize_spec(m);
            let line = n.lines[n.cursor_y];
            let r = key_spec(m, Key::Char('{'));
            &&& r.lines == n.lines.update(
                n.cursor_y,
                line.take(n.cursor_x) + seq!['{', '}'] + line.skip(n.cursor_x),
            )
            &&& r.cursor_x == n.cursor_x + 1
            &&& r.cursor_y == n.cursor_y
        }),
{
}

} // verus!