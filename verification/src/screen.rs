use vstd::prelude::*;

use crate::cache::sat_sub;
use crate::color::{decimal, push_number};
use crate::editor::{max, min, Model, Run, View};
use crate::hl::{render_line_segment, segment_output, Theme};
use crate::text::{chars_of, push_range, push_slice};
use vstd::view::View as _;

verus! {

/// The scroll offsets `(offset, offcol)` that bring the cursor on screen:
/// the text rows are all rows but the status line, and the view scrolls
/// just as far as needed.
pub open spec fn clamp_spec(cx: int, cy: int, offset: int, offcol: int, w: int, h: int) -> (int, int) {
    let text_h = sat_sub(h, 1);
    let o1 = if cy < offset {
        cy
    } else {
        offset
    };
    let o2 = if text_h > 0 && cy >= o1 + text_h {
        cy + 1 - text_h
    } else {
        o1
    };
    let c1 = if cx < offcol {
        cx
    } else {
        offcol
    };
    let c2 = if cx >= c1 + w {
        cx + 1 - w
    } else {
        c1
    };
    (o2, c2)
}

/// Scrolls the view so that the cursor is on screen.
pub fn clamp(view: &mut View)
    requires
        old(view).terminal_w > 0 || old(view).cursor_x < usize::MAX,
    ensures
        (final(view).offset as int, final(view).offcol as int) == clamp_spec(
            old(view).cursor_x as int,
            old(view).cursor_y as int,
            old(view).offset as int,
            old(view).offcol as int,
            old(view).terminal_w as int,
            old(view).terminal_h as int,
        ),
        final(view).model() == (Model {
            offset: final(view).offset as int,
            offcol: final(view).offcol as int,
            ..old(view).model()
        }),
        final(view).same_setting(old(view)),
        final(view).offset <= final(view).cursor_y,
        old(view).terminal_h > 1 ==> final(view).cursor_y < final(view).offset + old(view).terminal_h - 1,
        final(view).offcol <= final(view).cursor_x || old(view).terminal_w == 0,
        final(view).cursor_x < final(view).offcol + old(view).terminal_w,
{
    let text_h = if view.terminal_h >= 1 {
        view.terminal_h - 1
    } else {
        0
    };
    if view.cursor_y < view.offset {
        view.offset = view.cursor_y;
    }
    if text_h > 0 && view.cursor_y - view.offset >= text_h {
        view.offset = view.cursor_y - (text_h - 1);
    }
    if view.cursor_x < view.offcol {
        view.offcol = view.cursor_x;
    }
    if view.cursor_x - view.offcol >= view.terminal_w {
        if view.terminal_w > 0 {
            view.offcol = view.cursor_x - (view.terminal_w - 1);
        } else {
            view.offcol = view.cursor_x + 1;
        }
    }
    assert(final(view).model() =~= Model {
        offset: final(view).offset as int,
        offcol: final(view).offcol as int,
        ..old(view).model()
    });
}

/// Scrolling twice changes nothing more: offsets that show the cursor stay.
pub proof fn lemma_clamp_idempotent(cx: int, cy: int, offset: int, offcol: int, w: int, h: int)
    requires
        0 <= cx,
        0 <= cy,
        0 <= offset,
        0 <= offcol,
        0 <= w,
        0 <= h,
    ensures
        ({
            let (o, c) = clamp_spec(cx, cy, offset, offcol, w, h);
            clamp_spec(cx, cy, o, c, w, h) == (o, c)
        }),
{
}

/// The escape that moves the terminal cursor to row `row1`, column `col1`
/// (both counted from 1).
pub open spec fn goto_spec(row1: u16, col1: u16) -> Seq<char> {
    seq!['\x1b', '['] + decimal(row1 as nat) + seq![';'] + decimal(col1 as nat) + seq!['H']
}

/// The escape that moves the terminal cursor to row `row1`, column `col1`.
pub fn goto(row1: u16, col1: u16) -> (r: Vec<char>)
    ensures
        r@ == goto_spec(row1, col1),
{
    let mut out: Vec<char> = Vec::new();
    out.push('\x1b');
    out.push('[');
    push_number(&mut out, row1 as u64);
    out.push(';');
    push_number(&mut out, col1 as u64);
    out.push('H');
    assert(out@ =~= goto_spec(row1, col1));
    out
}

/// The escape that hides the terminal cursor.
pub open spec fn cursor_hide() -> Seq<char> {
    "\x1b[?25l"@
}

/// The escape that shows the terminal cursor.
pub open spec fn cursor_show() -> Seq<char> {
    "\x1b[?25h"@
}

/// The escape that starts inverse video.
pub open spec fn invert_on() -> Seq<char> {
    "\x1b[7m"@
}

/// The escape that ends inverse video.
pub open spec fn invert_off() -> Seq<char> {
    "\x1b[27m"@
}

/// `n` spaces.
pub open spec fn blanks(n: int) -> Seq<char> {
    Seq::new(n as nat, |i: int| ' ')
}

/// The selected span as `(start column, start line, end column, end line)`,
/// the earlier of cursor and mark first (all zero when nothing is selected).
pub open spec fn selection(v: &View) -> (int, int, int, int) {
    let cx = v.cursor_x as int;
    let cy = v.cursor_y as int;
    let mx = v.mark.0 as int;
    let my = v.mark.1 as int;
    if !v.status.selecting {
        (0, 0, 0, 0)
    } else if cy < my || (cy == my && cx <= mx) {
        (cx, cy, mx, my)
    } else {
        (mx, my, cx, cy)
    }
}

/// The scope runs cached for line `i` (none when there is no entry).
pub open spec fn line_runs(v: &View, i: int) -> Seq<Run> {
    if i < v.line_hl@.len() {
        v.line_hl@[i]@
    } else {
        Seq::empty()
    }
}

/// The background of buffer line `i`: the active one on the cursor line.
pub open spec fn row_bg(v: &View, theme: &Theme, i: int) -> Seq<char> {
    if i == v.cursor_y {
        theme.bg_active@
    } else {
        theme.bg_default@
    }
}

/// What fills a row after `vw` visible columns of text.
pub open spec fn padding(v: &View, theme: &Theme, i: int, vw: int) -> Seq<char> {
    if vw < v.terminal_w {
        row_bg(v, theme, i) + blanks(v.terminal_w - vw)
    } else {
        Seq::empty()
    }
}

/// The visible columns `(start, end)` of a line of length `len`.
pub open spec fn line_span(v: &View, len: int) -> (int, int) {
    (min(v.offcol as int, len), min(v.offcol + v.terminal_w, len))
}

/// The visible selected columns of buffer line `i` (of length `len`, its
/// visible columns `start..end`), when the selection shows on it.
pub open spec fn sel_cols(v: &View, i: int, len: int, start: int, end: int) -> Option<(int, int)> {
    let (sx, sy, ex, ey) = selection(v);
    let vs = max(
        if i == sy {
            sx
        } else {
            0
        },
        start,
    );
    let ve = min(
        if i == ey {
            ex
        } else {
            len
        },
        end,
    );
    if v.status.selecting && (i > sy || (i == sy && sx < len)) && (i < ey || (i == ey && ex > 0))
        && vs < ve {
        Some((vs, ve))
    } else {
        None
    }
}

/// The rendering of the visible columns of buffer line `i`, with its
/// selected part in inverse video, padded to the terminal width.
pub open spec fn line_out(v: &View, theme: &Theme, i: int) -> Seq<char> {
    let line = v.bufvec@[i]@;
    let runs = line_runs(v, i);
    let (start, end) = line_span(v, line.len() as int);
    let pad = padding(v, theme, i, end - start);
    let bg = row_bg(v, theme, i);
    match sel_cols(v, i, line.len() as int, start, end) {
        Some((vs, ve)) => segment_output(theme, line, runs, start, vs, bg) + invert_on()
            + segment_output(theme, line, runs, vs, ve, bg) + invert_off() + bg + theme.fg_source@
            + segment_output(theme, line, runs, ve, end, bg) + pad,
        None => segment_output(theme, line, runs, start, end, bg) + pad,
    }
}

/// Screen row `n` (from 0): it shows buffer line `n + offset`, or blanks
/// past the end of the buffer.
pub open spec fn row_out(v: &View, theme: &Theme, n: int) -> Seq<char> {
    let i = n + v.offset;
    goto_spec((n + 1) as u16, 1) + row_bg(v, theme, i) + theme.fg_source@ + if i >= v.bufvec@.len() {
        blanks(v.terminal_w as int)
    } else {
        line_out(v, theme, i)
    }
}

/// The first `n` screen rows.
pub open spec fn rows_out(v: &View, theme: &Theme, n: int) -> Seq<char>
    decreases n,
{
    if n <= 0 {
        Seq::empty()
    } else {
        rows_out(v, theme, n - 1) + row_out(v, theme, n - 1)
    }
}

/// The whole screen: the text rows, the status line cut or padded to the
/// terminal width, and the terminal cursor placed on the cursor.
pub open spec fn frame_spec(v: &View, theme: &Theme) -> Seq<char> {
    let w = v.terminal_w as int;
    let e = v.endline@;
    cursor_hide() + goto_spec(1, 1) + theme.bg_default@ + theme.fg_source@ + rows_out(
        v,
        theme,
        sat_sub(v.terminal_h as int, 1),
    ) + goto_spec(v.terminal_h as u16, 1) + theme.bg_default@ + theme.fg_source@ + e.take(
        min(e.len() as int, w),
    ) + (if e.len() < w {
        blanks(w - e.len())
    } else {
        Seq::empty()
    }) + cursor_show() + goto_spec(
        (sat_sub(v.cursor_y as int, v.offset as int) + 1) as u16,
        (sat_sub(v.cursor_x as int, v.offcol as int) + 1) as u16,
    )
}

/// A line strictly inside the selection is selected across all its
/// visible columns: they are rendered in inverse video.
pub proof fn lemma_middle_line_selected(v: &View, theme: &Theme, i: int)
    requires
        v.status.selecting,
        0 <= i < v.bufvec@.len(),
        selection(v).1 < i < selection(v).3,
        line_span(v, v.bufvec@[i]@.len() as int).0 < line_span(v, v.bufvec@[i]@.len() as int).1,
    ensures
        ({
            let line = v.bufvec@[i]@;
            let (start, end) = line_span(v, line.len() as int);
            let bg = row_bg(v, theme, i);
            line_out(v, theme, i) == invert_on() + segment_output(theme, line, line_runs(v, i), start, end, bg)
                + invert_off() + bg + theme.fg_source@ + padding(v, theme, i, end - start)
        }),
{
    let line = v.bufvec@[i]@;
    let (start, end) = line_span(v, line.len() as int);
    let bg = row_bg(v, theme, i);
    let runs = line_runs(v, i);
    assert(sel_cols(v, i, line.len() as int, start, end) == Some((start, end)));
    assert(segment_output(theme, line, runs, start, start, bg) =~= Seq::<char>::empty());
    assert(segment_output(theme, line, runs, end, end, bg) =~= Seq::<char>::empty());
    assert(line_out(v, theme, i) =~= invert_on() + segment_output(theme, line, runs, start, end, bg) + invert_off()
        + bg + theme.fg_source@ + padding(v, theme, i, end - start));
}

/// The last line of a selection that starts on an earlier line is selected
/// from its first visible column up to the selection's end column.
pub proof fn lemma_last_line_selected(v: &View, theme: &Theme, i: int)
    requires
        v.status.selecting,
        0 <= i < v.bufvec@.len(),
        selection(v).1 < i == selection(v).3,
        ({
            let (start, end) = line_span(v, v.bufvec@[i]@.len() as int);
            start < min(selection(v).2, end)
        }),
    ensures
        ({
            let line = v.bufvec@[i]@;
            let (start, end) = line_span(v, line.len() as int);
            let ve = min(selection(v).2, end);
            let bg = row_bg(v, theme, i);
            let runs = line_runs(v, i);
            line_out(v, theme, i) == invert_on() + segment_output(theme, line, runs, start, ve, bg)
                + invert_off() + bg + theme.fg_source@ + segment_output(theme, line, runs, ve, end, bg)
                + padding(v, theme, i, end - start)
        }),
{
    let line = v.bufvec@[i]@;
    let (start, end) = line_span(v, line.len() as int);
    let ve = min(selection(v).2, end);
    let bg = row_bg(v, theme, i);
    let runs = line_runs(v, i);
    assert(sel_cols(v, i, line.len() as int, start, end) == Some((start, ve)));
    assert(segment_output(theme, line, runs, start, start, bg) =~= Seq::<char>::empty());
    assert(line_out(v, theme, i) =~= invert_on() + segment_output(theme, line, runs, start, ve, bg) + invert_off()
        + bg + theme.fg_source@ + segment_output(theme, line, runs, ve, end, bg) + padding(v, theme, i, end - start));
}

fn push_blanks(out: &mut Vec<char>, n: usize)
    ensures
        final(out)@ == old(out)@ + blanks(n as int),
{
    let mut k: usize = 0;
    while k < n
        invariant
            k <= n,
            out@ == old(out)@ + blanks(k as int),
        decreases n - k,
    {
        out.push(' ');
        k = k + 1;
        assert(out@ =~= old(out)@ + blanks(k as int));
    }
}

fn push_padding(screen: &mut Vec<char>, view: &View, theme: &Theme, i: usize, vw: usize)
    ensures
        final(screen)@ == old(screen)@ + padding(view, theme, i as int, vw as int),
{
    if vw < view.terminal_w {
        let bg = if i == view.cursor_y {
            theme.bg_active.as_slice()
        } else {
            theme.bg_default.as_slice()
        };
        push_slice(screen, bg);
        push_blanks(screen, view.terminal_w - vw);
    }
    assert(final(screen)@ =~= old(screen)@ + padding(view, theme, i as int, vw as int));
}

fn selected_cols(view: &View, i: usize, len: usize, start: usize, end: usize) -> (r: Option<(usize, usize)>)
    requires
        start <= end <= len,
    ensures
        match r {
            Some((vs, ve)) => sel_cols(view, i as int, len as int, start as int, end as int) == Some(
                (vs as int, ve as int),
            ) && start <= vs < ve <= end,
            None => sel_cols(view, i as int, len as int, start as int, end as int) is None,
        },
{
    let cx = view.cursor_x;
    let cy = view.cursor_y;
    let mx = view.mark.0;
    let my = view.mark.1;
    let (sx, sy, ex, ey) = if !view.status.selecting {
        (0usize, 0usize, 0usize, 0usize)
    } else if cy < my || (cy == my && cx <= mx) {
        (cx, cy, mx, my)
    } else {
        (mx, my, cx, cy)
    };
    if view.status.selecting && (i > sy || (i == sy && sx < len)) && (i < ey || (i == ey && ex
        > 0)) {
        let ls = if i == sy {
            sx
        } else {
            0
        };
        let le = if i == ey {
            ex
        } else {
            len
        };
        let vs = if ls > start {
            ls
        } else {
            start
        };
        let ve = if le < end {
            le
        } else {
            end
        };
        if vs < ve {
            return Some((vs, ve));
        }
    }
    None
}

fn push_selected(
    screen: &mut Vec<char>,
    line: &[char],
    runs: &[Run],
    start: usize,
    vs: usize,
    ve: usize,
    end: usize,
    bg: &[char],
    theme: &Theme,
)
    requires
        start <= vs < ve <= end <= line@.len(),
    ensures
        final(screen)@ == old(screen)@ + (segment_output(theme, line@, runs@, start as int, vs as int, bg@)
            + invert_on() + segment_output(theme, line@, runs@, vs as int, ve as int, bg@) + invert_off()
            + bg@ + theme.fg_source@ + segment_output(theme, line@, runs@, ve as int, end as int, bg@)),
{
    let ghost s0 = screen@;
    render_line_segment(screen, line, runs, start, vs, bg, theme);
    let on = chars_of("\x1b[7m");
    push_slice(screen, on.as_slice());
    render_line_segment(screen, line, runs, vs, ve, bg, theme);
    let off = chars_of("\x1b[27m");
    push_slice(screen, off.as_slice());
    push_slice(screen, bg);
    push_slice(screen, theme.fg_source.as_slice());
    render_line_segment(screen, line, runs, ve, end, bg, theme);
    assert(screen@ =~= s0 + (segment_output(theme, line@, runs@, start as int, vs as int, bg@)
            + invert_on() + segment_output(theme, line@, runs@, vs as int, ve as int, bg@) + invert_off()
            + bg@ + theme.fg_source@ + segment_output(theme, line@, runs@, ve as int, end as int, bg@)));
}

fn push_line(screen: &mut Vec<char>, view: &View, theme: &Theme, i: usize)
    requires
        i < view.bufvec@.len(),
    ensures
        final(screen)@ == old(screen)@ + line_out(view, theme, i as int),
{
    let line = view.bufvec[i].as_slice();
    let empty: Vec<Run> = Vec::new();
    let runs: &[Run] = if i < view.line_hl.len() {
        view.line_hl[i].as_slice()
    } else {
        empty.as_slice()
    };
    assert(runs@ == line_runs(view, i as int));
    let len = line.len();
    let w = view.terminal_w;
    let start = if view.offcol < len {
        view.offcol
    } else {
        len
    };
    let end = if view.offcol >= len || w >= len - view.offcol {
        len
    } else {
        view.offcol + w
    };
    assert((start as int, end as int) == line_span(view, len as int));
    let bg = if i == view.cursor_y {
        theme.bg_active.as_slice()
    } else {
        theme.bg_default.as_slice()
    };
    let ghost seg = |a: int, b: int| segment_output(theme, line@, runs@, a, b, bg@);
    let ghost pad = padding(view, theme, i as int, end - start);
    match selected_cols(view, i, len, start, end) {
        Some((vs, ve)) => {
            push_selected(screen, line, runs, start, vs, ve, end, bg, theme);
            push_padding(screen, view, theme, i, end - start);
            assert(final(screen)@ =~= old(screen)@ + (seg(start as int, vs as int) + invert_on() + seg(
                vs as int,
                ve as int,
            ) + invert_off() + bg@ + theme.fg_source@ + seg(ve as int, end as int) + pad));
        },
        None => {
            render_line_segment(screen, line, runs, start, end, bg, theme);
            push_padding(screen, view, theme, i, end - start);
            assert(final(screen)@ =~= old(screen)@ + (seg(start as int, end as int) + pad));
        },
    }
}

fn push_row(screen: &mut Vec<char>, view: &View, theme: &Theme, n: usize)
    requires
        n < usize::MAX,
    ensures
        final(screen)@ == old(screen)@ + row_out(view, theme, n as int),
{
    let g = goto((n + 1) as u16, 1);
    push_slice(screen, g.as_slice());
    let past = view.offset > usize::MAX - n;
    let on_cursor = !past && n + view.offset == view.cursor_y;
    let bg = if on_cursor {
        theme.bg_active.as_slice()
    } else {
        theme.bg_default.as_slice()
    };
    push_slice(screen, bg);
    push_slice(screen, theme.fg_source.as_slice());
    let bl = view.bufvec.len();
    if past || n + view.offset >= bl {
        assert(n + view.offset >= view.bufvec@.len());
        push_blanks(screen, view.terminal_w);
    } else {
        push_line(screen, view, theme, n + view.offset);
    }
    assert(g@ == goto_spec((n + 1) as u16, 1));
    assert(bg@ == row_bg(view, theme, n + view.offset));
    assert(final(screen)@ =~= old(screen)@ + row_out(view, theme, n as int));
}

/// Composes the whole screen for the view (see `frame_spec`).
pub fn frame(view: &View, theme: &Theme) -> (screen: Vec<char>)
    requires
        sat_sub(view.cursor_y as int, view.offset as int) < usize::MAX,
        sat_sub(view.cursor_x as int, view.offcol as int) < usize::MAX,
    ensures
        screen@ == frame_spec(view, theme),
{
    let mut screen: Vec<char> = Vec::new();
    let hide = chars_of("\x1b[?25l");
    push_slice(&mut screen, hide.as_slice());
    let home = goto(1, 1);
    push_slice(&mut screen, home.as_slice());
    push_slice(&mut screen, theme.bg_default.as_slice());
    push_slice(&mut screen, theme.fg_source.as_slice());
    let ghost head = screen@;
    let rrows = if view.terminal_h >= 1 {
        view.terminal_h - 1
    } else {
        0
    };
    let mut n: usize = 0;
    while n < rrows
        invariant
            n <= rrows,
            rrows == sat_sub(view.terminal_h as int, 1),
            screen@ == head + rows_out(view, theme, n as int),
        decreases rrows - n,
    {
        push_row(&mut screen, view, theme, n);
        n = n + 1;
        assert(screen@ =~= head + rows_out(view, theme, n as int));
    }
    let last = goto(view.terminal_h as u16, 1);
    push_slice(&mut screen, last.as_slice());
    push_slice(&mut screen, theme.bg_default.as_slice());
    push_slice(&mut screen, theme.fg_source.as_slice());
    let w = view.terminal_w;
    let el = view.endline.len();
    let shown = if el < w {
        el
    } else {
        w
    };
    push_range(&mut screen, view.endline.as_slice(), 0, shown);
    assert(view.endline@.subrange(0, shown as int) =~= view.endline@.take(shown as int));
    if el < w {
        push_blanks(&mut screen, w - el);
    }
    let show = chars_of("\x1b[?25h");
    push_slice(&mut screen, show.as_slice());
    let dy = if view.cursor_y >= view.offset {
        view.cursor_y - view.offset
    } else {
        0
    };
    let dx = if view.cursor_x >= view.offcol {
        view.cursor_x - view.offcol
    } else {
        0
    };
    let place = goto((dy + 1) as u16, (dx + 1) as u16);
    push_slice(&mut screen, place.as_slice());
    assert(screen@ =~= frame_spec(view, theme));
    screen
}

} // verus!
