use vstd::prelude::*;

use crate::cache::{reparse_dirty, reparse_ends, reparse_spec, status_line, update_scope_status, HlCache};
use crate::color::{decimal, push_number};
use crate::editor::{max, Model, Run, Status, View};
use crate::invariants::lemma_key_keeps_cache_below;
use crate::keys::{key, key_spec, Key};
use crate::regex::string_of;
use crate::screen::{clamp, clamp_spec};
use crate::stack::{root_frame, Stack};
use crate::syntax::Grammar;
use crate::text::{chars_of, push_slice};
use vstd::view::View as _;

verus! {

broadcast use vstd::string::group_string_axioms;

/// The status line shown once a file is loaded: `Loaded <n>L of <name>`.
pub open spec fn loaded_message(n: nat, name: Seq<char>) -> Seq<char> {
    "Loaded "@ + decimal(n) + "L of "@ + name
}

/// The name of a syntax, `Plaintext` without one.
pub open spec fn syntax_name(g: &Grammar, syntax: Option<u16>) -> Seq<char> {
    match syntax {
        Some(k) => g.syntaxes@[k as int].name@,
        None => "Plaintext"@,
    }
}

/// The flags a session starts with: the buffer counts as saved.
pub open spec fn fresh_status() -> Status {
    Status { saved: true, quit: false, ctrlx: false, save: false, forcequit: false, selecting: false }
}

/// A view on freshly loaded lines: the cursor and the view at the top left,
/// every line starting on the empty stack and still to highlight, and the
/// status line saying what was loaded.
pub fn open_view(g: &Grammar, lines: Vec<Vec<char>>, syntax: Option<u16>, w: usize, h: usize) -> (v: View)
    requires
        g.wf(),
        syntax matches Some(k) ==> (k as int) < g.syntaxes@.len(),
    ensures
        v.hl_ready(g),
        v.bufvec@ == lines@,
        v.syntax == syntax,
        v.stack@ == seq![root_frame()],
        v.hlcache@ == Seq::new(lines@.len(), |i: int| 0usize),
        v.line_hl@.len() == max(lines@.len() as int, 1),
        forall|i: int| 0 <= i < v.line_hl@.len() ==> (#[trigger] v.line_hl@[i])@ == Seq::<Run>::empty(),
        v.recompute == 0,
        v.cursor_x == 0,
        v.cursor_y == 0,
        v.working_col == 0,
        v.offset == 0,
        v.offcol == 0,
        v.mark == (0usize, 0usize),
        v.terminal_w == w,
        v.terminal_h == h,
        v.endline@ == loaded_message(lines@.len(), syntax_name(g, syntax)),
        v.kill@ == Seq::<char>::empty(),
        v.status == fresh_status(),
{
    let stack = Stack::new();
    let n = lines.len();
    let mut hlcache: Vec<usize> = Vec::new();
    let mut i: usize = 0;
    while i < n
        invariant
            i <= n,
            hlcache@ == Seq::new(i as nat, |j: int| 0usize),
        decreases n - i,
    {
        hlcache.push(stack.empty());
        i = i + 1;
        assert(hlcache@ =~= Seq::new(i as nat, |j: int| 0usize));
    }
    let target = if n > 1 {
        n
    } else {
        1
    };
    let mut line_hl: Vec<Vec<Run>> = Vec::new();
    let mut j: usize = 0;
    while j < target
        invariant
            j <= target,
            line_hl@.len() == j,
            forall|x: int| 0 <= x < j ==> (#[trigger] line_hl@[x])@ == Seq::<Run>::empty(),
        decreases target - j,
    {
        line_hl.push(Vec::new());
        j = j + 1;
    }
    let mut endline = chars_of("Loaded ");
    assert(usize::MAX <= u64::MAX);
    push_number(&mut endline, n as u64);
    let mid = chars_of("L of ");
    push_slice(&mut endline, mid.as_slice());
    match syntax {
        Some(k) => {
            let name = chars_of(g.get_syntax_info(k).name.as_str());
            push_slice(&mut endline, name.as_slice());
        },
        None => {
            let name = chars_of("Plaintext");
            push_slice(&mut endline, name.as_slice());
        },
    }
    assert(endline@ =~= loaded_message(n as nat, syntax_name(g, syntax)));
    View {
        working_col: 0,
        bufvec: lines,
        hlcache,
        line_hl,
        stack,
        syntax,
        recompute: 0,
        cursor_x: 0,
        cursor_y: 0,
        offset: 0,
        offcol: 0,
        terminal_w: w,
        terminal_h: h,
        mark: (0, 0),
        endline,
        kill: Vec::new(),
        status: Status {
            saved: true,
            quit: false,
            ctrlx: false,
            save: false,
            forcequit: false,
            selecting: false,
        },
    }
}

/// The scroll offsets after a key press: those that bring the cursor on
/// screen, unless the terminal is zero columns wide and the cursor sits at
/// the last representable column.
pub open spec fn scrolled(m: Model, w: int, h: int) -> (int, int) {
    if w > 0 || m.cursor_x < usize::MAX {
        clamp_spec(m.cursor_x, m.cursor_y, m.offset, m.offcol, w, h)
    } else {
        (m.offset, m.offcol)
    }
}

/// Handles one key press on a terminal of `w` columns and `h` rows: applies
/// the key, scrolls the cursor on screen and re-highlights the dirty lines;
/// returns the scope under the cursor. The lines it highlights must be
/// highlighted to their ends (see `reparse_ends`).
pub fn on_key(view: &mut View, g: &Grammar, k: Key, w: usize, h: usize) -> (scope: String)
    requires
        old(view).hl_ready(g),
        ({
            let m1 = key_spec(old(view).model(), k);
            let (o, c) = scrolled(m1, w as int, h as int);
            reparse_ends(
                g,
                m1.lines,
                old(view).syntax,
                m1.cursor_x,
                m1.cursor_y,
                o,
                h as int,
                m1.recompute,
                HlCache { hlcache: m1.hlcache, line_hl: m1.line_hl, frames: old(view).stack@ },
            )
        }),
    ensures
        final(view).hl_ready(g),
        ({
            let m1 = key_spec(old(view).model(), k);
            let (o, c) = scrolled(m1, w as int, h as int);
            let c0 = HlCache { hlcache: m1.hlcache, line_hl: m1.line_hl, frames: old(view).stack@ };
            let (c2, rc, sc) = reparse_spec(
                g,
                m1.lines,
                old(view).syntax,
                m1.cursor_x,
                m1.cursor_y,
                o,
                h as int,
                m1.recompute,
                c0,
            );
            &&& final(view).model() == Model {
                offset: o,
                offcol: c,
                recompute: rc,
                hlcache: c2.hlcache,
                line_hl: c2.line_hl,
                ..m1
            }
            &&& final(view).stack@ == c2.frames
            &&& scope@ == sc
        }),
        final(view).syntax == old(view).syntax,
        final(view).terminal_w == w,
        final(view).terminal_h == h,
        final(view).endline@ == old(view).endline@,
{
    let ghost m0 = old(view).model();
    proof {
        lemma_key_keeps_cache_below(m0, k, view.stack@.len() as int);
    }
    key(k, view);
    view.terminal_w = w;
    view.terminal_h = h;
    if w > 0 || view.cursor_x < usize::MAX {
        clamp(view);
    }
    let ghost m1 = view.model();
    assert(view.cache() == HlCache { hlcache: m1.hlcache, line_hl: m1.line_hl, frames: old(view).stack@ });
    let scope = reparse_dirty(view, g);
    assert(view.model() =~= Model {
        offset: m1.offset,
        offcol: m1.offcol,
        recompute: view.recompute as int,
        hlcache: view.hlcache@,
        line_hl: view.cache().line_hl,
        ..key_spec(m0, k)
    });
    scope
}

/// The message a step leaves in the status line, if any, when the session
/// goes on: the file is not saved on a refused quit, it was written on a
/// save, and a selection is under way otherwise.
pub open spec fn step_message(st: Status, path: Seq<char>) -> Option<Seq<char>> {
    if st.quit {
        Some(path + " not saved"@)
    } else if st.save {
        Some("Wrote to "@ + path)
    } else if st.selecting {
        Some("Selecting"@)
    } else {
        None
    }
}

/// Whether the session ends: a quit was asked for and the buffer is saved
/// (counting a save of this step) or the quit is forced.
pub open spec fn leaves(st: Status) -> bool {
    st.quit && (st.saved || st.save || st.forcequit)
}

/// Ends a step once the buffer was written, if a save was asked for: marks
/// the buffer saved, and either ends the session on a quit that may go
/// ahead, or shows the step's message with `scope` in the status line and
/// scrolls the cursor on screen. Returns whether the session ends.
pub fn finish_step(view: &mut View, scope: String, path: &[char]) -> (leave: bool)
    ensures
        ({
            let st = old(view).status;
            let saved = st.saved || st.save;
            &&& leave == leaves(st)
            &&& leave ==> final(view).model() == Model {
                status: Status { saved, save: false, ..st },
                ..old(view).model()
            } && final(view).endline@ == old(view).endline@
            &&& !leave ==> {
                let m1 = Model { status: Status { saved, save: false, quit: false, ..st }, ..old(view).model() };
                let (o, c) = scrolled(m1, old(view).terminal_w as int, old(view).terminal_h as int);
                &&& final(view).model() == Model { offset: o, offcol: c, ..m1 }
                &&& final(view).endline@ == status_line(step_message(st, path@), scope@)
            }
        }),
        final(view).stack@ == old(view).stack@,
        final(view).stack.wf() == old(view).stack.wf(),
        final(view).syntax == old(view).syntax,
        final(view).terminal_w == old(view).terminal_w,
        final(view).terminal_h == old(view).terminal_h,
{
    let ghost m0 = old(view).model();
    let st = view.status;
    let mut msg: Option<Vec<char>> = if st.selecting {
        Some(chars_of("Selecting"))
    } else {
        None
    };
    if st.save {
        view.status.saved = true;
        let mut m = chars_of("Wrote to ");
        push_slice(&mut m, path);
        msg = Some(m);
        view.status.save = false;
    }
    if st.quit {
        if view.status.saved || st.forcequit {
            assert(view.model() =~= Model {
                status: Status { saved: st.saved || st.save, save: false, ..st },
                ..m0
            });
            return true;
        } else {
            let mut m: Vec<char> = Vec::new();
            push_slice(&mut m, path);
            let tail = chars_of(" not saved");
            push_slice(&mut m, tail.as_slice());
            msg = Some(m);
            view.status.quit = false;
        }
    }
    let prefix: Option<String> = match msg {
        Some(m) => Some(string_of(m.as_slice())),
        None => None,
    };
    assert(match prefix {
        Some(p) => Some(p@),
        None => None::<Seq<char>>,
    } == step_message(st, path@));
    update_scope_status(view, prefix, scope);
    if view.terminal_w > 0 || view.cursor_x < usize::MAX {
        clamp(view);
    }
    assert(view.model() =~= Model {
        offset: view.offset as int,
        offcol: view.offcol as int,
        ..Model { status: Status { saved: st.saved || st.save, save: false, quit: false, ..st }, ..m0 }
    });
    false
}

/// `C-z` saves and exits: the step that handles it writes the buffer and
/// ends the session.
pub proof fn lemma_ctrl_z_saves_and_exits(m: Model)
    requires
        !m.status.ctrlx,
    ensures
        key_spec(m, Key::Ctrl('z')).status.save,
        leaves(key_spec(m, Key::Ctrl('z')).status),
{
}

/// `C-x C-c` ends the session exactly when the buffer is saved, or a save
/// is pending, or a quit was forced.
pub proof fn lemma_quit_needs_saved_buffer(m: Model)
    requires
        m.status.ctrlx,
    ensures
        key_spec(m, Key::Ctrl('c')).status.quit,
        leaves(key_spec(m, Key::Ctrl('c')).status) == (m.status.saved || m.status.save
            || m.status.forcequit),
{
}

} // verus!
