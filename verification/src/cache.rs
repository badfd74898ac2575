use vstd::prelude::*;

use crate::editor::{max, min, Run, View};
use crate::highlight::{frames_valid, highlight_line, highlight_spec, hl_ends, parents_ok, stack_ok};
use crate::stack::{frames_wf, lemma_push_result, spec_push, Frame};
use crate::syntax::{ContextReference, Grammar};
use crate::text::{chars_of, push_slice};
use vstd::view::View as _;

verus! {

broadcast use vstd::string::group_string_axioms;

/// The highlighting caches: the stack each line starts on, the scope runs
/// of each line, and the frame table those stacks live in.
#[verifier::ext_equal]
pub struct HlCache {
    pub hlcache: Seq<usize>,
    pub line_hl: Seq<Seq<Run>>,
    pub frames: Seq<Frame>,
}

impl View {
    pub open spec fn cache(&self) -> HlCache {
        HlCache {
            hlcache: self.hlcache@,
            line_hl: self.line_hl@.map_values(|r: Vec<Run>| r@),
            frames: self.stack@,
        }
    }

    pub open spec fn lines(&self) -> Seq<Seq<char>> {
        self.bufvec@.map_values(|l: Vec<char>| l@)
    }

    /// The state highlighting works on is consistent with the grammar.
    pub open spec fn hl_ready(&self, g: &Grammar) -> bool {
        &&& g.wf()
        &&& (self.syntax matches Some(k) ==> (k as int) < g.syntaxes@.len())
        &&& self.stack.wf()
        &&& cache_ok(g, self.hlcache@, self.stack@)
    }

    /// Highlighting leaves every other part of the view alone.
    pub open spec fn same_text(&self, other: &View) -> bool {
        &&& self.bufvec@ == other.bufvec@
        &&& self.syntax == other.syntax
        &&& self.cursor_x == other.cursor_x
        &&& self.cursor_y == other.cursor_y
        &&& self.working_col == other.working_col
        &&& self.offset == other.offset
        &&& self.offcol == other.offcol
        &&& self.terminal_w == other.terminal_w
        &&& self.terminal_h == other.terminal_h
        &&& self.mark == other.mark
        &&& self.endline@ == other.endline@
        &&& self.kill@ == other.kill@
        &&& self.status == other.status
    }
}

/// A consistent frame table, and cached stacks that lie in it.
pub open spec fn cache_ok(g: &Grammar, hlcache: Seq<usize>, frames: Seq<Frame>) -> bool {
    &&& frames_wf(frames)
    &&& frames_valid(g, frames)
    &&& parents_ok(frames)
    &&& forall|i: int| 0 <= i < hlcache.len() ==> (#[trigger] hlcache[i] as int) < frames.len()
}

/// `s` cut or padded with `fill` to the length `n`.
pub open spec fn resize_seq<T>(s: Seq<T>, n: int, fill: T) -> Seq<T> {
    if s.len() < n {
        s + Seq::new((n - s.len()) as nat, |i: int| fill)
    } else {
        s.take(n)
    }
}

/// The stack holding just the main context of the syntax, if there is one.
pub open spec fn main_frame_spec(g: &Grammar, syntax: Option<u16>, frames: Seq<Frame>) -> (Seq<Frame>, int) {
    match syntax {
        Some(k) => spec_push(
            frames,
            Frame { context: ContextReference(k, g.syntaxes@[k as int].main), parent: 0 },
        ),
        None => (frames, 0),
    }
}

/// The caches sized to the buffer (at least one line), the first line
/// starting on the main stack.
pub open spec fn ensure_cache_spec(g: &Grammar, syntax: Option<u16>, n: int, c: HlCache) -> HlCache {
    let t = max(n, 1);
    let h = resize_seq(c.hlcache, t, 0usize);
    let r = resize_seq(c.line_hl, t, Seq::<Run>::empty());
    let (fr, m) = main_frame_spec(g, syntax, c.frames);
    HlCache { hlcache: h.update(0, m as usize), line_hl: r, frames: fr }
}

/// The scope of the last run that covers column `c`, else `d`.
pub open spec fn run_scope_at(runs: Seq<Run>, c: int, d: Seq<char>) -> Seq<char>
    decreases runs.len(),
{
    if runs.len() == 0 {
        d
    } else if runs.last().0.0 <= c <= runs.last().0.1 {
        runs.last().1@
    } else {
        run_scope_at(runs.drop_last(), c, d)
    }
}

/// The scope name used where nothing more specific applies.
pub open spec fn default_scope_spec(g: &Grammar, syntax: Option<u16>) -> Seq<char> {
    match syntax {
        Some(id) => g.syntaxes@[id as int].scope@,
        None => "text.plain"@,
    }
}

/// The stack with the main context of the view's syntax (the empty stack
/// without a syntax).
pub fn main_frame(view: &mut View, g: &Grammar) -> (r: usize)
    requires
        old(view).hl_ready(g),
    ensures
        (final(view).stack@, r as int) == main_frame_spec(g, old(view).syntax, old(view).stack@),
        final(view).hl_ready(g),
        final(view).same_text(old(view)),
        final(view).hlcache@ == old(view).hlcache@,
        final(view).line_hl@ == old(view).line_hl@,
        final(view).recompute == old(view).recompute,
        (r as int) < final(view).stack@.len(),
{
    match view.syntax {
        Some(k) => {
            let (main, _) = g.syntax_main_and_prototype(k);
            let ghost f = Frame { context: ContextReference(k, main), parent: 0 };
            proof {
                lemma_push_result(view.stack@, f);
            }
            let ghost s0 = view.stack@;
            let r = view.stack.push(ContextReference(k, main), 0);
            proof {
                let t = view.stack@;
                assert(g.valid_ref(ContextReference(k, main))) by {
                    let _s = g.syntaxes@[k as int];
                }
                assert forall|i: int| 1 <= i < t.len() implies g.valid_ref(#[trigger] t[i].context) by {
                    if i < s0.len() {
                        assert(t.subrange(0, s0.len() as int)[i] == s0[i]);
                    }
                }
                assert forall|i: int| 0 <= i < t.len() implies (#[trigger] t[i].parent as int) < t.len() by {
                    if i < s0.len() {
                        assert(t.subrange(0, s0.len() as int)[i] == s0[i]);
                    }
                }
            }
            r
        },
        None => 0,
    }
}

/// The scope name used where nothing more specific applies.
pub fn default_scope(view: &View, g: &Grammar) -> (r: String)
    requires
        view.syntax matches Some(k) ==> (k as int) < g.syntaxes@.len(),
    ensures
        r@ == default_scope_spec(g, view.syntax),
{
    match view.syntax {
        Some(id) => g.get_syntax_info(id).scope.clone(),
        None => "text.plain".to_string(),
    }
}

/// The scope of the last run that covers column `cursor`, else `default_scope`.
pub fn scope_from_runs(scopes: &[Run], cursor: usize, default_scope: String) -> (r: String)
    ensures
        r@ == run_scope_at(scopes@, cursor as int, default_scope@),
{
    let mut i = scopes.len();
    assert(scopes@.take(i as int) =~= scopes@);
    while i > 0
        invariant
            i <= scopes@.len(),
            run_scope_at(scopes@, cursor as int, default_scope@) == run_scope_at(
                scopes@.take(i as int),
                cursor as int,
                default_scope@,
            ),
        decreases i,
    {
        let ghost t = scopes@.take(i as int);
        assert(t.last() == scopes@[i - 1]);
        if scopes[i - 1].0.0 <= cursor && cursor <= scopes[i - 1].0.1 {
            return scopes[i - 1].1.clone();
        }
        assert(t.drop_last() =~= scopes@.take(i - 1));
        i = i - 1;
    }
    default_scope
}

/// Highlights the lines `line..=target_end` (stopping after the last line
/// of the buffer), each from the stack cached for it (the main stack for the
/// first line), caching each line's runs and the stack the next line starts
/// on; the scope under column `col` of `cursor_line` is taken from its runs
/// when that line is among them.
pub open spec fn relines(
    g: &Grammar,
    syn: u16,
    lines: Seq<Seq<char>>,
    main: int,
    c: HlCache,
    line: int,
    target_end: int,
    cursor_line: int,
    col: int,
    scope: Seq<char>,
) -> (HlCache, Seq<char>)
    decreases target_end + 1 - line,
{
    if line < 0 || line > target_end {
        (c, scope)
    } else {
        let begin = if line == 0 {
            main
        } else {
            c.hlcache[line] as int
        };
        let (runs, out, fr) = highlight_spec(g, syn, lines[line], begin, c.frames);
        let scope2 = if line == cursor_line {
            run_scope_at(runs, col, scope)
        } else {
            scope
        };
        let lh = c.line_hl.update(line, runs);
        if line + 1 >= lines.len() {
            (HlCache { line_hl: lh, frames: fr, ..c }, scope2)
        } else {
            relines(
                g,
                syn,
                lines,
                main,
                HlCache { hlcache: c.hlcache.update(line + 1, out as usize), line_hl: lh, frames: fr },
                line + 1,
                target_end,
                cursor_line,
                col,
                scope2,
            )
        }
    }
}

/// Highlighting each of the lines that `relines` highlights comes to the
/// end of the line.
pub open spec fn relines_ends(
    g: &Grammar,
    syn: u16,
    lines: Seq<Seq<char>>,
    main: int,
    c: HlCache,
    line: int,
    target_end: int,
) -> bool
    decreases target_end + 1 - line,
{
    if line < 0 || line > target_end {
        true
    } else {
        let begin = if line == 0 {
            main
        } else {
            c.hlcache[line] as int
        };
        let (runs, out, fr) = highlight_spec(g, syn, lines[line], begin, c.frames);
        &&& hl_ends(g, syn, lines[line], begin, c.frames)
        &&& (line + 1 >= lines.len() || relines_ends(
            g,
            syn,
            lines,
            main,
            HlCache {
                hlcache: c.hlcache.update(line + 1, out as usize),
                line_hl: c.line_hl.update(line, runs),
                frames: fr,
            },
            line + 1,
            target_end,
        ))
    }
}

pub open spec fn sat_sub(a: int, b: int) -> int {
    if a >= b {
        a - b
    } else {
        0
    }
}

/// What re-highlighting the dirty lines yields: the caches, the first line
/// still to re-highlight, and the scope under the cursor.
///
/// Without a syntax, only the cursor line's runs are cleared. With one, the
/// lines from the first dirty one to the last visible one (with a margin of
/// eight lines, and at least to the cursor line) are highlighted; when no
/// line in that range is dirty, just the cursor line is highlighted again.
pub open spec fn reparse_spec(
    g: &Grammar,
    lines: Seq<Seq<char>>,
    syntax: Option<u16>,
    cx: int,
    cy: int,
    offset: int,
    th: int,
    recompute: int,
    c: HlCache,
) -> (HlCache, int, Seq<char>) {
    let n = lines.len() as int;
    if n == 0 {
        (HlCache { hlcache: Seq::empty(), ..c }, 0, "no scope"@)
    } else if syntax is None {
        let c1 = ensure_cache_spec(g, syntax, n, c);
        let line = min(cy, n - 1);
        (HlCache { line_hl: c1.line_hl.update(line, Seq::empty()), ..c1 }, line + 1, "text.plain"@)
    } else {
        reparse_syntax_spec(g, lines, syntax->0, cx, cy, offset, th, recompute, c)
    }
}

/// The last line to highlight: the last visible one (with a margin of
/// eight lines), and at least the cursor line.
pub open spec fn target_end_spec(n: int, cursor_line: int, offset: int, th: int) -> int {
    let visible_end = sat_sub(min(offset + sat_sub(th, 1) + 8, n), 1);
    max(visible_end, cursor_line)
}

/// The column of the cursor line whose scope is reported.
pub open spec fn scope_col(line: Seq<char>, cx: int) -> int {
    if line.len() == 0 {
        0
    } else {
        min(cx, line.len() - 1)
    }
}

/// `reparse_spec` with the syntax `syn`.
pub open spec fn reparse_syntax_spec(
    g: &Grammar,
    lines: Seq<Seq<char>>,
    syn: u16,
    cx: int,
    cy: int,
    offset: int,
    th: int,
    recompute: int,
    c: HlCache,
) -> (HlCache, int, Seq<char>) {
    let n = lines.len() as int;
    let c1 = ensure_cache_spec(g, Some(syn), n, c);
    let (fr, main) = main_frame_spec(g, Some(syn), c1.frames);
    let c2 = HlCache { hlcache: c1.hlcache.update(0, main as usize), frames: fr, ..c1 };
    let cursor_line = min(cy, n - 1);
    let target_end = target_end_spec(n, cursor_line, offset, th);
    let col = scope_col(lines[cursor_line], cx);
    let dflt = g.syntaxes@[syn as int].scope@;
    if recompute > target_end {
        let (c3, sc) = cursor_line_spec(g, syn, lines, main, c2, cursor_line, col, dflt);
        (c3, recompute, sc)
    } else {
        let start = min(recompute, n - 1);
        let (c3, sc) = relines(g, syn, lines, main, c2, start, target_end, cursor_line, col, dflt);
        (c3, target_end + 1, sc)
    }
}

/// Highlighting just the cursor line again.
pub open spec fn cursor_line_spec(
    g: &Grammar,
    syn: u16,
    lines: Seq<Seq<char>>,
    main: int,
    c: HlCache,
    cursor_line: int,
    col: int,
    dflt: Seq<char>,
) -> (HlCache, Seq<char>) {
    let begin = if cursor_line == 0 {
        main
    } else {
        c.hlcache[cursor_line] as int
    };
    let (runs, _out, fr) = highlight_spec(g, syn, lines[cursor_line], begin, c.frames);
    (HlCache { line_hl: c.line_hl.update(cursor_line, runs), frames: fr, ..c }, run_scope_at(runs, col, dflt))
}

/// Highlighting the cursor line again comes to its end.
pub open spec fn cursor_line_ends(
    g: &Grammar,
    syn: u16,
    lines: Seq<Seq<char>>,
    main: int,
    c: HlCache,
    cursor_line: int,
) -> bool {
    let begin = if cursor_line == 0 {
        main
    } else {
        c.hlcache[cursor_line] as int
    };
    hl_ends(g, syn, lines[cursor_line], begin, c.frames)
}

/// Every line that `reparse_spec` highlights is highlighted to its end: the
/// grammar's rules never keep changing the stack at one column of these
/// lines forever.
pub open spec fn reparse_ends(
    g: &Grammar,
    lines: Seq<Seq<char>>,
    syntax: Option<u16>,
    cx: int,
    cy: int,
    offset: int,
    th: int,
    recompute: int,
    c: HlCache,
) -> bool {
    let n = lines.len() as int;
    if n == 0 || syntax is None {
        true
    } else {
        let syn = syntax->0;
        let c1 = ensure_cache_spec(g, Some(syn), n, c);
        let (fr, main) = main_frame_spec(g, Some(syn), c1.frames);
        let c2 = HlCache { hlcache: c1.hlcache.update(0, main as usize), frames: fr, ..c1 };
        let cursor_line = min(cy, n - 1);
        let target_end = target_end_spec(n, cursor_line, offset, th);
        if recompute > target_end {
            cursor_line_ends(g, syn, lines, main, c2, cursor_line)
        } else {
            relines_ends(g, syn, lines, main, c2, min(recompute, n - 1), target_end)
        }
    }
}

fn resize_zeros(v: &mut Vec<usize>, n: usize)
    ensures
        final(v)@ == resize_seq(old(v)@, n as int, 0usize),
{
    if v.len() < n {
        let ghost v0 = v@;
        while v.len() < n
            invariant
                v@ == v0 + Seq::new((v@.len() - v0.len()) as nat, |i: int| 0usize),
                v0.len() <= v@.len() <= n,
            decreases n - v@.len(),
        {
            v.push(0);
            assert(v@ =~= v0 + Seq::new((v@.len() - v0.len()) as nat, |i: int| 0usize));
        }
    } else {
        v.truncate(n);
        assert(v@ =~= old(v)@.take(n as int));
    }
}

fn resize_runs(v: &mut Vec<Vec<Run>>, n: usize)
    ensures
        final(v)@.map_values(|r: Vec<Run>| r@) == resize_seq(
            old(v)@.map_values(|r: Vec<Run>| r@),
            n as int,
            Seq::<Run>::empty(),
        ),
{
    let ghost m0 = old(v)@.map_values(|r: Vec<Run>| r@);
    if v.len() < n {
        let ghost l0 = v@.len();
        while v.len() < n
            invariant
                v@.len() <= n,
                l0 == m0.len(),
                l0 <= v@.len(),
                v@.map_values(|r: Vec<Run>| r@) == m0 + Seq::new((v@.len() - l0) as nat, |i: int| Seq::<Run>::empty()),
            decreases n - v@.len(),
        {
            let ghost before = v@;
            let e: Vec<Run> = Vec::new();
            assert(e@ =~= Seq::<Run>::empty());
            v.push(e);
            assert(v@.map_values(|r: Vec<Run>| r@) =~= before.map_values(|r: Vec<Run>| r@).push(Seq::<Run>::empty()));
            assert(v@.map_values(|r: Vec<Run>| r@) =~= m0 + Seq::new((v@.len() - l0) as nat, |i: int| Seq::<Run>::empty()));
        }
    } else {
        v.truncate(n);
        assert(v@.map_values(|r: Vec<Run>| r@) =~= m0.take(n as int));
    }
}

/// Sizes the caches to the buffer (at least one line) and starts the first
/// line on the main stack.
pub fn ensure_cache(view: &mut View, g: &Grammar)
    requires
        old(view).hl_ready(g),
    ensures
        final(view).cache() == ensure_cache_spec(g, old(view).syntax, old(view).bufvec@.len() as int, old(view).cache()),
        final(view).hl_ready(g),
        final(view).same_text(old(view)),
        final(view).recompute == old(view).recompute,
        final(view).hlcache@.len() == max(old(view).bufvec@.len() as int, 1),
        final(view).line_hl@.len() == max(old(view).bufvec@.len() as int, 1),
{
    let n = view.bufvec.len();
    let target = if n > 1 {
        n
    } else {
        1
    };
    resize_zeros(&mut view.hlcache, target);
    resize_runs(&mut view.line_hl, target);
    proof {
        assert forall|i: int| 0 <= i < view.hlcache@.len() implies (#[trigger] view.hlcache@[i] as int) < view.stack@.len() by {
            if i < old(view).hlcache@.len() {
                assert(view.hlcache@[i] == old(view).hlcache@[i]);
            }
        }
    }
    let main = main_frame(view, g);
    view.hlcache.set(0, main);
    assert(final(view).cache() =~= ensure_cache_spec(g, old(view).syntax, n as int, old(view).cache()));
    assert(view.line_hl@.len() == view.cache().line_hl.len());
}

#[verifier::rlimit(40)]
fn relines_exec(
    view: &mut View,
    g: &Grammar,
    syn: u16,
    main: usize,
    start: usize,
    target_end: usize,
    cursor_line: usize,
    col: usize,
    dflt: String,
) -> (r: String)
    requires
        old(view).hl_ready(g),
        old(view).syntax == Some(syn),
        (main as int) < old(view).stack@.len(),
        old(view).hlcache@.len() == old(view).bufvec@.len(),
        old(view).line_hl@.len() == old(view).bufvec@.len(),
        start <= target_end < old(view).bufvec@.len(),
        relines_ends(g, syn, old(view).lines(), main as int, old(view).cache(), start as int, target_end as int),
    ensures
        (final(view).cache(), r@) == relines(
            g,
            syn,
            old(view).lines(),
            main as int,
            old(view).cache(),
            start as int,
            target_end as int,
            cursor_line as int,
            col as int,
            dflt@,
        ),
        final(view).hl_ready(g),
        final(view).same_text(old(view)),
        final(view).recompute == old(view).recompute,
        final(view).hlcache@.len() == old(view).hlcache@.len(),
        final(view).line_hl@.len() == old(view).line_hl@.len(),
{
    let ghost c0 = old(view).cache();
    let ghost lines = old(view).lines();
    let n = view.bufvec.len();
    let mut line = start;
    let ghost scope0 = dflt@;
    let mut scope = dflt.clone();
    loop
        invariant
            view.hl_ready(g),
            view.syntax == Some(syn),
            view.same_text(old(view)),
            view.recompute == old(view).recompute,
            n == view.bufvec@.len(),
            n == old(view).hlcache@.len(),
            n == old(view).line_hl@.len(),
            view.hlcache@.len() == n,
            view.line_hl@.len() == n,
            lines == view.lines(),
            (main as int) < view.stack@.len(),
            start <= line <= target_end + 1,
            target_end < n,
            scope0 == dflt@,
            relines(g, syn, lines, main as int, old(view).cache(), start as int, target_end as int, cursor_line as int, col as int, scope0)
                == relines(g, syn, lines, main as int, view.cache(), line as int, target_end as int, cursor_line as int, col as int, scope@),
            relines_ends(g, syn, lines, main as int, view.cache(), line as int, target_end as int),
        decreases target_end + 1 - line,
    {
        if line > target_end {
            assert(relines(g, syn, lines, main as int, view.cache(), line as int, target_end as int, cursor_line as int, col as int, scope@) == (view.cache(), scope@));
            return scope;
        }
        let begin = if line == 0 {
            main
        } else {
            view.hlcache[line]
        };
        assert(lines[line as int] == view.bufvec@[line as int]@);
        let ghost cb = view.cache();
        let ghost sb = scope@;
        assert(view.hlcache@[line as int] < view.stack@.len());
        let (runs, out) = highlight_line(g, syn, view.bufvec[line].as_slice(), begin, &mut view.stack);
        if line == cursor_line {
            scope = scope_from_runs(runs.as_slice(), col, scope);
        }
        let ghost rv = runs@;
        let ghost lb = view.line_hl@;
        view.line_hl.set(line, runs);
        assert(view.line_hl@.map_values(|r: Vec<Run>| r@) =~= cb.line_hl.update(line as int, rv));
        proof {
            assert forall|i: int| 0 <= i < view.hlcache@.len() implies (#[trigger] view.hlcache@[i] as int) < view.stack@.len() by {}
        }
        if line + 1 >= n {
            assert(view.cache() =~= HlCache { line_hl: cb.line_hl.update(line as int, rv), frames: view.stack@, ..cb });
            assert(relines(g, syn, lines, main as int, cb, line as int, target_end as int, cursor_line as int, col as int, sb) == (view.cache(), scope@));
            return scope;
        }
        view.hlcache.set(line + 1, out);
        assert(view.cache() =~= HlCache {
            hlcache: cb.hlcache.update(line + 1, out),
            line_hl: cb.line_hl.update(line as int, rv),
            frames: view.stack@,
        });
        line = line + 1;
    }
}

fn cursor_line_exec(view: &mut View, g: &Grammar, syn: u16, main: usize, cursor_line: usize, col: usize, dflt: String) -> (r: String)
    requires
        old(view).hl_ready(g),
        old(view).syntax == Some(syn),
        (main as int) < old(view).stack@.len(),
        cursor_line < old(view).bufvec@.len(),
        old(view).hlcache@.len() == old(view).bufvec@.len(),
        old(view).line_hl@.len() == old(view).bufvec@.len(),
        cursor_line_ends(g, syn, old(view).lines(), main as int, old(view).cache(), cursor_line as int),
    ensures
        (final(view).cache(), r@) == cursor_line_spec(
            g,
            syn,
            old(view).lines(),
            main as int,
            old(view).cache(),
            cursor_line as int,
            col as int,
            dflt@,
        ),
        final(view).hl_ready(g),
        final(view).same_text(old(view)),
        final(view).recompute == old(view).recompute,
        final(view).hlcache@.len() == old(view).hlcache@.len(),
        final(view).line_hl@.len() == old(view).line_hl@.len(),
{
    let ghost c2 = view.cache();
    let begin = if cursor_line == 0 {
        main
    } else {
        view.hlcache[cursor_line]
    };
    assert(view.hlcache@[cursor_line as int] < view.stack@.len());
    assert(old(view).lines()[cursor_line as int] == view.bufvec@[cursor_line as int]@);
    let (scopes, _out) = highlight_line(g, syn, view.bufvec[cursor_line].as_slice(), begin, &mut view.stack);
    let scope = scope_from_runs(scopes.as_slice(), col, dflt);
    let ghost rv = scopes@;
    view.line_hl.set(cursor_line, scopes);
    proof {
        assert forall|i: int| 0 <= i < view.hlcache@.len() implies (#[trigger] view.hlcache@[i] as int) < view.stack@.len() by {}
        assert(view.cache() =~= HlCache { line_hl: c2.line_hl.update(cursor_line as int, rv), frames: view.stack@, ..c2 });
    }
    scope
}

fn target_end_exec(n: usize, cursor_line: usize, offset: usize, th: usize) -> (r: usize)
    requires
        cursor_line < n,
    ensures
        r == target_end_spec(n as int, cursor_line as int, offset as int, th as int),
        cursor_line <= r < n,
{
    let text_rows = if th >= 1 {
        th - 1
    } else {
        0
    };
    let lim = if offset >= n {
        n
    } else if text_rows >= n - offset {
        n
    } else if 8 >= n - offset - text_rows {
        n
    } else {
        offset + text_rows + 8
    };
    let visible_end = if lim >= 1 {
        lim - 1
    } else {
        0
    };
    if visible_end > cursor_line {
        visible_end
    } else {
        cursor_line
    }
}

/// Sizes the caches and starts the first line on the main stack.
fn prepare_syntax(view: &mut View, g: &Grammar, syn: u16) -> (main: usize)
    requires
        old(view).hl_ready(g),
        old(view).syntax == Some(syn),
        old(view).bufvec@.len() > 0,
    ensures
        ({
            let c1 = ensure_cache_spec(g, Some(syn), old(view).bufvec@.len() as int, old(view).cache());
            let (fr, m) = main_frame_spec(g, Some(syn), c1.frames);
            &&& final(view).cache() == HlCache { hlcache: c1.hlcache.update(0, m as usize), frames: fr, ..c1 }
            &&& main == m
        }),
        (main as int) < final(view).stack@.len(),
        final(view).hl_ready(g),
        final(view).same_text(old(view)),
        final(view).recompute == old(view).recompute,
        final(view).hlcache@.len() == old(view).bufvec@.len(),
        final(view).line_hl@.len() == old(view).bufvec@.len(),
{
    ensure_cache(view, g);
    let ghost c1 = view.cache();
    let main = main_frame(view, g);
    view.hlcache.set(0, main);
    assert(view.cache() =~= HlCache { hlcache: c1.hlcache.update(0, main), frames: view.stack@, ..c1 });
    assert(view.line_hl@.len() == view.cache().line_hl.len());
    proof {
        assert forall|i: int| 0 <= i < view.hlcache@.len() implies (#[trigger] view.hlcache@[i] as int) < view.stack@.len() by {}
    }
    main
}

fn reparse_syntax(view: &mut View, g: &Grammar, syn: u16) -> (r: String)
    requires
        old(view).hl_ready(g),
        old(view).syntax == Some(syn),
        old(view).bufvec@.len() > 0,
        reparse_ends(
            g,
            old(view).lines(),
            old(view).syntax,
            old(view).cursor_x as int,
            old(view).cursor_y as int,
            old(view).offset as int,
            old(view).terminal_h as int,
            old(view).recompute as int,
            old(view).cache(),
        ),
    ensures
        (final(view).cache(), final(view).recompute as int, r@) == reparse_syntax_spec(
            g,
            old(view).lines(),
            syn,
            old(view).cursor_x as int,
            old(view).cursor_y as int,
            old(view).offset as int,
            old(view).terminal_h as int,
            old(view).recompute as int,
            old(view).cache(),
        ),
        final(view).hl_ready(g),
        final(view).same_text(old(view)),
        final(view).hlcache@.len() == old(view).bufvec@.len(),
        final(view).line_hl@.len() == old(view).bufvec@.len(),
{
    let ghost lines = old(view).lines();
    let n = view.bufvec.len();
    let main = prepare_syntax(view, g, syn);
    let cursor_line = if view.cursor_y < n - 1 {
        view.cursor_y
    } else {
        n - 1
    };
    let target_end = target_end_exec(n, cursor_line, view.offset, view.terminal_h);
    let line_len = view.bufvec[cursor_line].len();
    let col = if line_len == 0 {
        0
    } else if view.cursor_x < line_len - 1 {
        view.cursor_x
    } else {
        line_len - 1
    };
    assert(lines[cursor_line as int] == view.bufvec@[cursor_line as int]@);
    assert(col == scope_col(lines[cursor_line as int], old(view).cursor_x as int));
    let dflt = default_scope(view, g);
    if view.recompute > target_end {
        cursor_line_exec(view, g, syn, main, cursor_line, col, dflt)
    } else {
        let start = if view.recompute < n - 1 {
            view.recompute
        } else {
            n - 1
        };
        let sc = relines_exec(view, g, syn, main, start, target_end, cursor_line, col, dflt);
        view.recompute = target_end + 1;
        sc
    }
}

/// Re-highlights the dirty lines (see `reparse_spec`) and returns the scope
/// under the cursor.
pub fn reparse_dirty(view: &mut View, g: &Grammar) -> (r: String)
    requires
        old(view).hl_ready(g),
        reparse_ends(
            g,
            old(view).lines(),
            old(view).syntax,
            old(view).cursor_x as int,
            old(view).cursor_y as int,
            old(view).offset as int,
            old(view).terminal_h as int,
            old(view).recompute as int,
            old(view).cache(),
        ),
    ensures
        (final(view).cache(), final(view).recompute as int, r@) == reparse_spec(
            g,
            old(view).lines(),
            old(view).syntax,
            old(view).cursor_x as int,
            old(view).cursor_y as int,
            old(view).offset as int,
            old(view).terminal_h as int,
            old(view).recompute as int,
            old(view).cache(),
        ),
        final(view).hl_ready(g),
        final(view).same_text(old(view)),
        old(view).bufvec@.len() > 0 ==> final(view).hlcache@.len() == old(view).bufvec@.len(),
        old(view).bufvec@.len() > 0 ==> final(view).line_hl@.len() == old(view).bufvec@.len(),
{
    let n = view.bufvec.len();
    if n == 0 {
        view.hlcache.clear();
        view.recompute = 0;
        assert(view.cache() =~= HlCache { hlcache: Seq::empty(), ..old(view).cache() });
        return "no scope".to_string();
    }
    match view.syntax {
        None => {
            ensure_cache(view, g);
            let line = if view.cursor_y < n - 1 {
                view.cursor_y
            } else {
                n - 1
            };
            let ghost c1 = view.cache();
            assert(view.line_hl@.len() == c1.line_hl.len());
            view.line_hl.set(line, Vec::new());
            view.recompute = line + 1;
            assert(view.cache() =~= HlCache { line_hl: c1.line_hl.update(line as int, Seq::empty()), ..c1 });
            "text.plain".to_string()
        },
        Some(syn) => reparse_syntax(view, g, syn),
    }
}

/// The scope under the cursor after re-highlighting, found by highlighting
/// the cursor line again, with the caches and first dirty line that result.
pub open spec fn scope_under_spec(
    g: &Grammar,
    lines: Seq<Seq<char>>,
    syntax: Option<u16>,
    cx: int,
    cy: int,
    offset: int,
    th: int,
    recompute: int,
    c: HlCache,
) -> (HlCache, int, Seq<char>) {
    let n = lines.len() as int;
    if n == 0 {
        (c, recompute, "no scope"@)
    } else {
        let (c1, rc, _) = reparse_spec(g, lines, syntax, cx, cy, offset, th, recompute, c);
        let line = min(cy, n - 1);
        let ss = default_scope_spec(g, syntax);
        if syntax is None || lines[line].len() == 0 {
            (c1, rc, ss)
        } else {
            let (fr, begin) = if line == 0 {
                main_frame_spec(g, syntax, c1.frames)
            } else {
                (c1.frames, c1.hlcache[line] as int)
            };
            let (runs, _out, fr2) = highlight_spec(g, syntax->0, lines[line], begin, fr);
            (HlCache { frames: fr2, ..c1 }, rc, run_scope_at(runs, min(cx, lines[line].len() - 1), ss))
        }
    }
}

/// Highlighting the lines `scope_under_spec` highlights comes to the end of
/// each of them.
pub open spec fn scope_under_ends(
    g: &Grammar,
    lines: Seq<Seq<char>>,
    syntax: Option<u16>,
    cx: int,
    cy: int,
    offset: int,
    th: int,
    recompute: int,
    c: HlCache,
) -> bool {
    let n = lines.len() as int;
    if n == 0 {
        true
    } else {
        let (c1, rc, _) = reparse_spec(g, lines, syntax, cx, cy, offset, th, recompute, c);
        let line = min(cy, n - 1);
        &&& reparse_ends(g, lines, syntax, cx, cy, offset, th, recompute, c)
        &&& (syntax is None || lines[line].len() == 0 || {
            let (fr, begin) = if line == 0 {
                main_frame_spec(g, syntax, c1.frames)
            } else {
                (c1.frames, c1.hlcache[line] as int)
            };
            hl_ends(g, syntax->0, lines[line], begin, fr)
        })
    }
}

/// The scope under the cursor (see `scope_under_spec`).
pub fn scope_under_cursor(view: &mut View, g: &Grammar) -> (r: String)
    requires
        old(view).hl_ready(g),
        scope_under_ends(
            g,
            old(view).lines(),
            old(view).syntax,
            old(view).cursor_x as int,
            old(view).cursor_y as int,
            old(view).offset as int,
            old(view).terminal_h as int,
            old(view).recompute as int,
            old(view).cache(),
        ),
    ensures
        (final(view).cache(), final(view).recompute as int, r@) == scope_under_spec(
            g,
            old(view).lines(),
            old(view).syntax,
            old(view).cursor_x as int,
            old(view).cursor_y as int,
            old(view).offset as int,
            old(view).terminal_h as int,
            old(view).recompute as int,
            old(view).cache(),
        ),
        final(view).hl_ready(g),
        final(view).same_text(old(view)),
{
    let n = view.bufvec.len();
    if n == 0 {
        return "no scope".to_string();
    }
    let _ = reparse_dirty(view, g);
    let ghost c1 = view.cache();
    let line = if view.cursor_y < n - 1 {
        view.cursor_y
    } else {
        n - 1
    };
    let syntax_scope = default_scope(view, g);
    let syn = match view.syntax {
        None => {
            return syntax_scope;
        },
        Some(k) => k,
    };
    let line_len = view.bufvec[line].len();
    if line_len == 0 {
        return syntax_scope;
    }
    let begin = if line == 0 {
        main_frame(view, g)
    } else {
        view.hlcache[line]
    };
    assert(view.hlcache@[line as int] < view.stack@.len());
    assert(old(view).lines()[line as int] == view.bufvec@[line as int]@);
    let (scopes, _out) = highlight_line(g, syn, view.bufvec[line].as_slice(), begin, &mut view.stack);
    proof {
        assert forall|i: int| 0 <= i < view.hlcache@.len() implies (#[trigger] view.hlcache@[i] as int) < view.stack@.len() by {}
        assert(view.cache() =~= HlCache { frames: view.stack@, ..c1 });
    }
    let cursor = if view.cursor_x < line_len - 1 {
        view.cursor_x
    } else {
        line_len - 1
    };
    scope_from_runs(scopes.as_slice(), cursor, syntax_scope)
}

/// The status line: `prefix | scope`, or just the scope without a prefix.
pub open spec fn status_line(prefix: Option<Seq<char>>, scope: Seq<char>) -> Seq<char> {
    match prefix {
        Some(msg) => if msg.len() > 0 {
            msg + seq![' ', '|', ' '] + scope
        } else {
            scope
        },
        None => scope,
    }
}

/// Shows `prefix | scope` (or just `scope`) in the status line.
pub fn update_scope_status(view: &mut View, prefix: Option<String>, scope: String)
    ensures
        final(view).endline@ == status_line(
            match prefix {
                Some(p) => Some(p@),
                None => None,
            },
            scope@,
        ),
        final(view).model() == old(view).model(),
        final(view).stack@ == old(view).stack@,
        final(view).stack.wf() == old(view).stack.wf(),
        final(view).syntax == old(view).syntax,
        final(view).terminal_w == old(view).terminal_w,
        final(view).terminal_h == old(view).terminal_h,
{
    let sc = chars_of(scope.as_str());
    let line = match &prefix {
        Some(msg) => {
            let mut out = chars_of(msg.as_str());
            if out.len() > 0 {
                out.push(' ');
                out.push('|');
                out.push(' ');
                push_slice(&mut out, sc.as_slice());
                out
            } else {
                sc
            }
        },
        None => sc,
    };
    view.endline = line;
}

/// After re-highlighting, the cursor line is no longer dirty: the first
/// line still to re-highlight lies past it.
pub proof fn lemma_reparse_cleans_cursor_line(
    g: &Grammar,
    lines: Seq<Seq<char>>,
    syntax: Option<u16>,
    cx: int,
    cy: int,
    offset: int,
    th: int,
    recompute: int,
    c: HlCache,
)
    requires
        lines.len() > 0,
        cy >= 0,
    ensures
        reparse_spec(g, lines, syntax, cx, cy, offset, th, recompute, c).1 > min(cy, lines.len() - 1),
{
}

/// Re-highlighting marks no line clean that it did not highlight: the first
/// line still to re-highlight afterwards lies no further than it lay before,
/// the end of the visible rows with their margin of eight lines, or just past
/// the cursor line, whichever is furthest.
pub proof fn lemma_reparse_cleans_only_highlighted(
    g: &Grammar,
    lines: Seq<Seq<char>>,
    syntax: Option<u16>,
    cx: int,
    cy: int,
    offset: int,
    th: int,
    recompute: int,
    c: HlCache,
)
    requires
        lines.len() > 0,
        cy >= 0,
        offset >= 0,
    ensures
        reparse_spec(g, lines, syntax, cx, cy, offset, th, recompute, c).1 <= max(
            recompute,
            max(min(offset + sat_sub(th, 1) + 8, lines.len() as int), min(cy, lines.len() - 1) + 1),
        ),
{
}

/// With a syntax, re-highlighting leaves every visible row (with its margin
/// of eight lines) and the cursor line clean.
pub proof fn lemma_reparse_cleans_visible_rows(
    g: &Grammar,
    lines: Seq<Seq<char>>,
    syn: u16,
    cx: int,
    cy: int,
    offset: int,
    th: int,
    recompute: int,
    c: HlCache,
)
    requires
        lines.len() > 0,
        cy >= 0,
        offset >= 0,
    ensures
        reparse_spec(g, lines, Some(syn), cx, cy, offset, th, recompute, c).1 >= max(
            min(offset + sat_sub(th, 1) + 8, lines.len() as int),
            min(cy, lines.len() - 1) + 1,
        ),
{
}

} // verus!
