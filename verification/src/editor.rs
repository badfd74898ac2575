use vstd::prelude::*;

use crate::lines::{
    expand_tabs, holds, join_lines, lemma_expand_no_tabs, lemma_join_holds, lemma_split_join,
    lemma_split_len, split_lines, expand_tabs_exec, split_lines_exec,
};
use crate::text::{push_range, push_slice};
use crate::stack::Stack;
use vstd::view::View as _;

verus! {

/// The flags of the editor's status.
#[derive(Clone, Copy, Debug, PartialEq, Eq, Structural)]
pub struct Status {
    pub saved: bool,
    pub quit: bool,
    pub ctrlx: bool,
    pub save: bool,
    pub forcequit: bool,
    pub selecting: bool,
}

/// A scope run: the columns it covers (both ends included) and its scope name.
pub type Run = ((usize, usize), String);

/// The state of an editing session: the buffer, the cursor, the scroll
/// offsets, the selection mark, the kill buffer, the status flags and the
/// highlighting caches. Lines are sequences of characters, and every column
/// (cursor, mark, runs, scroll offset) counts characters.
pub struct View {
    pub working_col: usize,
    pub bufvec: Vec<Vec<char>>,
    pub hlcache: Vec<usize>,
    pub line_hl: Vec<Vec<Run>>,
    pub stack: Stack,
    pub syntax: Option<u16>,
    pub recompute: usize,
    pub cursor_x: usize,
    pub cursor_y: usize,
    pub offset: usize,
    pub offcol: usize,
    pub terminal_w: usize,
    pub terminal_h: usize,
    pub mark: (usize, usize),
    pub endline: Vec<char>,
    pub kill: Vec<char>,
    pub status: Status,
}

/// The mathematical value of the parts of a view that editing changes.
#[verifier::ext_equal]
pub struct Model {
    pub lines: Seq<Seq<char>>,
    pub cursor_x: int,
    pub cursor_y: int,
    pub working_col: int,
    pub offset: int,
    pub offcol: int,
    pub mark: (int, int),
    pub kill: Seq<char>,
    pub status: Status,
    pub recompute: int,
    pub hlcache: Seq<usize>,
    pub line_hl: Seq<Seq<Run>>,
}

pub open spec fn min(a: int, b: int) -> int {
    if a <= b {
        a
    } else {
        b
    }
}

pub open spec fn max(a: int, b: int) -> int {
    if a >= b {
        a
    } else {
        b
    }
}

impl View {
    /// The cursor position as (column, line).
    pub fn trueloc(&self) -> (r: (usize, usize))
        ensures
            r == (self.cursor_x, self.cursor_y),
    {
        (self.cursor_x, self.cursor_y)
    }

    pub open spec fn model(&self) -> Model {
        Model {
            lines: self.bufvec@.map_values(|l: Vec<char>| l@),
            cursor_x: self.cursor_x as int,
            cursor_y: self.cursor_y as int,
            working_col: self.working_col as int,
            offset: self.offset as int,
            offcol: self.offcol as int,
            mark: (self.mark.0 as int, self.mark.1 as int),
            kill: self.kill@,
            status: self.status,
            recompute: self.recompute as int,
            hlcache: self.hlcache@,
            line_hl: self.line_hl@.map_values(|r: Vec<Run>| r@),
        }
    }

    /// The parts of a view that editing leaves alone are those of `other`.
    pub open spec fn same_setting(&self, other: &View) -> bool {
        &&& self.stack@ == other.stack@
        &&& self.stack.wf() == other.stack.wf()
        &&& self.syntax == other.syntax
        &&& self.terminal_w == other.terminal_w
        &&& self.terminal_h == other.terminal_h
        &&& self.endline@ == other.endline@
    }
}

/// The highlighting caches with `count` fresh entries inserted at `at`.
pub open spec fn insert_cache_spec(m: Model, at: int, count: int) -> Model {
    if count == 0 {
        m
    } else {
        let a = min(at, m.hlcache.len() as int);
        let b = min(at, m.line_hl.len() as int);
        Model {
            hlcache: m.hlcache.take(a) + Seq::new(count as nat, |i: int| 0usize) + m.hlcache.skip(a),
            line_hl: m.line_hl.take(b) + Seq::new(count as nat, |i: int| Seq::<Run>::empty())
                + m.line_hl.skip(b),
            ..m
        }
    }
}

/// The highlighting caches with the entries `at..at + count` removed.
pub open spec fn remove_cache_spec(m: Model, at: int, count: int) -> Model {
    if count == 0 || m.hlcache.len() == 0 {
        m
    } else {
        let s = min(at, m.hlcache.len() as int);
        let e = min(s + count, m.hlcache.len() as int);
        let s2 = min(at, m.line_hl.len() as int);
        let e2 = min(s2 + count, m.line_hl.len() as int);
        Model { hlcache: m.hlcache.take(s) + m.hlcache.skip(e), line_hl: m.line_hl.take(s2) + m.line_hl.skip(e2), ..m }
    }
}

/// The model with the first line to re-highlight lowered to `line`.
pub open spec fn mark_recompute_spec(m: Model, line: int) -> Model {
    Model { recompute: min(m.recompute, line), ..m }
}

/// Lowers the first line to re-highlight to `line`.
pub fn mark_recompute(view: &mut View, line: usize)
    ensures
        final(view).model() == mark_recompute_spec(old(view).model(), line as int),
        final(view).same_setting(old(view)),
{
    if view.recompute > line {
        view.recompute = line;
    }
    assert(final(view).model() =~= mark_recompute_spec(old(view).model(), line as int));
}

fn insert_zeros(v: &mut Vec<usize>, a: usize, count: usize)
    requires
        a <= old(v)@.len(),
    ensures
        final(v)@ == old(v)@.take(a as int) + Seq::new(count as nat, |i: int| 0usize) + old(v)@.skip(a as int),
{
    let mut k: usize = 0;
    while k < count
        invariant
            k <= count,
            a <= old(v)@.len(),
            v@ == old(v)@.take(a as int) + Seq::new(k as nat, |i: int| 0usize) + old(v)@.skip(a as int),
        decreases count - k,
    {
        v.insert(a, 0);
        assert(v@ =~= old(v)@.take(a as int) + Seq::new((k + 1) as nat, |i: int| 0usize) + old(v)@.skip(a as int));
        k = k + 1;
    }
}

fn insert_empty_runs(v: &mut Vec<Vec<Run>>, a: usize, count: usize)
    requires
        a <= old(v)@.len(),
    ensures
        final(v)@.map_values(|r: Vec<Run>| r@) == old(v)@.map_values(|r: Vec<Run>| r@).take(a as int)
            + Seq::new(count as nat, |i: int| Seq::<Run>::empty()) + old(v)@.map_values(|r: Vec<Run>| r@).skip(a as int),
{
    let ghost r0 = old(v)@.map_values(|r: Vec<Run>| r@);
    let mut k: usize = 0;
    while k < count
        invariant
            k <= count,
            a <= old(v)@.len(),
            r0 == old(v)@.map_values(|r: Vec<Run>| r@),
            v@.len() == old(v)@.len() + k,
            v@.map_values(|r: Vec<Run>| r@) == r0.take(a as int) + Seq::new(k as nat, |i: int| Seq::<Run>::empty()) + r0.skip(a as int),
        decreases count - k,
    {
        let ghost before = v@;
        v.insert(a, Vec::new());
        assert(v@.map_values(|r: Vec<Run>| r@) =~= before.map_values(|r: Vec<Run>| r@).insert(a as int, Seq::<Run>::empty()));
        assert(v@.map_values(|r: Vec<Run>| r@) =~= r0.take(a as int) + Seq::new((k + 1) as nat, |i: int| Seq::<Run>::empty()) + r0.skip(a as int));
        k = k + 1;
    }
}

fn remove_span<T>(v: &mut Vec<T>, s: usize, e: usize)
    requires
        s <= e <= old(v)@.len(),
    ensures
        final(v)@ == old(v)@.take(s as int) + old(v)@.skip(e as int),
{
    let mut k: usize = s;
    while k < e
        invariant
            s <= k <= e <= old(v)@.len(),
            v@ == old(v)@.take(s as int) + old(v)@.skip(k as int),
        decreases e - k,
    {
        v.remove(s);
        assert(v@ =~= old(v)@.take(s as int) + old(v)@.skip(k + 1));
        k = k + 1;
    }
}

/// Inserts `count` fresh entries at `at` into both highlighting caches.
pub fn insert_cache_lines(view: &mut View, at: usize, count: usize)
    ensures
        final(view).model() == insert_cache_spec(old(view).model(), at as int, count as int),
        final(view).same_setting(old(view)),
{
    if count == 0 {
        return;
    }
    let a = if at < view.hlcache.len() {
        at
    } else {
        view.hlcache.len()
    };
    insert_zeros(&mut view.hlcache, a, count);
    let b = if at < view.line_hl.len() {
        at
    } else {
        view.line_hl.len()
    };
    insert_empty_runs(&mut view.line_hl, b, count);
    assert(final(view).model() =~= insert_cache_spec(old(view).model(), at as int, count as int));
}

/// Removes the entries `at..at + count` from both highlighting caches.
pub fn remove_cache_lines(view: &mut View, at: usize, count: usize)
    ensures
        final(view).model() == remove_cache_spec(old(view).model(), at as int, count as int),
        final(view).same_setting(old(view)),
{
    if count == 0 || view.hlcache.is_empty() {
        return;
    }
    let n = view.hlcache.len();
    let s = if at < n {
        at
    } else {
        n
    };
    let e = if count < n - s {
        s + count
    } else {
        n
    };
    remove_span(&mut view.hlcache, s, e);
    let n2 = view.line_hl.len();
    let s2 = if at < n2 {
        at
    } else {
        n2
    };
    let e2 = if count < n2 - s2 {
        s2 + count
    } else {
        n2
    };
    let ghost r0 = view.line_hl@;
    remove_span(&mut view.line_hl, s2, e2);
    assert(view.line_hl@.map_values(|r: Vec<Run>| r@) =~= r0.map_values(|r: Vec<Run>| r@).take(s2 as int) + r0.map_values(|r: Vec<Run>| r@).skip(e2 as int));
    assert(final(view).model() =~= remove_cache_spec(old(view).model(), at as int, count as int));
}

/// The characters `cs[from..to]` as a new vector.
pub fn copy_range(cs: &[char], from: usize, to: usize) -> (r: Vec<char>)
    requires
        from <= to <= cs@.len(),
    ensures
        r@ == cs@.subrange(from as int, to as int),
{
    let mut r: Vec<char> = Vec::new();
    push_range(&mut r, cs, from, to);
    assert(r@ =~= cs@.subrange(from as int, to as int));
    r
}

/// `a` followed by `b[from..to]`.
fn concat_range(a: &[char], b: &[char], from: usize, to: usize) -> (r: Vec<char>)
    requires
        from <= to <= b@.len(),
    ensures
        r@ == a@ + b@.subrange(from as int, to as int),
{
    let mut r = copy_range(a, 0, a.len());
    assert(a@.subrange(0, a@.len() as int) =~= a@);
    push_range(&mut r, b, from, to);
    r
}

/// The ordered, clamped ends `(sx, sy, ex, ey)` of the text between the
/// cursor and `to`.
pub open spec fn kill_span(m: Model, to: (int, int)) -> (int, int, int, int) {
    let n = m.lines.len() as int;
    let sy0 = min(m.cursor_y, n - 1);
    let sx0 = min(m.cursor_x, m.lines[sy0].len() as int);
    let ey0 = min(to.1, n - 1);
    let ex0 = min(to.0, m.lines[ey0].len() as int);
    if ey0 < sy0 || (ey0 == sy0 && ex0 < sx0) {
        (ex0, ey0, sx0, sy0)
    } else {
        (sx0, sy0, ex0, ey0)
    }
}

/// The pieces of the lines that the span `(sx, sy)..(ex, ey)` covers.
pub open spec fn span_pieces(l: Seq<Seq<char>>, sx: int, sy: int, ex: int, ey: int) -> Seq<
    Seq<char>,
> {
    if sy == ey {
        seq![l[sy].subrange(sx, ex)]
    } else {
        seq![l[sy].skip(sx)] + l.subrange(sy + 1, ey) + seq![l[ey].take(ex)]
    }
}

/// The lines once the span `(sx, sy)..(ex, ey)` is cut out.
pub open spec fn lines_after_cut(l: Seq<Seq<char>>, sx: int, sy: int, ex: int, ey: int) -> Seq<
    Seq<char>,
> {
    l.take(sy) + seq![l[sy].take(sx) + l[ey].skip(ex)] + l.skip(ey + 1)
}

/// Cutting the non-empty span `(sx, sy)..(ex, ey)` into the kill buffer.
pub open spec fn cut_spec(m: Model, sx: int, sy: int, ex: int, ey: int) -> Model {
    let m1 = if sy == ey {
        m
    } else {
        remove_cache_spec(m, sy + 1, ey - sy)
    };
    Model {
        lines: lines_after_cut(m.lines, sx, sy, ex, ey),
        kill: join_lines(span_pieces(m.lines, sx, sy, ex, ey)),
        cursor_x: sx,
        cursor_y: sy,
        status: Status { saved: false, ..m.status },
        recompute: min(m.recompute, sy),
        ..m1
    }
}

/// Cutting the text between the cursor and `to` into the kill buffer.
#[verifier::opaque]
pub open spec fn kill_spec(m: Model, to: (int, int)) -> Model {
    if m.lines.len() == 0 {
        Model { kill: Seq::empty(), ..m }
    } else {
        let (sx, sy, ex, ey) = kill_span(m, to);
        if sy == ey && sx == ex {
            Model { kill: Seq::empty(), ..m }
        } else {
            cut_spec(m, sx, sy, ex, ey)
        }
    }
}

/// A buffer made non-empty, with the cursor moved into it.
pub open spec fn settle_cursor_spec(m: Model) -> Model {
    let m1 = if m.lines.len() == 0 {
        Model {
            lines: seq![Seq::<char>::empty()],
            cursor_y: 0,
            cursor_x: 0,
            hlcache: if m.hlcache.len() == 0 {
                seq![0usize]
            } else {
                m.hlcache
            },
            ..m
        }
    } else {
        m
    };
    let n = m1.lines.len() as int;
    let cy = if m1.cursor_y >= n {
        n - 1
    } else {
        m1.cursor_y
    };
    Model { cursor_y: cy, cursor_x: min(m1.cursor_x, m1.lines[cy].len() as int), ..m1 }
}

/// Inserting the text `ins` at a cursor that lies in the buffer.
pub open spec fn place_spec(m: Model, ins: Seq<char>) -> Model {
    let cy = m.cursor_y;
    let cx = m.cursor_x;
    let line = m.lines[cy];
    let parts = split_lines(ins);
    let k = parts.len() as int;
    let left = line.take(cx);
    let right = line.skip(cx);
    if k == 1 {
        Model {
            lines: m.lines.update(cy, left + ins + right),
            cursor_x: cx + ins.len(),
            recompute: min(m.recompute, cy),
            status: Status { saved: false, ..m.status },
            ..m
        }
    } else {
        let m2 = insert_cache_spec(m, cy + 1, k - 1);
        Model {
            lines: m.lines.take(cy) + seq![left + parts[0]] + parts.subrange(1, k - 1) + seq![
                parts[k - 1] + right,
            ] + m.lines.skip(cy + 1),
            cursor_x: parts[k - 1].len() as int,
            cursor_y: cy + k - 1,
            recompute: min(m.recompute, cy),
            status: Status { saved: false, ..m.status },
            ..m2
        }
    }
}

/// Inserting `text` (tabs expanded to four spaces) at the cursor, which is
/// first moved into the buffer; the cursor ends after the inserted text.
#[verifier::opaque]
pub open spec fn insert_spec(m: Model, text: Seq<char>) -> Model {
    let ins = expand_tabs(text);
    if ins.len() == 0 {
        m
    } else {
        place_spec(settle_cursor_spec(m), ins)
    }
}

/// No line holds the character `c`.
pub open spec fn lines_free_of(l: Seq<Seq<char>>, c: char) -> bool {
    forall|i: int| 0 <= i < l.len() ==> !holds(#[trigger] l[i], c)
}

proof fn lemma_sub_free(s: Seq<char>, a: int, b: int, c: char)
    requires
        !holds(s, c),
        0 <= a <= b <= s.len(),
    ensures
        !holds(s.subrange(a, b), c),
{
    if holds(s.subrange(a, b), c) {
        let i = choose|i: int| 0 <= i < s.subrange(a, b).len() && s.subrange(a, b)[i] == c;
        assert(s[a + i] == c);
    }
}

/// Killing the text between the cursor and any position, then yanking it
/// back at the cursor, restores the buffer, when no line holds a newline or
/// a tab; when the span was not empty, the cursor ends at its far end.
pub proof fn lemma_kill_then_yank(m: Model, to: (int, int))
    requires
        lines_free_of(m.lines, '\n'),
        lines_free_of(m.lines, '\t'),
        m.cursor_x >= 0,
        m.cursor_y >= 0,
        to.0 >= 0,
        to.1 >= 0,
    ensures
        insert_spec(kill_spec(m, to), kill_spec(m, to).kill).lines == m.lines,
        m.lines.len() > 0 && !(kill_span(m, to).1 == kill_span(m, to).3 && kill_span(m, to).0 == kill_span(
            m,
            to,
        ).2) ==> {
            let r = insert_spec(kill_spec(m, to), kill_spec(m, to).kill);
            (r.cursor_x, r.cursor_y) == (kill_span(m, to).2, kill_span(m, to).3)
        },
{
    reveal(kill_spec);
    reveal(insert_spec);
    let k = kill_spec(m, to);
    if m.lines.len() == 0 {
        assert(k.kill.len() == 0);
        assert(expand_tabs(k.kill).len() == 0);
    } else {
        let (sx, sy, ex, ey) = kill_span(m, to);
        if sy == ey && sx == ex {
            assert(expand_tabs(k.kill).len() == 0);
        } else {
            let l = m.lines;
            let p = span_pieces(l, sx, sy, ex, ey);
            assert forall|i: int| 0 <= i < p.len() implies !holds(#[trigger] p[i], '\n') && !holds(
                p[i],
                '\t',
            ) by {
                if sy == ey {
                    lemma_sub_free(l[sy], sx, ex, '\n');
                    lemma_sub_free(l[sy], sx, ex, '\t');
                } else if i == 0 {
                    lemma_sub_free(l[sy], sx, l[sy].len() as int, '\n');
                    lemma_sub_free(l[sy], sx, l[sy].len() as int, '\t');
                    assert(l[sy].skip(sx) =~= l[sy].subrange(sx, l[sy].len() as int));
                } else if i == p.len() - 1 {
                    lemma_sub_free(l[ey], 0, ex, '\n');
                    lemma_sub_free(l[ey], 0, ex, '\t');
                    assert(l[ey].take(ex) =~= l[ey].subrange(0, ex));
                } else {
                    assert(p[i] == l[sy + i]);
                }
            }
            lemma_join_holds(p, '\t');
            lemma_expand_no_tabs(k.kill);
            lemma_split_join(p);
            let l2 = k.lines;
            assert(l2[sy] == l[sy].take(sx) + l[ey].skip(ex));
            assert(l2[sy].take(sx) =~= l[sy].take(sx));
            assert(l2[sy].skip(sx) =~= l[ey].skip(ex));
            let r = insert_spec(k, k.kill);
            if sy == ey {
                assert(p.len() == 1);
                assert(l[sy].take(sx) + l[sy].subrange(sx, ex) + l[sy].skip(ex) =~= l[sy]);
                assert(r.lines =~= l);
                assert(r.cursor_x == ex);
            } else {
                assert(p.len() == ey - sy + 1);
                assert(p[p.len() - 1] == l[ey].take(ex));
                assert(l[sy].take(sx) + l[sy].skip(sx) =~= l[sy]);
                assert(l[ey].take(ex) + l[ey].skip(ex) =~= l[ey]);
                assert(l2.take(sy) =~= l.take(sy));
                assert(l2.skip(sy + 1) =~= l.skip(ey + 1));
                assert(r.lines =~= l);
            }
        }
    }
}

proof fn lemma_join_push(p: Seq<Seq<char>>, x: Seq<char>)
    requires
        p.len() >= 1,
    ensures
        join_lines(p.push(x)) == join_lines(p) + seq!['\n'] + x,
{
    assert(p.push(x).drop_last() =~= p);
}

/// The text of the span `(sx, sy)..(ex, ey)` with newlines between its lines.
fn gather_span(lines: &Vec<Vec<char>>, sx: usize, sy: usize, ex: usize, ey: usize) -> (r: Vec<char>)
    requires
        sy < ey < lines@.len(),
        sx <= lines@[sy as int]@.len(),
        ex <= lines@[ey as int]@.len(),
    ensures
        r@ == join_lines(
            span_pieces(lines@.map_values(|v: Vec<char>| v@), sx as int, sy as int, ex as int, ey as int),
        ),
{
    let ghost l = lines@.map_values(|v: Vec<char>| v@);
    let ghost first = l[sy as int].skip(sx as int);
    let mut killed = copy_range(lines[sy].as_slice(), sx, lines[sy].len());
    assert(l[sy as int].subrange(sx as int, l[sy as int].len() as int) =~= first);
    killed.push('\n');
    proof {
        assert(seq![first] + l.subrange(sy + 1, sy + 1) =~= seq![first]);
    }
    let mut j: usize = sy + 1;
    while j < ey
        invariant
            sy < j <= ey < lines@.len(),
            l == lines@.map_values(|v: Vec<char>| v@),
            killed@ == join_lines(seq![first] + l.subrange(sy + 1, j as int)) + seq!['\n'],
        decreases ey - j,
    {
        proof {
            lemma_join_push(seq![first] + l.subrange(sy + 1, j as int), l[j as int]);
            assert((seq![first] + l.subrange(sy + 1, j as int)).push(l[j as int]) =~= seq![first]
                + l.subrange(sy + 1, j + 1));
        }
        push_slice(&mut killed, lines[j].as_slice());
        killed.push('\n');
        j = j + 1;
    }
    push_range(&mut killed, lines[ey].as_slice(), 0, ex);
    proof {
        let p = seq![first] + l.subrange(sy + 1, ey as int);
        lemma_join_push(p, l[ey as int].take(ex as int));
        assert(l[ey as int].subrange(0, ex as int) =~= l[ey as int].take(ex as int));
        assert(p.push(l[ey as int].take(ex as int)) =~= span_pieces(l, sx as int, sy as int, ex as int, ey as int));
    }
    killed
}

/// Cuts the non-empty span `(sx, sy)..(ex, ey)` into the kill buffer.
fn cut_span(view: &mut View, sx: usize, sy: usize, ex: usize, ey: usize)
    requires
        sy <= ey < old(view).bufvec@.len(),
        sx <= old(view).bufvec@[sy as int]@.len(),
        ex <= old(view).bufvec@[ey as int]@.len(),
        sy == ey ==> sx < ex,
    ensures
        final(view).model() == cut_spec(old(view).model(), sx as int, sy as int, ex as int, ey as int),
        final(view).same_setting(old(view)),
{
    let ghost m = old(view).model();
    let ghost l = m.lines;
    let _n = view.bufvec.len();
    if sy == ey {
        let killed = copy_range(view.bufvec[sy].as_slice(), sx, ex);
        let prefix = copy_range(view.bufvec[sy].as_slice(), 0, sx);
        let new_line = concat_range(prefix.as_slice(), view.bufvec[sy].as_slice(), ex, view.bufvec[sy].len());
        assert(l[sy as int].take(sx as int) =~= l[sy as int].subrange(0, sx as int));
        assert(l[sy as int].skip(ex as int) =~= l[sy as int].subrange(ex as int, l[sy as int].len() as int));
        view.kill = killed;
        view.bufvec.set(sy, new_line);
        mark_recompute(view, sy);
        proof {
            assert(join_lines(span_pieces(l, sx as int, sy as int, ex as int, ey as int)) == l[sy as int].subrange(sx as int, ex as int));
            assert(view.bufvec@.map_values(|v: Vec<char>| v@) =~= lines_after_cut(l, sx as int, sy as int, ex as int, ey as int));
        }
    } else {
        let killed = gather_span(&view.bufvec, sx, sy, ex, ey);
        let prefix = copy_range(view.bufvec[sy].as_slice(), 0, sx);
        let new_line = concat_range(prefix.as_slice(), view.bufvec[ey].as_slice(), ex, view.bufvec[ey].len());
        assert(l[sy as int].take(sx as int) =~= l[sy as int].subrange(0, sx as int));
        assert(l[ey as int].skip(ex as int) =~= l[ey as int].subrange(ex as int, l[ey as int].len() as int));
        view.bufvec.set(sy, new_line);
        remove_span(&mut view.bufvec, sy + 1, ey + 1);
        remove_cache_lines(view, sy + 1, ey - sy);
        mark_recompute(view, sy);
        view.kill = killed;
        proof {
            assert(view.bufvec@.map_values(|v: Vec<char>| v@) =~= lines_after_cut(l, sx as int, sy as int, ex as int, ey as int));
        }
    }
    view.cursor_x = sx;
    view.cursor_y = sy;
    view.status.saved = false;
    assert(final(view).model() =~= cut_spec(m, sx as int, sy as int, ex as int, ey as int));
}

/// Cuts the text between the cursor and `to` into the kill buffer (an empty
/// span empties the kill buffer and changes nothing else); the cursor moves
/// to the start of the span.
pub fn buf_kill_lines(view: &mut View, to: (usize, usize))
    ensures
        final(view).model() == kill_spec(old(view).model(), (to.0 as int, to.1 as int)),
        final(view).same_setting(old(view)),
{
    let ghost m = old(view).model();
    reveal(kill_spec);
    if view.bufvec.is_empty() {
        view.kill.clear();
        assert(final(view).model() =~= kill_spec(m, (to.0 as int, to.1 as int)));
        return;
    }
    let n = view.bufvec.len();
    let mut sy = if view.cursor_y < n - 1 {
        view.cursor_y
    } else {
        n - 1
    };
    let mut sx = if view.cursor_x < view.bufvec[sy].len() {
        view.cursor_x
    } else {
        view.bufvec[sy].len()
    };
    let mut ey = if to.1 < n - 1 {
        to.1
    } else {
        n - 1
    };
    let mut ex = if to.0 < view.bufvec[ey].len() {
        to.0
    } else {
        view.bufvec[ey].len()
    };
    if ey < sy || (ey == sy && ex < sx) {
        let ty = sy;
        sy = ey;
        ey = ty;
        let tx = sx;
        sx = ex;
        ex = tx;
    }
    assert((sx as int, sy as int, ex as int, ey as int) == kill_span(m, (to.0 as int, to.1 as int)));
    if sy == ey && sx == ex {
        view.kill.clear();
        assert(final(view).model() =~= kill_spec(m, (to.0 as int, to.1 as int)));
        return;
    }
    cut_span(view, sx, sy, ex, ey);
}

/// Inserts copies of `parts[from..to]` at `at`.
fn insert_pieces(buf: &mut Vec<Vec<char>>, at: usize, parts: &Vec<Vec<char>>, from: usize, to: usize)
    requires
        at <= old(buf)@.len(),
        from <= to <= parts@.len(),
    ensures
        final(buf)@.map_values(|v: Vec<char>| v@) == old(buf)@.map_values(|v: Vec<char>| v@).take(
            at as int,
        ) + parts@.map_values(|v: Vec<char>| v@).subrange(from as int, to as int) + old(buf)@.map_values(
            |v: Vec<char>| v@,
        ).skip(at as int),
{
    let ghost l = old(buf)@.map_values(|v: Vec<char>| v@);
    let ghost ps = parts@.map_values(|v: Vec<char>| v@);
    let mut j: usize = from;
    while j < to
        invariant
            from <= j <= to <= parts@.len(),
            at <= l.len(),
            l == old(buf)@.map_values(|v: Vec<char>| v@),
            ps == parts@.map_values(|v: Vec<char>| v@),
            buf@.len() == l.len() + (j - from),
            buf@.map_values(|v: Vec<char>| v@) == l.take(at as int) + ps.subrange(from as int, j as int)
                + l.skip(at as int),
        decreases to - j,
    {
        let piece = copy_range(parts[j].as_slice(), 0, parts[j].len());
        assert(ps[j as int].subrange(0, ps[j as int].len() as int) =~= ps[j as int]);
        let len = buf.len();
        let pos = at + (j - from);
        let ghost before = buf@;
        buf.insert(pos, piece);
        assert(buf@.map_values(|v: Vec<char>| v@) =~= before.map_values(|v: Vec<char>| v@).insert(pos as int, piece@));
        assert(buf@.map_values(|v: Vec<char>| v@) =~= l.take(at as int) + ps.subrange(from as int, j + 1)
            + l.skip(at as int));
        j = j + 1;
    }
}

fn settle_cursor(view: &mut View)
    ensures
        final(view).model() == settle_cursor_spec(old(view).model()),
        final(view).same_setting(old(view)),
{
    if view.bufvec.is_empty() {
        view.bufvec.push(Vec::new());
        view.cursor_y = 0;
        view.cursor_x = 0;
        if view.hlcache.is_empty() {
            view.hlcache.push(0);
        }
        assert(view.bufvec@.map_values(|v: Vec<char>| v@) =~= seq![Seq::<char>::empty()]);
    }
    if view.cursor_y >= view.bufvec.len() {
        view.cursor_y = view.bufvec.len() - 1;
    }
    if view.cursor_x > view.bufvec[view.cursor_y].len() {
        view.cursor_x = view.bufvec[view.cursor_y].len();
    }
    assert(final(view).model() =~= settle_cursor_spec(old(view).model()));
}

/// Inserts `ins` at the cursor, which lies in the buffer.
fn place(view: &mut View, ins: &[char])
    requires
        old(view).cursor_y < old(view).bufvec@.len(),
        old(view).cursor_x <= old(view).bufvec@[old(view).cursor_y as int]@.len(),
        ins@.len() > 0,
    ensures
        final(view).model() == place_spec(old(view).model(), ins@),
        final(view).same_setting(old(view)),
{
    let ghost m = old(view).model();
    let ghost l = m.lines;
    let cy = view.cursor_y;
    let cx = view.cursor_x;
    let n = view.bufvec.len();
    let parts = split_lines_exec(ins);
    let ghost ps = parts@.map_values(|v: Vec<char>| v@);
    proof {
        lemma_split_len(ins@);
    }
    let k = parts.len();
    let line_len = view.bufvec[cy].len();
    let left = copy_range(view.bufvec[cy].as_slice(), 0, cx);
    assert(l[cy as int].take(cx as int) =~= left@);
    if k == 1 {
        let mut new_line = concat_range(left.as_slice(), ins, 0, ins.len());
        push_range(&mut new_line, view.bufvec[cy].as_slice(), cx, line_len);
        assert(ins@.subrange(0, ins@.len() as int) =~= ins@);
        assert(l[cy as int].skip(cx as int) =~= l[cy as int].subrange(cx as int, line_len as int));
        let new_len = new_line.len();
        view.bufvec.set(cy, new_line);
        view.cursor_x = cx + ins.len();
        mark_recompute(view, cy);
        view.status.saved = false;
        assert(view.bufvec@.map_values(|v: Vec<char>| v@) =~= l.update(
            cy as int,
            l[cy as int].take(cx as int) + ins@ + l[cy as int].skip(cx as int),
        ));
    } else {
        let first = concat_range(left.as_slice(), parts[0].as_slice(), 0, parts[0].len());
        assert(ps[0].subrange(0, ps[0].len() as int) =~= ps[0]);
        let mut last = copy_range(parts[k - 1].as_slice(), 0, parts[k - 1].len());
        assert(ps[k - 1].subrange(0, ps[k - 1].len() as int) =~= ps[k - 1]);
        push_range(&mut last, view.bufvec[cy].as_slice(), cx, line_len);
        assert(l[cy as int].skip(cx as int) =~= l[cy as int].subrange(cx as int, line_len as int));
        let last_len = parts[k - 1].len();
        view.bufvec.set(cy, first);
        let ghost l1 = view.bufvec@.map_values(|v: Vec<char>| v@);
        assert(l1 =~= l.update(cy as int, left@ + ps[0]));
        insert_pieces(&mut view.bufvec, cy + 1, &parts, 1, k - 1);
        let ghost l2 = view.bufvec@.map_values(|v: Vec<char>| v@);
        assert(l2.len() == n + (k - 2));
        let _len2 = view.bufvec.len();
        let at = cy + (k - 1);
        assert(l2 =~= l.take(cy as int) + seq![left@ + ps[0]] + ps.subrange(1, k - 1) + l.skip(cy + 1));
        let ghost lastv = last@;
        assert(lastv == ps[k - 1] + l[cy as int].skip(cx as int));
        let ghost b2 = view.bufvec@;
        view.bufvec.insert(at, last);
        assert(view.bufvec@.map_values(|v: Vec<char>| v@) =~= l2.insert(at as int, lastv));
        assert(view.bufvec@.map_values(|v: Vec<char>| v@) =~= l.take(cy as int) + seq![left@ + ps[0]]
            + ps.subrange(1, k - 1) + seq![ps[k - 1] + l[cy as int].skip(cx as int)] + l.skip(cy + 1));
        insert_cache_lines(view, cy + 1, k - 1);
        view.cursor_y = cy + (k - 1);
        view.cursor_x = last_len;
        mark_recompute(view, cy);
        view.status.saved = false;
        assert(view.bufvec@.map_values(|v: Vec<char>| v@) =~= l.take(cy as int) + seq![left@ + ps[0]]
            + ps.subrange(1, k - 1) + seq![ps[k - 1] + l[cy as int].skip(cx as int)] + l.skip(cy + 1));
    }
    assert(final(view).model() =~= place_spec(m, ins@));
}

/// Inserts `insert` (tabs expanded to four spaces) at the cursor, splitting
/// the line at each newline; the cursor ends after the inserted text.
pub fn buf_insert_lines(view: &mut View, insert: &[char])
    ensures
        final(view).model() == insert_spec(old(view).model(), insert@),
        final(view).same_setting(old(view)),
{
    reveal(insert_spec);
    let ins = expand_tabs_exec(insert);
    if ins.len() == 0 {
        return;
    }
    settle_cursor(view);
    place(view, ins.as_slice());
}

} // verus!