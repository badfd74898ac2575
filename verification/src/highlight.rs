use vstd::prelude::*;

use crate::editor::Run;
use crate::regex::{
    byte_offset, try_byte_offsets, char_index, char_index_of, lemma_byte_len, lemma_byte_offset_monotone,
    lemma_char_index_after, lemma_char_index_past, onig_match, onig_match_at, string_of,
};
use crate::editor::copy_range;
use crate::stack::{frames_wf, lemma_push_result, spec_push, Frame, Stack};
use crate::syntax::{applicable_spec, match_locs, Action, ContextReference, Grammar, MatchRule, Rule};
use vstd::string::StringSliceAdditionalSpecFns;

verus! {

/// Every frame above the root names a valid context.
pub open spec fn frames_valid(g: &Grammar, frames: Seq<Frame>) -> bool {
    forall|i: int| 1 <= i < frames.len() ==> g.valid_ref(#[trigger] frames[i].context)
}

/// The context on top of the stack `f`.
pub open spec fn top_of(frames: Seq<Frame>, f: int) -> Option<ContextReference> {
    if f == 0 {
        None
    } else {
        Some(frames[f].context)
    }
}

/// The rules that apply on the stack `f` (none on the empty stack).
pub open spec fn rules_at(g: &Grammar, frames: Seq<Frame>, f: int) -> Seq<(ContextReference, usize)> {
    match top_of(frames, f) {
        Some(c) => applicable_spec(g, c),
        None => Seq::empty(),
    }
}

/// The pattern rule at a rule location.
pub open spec fn rule_of(g: &Grammar, loc: (ContextReference, usize)) -> MatchRule {
    match g.ctx(loc.0).rules@[loc.1 as int] {
        Rule::Match(m) => m,
        Rule::Include(_) => arbitrary(),
    }
}

/// The first rule from the `k`-th on whose pattern matches at byte `at`,
/// with the length of its match in bytes.
pub open spec fn first_match(
    g: &Grammar,
    rules: Seq<(ContextReference, usize)>,
    text: Seq<char>,
    at: usize,
    k: int,
) -> Option<(int, usize)>
    decreases rules.len() - k,
{
    if k < 0 || k >= rules.len() {
        None
    } else {
        match onig_match_at(rule_of(g, rules[k]).pattern@, text, at, 0) {
            Some(Some((len, _))) => Some((k, len)),
            _ => first_match(g, rules, text, at, k + 1),
        }
    }
}

/// Pushing the contexts `cs`, in order, on the stack `f`.
pub open spec fn push_all(frames: Seq<Frame>, f: int, cs: Seq<ContextReference>) -> (Seq<Frame>, int)
    decreases cs.len(),
{
    if cs.len() == 0 {
        (frames, f)
    } else {
        let (fr, f1) = push_all(frames, f, cs.drop_last());
        spec_push(fr, Frame { context: cs.last(), parent: f1 as usize })
    }
}

/// What a rule's action does to the stack `f`.
pub open spec fn apply_action(frames: Seq<Frame>, f: int, a: Option<Action>) -> (Seq<Frame>, int) {
    match a {
        None => (frames, f),
        Some(Action::Pop) => (frames, frames[f].parent as int),
        Some(Action::Replace(cs)) => push_all(frames, frames[f].parent as int, cs@),
        Some(Action::Push(cs)) => push_all(frames, f, cs@),
    }
}

/// The meta scope and meta content scope of the context on top.
pub open spec fn metas(g: &Grammar, top: Option<ContextReference>) -> (Option<String>, Option<String>) {
    match top {
        Some(c) => (g.ctx(c).meta_scope, g.ctx(c).meta_content_scope),
        None => (None, None),
    }
}

pub open spec fn min_int(a: int, b: int) -> int {
    if a <= b {
        a
    } else {
        b
    }
}

/// The runs of the capture groups `i..` of a match at byte `at`: each group
/// that took part and starts inside the line paints its span, clipped to the
/// line.
pub open spec fn group_runs(
    sc: Seq<String>,
    pattern: Seq<char>,
    text: Seq<char>,
    at: usize,
    real_len: int,
    i: int,
) -> Seq<Run>
    decreases sc.len() - i,
{
    if i < 0 || i >= sc.len() {
        Seq::empty()
    } else {
        let rest = group_runs(sc, pattern, text, at, real_len, i + 1);
        match onig_match_at(pattern, text, at, i as usize) {
            Some(Some((_, Some((a, b))))) => {
                let ac = char_index(text, a as int);
                let bc = char_index(text, b as int);
                if ac < real_len {
                    seq![((ac as usize, min_int(bc, real_len - 1) as usize), sc[i])] + rest
                } else {
                    rest
                }
            },
            _ => rest,
        }
    }
}

/// The runs a match of `len` characters at `cursor` paints.
pub open spec fn paint_match(
    m: MatchRule,
    meta: (Option<String>, Option<String>),
    base: String,
    cursor: int,
    len: int,
    text: Seq<char>,
    at: usize,
    real_len: int,
) -> Seq<Run> {
    if len <= 0 {
        Seq::empty()
    } else {
        let span = (cursor as usize, (cursor + len - 1) as usize);
        match m.scope {
            Some(sc) => if sc@.len() == 1 {
                seq![(span, sc@[0])]
            } else {
                group_runs(sc@, m.pattern@, text, at, real_len, 1)
            },
            None => match meta.0 {
                Some(ms) => seq![(span, ms)],
                None => if m.action is None {
                    match meta.1 {
                        Some(mc) => seq![(span, mc)],
                        None => seq![(span, base)],
                    }
                } else {
                    seq![(span, base)]
                },
            },
        }
    }
}

/// The state of the scan of one line.
pub struct HlState {
    pub cursor: int,
    pub frame: int,
    pub runs: Seq<Run>,
    pub frames: Seq<Frame>,
}

/// One step of the scan: the first applicable rule that matches at the
/// cursor paints its match, applies its action and moves the cursor past the
/// match (one column on for an empty match that leaves the stack as it was;
/// an empty match that changes the stack keeps the cursor where it is); when
/// no rule matches, the
/// cursor column takes the meta scope, the meta content scope or the
/// syntax's scope.
pub open spec fn step(g: &Grammar, base: String, text: Seq<char>, real_len: int, st: HlState) -> HlState {
    let top = top_of(st.frames, st.frame);
    let rules = rules_at(g, st.frames, st.frame);
    let meta = metas(g, top);
    let at = byte_offset(text, st.cursor) as usize;
    match first_match(g, rules, text, at, 0) {
        Some((k, lenb)) => {
            let m = rule_of(g, rules[k]);
            let len = char_index(text, at + lenb) - st.cursor;
            let runs = st.runs + paint_match(m, meta, base, st.cursor, len, text, at, real_len);
            let (fr, f) = apply_action(st.frames, st.frame, m.action);
            if len > 0 {
                HlState { cursor: st.cursor + len, frame: f, runs, frames: fr }
            } else if f == st.frame {
                HlState { cursor: st.cursor + 1, frame: f, runs, frames: fr }
            } else {
                HlState { cursor: st.cursor, frame: f, runs, frames: fr }
            }
        },
        None => {
            let sc = match meta.0 {
                Some(ms) => ms,
                None => match meta.1 {
                    Some(mc) => mc,
                    None => base,
                },
            };
            HlState {
                cursor: st.cursor + 1,
                runs: st.runs.push(((st.cursor as usize, st.cursor as usize), sc)),
                ..st
            }
        },
    }
}

/// The scan of the columns of the line from the state `st` on, within
/// `fuel` steps: `None` when the line is not done by then.
pub open spec fn run(g: &Grammar, base: String, text: Seq<char>, real_len: int, st: HlState, fuel: nat) -> Option<
    HlState,
>
    decreases fuel,
{
    if st.cursor < 0 || st.cursor >= real_len {
        Some(st)
    } else if fuel == 0 {
        None
    } else {
        run(g, base, text, real_len, step(g, base, text, real_len, st), (fuel - 1) as nat)
    }
}

/// The scan from `st` comes to the end of the line: the rules do not keep
/// changing the stack at one column forever.
pub open spec fn scan_ends(g: &Grammar, base: String, text: Seq<char>, real_len: int, st: HlState) -> bool {
    exists|fuel: nat| #[trigger] run(g, base, text, real_len, st, fuel) is Some
}

/// The state the scan of the line from `st` ends in (when it ends).
pub open spec fn scan(g: &Grammar, base: String, text: Seq<char>, real_len: int, st: HlState) -> HlState {
    run(g, base, text, real_len, st, choose|fuel: nat| #[trigger] run(g, base, text, real_len, st, fuel) is Some)->0
}

/// At the end of the line: the first of the rules from the `k`-th on that
/// match there and change the stack (the actions of those that match without
/// changing it are applied too).
pub open spec fn eol_scan(
    g: &Grammar,
    rules: Seq<(ContextReference, usize)>,
    text: Seq<char>,
    at: usize,
    frames: Seq<Frame>,
    f: int,
    k: int,
) -> (Seq<Frame>, int, bool)
    decreases rules.len() - k,
{
    if k < 0 || k >= rules.len() {
        (frames, f, false)
    } else {
        match onig_match_at(rule_of(g, rules[k]).pattern@, text, at, 0) {
            Some(Some(_)) => {
                let (fr, f2) = apply_action(frames, f, rule_of(g, rules[k]).action);
                if f2 != f {
                    (fr, f2, true)
                } else {
                    eol_scan(g, rules, text, at, fr, f, k + 1)
                }
            },
            _ => eol_scan(g, rules, text, at, frames, f, k + 1),
        }
    }
}

/// Up to 32 rounds of end-of-line stack changes, stopping at the first round
/// that changes nothing.
pub open spec fn eol_loop(g: &Grammar, text: Seq<char>, at: usize, frames: Seq<Frame>, f: int, steps: int) -> (
    Seq<Frame>,
    int,
)
    decreases 32 - steps,
{
    if steps >= 32 {
        (frames, f)
    } else {
        let (fr, f2, changed) = eol_scan(g, rules_at(g, frames, f), text, at, frames, f, 0);
        if !changed {
            (fr, f2)
        } else {
            eol_loop(g, text, at, fr, f2, steps + 1)
        }
    }
}

/// The scope runs of a line and the stack it ends on, starting on the stack
/// `begin` of the frame table `frames`, with the frame table that results.
/// (A line whose UTF-8 form with its newline does not fit in memory
/// offsets is left unpainted, on the stack it starts on.)
pub open spec fn highlight_spec(g: &Grammar, syn: u16, line: Seq<char>, begin: int, frames: Seq<Frame>) -> (
    Seq<Run>,
    int,
    Seq<Frame>,
) {
    if byte_offset(line.push('\n'), line.len() + 1int) > usize::MAX {
        (Seq::empty(), begin, frames)
    } else {
        highlight_fitting(g, syn, line, begin, frames)
    }
}

pub open spec fn highlight_fitting(g: &Grammar, syn: u16, line: Seq<char>, begin: int, frames: Seq<Frame>) -> (
    Seq<Run>,
    int,
    Seq<Frame>,
) {
    let text = line.push('\n');
    let real_len = line.len() as int;
    let base = g.syntaxes@[syn as int].scope;
    let st = scan(
        g,
        base,
        text,
        real_len,
        HlState { cursor: 0, frame: begin, runs: Seq::empty(), frames },
    );
    let (fr, f) = eol_loop(g, text, byte_offset(text, real_len) as usize, st.frames, st.frame, 0);
    (st.runs, f, fr)
}

/// Highlighting the line from the stack `begin` comes to the end of it.
pub open spec fn hl_ends(g: &Grammar, syn: u16, line: Seq<char>, begin: int, frames: Seq<Frame>) -> bool {
    byte_offset(line.push('\n'), line.len() + 1int) > usize::MAX || scan_ends(
        g,
        g.syntaxes@[syn as int].scope,
        line.push('\n'),
        line.len() as int,
        HlState { cursor: 0, frame: begin, runs: Seq::empty(), frames },
    )
}

/// The stack `f` of a frame table: a well-formed table of valid contexts
/// and an id in it.
pub open spec fn stack_ok(g: &Grammar, frames: Seq<Frame>, f: int) -> bool {
    &&& frames_wf(frames)
    &&& frames_valid(g, frames)
    &&& parents_ok(frames)
    &&& 0 <= f < frames.len()
}

/// Every frame's parent is a frame of the table.
pub open spec fn parents_ok(frames: Seq<Frame>) -> bool {
    forall|i: int| 0 <= i < frames.len() ==> (#[trigger] frames[i].parent as int) < frames.len()
}

/// The contexts an action pushes are valid.
pub open spec fn action_ok(g: &Grammar, a: Option<Action>) -> bool {
    match a {
        Some(Action::Replace(cs)) => forall|j: int| 0 <= j < cs@.len() ==> g.valid_ref(#[trigger] cs@[j]),
        Some(Action::Push(cs)) => forall|j: int| 0 <= j < cs@.len() ==> g.valid_ref(#[trigger] cs@[j]),
        _ => true,
    }
}

proof fn lemma_push_all_ok(g: &Grammar, frames: Seq<Frame>, f: int, cs: Seq<ContextReference>)
    requires
        stack_ok(g, frames, f),
        forall|j: int| 0 <= j < cs.len() ==> g.valid_ref(#[trigger] cs[j]),
    ensures
        ({
            let (fr, f2) = push_all(frames, f, cs);
            &&& stack_ok(g, fr, f2)
            &&& frames.len() <= fr.len()
        }),
    decreases cs.len(),
{
    if cs.len() > 0 {
        let init = cs.drop_last();
        assert forall|j: int| 0 <= j < init.len() implies g.valid_ref(#[trigger] init[j]) by {
            assert(init[j] == cs[j]);
        }
        lemma_push_all_ok(g, frames, f, init);
        let (fr, f1) = push_all(frames, f, init);
        let fm = Frame { context: cs.last(), parent: f1 as usize };
        lemma_push_result(fr, fm);
        let (t, r) = spec_push(fr, fm);
        assert(g.valid_ref(cs[cs.len() - 1]));
        assert forall|i: int| 1 <= i < t.len() implies g.valid_ref(#[trigger] t[i].context) by {
            if i < fr.len() {
                assert(t.subrange(0, fr.len() as int)[i] == fr[i]);
            } else {
                assert(t[i] == fm);
            }
        }
        assert forall|i: int| 0 <= i < t.len() implies (#[trigger] t[i].parent as int) < t.len() by {
            if i < fr.len() {
                assert(t.subrange(0, fr.len() as int)[i] == fr[i]);
            } else {
                assert(t[i] == fm);
            }
        }
    }
}

proof fn lemma_action_ok(g: &Grammar, frames: Seq<Frame>, f: int, a: Option<Action>)
    requires
        stack_ok(g, frames, f),
        action_ok(g, a),
    ensures
        ({
            let (fr, f2) = apply_action(frames, f, a);
            stack_ok(g, fr, f2)
        }),
{
    match a {
        Some(Action::Pop) => {},
        Some(Action::Replace(cs)) => {
            lemma_push_all_ok(g, frames, frames[f].parent as int, cs@);
        },
        Some(Action::Push(cs)) => {
            lemma_push_all_ok(g, frames, f, cs@);
        },
        None => {},
    }
}

fn push_all_exec(stack: &mut Stack, f: usize, cs: &Vec<ContextReference>) -> (r: usize)
    requires
        old(stack).wf(),
    ensures
        final(stack).wf(),
        (final(stack)@, r as int) == push_all(old(stack)@, f as int, cs@),
        old(stack)@.len() <= final(stack)@.len(),
{
    let mut cur = f;
    let mut i: usize = 0;
    assert(cs@.take(0) =~= Seq::<ContextReference>::empty());
    while i < cs.len()
        invariant
            stack.wf(),
            i <= cs@.len(),
            (stack@, cur as int) == push_all(old(stack)@, f as int, cs@.take(i as int)),
            old(stack)@.len() <= stack@.len(),
        decreases cs@.len() - i,
    {
        assert(cs@.take(i + 1).drop_last() =~= cs@.take(i as int));
        cur = stack.push(cs[i], cur);
        i = i + 1;
    }
    assert(cs@.take(cs@.len() as int) =~= cs@);
    cur
}

fn apply_action_exec(stack: &mut Stack, f: usize, a: &Option<Action>) -> (r: usize)
    requires
        old(stack).wf(),
        f < old(stack)@.len(),
    ensures
        final(stack).wf(),
        (final(stack)@, r as int) == apply_action(old(stack)@, f as int, *a),
        old(stack)@.len() <= final(stack)@.len(),
{
    match a {
        None => f,
        Some(Action::Pop) => stack.pop(f),
        Some(Action::Replace(cs)) => {
            let p = stack.pop(f);
            push_all_exec(stack, p, cs)
        },
        Some(Action::Push(cs)) => push_all_exec(stack, f, cs),
    }
}

/// The pattern rule at a location that names one.
fn rule_at<'a>(g: &'a Grammar, loc: (ContextReference, usize)) -> (m: &'a MatchRule)
    requires
        g.valid_ref(loc.0),
        (loc.1 as int) < g.ctx(loc.0).rules@.len(),
        g.ctx(loc.0).rules@[loc.1 as int] is Match,
    ensures
        *m == rule_of(g, loc),
{
    let c = g.get_context(loc.0);
    match &c.rules[loc.1] {
        Rule::Match(m) => m,
        Rule::Include(_) => vstd::pervasive::unreached(),
    }
}

fn first_match_exec(
    g: &Grammar,
    rules: &Vec<(ContextReference, usize)>,
    text: &str,
    at: usize,
) -> (r: Option<(usize, usize)>)
    requires
        match_locs(g, rules@),
        at <= text.spec_bytes().len(),
    ensures
        match r {
            Some((k, len)) => first_match(g, rules@, text@, at, 0) == Some((k as int, len)),
            None => first_match(g, rules@, text@, at, 0) is None,
        },
{
    let mut k: usize = 0;
    while k < rules.len()
        invariant
            match_locs(g, rules@),
            at <= text.spec_bytes().len(),
            k <= rules@.len(),
            first_match(g, rules@, text@, at, 0) == first_match(g, rules@, text@, at, k as int),
        decreases rules@.len() - k,
    {
        let loc = rules[k];
        let m = rule_at(g, loc);
        match onig_match(m.pattern.as_str(), text, at, 0) {
            Some(Some((len, _))) => {
                return Some((k, len));
            },
            _ => {},
        }
        k = k + 1;
    }
    None
}

/// The byte offsets of the characters of `text`, with `text` in a string.
pub open spec fn offsets_of(offs: Seq<usize>, text: &str) -> bool {
    &&& offs.len() == text@.len() + 1
    &&& forall|i: int| 0 <= i <= text@.len() ==> offs[i] == byte_offset(text@, i)
    &&& byte_offset(text@, text@.len() as int) == text.spec_bytes().len()
}

fn group_runs_exec(
    sc: &Vec<String>,
    pattern: &str,
    text: &str,
    offs: &Vec<usize>,
    at: usize,
    real_len: usize,
    out: &mut Vec<Run>,
)
    requires
        offsets_of(offs@, text),
        at <= text.spec_bytes().len(),
        real_len + 1 == text@.len(),
    ensures
        final(out)@ == old(out)@ + group_runs(sc@, pattern@, text@, at, real_len as int, 1),
{
    let mut i: usize = 1;
    if sc.len() < 1 {
        assert(final(out)@ =~= old(out)@ + group_runs(sc@, pattern@, text@, at, real_len as int, 1));
        return;
    }
    while i < sc.len()
        invariant
            1 <= i <= sc@.len(),
            offsets_of(offs@, text),
            at <= text.spec_bytes().len(),
            real_len + 1 == text@.len(),
            out@ + group_runs(sc@, pattern@, text@, at, real_len as int, i as int) == old(out)@
                + group_runs(sc@, pattern@, text@, at, real_len as int, 1),
        decreases sc@.len() - i,
    {
        let ghost before = out@;
        let ghost rest = group_runs(sc@, pattern@, text@, at, real_len as int, i + 1);
        match onig_match(pattern, text, at, i) {
            Some(Some((_, Some((a, b))))) => {
                let ac = char_index_of(offs, Ghost(text@), a);
                let bc = char_index_of(offs, Ghost(text@), b);
                if ac < real_len {
                    let hi = if bc < real_len - 1 {
                        bc
                    } else {
                        real_len - 1
                    };
                    out.push(((ac, hi), sc[i].clone()));
                    assert(out@ + rest =~= before + (seq![((ac, hi), sc@[i as int])] + rest));
                }
            },
            _ => {},
        }
        i = i + 1;
    }
    assert(out@ + group_runs(sc@, pattern@, text@, at, real_len as int, i as int) =~= out@);
}

fn paint_exec(
    m: &MatchRule,
    meta_scope: &Option<String>,
    meta_content: &Option<String>,
    base: &String,
    cursor: usize,
    len: usize,
    text: &str,
    offs: &Vec<usize>,
    at: usize,
    real_len: usize,
    out: &mut Vec<Run>,
)
    requires
        offsets_of(offs@, text),
        at <= text.spec_bytes().len(),
        real_len + 1 == text@.len(),
        cursor + len <= text@.len(),
    ensures
        final(out)@ == old(out)@ + paint_match(
            *m,
            (*meta_scope, *meta_content),
            *base,
            cursor as int,
            len as int,
            text@,
            at,
            real_len as int,
        ),
{
    if len == 0 {
        assert(final(out)@ =~= old(out)@ + Seq::<Run>::empty());
        return;
    }
    let _n = offs.len();
    let span = (cursor, cursor + len - 1);
    let ghost before = out@;
    match &m.scope {
        Some(sc) => {
            if sc.len() == 1 {
                out.push((span, sc[0].clone()));
            } else {
                group_runs_exec(sc, m.pattern.as_str(), text, offs, at, real_len, out);
            }
        },
        None => {
            match meta_scope {
                Some(ms) => {
                    out.push((span, ms.clone()));
                },
                None => {
                    if m.action.is_none() {
                        match meta_content {
                            Some(mc) => {
                                out.push((span, mc.clone()));
                            },
                            None => {
                                out.push((span, base.clone()));
                            },
                        }
                    } else {
                        out.push((span, base.clone()));
                    }
                },
            }
        },
    }
    assert(out@ =~= before + paint_match(
        *m,
        (*meta_scope, *meta_content),
        *base,
        cursor as int,
        len as int,
        text@,
        at,
        real_len as int,
    ));
}

proof fn lemma_first_match_range(
    g: &Grammar,
    rules: Seq<(ContextReference, usize)>,
    text: Seq<char>,
    at: usize,
    k: int,
)
    requires
        0 <= k,
        first_match(g, rules, text, at, k) is Some,
    ensures
        first_match(g, rules, text, at, k) matches Some(p) ==> k <= p.0 < rules.len(),
    decreases rules.len() - k,
{
    if k < rules.len() {
        match onig_match_at(rule_of(g, rules[k]).pattern@, text, at, 0) {
            Some(Some(_)) => {},
            _ => lemma_first_match_range(g, rules, text, at, k + 1),
        }
    }
}

/// The rule of a grammar location takes only valid contexts in its action.
proof fn lemma_rule_action_ok(g: &Grammar, loc: (ContextReference, usize))
    requires
        g.wf(),
        g.valid_ref(loc.0),
        (loc.1 as int) < g.ctx(loc.0).rules@.len(),
        g.ctx(loc.0).rules@[loc.1 as int] is Match,
    ensures
        action_ok(g, rule_of(g, loc).action),
{
    assert(g.rule_refs_valid(g.ctx(loc.0).rules@[loc.1 as int]));
}

/// One step of the scan of a line (see `step`).
#[verifier::rlimit(40)]
fn hl_step(
    g: &Grammar,
    base: &String,
    text: &str,
    offs: &Vec<usize>,
    real_len: usize,
    stack: &mut Stack,
    cursor: usize,
    frame: usize,
    runs: &mut Vec<Run>,
) -> (r: (usize, usize))
    requires
        g.wf(),
        old(stack).wf(),
        stack_ok(g, old(stack)@, frame as int),
        offsets_of(offs@, text),
        real_len + 1 == text@.len(),
        cursor < real_len,
    ensures
        ({
            let next = step(
                g,
                *base,
                text@,
                real_len as int,
                HlState { cursor: cursor as int, frame: frame as int, runs: old(runs)@, frames: old(stack)@ },
            );
            &&& r.0 == next.cursor
            &&& r.1 == next.frame
            &&& final(runs)@ == next.runs
            &&& final(stack)@ == next.frames
        }),
        final(stack).wf(),
        stack_ok(g, final(stack)@, r.1 as int),
        old(stack)@.len() <= final(stack)@.len(),
        cursor <= r.0 <= text@.len(),
{
    let ghost st = HlState { cursor: cursor as int, frame: frame as int, runs: runs@, frames: stack@ };
    let top = stack.top(frame);
    let rules: Vec<(ContextReference, usize)>;
    let ms: &Option<String>;
    let mc: &Option<String>;
    let none: Option<String> = None;
    let none2: Option<String> = None;
    match top {
        Some(c) => {
            let info = g.get_context(c);
            rules = g.applicable(c);
            ms = &info.meta_scope;
            mc = &info.meta_content_scope;
        },
        None => {
            rules = Vec::new();
            ms = &none;
            mc = &none2;
        },
    }
    assert(rules@ == rules_at(g, stack@, frame as int));
    assert((*ms, *mc) == metas(g, top_of(stack@, frame as int)));
    let at = offs[cursor];
    proof {
        lemma_byte_offset_monotone(text@, cursor as int, text@.len() as int);
    }
    match first_match_exec(g, &rules, text, at) {
        Some((k, lenb)) => {
            proof {
                lemma_first_match_range(g, rules@, text@, at, 0);
            }
            let loc = rules[k];
            assert(match_locs(g, rules@));
            assert(g.valid_ref(rules@[k as int].0));
            let m = rule_at(g, loc);
            let n = offs.len() - 1;
            let end = if lenb <= usize::MAX - at {
                char_index_of(offs, Ghost(text@), at + lenb)
            } else {
                proof {
                    assert(offs@[n as int] == byte_offset(text@, n as int));
                    lemma_char_index_past(text@, at + lenb);
                }
                n
            };
            proof {
                lemma_char_index_after(text@, at + lenb, cursor as int);
                lemma_rule_action_ok(g, loc);
            }
            let len = end - cursor;
            paint_exec(m, ms, mc, base, cursor, len, text, offs, at, real_len, runs);
            let f = apply_action_exec(stack, frame, &m.action);
            proof {
                lemma_action_ok(g, st.frames, frame as int, m.action);
            }
            if len > 0 {
                (cursor + len, f)
            } else if f == frame {
                (cursor + 1, f)
            } else {
                (cursor, f)
            }
        },
        None => {
            let sc = match ms {
                Some(s) => s.clone(),
                None => match mc {
                    Some(s) => s.clone(),
                    None => base.clone(),
                },
            };
            runs.push(((cursor, cursor), sc));
            (cursor + 1, frame)
        },
    }
}

fn rules_at_exec(g: &Grammar, stack: &Stack, f: usize) -> (r: Vec<(ContextReference, usize)>)
    requires
        g.wf(),
        stack.wf(),
        stack_ok(g, stack@, f as int),
    ensures
        r@ == rules_at(g, stack@, f as int),
        match_locs(g, r@),
{
    match stack.top(f) {
        Some(c) => g.applicable(c),
        None => Vec::new(),
    }
}

fn eol_scan_exec(
    g: &Grammar,
    rules: &Vec<(ContextReference, usize)>,
    text: &str,
    at: usize,
    stack: &mut Stack,
    f: usize,
) -> (r: (usize, bool))
    requires
        g.wf(),
        old(stack).wf(),
        stack_ok(g, old(stack)@, f as int),
        match_locs(g, rules@),
        at <= text.spec_bytes().len(),
    ensures
        (final(stack)@, r.0 as int, r.1) == eol_scan(g, rules@, text@, at, old(stack)@, f as int, 0),
        final(stack).wf(),
        stack_ok(g, final(stack)@, r.0 as int),
        old(stack)@.len() <= final(stack)@.len(),
{
    let mut k: usize = 0;
    while k < rules.len()
        invariant
            g.wf(),
            stack.wf(),
            stack_ok(g, stack@, f as int),
            match_locs(g, rules@),
            at <= text.spec_bytes().len(),
            k <= rules@.len(),
            old(stack)@.len() <= stack@.len(),
            eol_scan(g, rules@, text@, at, old(stack)@, f as int, 0) == eol_scan(
                g,
                rules@,
                text@,
                at,
                stack@,
                f as int,
                k as int,
            ),
        decreases rules@.len() - k,
    {
        let loc = rules[k];
        assert(g.valid_ref(rules@[k as int].0));
        let m = rule_at(g, loc);
        match onig_match(m.pattern.as_str(), text, at, 0) {
            Some(Some(_)) => {
                proof {
                    lemma_rule_action_ok(g, loc);
                    lemma_action_ok(g, stack@, f as int, m.action);
                }
                let f2 = apply_action_exec(stack, f, &m.action);
                if f2 != f {
                    return (f2, true);
                }
            },
            _ => {},
        }
        k = k + 1;
    }
    (f, false)
}

fn eol_loop_exec(g: &Grammar, text: &str, at: usize, stack: &mut Stack, f: usize) -> (r: usize)
    requires
        g.wf(),
        old(stack).wf(),
        stack_ok(g, old(stack)@, f as int),
        at <= text.spec_bytes().len(),
    ensures
        (final(stack)@, r as int) == eol_loop(g, text@, at, old(stack)@, f as int, 0),
        final(stack).wf(),
        stack_ok(g, final(stack)@, r as int),
        old(stack)@.len() <= final(stack)@.len(),
{
    let mut cur = f;
    let mut steps: usize = 0;
    while steps < 32
        invariant
            g.wf(),
            stack.wf(),
            stack_ok(g, stack@, cur as int),
            at <= text.spec_bytes().len(),
            steps <= 32,
            old(stack)@.len() <= stack@.len(),
            eol_loop(g, text@, at, old(stack)@, f as int, 0) == eol_loop(g, text@, at, stack@, cur as int, steps as int),
        decreases 32 - steps,
    {
        let rules = rules_at_exec(g, stack, cur);
        let (f2, changed) = eol_scan_exec(g, &rules, text, at, stack, cur);
        if !changed {
            return f2;
        }
        cur = f2;
        steps = steps + 1;
    }
    cur
}

/// The scope runs of `line` (columns are character indices; a run covers
/// both its ends) and the stack the line ends on, scanning from the stack
/// `begin_frame` of `stack` with the grammar `g` and syntax `syn`; new stack
/// states are interned in `stack`. An empty match that changes the stack
/// keeps the cursor where it is, so the scan of a line whose rules keep
/// changing the stack at one column never ends: such lines are left out
/// (`hl_ends`).
pub fn highlight_line(g: &Grammar, syn: u16, line: &[char], begin_frame: usize, stack: &mut Stack) -> (r: (
    Vec<Run>,
    usize,
))
    requires
        g.wf(),
        (syn as int) < g.syntaxes@.len(),
        old(stack).wf(),
        stack_ok(g, old(stack)@, begin_frame as int),
        hl_ends(g, syn, line@, begin_frame as int, old(stack)@),
    ensures
        (r.0@, r.1 as int, final(stack)@) == highlight_spec(g, syn, line@, begin_frame as int, old(stack)@),
        final(stack).wf(),
        stack_ok(g, final(stack)@, r.1 as int),
        old(stack)@.len() <= final(stack)@.len(),
{
    let len = line.len();
    let mut tv = copy_range(line, 0, len);
    tv.push('\n');
    assert(tv@ =~= line@.push('\n'));
    let offs = match try_byte_offsets(tv.as_slice()) {
        Some(o) => o,
        None => {
            return (Vec::new(), begin_frame);
        },
    };
    let owned = string_of(tv.as_slice());
    let text: &str = owned.as_str();
    proof {
        lemma_byte_len(tv@);
    }
    let base = &g.get_syntax_info(syn).scope;
    let ghost init = HlState { cursor: 0, frame: begin_frame as int, runs: Seq::empty(), frames: stack@ };
    assert(text@ == line@.push('\n'));
    assert(scan_ends(g, *base, text@, len as int, init));
    let ghost fin = scan(g, *base, text@, len as int, init);
    let ghost mut fuel: nat = choose|fuel: nat| #[trigger] run(g, *base, text@, len as int, init, fuel) is Some;
    let mut runs: Vec<Run> = Vec::new();
    let mut cursor: usize = 0;
    let mut frame = begin_frame;
    while cursor < len
        invariant
            g.wf(),
            stack.wf(),
            stack_ok(g, stack@, frame as int),
            offsets_of(offs@, text),
            text@ == line@.push('\n'),
            len == line@.len(),
            cursor <= len + 1,
            old(stack)@.len() <= stack@.len(),
            run(
                g,
                *base,
                text@,
                len as int,
                HlState { cursor: cursor as int, frame: frame as int, runs: runs@, frames: stack@ },
                fuel,
            ) == Some(fin),
        decreases fuel,
    {
        let (c2, f2) = hl_step(g, base, text, &offs, len, stack, cursor, frame, &mut runs);
        cursor = c2;
        frame = f2;
        proof {
            fuel = (fuel - 1) as nat;
        }
    }
    let at = offs[len];
    proof {
        lemma_byte_offset_monotone(text@, len as int, text@.len() as int);
    }
    let out = eol_loop_exec(g, text, at, stack, frame);
    (runs, out)
}

/// The state the scan of the columns of a line ends in, from the stack
/// `begin` of `frames`.
pub open spec fn columns_end(g: &Grammar, syn: u16, line: Seq<char>, begin: int, frames: Seq<Frame>) -> HlState {
    scan(
        g,
        g.syntaxes@[syn as int].scope,
        line.push('\n'),
        line.len() as int,
        HlState { cursor: 0, frame: begin, runs: Seq::empty(), frames },
    )
}

/// Whether the pattern of the rule at `loc` matches at byte `at` of `text`.
pub open spec fn rule_matches(g: &Grammar, loc: (ContextReference, usize), text: Seq<char>, at: usize) -> bool {
    onig_match_at(rule_of(g, loc).pattern@, text, at, 0) matches Some(Some(_))
}

proof fn lemma_eol_scan_skips(
    g: &Grammar,
    rules: Seq<(ContextReference, usize)>,
    text: Seq<char>,
    at: usize,
    frames: Seq<Frame>,
    f: int,
    j: int,
    k: int,
)
    requires
        0 <= j <= k <= rules.len(),
        forall|i: int| j <= i < k ==> !rule_matches(g, #[trigger] rules[i], text, at),
    ensures
        eol_scan(g, rules, text, at, frames, f, j) == eol_scan(g, rules, text, at, frames, f, k),
    decreases k - j,
{
    if j < k {
        assert(!rule_matches(g, rules[j], text, at));
        lemma_eol_scan_skips(g, rules, text, at, frames, f, j + 1, k);
    }
}

/// The stack a line ends on leaves a context that a rule closes at the end
/// of the line: when, on the stack the scan of the columns ends on (not the
/// empty one), the first applicable rule whose pattern matches at the
/// newline pops, and no rule that applies on the stack below matches there,
/// the next line starts on the stack below.
pub proof fn lemma_line_end_pops(g: &Grammar, syn: u16, line: Seq<char>, begin: int, frames: Seq<Frame>, k: int)
    requires
        byte_offset(line.push('\n'), line.len() + 1int) <= usize::MAX,
        ({
            let text = line.push('\n');
            let st = columns_end(g, syn, line, begin, frames);
            let at = byte_offset(text, line.len() as int) as usize;
            let rules = rules_at(g, st.frames, st.frame);
            let below = st.frames[st.frame].parent as int;
            &&& 0 < st.frame < st.frames.len()
            &&& below != st.frame
            &&& 0 <= k < rules.len()
            &&& forall|j: int| 0 <= j < k ==> !rule_matches(g, #[trigger] rules[j], text, at)
            &&& rule_matches(g, rules[k], text, at)
            &&& rule_of(g, rules[k]).action == Some(Action::Pop)
            &&& forall|j: int|
                0 <= j < rules_at(g, st.frames, below).len() ==> !rule_matches(
                    g,
                    #[trigger] rules_at(g, st.frames, below)[j],
                    text,
                    at,
                )
        }),
    ensures
        highlight_spec(g, syn, line, begin, frames).1 == columns_end(g, syn, line, begin, frames).frames[
            columns_end(g, syn, line, begin, frames).frame
        ].parent as int,
{
    let text = line.push('\n');
    let st = columns_end(g, syn, line, begin, frames);
    let at = byte_offset(text, line.len() as int) as usize;
    let rules = rules_at(g, st.frames, st.frame);
    let below = st.frames[st.frame].parent as int;
    lemma_eol_scan_skips(g, rules, text, at, st.frames, st.frame, 0, k);
    assert(eol_scan(g, rules, text, at, st.frames, st.frame, 0) == (st.frames, below, true));
    let rb = rules_at(g, st.frames, below);
    lemma_eol_scan_skips(g, rb, text, at, st.frames, below, 0, rb.len() as int);
    assert(eol_scan(g, rb, text, at, st.frames, below, 0) == (st.frames, below, false));
    assert(eol_loop(g, text, at, st.frames, below, 1) == (st.frames, below));
}

} // verus!
