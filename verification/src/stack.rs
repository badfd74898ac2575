use std::collections::HashMap;
use vstd::prelude::*;

use crate::syntax::ContextReference;

verus! {

broadcast use vstd::std_specs::hash::group_hash_axioms;

/// One frame of the context stack: a context and the id of the frame below it.
#[derive(Clone, Copy, Debug, PartialEq, Eq, Structural)]
pub struct Frame {
    pub context: ContextReference,
    pub parent: usize,
}

/// A persistent, hash-consed stack of syntax contexts.
///
/// Every stack state is a frame id; id 0 is the empty stack. Pushing the same
/// context on the same parent always yields the same id, so ids can be
/// compared for equality of whole stacks.
pub struct Stack {
    frames: Vec<Frame>,
    map: HashMap<u128, usize>,
}

/// The root frame that stands for the empty stack.
pub open spec fn root_frame() -> Frame {
    Frame { context: ContextReference(0, 0), parent: 0 }
}

/// Whether `f` occurs in `s` at an index other than the root.
pub open spec fn interned(s: Seq<Frame>, f: Frame) -> bool {
    exists|i: int| 1 <= i < s.len() && s[i] == f
}

/// Where `f` occurs in `s` (outside the root), when it does.
pub open spec fn interned_index(s: Seq<Frame>, f: Frame) -> int {
    choose|i: int| 1 <= i < s.len() && s[i] == f
}

/// No frame occurs twice outside the root.
pub open spec fn frames_unique(s: Seq<Frame>) -> bool {
    forall|i: int, j: int| 1 <= i < s.len() && 1 <= j < s.len() && s[i] == s[j] ==> i == j
}

/// A well-formed frame table: the root first, then distinct frames.
pub open spec fn frames_wf(s: Seq<Frame>) -> bool {
    &&& s.len() >= 1
    &&& s[0] == root_frame()
    &&& frames_unique(s)
}

/// The frame table and id that pushing `f` yields on the table `s`.
pub open spec fn spec_push(s: Seq<Frame>, f: Frame) -> (Seq<Frame>, int) {
    if interned(s, f) {
        (s, interned_index(s, f))
    } else {
        (s.push(f), s.len() as int)
    }
}

/// The key under which a frame is interned.
pub open spec fn frame_key(f: Frame) -> int {
    f.context.0 as int * 0x1_0000_0000_0000_0000_0000 + f.context.1 as int * 0x1_0000_0000_0000_0000
        + f.parent as int
}

/// Pushing a frame yields a non-root id whose frame is the pushed one, and a
/// table that keeps every earlier id and stays well formed.
pub proof fn lemma_push_result(s: Seq<Frame>, f: Frame)
    requires
        frames_wf(s),
    ensures
        ({
            let (t, r) = spec_push(s, f);
            &&& frames_wf(t)
            &&& 1 <= r < t.len()
            &&& t[r] == f
            &&& s.len() <= t.len()
            &&& t.subrange(0, s.len() as int) == s
        }),
{
    let (t, r) = spec_push(s, f);
    if !interned(s, f) {
        assert(t.subrange(0, s.len() as int) =~= s);
    } else {
        assert(t.subrange(0, s.len() as int) =~= s);
    }
}

/// Pushing the same context on the same parent twice gives the same id and
/// leaves the table as the first push left it.
pub proof fn lemma_push_idempotent(s: Seq<Frame>, f: Frame)
    requires
        frames_wf(s),
    ensures
        ({
            let (t, r) = spec_push(s, f);
            spec_push(t, f) == (t, r)
        }),
{
    lemma_push_result(s, f);
    let (t, r) = spec_push(s, f);
    assert(interned(t, f));
    let j = interned_index(t, f);
    assert(j == r);
}

/// Two pushes yield the same id exactly when they push the same context on
/// the same parent: ids identify whole stacks.
pub proof fn lemma_push_injective(s: Seq<Frame>, f: Frame, g: Frame)
    requires
        frames_wf(s),
    ensures
        ({
            let (t, r) = spec_push(s, f);
            let (u, q) = spec_push(t, g);
            (q == r) <==> (f == g)
        }),
{
    lemma_push_result(s, f);
    let (t, r) = spec_push(s, f);
    lemma_push_result(t, g);
    lemma_push_idempotent(s, f);
    let (u, q) = spec_push(t, g);
    if q == r {
        assert(u.subrange(0, t.len() as int)[r] == t[r]);
    }
}

proof fn lemma_frame_key_injective(f: Frame, g: Frame)
    requires
        frame_key(f) == frame_key(g),
    ensures
        f == g,
{
    assert(f.parent < 0x1_0000_0000_0000_0000 && g.parent < 0x1_0000_0000_0000_0000);
    assert(f.context.0 == g.context.0) by (nonlinear_arith)
        requires
            frame_key(f) == frame_key(g),
            f.parent < 0x1_0000_0000_0000_0000,
            g.parent < 0x1_0000_0000_0000_0000,
            f.context.1 < 0x1_0000,
            g.context.1 < 0x1_0000,
    ;
    assert(f.context.1 == g.context.1) by (nonlinear_arith)
        requires
            frame_key(f) == frame_key(g),
            f.context.0 == g.context.0,
            f.parent < 0x1_0000_0000_0000_0000,
            g.parent < 0x1_0000_0000_0000_0000,
    ;
}

fn key_of(f: Frame) -> (k: u128)
    ensures
        k as int == frame_key(f),
{
    assert(f.parent < 0x1_0000_0000_0000_0000);
    (f.context.0 as u128) * 0x1_0000_0000_0000_0000_0000 + (f.context.1 as u128)
        * 0x1_0000_0000_0000_0000 + (f.parent as u128)
}

impl View for Stack {
    type V = Seq<Frame>;

    closed spec fn view(&self) -> Seq<Frame> {
        self.frames@
    }
}

impl Stack {
    /// The internal consistency of the table and its index.
    pub closed spec fn wf(&self) -> bool {
        &&& frames_wf(self.frames@)
        &&& forall|k: u128| #[trigger]
            self.map@.contains_key(k) ==> {
                let i = self.map@[k] as int;
                &&& 1 <= i < self.frames@.len()
                &&& frame_key(self.frames@[i]) == k
            }
        &&& forall|i: int|
            1 <= i < self.frames@.len() ==> {
                let k = frame_key(#[trigger] self.frames@[i]) as u128;
                &&& self.map@.contains_key(k)
                &&& self.map@[k] == i
            }
    }

    pub fn new() -> (s: Self)
        ensures
            s.wf(),
            s@ == seq![root_frame()],
    {
        let mut frames: Vec<Frame> = Vec::new();
        frames.push(Frame { context: ContextReference(0, 0), parent: 0 });
        Stack { frames, map: HashMap::new() }
    }

    /// The id of the empty stack.
    pub fn empty(&self) -> (r: usize)
        ensures
            r == 0,
    {
        0
    }

    /// The context on top of the stack `id`, or `None` for the empty stack.
    pub fn top(&self, id: usize) -> (r: Option<ContextReference>)
        requires
            self.wf(),
            id < self@.len(),
        ensures
            id == 0 ==> r is None,
            id != 0 ==> r == Some(self@[id as int].context),
    {
        if id == 0 {
            None
        } else {
            Some(self.frames[id].context)
        }
    }

    /// The stack that results from pushing `context` on the stack `parent`.
    pub fn push(&mut self, context: ContextReference, parent: usize) -> (r: usize)
        requires
            old(self).wf(),
        ensures
            final(self).wf(),
            (final(self)@, r as int) == spec_push(old(self)@, Frame { context, parent }),
            old(self)@.len() <= final(self)@.len(),
    {
        let f = Frame { context, parent };
        let key = key_of(f);
        assert(vstd::std_specs::hash::obeys_key_model::<u128>());
        match self.map.get(&key) {
            Some(id) => {
                let id = *id;
                proof {
                    let i = id as int;
                    lemma_frame_key_injective(self.frames@[i], f);
                    assert(interned(self.frames@, f));
                    let j = interned_index(self.frames@, f);
                    assert(self.frames@[j] == f);
                }
                id
            },
            None => {
                proof {
                    if interned(self.frames@, f) {
                        let j = interned_index(self.frames@, f);
                        assert(self.map@.contains_key(frame_key(self.frames@[j]) as u128));
                    }
                }
                let id = self.frames.len();
                self.frames.push(f);
                self.map.insert(key, id);
                proof {
                    assert forall|k: u128| #[trigger] self.map@.contains_key(k) implies {
                        let i = self.map@[k] as int;
                        &&& 1 <= i < self.frames@.len()
                        &&& frame_key(self.frames@[i]) == k
                    } by {}
                    assert forall|i: int| 1 <= i < self.frames@.len() implies {
                        let k = frame_key(#[trigger] self.frames@[i]) as u128;
                        &&& self.map@.contains_key(k)
                        &&& self.map@[k] == i
                    } by {
                        if i < id {
                            if frame_key(self.frames@[i]) == key {
                                lemma_frame_key_injective(self.frames@[i], f);
                            }
                        }
                    }
                }
                id
            },
        }
    }

    /// The stack below the top of the stack `id`.
    pub fn pop(&self, id: usize) -> (r: usize)
        requires
            self.wf(),
            id < self@.len(),
        ensures
            r == self@[id as int].parent,
    {
        self.frames[id].parent
    }

    /// Replaces the top of the stack `id` by `to`.
    pub fn set(&mut self, id: usize, to: ContextReference) -> (r: usize)
        requires
            old(self).wf(),
            id < old(self)@.len(),
        ensures
            final(self).wf(),
            old(self)@.len() <= final(self)@.len(),
            (final(self)@, r as int) == spec_push(
                old(self)@,
                Frame { context: to, parent: old(self)@[id as int].parent },
            ),
    {
        let p = self.pop(id);
        self.push(to, p)
    }
}

/// The frame table of a well-formed stack is well formed: the root frame
/// (the empty stack) sits at id 0 and no other frame occurs twice; every id
/// fits in a `usize`.
pub proof fn lemma_wf_table(s: &Stack)
    requires
        s.wf(),
    ensures
        frames_wf(s@),
        s@.len() >= 1,
        s@[0] == root_frame(),
        s@.len() <= usize::MAX,
{
    assert(s.frames@.len() == s.frames.len());
}

/// Every frame's parent lies below it.
pub open spec fn parents_below(s: Seq<Frame>) -> bool {
    forall|i: int| 1 <= i < s.len() ==> ((#[trigger] s[i]).parent as int) < i
}

/// Pushing on a stack that exists keeps every parent below its frame; the
/// id returned is not the empty stack and lies above the parent.
pub proof fn lemma_push_keeps_parents_below(s: Seq<Frame>, f: Frame)
    requires
        frames_wf(s),
        parents_below(s),
        (f.parent as int) < s.len(),
    ensures
        parents_below(spec_push(s, f).0),
        (f.parent as int) < spec_push(s, f).1,
        spec_push(s, f).1 != 0,
{
    lemma_push_result(s, f);
    let (t, r) = spec_push(s, f);
    if interned(s, f) {
        assert(s[r] == f);
    } else {
        assert forall|i: int| 1 <= i < t.len() implies ((#[trigger] t[i]).parent as int) < i by {
            if i < s.len() {
                assert(t[i] == s[i]);
            }
        }
    }
}

/// The id reached from `i` by popping `n` times.
pub open spec fn pop_n(s: Seq<Frame>, i: int, n: nat) -> int
    decreases n,
{
    if n == 0 {
        i
    } else {
        pop_n(s, s[i].parent as int, (n - 1) as nat)
    }
}

/// When every parent lies below its frame, popping `n` times from an id at
/// most `n` reaches the empty stack, and stays there.
pub proof fn lemma_pops_reach_empty(s: Seq<Frame>, i: int, n: nat)
    requires
        frames_wf(s),
        parents_below(s),
        0 <= i < s.len(),
        i <= n,
    ensures
        pop_n(s, i, n) == 0,
    decreases n,
{
    if n > 0 {
        if i == 0 {
            assert(s[0].parent == 0);
            lemma_pops_reach_empty(s, 0, (n - 1) as nat);
        } else {
            lemma_pops_reach_empty(s, s[i].parent as int, (n - 1) as nat);
        }
    }
}

} // verus!
