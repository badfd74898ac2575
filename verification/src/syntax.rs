use std::collections::HashSet;
use vstd::prelude::*;

verus! {

broadcast use vstd::std_specs::hash::group_hash_axioms;

/// A reference to one context of one syntax: `(syntax id, context id)`.
#[derive(Clone, Copy, Debug, PartialEq, Eq, Structural)]
pub struct ContextReference(pub u16, pub u16);

/// What a matched rule does to the context stack.
pub enum Action {
    Pop,
    Replace(Vec<ContextReference>),
    Push(Vec<ContextReference>),
}

/// A pattern rule: its regular expression, the scopes it paints (one for the
/// whole match, or one per capture group after the first entry) and its
/// effect on the context stack.
pub struct MatchRule {
    pub pattern: String,
    pub scope: Option<Vec<String>>,
    pub action: Option<Action>,
}

/// A rule of a context: another context's rules, or a pattern.
pub enum Rule {
    Include(ContextReference),
    Match(MatchRule),
}

/// A context: its rules, its meta scopes, and whether the syntax's prototype
/// applies in it.
pub struct ContextInfo {
    pub meta_include_prototype: bool,
    pub meta_scope: Option<String>,
    pub meta_content_scope: Option<String>,
    pub rules: Vec<Rule>,
}

/// A syntax: its name, its base scope, its contexts and which of them are
/// the main context and the prototype.
pub struct SyntaxInfo {
    pub name: String,
    pub scope: String,
    pub main: u16,
    pub prototype: Option<u16>,
    pub contexts: Vec<ContextInfo>,
}

/// A set of syntaxes; syntax ids index it.
pub struct Grammar {
    pub syntaxes: Vec<SyntaxInfo>,
}

/// An upper bound of context ranks.
pub open spec fn rank_bound() -> nat {
    0x1_0000_0000
}

impl Grammar {
    pub open spec fn valid_ref(&self, r: ContextReference) -> bool {
        &&& (r.0 as int) < self.syntaxes@.len()
        &&& (r.1 as int) < self.syntaxes@[r.0 as int].contexts@.len()
    }

    pub open spec fn ctx(&self, r: ContextReference) -> ContextInfo {
        self.syntaxes@[r.0 as int].contexts@[r.1 as int]
    }

    pub open spec fn proto(&self, s: u16) -> Option<u16> {
        self.syntaxes@[s as int].prototype
    }

    /// Every context reference a rule holds is valid.
    pub open spec fn rule_refs_valid(&self, rule: Rule) -> bool {
        match rule {
            Rule::Include(c) => self.valid_ref(c),
            Rule::Match(m) => match m.action {
                Some(Action::Replace(cs)) => forall|j: int| 0 <= j < cs@.len() ==> self.valid_ref(#[trigger] cs@[j]),
                Some(Action::Push(cs)) => forall|j: int| 0 <= j < cs@.len() ==> self.valid_ref(#[trigger] cs@[j]),
                _ => true,
            },
        }
    }

    /// `rank` strictly decreases along every include and stays below the bound.
    pub open spec fn ranked_by(&self, rank: spec_fn(ContextReference) -> nat) -> bool {
        forall|r: ContextReference|
            #![trigger self.ctx(r)]
            self.valid_ref(r) ==> {
                &&& rank(r) < rank_bound()
                &&& forall|i: int|
                    0 <= i < self.ctx(r).rules@.len() ==> match #[trigger] self.ctx(r).rules@[i] {
                        Rule::Include(c) => rank(c) < rank(r),
                        _ => true,
                    }
            }
    }

    /// A well-formed grammar: every reference in it is valid and includes
    /// never lead back to where they started.
    pub open spec fn wf(&self) -> bool {
        &&& self.syntaxes@.len() <= 0x1_0000
        &&& forall|s: int|
            #![trigger self.syntaxes@[s]]
            0 <= s < self.syntaxes@.len() ==> {
                &&& (self.syntaxes@[s].main as int) < self.syntaxes@[s].contexts@.len()
                &&& self.syntaxes@[s].contexts@.len() <= 0x1_0000
                &&& match self.syntaxes@[s].prototype {
                    Some(p) => (p as int) < self.syntaxes@[s].contexts@.len(),
                    None => true,
                }
            }
        &&& forall|r: ContextReference, i: int|
            #![trigger self.ctx(r).rules@[i]]
            self.valid_ref(r) && 0 <= i < self.ctx(r).rules@.len() ==> self.rule_refs_valid(
                self.ctx(r).rules@[i],
            )
        &&& exists|rank: spec_fn(ContextReference) -> nat| self.ranked_by(rank)
    }

    pub open spec fn rank(&self) -> spec_fn(ContextReference) -> nat {
        choose|rank: spec_fn(ContextReference) -> nat| self.ranked_by(rank)
    }
}

/// The key under which a context reference is kept in a set.
pub open spec fn ref_key(r: ContextReference) -> u32 {
    (r.0 as int * 0x1_0000 + r.1 as int) as u32
}

fn ref_key_exec(r: ContextReference) -> (k: u32)
    ensures
        k == ref_key(r),
{
    (r.0 as u32) * 0x1_0000 + (r.1 as u32)
}

/// How many syntaxes below `n` have a prototype not yet in `seen`.
pub open spec fn unseen_below(g: &Grammar, seen: Set<u32>, n: int) -> nat
    decreases n,
{
    if n <= 0 {
        0
    } else {
        let s = n - 1;
        unseen_below(g, seen, s) + match g.proto(s as u16) {
            Some(p) => if seen.contains(ref_key(ContextReference(s as u16, p))) {
                0nat
            } else {
                1nat
            },
            None => 0nat,
        }
    }
}

pub open spec fn unseen(g: &Grammar, seen: Set<u32>) -> nat {
    unseen_below(g, seen, g.syntaxes@.len() as int)
}

proof fn lemma_unseen_monotone(g: &Grammar, a: Set<u32>, b: Set<u32>, n: int)
    requires
        a.subset_of(b),
    ensures
        unseen_below(g, b, n) <= unseen_below(g, a, n),
    decreases n,
{
    if n > 0 {
        lemma_unseen_monotone(g, a, b, n - 1);
    }
}

proof fn lemma_unseen_insert(g: &Grammar, a: Set<u32>, s0: int, n: int)
    requires
        0 <= s0 < n <= 0x1_0000,
        g.proto(s0 as u16) is Some,
        !a.contains(ref_key(ContextReference(s0 as u16, g.proto(s0 as u16)->0))),
        g.syntaxes@.len() <= 0x1_0000,
    ensures
        unseen_below(g, a.insert(ref_key(ContextReference(s0 as u16, g.proto(s0 as u16)->0))), n) + 1
            == unseen_below(g, a, n),
    decreases n,
{
    let k = ref_key(ContextReference(s0 as u16, g.proto(s0 as u16)->0));
    let b = a.insert(k);
    let s = n - 1;
    if s == s0 {
        lemma_unseen_monotone(g, a, b, s);
        lemma_unseen_same(g, a, k, s0, s);
    } else {
        lemma_unseen_insert(g, a, s0, n - 1);
        match g.proto(s as u16) {
            Some(p) => {
                assert(ref_key(ContextReference(s as u16, p)) != k);
            },
            None => {},
        }
    }
}

/// Inserting the key of syntax `s0`'s prototype does not change the count
/// below `s0`.
proof fn lemma_unseen_same(g: &Grammar, a: Set<u32>, k: u32, s0: int, n: int)
    requires
        0 <= n <= s0 < 0x1_0000,
        k == ref_key(ContextReference(s0 as u16, g.proto(s0 as u16)->0)),
    ensures
        unseen_below(g, a.insert(k), n) == unseen_below(g, a, n),
    decreases n,
{
    if n > 0 {
        lemma_unseen_same(g, a, k, s0, n - 1);
        let s = n - 1;
        match g.proto(s as u16) {
            Some(p) => {
                assert(ref_key(ContextReference(s as u16, p)) != k);
            },
            None => {},
        }
    }
}

/// The fuel that collecting the rules of `ctx` needs.
pub open spec fn need(g: &Grammar, ctx: ContextReference, seen: Set<u32>) -> nat {
    unseen(g, seen) * rank_bound() + (g.rank())(ctx) + 1
}

/// The rules (as context and rule index) that apply in `ctx`, in order: the
/// prototype's first (once per collection, and not in the prototype itself),
/// then the context's own, included contexts expanded in place.
pub open spec fn app(g: &Grammar, ctx: ContextReference, seen: Set<u32>, fuel: nat) -> (Seq<
    (ContextReference, usize),
>, Set<u32>)
    decreases fuel, 0nat, 0nat,
{
    if fuel == 0 {
        (Seq::empty(), seen)
    } else {
        let info = g.ctx(ctx);
        let (pre, seen1) = match g.proto(ctx.0) {
            Some(p) => {
                let pr = ContextReference(ctx.0, p);
                if info.meta_include_prototype && ctx.1 != p && !seen.contains(ref_key(pr)) {
                    app(g, pr, seen.insert(ref_key(pr)), (fuel - 1) as nat)
                } else {
                    (Seq::empty(), seen)
                }
            },
            None => (Seq::empty(), seen),
        };
        let (rest, seen2) = app_rules(g, ctx, 0, seen1, (fuel - 1) as nat);
        (pre + rest, seen2)
    }
}

pub open spec fn app_rules(
    g: &Grammar,
    ctx: ContextReference,
    i: int,
    seen: Set<u32>,
    fuel: nat,
) -> (Seq<(ContextReference, usize)>, Set<u32>)
    decreases fuel, 1nat, g.ctx(ctx).rules@.len() - i,
{
    if i < 0 || i >= g.ctx(ctx).rules@.len() {
        (Seq::empty(), seen)
    } else {
        match g.ctx(ctx).rules@[i] {
            Rule::Include(c) => {
                let (a, s1) = app(g, c, seen, fuel);
                let (b, s2) = app_rules(g, ctx, i + 1, s1, fuel);
                (a + b, s2)
            },
            Rule::Match(_) => {
                let (b, s2) = app_rules(g, ctx, i + 1, seen, fuel);
                (seq![(ctx, i as usize)] + b, s2)
            },
        }
    }
}

/// The locations of the rules `i..` of `ctx`, in order.
pub open spec fn own_rules(g: &Grammar, ctx: ContextReference, i: int) -> Seq<(ContextReference, usize)> {
    Seq::new((g.ctx(ctx).rules@.len() - i) as nat, |j: int| (ctx, (i + j) as usize))
}

proof fn lemma_app_rules_own(g: &Grammar, ctx: ContextReference, i: int, seen: Set<u32>, fuel: nat)
    requires
        0 <= i <= g.ctx(ctx).rules@.len(),
        forall|j: int| 0 <= j < g.ctx(ctx).rules@.len() ==> #[trigger] g.ctx(ctx).rules@[j] is Match,
    ensures
        app_rules(g, ctx, i, seen, fuel) == (own_rules(g, ctx, i), seen),
    decreases g.ctx(ctx).rules@.len() - i,
{
    if i < g.ctx(ctx).rules@.len() {
        assert(g.ctx(ctx).rules@[i] is Match);
        lemma_app_rules_own(g, ctx, i + 1, seen, fuel);
        assert(seq![(ctx, i as usize)] + own_rules(g, ctx, i + 1) =~= own_rules(g, ctx, i));
    } else {
        assert(own_rules(g, ctx, i) =~= Seq::empty());
    }
}

/// A context that does not take the syntax's prototype and includes no
/// other context has exactly its own pattern rules, in order: no rule of the
/// prototype applies in it.
pub proof fn lemma_applicable_without_prototype(g: &Grammar, ctx: ContextReference)
    requires
        g.wf(),
        g.valid_ref(ctx),
        !g.ctx(ctx).meta_include_prototype,
        forall|j: int| 0 <= j < g.ctx(ctx).rules@.len() ==> #[trigger] g.ctx(ctx).rules@[j] is Match,
    ensures
        applicable_spec(g, ctx) == Seq::new(
            g.ctx(ctx).rules@.len(),
            |j: int| (ctx, j as usize),
        ),
{
    let fuel = need(g, ctx, Set::empty());
    lemma_app_rules_own(g, ctx, 0, Set::empty(), (fuel - 1) as nat);
    let r = app(g, ctx, Set::empty(), fuel).0;
    assert(r =~= Seq::<(ContextReference, usize)>::empty() + own_rules(g, ctx, 0));
    assert(own_rules(g, ctx, 0) =~= Seq::new(g.ctx(ctx).rules@.len(), |j: int| (ctx, j as usize)));
}

proof fn lemma_unseen_positive(g: &Grammar, s0: int, n: int)
    requires
        0 <= s0 < n,
        g.proto(s0 as u16) is Some,
    ensures
        unseen_below(g, Set::empty(), n) >= 1,
    decreases n,
{
    if s0 < n - 1 {
        lemma_unseen_positive(g, s0, n - 1);
    }
}

/// A context that takes its syntax's prototype (and is not the prototype)
/// starts with the prototype's rules, then its own: when neither includes
/// another context, those are exactly the rules that apply in it.
pub proof fn lemma_applicable_with_prototype(g: &Grammar, ctx: ContextReference, p: u16)
    requires
        g.wf(),
        g.valid_ref(ctx),
        g.ctx(ctx).meta_include_prototype,
        g.proto(ctx.0) == Some(p),
        ctx.1 != p,
        forall|j: int| 0 <= j < g.ctx(ctx).rules@.len() ==> #[trigger] g.ctx(ctx).rules@[j] is Match,
        forall|j: int|
            0 <= j < g.ctx(ContextReference(ctx.0, p)).rules@.len() ==> #[trigger] g.ctx(
                ContextReference(ctx.0, p),
            ).rules@[j] is Match,
    ensures
        applicable_spec(g, ctx) == Seq::new(
            g.ctx(ContextReference(ctx.0, p)).rules@.len(),
            |j: int| (ContextReference(ctx.0, p), j as usize),
        ) + Seq::new(g.ctx(ctx).rules@.len(), |j: int| (ctx, j as usize)),
{
    let pr = ContextReference(ctx.0, p);
    let fuel = need(g, ctx, Set::empty());
    lemma_unseen_positive(g, ctx.0 as int, g.syntaxes@.len() as int);
    assert(unseen(g, Set::empty()) * rank_bound() >= rank_bound()) by (nonlinear_arith)
        requires
            unseen(g, Set::empty()) >= 1,
    ;
    let seen1 = Set::<u32>::empty().insert(ref_key(pr));
    let f1 = (fuel - 1) as nat;
    assert(f1 >= 1);
    lemma_app_rules_own(g, pr, 0, seen1, (f1 - 1) as nat);
    assert(app(g, pr, seen1, f1).0 =~= Seq::<(ContextReference, usize)>::empty() + own_rules(g, pr, 0));
    lemma_app_rules_own(g, ctx, 0, seen1, f1);
    assert(own_rules(g, pr, 0) =~= Seq::new(g.ctx(pr).rules@.len(), |j: int| (pr, j as usize)));
    assert(own_rules(g, ctx, 0) =~= Seq::new(g.ctx(ctx).rules@.len(), |j: int| (ctx, j as usize)));
}

/// Every location names a pattern rule of a valid context.
pub open spec fn match_locs(g: &Grammar, s: Seq<(ContextReference, usize)>) -> bool {
    forall|j: int|
        #![trigger s[j]]
        0 <= j < s.len() ==> {
            &&& g.valid_ref(s[j].0)
            &&& (s[j].1 as int) < g.ctx(s[j].0).rules@.len()
            &&& g.ctx(s[j].0).rules@[s[j].1 as int] is Match
        }
}

/// The rules that apply in `ctx`.
pub open spec fn applicable_spec(g: &Grammar, ctx: ContextReference) -> Seq<(ContextReference, usize)> {
    app(g, ctx, Set::empty(), need(g, ctx, Set::empty())).0
}

impl Grammar {
    /// The grammar without any syntax: all text is plain.
    pub fn plain() -> (g: Grammar)
        ensures
            g.wf(),
            g.syntaxes@.len() == 0,
    {
        let g = Grammar { syntaxes: Vec::new() };
        assert(g.ranked_by(|r: ContextReference| 0nat));
        g
    }

    /// The context a reference names.
    pub fn get_context(&self, r: ContextReference) -> (c: &ContextInfo)
        requires
            self.valid_ref(r),
        ensures
            *c == self.ctx(r),
    {
        &self.syntaxes[r.0 as usize].contexts[r.1 as usize]
    }

    /// The main context and the prototype of a syntax.
    pub fn syntax_main_and_prototype(&self, s: u16) -> (r: (u16, Option<u16>))
        requires
            (s as int) < self.syntaxes@.len(),
        ensures
            r == (self.syntaxes@[s as int].main, self.syntaxes@[s as int].prototype),
    {
        (self.syntaxes[s as usize].main, self.syntaxes[s as usize].prototype)
    }

    /// The description of a syntax.
    pub fn get_syntax_info(&self, s: u16) -> (r: &SyntaxInfo)
        requires
            (s as int) < self.syntaxes@.len(),
        ensures
            *r == self.syntaxes@[s as int],
    {
        &self.syntaxes[s as usize]
    }

    fn applicable_inner(
        &self,
        ctx: ContextReference,
        seen: &mut HashSet<u32>,
        Ghost(fuel): Ghost<nat>,
    ) -> (r: Vec<(ContextReference, usize)>)
        requires
            self.wf(),
            self.valid_ref(ctx),
            fuel >= need(self, ctx, old(seen)@),
        ensures
            (r@, final(seen)@) == app(self, ctx, old(seen)@, fuel),
            old(seen)@.subset_of(final(seen)@),
            match_locs(self, r@),
        decreases fuel,
    {
        assert(vstd::std_specs::hash::obeys_key_model::<u32>());
        let ghost rank = self.rank();
        let ghost seen0 = seen@;
        let info = self.get_context(ctx);
        let mut result: Vec<(ContextReference, usize)> = Vec::new();
        let ghost pre: Seq<(ContextReference, usize)> = Seq::empty();
        proof {
            assert(self.ranked_by(rank));
            assert(rank(ctx) < rank_bound());
        }
        if info.meta_include_prototype {
            let (_main, proto) = self.syntax_main_and_prototype(ctx.0);
            if let Some(p) = proto {
                let pr = ContextReference(ctx.0, p);
                let key = ref_key_exec(pr);
                if ctx.1 != p && !seen.contains(&key) {
                    seen.insert(key);
                    proof {
                        assert(self.syntaxes@[ctx.0 as int].prototype == Some(p));
                        lemma_unseen_insert(self, seen0, ctx.0 as int, self.syntaxes@.len() as int);
                        assert(rank(pr) < rank_bound()) by {
                            let sy = self.syntaxes@[ctx.0 as int];
                            assert(self.valid_ref(pr));
                            let _c = self.ctx(pr);
                        }
                        assert(need(self, pr, seen@) <= fuel - 1) by (nonlinear_arith)
                            requires
                                need(self, pr, seen@) == unseen(self, seen@) * rank_bound() + rank(pr) + 1,
                                unseen(self, seen@) + 1 == unseen(self, seen0),
                                fuel >= unseen(self, seen0) * rank_bound() + rank(ctx) + 1,
                                rank(pr) < rank_bound(),
                        ;
                    }
                    result = self.applicable_inner(pr, seen, Ghost((fuel - 1) as nat));
                    proof {
                        pre = result@;
                    }
                }
            }
        }
        let ghost seen1 = seen@;
        let ghost f1: nat = (fuel - 1) as nat;
        assert(app(self, ctx, seen0, fuel) == (pre + app_rules(self, ctx, 0, seen1, f1).0, app_rules(
            self,
            ctx,
            0,
            seen1,
            f1,
        ).1));
        let n = info.rules.len();
        let mut i: usize = 0;
        while i < n
            invariant
                self.wf(),
                self.valid_ref(ctx),
                *info == self.ctx(ctx),
                n == info.rules@.len(),
                i <= n,
                rank == self.rank(),
                self.ranked_by(rank),
                seen0.subset_of(seen@),
                fuel >= unseen(self, seen0) * rank_bound() + rank(ctx) + 1,
                f1 == fuel - 1,
                pre + app_rules(self, ctx, 0, seen1, f1).0 == result@ + app_rules(
                    self,
                    ctx,
                    i as int,
                    seen@,
                    f1,
                ).0,
                app_rules(self, ctx, 0, seen1, f1).1 == app_rules(self, ctx, i as int, seen@, f1).1,
                match_locs(self, result@),
            decreases n - i,
        {
            let ghost si = seen@;
            let ghost before = result@;
            match &info.rules[i] {
                Rule::Include(c) => {
                    proof {
                        assert(self.rule_refs_valid(self.ctx(ctx).rules@[i as int]));
                        assert(rank(*c) < rank(ctx));
                        lemma_unseen_monotone(self, seen0, si, self.syntaxes@.len() as int);
                        assert(need(self, *c, si) <= f1) by (nonlinear_arith)
                            requires
                                need(self, *c, si) == unseen(self, si) * rank_bound() + rank(*c) + 1,
                                unseen(self, si) <= unseen(self, seen0),
                                fuel >= unseen(self, seen0) * rank_bound() + rank(ctx) + 1,
                                rank(*c) < rank(ctx),
                                f1 == fuel - 1,
                        ;
                    }
                    let mut sub = self.applicable_inner(*c, seen, Ghost(f1));
                    let ghost subv = sub@;
                    result.append(&mut sub);
                    proof {
                        assert(match_locs(self, result@)) by {
                            assert forall|j: int| 0 <= j < result@.len() implies {
                                &&& self.valid_ref(#[trigger] result@[j].0)
                                &&& (result@[j].1 as int) < self.ctx(result@[j].0).rules@.len()
                                &&& self.ctx(result@[j].0).rules@[result@[j].1 as int] is Match
                            } by {
                                if j < before.len() {
                                    assert(result@[j] == before[j]);
                                } else {
                                    assert(result@[j] == subv[j - before.len()]);
                                }
                            }
                        }
                        let (a, s1) = app(self, *c, si, f1);
                        assert(app_rules(self, ctx, i as int, si, f1).0 == a + app_rules(self, ctx, i + 1, s1, f1).0);
                        assert(result@ + app_rules(self, ctx, i + 1, seen@, f1).0 =~= before + (a + app_rules(self, ctx, i + 1, s1, f1).0));
                    }
                },
                Rule::Match(_) => {
                    result.push((ctx, i));
                    proof {
                        assert(match_locs(self, result@)) by {
                            assert forall|j: int| 0 <= j < result@.len() implies {
                                &&& self.valid_ref(#[trigger] result@[j].0)
                                &&& (result@[j].1 as int) < self.ctx(result@[j].0).rules@.len()
                                &&& self.ctx(result@[j].0).rules@[result@[j].1 as int] is Match
                            } by {
                                if j < before.len() {
                                    assert(result@[j] == before[j]);
                                }
                            }
                        }
                        assert(result@ + app_rules(self, ctx, i + 1, seen@, f1).0 =~= before + (seq![(ctx, i)] + app_rules(self, ctx, i + 1, si, f1).0));
                    }
                },
            }
            i = i + 1;
        }
        proof {
            assert(result@ + app_rules(self, ctx, n as int, seen@, f1).0 =~= result@);
        }
        result
    }

    /// The rules that apply in `ctx`, as (context, rule index) pairs.
    pub fn applicable(&self, ctx: ContextReference) -> (r: Vec<(ContextReference, usize)>)
        requires
            self.wf(),
            self.valid_ref(ctx),
        ensures
            r@ == applicable_spec(self, ctx),
            match_locs(self, r@),
    {
        let mut seen: HashSet<u32> = HashSet::new();
        self.applicable_inner(ctx, &mut seen, Ghost(need(self, ctx, Set::empty())))
    }
}

} // verus!
