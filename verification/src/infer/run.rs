//! Runs: sequences of elementary steps from one unification problem to another.
//! The order in which steps are taken is open; what can be reached is what
//! solving may end in.

use vstd::prelude::*;

use crate::infer::eq_graph::linked;
use crate::infer::model::{
    Con, Ctx, Rel, lemma_closed_linked, lemma_closed_look, lemma_closed_root,
    lemma_refines_reflexive, lemma_refines_transitive, lemma_root, lemma_root_bound,
};
use crate::infer::steps::{
    lemma_absorb_fresh_step, lemma_absorb_step, lemma_eq_step, lemma_forget_step,
    lemma_solution_step,
};

verus! {

/// An elementary step of solving.
pub enum Step {
    /// Register the equality that a constraint on the first asks for.
    Register(u32, u32),
    /// Solve the first by adding an extension to the solution of the last.
    Up(u32, Seq<char>, u32),
    /// Solve the last by taking an extension from the solution of the first.
    Down(u32, Seq<char>, u32),
    /// Merge a metavariable into a new one.
    Open(u32),
    /// Merge the second into the third, into which the first, equal to it,
    /// has been merged.
    Join(u32, u32, u32),
    /// Forget the constraints on a metavariable, which have all been met.
    Forget(u32),
}

impl Ctx {
    /// Every constraint of equality on `m` has been registered.
    pub open spec fn registered(self, m: u32) -> bool {
        forall|o: u32| #[trigger] self.has(m, Con::Equal(o)) ==> self.eqs.contains((m, o))
    }

    /// Whether `k` has been merged into `c`, and a chain of equalities relates
    /// it to `m`, which has not been merged.
    pub open spec fn joinable(self, k: u32, m: u32, c: u32) -> bool {
        &&& self.shunted.contains_key(k)
        &&& self.shunted[k] == c
        &&& linked(self.eqs, k, m)
        &&& !self.shunted.contains_key(m)
        &&& !self.shunted.contains_key(c)
        &&& m < c < self.fresh
    }

    /// Whether `step` can be taken.
    pub open spec fn applies(self, step: Step) -> bool {
        match step {
            Step::Register(m, o) => self.has(m, Con::Equal(o)),
            Step::Up(m, r, o) => self.has(m, Con::Plus(r, o)) && self.look(m) is None
                && self.look(o) is Some,
            Step::Down(m, r, o) => self.has(m, Con::Plus(r, o)) && self.look(m) is Some
                && self.look(m)->0.contains(r) && self.look(o) is None,
            Step::Open(m) => self.eq_nodes.contains(m) && !self.shunted.contains_key(m)
                && self.registered(m) && self.fresh < u32::MAX,
            Step::Join(k, m, c) => self.joinable(k, m, c) && self.registered(m) && self.compatible(
                m,
                c,
            ),
            Step::Forget(m) => self.registered(m) && forall|r: Seq<char>, o: u32| #[trigger]
                self.has(m, Con::Plus(r, o)) ==> self.met(m, r, o),
        }
    }

    /// The problem after `step`.
    pub open spec fn after(self, step: Step) -> Ctx {
        match step {
            Step::Register(m, o) => self.with_eq(m, o),
            Step::Up(m, r, o) => self.with_solution(m, self.look(o)->0.insert(r)),
            Step::Down(m, r, o) => self.with_solution(self.root(o), self.look(m)->0.remove(r)),
            Step::Open(m) => self.with_fresh().absorbed(m, self.fresh as u32),
            Step::Join(k, m, c) => self.absorbed(m, c),
            Step::Forget(m) => self.without_constraints(m),
        }
    }

    /// The problem after a sequence of steps.
    pub open spec fn outcome(self, steps: Seq<Step>) -> Ctx
        decreases steps.len(),
    {
        if steps.len() == 0 {
            self
        } else {
            self.outcome(steps.drop_last()).after(steps.last())
        }
    }

    /// Whether the steps can be taken one after the other.
    pub open spec fn legal(self, steps: Seq<Step>) -> bool
        decreases steps.len(),
    {
        steps.len() > 0 ==> self.legal(steps.drop_last()) && self.outcome(
            steps.drop_last(),
        ).applies(steps.last())
    }

    /// Whether some sequence of steps leads to `later`.
    pub open spec fn reaches(self, later: Ctx) -> bool {
        exists|steps: Seq<Step>| #[trigger] self.legal(steps) && self.outcome(steps) == later
    }
}

/// Nothing needs to be done to stay.
pub proof fn lemma_reaches_self(ctx: Ctx)
    ensures
        ctx.reaches(ctx),
{
    let none = Seq::<Step>::empty();
    assert(ctx.legal(none) && ctx.outcome(none) == ctx);
}

/// One step more.
pub proof fn lemma_reaches_step(a: Ctx, b: Ctx, step: Step)
    requires
        a.reaches(b),
        b.applies(step),
    ensures
        a.reaches(b.after(step)),
{
    let steps = choose|steps: Seq<Step>| #[trigger] a.legal(steps) && a.outcome(steps) == b;
    let more = steps.push(step);
    assert(more.drop_last() =~= steps);
    assert(a.legal(more) && a.outcome(more) == b.after(step));
}

/// Runs compose.
pub proof fn lemma_reaches_transitive(a: Ctx, b: Ctx, c: Ctx)
    requires
        a.reaches(b),
        b.reaches(c),
    ensures
        a.reaches(c),
{
    let steps = choose|steps: Seq<Step>| #[trigger] b.legal(steps) && b.outcome(steps) == c;
    lemma_reaches_run(a, b, steps);
}

proof fn lemma_reaches_run(a: Ctx, b: Ctx, steps: Seq<Step>)
    requires
        a.reaches(b),
        b.legal(steps),
    ensures
        a.reaches(b.outcome(steps)),
    decreases steps.len(),
{
    if steps.len() > 0 {
        lemma_reaches_run(a, b, steps.drop_last());
        lemma_reaches_step(a, b.outcome(steps.drop_last()), steps.last());
    }
}

/// Each step keeps what is known and concludes nothing that does not follow.
pub proof fn lemma_step_refines(ctx: Ctx, step: Step)
    requires
        ctx.in_range(),
        ctx.applies(step),
    ensures
        ctx.after(step).in_range(),
        ctx.refines(ctx.after(step)),
{
    match step {
        Step::Register(m, o) => {
            lemma_eq_step(ctx, m, o);
        },
        Step::Up(m, r, o) => {
            let set = ctx.look(o)->0.insert(r);
            assert(ctx.root(m) == m);
            assert forall|rel: Rel| #[trigger] ctx.closed(rel) implies rel(m).contains(set) by {
                lemma_closed_look(ctx, rel, o);
            }
            lemma_solution_step(ctx, m, set);
        },
        Step::Down(m, r, o) => {
            let set = ctx.look(m)->0.remove(r);
            let n = ctx.root(o);
            lemma_root(ctx.shunted, o);
            lemma_root_bound(ctx, o);
            assert forall|rel: Rel| #[trigger] ctx.closed(rel) implies rel(n).contains(set) by {
                lemma_closed_look(ctx, rel, m);
                lemma_closed_root(ctx, rel, o);
            }
            lemma_solution_step(ctx, n, set);
        },
        Step::Open(m) => {
            lemma_absorb_fresh_step(ctx, m);
        },
        Step::Join(k, m, c) => {
            assert forall|rel: Rel| #[trigger] ctx.closed(rel) implies rel(m) == rel(c) by {
                lemma_closed_linked(ctx, rel, k, m);
            }
            lemma_absorb_step(ctx, m, c);
        },
        Step::Forget(m) => {
            lemma_forget_step(ctx, m);
        },
    }
}

/// What solving keeps: whatever problem is reached, nothing that was known is
/// lost, and nothing is concluded that does not follow.
pub proof fn law_solving_is_sound(a: Ctx, b: Ctx)
    requires
        a.in_range(),
        a.reaches(b),
    ensures
        b.in_range(),
        a.refines(b),
{
    let steps = choose|steps: Seq<Step>| #[trigger] a.legal(steps) && a.outcome(steps) == b;
    lemma_run_refines(a, steps);
}

proof fn lemma_run_refines(a: Ctx, steps: Seq<Step>)
    requires
        a.in_range(),
        a.legal(steps),
    ensures
        a.outcome(steps).in_range(),
        a.refines(a.outcome(steps)),
    decreases steps.len(),
{
    if steps.len() == 0 {
        lemma_refines_reflexive(a);
    } else {
        let mid = a.outcome(steps.drop_last());
        lemma_run_refines(a, steps.drop_last());
        lemma_step_refines(mid, steps.last());
        lemma_refines_transitive(a, mid, a.outcome(steps));
    }
}

} // verus!
