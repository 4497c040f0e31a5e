//! The elementary steps of solving a unification problem.

use vstd::prelude::*;

use crate::extension_set::Exts;
use crate::hugr::Loc;
use crate::infer::eq_graph::{is_link_path, lemma_linked_more, linked};
use crate::infer::model::{
    Con, Ctx, Rel, agree_below, functional, lemma_closed_root, lemma_root, lemma_root_bound,
    lemma_root_insert, plus_closed, root,
};

verus! {

/// The constraints of a set that are not about equality.
pub open spec fn pluses(cons: Set<Con>) -> Set<Con> {
    cons.filter(|c: Con| c is Plus)
}

impl Ctx {
    /// The problem in which nothing is asked.
    pub open spec fn empty() -> Ctx {
        Ctx {
            cons: Map::empty(),
            locs: Map::empty(),
            solved: Map::empty(),
            shunted: Map::empty(),
            vars: Set::empty(),
            fresh: 0,
            eqs: Set::empty(),
            eq_nodes: Set::empty(),
        }
    }

    /// One more metavariable, without constraints.
    pub open spec fn with_fresh(self) -> Ctx {
        Ctx {
            fresh: self.fresh + 1,
            cons: self.cons.insert(self.fresh as u32, Set::empty()),
            ..self
        }
    }

    /// One more solution.
    pub open spec fn with_solution(self, m: u32, set: Exts) -> Ctx {
        Ctx { solved: self.solved.insert(m, set), ..self }
    }

    /// The constraints on `m`, none where nothing is recorded.
    pub open spec fn cons_of(self, m: u32) -> Set<Con> {
        if self.cons.contains_key(m) {
            self.cons[m]
        } else {
            Set::empty()
        }
    }

    /// One more constraint.
    pub open spec fn with_constraint(self, m: u32, c: Con) -> Ctx {
        Ctx { cons: self.cons.insert(m, self.cons_of(m).insert(c)), ..self }
    }

    /// Whether `c` may be put on `m`: both speak of metavariables of the problem,
    /// and `m` has not been merged.
    pub open spec fn may_carry(self, m: u32, c: Con) -> bool {
        &&& self.wf()
        &&& m < self.fresh && !self.shunted.contains_key(m)
        &&& match c {
            Con::Equal(o) => o < self.fresh,
            Con::Plus(_, o) => o < self.fresh,
        }
    }

    /// One more location.
    pub open spec fn with_location(self, loc: Loc, m: u32) -> Ctx {
        Ctx { locs: self.locs.insert(loc, m), ..self }
    }

    /// One more variable.
    pub open spec fn with_variable(self, m: u32) -> Ctx {
        Ctx { vars: self.vars.insert(m), ..self }
    }

    /// One more registered equality, also of what its sides have become.
    pub open spec fn with_eq(self, a: u32, b: u32) -> Ctx {
        Ctx {
            eqs: self.eqs.insert((a, b)).insert((self.root(a), self.root(b))),
            eq_nodes: self.eq_nodes.insert(a).insert(b).insert(self.root(a)).insert(self.root(b)),
            ..self
        }
    }

    /// The constraints on `m` forgotten.
    pub open spec fn without_constraints(self, m: u32) -> Ctx {
        Ctx { cons: self.cons.remove(m), ..self }
    }

    /// `m` merged into `c`: its constraints other than equalities, its
    /// solution and its being a variable pass to `c`.
    pub open spec fn absorbed(self, m: u32, c: u32) -> Ctx {
        Ctx {
            cons: if self.cons.contains_key(m) {
                self.cons.insert(c, self.cons_of(c).union(pluses(self.cons[m]))).remove(m)
            } else {
                self.cons
            },
            solved: if self.solved.contains_key(m) && !self.solved.contains_key(c) {
                self.solved.insert(c, self.solved[m])
            } else {
                self.solved
            },
            vars: if self.vars.contains(m) {
                self.vars.insert(c).remove(m)
            } else {
                self.vars
            },
            shunted: self.shunted.insert(m, c),
            ..self
        }
    }

    /// Solutions of `m` and `c`, where both have one, are the same.
    pub open spec fn compatible(self, m: u32, c: u32) -> bool {
        self.solved.contains_key(m) && self.solved.contains_key(c) ==> self.solved[m]
            == self.solved[c]
    }
}

/// One more constraint leaves the problem well-formed.
pub proof fn lemma_constraint_wf(ctx: Ctx, m: u32, c: Con)
    requires
        ctx.may_carry(m, c),
    ensures
        ctx.with_constraint(m, c).wf(),
{
    let after = ctx.with_constraint(m, c);
    assert forall|k: u32, d: Con| #[trigger] after.has(k, d) implies ctx.has(k, d) || k == m && d
        == c by {}
    assert forall|k: u32| #[trigger] after.root(k) == ctx.root(k) by {}
}

/// Finding a solution that every closed relation allows is a step on.
pub proof fn lemma_solution_step(ctx: Ctx, m: u32, set: Exts)
    requires
        ctx.in_range(),
        m < ctx.fresh,
        !ctx.shunted.contains_key(m),
        !ctx.solved.contains_key(m),
        forall|rel: Rel| #[trigger] ctx.closed(rel) ==> rel(m).contains(set),
    ensures
        ctx.refines(ctx.with_solution(m, set)),
        ctx.with_solution(m, set).in_range(),
        ctx.eqs_in_step() ==> ctx.with_solution(m, set).eqs_in_step(),
{
    let after = ctx.with_solution(m, set);
    assert forall|k: u32, c: Con| #[trigger] after.has(k, c) == ctx.has(k, c) by {}
    assert forall|k: u32| #[trigger] after.root(k) == ctx.root(k) by {}
    assert forall|k: u32| k < ctx.fresh implies #[trigger] after.root(ctx.root(k)) == after.root(
        k,
    ) by {
        lemma_root(ctx.shunted, k);
    }
    assert forall|k: u32, r: Seq<char>, o: u32| #[trigger] ctx.has(k, Con::Plus(r, o)) implies after.has(
        after.root(k),
        Con::Plus(r, o),
    ) by {
        assert(!ctx.shunted.contains_key(k));
        assert(after.root(k) == k);
        assert(after.has(k, Con::Plus(r, o)));
    }
    assert forall|k: u32, o: u32| #[trigger] ctx.has(k, Con::Equal(o)) implies after.has(
        k,
        Con::Equal(o),
    ) by {}
    assert forall|v: u32| #[trigger] ctx.vars.contains(v) implies after.root(v) == v by {}
    assert forall|rel: Rel| #[trigger] ctx.closed(rel) implies ctx.carries(after, rel) by {
        assert(after.closed(rel));
        assert(agree_below(ctx.fresh, rel, rel));
    }
}

/// Registering an equality leaves the problem well-formed.
pub proof fn lemma_eq_in_range(ctx: Ctx, a: u32, b: u32)
    requires
        ctx.in_range(),
        a < ctx.fresh,
        b < ctx.fresh,
    ensures
        ctx.with_eq(a, b).in_range(),
        ctx.wf() ==> ctx.with_eq(a, b).wf(),
{
    let after = ctx.with_eq(a, b);
    let ra = ctx.root(a);
    let rb = ctx.root(b);
    lemma_root_bound(ctx, a);
    lemma_root_bound(ctx, b);
    lemma_root(ctx.shunted, a);
    lemma_root(ctx.shunted, b);
    assert forall|k: u32, c: Con| #[trigger] after.has(k, c) == ctx.has(k, c) by {}
    assert forall|k: u32| #[trigger] after.root(k) == ctx.root(k) by {}
    if ctx.wf() {
        assert forall|x: u32, y: u32| #[trigger] after.eqs.contains((x, y)) implies after.root(x)
            == after.root(y) || after.eq_nodes.contains(after.root(x)) && after.eq_nodes.contains(
            after.root(y),
        ) && linked(after.eqs, after.root(x), after.root(y)) by {
            if ctx.eqs.contains((x, y)) {
                if ctx.root(x) != ctx.root(y) {
                    lemma_linked_more(ctx.eqs, after.eqs, ctx.root(x), ctx.root(y));
                }
            } else {
                assert(ctx.root(x) == ra && ctx.root(y) == rb);
                assert(is_link_path(after.eqs, seq![ra, rb], ra, rb));
            }
        }
    }
}

/// Registering a constraint of equality is a step on.
pub proof fn lemma_eq_step(ctx: Ctx, m: u32, o: u32)
    requires
        ctx.in_range(),
        ctx.has(m, Con::Equal(o)),
    ensures
        ctx.refines(ctx.with_eq(m, o)),
        ctx.with_eq(m, o).in_range(),
        ctx.wf() ==> ctx.with_eq(m, o).wf(),
{
    let after = ctx.with_eq(m, o);
    lemma_eq_in_range(ctx, m, o);
    assert forall|k: u32, c: Con| #[trigger] after.has(k, c) == ctx.has(k, c) by {}
    assert forall|k: u32| #[trigger] after.root(k) == ctx.root(k) by {}
    assert forall|k: u32| k < ctx.fresh implies #[trigger] after.root(ctx.root(k)) == after.root(
        k,
    ) by {
        lemma_root(ctx.shunted, k);
    }
    assert forall|k: u32, r: Seq<char>, p: u32| #[trigger] ctx.has(k, Con::Plus(r, p)) implies after.has(
        after.root(k),
        Con::Plus(r, p),
    ) by {
        assert(!ctx.shunted.contains_key(k));
        assert(after.root(k) == k);
        assert(after.has(k, Con::Plus(r, p)));
    }
    assert forall|k: u32, p: u32| #[trigger] ctx.has(k, Con::Equal(p)) implies after.has(
        k,
        Con::Equal(p),
    ) by {}
    assert forall|v: u32| #[trigger] ctx.vars.contains(v) implies after.root(v) == v by {}
    assert forall|rel: Rel| #[trigger] ctx.closed(rel) implies ctx.carries(after, rel) by {
        assert(rel(m) == rel(o));
        lemma_closed_root(ctx, rel, m);
        lemma_closed_root(ctx, rel, o);
        assert(after.closed(rel));
        assert(agree_below(ctx.fresh, rel, rel));
    }
}

/// Forgetting constraints that have been met or registered is a step on.
pub proof fn lemma_forget_step(ctx: Ctx, m: u32)
    requires
        ctx.in_range(),
        forall|r: Seq<char>, o: u32| #[trigger] ctx.has(m, Con::Plus(r, o)) ==> ctx.met(m, r, o),
        forall|o: u32| #[trigger] ctx.has(m, Con::Equal(o)) ==> ctx.eqs.contains((m, o)),
    ensures
        ctx.refines(ctx.without_constraints(m)),
        ctx.without_constraints(m).in_range(),
        ctx.wf() ==> ctx.without_constraints(m).wf(),
{
    let after = ctx.without_constraints(m);
    assert forall|k: u32, c: Con| #[trigger] after.has(k, c) == (k != m && ctx.has(k, c)) by {}
    assert forall|k: u32| #[trigger] after.root(k) == ctx.root(k) by {}
    assert forall|k: u32| #[trigger] after.look(k) == ctx.look(k) by {}
    assert forall|k: u32| k < ctx.fresh implies #[trigger] after.root(ctx.root(k)) == after.root(
        k,
    ) by {
        lemma_root(ctx.shunted, k);
    }
    assert forall|k: u32, r: Seq<char>, o: u32| #[trigger] ctx.has(k, Con::Plus(r, o)) implies after.has(
        after.root(k),
        Con::Plus(r, o),
    ) || after.met(k, r, o) by {
        assert(!ctx.shunted.contains_key(k));
        assert(after.root(k) == k);
        if k == m {
            assert(ctx.met(m, r, o));
        } else {
            assert(after.has(k, Con::Plus(r, o)));
        }
    }
    assert forall|k: u32, o: u32| #[trigger] ctx.has(k, Con::Equal(o)) implies after.has(
        k,
        Con::Equal(o),
    ) || after.eqs.contains((k, o)) by {}
    assert forall|v: u32| #[trigger] ctx.vars.contains(v) implies after.root(v) == v by {}
    assert forall|rel: Rel| #[trigger] ctx.closed(rel) implies ctx.carries(after, rel) by {
        assert(after.closed(rel));
        assert(agree_below(ctx.fresh, rel, rel));
    }
}

/// What merging does to what metavariables have become.
pub proof fn lemma_absorbed_roots(ctx: Ctx, m: u32, c: u32)
    requires
        ctx.in_range(),
        m < c < ctx.fresh,
        !ctx.shunted.contains_key(m),
        !ctx.shunted.contains_key(c),
    ensures
        forall|k: u32| #[trigger]
            ctx.absorbed(m, c).root(k) == (if ctx.root(k) == m {
                c
            } else {
                ctx.root(k)
            }),
        ctx.absorbed(m, c).in_range(),
{
    let after = ctx.absorbed(m, c);
    assert forall|k: u32| #[trigger] after.root(k) == (if ctx.root(k) == m {
        c
    } else {
        ctx.root(k)
    }) by {
        lemma_root_insert(ctx.shunted, m, c, k);
    }
    assert forall|k: u32, d: Con| #[trigger] after.has(k, d) implies ctx.has(k, d) || (k == c
        && ctx.has(m, d) && d is Plus) by {}
    assert forall|k: u32, o: u32| #[trigger] after.has(k, Con::Equal(o)) implies o < after.fresh by {
        assert(ctx.has(k, Con::Equal(o)));
    }
    assert forall|k: u32, r: Seq<char>, o: u32| #[trigger] after.has(k, Con::Plus(r, o)) implies o
        < after.fresh by {
        assert(ctx.has(k, Con::Plus(r, o)) || ctx.has(m, Con::Plus(r, o)));
    }
}

/// Merging does not lose what is known.
proof fn lemma_absorbed_keeps(ctx: Ctx, m: u32, c: u32)
    requires
        ctx.in_range(),
        m < c < ctx.fresh,
        !ctx.shunted.contains_key(m),
        !ctx.shunted.contains_key(c),
        ctx.compatible(m, c),
        forall|o: u32| #[trigger] ctx.has(m, Con::Equal(o)) ==> ctx.eqs.contains((m, o)),
    ensures
        ctx.keeps_solutions(ctx.absorbed(m, c)),
        ctx.keeps_constraints(ctx.absorbed(m, c)),
        ctx.keeps_vars(ctx.absorbed(m, c)),
{
    let after = ctx.absorbed(m, c);
    lemma_absorbed_roots(ctx, m, c);
    assert forall|k: u32| k < ctx.fresh implies #[trigger] after.root(ctx.root(k)) == after.root(
        k,
    ) by {
        lemma_root(ctx.shunted, k);
        assert(ctx.root(ctx.root(k)) == ctx.root(k));
    }
    assert forall|k: u32| k < ctx.fresh && (#[trigger] ctx.look(k)) is Some implies after.look(k)
        == ctx.look(k) by {
        assert(after.root(k) == (if ctx.root(k) == m {
            c
        } else {
            ctx.root(k)
        }));
    }
    assert forall|k: u32, r: Seq<char>, o: u32| #[trigger] ctx.has(k, Con::Plus(r, o)) implies after.has(
        after.root(k),
        Con::Plus(r, o),
    ) by {
        assert(ctx.root(k) == k);
        if k == m {
            assert(pluses(ctx.cons[m]).contains(Con::Plus(r, o)));
            assert(after.has(c, Con::Plus(r, o)));
        } else {
            assert(after.has(k, Con::Plus(r, o)));
        }
    }
    assert forall|k: u32, o: u32| #[trigger] ctx.has(k, Con::Equal(o)) implies after.has(
        k,
        Con::Equal(o),
    ) || after.eqs.contains((k, o)) by {}
    assert forall|v: u32| #[trigger] ctx.vars.contains(v) implies after.vars.contains(
        after.root(v),
    ) by {
        assert(ctx.root(v) == v);
    }
    assert forall|w: u32| #[trigger] after.vars.contains(w) implies exists|v: u32|
        ctx.vars.contains(v) && #[trigger] after.root(v) == w by {
        if ctx.vars.contains(w) && w != m {
            assert(ctx.root(w) == w);
            assert(after.root(w) == w);
        } else {
            assert(ctx.root(m) == m);
            assert(after.root(m) == w);
        }
    }
}

/// Merging into a metavariable that is bound to the same values is a step on.
pub proof fn lemma_absorb_step(ctx: Ctx, m: u32, c: u32)
    requires
        ctx.in_range(),
        m < c < ctx.fresh,
        !ctx.shunted.contains_key(m),
        !ctx.shunted.contains_key(c),
        ctx.compatible(m, c),
        forall|o: u32| #[trigger] ctx.has(m, Con::Equal(o)) ==> ctx.eqs.contains((m, o)),
        forall|rel: Rel| #[trigger] ctx.closed(rel) ==> rel(m) == rel(c),
    ensures
        ctx.absorbed(m, c).in_range(),
        ctx.refines(ctx.absorbed(m, c)),
{
    let after = ctx.absorbed(m, c);
    lemma_absorbed_roots(ctx, m, c);
    lemma_absorbed_keeps(ctx, m, c);
    assert forall|rel: Rel| #[trigger] ctx.closed(rel) implies ctx.carries(after, rel) by {
        lemma_absorbed_closed(ctx, m, c, rel);
        assert(agree_below(ctx.fresh, rel, rel));
    }
}

proof fn lemma_absorbed_closed(ctx: Ctx, m: u32, c: u32, rel: Rel)
    requires
        ctx.closed(rel),
        rel(m) == rel(c),
    ensures
        ctx.absorbed(m, c).closed(rel),
{
    let after = ctx.absorbed(m, c);
    assert forall|k: u32, d: Con| #[trigger] after.has(k, d) implies ctx.has(k, d) || (k == c
        && ctx.has(m, d) && d is Plus) by {}
    assert forall|k: u32, o: u32| #[trigger] after.has(k, Con::Equal(o)) implies rel(k) == rel(
        o,
    ) by {
        assert(ctx.has(k, Con::Equal(o)));
    }
    assert forall|k: u32, r: Seq<char>, o: u32| #[trigger]
        after.has(k, Con::Plus(r, o)) implies plus_closed(rel(k), r, rel(o)) by {
        assert(ctx.has(k, Con::Plus(r, o)) || ctx.has(m, Con::Plus(r, o)));
    }
}

/// Making a metavariable is a step on.
pub proof fn lemma_fresh_step(ctx: Ctx)
    requires
        ctx.in_range(),
        ctx.fresh < u32::MAX,
    ensures
        ctx.refines(ctx.with_fresh()),
        ctx.with_fresh().in_range(),
        ctx.eqs_in_step() ==> ctx.with_fresh().eqs_in_step(),
        !ctx.with_fresh().shunted.contains_key(ctx.fresh as u32),
        !ctx.with_fresh().solved.contains_key(ctx.fresh as u32),
{
    let after = ctx.with_fresh();
    let c = ctx.fresh as u32;
    assert forall|k: u32, d: Con| #[trigger] after.has(k, d) == ctx.has(k, d) by {
        if k == c {
            assert(!ctx.cons.contains_key(c));
        }
    }
    assert forall|k: u32| #[trigger] after.root(k) == ctx.root(k) by {}
    assert(!ctx.shunted.contains_key(c)) by {
        if ctx.shunted.contains_key(c) {
            assert(c < ctx.shunted[c]);
        }
    }
    assert forall|k: u32| k < ctx.fresh implies #[trigger] after.root(ctx.root(k)) == after.root(
        k,
    ) by {
        lemma_root(ctx.shunted, k);
    }
    assert forall|k: u32, r: Seq<char>, o: u32| #[trigger] ctx.has(k, Con::Plus(r, o)) implies after.has(
        after.root(k),
        Con::Plus(r, o),
    ) by {
        assert(!ctx.shunted.contains_key(k));
        assert(after.root(k) == k);
        assert(after.has(k, Con::Plus(r, o)));
    }
    assert forall|k: u32, o: u32| #[trigger] ctx.has(k, Con::Equal(o)) implies after.has(
        k,
        Con::Equal(o),
    ) by {}
    assert forall|v: u32| #[trigger] ctx.vars.contains(v) implies after.root(v) == v by {}
    assert forall|rel: Rel| #[trigger] ctx.closed(rel) implies ctx.carries(after, rel) by {
        assert(after.closed(rel));
        assert(agree_below(ctx.fresh, rel, rel));
    }
}

/// Merging into a metavariable made for the purpose is a step on.
pub proof fn lemma_absorb_fresh_step(ctx: Ctx, m: u32)
    requires
        ctx.in_range(),
        ctx.fresh < u32::MAX,
        m < ctx.fresh,
        !ctx.shunted.contains_key(m),
        forall|o: u32| #[trigger] ctx.has(m, Con::Equal(o)) ==> ctx.eqs.contains((m, o)),
    ensures
        ctx.with_fresh().absorbed(m, ctx.fresh as u32).in_range(),
        ctx.refines(ctx.with_fresh().absorbed(m, ctx.fresh as u32)),
{
    let mid = ctx.with_fresh();
    let c = ctx.fresh as u32;
    let after = mid.absorbed(m, c);
    lemma_fresh_step(ctx);
    assert forall|o: u32| #[trigger] mid.has(m, Con::Equal(o)) implies mid.eqs.contains((m, o)) by {
        assert(ctx.has(m, Con::Equal(o)));
    }
    lemma_absorbed_roots(mid, m, c);
    lemma_absorbed_keeps(mid, m, c);
    lemma_keeps_transitive(ctx, mid, after);
    assert forall|rel: Rel| #[trigger] ctx.closed(rel) implies ctx.carries(after, rel) by {
        let wider: Rel = |k: u32| if k == c { rel(m) } else { rel(k) };
        lemma_closed_retarget(ctx, rel, wider, c);
        lemma_absorbed_closed(mid, m, c, wider);
        assert(agree_below(ctx.fresh, rel, wider));
        assert(functional(rel) ==> functional(wider)) by {
            if functional(rel) {
                assert forall|k: u32, a: Exts, b: Exts| #[trigger]
                    wider(k).contains(a) && #[trigger] wider(k).contains(b) implies a == b by {
                    let j = if k == c { m } else { k };
                    assert(rel(j).contains(a) && rel(j).contains(b));
                }
            }
        }
    }
}

/// A relation stays closed when it changes only at a new metavariable.
proof fn lemma_closed_retarget(ctx: Ctx, rel: Rel, wider: Rel, c: u32)
    requires
        ctx.in_range(),
        ctx.fresh < u32::MAX,
        c == ctx.fresh,
        ctx.closed(rel),
        forall|k: u32| k != c ==> #[trigger] wider(k) == rel(k),
    ensures
        ctx.with_fresh().closed(wider),
{
    let mid = ctx.with_fresh();
    assert forall|k: u32, d: Con| #[trigger] mid.has(k, d) implies ctx.has(k, d) && k != c by {}
    assert forall|k: u32, o: u32| #[trigger] mid.has(k, Con::Equal(o)) implies wider(k) == wider(
        o,
    ) by {
        assert(ctx.has(k, Con::Equal(o)));
        assert(wider(k) == rel(k) && wider(o) == rel(o));
    }
    assert forall|k: u32, r: Seq<char>, o: u32| #[trigger]
        mid.has(k, Con::Plus(r, o)) implies plus_closed(wider(k), r, wider(o)) by {
        assert(ctx.has(k, Con::Plus(r, o)));
        assert(wider(k) == rel(k) && wider(o) == rel(o));
    }
    assert forall|k: u32| #[trigger] mid.solved.contains_key(k) implies wider(k).contains(
        mid.solved[k],
    ) by {
        assert(ctx.solved.contains_key(k));
        assert(wider(k) == rel(k));
    }
    assert forall|k: u32| #[trigger] mid.shunted.contains_key(k) implies wider(k) == wider(
        mid.shunted[k],
    ) by {
        assert(ctx.shunted.contains_key(k));
        assert(wider(k) == rel(k) && wider(ctx.shunted[k]) == rel(ctx.shunted[k]));
    }
    assert forall|a: u32, b: u32| #[trigger] mid.eqs.contains((a, b)) implies wider(a) == wider(
        b,
    ) by {
        assert(ctx.eqs.contains((a, b)));
        assert(ctx.eq_nodes.contains(a) && ctx.eq_nodes.contains(b));
        assert(wider(a) == rel(a) && wider(b) == rel(b));
    }
}

/// Of two problems of which the first only has the new metavariable less, what
/// a third keeps of the second it keeps of the first.
proof fn lemma_keeps_transitive(ctx: Ctx, mid: Ctx, after: Ctx)
    requires
        ctx.in_range(),
        ctx.fresh < u32::MAX,
        mid == ctx.with_fresh(),
        mid.keeps_solutions(after),
        mid.keeps_constraints(after),
        mid.keeps_vars(after),
    ensures
        ctx.keeps_solutions(after),
        ctx.keeps_constraints(after),
        ctx.keeps_vars(after),
{
    assert forall|k: u32| #[trigger] mid.root(k) == ctx.root(k) by {}
    assert forall|k: u32| k < ctx.fresh implies #[trigger] after.root(ctx.root(k)) == after.root(
        k,
    ) by {
        assert(after.root(mid.root(k)) == after.root(k));
    }
    assert forall|k: u32| k < ctx.fresh && (#[trigger] ctx.look(k)) is Some implies after.look(k)
        == ctx.look(k) by {
        assert(mid.look(k) == ctx.look(k));
    }
    assert forall|k: u32, d: Con| #[trigger] ctx.has(k, d) implies mid.has(k, d) by {
        assert(k < ctx.fresh);
    }
    assert forall|k: u32, r: Seq<char>, o: u32| #[trigger] ctx.has(k, Con::Plus(r, o)) implies after.has(
        after.root(k),
        Con::Plus(r, o),
    ) || after.met(k, r, o) by {
        assert(mid.has(k, Con::Plus(r, o)));
    }
    assert forall|k: u32, o: u32| #[trigger] ctx.has(k, Con::Equal(o)) implies after.has(
        k,
        Con::Equal(o),
    ) || after.eqs.contains((k, o)) by {
        assert(mid.has(k, Con::Equal(o)));
    }
    assert forall|w: u32| #[trigger] after.vars.contains(w) implies exists|v: u32|
        ctx.vars.contains(v) && #[trigger] after.root(v) == w by {
        let v = choose|v: u32| mid.vars.contains(v) && #[trigger] after.root(v) == w;
        assert(ctx.vars.contains(v));
    }
    assert forall|v: u32| #[trigger] ctx.vars.contains(v) implies after.vars.contains(
        after.root(v),
    ) by {
        assert(mid.vars.contains(v));
    }
}

} // verus!
