//! What the operations on a unification problem do, said of the parts of the
//! problem.

use vstd::prelude::*;

use crate::extension_set::Exts;
use crate::hugr::{Direction, Loc};
use crate::infer::context::UnificationContext;
use crate::infer::eq_graph::{is_link_path, lemma_linked_back, lemma_linked_through, linked};
use crate::infer::error::{InferExtensionError, tells_mismatch};
use crate::infer::laws::law_clash_is_contradictory;
use crate::infer::merge::tallied;
use crate::infer::model::{
    Con, Ctx, Rel, agree_below, functional, lemma_closed_look, lemma_root, lemma_root_bound,
    plus_closed,
};
use crate::infer::run::law_solving_is_sound;
use crate::validate::ExtensionError;

verus! {

/// What a metavariable has become is found by going on, from each that has been
/// merged to what it was merged into, until one has not been merged.
pub proof fn law_merged_are_followed(ctx: Ctx, m: u32)
    requires
        forall|k: u32| #[trigger] ctx.shunted.contains_key(k) ==> k < ctx.shunted[k],
    ensures
        ctx.shunted.contains_key(m) ==> ctx.root(m) == ctx.root(ctx.shunted[m]),
        !ctx.shunted.contains_key(m) ==> ctx.root(m) == m,
        !ctx.shunted.contains_key(ctx.root(m)),
        ctx.look(m) is Some <==> ctx.solved.contains_key(ctx.root(m)),
        ctx.look(m) is Some ==> ctx.look(m)->0 == ctx.solved[ctx.root(m)],
{
    lemma_root(ctx.shunted, m);
}

/// To be linked is the least equivalence that holds of each equality.
pub proof fn law_linked_is_least_equivalence(
    eqs: Set<(u32, u32)>,
    same: spec_fn(u32, u32) -> bool,
    a: u32,
    b: u32,
    c: u32,
)
    requires
        forall|x: u32| #[trigger] same(x, x),
        forall|x: u32, y: u32| #[trigger] same(x, y) ==> same(y, x),
        forall|x: u32, y: u32, z: u32| #[trigger]
            same(x, y) && #[trigger] same(y, z) ==> same(x, z),
        forall|x: u32, y: u32| #[trigger] eqs.contains((x, y)) ==> same(x, y),
    ensures
        linked(eqs, a, a),
        eqs.contains((a, b)) ==> linked(eqs, a, b),
        linked(eqs, a, b) ==> linked(eqs, b, a),
        linked(eqs, a, b) && linked(eqs, b, c) ==> linked(eqs, a, c),
        linked(eqs, a, b) ==> same(a, b),
{
    assert(is_link_path(eqs, seq![a], a, a));
    if eqs.contains((a, b)) {
        assert(is_link_path(eqs, seq![a, b], a, b));
    }
    if linked(eqs, a, b) {
        lemma_linked_back(eqs, a, b);
        let path = choose|path: Seq<u32>| is_link_path(eqs, path, a, b);
        lemma_same_along(eqs, same, path, path.len() - 1);
        if linked(eqs, b, c) {
            lemma_linked_through(eqs, a, b, c);
        }
    }
}

proof fn lemma_same_along(
    eqs: Set<(u32, u32)>,
    same: spec_fn(u32, u32) -> bool,
    path: Seq<u32>,
    k: int,
)
    requires
        forall|x: u32| #[trigger] same(x, x),
        forall|x: u32, y: u32| #[trigger] same(x, y) ==> same(y, x),
        forall|x: u32, y: u32, z: u32| #[trigger]
            same(x, y) && #[trigger] same(y, z) ==> same(x, z),
        forall|x: u32, y: u32| #[trigger] eqs.contains((x, y)) ==> same(x, y),
        path.len() > 0,
        is_link_path(eqs, path, path[0], path.last()),
        0 <= k < path.len(),
    ensures
        same(path[0], path[k]),
    decreases k,
{
    if k > 0 {
        lemma_same_along(eqs, same, path, k - 1);
        let x = path[k - 1];
        let y = path[k];
        assert(eqs.contains((path[k - 1], path[k - 1 + 1])) || eqs.contains(
            (path[k - 1 + 1], path[k - 1]),
        ));
        assert(same(x, y) || same(y, x));
        assert(same(path[0], x));
    } else {
        assert(same(path[0], path[0]));
    }
}

/// Whether `c` is among the constraints recorded for `m`.
pub open spec fn carries_on(ctx: Ctx, m: u32, c: Con) -> bool {
    ctx.cons.contains_key(m) && ctx.cons[m].contains(c)
}

/// A new metavariable has the next number, and no constraints.
pub proof fn law_fresh_is_new(ctx: Ctx)
    requires
        ctx.in_range(),
        ctx.fresh < u32::MAX,
    ensures
        ({
            let after = ctx.with_fresh();
            &&& after.fresh == ctx.fresh + 1
            &&& after.cons.contains_key(ctx.fresh as u32)
            &&& forall|m: u32, c: Con| #[trigger]
                carries_on(after, m, c) <==> carries_on(ctx, m, c)
            &&& after.locs == ctx.locs && after.solved == ctx.solved
            &&& after.shunted == ctx.shunted && after.vars == ctx.vars
            &&& after.eqs == ctx.eqs && after.eq_nodes == ctx.eq_nodes
        }),
{
}

/// To add a constraint adds that one, and nothing else.
pub proof fn law_one_constraint_is_added(ctx: Ctx, m: u32, c: Con)
    ensures
        ({
            let after = ctx.with_constraint(m, c);
            &&& forall|k: u32, d: Con| #[trigger]
                carries_on(after, k, d) <==> carries_on(ctx, k, d) || k == m && d == c
            &&& after.locs == ctx.locs && after.solved == ctx.solved
            &&& after.shunted == ctx.shunted && after.vars == ctx.vars
            &&& after.eqs == ctx.eqs && after.eq_nodes == ctx.eq_nodes
            &&& after.fresh == ctx.fresh
        }),
{
}

/// To add a solution, a variable, a location or an equality adds that one, and
/// nothing else; of an equality, also one of what its sides have become.
pub proof fn law_one_thing_is_added(ctx: Ctx, m: u32, o: u32, set: Exts, loc: Loc)
    ensures
        ({
            let after = ctx.with_solution(m, set);
            &&& after.solved == ctx.solved.insert(m, set)
            &&& after == (Ctx { solved: after.solved, ..ctx })
        }),
        ({
            let after = ctx.with_variable(m);
            &&& after.vars == ctx.vars.insert(m)
            &&& after == (Ctx { vars: after.vars, ..ctx })
        }),
        ({
            let after = ctx.with_location(loc, m);
            &&& after.locs == ctx.locs.insert(loc, m)
            &&& after == (Ctx { locs: after.locs, ..ctx })
        }),
        ({
            let after = ctx.with_eq(m, o);
            &&& forall|a: u32, b: u32| #[trigger]
                after.eqs.contains((a, b)) <==> ctx.eqs.contains((a, b)) || a == m && b == o || a
                    == ctx.root(m) && b == ctx.root(o)
            &&& forall|a: u32| #[trigger]
                after.eq_nodes.contains(a) <==> ctx.eq_nodes.contains(a) || a == m || a == o || a
                    == ctx.root(m) || a == ctx.root(o)
            &&& after == (Ctx { eqs: after.eqs, eq_nodes: after.eq_nodes, ..ctx })
        }),
{
}

/// To instantiate the variables solves each that has no solution by the empty set,
/// leaves no variables, and changes nothing else.
pub proof fn law_variables_become_empty(ctx: Ctx, m: u32)
    ensures
        ({
            let after = ctx.instantiated();
            &&& after.solved.contains_key(m) <==> ctx.solved.contains_key(m) || ctx.vars.contains(m)
            &&& ctx.solved.contains_key(m) ==> after.solved[m] == ctx.solved[m]
            &&& !ctx.solved.contains_key(m) && ctx.vars.contains(m) ==> forall|name: Seq<char>|
                !(#[trigger] after.solved[m].contains(name))
            &&& !after.vars.contains(m)
            &&& after == (Ctx { solved: after.solved, vars: after.vars, ..ctx })
        }),
{
}

/// Merging keeps what is known of each metavariable and of the sums on it, tells
/// for no metavariable anything but what is known of one that has become the same,
/// and makes two the same just if they were or a chain of equalities relates what
/// they had become.
pub proof fn law_merging_joins_equals(base: Ctx, now: Ctx, m: u32, o: u32)
    requires
        base.wf(),
        now.wf(),
        base.merges(now, base.eq_nodes),
        m < base.fresh,
        o < base.fresh,
    ensures
        base.look(m) is Some ==> now.look(m) == base.look(m),
        now.look(m) is Some ==> exists|x: u32|
            #![trigger base.look(x)]
            base.look(x) == now.look(m) && now.root(x) == now.root(m),
        forall|r: Seq<char>, p: u32| #[trigger]
            carries_on(base, base.root(m), Con::Plus(r, p)) ==> carries_on(
                now,
                now.root(m),
                Con::Plus(r, p),
            ),
        now.root(m) == now.root(o) <==> base.root(m) == base.root(o) || base.eq_nodes.contains(
            base.root(m),
        ) && base.eq_nodes.contains(base.root(o)) && linked(base.eqs, base.root(m), base.root(o)),
        now.locs == base.locs,
{
    if base.look(m) is Some {
        lemma_merging_keeps(base, now, m);
    }
    if now.look(m) is Some {
        lemma_merging_finds(base, now, m);
    }
    lemma_merging_sums(base, now, m);
    lemma_merging_roots(base, now, m, o);
}

proof fn lemma_merging_keeps(base: Ctx, now: Ctx, m: u32)
    requires
        base.wf(),
        now.wf(),
        base.merges(now, base.eq_nodes),
        m < base.fresh,
        base.look(m) is Some,
    ensures
        now.look(m) == base.look(m),
{
    lemma_root_bound(base, m);
    lemma_root(base.shunted, m);
    lemma_root_after(base, now, m);
    let x = base.root(m);
    if base.eq_nodes.contains(x) {
        assert(base.goes_to(now, base.eq_nodes, x, now.shunted[x]));
        assert(base.brings_solution(now, base.eq_nodes, now.shunted[x]));
    }
}

proof fn lemma_merging_finds(base: Ctx, now: Ctx, m: u32)
    requires
        base.wf(),
        now.wf(),
        base.merges(now, base.eq_nodes),
        m < base.fresh,
        now.look(m) is Some,
    ensures
        exists|x: u32|
            #![trigger base.look(x)]
            base.look(x) == now.look(m) && now.root(x) == now.root(m),
{
    lemma_root_bound(base, m);
    lemma_root(base.shunted, m);
    lemma_root_after(base, now, m);
    let x = base.root(m);
    if base.eq_nodes.contains(x) {
        let c = now.shunted[x];
        assert(now.solved.contains_key(c));
        assert(base.brings_solution(now, base.eq_nodes, c));
        let z = choose|z: u32| #[trigger]
            base.goes_to(now, base.eq_nodes, z, c) && base.solved.contains_key(z);
        assert(base.root(z) == z);
        assert(z < base.fresh);
        lemma_root_after(base, now, z);
        assert(now.solved[c] == base.solved[z]);
        assert(base.look(z) == now.look(m));
    } else {
        assert(now.solved.contains_key(x));
        assert(base.look(m) == now.look(m));
    }
}

proof fn lemma_merging_sums(base: Ctx, now: Ctx, m: u32)
    requires
        base.wf(),
        now.wf(),
        base.merges(now, base.eq_nodes),
        m < base.fresh,
    ensures
        forall|r: Seq<char>, p: u32| #[trigger]
            carries_on(base, base.root(m), Con::Plus(r, p)) ==> carries_on(
                now,
                now.root(m),
                Con::Plus(r, p),
            ),
{
    lemma_root_bound(base, m);
    lemma_root(base.shunted, m);
    lemma_root_after(base, now, m);
    let x = base.root(m);
    assert forall|r: Seq<char>, p: u32| #[trigger]
        carries_on(base, x, Con::Plus(r, p)) implies carries_on(
        now,
        now.root(m),
        Con::Plus(r, p),
    ) by {
        let d = Con::Plus(r, p);
        assert(base.has(x, d));
        if base.eq_nodes.contains(x) {
            let c = now.shunted[x];
            assert(base.goes_to(now, base.eq_nodes, x, c));
            assert(base.brings(now, base.eq_nodes, c, d));
            assert(now.has(c, d));
        } else {
            assert(now.cons.contains_key(x));
        }
    }
}

proof fn lemma_merging_roots(base: Ctx, now: Ctx, m: u32, o: u32)
    requires
        base.wf(),
        now.wf(),
        base.merges(now, base.eq_nodes),
        m < base.fresh,
        o < base.fresh,
    ensures
        now.root(m) == now.root(o) <==> base.root(m) == base.root(o) || base.eq_nodes.contains(
            base.root(m),
        ) && base.eq_nodes.contains(base.root(o)) && linked(base.eqs, base.root(m), base.root(o)),
{
    lemma_root_bound(base, m);
    lemma_root_bound(base, o);
    lemma_root(base.shunted, m);
    lemma_root(base.shunted, o);
    lemma_root_after(base, now, m);
    lemma_root_after(base, now, o);
    let x = base.root(m);
    let y = base.root(o);
    if base.eq_nodes.contains(x) && base.eq_nodes.contains(y) {
        assert(base.to_merge(x) && base.to_merge(y));
        assert(now.shunted[x] == now.shunted[y] <==> linked(base.eqs, x, y));
    }
}

/// A merge tells which metavariables it merged that constraints were recorded for,
/// and what these were merged into.
pub proof fn law_merges_are_told(
    base: Ctx,
    now: Ctx,
    merged: Set<u32>,
    created: Set<u32>,
    m: u32,
)
    requires
        base.wf(),
        now.wf(),
        base.merges(now, base.eq_nodes),
        tallied(base, now, base.eq_nodes, merged, created),
    ensures
        merged.contains(m) <==> now.shunted.contains_key(m) && !base.shunted.contains_key(m)
            && base.cons.contains_key(m),
        merged.contains(m) ==> created.contains(now.shunted[m]),
        created.contains(m) ==> base.fresh <= m < now.fresh && now.cons.contains_key(m),
{
    assert(now.shunted.contains_key(m) <==> base.shunted.contains_key(m)
        || base.eq_nodes.contains(m));
    if created.contains(m) {
        let k = choose|k: u32| #[trigger] merged.contains(k) && now.shunted[k] == m;
        assert(base.to_merge(k));
    }
}

/// What a metavariable has become after a merge.
proof fn lemma_root_after(base: Ctx, now: Ctx, m: u32)
    requires
        base.wf(),
        now.wf(),
        base.merges(now, base.eq_nodes),
        m < base.fresh,
    ensures
        now.root(m) == (if base.eq_nodes.contains(base.root(m)) {
            now.shunted[base.root(m)]
        } else {
            base.root(m)
        }),
        base.eq_nodes.contains(base.root(m)) ==> base.fresh <= now.shunted[base.root(m)]
            < now.fresh && !now.shunted.contains_key(now.shunted[base.root(m)]),
    decreases u32::MAX - m,
{
    if base.shunted.contains_key(m) {
        assert(now.shunted.contains_key(m));
        assert(now.shunted[m] == base.shunted[m]);
        assert(m < base.shunted[m] < base.fresh);
        lemma_root_after(base, now, base.shunted[m]);
        assert(base.root(m) == base.root(base.shunted[m]));
        assert(now.root(m) == now.root(base.shunted[m]));
    } else if base.eq_nodes.contains(m) {
        assert(base.to_merge(m));
        assert(now.shunted.contains_key(m));
        let c = now.shunted[m];
        assert(base.fresh <= c);
        assert(!now.shunted.contains_key(c)) by {
            if now.shunted.contains_key(c) {
                if base.shunted.contains_key(c) {
                    assert(c < base.shunted[c]);
                    assert(base.shunted[c] < base.fresh);
                } else {
                    assert(base.eq_nodes.contains(c));
                }
            }
        }
        assert(base.root(m) == m);
        assert(now.root(c) == c);
        assert(now.root(m) == now.root(c));
    } else {
        assert(!now.shunted.contains_key(m));
    }
}

/// Once the constraints on a metavariable have been looked at, each sum on it of
/// which a side was known holds: the sum is what it adds to with the extension,
/// and what was taken from it lacks the extension.
pub proof fn law_sums_hold_once_solved(
    before: Ctx,
    later: Ctx,
    m: u32,
    r: Seq<char>,
    o: u32,
)
    requires
        before.in_range(),
        before.solves(later, m),
        carries_on(before, m, Con::Plus(r, o)),
        before.look(m) is Some || before.look(o) is Some,
    ensures
        later.look(m) is Some,
        later.look(o) is Some,
        forall|name: Seq<char>| #[trigger]
            later.look(m)->0.contains(name) <==> later.look(o)->0.contains(name) || name == r,
        before.look(m) is Some ==> later.look(m) == before.look(m),
        before.look(o) is Some ==> later.look(o) == before.look(o),
        before.look(o) is None && before.root(o) != m ==> !later.look(o)->0.contains(r),
{
    assert(before.has(m, Con::Plus(r, o)));
    assert(before.root(m) == m);
    let set = if before.look(m) is Some {
        before.look(m)->0
    } else {
        before.look(o)->0.insert(r)
    };
    if before.look(m) is None {
        assert(before.gives_value(m, r, o, set));
    }
    assert(before.own_value(m, set));
    assert(before.solved_from(later, m, set));
    assert(later.met(m, r, o));
    if before.look(m) is Some {
        crate::infer::solve::lemma_grows_look(before, later, m);
    }
    if before.look(o) is Some {
        crate::infer::solve::lemma_grows_look(before, later, o);
    }
}

/// The constraints on a metavariable are refused only for a reason: where some sets
/// for it and for what its sums add to agree with all that is known, each sum being
/// what it adds to with the extension, and what is not known lacking the extension,
/// they are not.
pub proof fn law_sums_that_can_hold_are_not_refused(
    ctx: Ctx,
    m: u32,
    value: spec_fn(u32) -> Exts,
)
    requires
        ctx.in_range(),
        ctx.cons.contains_key(m),
        ctx.look(m) is Some ==> value(m) == ctx.look(m)->0,
        forall|r: Seq<char>, o: u32| #[trigger]
            carries_on(ctx, m, Con::Plus(r, o)) ==> {
                &&& value(m) == value(ctx.root(o)).insert(r)
                &&& ctx.look(o) is Some ==> value(ctx.root(o)) == ctx.look(o)->0
                &&& ctx.look(o) is None && ctx.root(o) != m ==> !value(ctx.root(o)).contains(r)
            },
    ensures
        !ctx.conflicts(m),
{
    if ctx.conflicts(m) {
        let set = choose|set: Exts| #[trigger] ctx.own_value(m, set) && !ctx.fits(m, set);
        assert(ctx.root(m) == m);
        if ctx.look(m) is None {
            let (r, o) = choose|r: Seq<char>, o: u32| ctx.gives_value(m, r, o, set);
            assert(carries_on(ctx, m, Con::Plus(r, o)));
        }
        assert(set == value(m));
        assert forall|r: Seq<char>, o: u32| #[trigger]
            ctx.has(m, Con::Plus(r, o)) implies set.contains(r) && (ctx.look(o) is Some ==> set
            == ctx.look(o)->0.insert(r)) by {
            assert(carries_on(ctx, m, Con::Plus(r, o)));
        }
        assert forall|r1: Seq<char>, o1: u32, r2: Seq<char>, o2: u32| #[trigger]
            ctx.has(m, Con::Plus(r1, o1)) && #[trigger] ctx.has(m, Con::Plus(r2, o2)) && ctx.look(
                o1,
            ) is None && ctx.root(o1) == ctx.root(o2) && ctx.root(o1) != m implies r1 == r2 by {
            assert(carries_on(ctx, m, Con::Plus(r1, o1)));
            assert(carries_on(ctx, m, Con::Plus(r2, o2)));
            let x = value(ctx.root(o1));
            assert(ctx.look(o2) is None);
            assert(x.insert(r1).contains(r1));
            assert(x.insert(r2).contains(r1));
        }
    }
}

/// Whether `value` gives a set to each metavariable that solves the problem: the
/// solutions that are known, the same to both sides of each equality and to what
/// has been merged and what it was merged into, and to each sum what it gives to
/// what the sum adds to, which lacks the extension, with the extension.
pub open spec fn is_solved_by(ctx: Ctx, value: spec_fn(u32) -> Exts) -> bool {
    &&& forall|m: u32| #[trigger] ctx.solved.contains_key(m) ==> value(m) == ctx.solved[m]
    &&& forall|m: u32| #[trigger]
        ctx.shunted.contains_key(m) ==> value(m) == value(ctx.shunted[m])
    &&& forall|a: u32, b: u32| #[trigger] ctx.eqs.contains((a, b)) ==> value(a) == value(b)
    &&& forall|m: u32, o: u32| #[trigger]
        carries_on(ctx, m, Con::Equal(o)) ==> value(m) == value(o)
    &&& forall|m: u32, r: Seq<char>, o: u32| #[trigger]
        carries_on(ctx, m, Con::Plus(r, o)) ==> value(m) == value(o).insert(r) && !value(
            o,
        ).contains(r)
}

/// A problem that some sets solve is never reported to be contradictory, and what is
/// found for a metavariable is what these sets give to it.
pub proof fn law_solvable_problems_are_solved_right(
    start: Ctx,
    end: Ctx,
    value: spec_fn(u32) -> Exts,
    m: u32,
)
    requires
        start.in_range(),
        start.reaches(end),
        is_solved_by(start, value),
    ensures
        forall|err: InferExtensionError| !#[trigger] end.clash(err),
        m < start.fresh && end.look(m) is Some ==> end.look(m)->0 == value(m),
{
    let rel: Rel = |k: u32| set![value(k)];
    law_solving_is_sound(start, end);
    assert(start.closed(rel)) by {
        assert forall|k: u32, o: u32| #[trigger] start.has(k, Con::Equal(o)) implies rel(k) == rel(
            o,
        ) by {
            assert(carries_on(start, k, Con::Equal(o)));
        }
        assert forall|k: u32, r: Seq<char>, o: u32| #[trigger]
            start.has(k, Con::Plus(r, o)) implies plus_closed(rel(k), r, rel(o)) by {
            assert(carries_on(start, k, Con::Plus(r, o)));
            assert(value(o).insert(r).remove(r) =~= value(o));
        }
    }
    assert(functional(rel));
    assert(start.carries(end, rel));
    let wider = choose|wider: Rel|
        {
            &&& #[trigger] end.closed(wider)
            &&& agree_below(start.fresh, rel, wider)
            &&& functional(rel) ==> functional(wider)
        };
    assert forall|err: InferExtensionError| !#[trigger] end.clash(err) by {
        if end.clash(err) {
            law_clash_is_contradictory(end, err);
        }
    }
    if m < start.fresh && end.look(m) is Some {
        lemma_closed_look(end, wider, m);
        assert(rel(m) == wider(m));
    }
}

/// After success, a location without a solution is a variable, or there is a sum on
/// what it has become.
pub proof fn law_nothing_is_left_loose(end: Ctx, loc: Loc)
    requires
        end.in_range(),
        end.all_grounded(),
        end.locs.contains_key(loc),
        end.look(end.locs[loc]) is None,
    ensures
        end.vars.contains(end.locs[loc]) || end.vars.contains(end.root(end.locs[loc])) || exists|
            r: Seq<char>,
            o: u32,
        | carries_on(end, end.root(end.locs[loc]), Con::Plus(r, o)),
{
    let m = end.locs[loc];
    let path = choose|path: Seq<u32>| #[trigger]
        end.is_dependency(path, m) && !end.is_open(path.last());
    if path.len() > 1 {
        assert(end.is_open(path[0]) && end.depends(path[0], path[1]));
        let r = choose|r: Seq<char>| end.has(end.root(path[0]), Con::Plus(r, path[1]));
        assert(carries_on(end, end.root(m), Con::Plus(r, path[1])));
    }
}

/// What is found is found for the locations whose metavariable, or what that has
/// become, is solved.
pub proof fn law_found_is_what_is_solved(ctx: Ctx, loc: Loc)
    ensures
        ctx.found().contains_key(loc) <==> ctx.locs.contains_key(loc) && ctx.solved.contains_key(
            ctx.root(ctx.locs[loc]),
        ),
        ctx.found().contains_key(loc) ==> ctx.found()[loc] == ctx.solved[ctx.root(ctx.locs[loc])],
{
}

/// An unsolved location has no solution, and its metavariable is no variable; where
/// there are no constraints on it, that is enough.
pub proof fn law_unsolved_locations(ctx: UnificationContext, loc: Loc)
    requires
        ctx@.in_range(),
        ctx@.locs.contains_key(loc),
    ensures
        ctx.unsolved_at(loc) ==> !ctx@.solved.contains_key(ctx@.root(ctx@.locs[loc]))
            && !ctx@.vars.contains(ctx@.locs[loc]) && !ctx@.vars.contains(
            ctx@.root(ctx@.locs[loc]),
        ),
        !ctx@.solved.contains_key(ctx@.root(ctx@.locs[loc])) && !ctx@.vars.contains(ctx@.locs[loc])
            && !ctx@.vars.contains(ctx@.root(ctx@.locs[loc])) && (forall|c: Con|
            !#[trigger] carries_on(ctx@, ctx@.root(ctx@.locs[loc]), c)) ==> ctx.unsolved_at(loc),
{
    let m = ctx@.locs[loc];
    ctx.law_first_constraint(m);
    if forall|c: Con| !#[trigger] carries_on(ctx@, ctx@.root(m), c) {
        assert(ctx.first(m) is None) by {
            if ctx.first(m) is Some {
                assert(carries_on(ctx@, ctx@.root(m), ctx.first(m)->0));
            }
        }
    }
}

/// A report of two ends of an edge names the node where the edge starts with the set
/// there, the node where it ends with the set there, and says which of them has
/// what the other lacks, whichever end is looked at first. Other reports name the
/// places and the sets as they are given.
pub proof fn law_reports_tell_what_differs(
    err: InferExtensionError,
    src: Loc,
    tgt: Loc,
    src_set: Exts,
    tgt_set: Exts,
)
    requires
        src.1 == Direction::Outgoing,
        tgt.1 == Direction::Incoming,
    ensures
        tells_mismatch(err, Some(src), Some(tgt), true, src_set, tgt_set) <==> tells_mismatch(
            err,
            Some(tgt),
            Some(src),
            true,
            tgt_set,
            src_set,
        ),
        tells_mismatch(err, Some(src), Some(tgt), true, src_set, tgt_set) ==> match err {
            InferExtensionError::EdgeMismatch(
                ExtensionError::TgtExceedsSrcExtensions {
                    from,
                    from_extensions,
                    to,
                    to_extensions,
                    ..
                },
            ) => {
                &&& from == src.0 && from_extensions@ == src_set
                &&& to == tgt.0 && to_extensions@ == tgt_set
                &&& forall|name: Seq<char>| #[trigger]
                    src_set.contains(name) ==> tgt_set.contains(name)
            },
            InferExtensionError::EdgeMismatch(
                ExtensionError::SrcExceedsTgtExtensions {
                    from,
                    from_extensions,
                    to,
                    to_extensions,
                    ..
                },
            ) => {
                &&& from == src.0 && from_extensions@ == src_set
                &&& to == tgt.0 && to_extensions@ == tgt_set
                &&& exists|name: Seq<char>| #[trigger]
                    src_set.contains(name) && !tgt_set.contains(name)
            },
            _ => false,
        },
        tells_mismatch(err, Some(src), Some(tgt), false, src_set, tgt_set) ==> match err {
            InferExtensionError::MismatchedConcreteWithLocations {
                expected_loc,
                expected,
                actual_loc,
                actual,
            } => {
                &&& expected_loc == src && expected@ == src_set
                &&& actual_loc == tgt && actual@ == tgt_set
            },
            _ => false,
        },
{
    if !src_set.subset_of(tgt_set) {
        let name = choose|name: Seq<char>| src_set.contains(name) && !tgt_set.contains(name);
        assert(src_set.contains(name) && !tgt_set.contains(name));
    }
}

/// Whether a sum and what it adds to are known but differ by more than the
/// extension, or the sum is known, lacks the extension, and what it adds to is not
/// known.
pub open spec fn sum_is_off(ctx: Ctx, m: u32, r: Seq<char>, o: u32) -> bool {
    &&& carries_on(ctx, m, Con::Plus(r, o))
    &&& ctx.solved.contains_key(ctx.root(m))
    &&& if ctx.solved.contains_key(ctx.root(o)) {
        ctx.solved[ctx.root(m)] != ctx.solved[ctx.root(o)].insert(r)
    } else {
        !ctx.solved[ctx.root(m)].contains(r)
    }
}

/// Whether two metavariables are known but differ, though a chain of equalities
/// relates one of them to what was merged into the other.
pub open spec fn equals_are_off(ctx: Ctx, k: u32, m: u32) -> bool {
    &&& linked(ctx.eqs, k, m)
    &&& ctx.shunted.contains_key(k)
    &&& ctx.solved.contains_key(m)
    &&& ctx.solved.contains_key(ctx.shunted[k])
    &&& ctx.solved[m] != ctx.solved[ctx.shunted[k]]
}

/// A mismatch is reported only for a cause: a sum that is off, or two that should be
/// equal and are not.
pub proof fn law_mismatches_have_a_cause(ctx: Ctx, err: InferExtensionError)
    requires
        ctx.clash(err),
    ensures
        (exists|m: u32, r: Seq<char>, o: u32| sum_is_off(ctx, m, r, o)) || (exists|k: u32, m: u32|
            equals_are_off(ctx, k, m)),
{
    if exists|m: u32| ctx.own_clash(err, m) {
        let m = choose|m: u32| ctx.own_clash(err, m);
        let (r, o) = choose|r: Seq<char>, o: u32| ctx.sum_clash(err, m, r, o);
        assert(sum_is_off(ctx, m, r, o));
    } else {
        let (k, m, c) = choose|k: u32, m: u32, c: u32| ctx.join_clash(err, k, m, c);
        assert(equals_are_off(ctx, k, m));
    }
}

/// A mismatch that is reported is one: the two sets in the report differ.
pub proof fn law_reported_sets_differ(ctx: Ctx, err: InferExtensionError)
    requires
        ctx.clash(err),
    ensures
        match err {
            InferExtensionError::MismatchedConcrete { expected, actual } => expected@ != actual@,
            InferExtensionError::MismatchedConcreteWithLocations { expected, actual, .. } => {
                expected@ != actual@
            },
            InferExtensionError::EdgeMismatch(
                ExtensionError::TgtExceedsSrcExtensions { from_extensions, to_extensions, .. },
            ) => from_extensions@ != to_extensions@,
            InferExtensionError::EdgeMismatch(
                ExtensionError::SrcExceedsTgtExtensions { from_extensions, to_extensions, .. },
            ) => from_extensions@ != to_extensions@,
            _ => false,
        },
{
    if exists|m: u32| ctx.own_clash(err, m) {
        let m = choose|m: u32| ctx.own_clash(err, m);
        let (r, o) = choose|r: Seq<char>, o: u32| ctx.sum_clash(err, m, r, o);
        if ctx.plus_clash(err, m, r, o) {
            lemma_report(ctx, err, m, o, ctx.look(m)->0, ctx.look(o)->0.insert(r));
        } else {
            assert(ctx.look(m)->0.insert(r).contains(r));
            lemma_report(ctx, err, m, o, ctx.look(m)->0, ctx.look(m)->0.insert(r));
        }
    } else {
        let (k, m, c) = choose|k: u32, m: u32, c: u32| ctx.join_clash(err, k, m, c);
        lemma_report(ctx, err, m, c, ctx.solved[m], ctx.solved[c]);
    }
}

proof fn lemma_report(
    ctx: Ctx,
    err: InferExtensionError,
    m: u32,
    o: u32,
    a: Exts,
    b: Exts,
)
    requires
        ctx.reports(err, m, o, a, b),
        a != b,
    ensures
        match err {
            InferExtensionError::MismatchedConcrete { expected, actual } => expected@ != actual@,
            InferExtensionError::MismatchedConcreteWithLocations { expected, actual, .. } => {
                expected@ != actual@
            },
            InferExtensionError::EdgeMismatch(
                ExtensionError::TgtExceedsSrcExtensions { from_extensions, to_extensions, .. },
            ) => from_extensions@ != to_extensions@,
            InferExtensionError::EdgeMismatch(
                ExtensionError::SrcExceedsTgtExtensions { from_extensions, to_extensions, .. },
            ) => from_extensions@ != to_extensions@,
            _ => false,
        },
{
    let (loc1, loc2) = choose|loc1: Option<Loc>, loc2: Option<Loc>| #[trigger]
        ctx.located(m, loc1) && #[trigger] ctx.located(o, loc2) && tells_mismatch(
            err,
            loc1,
            loc2,
            ctx.wired(loc1, loc2),
            a,
            b,
        );
}

/// A report names places only if they are those of the metavariables that it is
/// about, and names none only if one of these has no place.
pub proof fn law_reports_name_places(
    ctx: Ctx,
    err: InferExtensionError,
    m: u32,
    o: u32,
    a: Exts,
    b: Exts,
)
    requires
        ctx.reports(err, m, o, a, b),
    ensures
        match err {
            InferExtensionError::MismatchedConcreteWithLocations {
                expected_loc,
                actual_loc,
                ..
            } => {
                &&& ctx.locs.contains_key(expected_loc) && ctx.locs.contains_key(actual_loc)
                &&& ctx.locs[expected_loc] == m || ctx.root(ctx.locs[expected_loc]) == m
                &&& ctx.locs[actual_loc] == o || ctx.root(ctx.locs[actual_loc]) == o
            },
            InferExtensionError::MismatchedConcrete { .. } => {
                ||| forall|loc: Loc| #[trigger]
                    ctx.locs.contains_key(loc) ==> ctx.locs[loc] != m && ctx.root(ctx.locs[loc])
                        != m
                ||| forall|loc: Loc| #[trigger]
                    ctx.locs.contains_key(loc) ==> ctx.locs[loc] != o && ctx.root(ctx.locs[loc])
                        != o
            },
            InferExtensionError::EdgeMismatch(_) => true,
            InferExtensionError::Unsolved { .. } => false,
        },
{
    let (loc1, loc2) = choose|loc1: Option<Loc>, loc2: Option<Loc>| #[trigger]
        ctx.located(m, loc1) && #[trigger] ctx.located(o, loc2) && tells_mismatch(
            err,
            loc1,
            loc2,
            ctx.wired(loc1, loc2),
            a,
            b,
        );
    if loc1 is None {
        assert forall|loc: Loc| #[trigger] ctx.locs.contains_key(loc) implies ctx.locs[loc] != m
            && ctx.root(ctx.locs[loc]) != m by {
            assert(!ctx.stands_at(m, loc));
        }
    }
    if loc2 is None {
        assert forall|loc: Loc| #[trigger] ctx.locs.contains_key(loc) implies ctx.locs[loc] != o
            && ctx.root(ctx.locs[loc]) != o by {
            assert(!ctx.stands_at(o, loc));
        }
    }
}

/// Sets that solve a problem with a union in it give to the output what they give to
/// the input and the extensions of the union.
pub proof fn law_unions_unite(
    ctx: Ctx,
    input: u32,
    output: u32,
    names: Seq<Seq<char>>,
    value: spec_fn(u32) -> Exts,
)
    requires
        ctx.in_range(),
        ctx.fresh + names.len() <= u32::MAX,
        is_solved_by(ctx.with_union(input, output, names), value),
    ensures
        forall|name: Seq<char>| #[trigger]
            value(output).contains(name) <==> value(input).contains(name) || names.contains(name),
        is_solved_by(ctx, value),
{
    let after = ctx.with_union(input, output, names);
    let last = ctx.chain_last(input, names);
    assert(after.solved == ctx.solved && after.shunted == ctx.shunted && after.eqs == ctx.eqs);
    assert forall|m: u32| #[trigger] ctx.solved.contains_key(m) implies value(m)
        == ctx.solved[m] by {
        assert(after.solved.contains_key(m));
    }
    assert forall|a: u32, b: u32| #[trigger] ctx.eqs.contains((a, b)) implies value(a) == value(
        b,
    ) by {
        assert(after.eqs.contains((a, b)));
    }
    assert(carries_on(after, output, Con::Equal(last)));
    lemma_union_along(ctx, input, output, names, value, names.len() as int);
    assert(names.take(names.len() as int) =~= names);
    assert forall|m: u32, c: Con| #[trigger] carries_on(ctx, m, c) implies carries_on(
        after,
        m,
        c,
    ) by {
        assert(m < ctx.fresh);
    }
    assert forall|m: u32, o: u32| #[trigger] carries_on(ctx, m, Con::Equal(o)) implies value(m)
        == value(o) by {
        assert(carries_on(after, m, Con::Equal(o)));
    }
    assert forall|m: u32, r: Seq<char>, o: u32| #[trigger]
        carries_on(ctx, m, Con::Plus(r, o)) implies value(m) == value(o).insert(r) && !value(
        o,
    ).contains(r) by {
        assert(carries_on(after, m, Con::Plus(r, o)));
    }
}

proof fn lemma_union_along(
    ctx: Ctx,
    input: u32,
    output: u32,
    names: Seq<Seq<char>>,
    value: spec_fn(u32) -> Exts,
    k: int,
)
    requires
        ctx.in_range(),
        ctx.fresh + names.len() <= u32::MAX,
        is_solved_by(ctx.with_union(input, output, names), value),
        0 <= k <= names.len(),
    ensures
        forall|name: Seq<char>| #[trigger]
            value(ctx.chain_last(input, names.take(k))).contains(name) <==> value(input).contains(
                name,
            ) || names.take(k).contains(name),
    decreases k,
{
    let after = ctx.with_union(input, output, names);
    if k > 0 {
        let prev = ctx.chain_last(input, names.take(k - 1));
        let m = (ctx.fresh + k - 1) as u32;
        let r = names[k - 1];
        lemma_union_along(ctx, input, output, names, value, k - 1);
        assert(m == ctx.chain_last(input, names.take(k)));
        assert(carries_on(after, m, Con::Plus(r, prev)));
        assert(value(m) == value(prev).insert(r));
        let shorter = names.take(k - 1);
        let longer = names.take(k);
        assert(longer =~= shorter.push(r));
        assert forall|name: Seq<char>| #[trigger] value(m).contains(name) <==> value(
            input,
        ).contains(name) || longer.contains(name) by {
            assert(value(prev).contains(name) <==> value(input).contains(name)
                || shorter.contains(name));
            assert(longer[k - 1] == r);
            if shorter.contains(name) {
                let i = choose|i: int| 0 <= i < shorter.len() && shorter[i] == name;
                assert(longer[i] == name);
            }
            if longer.contains(name) && name != r {
                let i = choose|i: int| 0 <= i < longer.len() && longer[i] == name;
                assert(shorter[i] == name);
            }
        }
    }
}

} // verus!
