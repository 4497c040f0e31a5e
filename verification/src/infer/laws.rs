//! What holds of inference as a whole.

use vstd::prelude::*;

use crate::extension_set::Exts;
use crate::hugr::{Direction, EdgeKind, HugrModel, Loc, Node};
use crate::infer::error::InferExtensionError;
use crate::infer::eq_graph::{is_link_path, linked};
use crate::infer::{inferred, instantiates, with_inputs};
use crate::infer::lemma_instantiated_wf;
use crate::infer::merge::lemma_nothing_to_merge;
use crate::infer::model::{
    Con, Ctx, Rel, agree_below, functional, lemma_closed_linked, lemma_closed_look,
    lemma_closed_root, lemma_contradictory_before, lemma_root, plus_closed,
};
use crate::infer::problem::{
    Orders, Reason, asked, chain_before, chain_start, demand_of, given, lemma_chain_demand,
    lemma_chain_start, lemma_demand_bound, lemma_loc_meta, lemma_problem_wf, loc_meta, meta_demand,
    meta_loc, order_fits, orders_fit, problem,
};
use crate::infer::run::{Step, law_solving_is_sound};
use crate::locations::{ExtensionSolution, solution_sets};
use crate::validate::{compatible, declared_sets, io_matches};

verus! {

/// Where two things that are known contradict each other, no relation that
/// holds what is known gives one value to each metavariable.
pub proof fn law_clash_is_contradictory(ctx: Ctx, err: InferExtensionError)
    requires
        ctx.in_range(),
        ctx.clash(err),
    ensures
        ctx.contradictory(),
{
    assert forall|rel: Rel| #[trigger] ctx.closed(rel) implies !functional(rel) by {
        if exists|m: u32| ctx.own_clash(err, m) {
            let m = choose|m: u32| ctx.own_clash(err, m);
            let (r, o) = choose|r: Seq<char>, o: u32| ctx.sum_clash(err, m, r, o);
            let upper = ctx.look(m)->0;
            lemma_closed_look(ctx, rel, m);
            if ctx.plus_clash(err, m, r, o) {
                lemma_closed_look(ctx, rel, o);
                assert(rel(m).contains(upper));
                assert(rel(m).contains(ctx.look(o)->0.insert(r)));
            } else {
                assert(rel(o).contains(upper.remove(r)));
                assert(rel(m).contains(upper.remove(r).insert(r)));
                assert(upper.remove(r).insert(r).contains(r));
            }
        } else {
            let (k, m, c) = choose|k: u32, m: u32, c: u32| ctx.join_clash(err, k, m, c);
            lemma_closed_linked(ctx, rel, k, m);
            assert(rel(m).contains(ctx.solved[m]));
            assert(rel(m).contains(ctx.solved[c]));
        }
    }
}

/// A mismatch is reported only of a problem that is contradictory from the
/// start.
pub proof fn law_no_false_mismatch(start: Ctx, end: Ctx, err: InferExtensionError)
    requires
        start.in_range(),
        start.reaches(end),
        end.clash(err),
    ensures
        start.contradictory(),
{
    law_solving_is_sound(start, end);
    law_clash_is_contradictory(end, err);
    lemma_contradictory_before(start, end);
}

/// When nothing is left to be done, every constraint of the problem holds as
/// far as it can be told: metavariables that should be equal have become the
/// same, and of a sum both sides are solved in accordance with it, or neither
/// is.
pub proof fn law_constraints_are_met(start: Ctx, end: Ctx)
    requires
        start.in_range(),
        start.reaches(end),
        end.finished(),
    ensures
        forall|m: u32, o: u32| #[trigger] start.has(m, Con::Equal(o)) ==> end.root(m) == end.root(o),
        forall|m: u32, r: Seq<char>, o: u32| #[trigger]
            start.has(m, Con::Plus(r, o)) ==> end.met(m, r, o) || end.look(m) is None && end.look(
                o,
            ) is None,
{
    law_solving_is_sound(start, end);
    assert forall|m: u32, o: u32| #[trigger] start.has(m, Con::Equal(o)) implies end.root(m)
        == end.root(o) by {
        assert(!end.has(m, Con::Equal(o)));
        assert(end.eqs.contains((m, o)));
        lemma_root(end.shunted, m);
    }
    assert forall|m: u32, r: Seq<char>, o: u32| #[trigger]
        start.has(m, Con::Plus(r, o)) implies end.met(m, r, o) || end.look(m) is None && end.look(
        o,
    ) is None by {
        if !end.met(m, r, o) {
            let n = end.root(m);
            assert(end.has(n, Con::Plus(r, o)));
            assert(end.balanced(n, r, o));
            lemma_root(end.shunted, m);
            assert(end.root(n) == n);
            assert(end.look(n) == end.look(m));
        }
    }
}

/// Solutions that have been found are never changed.
pub proof fn law_solutions_are_kept(start: Ctx, end: Ctx, m: u32)
    requires
        start.in_range(),
        start.reaches(end),
        m < start.fresh,
        start.look(m) is Some,
    ensures
        end.look(m) == start.look(m),
{
    law_solving_is_sound(start, end);
}

/// Metavariables that have become the same stay so.
pub proof fn law_merging_is_kept(start: Ctx, end: Ctx, m: u32, o: u32)
    requires
        start.in_range(),
        start.reaches(end),
        m < start.fresh,
        o < start.fresh,
        start.root(m) == start.root(o),
    ensures
        end.root(m) == end.root(o),
{
    law_solving_is_sound(start, end);
    assert(end.root(start.root(m)) == end.root(m));
    assert(end.root(start.root(o)) == end.root(o));
}

/// Where there are no variables, success means that every location is solved.
pub proof fn law_without_variables_all_is_solved(end: Ctx, loc: Loc)
    requires
        end.finished(),
        end.all_grounded(),
        end.vars == Set::<u32>::empty(),
        end.locs.contains_key(loc),
    ensures
        end.look(end.locs[loc]) is Some,
{
    if end.look(end.locs[loc]) is None {
        let m = end.locs[loc];
        assert(end.grounded(m));
        let path = choose|path: Seq<u32>| #[trigger]
            end.is_dependency(path, m) && !end.is_open(path.last());
        lemma_dependency_open(end, path, path.len() - 1);
    }
}

/// Where there are no variables, what depends on nothing known leads to
/// nothing known.
proof fn lemma_dependency_open(ctx: Ctx, path: Seq<u32>, k: int)
    requires
        ctx.finished(),
        ctx.vars == Set::<u32>::empty(),
        ctx.is_dependency(path, path[0]),
        ctx.look(path[0]) is None,
        0 <= k < path.len(),
    ensures
        ctx.is_open(path[k]),
    decreases k,
{
    if k > 0 {
        lemma_dependency_open(ctx, path, k - 1);
        assert(ctx.depends(path[k - 1], path[k - 1 + 1]));
        let n = ctx.root(path[k - 1]);
        let r = choose|r: Seq<char>| ctx.has(n, Con::Plus(r, path[k]));
        lemma_root(ctx.shunted, path[k - 1]);
        assert(ctx.balanced(n, r, path[k]));
        assert(ctx.look(n) == ctx.look(path[k - 1]));
    }
}

/// What the solution and the closure say together.
pub open spec fn combined(solution: ExtensionSolution, closure: ExtensionSolution) -> Map<
    Loc,
    Exts,
> {
    solution_sets(solution@).union_prefer_right(solution_sets(closure@))
}

/// Whether `val` gives a set to every location of the graph, the declared one
/// where there is one, such that the sides of the input and output nodes of a
/// region are like the region's, and the ends of an edge that carries a value
/// are alike.
pub open spec fn respects(h: HugrModel, val: Map<Loc, Exts>) -> bool {
    &&& forall|loc: Loc| #[trigger] val.contains_key(loc) <==> h.valid(loc.0)
    &&& forall|loc: Loc|
        h.valid(loc.0) && (#[trigger] h.declared(loc)) is Some ==> val[loc] == h.declared(loc)->0
    &&& forall|p: Node, dir: Direction|
        #![trigger h.io(p), val[((h.io(p)->0).0, dir)]]
        h.valid(p) && h.io(p) is Some ==> val[((h.io(p)->0).0, dir)] == val[(
            p,
            Direction::Incoming,
        )]
    &&& forall|p: Node, dir: Direction|
        #![trigger h.io(p), val[((h.io(p)->0).1, dir)]]
        h.valid(p) && h.io(p) is Some ==> val[((h.io(p)->0).1, dir)] == val[(
            p,
            Direction::Outgoing,
        )]
    &&& forall|e: int|
        0 <= e < h.edges.len() && (#[trigger] h.edges[e]).kind == EdgeKind::Value ==> val[(
            h.edges[e].src,
            Direction::Outgoing,
        )] == val[(h.edges[e].tgt, Direction::Incoming)]
}

/// Whether at the output of each open node there is what is at its input and
/// what the node adds.
pub open spec fn unites_delta(h: HugrModel, val: Map<Loc, Exts>) -> bool {
    forall|n: Node|
        h.valid(n) && (#[trigger] h.at(n)).input is None ==> val[(n, Direction::Outgoing)] == val[(
            n,
            Direction::Incoming,
        )].union(h.at(n).delta)
}

/// Whether each open node adds what it adds, and had none of it at its input.
pub open spec fn adds_delta(h: HugrModel, val: Map<Loc, Exts>) -> bool {
    forall|n: Node|
        h.valid(n) && (#[trigger] h.at(n)).input is None ==> {
            &&& val[(n, Direction::Incoming)].disjoint(h.at(n).delta)
            &&& val[(n, Direction::Outgoing)] == val[(n, Direction::Incoming)].union(h.at(n).delta)
        }
}

/// How the runs of an inference that succeeds fit together.
pub(crate) proof fn lemma_stages(
    h: HugrModel,
    orders: Orders,
    mid: Ctx,
    end: Ctx,
    solution: ExtensionSolution,
    closure: ExtensionSolution,
)
    requires
        h.wf(),
        meta_demand(h) <= u32::MAX,
        inferred(h, orders, mid, end, Ok((solution, closure))),
    ensures
        problem(h, orders).in_range(),
        problem(h, orders).refines(mid),
        mid.in_range(),
        mid.instantiated().in_range(),
        mid.instantiated().refines(end),
        end.in_range(),
        end.locs == problem(h, orders).locs,
        end.vars == Set::<u32>::empty(),
        forall|m: u32| #[trigger] mid.instantiated().root(m) == mid.root(m),
        forall|m: u32|
            m < mid.fresh && (#[trigger] mid.look(m)) is Some ==> end.look(m) == mid.look(m),
{
    let start = problem(h, orders);
    lemma_problem_wf(h, orders);
    law_solving_is_sound(start, mid);
    lemma_instantiated_wf(mid);
    let next = mid.instantiated();
    law_solving_is_sound(next, end);
    assert forall|m: u32| #[trigger] next.root(m) == mid.root(m) by {}
    assert forall|m: u32| m < mid.fresh && (#[trigger] mid.look(m)) is Some implies end.look(m)
        == mid.look(m) by {
        assert(next.look(m) == mid.look(m));
    }
    assert(end.vars =~= Set::<u32>::empty()) by {
        assert forall|w: u32| !end.vars.contains(w) by {
            if end.vars.contains(w) {
                let v = choose|v: u32| next.vars.contains(v) && #[trigger] end.root(v) == w;
            }
        }
    }
}

/// A successful inference gives a set to each side of each node, once: in the
/// solution or in the closure. Together they are what the second stage finds.
pub proof fn law_inference_covers_the_graph(
    h: HugrModel,
    orders: Orders,
    mid: Ctx,
    end: Ctx,
    solution: ExtensionSolution,
    closure: ExtensionSolution,
)
    requires
        h.wf(),
        meta_demand(h) <= u32::MAX,
        inferred(h, orders, mid, end, Ok((solution, closure))),
    ensures
        forall|loc: Loc|
            #![trigger h.valid(loc.0)]
            h.valid(loc.0) ==> (solution@.contains_key(loc) <==> !closure@.contains_key(loc)),
        forall|loc: Loc|
            solution@.contains_key(loc) || closure@.contains_key(loc) ==> #[trigger] h.valid(loc.0),
        combined(solution, closure) == end.found(),
{
    let start = problem(h, orders);
    lemma_stages(h, orders, mid, end, solution, closure);
    let sol = solution_sets(solution@);
    let clo = solution_sets(closure@);
    assert forall|loc: Loc| #[trigger] solution@.contains_key(loc) <==> mid.found().contains_key(
        loc,
    ) by {
        assert(sol.contains_key(loc) <==> solution@.contains_key(loc));
    }
    assert forall|loc: Loc| #[trigger] closure@.contains_key(loc) <==> end.found().contains_key(loc)
        && !solution@.contains_key(loc) by {
        assert(clo.contains_key(loc) <==> closure@.contains_key(loc));
    }
    assert forall|loc: Loc| #[trigger] start.locs.contains_key(loc) implies end.found().contains_key(
        loc,
    ) by {
        law_without_variables_all_is_solved(end, loc);
    }
    assert forall|loc: Loc|
        #![trigger h.valid(loc.0)]
        h.valid(loc.0) implies (solution@.contains_key(loc) <==> !closure@.contains_key(loc)) by {
        assert(start.locs.contains_key(loc));
    }
    assert forall|loc: Loc|
        solution@.contains_key(loc) || closure@.contains_key(loc) implies #[trigger] h.valid(
        loc.0,
    ) by {
        assert(mid.found().contains_key(loc) || end.found().contains_key(loc));
        assert(start.locs.contains_key(loc));
    }
    let both = combined(solution, closure);
    assert forall|loc: Loc| #[trigger] both.contains_key(loc) <==> end.found().contains_key(loc) by {
        if mid.found().contains_key(loc) {
            assert(start.locs.contains_key(loc));
        }
    }
    assert forall|loc: Loc| #[trigger] both.contains_key(loc) implies both[loc]
        == end.found()[loc] by {
        if !clo.contains_key(loc) {
            assert(sol.contains_key(loc));
            assert(sol[loc] == mid.found()[loc]);
            let m = start.locs[loc];
            assert(start.locs.contains_key(loc));
            assert(m < start.fresh);
            assert(end.look(m) == mid.look(m));
        } else {
            assert(clo[loc] == end.found()[loc]);
        }
    }
    assert(both =~= end.found());
}

/// A constraint that the graph gives reason for holds where inference ends.
proof fn lemma_reason_holds(
    h: HugrModel,
    orders: Orders,
    mid: Ctx,
    end: Ctx,
    solution: ExtensionSolution,
    closure: ExtensionSolution,
    reason: Reason,
)
    requires
        h.wf(),
        meta_demand(h) <= u32::MAX,
        inferred(h, orders, mid, end, Ok((solution, closure))),
        given(h, orders, reason),
    ensures
        match demand_of(h, orders, reason) {
            (m, Con::Equal(o)) => end.look(m) == end.look(o),
            (m, Con::Plus(r, o)) => end.met(m, r, o) || end.look(m) is None && end.look(o) is None,
        },
{
    let start = problem(h, orders);
    let next = mid.instantiated();
    lemma_stages(h, orders, mid, end, solution, closure);
    lemma_problem_wf(h, orders);
    let (m, c) = demand_of(h, orders, reason);
    lemma_demand_bound(h, orders, reason);
    assert(asked(h, orders, m, c));
    assert(start.has(m, c));
    assert(mid.root(mid.root(m)) == mid.root(m)) by {
        lemma_root(mid.shunted, m);
    }
    assert(next.root(m) == mid.root(m));
    assert(end.root(next.root(m)) == end.root(m));
    match c {
        Con::Equal(o) => {
            law_constraints_are_met(start, mid);
            assert(next.root(o) == mid.root(o));
            assert(end.root(next.root(o)) == end.root(o));
        },
        Con::Plus(r, o) => {
            law_constraints_are_met(next, end);
            if mid.met(m, r, o) {
                assert(end.look(m) == mid.look(m));
                assert(end.look(o) == mid.look(o));
            } else {
                let n = mid.root(m);
                assert(mid.has(n, Con::Plus(r, o)));
                assert(next.has(n, Con::Plus(r, o)));
                assert(end.root(n) == end.root(m));
                assert(end.look(n) == end.look(m));
            }
        },
    }
}

/// Along the chain of an open node, the solutions are that at its input with
/// what has been added so far.
proof fn lemma_chain_unites(
    h: HugrModel,
    orders: Orders,
    mid: Ctx,
    end: Ctx,
    solution: ExtensionSolution,
    closure: ExtensionSolution,
    n: int,
    k: int,
)
    requires
        h.wf(),
        meta_demand(h) <= u32::MAX,
        inferred(h, orders, mid, end, Ok((solution, closure))),
        0 <= n < h.nodes.len(),
        h.nodes[n].input is None,
        0 <= k <= orders[n].len(),
        end.look(loc_meta((Node(n as u32), Direction::Incoming))) is Some,
    ensures
        end.look(chain_before(h, orders, n, k)) is Some,
        end.look(chain_before(h, orders, n, k))->0 =~= end.look(
            loc_meta((Node(n as u32), Direction::Incoming)),
        )->0.union(orders[n].take(k).to_set()),
    decreases k,
{
    if k > 0 {
        lemma_chain_unites(h, orders, mid, end, solution, closure, n, k - 1);
        lemma_reason_holds(h, orders, mid, end, solution, closure, Reason::Link(n, k - 1));
        assert(order_fits(h, n, orders[n]));
        assert(orders[n].to_set().contains(orders[n][k - 1]));
        let upper = chain_before(h, orders, n, k);
        let lower = chain_before(h, orders, n, k - 1);
        assert(end.met(upper, orders[n][k - 1], lower));
        lemma_take_set(orders[n], k - 1);
    } else {
        assert(orders[n].take(0).to_set() =~= Set::empty());
    }
}

/// One more of a list is one more of what it lists.
proof fn lemma_take_set(order: Seq<Seq<char>>, k: int)
    requires
        0 <= k < order.len(),
    ensures
        order.take(k + 1).to_set() == order.take(k).to_set().insert(order[k]),
{
    let longer = order.take(k + 1);
    assert forall|s: Seq<char>| longer.to_set().contains(s) <==> order.take(k).to_set().insert(
        order[k],
    ).contains(s) by {
        if s == order[k] {
            assert(longer[k] == s);
        }
        if order.take(k).contains(s) {
            let j = choose|j: int| 0 <= j < k && order.take(k)[j] == s;
            assert(longer[j] == s);
        }
        if longer.contains(s) && s != order[k] {
            let j = choose|j: int| 0 <= j < k + 1 && longer[j] == s;
            assert(order.take(k)[j] == s);
        }
    }
    assert(longer.to_set() =~= order.take(k).to_set().insert(order[k]));
}

/// What a successful inference finds fits the graph: declared sets are kept,
/// the input and output nodes of a region are like the region, the ends of an
/// edge that carries a value are alike, and at the output of an open node there
/// is what is at its input and what the node adds.
pub proof fn law_inference_respects_the_graph(
    h: HugrModel,
    orders: Orders,
    mid: Ctx,
    end: Ctx,
    solution: ExtensionSolution,
    closure: ExtensionSolution,
)
    requires
        h.wf(),
        meta_demand(h) <= u32::MAX,
        inferred(h, orders, mid, end, Ok((solution, closure))),
    ensures
        respects(h, combined(solution, closure)),
        unites_delta(h, combined(solution, closure)),
{
    let start = problem(h, orders);
    let val = combined(solution, closure);
    law_inference_covers_the_graph(h, orders, mid, end, solution, closure);
    lemma_stages(h, orders, mid, end, solution, closure);
    lemma_problem_wf(h, orders);
    assert forall|loc: Loc| #[trigger] val.contains_key(loc) <==> h.valid(loc.0) by {
        if h.valid(loc.0) {
            assert(start.locs.contains_key(loc));
            law_without_variables_all_is_solved(end, loc);
        }
    }
    assert forall|loc: Loc| h.valid(loc.0) implies #[trigger] val[loc] == end.look(
        loc_meta(loc),
    )->0 && end.look(loc_meta(loc)) is Some by {
        assert(val.contains_key(loc));
    }
    assert forall|loc: Loc|
        h.valid(loc.0) && (#[trigger] h.declared(loc)) is Some implies val[loc] == h.declared(
        loc,
    )->0 by {
        lemma_loc_meta(h, loc);
        let m = loc_meta(loc);
        assert(start.solved.contains_key(m));
        assert(start.look(m) == h.declared(loc));
        assert(mid.look(m) == start.look(m));
        assert(end.look(m) == mid.look(m));
    }
    assert forall|p: Node, dir: Direction|
        #![trigger h.io(p), val[((h.io(p)->0).0, dir)]]
        h.valid(p) && h.io(p) is Some implies val[((h.io(p)->0).0, dir)] == val[(
        p,
        Direction::Incoming,
    )] by {
        let reason = Reason::InputNode(p.0 as int, dir);
        assert(h.nodes[p.0 as int].children[0].0 < h.nodes.len());
        lemma_reason_holds(h, orders, mid, end, solution, closure, reason);
    }
    assert forall|p: Node, dir: Direction|
        #![trigger h.io(p), val[((h.io(p)->0).1, dir)]]
        h.valid(p) && h.io(p) is Some implies val[((h.io(p)->0).1, dir)] == val[(
        p,
        Direction::Outgoing,
    )] by {
        let reason = Reason::OutputNode(p.0 as int, dir);
        assert(h.nodes[p.0 as int].children[1].0 < h.nodes.len());
        lemma_reason_holds(h, orders, mid, end, solution, closure, reason);
    }
    assert forall|e: int|
        0 <= e < h.edges.len() && (#[trigger] h.edges[e]).kind == EdgeKind::Value implies val[(
        h.edges[e].src,
        Direction::Outgoing,
    )] == val[(h.edges[e].tgt, Direction::Incoming)] by {
        lemma_reason_holds(h, orders, mid, end, solution, closure, Reason::Wire(e));
    }
    assert forall|n: Node| h.valid(n) && (#[trigger] h.at(n)).input is None implies val[(
        n,
        Direction::Outgoing,
    )] == val[(n, Direction::Incoming)].union(h.at(n).delta) by {
        let i = n.0 as int;
        assert(val[(n, Direction::Outgoing)] == end.look(
            loc_meta((n, Direction::Outgoing)),
        )->0);
        assert(order_fits(h, i, orders[i]));
        assert(orders[i].take(orders[i].len() as int) =~= orders[i]);
        assert(val[(n, Direction::Incoming)] == end.look(
            loc_meta((n, Direction::Incoming)),
        )->0);
        lemma_chain_unites(h, orders, mid, end, solution, closure, i, orders[i].len() as int);
        lemma_reason_holds(h, orders, mid, end, solution, closure, Reason::End(i));
    }
}

/// The value of each metavariable of a problem if the locations have those that
/// `val` gives.
pub(crate) open spec fn value_of(h: HugrModel, orders: Orders, val: Map<Loc, Exts>, m: u32) -> Exts {
    if m < 2 * h.nodes.len() {
        val[meta_loc(m)]
    } else {
        let (n, k) = choose|n: int, k: int| #[trigger]
            given(h, orders, Reason::Link(n, k)) && chain_start(h, orders, n) + k == m;
        val[(Node(n as u32), Direction::Incoming)].union(orders[n].take(k + 1).to_set())
    }
}

/// The relation in which each metavariable has just one value.
pub(crate) open spec fn only_value(h: HugrModel, orders: Orders, val: Map<Loc, Exts>) -> Rel {
    |m: u32| set![value_of(h, orders, val, m)]
}

/// The value at a place in the chain of a node: what is at its input, and what
/// has been added so far.
proof fn lemma_chain_value(h: HugrModel, orders: Orders, val: Map<Loc, Exts>, n: int, k: int)
    requires
        h.wf(),
        orders_fit(h, orders),
        meta_demand(h) <= u32::MAX,
        0 <= n < h.nodes.len(),
        h.nodes[n].input is None,
        0 <= k <= orders[n].len(),
    ensures
        value_of(h, orders, val, chain_before(h, orders, n, k)) == val[(
            Node(n as u32),
            Direction::Incoming,
        )].union(orders[n].take(k).to_set()),
{
    let len = h.nodes.len() as int;
    let m = chain_before(h, orders, n, k);
    lemma_chain_demand(h, orders, len);
    lemma_loc_meta(h, (Node(n as u32), Direction::Incoming));
    if k == 0 {
        assert(orders[n].take(0).to_set() =~= Set::empty());
        assert(val[meta_loc(m)].union(Set::empty()) =~= val[meta_loc(m)]);
    } else {
        lemma_chain_start(h, orders, n, len);
        assert(given(h, orders, Reason::Link(n, k - 1)));
        assert(m == chain_start(h, orders, n) + (k - 1));
        let (n2, k2) = choose|n2: int, k2: int| #[trigger]
            given(h, orders, Reason::Link(n2, k2)) && chain_start(h, orders, n2) + k2 == m;
        if n < n2 {
            lemma_chain_start(h, orders, n, n2);
        } else if n2 < n {
            lemma_chain_start(h, orders, n2, n);
        }
        assert(n2 == n && k2 == k - 1);
    }
}

/// Sets that fit the graph solve its problem.
pub(crate) proof fn lemma_fitting_values_solve(h: HugrModel, orders: Orders, val: Map<Loc, Exts>)
    requires
        h.wf(),
        orders_fit(h, orders),
        meta_demand(h) <= u32::MAX,
        respects(h, val),
        adds_delta(h, val),
    ensures
        problem(h, orders).closed(only_value(h, orders, val)),
        functional(only_value(h, orders, val)),
{
    let start = problem(h, orders);
    let rel = only_value(h, orders, val);
    assert forall|loc: Loc| #[trigger] h.valid(loc.0) implies value_of(
        h,
        orders,
        val,
        loc_meta(loc),
    ) == val[loc] by {
        lemma_loc_meta(h, loc);
    }
    assert forall|m: u32, o: u32| #[trigger] start.has(m, Con::Equal(o)) implies rel(m) == rel(
        o,
    ) by {
        assert(asked(h, orders, m, Con::Equal(o)));
        let reason = choose|reason: Reason| #[trigger]
            given(h, orders, reason) && demand_of(h, orders, reason) == (m, Con::Equal(o));
        match reason {
            Reason::InputNode(p, dir) => {
                let node = Node(p as u32);
                assert(h.nodes[p].children[0].0 < h.nodes.len());
                assert(h.valid(((h.io(node)->0).0, dir).0));
                assert(h.valid((node, Direction::Incoming).0));
                assert(val[((h.io(node)->0).0, dir)] == val[(node, Direction::Incoming)]);
            },
            Reason::OutputNode(p, dir) => {
                let node = Node(p as u32);
                assert(h.nodes[p].children[1].0 < h.nodes.len());
                assert(h.valid(((h.io(node)->0).1, dir).0));
                assert(h.valid((node, Direction::Outgoing).0));
                assert(val[((h.io(node)->0).1, dir)] == val[(node, Direction::Outgoing)]);
            },
            Reason::Link(n, k) => {},
            Reason::End(n) => {
                let node = Node(n as u32);
                lemma_chain_value(h, orders, val, n, orders[n].len() as int);
                assert(orders[n].take(orders[n].len() as int) =~= orders[n]);
                assert(order_fits(h, n, orders[n]));
                assert(h.at(node).input is None);
                assert(h.valid((node, Direction::Outgoing).0));
            },
            Reason::Wire(e) => {
                assert(h.valid((h.edges[e].src, Direction::Outgoing).0));
                assert(h.valid((h.edges[e].tgt, Direction::Incoming).0));
            },
        }
    }
    assert forall|m: u32, r: Seq<char>, o: u32| #[trigger]
        start.has(m, Con::Plus(r, o)) implies plus_closed(rel(m), r, rel(o)) by {
        assert(asked(h, orders, m, Con::Plus(r, o)));
        let reason = choose|reason: Reason| #[trigger]
            given(h, orders, reason) && demand_of(h, orders, reason) == (m, Con::Plus(r, o));
        match reason {
            Reason::Link(n, k) => {
                let order = orders[n];
                let input = val[(Node(n as u32), Direction::Incoming)];
                lemma_chain_value(h, orders, val, n, k);
                lemma_chain_value(h, orders, val, n, k + 1);
                assert(order_fits(h, n, order));
                assert(h.at(Node(n as u32)).input is None);
                assert(order.to_set().contains(r));
                assert(!input.contains(r));
                assert forall|s: Seq<char>|
                    order.take(k + 1).to_set().contains(s) <==> #[trigger] order.take(
                        k,
                    ).to_set().contains(s) || s == r by {
                    assert(order.take(k + 1) =~= order.take(k).push(r));
                    if s == r {
                        assert(order.take(k + 1)[k] == r);
                    }
                    if order.take(k).contains(s) {
                        let j = choose|j: int| 0 <= j < k && order.take(k)[j] == s;
                        assert(order.take(k + 1)[j] == s);
                    }
                }
                assert(!order.take(k).to_set().contains(r)) by {
                    if order.take(k).contains(r) {
                        let j = choose|j: int| 0 <= j < k && order.take(k)[j] == r;
                        assert(order[j] == order[k]);
                    }
                }
                let lower = input.union(order.take(k).to_set());
                let upper = input.union(order.take(k + 1).to_set());
                assert(lower.insert(r) =~= upper);
                assert(upper.remove(r) =~= lower);
            },
            _ => {},
        }
    }
    assert forall|m: u32| #[trigger] start.solved.contains_key(m) implies rel(m).contains(
        start.solved[m],
    ) by {
        let loc = meta_loc(m);
        assert(h.declared(loc) is Some);
        assert(h.valid(loc.0));
    }
}

/// What solving leads to allows for the values that solve the problem it starts
/// from, and for these only.
proof fn lemma_values_stay(
    start: Ctx,
    end: Ctx,
    rel: Rel,
) -> (wider: Rel)
    requires
        start.in_range(),
        start.reaches(end),
        start.closed(rel),
        functional(rel),
    ensures
        end.in_range(),
        end.closed(wider),
        functional(wider),
        agree_below(start.fresh, rel, wider),
        start.fresh <= end.fresh,
        forall|err: InferExtensionError| !#[trigger] end.clash(err),
{
    law_solving_is_sound(start, end);
    assert(start.carries(end, rel));
    let wider = choose|wider: Rel|
        {
            &&& #[trigger] end.closed(wider)
            &&& agree_below(start.fresh, rel, wider)
            &&& functional(rel) ==> functional(wider)
        };
    assert forall|err: InferExtensionError| !#[trigger] end.clash(err) by {
        if end.clash(err) {
            law_clash_is_contradictory(end, err);
        }
    }
    wider
}

/// The values that solve a problem, with nothing at its variables, solve what
/// instantiating the variables leads to.
proof fn lemma_values_stay_instantiated(start: Ctx, mid: Ctx, rel: Rel, wider: Rel)
    requires
        start.in_range(),
        start.reaches(mid),
        mid.closed(wider),
        agree_below(start.fresh, rel, wider),
        forall|v: u32| #[trigger] start.vars.contains(v) ==> rel(v) == set![Set::<Seq<char>>::empty()],
    ensures
        mid.instantiated().closed(wider),
{
    law_solving_is_sound(start, mid);
    let next = mid.instantiated();
    assert forall|m: u32, c: Con| #[trigger] next.has(m, c) == mid.has(m, c) by {}
    assert forall|w: u32| #[trigger] mid.vars.contains(w) implies wider(w).contains(
        Set::<Seq<char>>::empty(),
    ) by {
        let v = choose|v: u32| start.vars.contains(v) && #[trigger] mid.root(v) == w;
        lemma_closed_root(mid, wider, v);
        assert(rel(v) == wider(v));
    }
}

/// Whether `set`, which is finite, is the only value that `rel` allows for `m`.
pub(crate) open spec fn is_only(rel: Rel, m: u32, set: Exts) -> bool {
    rel(m) == set![set] && set.finite()
}

/// Whether `rel` allows for just one value for `m`, which is finite.
pub(crate) open spec fn has_only(rel: Rel, m: u32) -> bool {
    exists|set: Exts| is_only(rel, m, set)
}

/// If the sets at the sides of nodes are finite, so are the values of all
/// metavariables of the problem.
pub(crate) proof fn lemma_finite_values(h: HugrModel, orders: Orders, val: Map<Loc, Exts>)
    requires
        h.wf(),
        orders_fit(h, orders),
        meta_demand(h) <= u32::MAX,
        forall|n: Node, dir: Direction|
            n.0 < h.nodes.len() ==> (#[trigger] val[(n, dir)]).finite(),
    ensures
        forall|m: u32|
            m < problem(h, orders).fresh ==> #[trigger] has_only(only_value(h, orders, val), m),
{
    let len = h.nodes.len() as int;
    let rel = only_value(h, orders, val);
    lemma_problem_wf(h, orders);
    lemma_chain_demand(h, orders, len);
    assert forall|m: u32| m < problem(h, orders).fresh implies #[trigger] has_only(rel, m) by {
        let s = value_of(h, orders, val, m);
        if m < 2 * h.nodes.len() {
            let loc = meta_loc(m);
            assert(val[(loc.0, loc.1)].finite());
        } else {
            let n = lemma_chain_of(h, orders, len, m);
            let k = m - chain_start(h, orders, n) + 1;
            lemma_chain_value(h, orders, val, n, k);
            assert(m == chain_before(h, orders, n, k));
            vstd::seq_lib::seq_to_set_is_finite(orders[n].take(k));
            assert(val[(Node(n as u32), Direction::Incoming)].finite());
        }
        assert(is_only(rel, m, s));
    }
}

/// A metavariable past those of the locations is in the chain of an open node.
proof fn lemma_chain_of(h: HugrModel, orders: Orders, p: int, m: u32) -> (n: int)
    requires
        orders_fit(h, orders),
        0 <= p <= h.nodes.len(),
        2 * h.nodes.len() <= m < chain_start(h, orders, p),
    ensures
        0 <= n < p,
        h.nodes[n].input is None,
        chain_start(h, orders, n) <= m < chain_start(h, orders, n) + orders[n].len(),
    decreases p,
{
    if chain_start(h, orders, p - 1) <= m {
        assert(order_fits(h, p - 1, orders[p - 1]));
        p - 1
    } else {
        lemma_chain_of(h, orders, p - 1, m)
    }
}

/// Sets that fit the graph are never reported to mismatch: where there are such
/// sets, with nothing at the input of an open root, inference can only fail
/// because it does not find them.
pub proof fn law_fitting_graph_has_no_mismatch(
    h: HugrModel,
    orders: Orders,
    mid: Ctx,
    end: Ctx,
    err: InferExtensionError,
    val: Map<Loc, Exts>,
)
    requires
        h.wf(),
        meta_demand(h) <= u32::MAX,
        inferred(h, orders, mid, end, Err(err)),
        respects(h, val),
        adds_delta(h, val),
        h.nodes[0].input is None ==> val[(Node(0), Direction::Incoming)] == Set::<
            Seq<char>,
        >::empty(),
    ensures
        err is Unsolved,
{
    let start = problem(h, orders);
    let rel = only_value(h, orders, val);
    lemma_problem_wf(h, orders);
    lemma_fitting_values_solve(h, orders, val);
    let wider = lemma_values_stay(start, mid, rel);
    if start.succeeds(mid, mid.found()) && mid.instantiated().fails(end, err) {
        lemma_instantiated_wf(mid);
        lemma_root_value(h, orders, val);
        lemma_values_stay_instantiated(start, mid, rel, wider);
        let widest = lemma_values_stay(mid.instantiated(), end, wider);
    }
}

/// The variable of a problem has the value at the input of the root.
proof fn lemma_root_value(h: HugrModel, orders: Orders, val: Map<Loc, Exts>)
    requires
        h.wf(),
        meta_demand(h) <= u32::MAX,
        h.nodes[0].input is None ==> val[(Node(0), Direction::Incoming)] == Set::<
            Seq<char>,
        >::empty(),
    ensures
        forall|v: u32| #[trigger]
            problem(h, orders).vars.contains(v) ==> only_value(h, orders, val)(v) == set![
                Set::<Seq<char>>::empty(),
            ],
{
    lemma_loc_meta(h, (Node(0), Direction::Incoming));
}

/// What inference finds is forced: in any sets that fit the graph, each location
/// of the solution has the set that the solution gives to it.
pub proof fn law_solution_is_forced(
    h: HugrModel,
    orders: Orders,
    mid: Ctx,
    end: Ctx,
    solution: ExtensionSolution,
    closure: ExtensionSolution,
    val: Map<Loc, Exts>,
    loc: Loc,
)
    requires
        h.wf(),
        meta_demand(h) <= u32::MAX,
        inferred(h, orders, mid, end, Ok((solution, closure))),
        respects(h, val),
        adds_delta(h, val),
        solution@.contains_key(loc),
    ensures
        solution@[loc]@ == val[loc],
{
    let start = problem(h, orders);
    let rel = only_value(h, orders, val);
    let m = loc_meta(loc);
    lemma_problem_wf(h, orders);
    lemma_fitting_values_solve(h, orders, val);
    let wider = lemma_values_stay(start, mid, rel);
    law_solving_is_sound(start, mid);
    assert(solution_sets(solution@).contains_key(loc));
    assert(mid.found().contains_key(loc));
    assert(start.locs.contains_key(loc));
    lemma_loc_meta(h, loc);
    assert(start.locs[loc] == m);
    assert(solution_sets(solution@)[loc] == mid.found()[loc]);
    lemma_closed_look(mid, wider, m);
    assert(rel(m) == wider(m));
    assert(rel(m) == set![val[loc]]);
}

/// With nothing at the input of an open root, the closure is forced too.
pub proof fn law_closure_is_forced(
    h: HugrModel,
    orders: Orders,
    mid: Ctx,
    end: Ctx,
    solution: ExtensionSolution,
    closure: ExtensionSolution,
    val: Map<Loc, Exts>,
)
    requires
        h.wf(),
        meta_demand(h) <= u32::MAX,
        inferred(h, orders, mid, end, Ok((solution, closure))),
        respects(h, val),
        adds_delta(h, val),
        h.nodes[0].input is None ==> val[(Node(0), Direction::Incoming)] == Set::<
            Seq<char>,
        >::empty(),
    ensures
        combined(solution, closure) == val,
{
    let start = problem(h, orders);
    let rel = only_value(h, orders, val);
    lemma_problem_wf(h, orders);
    lemma_fitting_values_solve(h, orders, val);
    let wider = lemma_values_stay(start, mid, rel);
    lemma_stages(h, orders, mid, end, solution, closure);
    lemma_root_value(h, orders, val);
    lemma_values_stay_instantiated(start, mid, rel, wider);
    let widest = lemma_values_stay(mid.instantiated(), end, wider);
    law_inference_covers_the_graph(h, orders, mid, end, solution, closure);
    law_inference_respects_the_graph(h, orders, mid, end, solution, closure);
    let both = combined(solution, closure);
    assert forall|loc: Loc| #[trigger] both.contains_key(loc) implies both[loc] == val[loc] by {
        let m = loc_meta(loc);
        lemma_loc_meta(h, loc);
        assert(end.found().contains_key(loc));
        lemma_closed_look(end, widest, m);
        assert(rel(m) == wider(m));
        assert(wider(m) == widest(m));
    }
    assert(both =~= val);
}

/// A graph in which every node declares its extensions, and these fit, passes
/// inference with the declared sets for its solution.
pub proof fn law_declared_graph_is_inferred(
    h: HugrModel,
    orders: Orders,
    mid: Ctx,
    end: Ctx,
    result: Result<(ExtensionSolution, ExtensionSolution), InferExtensionError>,
    val: Map<Loc, Exts>,
)
    requires
        h.wf(),
        meta_demand(h) <= u32::MAX,
        inferred(h, orders, mid, end, result),
        respects(h, val),
        forall|n: Node| h.valid(n) ==> (#[trigger] h.at(n)).input is Some,
    ensures
        result matches Ok((solution, _)) && solution_sets(solution@) == val,
{
    let start = problem(h, orders);
    lemma_problem_wf(h, orders);
    lemma_fitting_values_solve(h, orders, val);
    let wider = lemma_values_stay(start, mid, only_value(h, orders, val));
    law_solving_is_sound(start, mid);
    assert(h.at(Node(0)).input is Some);
    assert forall|loc: Loc| #[trigger] start.locs.contains_key(loc) implies mid.look(
        start.locs[loc],
    ) == Some(val[loc]) by {
        let m = loc_meta(loc);
        lemma_loc_meta(h, loc);
        assert(h.at(loc.0).input is Some);
        assert(start.solved.contains_key(m));
        assert(start.look(m) == h.declared(loc));
    }
    match result {
        Ok((solution, closure)) => {
            assert forall|loc: Loc| #[trigger] mid.found().contains_key(loc) <==> val.contains_key(
                loc,
            ) by {
                assert(start.locs.contains_key(loc) <==> h.valid(loc.0));
            }
            assert forall|loc: Loc| #[trigger] mid.found().contains_key(
                loc,
            ) implies mid.found()[loc] == val[loc] by {
                assert(start.locs.contains_key(loc));
            }
            assert(mid.found() =~= val);
        },
        Err(err) => {
            law_fitting_graph_has_no_mismatch(h, orders, mid, end, err, val);
            if start.succeeds(mid, mid.found()) && mid.instantiated().fails(end, err) {
                lemma_instantiated_wf(mid);
                let next = mid.instantiated();
                law_solving_is_sound(next, end);
                assert forall|loc: Loc| #[trigger] start.locs.contains_key(loc) implies end.look(
                    start.locs[loc],
                ) is Some by {
                    let m = start.locs[loc];
                    assert(next.root(m) == mid.root(m));
                    assert(next.look(m) == mid.look(m));
                }
            }
        },
    }
}

/// Whether validation against `sets` finds nothing wrong: neither with an edge
/// that carries a value, nor with the input and output nodes of a region.
pub open spec fn validates(h: HugrModel, sets: Map<Loc, Exts>) -> bool {
    &&& forall|e: int|
        0 <= e < h.edges.len() && (#[trigger] h.edges[e]).kind == EdgeKind::Value ==> compatible(
            sets,
            h.edges[e].src,
            h.edges[e].tgt,
        )
    &&& forall|p: Node|
        h.valid(p) && (#[trigger] h.io(p)) is Some ==> io_matches(
            sets,
            p,
            (h.io(p)->0).0,
            (h.io(p)->0).1,
        )
}

/// Sets that fit the graph pass validation.
pub proof fn law_fitting_sets_validate(h: HugrModel, sets: Map<Loc, Exts>)
    requires
        h.wf(),
        respects(h, sets),
    ensures
        validates(h, sets),
{
    assert forall|p: Node| h.valid(p) && (#[trigger] h.io(p)) is Some implies io_matches(
        sets,
        p,
        (h.io(p)->0).0,
        (h.io(p)->0).1,
    ) by {
        let children = h.nodes[p.0 as int].children;
        assert(h.nodes[p.0 as int].children[0].0 < h.nodes.len());
        assert(h.nodes[p.0 as int].children[1].0 < h.nodes.len());
    }
}

/// Where every node declares its extensions, these pass validation just if they
/// fit the graph.
pub proof fn law_declared_sets_validate(h: HugrModel)
    requires
        h.wf(),
        forall|n: Node| h.valid(n) ==> (#[trigger] h.at(n)).input is Some,
    ensures
        validates(h, declared_sets(h)) <==> respects(h, declared_sets(h)),
{
    let sets = declared_sets(h);
    assert forall|loc: Loc| #[trigger] sets.contains_key(loc) <==> h.valid(loc.0) by {
        if h.valid(loc.0) {
            assert(h.at(loc.0).input is Some);
        }
    }
    if validates(h, sets) {
        assert forall|p: Node, dir: Direction|
            #![trigger h.io(p), sets[((h.io(p)->0).0, dir)]]
            h.valid(p) && h.io(p) is Some implies sets[((h.io(p)->0).0, dir)] == sets[(
            p,
            Direction::Incoming,
        )] by {
            assert(io_matches(sets, p, (h.io(p)->0).0, (h.io(p)->0).1));
        }
        assert forall|p: Node, dir: Direction|
            #![trigger h.io(p), sets[((h.io(p)->0).1, dir)]]
            h.valid(p) && h.io(p) is Some implies sets[((h.io(p)->0).1, dir)] == sets[(
            p,
            Direction::Outgoing,
        )] by {
            assert(io_matches(sets, p, (h.io(p)->0).0, (h.io(p)->0).1));
        }
        assert(respects(h, sets));
    } else if respects(h, sets) {
        law_fitting_sets_validate(h, sets);
    }
}

/// What a successful inference finds passes validation.
pub proof fn law_inferred_sets_validate(
    h: HugrModel,
    orders: Orders,
    mid: Ctx,
    end: Ctx,
    solution: ExtensionSolution,
    closure: ExtensionSolution,
)
    requires
        h.wf(),
        meta_demand(h) <= u32::MAX,
        inferred(h, orders, mid, end, Ok((solution, closure))),
    ensures
        validates(h, combined(solution, closure)),
{
    law_inference_respects_the_graph(h, orders, mid, end, solution, closure);
    law_fitting_sets_validate(h, combined(solution, closure));
}

/// Where no sets fit the graph, inference fails.
pub proof fn law_unfit_graph_is_refused(
    h: HugrModel,
    orders: Orders,
    mid: Ctx,
    end: Ctx,
    result: Result<(ExtensionSolution, ExtensionSolution), InferExtensionError>,
)
    requires
        h.wf(),
        meta_demand(h) <= u32::MAX,
        inferred(h, orders, mid, end, result),
        forall|val: Map<Loc, Exts>| !(#[trigger] respects(h, val) && unites_delta(h, val)),
    ensures
        result is Err,
{
    if let Ok((solution, closure)) = result {
        law_inference_respects_the_graph(h, orders, mid, end, solution, closure);
    }
}

/// The sets at all locations when the variables are instantiated by `set`: those
/// of the solution, and those of the closure with `set` added.
pub open spec fn instantiated_by(
    solution: ExtensionSolution,
    closure: ExtensionSolution,
    set: Exts,
) -> Map<Loc, Exts> {
    Map::new(
        |loc: Loc| solution@.contains_key(loc) || closure@.contains_key(loc),
        |loc: Loc|
            if closure@.contains_key(loc) {
                closure@[loc]@.union(set)
            } else {
                solution@[loc]@
            },
    )
}

/// Before variables are instantiated, either all along the chain of an open node
/// is solved or nothing is.
pub(crate) proof fn lemma_chain_together(h: HugrModel, orders: Orders, mid: Ctx, n: int, k: int)
    requires
        h.wf(),
        orders_fit(h, orders),
        meta_demand(h) <= u32::MAX,
        problem(h, orders).reaches(mid),
        mid.finished(),
        0 <= n < h.nodes.len(),
        h.nodes[n].input is None,
        0 <= k <= orders[n].len(),
    ensures
        mid.look(chain_before(h, orders, n, k)) is Some <==> mid.look(
            loc_meta((Node(n as u32), Direction::Incoming)),
        ) is Some,
    decreases k,
{
    if k > 0 {
        let start = problem(h, orders);
        let reason = Reason::Link(n, k - 1);
        let upper = chain_before(h, orders, n, k);
        let lower = chain_before(h, orders, n, k - 1);
        lemma_chain_together(h, orders, mid, n, k - 1);
        lemma_problem_wf(h, orders);
        lemma_demand_bound(h, orders, reason);
        law_constraints_are_met(start, mid);
        assert(given(h, orders, reason));
        assert(asked(h, orders, upper, Con::Plus(orders[n][k - 1], lower)));
        assert(start.has(upper, Con::Plus(orders[n][k - 1], lower)));
    }
}

/// Locations that should be equal are both in the solution or both in the
/// closure.
pub(crate) proof fn lemma_equal_together(
    h: HugrModel,
    orders: Orders,
    mid: Ctx,
    end: Ctx,
    solution: ExtensionSolution,
    closure: ExtensionSolution,
    reason: Reason,
    loc: Loc,
    other: Loc,
)
    requires
        h.wf(),
        meta_demand(h) <= u32::MAX,
        inferred(h, orders, mid, end, Ok((solution, closure))),
        given(h, orders, reason),
        h.valid(loc.0),
        h.valid(other.0),
        demand_of(h, orders, reason) == (loc_meta(loc), Con::Equal(loc_meta(other))),
    ensures
        closure@.contains_key(loc) <==> closure@.contains_key(other),
        instantiated_by(solution, closure, Set::empty())[loc] == instantiated_by(
            solution,
            closure,
            Set::empty(),
        )[other],
{
    let start = problem(h, orders);
    lemma_problem_wf(h, orders);
    lemma_demand_bound(h, orders, reason);
    assert(asked(h, orders, loc_meta(loc), Con::Equal(loc_meta(other))));
    assert(start.has(loc_meta(loc), Con::Equal(loc_meta(other))));
    law_constraints_are_met(start, mid);
    lemma_solved_in_solution(h, orders, mid, end, solution, closure, loc);
    lemma_solved_in_solution(h, orders, mid, end, solution, closure, other);
    lemma_reason_holds(h, orders, mid, end, solution, closure, reason);
}

/// A location is in the closure just if it is not solved before variables are
/// instantiated.
pub(crate) proof fn lemma_solved_in_solution(
    h: HugrModel,
    orders: Orders,
    mid: Ctx,
    end: Ctx,
    solution: ExtensionSolution,
    closure: ExtensionSolution,
    loc: Loc,
)
    requires
        h.wf(),
        meta_demand(h) <= u32::MAX,
        inferred(h, orders, mid, end, Ok((solution, closure))),
        h.valid(loc.0),
    ensures
        closure@.contains_key(loc) <==> mid.look(loc_meta(loc)) is None,
        solution@.contains_key(loc) <==> !closure@.contains_key(loc),
        instantiated_by(solution, closure, Set::empty())[loc] == end.look(loc_meta(loc))->0,
        end.look(loc_meta(loc)) is Some,
{
    let start = problem(h, orders);
    law_inference_covers_the_graph(h, orders, mid, end, solution, closure);
    lemma_stages(h, orders, mid, end, solution, closure);
    assert(start.locs.contains_key(loc));
    assert(mid.locs == start.locs);
    assert(solution_sets(solution@).contains_key(loc) <==> solution@.contains_key(loc));
    assert(solution_sets(closure@).contains_key(loc) <==> closure@.contains_key(loc));
    assert(mid.found().contains_key(loc) <==> mid.look(loc_meta(loc)) is Some);
    assert(end.found().contains_key(loc)) by {
        law_without_variables_all_is_solved(end, loc);
    }
    let both = combined(solution, closure);
    assert(both[loc] == end.found()[loc]);
    if closure@.contains_key(loc) {
        assert(solution_sets(closure@)[loc] == closure@[loc]@);
        assert(closure@[loc]@.union(Set::empty()) =~= closure@[loc]@);
    } else {
        assert(solution_sets(solution@)[loc] == solution@[loc]@);
    }
}

/// Whatever the variables are instantiated to, what inference finds fits the
/// graph.
pub proof fn law_any_instantiation_fits(
    h: HugrModel,
    orders: Orders,
    mid: Ctx,
    end: Ctx,
    solution: ExtensionSolution,
    closure: ExtensionSolution,
    set: Exts,
)
    requires
        h.wf(),
        meta_demand(h) <= u32::MAX,
        inferred(h, orders, mid, end, Ok((solution, closure))),
    ensures
        respects(h, instantiated_by(solution, closure, set)),
        unites_delta(h, instantiated_by(solution, closure, set)),
{
    let start = problem(h, orders);
    let val = instantiated_by(solution, closure, set);
    let plain = instantiated_by(solution, closure, Set::empty());
    law_inference_covers_the_graph(h, orders, mid, end, solution, closure);
    lemma_stages(h, orders, mid, end, solution, closure);
    lemma_problem_wf(h, orders);
    assert forall|loc: Loc| #[trigger] val.contains_key(loc) <==> h.valid(loc.0) by {}
    assert forall|loc: Loc| #[trigger] h.valid(loc.0) implies val[loc] == (if closure@.contains_key(
        loc,
    ) {
        plain[loc].union(set)
    } else {
        plain[loc]
    }) by {
        if closure@.contains_key(loc) {
            assert(closure@[loc]@.union(Set::empty()) =~= closure@[loc]@);
        }
    }
    assert forall|loc: Loc|
        h.valid(loc.0) && (#[trigger] h.declared(loc)) is Some implies val[loc] == h.declared(
        loc,
    )->0 by {
        lemma_loc_meta(h, loc);
        let m = loc_meta(loc);
        assert(start.solved.contains_key(m));
        assert(start.look(m) == h.declared(loc));
        assert(mid.look(m) == start.look(m));
        assert(end.look(m) == mid.look(m));
        lemma_solved_in_solution(h, orders, mid, end, solution, closure, loc);
    }
    assert forall|p: Node, dir: Direction|
        #![trigger h.io(p), val[((h.io(p)->0).0, dir)]]
        h.valid(p) && h.io(p) is Some implies val[((h.io(p)->0).0, dir)] == val[(
        p,
        Direction::Incoming,
    )] by {
        let reason = Reason::InputNode(p.0 as int, dir);
        let loc = ((h.io(p)->0).0, dir);
        let other = (p, Direction::Incoming);
        assert(h.nodes[p.0 as int].children[0].0 < h.nodes.len());
        assert(h.valid(loc.0) && h.valid(other.0));
        lemma_equal_together(h, orders, mid, end, solution, closure, reason, loc, other);
    }
    assert forall|p: Node, dir: Direction|
        #![trigger h.io(p), val[((h.io(p)->0).1, dir)]]
        h.valid(p) && h.io(p) is Some implies val[((h.io(p)->0).1, dir)] == val[(
        p,
        Direction::Outgoing,
    )] by {
        let reason = Reason::OutputNode(p.0 as int, dir);
        let loc = ((h.io(p)->0).1, dir);
        let other = (p, Direction::Outgoing);
        assert(h.nodes[p.0 as int].children[1].0 < h.nodes.len());
        assert(h.valid(loc.0) && h.valid(other.0));
        lemma_equal_together(h, orders, mid, end, solution, closure, reason, loc, other);
    }
    assert forall|e: int|
        0 <= e < h.edges.len() && (#[trigger] h.edges[e]).kind == EdgeKind::Value implies val[(
        h.edges[e].src,
        Direction::Outgoing,
    )] == val[(h.edges[e].tgt, Direction::Incoming)] by {
        let loc = (h.edges[e].src, Direction::Outgoing);
        let other = (h.edges[e].tgt, Direction::Incoming);
        assert(h.valid(loc.0) && h.valid(other.0));
        lemma_equal_together(
            h,
            orders,
            mid,
            end,
            solution,
            closure,
            Reason::Wire(e),
            loc,
            other,
        );
    }
    assert forall|n: Node| h.valid(n) && (#[trigger] h.at(n)).input is None implies val[(
        n,
        Direction::Outgoing,
    )] == val[(n, Direction::Incoming)].union(h.at(n).delta) by {
        lemma_open_node_fits(h, orders, mid, end, solution, closure, set, n);
    }
}

/// Whatever the variables are instantiated to, at the output of an open node
/// there is what is at its input and what the node adds.
proof fn lemma_open_node_fits(
    h: HugrModel,
    orders: Orders,
    mid: Ctx,
    end: Ctx,
    solution: ExtensionSolution,
    closure: ExtensionSolution,
    set: Exts,
    n: Node,
)
    requires
        h.wf(),
        meta_demand(h) <= u32::MAX,
        inferred(h, orders, mid, end, Ok((solution, closure))),
        h.valid(n),
        h.at(n).input is None,
    ensures
        instantiated_by(solution, closure, set)[(n, Direction::Outgoing)] == instantiated_by(
            solution,
            closure,
            set,
        )[(n, Direction::Incoming)].union(h.at(n).delta),
{
    let start = problem(h, orders);
    let i = n.0 as int;
    let last = orders[i].len() as int;
    let input = (n, Direction::Incoming);
    let output = (n, Direction::Outgoing);
    let reason = Reason::End(i);
    let delta = h.at(n).delta;
    law_inference_respects_the_graph(h, orders, mid, end, solution, closure);
    law_inference_covers_the_graph(h, orders, mid, end, solution, closure);
    lemma_problem_wf(h, orders);
    lemma_demand_bound(h, orders, reason);
    lemma_solved_in_solution(h, orders, mid, end, solution, closure, input);
    lemma_solved_in_solution(h, orders, mid, end, solution, closure, output);
    lemma_chain_together(h, orders, mid, i, last);
    law_constraints_are_met(start, mid);
    let before = chain_before(h, orders, i, last);
    assert(given(h, orders, reason));
    assert(asked(h, orders, loc_meta(output), Con::Equal(before)));
    assert(start.has(loc_meta(output), Con::Equal(before)));
    assert(mid.look(loc_meta(output)) == mid.look(before));
    let both = combined(solution, closure);
    assert(both[output] == both[input].union(delta));
    if closure@.contains_key(input) {
        assert(solution_sets(closure@).contains_key(input));
        assert(solution_sets(closure@).contains_key(output));
        let x = closure@[input]@;
        assert(x.union(delta).union(set) =~= x.union(set).union(delta));
    } else {
        assert(solution_sets(solution@).contains_key(input));
        assert(solution_sets(solution@).contains_key(output));
        assert(!solution_sets(closure@).contains_key(input));
        assert(!solution_sets(closure@).contains_key(output));
    }
}

/// Sets that fit a graph are what the graph declares when its open nodes are
/// given those at their inputs, and they pass validation.
proof fn lemma_filled_graph(h: HugrModel, val: Map<Loc, Exts>)
    requires
        h.wf(),
        respects(h, val),
        unites_delta(h, val),
    ensures
        declared_sets(with_inputs(h, val)) == val,
        validates(with_inputs(h, val), declared_sets(with_inputs(h, val))),
        forall|n: Node|
            h.valid(n) ==> (#[trigger] with_inputs(h, val).at(n)).input is Some,
{
    let g = with_inputs(h, val);
    let sets = declared_sets(g);
    assert forall|loc: Loc| #[trigger] h.valid(loc.0) implies g.declared(loc) == Some(
        val[loc],
    ) by {
        let input = (loc.0, Direction::Incoming);
        assert(val.contains_key(input));
        assert(g.at(loc.0).delta == h.at(loc.0).delta);
        if h.at(loc.0).input is None {
            assert(g.at(loc.0).input == Some(val[input]));
            assert(val[(loc.0, Direction::Outgoing)] == val[input].union(h.at(loc.0).delta));
        } else {
            assert(g.at(loc.0) == h.at(loc.0));
            assert(h.declared(loc) is Some);
        }
    }
    assert forall|loc: Loc| #[trigger] sets.contains_key(loc) <==> val.contains_key(loc) by {
        if val.contains_key(loc) {
            assert(h.valid(loc.0));
        }
    }
    assert forall|loc: Loc| #[trigger] sets.contains_key(loc) implies sets[loc] == val[loc] by {
        assert(h.valid(loc.0));
    }
    assert(sets =~= val);
    law_fitting_sets_validate(h, val);
    assert forall|p: Node| g.valid(p) implies #[trigger] g.io(p) == h.io(p) by {}
    assert forall|p: Node| g.valid(p) && (#[trigger] g.io(p)) is Some implies io_matches(
        val,
        p,
        (g.io(p)->0).0,
        (g.io(p)->0).1,
    ) by {
        assert(h.io(p) is Some);
    }
    assert forall|n: Node| h.valid(n) implies (#[trigger] g.at(n)).input is Some by {
        assert(g.declared((n, Direction::Incoming)) is Some) by {
            assert(h.valid((n, Direction::Incoming).0));
        }
    }
}

/// Whatever the variables are instantiated to, the graph with what was inferred
/// for it declares extensions at all its nodes, and passes validation.
pub proof fn law_instantiated_graph_validates(
    before: HugrModel,
    after: HugrModel,
    orders: Orders,
    mid: Ctx,
    end: Ctx,
    solution: ExtensionSolution,
    closure: ExtensionSolution,
    set: Exts,
)
    requires
        before.wf(),
        meta_demand(before) <= u32::MAX,
        instantiates(before, after, orders, mid, end, solution, closure),
    ensures
        ({
            let sets = instantiated_by(solution, closure, set);
            let g = with_inputs(after, sets);
            &&& declared_sets(g) == sets
            &&& validates(g, declared_sets(g))
            &&& forall|n: Node| before.valid(n) ==> (#[trigger] g.at(n)).input is Some
        }),
        solution_sets(closure@) == Map::<Loc, Exts>::empty() ==> validates(
            after,
            declared_sets(after),
        ) && forall|n: Node| before.valid(n) ==> (#[trigger] after.at(n)).input is Some,
{
    let sets = instantiated_by(solution, closure, set);
    let found = solution_sets(solution@);
    law_any_instantiation_fits(before, orders, mid, end, solution, closure, set);
    law_inference_covers_the_graph(before, orders, mid, end, solution, closure);
    lemma_filled_graph(before, sets);
    assert(with_inputs(after, sets).nodes =~= with_inputs(before, sets).nodes) by {
        assert forall|i: int| 0 <= i < before.nodes.len() implies with_inputs(after, sets).nodes[i]
            == with_inputs(before, sets).nodes[i] by {
            let loc = (Node(i as u32), Direction::Incoming);
            assert(before.valid(loc.0));
            assert(found.contains_key(loc) <==> solution@.contains_key(loc));
            if before.nodes[i].input is None && found.contains_key(loc) {
                assert(found[loc] == solution@[loc]@);
                assert(sets[loc] == found[loc]);
            }
        }
    }
    assert(with_inputs(after, sets) == with_inputs(before, sets));
    if solution_sets(closure@) == Map::<Loc, Exts>::empty() {
        assert forall|loc: Loc| !closure@.contains_key(loc) by {
            if closure@.contains_key(loc) {
                assert(solution_sets(closure@).contains_key(loc));
            }
        }
        assert(sets =~= found) by {
            assert forall|loc: Loc| sets.contains_key(loc) <==> found.contains_key(loc) by {}
            assert forall|loc: Loc| sets.contains_key(loc) implies sets[loc] == found[loc] by {}
        }
    }
}

/// Once solving has come to its end, nothing that may still happen finds more,
/// and nothing contradicts what is known: solving once more gives the same.
pub proof fn law_solving_again_gives_the_same(end: Ctx, again: Ctx)
    requires
        end.finished(),
        end.reaches(again),
    ensures
        again.found() == end.found(),
        again.finished(),
        forall|err: InferExtensionError| !#[trigger] again.clash(err),
{
    let steps = choose|steps: Seq<Step>| #[trigger] end.legal(steps) && end.outcome(steps) == again;
    lemma_only_forgets(end, steps);
    assert(again.found() =~= end.found()) by {
        assert forall|m: u32| #[trigger] again.look(m) == end.look(m) by {}
    }
    assert forall|err: InferExtensionError| !#[trigger] again.clash(err) by {
        if again.clash(err) {
            if exists|m: u32| again.own_clash(err, m) {
                let m = choose|m: u32| again.own_clash(err, m);
                let (r, o) = choose|r: Seq<char>, o: u32| again.sum_clash(err, m, r, o);
                assert(again.has(m, Con::Plus(r, o)));
                assert(again.balanced(m, r, o));
            } else {
                let (k, m, c) = choose|k: u32, m: u32, c: u32| again.join_clash(err, k, m, c);
                lemma_linked_member(again, k, m);
            }
        }
    }
}

/// After the end, constraints that have been met may be forgotten, and nothing
/// else.
proof fn lemma_only_forgets(end: Ctx, steps: Seq<Step>)
    requires
        end.finished(),
        end.legal(steps),
    ensures
        end.outcome(steps).finished(),
        end.outcome(steps) == (Ctx { cons: end.outcome(steps).cons, ..end }),
        forall|m: u32, c: Con| #[trigger] end.outcome(steps).has(m, c) ==> end.has(m, c),
    decreases steps.len(),
{
    if steps.len() > 0 {
        let prev = end.outcome(steps.drop_last());
        let step = steps.last();
        let after = end.outcome(steps);
        lemma_only_forgets(end, steps.drop_last());
        assert(prev.applies(step));
        match step {
            Step::Register(m, o) => {
                assert(!prev.has(m, Con::Equal(o)));
            },
            Step::Up(m, r, o) => {
                assert(prev.balanced(m, r, o));
            },
            Step::Down(m, r, o) => {
                assert(prev.balanced(m, r, o));
            },
            Step::Open(m) => {},
            Step::Join(k, m, c) => {
                lemma_linked_member(prev, k, m);
            },
            Step::Forget(m) => {
                assert forall|x: u32, d: Con| #[trigger] after.has(x, d) implies prev.has(
                    x,
                    d,
                ) by {}
                assert forall|x: u32| #[trigger] after.root(x) == prev.root(x) by {}
                assert forall|x: u32| #[trigger] after.look(x) == prev.look(x) by {}
                assert forall|x: u32, r: Seq<char>, o: u32| #[trigger]
                    after.has(x, Con::Plus(r, o)) implies after.balanced(x, r, o) by {
                    assert(prev.balanced(x, r, o));
                }
                assert(after.in_range());
                assert(after.eqs_in_step());
            },
        }
    }
}

/// What is linked to another takes part in an equality, or is the other.
proof fn lemma_linked_member(ctx: Ctx, k: u32, m: u32)
    requires
        ctx.in_range(),
        ctx.at_rest(),
        linked(ctx.eqs, k, m),
        ctx.shunted.contains_key(k),
    ensures
        ctx.shunted.contains_key(m),
{
    let path = choose|path: Seq<u32>| is_link_path(ctx.eqs, path, k, m);
    if path.len() > 1 {
        let j = path.len() - 2;
        assert(ctx.eqs.contains((path[j], path[j + 1])) || ctx.eqs.contains(
            (path[j + 1], path[j]),
        ));
        assert(ctx.eq_nodes.contains(m));
    }
}

/// After a merge, the sides of each registered equality have become one.
pub proof fn law_merged_become_one(base: Ctx, now: Ctx, a: u32, b: u32)
    requires
        base.wf(),
        now.wf(),
        base.merges(now, base.eq_nodes),
        base.eqs.contains((a, b)),
    ensures
        now.root(a) == now.root(b),
{
    lemma_root(now.shunted, a);
    lemma_root(now.shunted, b);
    assert(now.eqs.contains((a, b)));
}

/// Merging once more, right after a merge, fails nowhere and changes nothing.
pub proof fn law_merging_again_changes_nothing(base: Ctx, now: Ctx, again: Ctx)
    requires
        base.wf(),
        now.wf(),
        base.merges(now, base.eq_nodes),
    ensures
        !now.is_at_odds(),
        again.in_range() && now.merges(again, now.eq_nodes) ==> again == now,
{
    assert(now.at_rest());
    assert forall|a: u32, b: u32| !now.at_odds(a, b) by {}
    if again.in_range() && now.merges(again, now.eq_nodes) {
        lemma_nothing_to_merge(now, again);
    }
}

} // verus!
