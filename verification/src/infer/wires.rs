//! Which mismatches are told of edges of the graph.

use vstd::prelude::*;

use crate::hugr::{Direction, EdgeKind, HugrModel, Loc, Node};
use crate::infer::effects::{equals_are_off, law_mismatches_have_a_cause, sum_is_off};
use crate::infer::error::{InferExtensionError, may_be_ends, tells_mismatch};
use crate::infer::inferred;
use crate::infer::model::{Con, Ctx, lemma_root};
use crate::infer::problem::{
    Orders, Reason, asked, demand_of, given, lemma_chain_start, lemma_demand_bound, lemma_loc_meta,
    lemma_problem_wf, loc_meta, meta_demand, orders_fit, problem,
};
use crate::infer::run::{Step, lemma_step_refines};
use crate::validate::ExtensionError;

verus! {

/// Whether an edge that carries a value leads from `a` to `b`.
pub open spec fn has_wire(h: HugrModel, a: Node, b: Node) -> bool {
    exists|e: int|
        {
            &&& 0 <= e < h.edges.len()
            &&& (#[trigger] h.edges[e]).kind == EdgeKind::Value
            &&& h.edges[e].src == a
            &&& h.edges[e].tgt == b
        }
}

/// Whether `a` is the input node of region `p`.
pub open spec fn is_input_of(h: HugrModel, a: Node, p: Node) -> bool {
    let node = h.nodes[p.0 as int];
    node.dataflow_parent && node.children.len() >= 2 && node.children[0] == a
}

/// Whether an edge leads from the node of the outgoing one of two locations to
/// that of the incoming one, other than from an input node to what holds it.
pub open spec fn joins_ends(h: HugrModel, loc1: Loc, loc2: Loc) -> bool {
    let (a, b) = if loc2.1 == Direction::Incoming {
        (loc1.0, loc2.0)
    } else {
        (loc2.0, loc1.0)
    };
    has_wire(h, a, b) && !is_input_of(h, a, b)
}

/// Whether what `now` records of the equalities of metavariables of `start`, in
/// which nothing is merged, are the constraints of `start`.
spec fn told_by(start: Ctx, now: Ctx) -> bool {
    &&& now.in_range()
    &&& now.locs == start.locs
    &&& start.fresh <= now.fresh
    &&& forall|m: u32| #[trigger] now.shunted.contains_key(m) ==> start.fresh <= now.shunted[m]
    &&& forall|m: u32, o: u32| #[trigger]
        now.has(m, Con::Equal(o)) ==> start.has(m, Con::Equal(o))
    &&& forall|m: u32, o: u32|
        m < start.fresh && o < start.fresh && #[trigger] now.eqs.contains((m, o)) ==> start.has(
            m,
            Con::Equal(o),
        )
    &&& forall|m: u32, o: u32| #[trigger]
        start.has(m, Con::Equal(o)) ==> now.recorded(m, o)
}

/// Steps keep that.
proof fn lemma_told_step(start: Ctx, now: Ctx, step: Step)
    requires
        told_by(start, now),
        now.applies(step),
    ensures
        told_by(start, now.after(step)),
{
    let after = now.after(step);
    lemma_step_refines(now, step);
    match step {
        Step::Register(m, o) => {
            assert(now.root(m) == m);
            lemma_root(now.shunted, o);
            if now.shunted.contains_key(o) {
                lemma_root(now.shunted, now.shunted[o]);
                assert(start.fresh <= now.root(o));
            }
            assert forall|a: u32, c: Con| #[trigger] after.has(a, c) == now.has(a, c) by {}
            assert forall|a: u32, b: u32| #[trigger]
                start.has(a, Con::Equal(b)) implies after.recorded(a, b) by {
                assert(now.recorded(a, b));
            }
        },
        Step::Up(_, _, _) => {
            assert forall|a: u32, c: Con| #[trigger] after.has(a, c) == now.has(a, c) by {}
            assert forall|a: u32, b: u32| #[trigger]
                start.has(a, Con::Equal(b)) implies after.recorded(a, b) by {
                assert(now.recorded(a, b));
            }
        },
        Step::Down(_, _, _) => {
            assert forall|a: u32, c: Con| #[trigger] after.has(a, c) == now.has(a, c) by {}
            assert forall|a: u32, b: u32| #[trigger]
                start.has(a, Con::Equal(b)) implies after.recorded(a, b) by {
                assert(now.recorded(a, b));
            }
        },
        Step::Open(m) => {
            let fresh = now.with_fresh();
            lemma_told_absorbed(start, now, fresh, m, now.fresh as u32);
        },
        Step::Join(k, m, c) => {
            lemma_told_absorbed(start, now, now, m, c);
        },
        Step::Forget(m) => {
            assert forall|a: u32, b: u32| #[trigger]
                after.has(a, Con::Equal(b)) implies start.has(a, Con::Equal(b)) by {
                assert(now.has(a, Con::Equal(b)));
            }
            assert forall|a: u32, b: u32| #[trigger]
                start.has(a, Con::Equal(b)) implies after.recorded(a, b) by {
                assert(now.recorded(a, b));
                if now.has(a, Con::Equal(b)) && a != m {
                    assert(after.has(a, Con::Equal(b)));
                }
            }
        },
    }
}

/// Merging, where equalities have been registered before, keeps that.
proof fn lemma_told_absorbed(start: Ctx, now: Ctx, mid: Ctx, m: u32, c: u32)
    requires
        told_by(start, now),
        now.registered(m),
        start.fresh <= c,
        mid == now || mid == now.with_fresh(),
        mid.absorbed(m, c).in_range(),
    ensures
        told_by(start, mid.absorbed(m, c)),
{
    let after = mid.absorbed(m, c);
    assert forall|a: u32, b: u32| #[trigger] after.has(a, Con::Equal(b)) implies now.has(
        a,
        Con::Equal(b),
    ) by {}
    assert forall|a: u32, b: u32| #[trigger] start.has(a, Con::Equal(b)) implies after.recorded(
        a,
        b,
    ) by {
        assert(now.recorded(a, b));
        if now.has(a, Con::Equal(b)) && a != m {
            assert(after.has(a, Con::Equal(b)));
        }
    }
}

/// Runs keep that.
proof fn lemma_told_run(start: Ctx, base: Ctx, steps: Seq<Step>)
    requires
        told_by(start, base),
        base.legal(steps),
    ensures
        told_by(start, base.outcome(steps)),
    decreases steps.len(),
{
    if steps.len() > 0 {
        lemma_told_run(start, base, steps.drop_last());
        lemma_told_step(start, base.outcome(steps.drop_last()), steps.last());
    }
}

/// Whether inference for a graph may come to `now`: in solving its problem, or
/// in solving what was reached once more with the variables instantiated.
pub open spec fn arises(h: HugrModel, orders: Orders, now: Ctx) -> bool {
    ||| problem(h, orders).reaches(now)
    ||| exists|mid: Ctx| #[trigger]
        problem(h, orders).reaches(mid) && mid.instantiated().reaches(now)
}

proof fn lemma_told_arises(h: HugrModel, orders: Orders, now: Ctx)
    requires
        h.wf(),
        orders_fit(h, orders),
        meta_demand(h) <= u32::MAX,
        arises(h, orders, now),
    ensures
        told_by(problem(h, orders), now),
{
    let start = problem(h, orders);
    lemma_problem_wf(h, orders);
    assert forall|m: u32, o: u32| #[trigger] start.has(m, Con::Equal(o)) implies start.recorded(
        m,
        o,
    ) by {}
    assert(told_by(start, start));
    if start.reaches(now) {
        let steps = choose|steps: Seq<Step>| #[trigger]
            start.legal(steps) && start.outcome(steps) == now;
        lemma_told_run(start, start, steps);
    } else {
        let mid = choose|mid: Ctx| #[trigger]
            start.reaches(mid) && mid.instantiated().reaches(now);
        let steps = choose|steps: Seq<Step>| #[trigger]
            start.legal(steps) && start.outcome(steps) == mid;
        lemma_told_run(start, start, steps);
        let base = mid.instantiated();
        assert forall|m: u32, c: Con| #[trigger] base.has(m, c) == mid.has(m, c) by {}
        assert forall|m: u32, o: u32| #[trigger] start.has(m, Con::Equal(o)) implies base.recorded(
            m,
            o,
        ) by {
            assert(mid.recorded(m, o));
        }
        assert(told_by(start, base));
        let more = choose|more: Seq<Step>| #[trigger]
            base.legal(more) && base.outcome(more) == now;
        lemma_told_run(start, base, more);
    }
}

/// Which reasons ask that a side of a node is like the incoming side of another.
proof fn lemma_asked_equal(
    h: HugrModel,
    orders: Orders,
    a: Node,
    dir: Direction,
    b: Node,
)
    requires
        h.wf(),
        orders_fit(h, orders),
        meta_demand(h) <= u32::MAX,
        h.valid(a),
        h.valid(b),
        a != b,
    ensures
        asked(
            h,
            orders,
            loc_meta((a, dir)),
            Con::Equal(loc_meta((b, Direction::Incoming))),
        ) <==> is_input_of(h, a, b) || dir == Direction::Outgoing && has_wire(h, a, b),
{
    let m = loc_meta((a, dir));
    let o = loc_meta((b, Direction::Incoming));
    lemma_loc_meta(h, (a, dir));
    lemma_loc_meta(h, (b, Direction::Incoming));
    if asked(h, orders, m, Con::Equal(o)) {
        let reason = choose|reason: Reason| #[trigger]
            given(h, orders, reason) && demand_of(h, orders, reason) == (m, Con::Equal(o));
        lemma_demand_bound(h, orders, reason);
        match reason {
            Reason::InputNode(p, d) => {
                let child = h.nodes[p].children[0];
                assert(child.0 < h.nodes.len());
                lemma_loc_meta(h, (child, d));
                lemma_loc_meta(h, (Node(p as u32), Direction::Incoming));
                assert(child == a);
                assert(Node(p as u32) == b);
            },
            Reason::OutputNode(p, d) => {
                lemma_loc_meta(h, (Node(p as u32), Direction::Outgoing));
            },
            Reason::Link(n, k) => {},
            Reason::End(n) => {
                let last = orders[n].len() as int;
                lemma_loc_meta(h, (Node(n as u32), Direction::Incoming));
                lemma_loc_meta(h, (Node(n as u32), Direction::Outgoing));
                lemma_chain_start(h, orders, n, h.nodes.len() as int);
                lemma_problem_wf(h, orders);
            },
            Reason::Wire(e) => {
                lemma_loc_meta(h, (h.edges[e].src, Direction::Outgoing));
                lemma_loc_meta(h, (h.edges[e].tgt, Direction::Incoming));
                assert(h.edges[e].src == a && h.edges[e].tgt == b);
            },
        }
    }
    if is_input_of(h, a, b) {
        let reason = Reason::InputNode(b.0 as int, dir);
        assert(Node((b.0 as int) as u32) == b);
        assert(given(h, orders, reason));
        assert(demand_of(h, orders, reason) == (m, Con::Equal(o)));
    }
    if dir == Direction::Outgoing && has_wire(h, a, b) {
        let e = choose|e: int|
            {
                &&& 0 <= e < h.edges.len()
                &&& (#[trigger] h.edges[e]).kind == EdgeKind::Value
                &&& h.edges[e].src == a
                &&& h.edges[e].tgt == b
            };
        let reason = Reason::Wire(e);
        assert(given(h, orders, reason));
        assert(demand_of(h, orders, reason) == (m, Con::Equal(o)));
    }
}

/// What is recorded of locations in the course of inference is what the graph
/// asks for.
proof fn lemma_recorded_asked(h: HugrModel, orders: Orders, now: Ctx, src: Loc, tgt: Loc)
    requires
        h.wf(),
        orders_fit(h, orders),
        meta_demand(h) <= u32::MAX,
        arises(h, orders, now),
        h.valid(src.0),
        h.valid(tgt.0),
    ensures
        now.recorded_at(src, tgt) <==> asked(
            h,
            orders,
            loc_meta(src),
            Con::Equal(loc_meta(tgt)),
        ),
{
    let start = problem(h, orders);
    let m = loc_meta(src);
    let o = loc_meta(tgt);
    lemma_problem_wf(h, orders);
    lemma_told_arises(h, orders, now);
    lemma_loc_meta(h, src);
    lemma_loc_meta(h, tgt);
    assert(start.locs.contains_key(src) && start.locs.contains_key(tgt));
    assert(start.has(m, Con::Equal(o)) <==> asked(h, orders, m, Con::Equal(o)));
}

/// In the course of inference, two locations are taken for the ends of a wire
/// just if an edge of the graph joins them.
pub proof fn law_ends_are_joined(
    h: HugrModel,
    orders: Orders,
    now: Ctx,
    loc1: Loc,
    loc2: Loc,
)
    requires
        h.wf(),
        orders_fit(h, orders),
        meta_demand(h) <= u32::MAX,
        arises(h, orders, now),
        h.valid(loc1.0),
        h.valid(loc2.0),
    ensures
        now.are_ends(loc1, loc2) <==> may_be_ends(loc1, loc2) && joins_ends(h, loc1, loc2),
{
    if may_be_ends(loc1, loc2) {
        let (src, tgt) = if loc2.1 == Direction::Incoming {
            (loc1, loc2)
        } else {
            (loc2, loc1)
        };
        let inner = (src.0, Direction::Incoming);
        assert(src.1 == Direction::Outgoing && tgt.1 == Direction::Incoming);
        lemma_recorded_asked(h, orders, now, src, tgt);
        lemma_recorded_asked(h, orders, now, inner, tgt);
        lemma_asked_equal(h, orders, src.0, Direction::Outgoing, tgt.0);
        lemma_asked_equal(h, orders, src.0, Direction::Incoming, tgt.0);
    }
}

/// A mismatch along an edge is reported only where there is that edge.
pub proof fn law_reported_edges_are_there(
    h: HugrModel,
    orders: Orders,
    mid: Ctx,
    end: Ctx,
    edge: ExtensionError,
)
    requires
        h.wf(),
        meta_demand(h) <= u32::MAX,
        inferred(h, orders, mid, end, Err(InferExtensionError::EdgeMismatch(edge))),
    ensures
        match edge {
            ExtensionError::TgtExceedsSrcExtensions { from, to, .. } => has_wire(h, from, to),
            ExtensionError::SrcExceedsTgtExtensions { from, to, .. } => has_wire(h, from, to),
            _ => false,
        },
{
    let err = InferExtensionError::EdgeMismatch(edge);
    let start = problem(h, orders);
    let now = if start.fails(mid, err) {
        mid
    } else {
        end
    };
    assert(arises(h, orders, now));
    assert(now.clash(err));
    if exists|m: u32| now.own_clash(err, m) {
        let m = choose|m: u32| now.own_clash(err, m);
        let (r, o) = choose|r: Seq<char>, o: u32| now.sum_clash(err, m, r, o);
        if now.plus_clash(err, m, r, o) {
            lemma_reported_edge(
                h,
                orders,
                now,
                edge,
                m,
                o,
                now.look(m)->0,
                now.look(o)->0.insert(r),
            );
        } else {
            lemma_reported_edge(
                h,
                orders,
                now,
                edge,
                m,
                o,
                now.look(m)->0,
                now.look(m)->0.insert(r),
            );
        }
    } else {
        let (k, m, c) = choose|k: u32, m: u32, c: u32| now.join_clash(err, k, m, c);
        lemma_reported_edge(h, orders, now, edge, m, c, now.solved[m], now.solved[c]);
    }
}

proof fn lemma_reported_edge(
    h: HugrModel,
    orders: Orders,
    now: Ctx,
    edge: ExtensionError,
    m1: u32,
    m2: u32,
    exts1: Set<Seq<char>>,
    exts2: Set<Seq<char>>,
)
    requires
        h.wf(),
        orders_fit(h, orders),
        meta_demand(h) <= u32::MAX,
        arises(h, orders, now),
        now.reports(InferExtensionError::EdgeMismatch(edge), m1, m2, exts1, exts2),
    ensures
        match edge {
            ExtensionError::TgtExceedsSrcExtensions { from, to, .. } => has_wire(h, from, to),
            ExtensionError::SrcExceedsTgtExtensions { from, to, .. } => has_wire(h, from, to),
            _ => false,
        },
{
    let err = InferExtensionError::EdgeMismatch(edge);
    let (loc1, loc2) = choose|loc1: Option<Loc>, loc2: Option<Loc>| #[trigger]
        now.located(m1, loc1) && #[trigger] now.located(m2, loc2) && tells_mismatch(
            err,
            loc1,
            loc2,
            now.wired(loc1, loc2),
            exts1,
            exts2,
        );
    lemma_told_arises(h, orders, now);
    assert(loc1 is Some && loc2 is Some);
    assert(now.are_ends(loc1->0, loc2->0));
    assert(now.locs.contains_key(loc1->0) && now.locs.contains_key(loc2->0));
    law_ends_are_joined(h, orders, now, loc1->0, loc2->0);
}

/// Inference fails only if a side is unsolved, or solving comes to where a sum is off
/// or two that should be equal are not.
pub proof fn law_inference_fails_for_a_cause(
    h: HugrModel,
    orders: Orders,
    mid: Ctx,
    end: Ctx,
    err: InferExtensionError,
)
    requires
        h.wf(),
        meta_demand(h) <= u32::MAX,
        inferred(h, orders, mid, end, Err(err)),
    ensures
        err is Unsolved || exists|now: Ctx| #[trigger]
            arises(h, orders, now) && ((exists|m: u32, r: Seq<char>, o: u32|
                sum_is_off(now, m, r, o)) || (exists|k: u32, m: u32| equals_are_off(now, k, m))),
{
    let start = problem(h, orders);
    let now = if start.fails(mid, err) {
        mid
    } else {
        end
    };
    assert(arises(h, orders, now));
    if !(err is Unsolved) {
        assert(now.clash(err));
        law_mismatches_have_a_cause(now, err);
    }
}

} // verus!
