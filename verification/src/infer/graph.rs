//! What inference finds for a graph, said of its nodes, their children and its
//! edges.

use vstd::prelude::*;

use crate::extension_set::Exts;
use crate::hugr::{Direction, EdgeKind, HugrModel, Loc, Node};
use crate::infer::error::InferExtensionError;
use crate::infer::laws::{
    adds_delta, combined, law_closure_is_forced, law_constraints_are_met,
    law_fitting_graph_has_no_mismatch, law_inference_covers_the_graph,
    has_only, is_only, law_inference_respects_the_graph, law_solution_is_forced,
    lemma_chain_together, lemma_equal_together, lemma_finite_values, lemma_fitting_values_solve,
    lemma_solved_in_solution, lemma_stages, only_value, respects,
};
use crate::infer::lemma_instantiated_wf;
use crate::infer::model::{Con, Ctx, Rel, agree_below, lemma_closed_look, lemma_closed_root};
use crate::infer::problem::{
    Orders, Reason, asked, chain_before, chain_start, demand_of, given, lemma_chain_demand,
    lemma_chain_start, lemma_demand_bound, lemma_loc_meta, lemma_problem_wf, loc_meta, meta_demand,
    meta_loc, order_fits, orders_fit, problem,
};
use crate::infer::run::{Step, law_solving_is_sound};
use crate::infer::{inferred, instantiates, with_inputs};
use crate::locations::{ExtensionSolution, solution_sets};

verus! {

/// Whether `a` and `b` have the same set, both in the solution or both in the
/// closure.
pub open spec fn alike(
    solution: ExtensionSolution,
    closure: ExtensionSolution,
    a: Loc,
    b: Loc,
) -> bool {
    ||| {
        &&& solution@.contains_key(a) && solution@.contains_key(b)
        &&& solution@[a]@ == solution@[b]@
    }
    ||| {
        &&& closure@.contains_key(a) && closure@.contains_key(b)
        &&& closure@[a]@ == closure@[b]@
    }
}

/// Each side of each node gets one set, in the solution or in the closure, and
/// nothing else gets any.
pub proof fn law_each_side_gets_a_set(
    h: HugrModel,
    orders: Orders,
    mid: Ctx,
    end: Ctx,
    solution: ExtensionSolution,
    closure: ExtensionSolution,
)
    requires
        h.wf(),
        meta_demand(h) <= u32::MAX,
        inferred(h, orders, mid, end, Ok((solution, closure))),
    ensures
        forall|n: Node, dir: Direction|
            #![trigger solution@.contains_key((n, dir))]
            #![trigger closure@.contains_key((n, dir))]
            n.0 < h.nodes.len() ==> (solution@.contains_key((n, dir)) <==> !closure@.contains_key(
                (n, dir),
            )),
        forall|n: Node, dir: Direction|
            #![trigger solution@.contains_key((n, dir))]
            #![trigger closure@.contains_key((n, dir))]
            solution@.contains_key((n, dir)) || closure@.contains_key((n, dir)) ==> n.0
                < h.nodes.len(),
{
    law_inference_covers_the_graph(h, orders, mid, end, solution, closure);
    assert forall|n: Node, dir: Direction| n.0 < h.nodes.len() implies (solution@.contains_key(
        (n, dir),
    ) <==> !closure@.contains_key((n, dir))) by {
        assert(h.valid((n, dir).0));
    }
    assert forall|n: Node, dir: Direction|
        solution@.contains_key((n, dir)) || closure@.contains_key((n, dir)) implies n.0
        < h.nodes.len() by {
        assert(h.valid((n, dir).0));
    }
}

/// A node that declares a set at its input has it there in the solution, and it
/// with what the node adds at its output.
pub proof fn law_declared_sets_are_found(
    h: HugrModel,
    orders: Orders,
    mid: Ctx,
    end: Ctx,
    solution: ExtensionSolution,
    closure: ExtensionSolution,
    i: int,
)
    requires
        h.wf(),
        meta_demand(h) <= u32::MAX,
        inferred(h, orders, mid, end, Ok((solution, closure))),
        0 <= i < h.nodes.len(),
        h.nodes[i].input is Some,
    ensures
        solution@.contains_key((Node(i as u32), Direction::Incoming)),
        solution@[(Node(i as u32), Direction::Incoming)]@ == h.nodes[i].input->0,
        solution@.contains_key((Node(i as u32), Direction::Outgoing)),
        solution@[(Node(i as u32), Direction::Outgoing)]@ == h.nodes[i].input->0.union(
            h.nodes[i].delta,
        ),
{
    let start = problem(h, orders);
    let node = Node(i as u32);
    lemma_problem_wf(h, orders);
    law_solving_is_sound(start, mid);
    assert(h.at(node) == h.nodes[i]);
    assert forall|dir: Direction|
        solution@.contains_key((node, dir)) && solution@[(node, dir)]@ == h.declared(
            (node, dir),
        )->0 by {
        let loc = (node, dir);
        let m = loc_meta(loc);
        lemma_loc_meta(h, loc);
        assert(h.valid(loc.0));
        assert(start.solved.contains_key(m));
        assert(start.look(m) == h.declared(loc));
        assert(mid.look(m) == start.look(m));
        assert(start.locs.contains_key(loc));
        assert(mid.found().contains_key(loc));
        assert(solution_sets(solution@).contains_key(loc));
        assert(solution_sets(solution@)[loc] == solution@[loc]@);
    }
    assert(solution@.contains_key((node, Direction::Incoming)));
    assert(solution@.contains_key((node, Direction::Outgoing)));
}

/// Both sides of an open node are in the solution or both are in the closure, and
/// at its output there is what is at its input and what the node adds.
pub proof fn law_open_nodes_add_to_their_input(
    h: HugrModel,
    orders: Orders,
    mid: Ctx,
    end: Ctx,
    solution: ExtensionSolution,
    closure: ExtensionSolution,
    i: int,
)
    requires
        h.wf(),
        meta_demand(h) <= u32::MAX,
        inferred(h, orders, mid, end, Ok((solution, closure))),
        0 <= i < h.nodes.len(),
        h.nodes[i].input is None,
    ensures
        ({
            let at_input = (Node(i as u32), Direction::Incoming);
            let at_output = (Node(i as u32), Direction::Outgoing);
            ||| {
                &&& solution@.contains_key(at_input) && solution@.contains_key(at_output)
                &&& solution@[at_output]@ == solution@[at_input]@.union(h.nodes[i].delta)
            }
            ||| {
                &&& closure@.contains_key(at_input) && closure@.contains_key(at_output)
                &&& closure@[at_output]@ == closure@[at_input]@.union(h.nodes[i].delta)
            }
        }),
{
    let start = problem(h, orders);
    let node = Node(i as u32);
    let at_input = (node, Direction::Incoming);
    let at_output = (node, Direction::Outgoing);
    let reason = Reason::End(i);
    let last = orders[i].len() as int;
    let before = chain_before(h, orders, i, last);
    assert(h.at(node) == h.nodes[i]);
    assert(h.valid(at_input.0) && h.valid(at_output.0));
    law_inference_respects_the_graph(h, orders, mid, end, solution, closure);
    lemma_problem_wf(h, orders);
    lemma_demand_bound(h, orders, reason);
    lemma_solved_in_solution(h, orders, mid, end, solution, closure, at_input);
    lemma_solved_in_solution(h, orders, mid, end, solution, closure, at_output);
    lemma_chain_together(h, orders, mid, i, last);
    law_constraints_are_met(start, mid);
    assert(given(h, orders, reason));
    assert(asked(h, orders, loc_meta(at_output), Con::Equal(before)));
    assert(start.has(loc_meta(at_output), Con::Equal(before)));
    assert(mid.look(loc_meta(at_output)) == mid.look(before));
    let both = combined(solution, closure);
    assert(both[at_output] == both[at_input].union(h.at(node).delta));
    assert(solution_sets(solution@).contains_key(at_input) <==> solution@.contains_key(at_input));
    assert(solution_sets(solution@).contains_key(at_output) <==> solution@.contains_key(at_output));
    assert(solution_sets(closure@).contains_key(at_input) <==> closure@.contains_key(at_input));
    assert(solution_sets(closure@).contains_key(at_output) <==> closure@.contains_key(at_output));
}

/// Sides that the graph wants to be equal are alike.
proof fn lemma_equal_alike(
    h: HugrModel,
    orders: Orders,
    mid: Ctx,
    end: Ctx,
    solution: ExtensionSolution,
    closure: ExtensionSolution,
    reason: Reason,
    a: Loc,
    b: Loc,
)
    requires
        h.wf(),
        meta_demand(h) <= u32::MAX,
        inferred(h, orders, mid, end, Ok((solution, closure))),
        given(h, orders, reason),
        h.valid(a.0),
        h.valid(b.0),
        demand_of(h, orders, reason) == (loc_meta(a), Con::Equal(loc_meta(b))),
    ensures
        alike(solution, closure, a, b),
{
    law_inference_covers_the_graph(h, orders, mid, end, solution, closure);
    lemma_equal_together(h, orders, mid, end, solution, closure, reason, a, b);
    if closure@.contains_key(a) {
        assert(closure@[a]@.union(Set::empty()) =~= closure@[a]@);
        assert(closure@[b]@.union(Set::empty()) =~= closure@[b]@);
    }
}

/// Both sides of the first child of a node that holds a dataflow region have the
/// set at the input of the node, and both sides of the second child the set at its
/// output, whatever else the node is.
pub proof fn law_regions_are_like_their_node(
    h: HugrModel,
    orders: Orders,
    mid: Ctx,
    end: Ctx,
    solution: ExtensionSolution,
    closure: ExtensionSolution,
    i: int,
    dir: Direction,
)
    requires
        h.wf(),
        meta_demand(h) <= u32::MAX,
        inferred(h, orders, mid, end, Ok((solution, closure))),
        0 <= i < h.nodes.len(),
        h.nodes[i].dataflow_parent,
        h.nodes[i].children.len() >= 2,
    ensures
        alike(
            solution,
            closure,
            (h.nodes[i].children[0], dir),
            (Node(i as u32), Direction::Incoming),
        ),
        alike(
            solution,
            closure,
            (h.nodes[i].children[1], dir),
            (Node(i as u32), Direction::Outgoing),
        ),
{
    let node = Node(i as u32);
    let input = (h.nodes[i].children[0], dir);
    let output = (h.nodes[i].children[1], dir);
    assert(h.nodes[i].children[0].0 < h.nodes.len());
    assert(h.nodes[i].children[1].0 < h.nodes.len());
    assert(h.at(node) == h.nodes[i]);
    assert(h.io(node) == Some((input.0, output.0)));
    lemma_equal_alike(
        h,
        orders,
        mid,
        end,
        solution,
        closure,
        Reason::InputNode(i, dir),
        input,
        (node, Direction::Incoming),
    );
    lemma_equal_alike(
        h,
        orders,
        mid,
        end,
        solution,
        closure,
        Reason::OutputNode(i, dir),
        output,
        (node, Direction::Outgoing),
    );
}

/// The two ends of an edge that carries a value have the same set, wherever the
/// nodes are.
pub proof fn law_edges_have_like_ends(
    h: HugrModel,
    orders: Orders,
    mid: Ctx,
    end: Ctx,
    solution: ExtensionSolution,
    closure: ExtensionSolution,
    e: int,
)
    requires
        h.wf(),
        meta_demand(h) <= u32::MAX,
        inferred(h, orders, mid, end, Ok((solution, closure))),
        0 <= e < h.edges.len(),
        h.edges[e].kind == EdgeKind::Value,
    ensures
        alike(
            solution,
            closure,
            (h.edges[e].src, Direction::Outgoing),
            (h.edges[e].tgt, Direction::Incoming),
        ),
{
    lemma_equal_alike(
        h,
        orders,
        mid,
        end,
        solution,
        closure,
        Reason::Wire(e),
        (h.edges[e].src, Direction::Outgoing),
        (h.edges[e].tgt, Direction::Incoming),
    );
}

/// What the closure has at the input of the root is the empty set.
pub proof fn law_root_is_instantiated_by_nothing(
    h: HugrModel,
    orders: Orders,
    mid: Ctx,
    end: Ctx,
    solution: ExtensionSolution,
    closure: ExtensionSolution,
)
    requires
        h.wf(),
        meta_demand(h) <= u32::MAX,
        inferred(h, orders, mid, end, Ok((solution, closure))),
        closure@.contains_key((Node(0), Direction::Incoming)),
    ensures
        h.nodes[0].input is None,
        closure@[(Node(0), Direction::Incoming)]@ == Set::<Seq<char>>::empty(),
{
    let start = problem(h, orders);
    let loc = (Node(0), Direction::Incoming);
    let m = loc_meta(loc);
    lemma_problem_wf(h, orders);
    lemma_loc_meta(h, loc);
    law_each_side_gets_a_set(h, orders, mid, end, solution, closure);
    if h.nodes[0].input is Some {
        law_declared_sets_are_found(h, orders, mid, end, solution, closure, 0);
    }
    assert(h.valid(loc.0));
    lemma_stages(h, orders, mid, end, solution, closure);
    law_solving_is_sound(start, mid);
    lemma_solved_in_solution(h, orders, mid, end, solution, closure, loc);
    assert(start.vars.contains(m));
    let v = mid.root(m);
    let next = mid.instantiated();
    assert(mid.vars.contains(v));
    assert(mid.look(m) is None);
    assert(!mid.solved.contains_key(v));
    assert(next.solved.contains_key(v));
    assert(next.root(m) == v);
    assert(next.look(m) == Some(Set::<Seq<char>>::empty()));
    lemma_instantiated_wf(mid);
    law_solving_is_sound(next, end);
    assert(m < next.fresh);
    assert(end.look(m) == next.look(m));
    assert(closure@[loc]@.union(Set::empty()) =~= closure@[loc]@);
}

/// Whether no tie leads out of `cut`, a set of sides of nodes: neither from one
/// side of an open node to the other, nor between a region and the sides of its
/// first two children, nor along an edge that carries a value; and no node with a
/// side in it declares a set.
pub open spec fn is_apart(h: HugrModel, cut: Set<Loc>) -> bool {
    &&& forall|i: int|
        0 <= i < h.nodes.len() && (#[trigger] h.nodes[i]).input is None ==> (cut.contains(
            (Node(i as u32), Direction::Incoming),
        ) <==> cut.contains((Node(i as u32), Direction::Outgoing)))
    &&& forall|i: int, dir: Direction|
        #![trigger h.nodes[i], cut.contains((Node(i as u32), dir))]
        0 <= i < h.nodes.len() && h.nodes[i].input is Some ==> !cut.contains(
            (Node(i as u32), dir),
        )
    &&& forall|i: int, dir: Direction|
        #![trigger cut.contains((h.nodes[i].children[0], dir))]
        0 <= i < h.nodes.len() && h.nodes[i].dataflow_parent && h.nodes[i].children.len() >= 2
            ==> (cut.contains((h.nodes[i].children[0], dir)) <==> cut.contains(
            (Node(i as u32), Direction::Incoming),
        ))
    &&& forall|i: int, dir: Direction|
        #![trigger cut.contains((h.nodes[i].children[1], dir))]
        0 <= i < h.nodes.len() && h.nodes[i].dataflow_parent && h.nodes[i].children.len() >= 2
            ==> (cut.contains((h.nodes[i].children[1], dir)) <==> cut.contains(
            (Node(i as u32), Direction::Outgoing),
        ))
    &&& forall|e: int|
        0 <= e < h.edges.len() && (#[trigger] h.edges[e]).kind == EdgeKind::Value ==> (cut.contains(
            (h.edges[e].src, Direction::Outgoing),
        ) <==> cut.contains((h.edges[e].tgt, Direction::Incoming)))
}

/// A side is reported as unsolved only if it is apart from all sides that declare a
/// set: a graph in which ties lead from every side to a declared one is not refused
/// as unsolved.
pub proof fn law_unsolved_sides_are_apart(
    h: HugrModel,
    orders: Orders,
    mid: Ctx,
    end: Ctx,
    location: Loc,
)
    requires
        h.wf(),
        meta_demand(h) <= u32::MAX,
        inferred(h, orders, mid, end, Err(InferExtensionError::Unsolved { location })),
    ensures
        location.0.0 < h.nodes.len(),
        exists|cut: Set<Loc>| #[trigger] is_apart(h, cut) && cut.contains(location),
{
    let start = problem(h, orders);
    let err = InferExtensionError::Unsolved { location };
    lemma_problem_wf(h, orders);
    law_solving_is_sound(start, mid);
    if start.fails(mid, err) {
        assert(!mid.clash(err));
        assert(mid.locs.contains_key(location));
    } else {
        let next = mid.instantiated();
        lemma_instantiated_wf(mid);
        law_solving_is_sound(next, end);
        assert(!end.clash(err));
        let m = end.locs[location];
        assert(mid.locs.contains_key(location));
        assert(m < mid.fresh);
        if mid.look(m) is Some {
            assert(next.root(m) == mid.root(m));
            assert(next.look(m) == mid.look(m));
            assert(end.look(m) == next.look(m));
        }
    }
    assert(mid.finished());
    assert(start.locs.contains_key(location));
    let cut = Set::new(|loc: Loc| h.valid(loc.0) && mid.look(loc_meta(loc)) is None);
    lemma_unsolved_is_apart(h, orders, mid, cut);
    assert(cut.contains(location));
}

/// What is not solved at the end is apart from what is.
proof fn lemma_unsolved_is_apart(h: HugrModel, orders: Orders, mid: Ctx, cut: Set<Loc>)
    requires
        h.wf(),
        orders_fit(h, orders),
        meta_demand(h) <= u32::MAX,
        problem(h, orders).reaches(mid),
        mid.finished(),
        cut == Set::new(|loc: Loc| h.valid(loc.0) && mid.look(loc_meta(loc)) is None),
    ensures
        is_apart(h, cut),
{
    let start = problem(h, orders);
    lemma_problem_wf(h, orders);
    law_solving_is_sound(start, mid);
    law_constraints_are_met(start, mid);
    assert forall|reason: Reason, a: Loc, b: Loc|
        given(h, orders, reason) && h.valid(a.0) && h.valid(b.0) && #[trigger] demand_of(
            h,
            orders,
            reason,
        ) == (#[trigger] loc_meta(a), Con::Equal(#[trigger] loc_meta(b))) implies (cut.contains(a)
        <==> cut.contains(b)) by {
        lemma_demand_bound(h, orders, reason);
        assert(asked(h, orders, loc_meta(a), Con::Equal(loc_meta(b))));
        assert(start.has(loc_meta(a), Con::Equal(loc_meta(b))));
    }
    assert forall|i: int|
        0 <= i < h.nodes.len() && (#[trigger] h.nodes[i]).input is None implies (cut.contains(
        (Node(i as u32), Direction::Incoming),
    ) <==> cut.contains((Node(i as u32), Direction::Outgoing))) by {
        let reason = Reason::End(i);
        let last = orders[i].len() as int;
        let before = chain_before(h, orders, i, last);
        let at_output = loc_meta((Node(i as u32), Direction::Outgoing));
        lemma_demand_bound(h, orders, reason);
        lemma_chain_together(h, orders, mid, i, last);
        assert(given(h, orders, reason));
        assert(asked(h, orders, at_output, Con::Equal(before)));
        assert(start.has(at_output, Con::Equal(before)));
    }
    assert forall|i: int, dir: Direction|
        #![trigger h.nodes[i], cut.contains((Node(i as u32), dir))]
        0 <= i < h.nodes.len() && h.nodes[i].input is Some implies !cut.contains(
        (Node(i as u32), dir),
    ) by {
        let loc = (Node(i as u32), dir);
        lemma_loc_meta(h, loc);
        assert(h.at(loc.0) == h.nodes[i]);
        assert(start.solved.contains_key(loc_meta(loc)));
        assert(start.look(loc_meta(loc)) is Some);
    }
    assert forall|i: int, dir: Direction|
        #![trigger cut.contains((h.nodes[i].children[0], dir))]
        0 <= i < h.nodes.len() && h.nodes[i].dataflow_parent && h.nodes[i].children.len()
            >= 2 implies (cut.contains((h.nodes[i].children[0], dir)) <==> cut.contains(
        (Node(i as u32), Direction::Incoming),
    )) by {
        let a = (h.nodes[i].children[0], dir);
        let b = (Node(i as u32), Direction::Incoming);
        let reason = Reason::InputNode(i, dir);
        assert(h.nodes[i].children[0].0 < h.nodes.len());
        assert(h.at(b.0) == h.nodes[i]);
        assert(given(h, orders, reason));
        assert(demand_of(h, orders, reason) == (loc_meta(a), Con::Equal(loc_meta(b))));
    }
    assert forall|i: int, dir: Direction|
        #![trigger cut.contains((h.nodes[i].children[1], dir))]
        0 <= i < h.nodes.len() && h.nodes[i].dataflow_parent && h.nodes[i].children.len()
            >= 2 implies (cut.contains((h.nodes[i].children[1], dir)) <==> cut.contains(
        (Node(i as u32), Direction::Outgoing),
    )) by {
        let a = (h.nodes[i].children[1], dir);
        let b = (Node(i as u32), Direction::Outgoing);
        let reason = Reason::OutputNode(i, dir);
        assert(h.nodes[i].children[1].0 < h.nodes.len());
        assert(h.at(b.0) == h.nodes[i]);
        assert(given(h, orders, reason));
        assert(demand_of(h, orders, reason) == (loc_meta(a), Con::Equal(loc_meta(b))));
    }
    assert forall|e: int|
        0 <= e < h.edges.len() && (#[trigger] h.edges[e]).kind == EdgeKind::Value implies (
    cut.contains((h.edges[e].src, Direction::Outgoing)) <==> cut.contains(
        (h.edges[e].tgt, Direction::Incoming),
    )) by {
        let a = (h.edges[e].src, Direction::Outgoing);
        let b = (h.edges[e].tgt, Direction::Incoming);
        let reason = Reason::Wire(e);
        assert(given(h, orders, reason));
        assert(demand_of(h, orders, reason) == (loc_meta(a), Con::Equal(loc_meta(b))));
    }
}

/// The side that a metavariable of the problem belongs to: for those in the chain
/// of a node, its input.
spec fn owner(h: HugrModel, orders: Orders, m: u32) -> Loc {
    if m < 2 * h.nodes.len() {
        meta_loc(m)
    } else {
        let (n, k) = choose|n: int, k: int| #[trigger]
            given(h, orders, Reason::Link(n, k)) && chain_start(h, orders, n) + k == m;
        (Node(n as u32), Direction::Incoming)
    }
}

proof fn lemma_chain_owner(h: HugrModel, orders: Orders, n: int, k: int)
    requires
        h.wf(),
        orders_fit(h, orders),
        meta_demand(h) <= u32::MAX,
        0 <= n < h.nodes.len(),
        h.nodes[n].input is None,
        0 <= k <= orders[n].len(),
    ensures
        owner(h, orders, chain_before(h, orders, n, k)) == (Node(n as u32), Direction::Incoming),
{
    let len = h.nodes.len() as int;
    let m = chain_before(h, orders, n, k);
    lemma_chain_demand(h, orders, len);
    lemma_loc_meta(h, (Node(n as u32), Direction::Incoming));
    if k > 0 {
        lemma_chain_start(h, orders, n, len);
        assert(given(h, orders, Reason::Link(n, k - 1)));
        assert(m == chain_start(h, orders, n) + (k - 1));
        let (n2, k2) = choose|n2: int, k2: int| #[trigger]
            given(h, orders, Reason::Link(n2, k2)) && chain_start(h, orders, n2) + k2 == m;
        if n < n2 {
            lemma_chain_start(h, orders, n, n2);
        } else if n2 < n {
            lemma_chain_start(h, orders, n2, n);
        }
        assert(n2 == n);
    }
}

/// The relation in which what belongs to `cut` has no value, and all else any.
spec fn no_value(h: HugrModel, orders: Orders, cut: Set<Loc>) -> Rel {
    |m: u32|
        if cut.contains(owner(h, orders, m)) {
            Set::empty()
        } else {
            Set::full()
        }
}

/// Nothing follows for what is apart.
proof fn lemma_apart_is_closed(h: HugrModel, orders: Orders, cut: Set<Loc>)
    requires
        h.wf(),
        orders_fit(h, orders),
        meta_demand(h) <= u32::MAX,
        is_apart(h, cut),
    ensures
        problem(h, orders).closed(no_value(h, orders, cut)),
{
    let start = problem(h, orders);
    let rel = no_value(h, orders, cut);
    assert forall|loc: Loc| #[trigger] h.valid(loc.0) implies owner(h, orders, loc_meta(loc))
        == loc by {
        lemma_loc_meta(h, loc);
    }
    assert forall|m: u32, o: u32| #[trigger] start.has(m, Con::Equal(o)) implies rel(m) == rel(
        o,
    ) by {
        assert(asked(h, orders, m, Con::Equal(o)));
        let reason = choose|reason: Reason| #[trigger]
            given(h, orders, reason) && demand_of(h, orders, reason) == (m, Con::Equal(o));
        match reason {
            Reason::InputNode(p, dir) => {
                let node = Node(p as u32);
                let child = h.nodes[p].children[0];
                assert(h.nodes[p].children[0].0 < h.nodes.len());
                assert(h.at(node) == h.nodes[p]);
                assert(h.valid((child, dir).0));
                assert(h.valid((node, Direction::Incoming).0));
                assert(cut.contains((h.nodes[p].children[0], dir)) <==> cut.contains(
                    (node, Direction::Incoming),
                ));
            },
            Reason::OutputNode(p, dir) => {
                let node = Node(p as u32);
                let child = h.nodes[p].children[1];
                assert(h.nodes[p].children[1].0 < h.nodes.len());
                assert(h.at(node) == h.nodes[p]);
                assert(h.valid((child, dir).0));
                assert(h.valid((node, Direction::Outgoing).0));
                assert(cut.contains((h.nodes[p].children[1], dir)) <==> cut.contains(
                    (node, Direction::Outgoing),
                ));
            },
            Reason::Link(n, k) => {},
            Reason::End(n) => {
                let node = Node(n as u32);
                lemma_chain_owner(h, orders, n, orders[n].len() as int);
                assert(h.valid((node, Direction::Outgoing).0));
                assert(h.nodes[n].input is None);
            },
            Reason::Wire(e) => {
                assert(h.valid((h.edges[e].src, Direction::Outgoing).0));
                assert(h.valid((h.edges[e].tgt, Direction::Incoming).0));
            },
        }
    }
    assert forall|m: u32, r: Seq<char>, o: u32| #[trigger]
        start.has(m, Con::Plus(r, o)) implies crate::infer::model::plus_closed(
        rel(m),
        r,
        rel(o),
    ) by {
        assert(asked(h, orders, m, Con::Plus(r, o)));
        let reason = choose|reason: Reason| #[trigger]
            given(h, orders, reason) && demand_of(h, orders, reason) == (m, Con::Plus(r, o));
        match reason {
            Reason::Link(n, k) => {
                lemma_chain_owner(h, orders, n, k);
                lemma_chain_owner(h, orders, n, k + 1);
                assert(m == chain_before(h, orders, n, k + 1));
            },
            _ => {},
        }
    }
    assert forall|m: u32| #[trigger] start.solved.contains_key(m) implies rel(m).contains(
        start.solved[m],
    ) by {
        let loc = meta_loc(m);
        assert(owner(h, orders, m) == loc);
        assert(h.nodes[loc.0.0 as int].input is Some);
        assert(Node(loc.0.0 as int as u32) == loc.0);
        assert(!cut.contains((Node(loc.0.0 as int as u32), loc.1)));
    }
}

/// A graph with a side that is apart from all that declare a set, and from the
/// input of the root, is refused.
pub proof fn law_apart_sides_are_refused(
    h: HugrModel,
    orders: Orders,
    mid: Ctx,
    end: Ctx,
    result: Result<(ExtensionSolution, ExtensionSolution), InferExtensionError>,
    cut: Set<Loc>,
    loc: Loc,
)
    requires
        h.wf(),
        meta_demand(h) <= u32::MAX,
        inferred(h, orders, mid, end, result),
        is_apart(h, cut),
        !cut.contains((Node(0), Direction::Incoming)),
        loc.0.0 < h.nodes.len(),
        cut.contains(loc),
    ensures
        result is Err,
{
    if result is Ok {
        let start = problem(h, orders);
        let rel = no_value(h, orders, cut);
        let m = loc_meta(loc);
        lemma_problem_wf(h, orders);
        lemma_apart_is_closed(h, orders, cut);
        law_solving_is_sound(start, mid);
        assert(start.carries(mid, rel));
        let wider = choose|wider: Rel| #[trigger]
            mid.closed(wider) && agree_below(start.fresh, rel, wider);
        lemma_loc_meta(h, loc);
        assert(h.valid(loc.0));
        assert(start.locs.contains_key(loc));
        assert(owner(h, orders, m) == loc);
        assert(rel(m) == Set::<Exts>::empty());
        assert(wider(m) == rel(m));
        if mid.look(m) is Some {
            lemma_closed_look(mid, wider, m);
        }
        assert(mid.grounded(m));
        let path = choose|path: Seq<u32>| #[trigger]
            mid.is_dependency(path, m) && !mid.is_open(path.last());
        lemma_no_value_along(mid, wider, path, path.len() - 1);
        let last = path.last();
        if mid.look(last) is Some {
            lemma_closed_look(mid, wider, last);
        }
        lemma_closed_root(mid, wider, last);
        let w = if mid.vars.contains(last) {
            last
        } else {
            mid.root(last)
        };
        assert(mid.vars.contains(w));
        assert(wider(w) == Set::<Exts>::empty());
        let v = choose|v: u32| start.vars.contains(v) && #[trigger] mid.root(v) == w;
        let top = (Node(0), Direction::Incoming);
        lemma_loc_meta(h, top);
        assert(v == loc_meta(top));
        assert(owner(h, orders, v) == top);
        lemma_closed_root(mid, wider, v);
        assert(wider(v) == rel(v));
        assert(rel(v).contains(Set::<Seq<char>>::empty()));
    }
}

/// Where a metavariable has no value, what it depends on has none.
proof fn lemma_no_value_along(ctx: Ctx, rel: Rel, path: Seq<u32>, k: int)
    requires
        ctx.in_range(),
        ctx.closed(rel),
        0 <= k < path.len(),
        ctx.is_dependency(path, path[0]),
        rel(path[0]) == Set::<Exts>::empty(),
    ensures
        rel(path[k]) == Set::<Exts>::empty(),
    decreases k,
{
    if k > 0 {
        lemma_no_value_along(ctx, rel, path, k - 1);
        let m = path[k - 1];
        let o = path[k - 1 + 1];
        assert(ctx.is_open(path[k - 1]) && ctx.depends(path[k - 1], path[k - 1 + 1]));
        let r = choose|r: Seq<char>| ctx.has(ctx.root(m), Con::Plus(r, o));
        lemma_closed_root(ctx, rel, m);
        let lower = rel(o);
        assert forall|s: Exts| !#[trigger] lower.contains(s) by {
            if lower.contains(s) {
                assert(rel(ctx.root(m)).contains(s.insert(r)));
            }
        }
        assert(lower =~= Set::<Exts>::empty());
    }
}

/// Whether `val` gives a set to each side of each node, such that what nodes
/// declare is there; at the output of an open node there is what is at its input
/// and what the node adds, none of which is at its input; both sides of the first
/// two children of a region are like its input and its output; and the ends of
/// an edge that carries a value are alike.
pub open spec fn is_fitting(h: HugrModel, val: Map<Loc, Exts>) -> bool {
    &&& forall|n: Node, dir: Direction| #[trigger]
        val.contains_key((n, dir)) <==> n.0 < h.nodes.len()
    &&& forall|i: int|
        0 <= i < h.nodes.len() ==> {
            let node = #[trigger] h.nodes[i];
            let at_input = val[(Node(i as u32), Direction::Incoming)];
            let at_output = val[(Node(i as u32), Direction::Outgoing)];
            &&& at_output == at_input.union(node.delta)
            &&& match node.input {
                Some(input) => at_input == input,
                None => forall|name: Seq<char>| #[trigger]
                    node.delta.contains(name) ==> !at_input.contains(name),
            }
        }
    &&& forall|i: int, dir: Direction|
        #![trigger val[(h.nodes[i].children[0], dir)]]
        0 <= i < h.nodes.len() && h.nodes[i].dataflow_parent && h.nodes[i].children.len() >= 2
            ==> val[(h.nodes[i].children[0], dir)] == val[(Node(i as u32), Direction::Incoming)]
    &&& forall|i: int, dir: Direction|
        #![trigger val[(h.nodes[i].children[1], dir)]]
        0 <= i < h.nodes.len() && h.nodes[i].dataflow_parent && h.nodes[i].children.len() >= 2
            ==> val[(h.nodes[i].children[1], dir)] == val[(Node(i as u32), Direction::Outgoing)]
    &&& forall|e: int|
        0 <= e < h.edges.len() && (#[trigger] h.edges[e]).kind == EdgeKind::Value ==> val[(
            h.edges[e].src,
            Direction::Outgoing,
        )] == val[(h.edges[e].tgt, Direction::Incoming)]
}

proof fn lemma_fitting(h: HugrModel, val: Map<Loc, Exts>)
    requires
        h.wf(),
        is_fitting(h, val),
    ensures
        respects(h, val),
        adds_delta(h, val),
{
    assert forall|loc: Loc| #[trigger] val.contains_key(loc) <==> h.valid(loc.0) by {
        assert(val.contains_key((loc.0, loc.1)) <==> loc.0.0 < h.nodes.len());
    }
    assert forall|loc: Loc|
        h.valid(loc.0) && (#[trigger] h.declared(loc)) is Some implies val[loc] == h.declared(
        loc,
    )->0 by {
        let node = h.nodes[loc.0.0 as int];
        assert(Node(loc.0.0 as int as u32) == loc.0);
        assert(node.input is Some);
    }
    assert forall|p: Node, dir: Direction|
        #![trigger h.io(p), val[((h.io(p)->0).0, dir)]]
        h.valid(p) && h.io(p) is Some implies val[((h.io(p)->0).0, dir)] == val[(
        p,
        Direction::Incoming,
    )] by {
        assert(Node(p.0 as int as u32) == p);
        assert(val[(h.nodes[p.0 as int].children[0], dir)] == val[(p, Direction::Incoming)]);
    }
    assert forall|p: Node, dir: Direction|
        #![trigger h.io(p), val[((h.io(p)->0).1, dir)]]
        h.valid(p) && h.io(p) is Some implies val[((h.io(p)->0).1, dir)] == val[(
        p,
        Direction::Outgoing,
    )] by {
        assert(Node(p.0 as int as u32) == p);
        assert(val[(h.nodes[p.0 as int].children[1], dir)] == val[(p, Direction::Outgoing)]);
    }
    assert forall|n: Node| h.valid(n) && (#[trigger] h.at(n)).input is None implies {
        &&& val[(n, Direction::Incoming)].disjoint(h.at(n).delta)
        &&& val[(n, Direction::Outgoing)] == val[(n, Direction::Incoming)].union(h.at(n).delta)
    } by {
        let node = h.nodes[n.0 as int];
        assert(Node(n.0 as int as u32) == n);
        assert(node == h.at(n));
    }
}

/// Where some sets fit a graph, with nothing at the input of an open root, it is
/// refused only if some side cannot be told from what is declared.
pub proof fn law_fitting_graph_is_not_mismatched(
    h: HugrModel,
    orders: Orders,
    mid: Ctx,
    end: Ctx,
    err: InferExtensionError,
    val: Map<Loc, Exts>,
)
    requires
        h.wf(),
        meta_demand(h) <= u32::MAX,
        inferred(h, orders, mid, end, Err(err)),
        is_fitting(h, val),
        h.nodes[0].input is None ==> val[(Node(0), Direction::Incoming)] == Set::<
            Seq<char>,
        >::empty(),
    ensures
        err matches InferExtensionError::Unsolved { location } && exists|cut: Set<Loc>| #[trigger]
            is_apart(h, cut) && cut.contains(location),
{
    lemma_fitting(h, val);
    law_fitting_graph_has_no_mismatch(h, orders, mid, end, err, val);
    if let InferExtensionError::Unsolved { location } = err {
        law_unsolved_sides_are_apart(h, orders, mid, end, location);
    }
}

/// Of a graph that some sets fit, inference finds these and no others: all that is
/// in the solution, and, with nothing at the input of an open root, all that is in
/// the closure.
pub proof fn law_fitting_sets_are_found(
    h: HugrModel,
    orders: Orders,
    mid: Ctx,
    end: Ctx,
    solution: ExtensionSolution,
    closure: ExtensionSolution,
    val: Map<Loc, Exts>,
    n: Node,
    dir: Direction,
)
    requires
        h.wf(),
        meta_demand(h) <= u32::MAX,
        inferred(h, orders, mid, end, Ok((solution, closure))),
        is_fitting(h, val),
        n.0 < h.nodes.len(),
    ensures
        solution@.contains_key((n, dir)) ==> solution@[(n, dir)]@ == val[(n, dir)],
        closure@.contains_key((n, dir)) && val[(Node(0), Direction::Incoming)] == Set::<
            Seq<char>,
        >::empty() ==> closure@[(n, dir)]@ == val[(n, dir)],
{
    let loc = (n, dir);
    lemma_fitting(h, val);
    if solution@.contains_key(loc) {
        law_solution_is_forced(h, orders, mid, end, solution, closure, val, loc);
    }
    if closure@.contains_key(loc) && val[(Node(0), Direction::Incoming)] == Set::<
        Seq<char>,
    >::empty() {
        law_closure_is_forced(h, orders, mid, end, solution, closure, val);
        law_inference_covers_the_graph(h, orders, mid, end, solution, closure);
        assert(solution_sets(closure@).contains_key(loc));
        assert(combined(solution, closure)[loc] == closure@[loc]@);
    }
}

/// A graph that some sets fit, in which ties lead from every side to one that a
/// node declares, is inferred.
pub proof fn law_told_graph_is_inferred(
    h: HugrModel,
    orders: Orders,
    mid: Ctx,
    end: Ctx,
    result: Result<(ExtensionSolution, ExtensionSolution), InferExtensionError>,
    val: Map<Loc, Exts>,
)
    requires
        h.wf(),
        meta_demand(h) <= u32::MAX,
        inferred(h, orders, mid, end, result),
        is_fitting(h, val),
        h.nodes[0].input is None ==> val[(Node(0), Direction::Incoming)] == Set::<
            Seq<char>,
        >::empty(),
        forall|cut: Set<Loc>, n: Node, dir: Direction| #[trigger]
            is_apart(h, cut) && n.0 < h.nodes.len() ==> !#[trigger] cut.contains((n, dir)),
    ensures
        result is Ok,
{
    if let Err(err) = result {
        law_fitting_graph_is_not_mismatched(h, orders, mid, end, err, val);
        let location = err->Unsolved_location;
        law_unsolved_sides_are_apart(h, orders, mid, end, location);
        let cut = choose|cut: Set<Loc>| #[trigger] is_apart(h, cut) && cut.contains(location);
        assert(cut.contains((location.0, location.1)));
    }
}

/// Whether `cut`, a set of sides of nodes, is tied by equality to nothing outside
/// and told by nothing: no node with a side in it declares a set, no side in it is
/// the output of an open node that adds something, and the input of the root is
/// not in it.
pub open spec fn is_source(h: HugrModel, cut: Set<Loc>) -> bool {
    &&& !cut.contains((Node(0), Direction::Incoming))
    &&& forall|i: int|
        0 <= i < h.nodes.len() && (#[trigger] h.nodes[i]).input is None && h.nodes[i].delta
            == Set::<Seq<char>>::empty() ==> (cut.contains((Node(i as u32), Direction::Incoming))
            <==> cut.contains((Node(i as u32), Direction::Outgoing)))
    &&& forall|i: int|
        0 <= i < h.nodes.len() && (#[trigger] h.nodes[i]).input is None && h.nodes[i].delta
            != Set::<Seq<char>>::empty() ==> !cut.contains((Node(i as u32), Direction::Outgoing))
    &&& forall|i: int, dir: Direction|
        #![trigger h.nodes[i], cut.contains((Node(i as u32), dir))]
        0 <= i < h.nodes.len() && h.nodes[i].input is Some ==> !cut.contains(
            (Node(i as u32), dir),
        )
    &&& forall|i: int, dir: Direction|
        #![trigger cut.contains((h.nodes[i].children[0], dir))]
        0 <= i < h.nodes.len() && h.nodes[i].dataflow_parent && h.nodes[i].children.len() >= 2
            ==> (cut.contains((h.nodes[i].children[0], dir)) <==> cut.contains(
            (Node(i as u32), Direction::Incoming),
        ))
    &&& forall|i: int, dir: Direction|
        #![trigger cut.contains((h.nodes[i].children[1], dir))]
        0 <= i < h.nodes.len() && h.nodes[i].dataflow_parent && h.nodes[i].children.len() >= 2
            ==> (cut.contains((h.nodes[i].children[1], dir)) <==> cut.contains(
            (Node(i as u32), Direction::Outgoing),
        ))
    &&& forall|e: int|
        0 <= e < h.edges.len() && (#[trigger] h.edges[e]).kind == EdgeKind::Value ==> (cut.contains(
            (h.edges[e].src, Direction::Outgoing),
        ) <==> cut.contains((h.edges[e].tgt, Direction::Incoming)))
}

/// Whether each sum of `now` is one of `start`, maybe on another metavariable.
spec fn sums_from(start: Ctx, now: Ctx) -> bool {
    forall|m: u32, r: Seq<char>, o: u32| #[trigger]
        now.has(m, Con::Plus(r, o)) ==> adds_to(start, r, o)
}

/// Whether some metavariable is the sum of `o` and `r`.
spec fn adds_to(ctx: Ctx, r: Seq<char>, o: u32) -> bool {
    exists|m: u32| ctx.has(m, Con::Plus(r, o))
}

proof fn lemma_sums_from(start: Ctx, steps: Seq<Step>)
    requires
        start.legal(steps),
    ensures
        sums_from(start, start.outcome(steps)),
    decreases steps.len(),
{
    let now = start.outcome(steps);
    if steps.len() > 0 {
        let prev = start.outcome(steps.drop_last());
        lemma_sums_from(start, steps.drop_last());
        assert forall|m: u32, r: Seq<char>, o: u32| #[trigger]
            now.has(m, Con::Plus(r, o)) implies adds_to(start, r, o) by {
            match steps.last() {
                Step::Open(k) => {
                    if !prev.has(m, Con::Plus(r, o)) {
                        assert(prev.has(k, Con::Plus(r, o)));
                    }
                },
                Step::Join(_, k, _) => {
                    if !prev.has(m, Con::Plus(r, o)) {
                        assert(prev.has(k, Con::Plus(r, o)));
                    }
                },
                _ => {
                    assert(prev.has(m, Con::Plus(r, o)));
                },
            }
        }
    }
}

/// What sums of the problem of a graph speak of is the input of an open node, or is
/// a sum itself.
proof fn lemma_sum_of(h: HugrModel, orders: Orders, r: Seq<char>, o: u32)
    requires
        h.wf(),
        orders_fit(h, orders),
        meta_demand(h) <= u32::MAX,
        adds_to(problem(h, orders), r, o),
    ensures
        o < meta_demand(h),
        (exists|n: int|
            0 <= n < h.nodes.len() && o == #[trigger] loc_meta(
                (Node(n as u32), Direction::Incoming),
            )) || (exists|q: Seq<char>, p: u32| problem(h, orders).has(o, Con::Plus(q, p))),
{
    let start = problem(h, orders);
    let m = choose|m: u32| start.has(m, Con::Plus(r, o));
    assert(asked(h, orders, m, Con::Plus(r, o)));
    let reason = choose|reason: Reason| #[trigger]
        given(h, orders, reason) && demand_of(h, orders, reason) == (m, Con::Plus(r, o));
    lemma_demand_bound(h, orders, reason);
    lemma_problem_wf(h, orders);
    match reason {
        Reason::Link(n, k) => {
            if k == 0 {
                let node = Node(n as u32);
                assert(o == loc_meta((node, Direction::Incoming)));
            } else {
                let before = Reason::Link(n, k - 1);
                lemma_demand_bound(h, orders, before);
                lemma_chain_start(h, orders, n, h.nodes.len() as int);
                assert(given(h, orders, before));
                let q = orders[n][k - 1];
                let p = chain_before(h, orders, n, k - 1);
                assert(demand_of(h, orders, before) == (o, Con::Plus(q, p)));
                assert(asked(h, orders, o, Con::Plus(q, p)));
                assert(start.has(o, Con::Plus(q, p)));
            }
        },
        _ => {},
    }
}

/// At the end, where `x` is open and depends on nothing, what has become the same
/// is told by nothing.
proof fn lemma_open_end_is_source(h: HugrModel, orders: Orders, mid: Ctx, x: u32, cut: Set<Loc>)
    requires
        h.wf(),
        orders_fit(h, orders),
        meta_demand(h) <= u32::MAX,
        problem(h, orders).reaches(mid),
        mid.finished(),
        mid.is_open(x),
        forall|o: u32| !#[trigger] mid.depends(x, o),
        cut == Set::new(|loc: Loc| h.valid(loc.0) && mid.root(loc_meta(loc)) == mid.root(x)),
    ensures
        is_source(h, cut),
{
    let start = problem(h, orders);
    lemma_problem_wf(h, orders);
    law_solving_is_sound(start, mid);
    law_constraints_are_met(start, mid);
    assert forall|loc: Loc| #[trigger] cut.contains(loc) implies mid.look(
        loc_meta(loc),
    ) is None by {}
    assert(!cut.contains((Node(0), Direction::Incoming))) by {
        let top = (Node(0), Direction::Incoming);
        let v = loc_meta(top);
        lemma_loc_meta(h, top);
        if cut.contains(top) {
            if h.nodes[0].input is None {
                assert(start.vars.contains(v));
                assert(mid.vars.contains(mid.root(v)));
            } else {
                assert(h.at(Node(0)) == h.nodes[0]);
                assert(start.solved.contains_key(v));
                assert(start.look(v) is Some);
                assert(mid.look(v) is Some);
            }
        }
    }
    assert forall|reason: Reason, a: Loc, b: Loc|
        given(h, orders, reason) && h.valid(a.0) && h.valid(b.0) && #[trigger] demand_of(
            h,
            orders,
            reason,
        ) == (#[trigger] loc_meta(a), Con::Equal(#[trigger] loc_meta(b))) implies (cut.contains(a)
        <==> cut.contains(b)) by {
        assert(asked(h, orders, loc_meta(a), Con::Equal(loc_meta(b))));
        lemma_demand_bound(h, orders, reason);
        assert(start.has(loc_meta(a), Con::Equal(loc_meta(b))));
    }
    assert forall|i: int| 0 <= i < h.nodes.len() && (#[trigger] h.nodes[i]).input is None implies {
        if h.nodes[i].delta == Set::<Seq<char>>::empty() {
            cut.contains((Node(i as u32), Direction::Incoming)) <==> cut.contains(
                (Node(i as u32), Direction::Outgoing),
            )
        } else {
            !cut.contains((Node(i as u32), Direction::Outgoing))
        }
    } by {
        let last = orders[i].len() as int;
        let before = chain_before(h, orders, i, last);
        let at_output = (Node(i as u32), Direction::Outgoing);
        let reason = Reason::End(i);
        let out = loc_meta(at_output);
        lemma_demand_bound(h, orders, reason);
        assert(order_fits(h, i, orders[i]));
        assert(given(h, orders, reason));
        assert(asked(h, orders, out, Con::Equal(before)));
        assert(start.has(out, Con::Equal(before)));
        assert(mid.root(out) == mid.root(before));
        if h.nodes[i].delta == Set::<Seq<char>>::empty() {
            assert(last == 0) by {
                if last > 0 {
                    assert(orders[i].to_set().contains(orders[i][0]));
                }
            }
        } else {
            assert(last > 0) by {
                if last == 0 {
                    assert(orders[i].to_set() =~= Set::<Seq<char>>::empty());
                }
            }
            if cut.contains(at_output) {
                let link = Reason::Link(i, last - 1);
                let r = orders[i][last - 1];
                let o = chain_before(h, orders, i, last - 1);
                lemma_demand_bound(h, orders, link);
                assert(given(h, orders, link));
                assert(demand_of(h, orders, link) == (before, Con::Plus(r, o)));
                assert(asked(h, orders, before, Con::Plus(r, o)));
                assert(start.has(before, Con::Plus(r, o)));
                assert(mid.look(before) is None);
                assert(!mid.met(before, r, o));
                assert(mid.has(mid.root(before), Con::Plus(r, o)));
                assert(mid.depends(x, o));
            }
        }
    }
    assert forall|i: int, dir: Direction|
        #![trigger h.nodes[i], cut.contains((Node(i as u32), dir))]
        0 <= i < h.nodes.len() && h.nodes[i].input is Some implies !cut.contains(
        (Node(i as u32), dir),
    ) by {
        let loc = (Node(i as u32), dir);
        lemma_loc_meta(h, loc);
        assert(h.at(loc.0) == h.nodes[i]);
        assert(start.solved.contains_key(loc_meta(loc)));
        assert(start.look(loc_meta(loc)) is Some);
        assert(mid.look(loc_meta(loc)) is Some);
    }
    assert forall|i: int, dir: Direction|
        #![trigger cut.contains((h.nodes[i].children[0], dir))]
        0 <= i < h.nodes.len() && h.nodes[i].dataflow_parent && h.nodes[i].children.len()
            >= 2 implies (cut.contains((h.nodes[i].children[0], dir)) <==> cut.contains(
        (Node(i as u32), Direction::Incoming),
    )) by {
        let a = (h.nodes[i].children[0], dir);
        let b = (Node(i as u32), Direction::Incoming);
        let reason = Reason::InputNode(i, dir);
        assert(h.nodes[i].children[0].0 < h.nodes.len());
        assert(h.at(b.0) == h.nodes[i]);
        assert(given(h, orders, reason));
        assert(demand_of(h, orders, reason) == (loc_meta(a), Con::Equal(loc_meta(b))));
    }
    assert forall|i: int, dir: Direction|
        #![trigger cut.contains((h.nodes[i].children[1], dir))]
        0 <= i < h.nodes.len() && h.nodes[i].dataflow_parent && h.nodes[i].children.len()
            >= 2 implies (cut.contains((h.nodes[i].children[1], dir)) <==> cut.contains(
        (Node(i as u32), Direction::Outgoing),
    )) by {
        let a = (h.nodes[i].children[1], dir);
        let b = (Node(i as u32), Direction::Outgoing);
        let reason = Reason::OutputNode(i, dir);
        assert(h.nodes[i].children[1].0 < h.nodes.len());
        assert(h.at(b.0) == h.nodes[i]);
        assert(given(h, orders, reason));
        assert(demand_of(h, orders, reason) == (loc_meta(a), Con::Equal(loc_meta(b))));
    }
    assert forall|e: int|
        0 <= e < h.edges.len() && (#[trigger] h.edges[e]).kind == EdgeKind::Value implies (
    cut.contains((h.edges[e].src, Direction::Outgoing)) <==> cut.contains(
        (h.edges[e].tgt, Direction::Incoming),
    )) by {
        let a = (h.edges[e].src, Direction::Outgoing);
        let b = (h.edges[e].tgt, Direction::Incoming);
        let reason = Reason::Wire(e);
        assert(given(h, orders, reason));
        assert(demand_of(h, orders, reason) == (loc_meta(a), Con::Equal(loc_meta(b))));
    }
}

/// Once the variables have been instantiated, no side stays unsolved.
proof fn lemma_all_solved_in_the_end(
    h: HugrModel,
    orders: Orders,
    mid: Ctx,
    end: Ctx,
    location: Loc,
)
    requires
        h.wf(),
        orders_fit(h, orders),
        meta_demand(h) <= u32::MAX,
        problem(h, orders).reaches(mid),
        mid.finished(),
        mid.all_grounded(),
        mid.instantiated().reaches(end),
        end.finished(),
        mid.locs.contains_key(location),
    ensures
        end.look(mid.locs[location]) is Some,
{
    let start = problem(h, orders);
    let next = mid.instantiated();
    let m = mid.locs[location];
    lemma_problem_wf(h, orders);
    law_solving_is_sound(start, mid);
    lemma_instantiated_wf(mid);
    law_solving_is_sound(next, end);
    assert forall|k: u32| #[trigger] next.root(k) == mid.root(k) by {}
    assert(m < mid.fresh);
    if mid.look(m) is Some {
        assert(next.look(m) == mid.look(m));
        assert(end.look(m) == next.look(m));
    } else {
        let path = choose|path: Seq<u32>| #[trigger]
            mid.is_dependency(path, m) && !mid.is_open(path.last());
        lemma_solved_back(mid, end, path, 0);
    }
}

proof fn lemma_solved_back(mid: Ctx, end: Ctx, path: Seq<u32>, k: int)
    requires
        mid.finished(),
        mid.instantiated().reaches(end),
        end.finished(),
        path.len() > 0,
        mid.is_dependency(path, path[0]),
        path[0] < mid.fresh,
        !mid.is_open(path.last()),
        0 <= k < path.len(),
    ensures
        path[k] < mid.fresh,
        end.look(path[k]) is Some,
    decreases path.len() - k,
{
    let next = mid.instantiated();
    let m = path[k];
    lemma_instantiated_wf(mid);
    law_solving_is_sound(next, end);
    law_constraints_are_met(next, end);
    assert forall|x: u32| #[trigger] next.root(x) == mid.root(x) by {}
    assert(m < mid.fresh) by {
        if k > 0 {
            assert(mid.is_open(path[k - 1]) && mid.depends(path[k - 1], path[k - 1 + 1]));
            let r = choose|r: Seq<char>| mid.has(mid.root(path[k - 1]), Con::Plus(r, m));
            assert(mid.has(mid.root(path[k - 1]), Con::Plus(r, m)));
        }
    }
    crate::infer::model::lemma_root(mid.shunted, m);
    crate::infer::model::lemma_root_bound(mid, m);
    let w = mid.root(m);
    if k == path.len() - 1 {
        if mid.look(m) is None {
            assert(mid.vars.contains(m) || mid.vars.contains(w));
            if mid.vars.contains(m) {
                assert(!mid.shunted.contains_key(m));
                assert(w == m);
            }
            assert(next.solved.contains_key(w));
        }
        assert(next.look(m) is Some);
        assert(end.look(m) == next.look(m));
    } else {
        lemma_solved_back(mid, end, path, k + 1);
        let o = path[k + 1];
        assert(mid.is_open(path[k]) && mid.depends(path[k], path[k + 1]));
        let r = choose|r: Seq<char>| mid.has(w, Con::Plus(r, o));
        assert(next.has(w, Con::Plus(r, o)));
        assert(end.met(w, r, o));
        assert(end.root(next.root(m)) == end.root(m));
        assert(end.look(w) == end.look(m));
    }
}

/// What a sum adds to is smaller.
proof fn lemma_set_shrinks(
    ctx: Ctx,
    rel: Rel,
    m: u32,
    r: Seq<char>,
    o: u32,
    upper: Exts,
    lower: Exts,
)
    requires
        ctx.in_range(),
        ctx.closed(rel),
        ctx.has(ctx.root(m), Con::Plus(r, o)),
        is_only(rel, m, upper),
        is_only(rel, o, lower),
    ensures
        upper.len() == lower.len() + 1,
{
    lemma_closed_root(ctx, rel, m);
    assert(rel(o).contains(lower));
    assert(rel(ctx.root(m)).contains(lower.insert(r)));
    assert(set![upper].contains(lower.insert(r)));
    assert(upper == lower.insert(r));
    assert(rel(ctx.root(m)).contains(upper));
    assert(rel(o).contains(upper.remove(r)));
    assert(set![lower].contains(upper.remove(r)));
    assert(lower == upper.remove(r));
}

/// Along a chain of dependencies in a problem that sets fit, the sets shrink.
#[verifier::spinoff_prover]
#[verifier::rlimit(60)]
proof fn lemma_sets_shrink(
    h: HugrModel,
    orders: Orders,
    mid: Ctx,
    rel: Rel,
    wider: Rel,
    path: Seq<u32>,
    i: int,
    j: int,
)
    requires
        h.wf(),
        orders_fit(h, orders),
        meta_demand(h) <= u32::MAX,
        mid.in_range(),
        sums_from(problem(h, orders), mid),
        mid.closed(wider),
        agree_below(problem(h, orders).fresh, rel, wider),
        forall|m: u32|
            m < problem(h, orders).fresh ==> #[trigger] has_only(rel, m),
        path.len() > 0,
        mid.is_dependency(path, path[0]),
        path[0] < problem(h, orders).fresh,
        0 <= i <= j < path.len(),
    ensures
        path[j] < problem(h, orders).fresh,
        exists|s: Exts, t: Exts| #[trigger]
            is_only(rel, path[i], s) && #[trigger] is_only(rel, path[j], t) && t.len() + (j - i)
                <= s.len(),
    decreases j,
{
    let start = problem(h, orders);
    if j == 0 {
        assert(has_only(rel, path[0]));
        let s = choose|s: Exts| is_only(rel, path[0], s);
        assert(is_only(rel, path[i], s) && is_only(rel, path[j], s));
    } else {
        assert(mid.is_open(path[j - 1]) && mid.depends(path[j - 1], path[j - 1 + 1]));
        let m = path[j - 1];
        let o = path[j];
        let r = choose|r: Seq<char>| mid.has(mid.root(m), Con::Plus(r, o));
        assert(mid.has(mid.root(m), Con::Plus(r, o)));
        lemma_problem_wf(h, orders);
        lemma_sum_of(h, orders, r, o);
        if i == j {
            assert(has_only(rel, o));
            let s = choose|s: Exts| is_only(rel, o, s);
            assert(is_only(rel, path[i], s) && is_only(rel, path[j], s));
        } else {
            lemma_sets_shrink(h, orders, mid, rel, wider, path, i, j - 1);
            let (s, u) = choose|s: Exts, u: Exts| #[trigger]
                is_only(rel, path[i], s) && #[trigger] is_only(rel, path[j - 1], u) && u.len() + (j
                    - 1 - i) <= s.len();
            assert(has_only(rel, o));
            let t = choose|t: Exts| is_only(rel, o, t);
            assert(wider(m) == rel(m) && wider(o) == rel(o));
            lemma_set_shrinks(mid, wider, m, r, o, u, t);
            assert(is_only(rel, path[i], s) && is_only(rel, path[j], t));
        }
    }
}

/// Of more metavariables than there are numbers below `n`, two are the same.
proof fn lemma_repeats(path: Seq<u32>, n: nat)
    requires
        path.len() > n,
        forall|k: int| 0 <= k < path.len() ==> (#[trigger] path[k]) < n,
    ensures
        exists|i: int, j: int|
            #![trigger path[i], path[j]]
            0 <= i < j < path.len() && path[i] == path[j],
{
    if path.no_duplicates() {
        let ints = path.map_values(|m: u32| m as int);
        assert(ints.no_duplicates());
        ints.unique_seq_to_set();
        let range = vstd::set_lib::set_int_range(0, n as int);
        vstd::set_lib::lemma_int_range(0, n as int);
        assert(ints.to_set().subset_of(range)) by {
            assert forall|x: int| ints.to_set().contains(x) implies range.contains(x) by {
                let k = choose|k: int| 0 <= k < ints.len() && ints[k] == x;
                assert(path[k] < n);
            }
        }
        vstd::set_lib::lemma_len_subset(ints.to_set(), range);
    } else {
        let (i, j) = choose|i: int, j: int|
            0 <= i < path.len() && 0 <= j < path.len() && i != j && path[i] == path[j];
        if i < j {
            assert(path[i] == path[j]);
        } else {
            assert(path[j] == path[i]);
        }
    }
}

/// A graph that some sets fit, with nothing at the input of an open root, is
/// refused only if there are sides in it that nothing tells: where each side is
/// declared, or tied to the input of the root, or to the output of an open node
/// that adds something, it is inferred.
pub proof fn law_fitting_graph_is_refused_for_sources(
    h: HugrModel,
    orders: Orders,
    mid: Ctx,
    end: Ctx,
    err: InferExtensionError,
    val: Map<Loc, Exts>,
)
    requires
        h.wf(),
        meta_demand(h) <= u32::MAX,
        inferred(h, orders, mid, end, Err(err)),
        is_fitting(h, val),
        forall|n: Node, dir: Direction|
            n.0 < h.nodes.len() ==> (#[trigger] val[(n, dir)]).finite(),
        h.nodes[0].input is None ==> val[(Node(0), Direction::Incoming)] == Set::<
            Seq<char>,
        >::empty(),
    ensures
        exists|cut: Set<Loc>, loc: Loc|
            #![trigger is_source(h, cut), cut.contains(loc)]
            is_source(h, cut) && cut.contains(loc) && loc.0.0 < h.nodes.len(),
{
    let start = problem(h, orders);
    lemma_problem_wf(h, orders);
    lemma_fitting(h, val);
    law_fitting_graph_has_no_mismatch(h, orders, mid, end, err, val);
    let location = err->Unsolved_location;
    law_solving_is_sound(start, mid);
    if !start.fails(mid, err) {
        assert(mid.instantiated().fails(end, err));
        lemma_instantiated_wf(mid);
        law_solving_is_sound(mid.instantiated(), end);
        assert(!end.clash(err));
        lemma_all_solved_in_the_end(h, orders, mid, end, location);
    }
    assert(!mid.clash(err));
    assert(mid.finished());
    let m = mid.locs[location];
    let steps = choose|steps: Seq<Step>| #[trigger]
        start.legal(steps) && start.outcome(steps) == mid;
    lemma_sums_from(start, steps);
    assert(start.locs.contains_key(location));
    lemma_loc_meta(h, location);
    let path = choose|path: Seq<u32>| mid.is_loose_end(path, m);
    assert(mid.is_dependency(path, path[0]));
    let rel = only_value(h, orders, val);
    lemma_fitting_values_solve(h, orders, val);
    lemma_finite_values(h, orders, val);
    assert(start.carries(mid, rel));
    let wider = choose|wider: Rel| #[trigger]
        mid.closed(wider) && agree_below(start.fresh, rel, wider);
    assert forall|k: int| 0 <= k < path.len() implies (#[trigger] path[k]) < start.fresh by {
        lemma_sets_shrink(h, orders, mid, rel, wider, path, 0, k);
    }
    let x = path.last();
    if path.len() > mid.fresh {
        assert forall|k: int| 0 <= k < path.len() implies (#[trigger] path[k]) < mid.fresh by {
            assert(path[k] < start.fresh);
        }
        lemma_repeats(path, mid.fresh);
        let (i, j) = choose|i: int, j: int|
            #![trigger path[i], path[j]]
            0 <= i < j < path.len() && path[i] == path[j];
        lemma_sets_shrink(h, orders, mid, rel, wider, path, i, j);
        let (s, t) = choose|s: Exts, t: Exts| #[trigger]
            is_only(rel, path[i], s) && #[trigger] is_only(rel, path[j], t) && t.len() + (j - i)
                <= s.len();
        assert(set![s].contains(s));
        assert(set![t].contains(s));
        assert(s == t);
    }
    let cut = Set::new(|loc: Loc| h.valid(loc.0) && mid.root(loc_meta(loc)) == mid.root(x));
    lemma_open_end_is_source(h, orders, mid, x, cut);
    if path.len() == 1 {
        assert(cut.contains(location));
    } else {
        let k = path.len() - 2;
        assert(mid.is_open(path[k]) && mid.depends(path[k], path[k + 1]));
        let r = choose|r: Seq<char>| mid.has(mid.root(path[k]), Con::Plus(r, x));
        assert(mid.has(mid.root(path[k]), Con::Plus(r, x)));
        lemma_sum_of(h, orders, r, x);
        if exists|q: Seq<char>, p: u32| start.has(x, Con::Plus(q, p)) {
            let (q, p) = choose|q: Seq<char>, p: u32| start.has(x, Con::Plus(q, p));
            assert(!mid.met(x, q, p));
            assert(mid.has(mid.root(x), Con::Plus(q, p)));
            assert(mid.depends(x, p));
        }
        let n = choose|n: int|
            0 <= n < h.nodes.len() && x == #[trigger] loc_meta(
                (Node(n as u32), Direction::Incoming),
            );
        let loc = (Node(n as u32), Direction::Incoming);
        assert(cut.contains(loc));
    }
}

/// A graph with what was inferred for it is the graph before, but that each open
/// node for the input of which the solution has a set declares it, whatever is
/// known of the nodes around it. Of each node, both sides are declared or both are
/// in the closure.
pub proof fn law_solution_is_written(
    before: HugrModel,
    after: HugrModel,
    orders: Orders,
    mid: Ctx,
    end: Ctx,
    solution: ExtensionSolution,
    closure: ExtensionSolution,
    i: int,
)
    requires
        before.wf(),
        meta_demand(before) <= u32::MAX,
        instantiates(before, after, orders, mid, end, solution, closure),
        0 <= i < before.nodes.len(),
    ensures
        after.edges == before.edges,
        after.nodes.len() == before.nodes.len(),
        after.nodes[i].delta == before.nodes[i].delta,
        after.nodes[i].dataflow_parent == before.nodes[i].dataflow_parent,
        after.nodes[i].dataflow_child == before.nodes[i].dataflow_child,
        after.nodes[i].order_input == before.nodes[i].order_input,
        after.nodes[i].order_output == before.nodes[i].order_output,
        after.nodes[i].parent == before.nodes[i].parent,
        after.nodes[i].children == before.nodes[i].children,
        before.nodes[i].input is Some ==> after.nodes[i].input == before.nodes[i].input,
        before.nodes[i].input is None && solution@.contains_key(
            (Node(i as u32), Direction::Incoming),
        ) ==> after.nodes[i].input == Some(
            solution@[(Node(i as u32), Direction::Incoming)]@,
        ),
        forall|dir: Direction| #[trigger]
            closure@.contains_key((Node(i as u32), dir)) <==> after.nodes[i].input is None,
{
    let node = Node(i as u32);
    let at_input = (node, Direction::Incoming);
    let at_output = (node, Direction::Outgoing);
    law_each_side_gets_a_set(before, orders, mid, end, solution, closure);
    law_written_sets_are_declared(before, solution, i);
    if before.nodes[i].input is Some {
        law_declared_sets_are_found(before, orders, mid, end, solution, closure, i);
    } else {
        law_open_nodes_add_to_their_input(before, orders, mid, end, solution, closure, i);
    }
    assert(solution@.contains_key(at_input) <==> !closure@.contains_key(at_input));
    assert(solution@.contains_key(at_output) <==> !closure@.contains_key(at_output));
    assert forall|dir: Direction| #[trigger]
        closure@.contains_key((Node(i as u32), dir)) <==> after.nodes[i].input is None by {
        match dir {
            Direction::Incoming => {},
            Direction::Outgoing => {},
        }
    }
}

/// Writing a solution into a graph declares what it has for the inputs of open
/// nodes, and changes nothing else.
pub proof fn law_written_sets_are_declared(h: HugrModel, solution: ExtensionSolution, i: int)
    requires
        h.wf(),
        0 <= i < h.nodes.len(),
    ensures
        ({
            let after = with_inputs(h, solution_sets(solution@));
            let loc = (Node(i as u32), Direction::Incoming);
            &&& after.edges == h.edges
            &&& after.nodes.len() == h.nodes.len()
            &&& after.nodes[i].delta == h.nodes[i].delta
            &&& after.nodes[i].dataflow_parent == h.nodes[i].dataflow_parent
            &&& after.nodes[i].dataflow_child == h.nodes[i].dataflow_child
            &&& after.nodes[i].order_input == h.nodes[i].order_input
            &&& after.nodes[i].order_output == h.nodes[i].order_output
            &&& after.nodes[i].parent == h.nodes[i].parent
            &&& after.nodes[i].children == h.nodes[i].children
            &&& h.nodes[i].input is Some || !solution@.contains_key(loc) ==> after.nodes[i].input
                == h.nodes[i].input
            &&& h.nodes[i].input is None && solution@.contains_key(loc) ==> after.nodes[i].input
                == Some(solution@[loc]@)
        }),
{
    let loc = (Node(i as u32), Direction::Incoming);
    assert(solution_sets(solution@).contains_key(loc) <==> solution@.contains_key(loc));
    if solution@.contains_key(loc) {
        assert(solution_sets(solution@)[loc] == solution@[loc]@);
    }
}

/// In a graph with what was inferred for it, an edge that carries a value ends at a
/// node that declares at its input what the node where it starts declares at its
/// output; or neither of the two declares anything.
pub proof fn law_inferred_edges_agree(
    before: HugrModel,
    after: HugrModel,
    orders: Orders,
    mid: Ctx,
    end: Ctx,
    solution: ExtensionSolution,
    closure: ExtensionSolution,
    e: int,
)
    requires
        before.wf(),
        meta_demand(before) <= u32::MAX,
        instantiates(before, after, orders, mid, end, solution, closure),
        0 <= e < after.edges.len(),
        after.edges[e].kind == EdgeKind::Value,
    ensures
        ({
            let src = after.nodes[after.edges[e].src.0 as int];
            let tgt = after.nodes[after.edges[e].tgt.0 as int];
            match src.input {
                Some(input) => tgt.input == Some(input.union(src.delta)),
                None => tgt.input is None,
            }
        }),
{
    let a = before.edges[e].src;
    let b = before.edges[e].tgt;
    assert(before.valid(a) && before.valid(b));
    assert(after.edges == before.edges) by {
        law_written_sets_are_declared(before, solution, 0);
    }
    law_edges_have_like_ends(before, orders, mid, end, solution, closure, e);
    law_each_side_gets_a_set(before, orders, mid, end, solution, closure);
    lemma_sides_written(before, after, orders, mid, end, solution, closure, a.0 as int);
    lemma_sides_written(before, after, orders, mid, end, solution, closure, b.0 as int);
    assert(solution@.contains_key((a, Direction::Outgoing)) <==> !closure@.contains_key(
        (a, Direction::Outgoing),
    ));
    assert(solution@.contains_key((b, Direction::Incoming)) <==> !closure@.contains_key(
        (b, Direction::Incoming),
    ));
}

/// In a graph with what was inferred for it, the first two children of a region
/// declare on both sides what the region declares at its input and at its output,
/// if it declares anything.
pub proof fn law_inferred_regions_agree(
    before: HugrModel,
    after: HugrModel,
    orders: Orders,
    mid: Ctx,
    end: Ctx,
    solution: ExtensionSolution,
    closure: ExtensionSolution,
    i: int,
)
    requires
        before.wf(),
        meta_demand(before) <= u32::MAX,
        instantiates(before, after, orders, mid, end, solution, closure),
        0 <= i < after.nodes.len(),
        after.nodes[i].dataflow_parent,
        after.nodes[i].children.len() >= 2,
        after.nodes[i].input is Some,
    ensures
        ({
            let node = after.nodes[i];
            let input = after.nodes[node.children[0].0 as int];
            let output = after.nodes[node.children[1].0 as int];
            let at_input = node.input->0;
            let at_output = at_input.union(node.delta);
            &&& input.input == Some(at_input)
            &&& at_input.union(input.delta) == at_input
            &&& output.input == Some(at_output)
            &&& at_output.union(output.delta) == at_output
        }),
{
    law_written_sets_are_declared(before, solution, 0);
    assert(after.nodes.len() == before.nodes.len());
    law_written_sets_are_declared(before, solution, i);
    let c0 = before.nodes[i].children[0];
    let c1 = before.nodes[i].children[1];
    assert(before.nodes[i].children[0].0 < before.nodes.len());
    assert(before.nodes[i].children[1].0 < before.nodes.len());
    let d = Direction::Incoming;
    let u = Direction::Outgoing;
    law_regions_are_like_their_node(before, orders, mid, end, solution, closure, i, d);
    law_regions_are_like_their_node(before, orders, mid, end, solution, closure, i, u);
    law_each_side_gets_a_set(before, orders, mid, end, solution, closure);
    lemma_sides_written(before, after, orders, mid, end, solution, closure, i);
    lemma_sides_written(before, after, orders, mid, end, solution, closure, c0.0 as int);
    lemma_sides_written(before, after, orders, mid, end, solution, closure, c1.0 as int);
    let node = Node(i as u32);
    assert(solution@.contains_key((node, d)) <==> !closure@.contains_key((node, d)));
    assert(solution@.contains_key((node, u)) <==> !closure@.contains_key((node, u)));
    assert(solution@.contains_key((c0, d)) <==> !closure@.contains_key((c0, d)));
    assert(solution@.contains_key((c0, u)) <==> !closure@.contains_key((c0, u)));
    assert(solution@.contains_key((c1, d)) <==> !closure@.contains_key((c1, d)));
    assert(solution@.contains_key((c1, u)) <==> !closure@.contains_key((c1, u)));
}

/// What a node declares after inference is what the solution has for it.
proof fn lemma_sides_written(
    before: HugrModel,
    after: HugrModel,
    orders: Orders,
    mid: Ctx,
    end: Ctx,
    solution: ExtensionSolution,
    closure: ExtensionSolution,
    i: int,
)
    requires
        before.wf(),
        meta_demand(before) <= u32::MAX,
        instantiates(before, after, orders, mid, end, solution, closure),
        0 <= i < before.nodes.len(),
    ensures
        ({
            let at_input = (Node(i as u32), Direction::Incoming);
            let at_output = (Node(i as u32), Direction::Outgoing);
            match after.nodes[i].input {
                Some(input) => {
                    &&& solution@.contains_key(at_input) && solution@[at_input]@ == input
                    &&& solution@.contains_key(at_output)
                    &&& solution@[at_output]@ == input.union(after.nodes[i].delta)
                },
                None => !solution@.contains_key(at_input) && !solution@.contains_key(at_output),
            }
        }),
{
    law_each_side_gets_a_set(before, orders, mid, end, solution, closure);
    law_written_sets_are_declared(before, solution, i);
    let at_input = (Node(i as u32), Direction::Incoming);
    let at_output = (Node(i as u32), Direction::Outgoing);
    if before.nodes[i].input is Some {
        law_declared_sets_are_found(before, orders, mid, end, solution, closure, i);
    } else {
        law_open_nodes_add_to_their_input(before, orders, mid, end, solution, closure, i);
    }
    assert(solution@.contains_key(at_input) <==> !closure@.contains_key(at_input));
    assert(solution@.contains_key(at_output) <==> !closure@.contains_key(at_output));
}

} // verus!
