//! Inference for extension requirements on nodes of a hugr.
//!
//! Checks if the extensions requirements have a solution in terms of some
//! number of starting variables, and comes up with concrete solutions when
//! possible.
//!
//! Open extension variables can come from toplevel nodes: notionally "inputs"
//! to the graph where being wired up to a larger hugr would provide the
//! information needed to solve variables. When extension requirements of nodes
//! depend on these open variables, then the validation check for extensions
//! will succeed regardless of what the variable is instantiated to.

use vstd::prelude::*;

use crate::extension_set::Exts;
use crate::hugr::{Direction, Hugr, HugrModel, Loc, Node, NodeModel};
use crate::infer::context::UnificationContext;
use crate::infer::error::InferExtensionError;
use crate::infer::model::{Con, Ctx};
use crate::infer::graph::{
    law_each_side_gets_a_set, law_solution_is_written, law_written_sets_are_declared,
};
use crate::infer::problem::{Orders, meta_demand, orders_fit, problem};
use crate::locations::{ExtensionSolution, LocMap, solution_sets};

pub mod context;
pub mod effects;
pub mod eq_graph;
pub mod error;
pub mod gen;
pub mod graph;
pub mod laws;
pub mod main_loop;
pub mod merge;
pub mod model;
pub mod problem;
pub mod results;
pub mod run;
pub mod solve;
pub mod steps;
pub mod wires;

verus! {

/// Whether inference for graph `h` may give `result`: its problem, with the
/// extensions of each node taken in the order that `orders` gives, is solved
/// up to `mid`; then, with the variables instantiated, up to `end`.
pub open spec fn inferred(
    h: HugrModel,
    orders: Orders,
    mid: Ctx,
    end: Ctx,
    result: Result<(ExtensionSolution, ExtensionSolution), InferExtensionError>,
) -> bool {
    let start = problem(h, orders);
    &&& orders_fit(h, orders)
    &&& match result {
        Ok((solution, closure)) => {
            &&& solution.wf()
            &&& closure.wf()
            &&& start.succeeds(mid, solution_sets(solution@))
            &&& mid.instantiated().succeeds(end, end.found())
            &&& solution_sets(closure@) == end.found().remove_keys(solution@.dom())
        },
        Err(err) => {
            ||| start.fails(mid, err)
            ||| start.succeeds(mid, mid.found()) && mid.instantiated().fails(end, err)
        },
    }
}

/// Instantiating variables leaves a problem well-formed.
pub proof fn lemma_instantiated_wf(ctx: Ctx)
    requires
        ctx.finished(),
    ensures
        ctx.instantiated().wf(),
        ctx.instantiated().settled(),
{
    let after = ctx.instantiated();
    assert forall|m: u32, c: Con| #[trigger] after.has(m, c) == ctx.has(m, c) by {}
    assert forall|m: u32| #[trigger] after.root(m) == ctx.root(m) by {}
}

/// Infer extensions for a hugr. This is the main API exposed by this module
///
/// Return a tuple of the solutions found for locations on the graph, and a
/// closure: a solution which would be valid if all of the variables in the graph
/// were instantiated to an empty extension set. This is used (by validation) to
/// concretise the extension requirements of the whole hugr.
pub fn infer_extensions(hugr: &Hugr) -> (result: Result<
    (ExtensionSolution, ExtensionSolution),
    InferExtensionError,
>)
    requires
        hugr@.wf(),
        2 * meta_demand(hugr@) <= u32::MAX,
    ensures
        exists|orders: Orders, mid: Ctx, end: Ctx| inferred(hugr@, orders, mid, end, result),
{
    let mut ctx = UnificationContext::new(hugr);
    let ghost orders = choose|orders: Orders| #[trigger]
        orders_fit(hugr@, orders) && ctx@ == problem(hugr@, orders);
    let first = ctx.main_loop();
    let ghost mid = ctx@;
    let solution = match first {
        Ok(solution) => solution,
        Err(err) => {
            assert(inferred(hugr@, orders, mid, mid, Err(err)));
            return Err(err);
        },
    };
    proof {
        lemma_instantiated_wf(mid);
    }
    ctx.instantiate_variables();
    let second = ctx.main_loop();
    let ghost end = ctx@;
    let closed_solution = match second {
        Ok(closed_solution) => closed_solution,
        Err(err) => {
            assert(inferred(hugr@, orders, mid, end, Err(err)));
            return Err(err);
        },
    };
    let closure = without(&closed_solution, &solution);
    assert(inferred(hugr@, orders, mid, end, Ok((solution, closure))));
    Ok((solution, closure))
}

/// The graph in which each open node declares the set that `sets` has for its
/// input, if it has one.
pub open spec fn with_inputs(h: HugrModel, sets: Map<Loc, Exts>) -> HugrModel {
    HugrModel {
        nodes: Seq::new(
            h.nodes.len(),
            |i: int|
                {
                    let loc = (Node(i as u32), Direction::Incoming);
                    if h.nodes[i].input is None && sets.contains_key(loc) {
                        NodeModel { input: Some(sets[loc]), ..h.nodes[i] }
                    } else {
                        h.nodes[i]
                    }
                },
        ),
        edges: h.edges,
    }
}

/// Whether `after` is `before` with the solution that was inferred for it, and
/// `closure` the closure.
pub open spec fn instantiates(
    before: HugrModel,
    after: HugrModel,
    orders: Orders,
    mid: Ctx,
    end: Ctx,
    solution: ExtensionSolution,
    closure: ExtensionSolution,
) -> bool {
    &&& inferred(before, orders, mid, end, Ok((solution, closure)))
    &&& after == with_inputs(before, solution_sets(solution@))
}

/// Whether inference for `before` may lead to `after` and `closure`.
pub open spec fn may_instantiate(
    before: HugrModel,
    after: HugrModel,
    closure: ExtensionSolution,
) -> bool {
    exists|orders: Orders, mid: Ctx, end: Ctx, solution: ExtensionSolution|
        instantiates(before, after, orders, mid, end, solution, closure)
}

/// Whether inference for `h` may fail with `err`.
pub open spec fn may_fail(h: HugrModel, err: InferExtensionError) -> bool {
    exists|orders: Orders, mid: Ctx, end: Ctx| inferred(h, orders, mid, end, Err(err))
}

impl Hugr {
    /// Infer extension requirements and add the solutions found to the open
    /// nodes of the graph. Returns the closure.
    pub fn infer_extensions(&mut self) -> (result: Result<ExtensionSolution, InferExtensionError>)
        requires
            old(self)@.wf(),
            2 * meta_demand(old(self)@) <= u32::MAX,
        ensures
            final(self)@.wf(),
            match result {
                Ok(closure) => {
                    &&& may_instantiate(old(self)@, final(self)@, closure)
                    &&& final(self)@.edges == old(self)@.edges
                    &&& final(self)@.nodes.len() == old(self)@.nodes.len()
                    &&& forall|i: int|
                        0 <= i < old(self)@.nodes.len() && (
                        #[trigger] old(self)@.nodes[i]).input is Some ==> final(self)@.nodes[i]
                            == old(self)@.nodes[i]
                    &&& forall|n: Node, dir: Direction| #[trigger]
                        closure@.contains_key((n, dir)) <==> n.0 < final(self)@.nodes.len()
                            && final(self)@.nodes[n.0 as int].input is None
                },
                Err(err) => may_fail(old(self)@, err) && final(self)@ == old(self)@,
            },
    {
        let ghost h = self@;
        let result = infer_extensions(&*self);
        let ghost (orders, mid, end) = choose|orders: Orders, mid: Ctx, end: Ctx|
            inferred(h, orders, mid, end, result);
        match result {
            Ok((solution, closure)) => {
                self.instantiate_extensions(&solution);
                assert(instantiates(h, self@, orders, mid, end, solution, closure));
                assert(may_instantiate(h, self@, closure));
                proof {
                    assert forall|i: int|
                        0 <= i < h.nodes.len() && (
                        #[trigger] h.nodes[i]).input is Some implies self@.nodes[i]
                        == h.nodes[i] by {}
                    law_each_side_gets_a_set(h, orders, mid, end, solution, closure);
                    assert forall|n: Node, dir: Direction| #[trigger]
                        closure@.contains_key((n, dir)) <==> n.0 < self@.nodes.len()
                            && self@.nodes[n.0 as int].input is None by {
                        if n.0 < h.nodes.len() {
                            assert(Node(n.0 as int as u32) == n);
                            law_solution_is_written(
                                h,
                                self@,
                                orders,
                                mid,
                                end,
                                solution,
                                closure,
                                n.0 as int,
                            );
                        }
                    }
                }
                Ok(closure)
            },
            Err(err) => {
                assert(may_fail(h, err));
                Err(err)
            },
        }
    }

    /// Adds a solution to the open nodes of the graph.
    pub fn instantiate_extensions(&mut self, solution: &ExtensionSolution)
        requires
            old(self)@.wf(),
        ensures
            final(self)@.wf(),
            final(self)@ == with_inputs(old(self)@, solution_sets(solution@)),
            final(self)@.edges == old(self)@.edges,
            final(self)@.nodes.len() == old(self)@.nodes.len(),
            forall|i: int|
                0 <= i < old(self)@.nodes.len() ==> {
                    let loc = (Node(i as u32), Direction::Incoming);
                    let input = (#[trigger] old(self)@.nodes[i]).input;
                    final(self)@.nodes[i].input == (if input is None && solution@.contains_key(
                        loc,
                    ) {
                        Some(solution@[loc]@)
                    } else {
                        input
                    })
                },
    {
        let ghost h = self@;
        let ghost sets = solution_sets(solution@);
        let n = self.node_count();
        let mut i: usize = 0;
        while i < n
            invariant
                h == old(self)@,
                sets == solution_sets(solution@),
                n == h.nodes.len(),
                i <= n,
                self@.wf(),
                self@.edges == h.edges,
                self@.nodes.len() == n,
                forall|k: int|
                    0 <= k < n ==> #[trigger] self@.nodes[k] == (if k < i {
                        with_inputs(h, sets).nodes[k]
                    } else {
                        h.nodes[k]
                    }),
            decreases n - i,
        {
            let node = Node(i as u32);
            assert(self@.nodes[i as int] == h.nodes[i as int]);
            if self.get_nodetype(node).input_extensions.is_none() {
                if let Some(set) = solution.get(&(node, Direction::Incoming)) {
                    assert(sets[(node, Direction::Incoming)] == set@);
                    self.set_input_extensions(node, set.clone());
                }
            }
            i += 1;
        }
        proof {
            assert(self@.nodes =~= with_inputs(h, sets).nodes);
            assert forall|k: int| 0 <= k < h.nodes.len() implies {
                let loc = (Node(k as u32), Direction::Incoming);
                let input = (#[trigger] h.nodes[k]).input;
                self@.nodes[k].input == (if input is None && solution@.contains_key(loc) {
                    Some(solution@[loc]@)
                } else {
                    input
                })
            } by {
                law_written_sets_are_declared(h, *solution, k);
            }
        }
    }
}

/// The entries of `map` at locations that `other` has no entry for.
fn without(map: &ExtensionSolution, other: &ExtensionSolution) -> (rest: ExtensionSolution)
    requires
        map.wf(),
    ensures
        rest.wf(),
        solution_sets(rest@) == solution_sets(map@).remove_keys(other@.dom()),
{
    let n = map.len();
    let mut rest: ExtensionSolution = LocMap::new();
    let mut i: usize = 0;
    while i < n
        invariant
            map.wf(),
            rest.wf(),
            n == map.order().len(),
            i <= n,
            forall|loc: Loc| #[trigger]
                rest@.contains_key(loc) ==> map@.contains_key(loc) && !other@.contains_key(loc)
                    && rest@[loc]@ == map@[loc]@,
            forall|j: int|
                #![trigger map.order()[j]]
                0 <= j < i && !other@.contains_key(map.order()[j]) ==> rest@.contains_key(
                    map.order()[j],
                ),
        decreases n - i,
    {
        let loc = map.location(i);
        if !other.contains_key(&loc) {
            match map.get(&loc) {
                Some(set) => {
                    rest.insert(loc, set.clone());
                },
                None => {
                    assert(false);
                },
            }
        }
        i += 1;
    }
    proof {
        map.lemma_order();
        let expected = solution_sets(map@).remove_keys(other@.dom());
        assert forall|loc: Loc| #[trigger]
            solution_sets(rest@).contains_key(loc) <==> expected.contains_key(loc) by {
            if expected.contains_key(loc) {
                assert(map@.dom().contains(loc));
                assert(map.order().to_set().contains(loc));
                let j = choose|j: int| 0 <= j < n && map.order()[j] == loc;
                assert(rest@.contains_key(map.order()[j]));
            }
            if solution_sets(rest@).contains_key(loc) {
                assert(rest@.contains_key(loc));
            }
        }
        assert forall|loc: Loc| #[trigger]
            solution_sets(rest@).contains_key(loc) implies solution_sets(rest@)[loc]
            == expected[loc] by {
            assert(rest@.contains_key(loc));
        }
        assert(solution_sets(rest@) =~= expected);
    }
    rest
}

} // verus!
