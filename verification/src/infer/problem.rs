//! The unification problem that a graph poses.

use vstd::prelude::*;

use crate::extension_set::Exts;
use crate::hugr::{Direction, EdgeKind, HugrModel, Loc, Node};
use crate::infer::model::{Con, Ctx};

verus! {

/// The metavariable of a location.
pub open spec fn loc_meta(loc: Loc) -> u32 {
    match loc.1 {
        Direction::Incoming => (2 * loc.0.0) as u32,
        Direction::Outgoing => (2 * loc.0.0 + 1) as u32,
    }
}

/// The location of a metavariable.
pub open spec fn meta_loc(m: u32) -> Loc {
    (
        Node((m / 2) as u32),
        if m % 2 == 0 {
            Direction::Incoming
        } else {
            Direction::Outgoing
        },
    )
}

/// For each node, an order in which the extensions that it adds are taken, if
/// its input is open.
pub type Orders = Seq<Seq<Seq<char>>>;

/// The first metavariable in the chain of node `n`: those of the locations come
/// first, then the chains of the nodes in turn.
pub open spec fn chain_start(h: HugrModel, orders: Orders, n: int) -> int
    decreases n,
{
    if n <= 0 {
        2 * h.nodes.len() as int
    } else {
        chain_start(h, orders, n - 1) + orders[n - 1].len()
    }
}

/// Whether each open node has its extensions in some order, each once.
pub open spec fn orders_fit(h: HugrModel, orders: Orders) -> bool {
    &&& orders.len() == h.nodes.len()
    &&& forall|n: int| 0 <= n < orders.len() ==> order_fits(h, n, #[trigger] orders[n])
}

/// Whether `order` lists the extensions of node `n` once each, or nothing if
/// its input is known.
pub open spec fn order_fits(h: HugrModel, n: int, order: Seq<Seq<char>>) -> bool {
    if h.nodes[n].input is None {
        &&& order.no_duplicates()
        &&& order.to_set() == h.nodes[n].delta
        &&& order.len() == h.nodes[n].delta.len()
        &&& h.nodes[n].delta.finite()
    } else {
        order.len() == 0
    }
}

/// How many metavariables the first `n` nodes ask for besides those of the
/// locations: one for each extension that an open node adds.
pub open spec fn chain_demand(h: HugrModel, n: int) -> nat
    decreases n,
{
    if n <= 0 {
        0
    } else {
        chain_demand(h, n - 1) + (if h.nodes[n - 1].input is None {
            h.nodes[n - 1].delta.len()
        } else {
            0
        })
    }
}

/// How many metavariables a graph asks for.
pub open spec fn meta_demand(h: HugrModel) -> nat {
    2 * h.nodes.len() + chain_demand(h, h.nodes.len() as int)
}

/// Why there is a constraint.
pub enum Reason {
    /// The side of the input node of a region is like the input of the region.
    InputNode(int, Direction),
    /// The side of the output node of a region is like the output of the region.
    OutputNode(int, Direction),
    /// The metavariable in the chain of an open node adds an extension to the
    /// one before it.
    Link(int, int),
    /// The output of an open node is where its chain ends.
    End(int),
    /// The source of an edge that carries a value is like its target.
    Wire(int),
}

/// Whether the graph gives the reason.
pub open spec fn given(h: HugrModel, orders: Orders, reason: Reason) -> bool {
    match reason {
        Reason::InputNode(p, _) => 0 <= p < h.nodes.len() && h.io(Node(p as u32)) is Some,
        Reason::OutputNode(p, _) => 0 <= p < h.nodes.len() && h.io(Node(p as u32)) is Some,
        Reason::Link(n, k) => 0 <= n < h.nodes.len() && h.nodes[n].input is None && 0 <= k
            < orders[n].len(),
        Reason::End(n) => 0 <= n < h.nodes.len() && h.nodes[n].input is None,
        Reason::Wire(e) => 0 <= e < h.edges.len() && h.edges[e].kind == EdgeKind::Value,
    }
}

/// The metavariable before the `k`th in the chain of node `n`.
pub open spec fn chain_before(h: HugrModel, orders: Orders, n: int, k: int) -> u32 {
    if k == 0 {
        loc_meta((Node(n as u32), Direction::Incoming))
    } else {
        (chain_start(h, orders, n) + k - 1) as u32
    }
}

/// The constraint for a reason, and the metavariable that it is on.
pub open spec fn demand_of(h: HugrModel, orders: Orders, reason: Reason) -> (u32, Con) {
    match reason {
        Reason::InputNode(p, dir) => (
            loc_meta(((h.io(Node(p as u32))->0).0, dir)),
            Con::Equal(loc_meta((Node(p as u32), Direction::Incoming))),
        ),
        Reason::OutputNode(p, dir) => (
            loc_meta(((h.io(Node(p as u32))->0).1, dir)),
            Con::Equal(loc_meta((Node(p as u32), Direction::Outgoing))),
        ),
        Reason::Link(n, k) => (
            (chain_start(h, orders, n) + k) as u32,
            Con::Plus(orders[n][k], chain_before(h, orders, n, k)),
        ),
        Reason::End(n) => (
            loc_meta((Node(n as u32), Direction::Outgoing)),
            Con::Equal(chain_before(h, orders, n, orders[n].len() as int)),
        ),
        Reason::Wire(e) => (
            loc_meta((h.edges[e].src, Direction::Outgoing)),
            Con::Equal(loc_meta((h.edges[e].tgt, Direction::Incoming))),
        ),
    }
}

/// Whether some reason of the graph puts constraint `c` on `m`.
pub open spec fn asked(h: HugrModel, orders: Orders, m: u32, c: Con) -> bool {
    exists|reason: Reason| #[trigger]
        given(h, orders, reason) && demand_of(h, orders, reason) == (m, c)
}

/// The solutions that the nodes declare.
pub open spec fn declared_solutions(h: HugrModel) -> Map<u32, Exts> {
    Map::new(
        |m: u32| m < 2 * h.nodes.len() && h.declared(meta_loc(m)) is Some,
        |m: u32| h.declared(meta_loc(m))->0,
    )
}

/// The unification problem of a graph: a metavariable for each location, a
/// chain of them for each open node, a constraint for each reason, the declared
/// sets as solutions, and the input of the root as a variable if it is open.
pub open spec fn problem(h: HugrModel, orders: Orders) -> Ctx {
    let fresh = chain_start(h, orders, h.nodes.len() as int) as nat;
    Ctx {
        cons: Map::new(|m: u32| m < fresh, |m: u32| Set::new(|c: Con| asked(h, orders, m, c))),
        locs: Map::new(|loc: Loc| h.valid(loc.0), |loc: Loc| loc_meta(loc)),
        solved: declared_solutions(h),
        shunted: Map::empty(),
        vars: if h.nodes[0].input is None {
            set![loc_meta((Node(0), Direction::Incoming))]
        } else {
            Set::empty()
        },
        fresh,
        eqs: Set::empty(),
        eq_nodes: Set::empty(),
    }
}

/// A metavariable and its location determine each other.
pub proof fn lemma_loc_meta(h: HugrModel, loc: Loc)
    requires
        h.valid(loc.0),
        2 * h.nodes.len() <= u32::MAX,
    ensures
        meta_loc(loc_meta(loc)) == loc,
        loc_meta(loc) < 2 * h.nodes.len(),
        loc_meta(loc) == (match loc.1 {
            Direction::Incoming => 2 * loc.0.0,
            Direction::Outgoing => 2 * loc.0.0 + 1,
        }),
{
}

/// Chains come one after the other.
pub proof fn lemma_chain_start(h: HugrModel, orders: Orders, n: int, p: int)
    requires
        0 <= n <= p,
    ensures
        2 * h.nodes.len() <= chain_start(h, orders, n) <= chain_start(h, orders, p),
        n < p ==> chain_start(h, orders, n) + orders[n].len() <= chain_start(h, orders, p),
    decreases p,
{
    if p > 0 {
        if n < p {
            lemma_chain_start(h, orders, n, p - 1);
        } else {
            lemma_chain_start(h, orders, n - 1, p - 1);
        }
    }
}

/// The chains take as many metavariables as the open nodes add extensions.
pub proof fn lemma_chain_demand(h: HugrModel, orders: Orders, n: int)
    requires
        0 <= n <= h.nodes.len(),
        orders.len() >= n,
        forall|k: int| 0 <= k < n ==> order_fits(h, k, #[trigger] orders[k]),
    ensures
        chain_start(h, orders, n) == 2 * h.nodes.len() + chain_demand(h, n),
    decreases n,
{
    if n > 0 {
        lemma_chain_demand(h, orders, n - 1);
        assert(order_fits(h, n - 1, orders[n - 1]));
    }
}

/// What the reasons ask for speaks of metavariables of the problem.
pub proof fn lemma_demand_bound(h: HugrModel, orders: Orders, reason: Reason)
    requires
        h.wf(),
        orders_fit(h, orders),
        meta_demand(h) <= u32::MAX,
        given(h, orders, reason),
    ensures
        demand_of(h, orders, reason).0 < meta_demand(h),
        match demand_of(h, orders, reason).1 {
            Con::Equal(o) => o < meta_demand(h),
            Con::Plus(_, o) => o < meta_demand(h),
        },
{
    let len = h.nodes.len() as int;
    lemma_chain_demand(h, orders, len);
    match reason {
        Reason::InputNode(p, dir) => {
            let children = h.nodes[p].children;
            assert(h.nodes[p].children[0].0 < len);
            lemma_loc_meta(h, (children[0], dir));
            lemma_loc_meta(h, (Node(p as u32), Direction::Incoming));
        },
        Reason::OutputNode(p, dir) => {
            let children = h.nodes[p].children;
            assert(h.nodes[p].children[1].0 < len);
            lemma_loc_meta(h, (children[1], dir));
            lemma_loc_meta(h, (Node(p as u32), Direction::Outgoing));
        },
        Reason::Link(n, k) => {
            lemma_chain_start(h, orders, n, len);
            lemma_loc_meta(h, (Node(n as u32), Direction::Incoming));
        },
        Reason::End(n) => {
            lemma_chain_start(h, orders, n, len);
            lemma_loc_meta(h, (Node(n as u32), Direction::Incoming));
            lemma_loc_meta(h, (Node(n as u32), Direction::Outgoing));
        },
        Reason::Wire(e) => {
            lemma_loc_meta(h, (h.edges[e].src, Direction::Outgoing));
            lemma_loc_meta(h, (h.edges[e].tgt, Direction::Incoming));
        },
    }
}

/// The problem of a graph is well-formed.
pub proof fn lemma_problem_wf(h: HugrModel, orders: Orders)
    requires
        h.wf(),
        orders_fit(h, orders),
        meta_demand(h) <= u32::MAX,
    ensures
        problem(h, orders).wf(),
        problem(h, orders).at_rest(),
        problem(h, orders).fresh == meta_demand(h),
{
    let ctx = problem(h, orders);
    lemma_chain_demand(h, orders, h.nodes.len() as int);
    assert forall|m: u32, o: u32| #[trigger] ctx.has(m, Con::Equal(o)) implies o < ctx.fresh by {
        assert(asked(h, orders, m, Con::Equal(o)));
        let reason = choose|reason: Reason| #[trigger]
            given(h, orders, reason) && demand_of(h, orders, reason) == (m, Con::Equal(o));
        lemma_demand_bound(h, orders, reason);
    }
    assert forall|m: u32, r: Seq<char>, o: u32| #[trigger]
        ctx.has(m, Con::Plus(r, o)) implies o < ctx.fresh by {
        assert(asked(h, orders, m, Con::Plus(r, o)));
        let reason = choose|reason: Reason| #[trigger]
            given(h, orders, reason) && demand_of(h, orders, reason) == (m, Con::Plus(r, o));
        lemma_demand_bound(h, orders, reason);
    }
    assert forall|loc: Loc| #[trigger] ctx.locs.contains_key(loc) implies ctx.locs[loc]
        < ctx.fresh by {
        lemma_loc_meta(h, loc);
    }
    lemma_loc_meta(h, (Node(0), Direction::Incoming));
}

} // verus!
