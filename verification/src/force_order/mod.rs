//! Provides [force_order], a tool for fixing the order of nodes in a graph.

use vstd::prelude::*;

use crate::force_order::walk::{
    ForceOrder, Region, best_at, greedy, ranks_given, region, totally_ordered,
};
use crate::graphs::{
    OrderGraph, order_edges, order_graph_add_edge, order_graph_add_node, order_graph_new,
    order_nodes,
};
use crate::hugr::{Edge, EdgeKind, Hugr, HugrError, HugrModel, Node};

pub mod laws;
pub mod regions;
pub mod walk;

verus! {

/// Whether node `n` is `root` or somewhere below it.
pub open spec fn is_below(h: HugrModel, root: Node, n: int) -> bool
    decreases n,
{
    n == root.0 || {
        &&& 0 < n
        &&& h.nodes[n].parent matches Some(p)
        &&& p.0 < n
        &&& is_below(h, root, p.0 as int)
    }
}

/// Whether `dp` is a dataflow parent at or below `root`.
pub open spec fn is_region(h: HugrModel, root: Node, dp: Node) -> bool {
    h.valid(dp) && h.at(dp).dataflow_parent && is_below(h, root, dp.0 as int)
}

/// The children of `dp` and the edges between them.
pub open spec fn siblings(h: HugrModel, dp: Node) -> Region {
    Region {
        nodes: h.at(dp).children.to_set(),
        edges: Set::new(
            |e: (Node, Node)|
                h.at(dp).children.contains(e.0) && h.at(dp).children.contains(e.1) && h.joins(
                    e.0,
                    e.1,
                ),
        ),
    }
}

/// Whether `order` is the order of the children of `dp` for the given ranks:
/// as long as some child may come next, the preferred one does.
pub open spec fn is_order<K: Ord>(
    h: HugrModel,
    dp: Node,
    ranks: Map<Node, K>,
    order: Seq<Node>,
) -> bool {
    greedy(siblings(h, dp), ranks, order)
}

/// The nodes of `order` that are part of the dataflow.
pub open spec fn dataflow_nodes(h: HugrModel, order: Seq<Node>) -> Seq<Node> {
    order.filter(|n: Node| h.at(n).dataflow_child)
}

/// Whether order edges may lead from each node of `chain` to the next.
pub open spec fn can_chain(h: HugrModel, chain: Seq<Node>) -> bool {
    forall|i: int, j: int|
        #![trigger chain[i], chain[j]]
        0 <= i < chain.len() && j == i + 1 && j < chain.len() ==> h.at(chain[i]).order_output && h.at(
            chain[j],
        ).order_input
}

/// The order edges for the first `i` steps along `chain`: one for each step that
/// no edge leads along yet.
pub open spec fn chain_edges(h: HugrModel, chain: Seq<Node>, i: int) -> Seq<Edge>
    decreases i,
{
    if i <= 0 {
        Seq::empty()
    } else {
        let rest = chain_edges(h, chain, i - 1);
        if h.joins(chain[i - 1], chain[i]) {
            rest
        } else {
            rest.push(Edge { src: chain[i - 1], tgt: chain[i], kind: EdgeKind::StateOrder })
        }
    }
}

/// The order edges for a region whose children are in `order`.
pub open spec fn region_edges(h: HugrModel, order: Seq<Node>) -> Seq<Edge> {
    let chain = dataflow_nodes(h, order);
    chain_edges(h, chain, chain.len() - 1)
}

/// The order edges for the regions among the first `n` nodes, where `orders`
/// holds the order of the children of each region.
pub open spec fn order_edges_below(
    h: HugrModel,
    root: Node,
    orders: Seq<Seq<Node>>,
    n: int,
) -> Seq<Edge>
    decreases n,
{
    if n <= 0 {
        Seq::empty()
    } else {
        let rest = order_edges_below(h, root, orders, n - 1);
        if is_region(h, root, Node((n - 1) as u32)) {
            rest + region_edges(h, orders[n - 1])
        } else {
            rest
        }
    }
}

/// Whether `orders` holds an order for each region at or below `root`, for ranks
/// that the ranking may give.
pub open spec fn orders_given<K: Ord, F: Fn(Node) -> K>(
    h: HugrModel,
    root: Node,
    ranking: F,
    orders: Seq<Seq<Node>>,
) -> bool {
    &&& orders.len() == h.nodes.len()
    &&& forall|dp: Node| #[trigger]
        is_region(h, root, dp) ==> has_order(h, dp, ranking, orders[dp.0 as int])
}

/// Whether the children of `dp` may come to be in `order`.
pub open spec fn has_order<K: Ord, F: Fn(Node) -> K>(
    h: HugrModel,
    dp: Node,
    ranking: F,
    order: Seq<Node>,
) -> bool {
    exists|ranks: Map<Node, K>| #[trigger]
        is_order(h, dp, ranks, order) && ranks_given(ranking, ranks)
}

/// Whether every order that the children of a region may come to be in can be
/// expressed by order edges.
pub open spec fn can_be_forced<K: Ord, F: Fn(Node) -> K>(
    h: HugrModel,
    root: Node,
    ranking: F,
) -> bool {
    forall|dp: Node, order: Seq<Node>|
        is_region(h, root, dp) && #[trigger] has_order(h, dp, ranking, order) ==> can_chain(
            h,
            dataflow_nodes(h, order),
        )
}

/// `after` is `before` with order edges for all regions at or below `root`.
pub open spec fn order_forced<K: Ord, F: Fn(Node) -> K>(
    before: HugrModel,
    after: HugrModel,
    root: Node,
    ranking: F,
    orders: Seq<Seq<Node>>,
) -> bool {
    &&& orders_given(before, root, ranking, orders)
    &&& after.nodes == before.nodes
    &&& after.edges == before.edges + order_edges_below(
        before,
        root,
        orders,
        before.nodes.len() as int,
    )
}

/// Insert order edges into a graph according to a rank function.
///
/// All dataflow parents which are transitive children of `root`, including
/// `root` itself, will have their dataflow regions ordered.
///
/// Dataflow regions are ordered by inserting order edges between their
/// immediate children. A dataflow parent with `C` children will have at most
/// `C-1` edges added. Any node that can be ordered will be.
///
/// Nodes are ordered according to the `rank` function but respecting the order
/// required for their dependencies (edges). The algorithm will put nodes of
/// lower rank earlier in their parent whenever (transitive) dependencies allow.
/// If `rank(n1) < rank(n2)` then `n1` will be ordered before `n2` so long as
/// there is no path from `n2` to `n1`, unless edges and ranks together wish for
/// nodes to be ordered in a cycle.
/// Nodes of equal rank will be ordered arbitrarily, although that arbitrary
/// order is deterministic.
pub fn force_order<F: Fn(Node) -> i64>(hugr: &mut Hugr, root: Node, rank: F) -> (result: Result<
    (),
    HugrError,
>)
    requires
        old(hugr)@.wf(),
        forall|n: Node| #[trigger] old(hugr)@.valid(n) ==> call_requires(rank, (n,)),
        can_be_forced::<i64, F>(old(hugr)@, root, rank),
    ensures
        final(hugr)@.wf(),
        match result {
            Ok(()) => old(hugr)@.valid(root) && exists|orders: Seq<Seq<Node>>|
                order_forced::<i64, F>(old(hugr)@, final(hugr)@, root, rank, orders),
            Err(HugrError::InvalidNode(node)) => {
                &&& node == root
                &&& !old(hugr)@.valid(root)
                &&& final(hugr)@ == old(hugr)@
            },
        },
{
    broadcast use vstd::laws_cmp::group_laws_cmp;

    force_order_by_key(hugr, root, rank)
}

/// As [force_order], but allows a generic [Ord] choice for the result of the
/// `rank` function.
pub fn force_order_by_key<K: Ord, F: Fn(Node) -> K>(
    hugr: &mut Hugr,
    root: Node,
    rank: F,
) -> (result: Result<(), HugrError>)
    requires
        totally_ordered::<K>(),
        old(hugr)@.wf(),
        forall|n: Node| #[trigger] old(hugr)@.valid(n) ==> call_requires(rank, (n,)),
        can_be_forced::<K, F>(old(hugr)@, root, rank),
    ensures
        final(hugr)@.wf(),
        match result {
            Ok(()) => old(hugr)@.valid(root) && exists|orders: Seq<Seq<Node>>|
                order_forced::<K, F>(old(hugr)@, final(hugr)@, root, rank, orders),
            Err(HugrError::InvalidNode(node)) => {
                &&& node == root
                &&& !old(hugr)@.valid(root)
                &&& final(hugr)@ == old(hugr)@
            },
        },
{
    if !hugr.contains_node(root) {
        return Err(HugrError::InvalidNode(root));
    }
    let ghost h = hugr@;
    let ghost mut orders: Seq<Seq<Node>> = Seq::empty();
    let n = hugr.node_count();
    let mut i: usize = 0;
    assert(hugr@.edges =~= h.edges + Seq::<Edge>::empty());
    while i < n
        invariant
            totally_ordered::<K>(),
            h.wf(),
            h == old(hugr)@,
            forall|m: Node| #[trigger] h.valid(m) ==> call_requires(rank, (m,)),
            can_be_forced::<K, F>(h, root, rank),
            n == h.nodes.len(),
            i <= n,
            orders.len() == i,
            hugr@.wf(),
            hugr@.nodes == h.nodes,
            hugr@.edges == h.edges + order_edges_below(h, root, orders, i as int),
            forall|dp: Node|
                dp.0 < i && #[trigger] is_region(h, root, dp) ==> has_order(
                    h,
                    dp,
                    rank,
                    orders[dp.0 as int],
                ),
            forall|dp: Node|
                dp.0 < i && #[trigger] is_region(h, root, dp) ==> in_region(
                    h,
                    dp,
                    orders[dp.0 as int],
                ),
        decreases n - i,
    {
        let dp = Node(i as u32);
        let ghost before = orders;
        let is_dp = hugr.get_nodetype(dp).op.dataflow_parent && below(hugr, root, dp);
        assert(is_dp == is_region(h, root, dp)) by {
            lemma_below_nodes(h, hugr@, root, i as int);
        }
        if is_dp {
            let ghost pre = order_edges_below(h, root, before, i as int);
            proof {
                lemma_edges_below(h, root, before, i as int);
                lemma_siblings_like(h, hugr@, pre, dp);
                assert forall|m: Node| #[trigger] hugr@.valid(m) implies call_requires(
                    rank,
                    (m,),
                ) by {
                    assert(h.valid(m));
                }
            }
            let order = region_order(hugr, dp, &rank);
            let ghost ranks = choose|ranks: Map<Node, K>| #[trigger]
                is_order(hugr@, dp, ranks, order@) && ranks_given(rank, ranks);
            proof {
                assert(is_order(h, dp, ranks, order@));
                orders = orders.push(order@);
                lemma_order_in_region(h, dp, ranks, order@);
                lemma_chain_in_region(h, dp, order@);
                assert forall|k: int| 0 <= k < order@.len() implies hugr@.valid(
                    #[trigger] order@[k],
                ) by {
                    lemma_child_valid(h, dp, order@[k]);
                }
                lemma_dataflow_nodes_like(h, hugr@, order@);
                lemma_chain_apart(h, dp, pre, dataflow_nodes(h, order@));
            }
            let chain = keep_dataflow(hugr, &order);
            link_chain(hugr, &chain, Ghost(h), Ghost(pre));
            proof {
                lemma_edges_below_like(h, root, before, orders, i as int);
                assert(h.edges + pre + region_edges(h, order@) =~= h.edges + (pre + region_edges(
                    h,
                    order@,
                )));
            }
        } else {
            proof {
                orders = orders.push(Seq::empty());
                lemma_edges_below_like(h, root, before, orders, i as int);
            }
        }
        proof {
            assert forall|d: Node| d.0 < i + 1 && #[trigger] is_region(h, root, d) implies has_order(
                h,
                d,
                rank,
                orders[d.0 as int],
            ) && in_region(h, d, orders[d.0 as int]) by {
                if d.0 < i {
                    assert(orders[d.0 as int] == before[d.0 as int]);
                } else {
                    assert(d == dp);
                }
            }
        }
        i += 1;
    }
    assert(order_forced::<K, F>(h, hugr@, root, rank, orders));
    Ok(())
}

/// Whether `order` lists children of `dp`, each at most once.
pub open spec fn in_region(h: HugrModel, dp: Node, order: Seq<Node>) -> bool {
    &&& order.no_duplicates()
    &&& forall|i: int| 0 <= i < order.len() ==> h.at(dp).children.contains(#[trigger] order[i])
}

/// Whether node `n` is `root` or somewhere below it.
fn below(hugr: &Hugr, root: Node, n: Node) -> (found: bool)
    requires
        hugr@.wf(),
        hugr@.valid(n),
    ensures
        found == is_below(hugr@, root, n.0 as int),
{
    let mut m = n;
    loop
        invariant
            hugr@.wf(),
            hugr@.valid(m),
            is_below(hugr@, root, m.0 as int) == is_below(hugr@, root, n.0 as int),
        decreases m.0,
    {
        if m.0 == root.0 {
            return true;
        }
        match hugr.get_parent(m) {
            Some(p) => {
                assert(hugr@.nodes[m.0 as int].parent == Some(p));
                assert(0 < m.0);
                m = p;
            },
            None => {
                return false;
            },
        }
    }
}

/// The children of `dp` and the edges between them as a graph.
fn sibling_graph(hugr: &Hugr, dp: Node) -> (graph: OrderGraph)
    requires
        hugr@.wf(),
        hugr@.valid(dp),
    ensures
        region(graph) == siblings(hugr@, dp),
{
    let mut graph = order_graph_new();
    let children = hugr.children(dp);
    let ghost h = hugr@;
    let mut i: usize = 0;
    while i < children.len()
        invariant
            i <= children@.len(),
            children@ == h.at(dp).children,
            forall|n: u32| #[trigger]
                order_nodes(graph).contains(n) <==> exists|k: int|
                    0 <= k < i && #[trigger] children@[k] == Node(n),
            order_edges(graph) == Set::<(u32, u32)>::empty(),
        decreases children@.len() - i,
    {
        let ghost before = graph;
        order_graph_add_node(&mut graph, children[i].0);
        proof {
            assert forall|n: u32| #[trigger]
                order_nodes(graph).contains(n) <==> exists|k: int|
                    0 <= k < i + 1 && #[trigger] children@[k] == Node(n) by {
                if n == children@[i as int].0 {
                    assert(children@[i as int] == Node(n));
                }
            }
        }
        i += 1;
    }
    proof {
        assert forall|n: u32| #[trigger] order_nodes(graph).contains(n) <==> children@.contains(
            Node(n),
        ) by {
            if children@.contains(Node(n)) {
                let k = choose|k: int| 0 <= k < children@.len() && children@[k] == Node(n);
                assert(children@[k] == Node(n));
            }
        }
    }
    let edges = hugr.edges();
    let mut e: usize = 0;
    while e < edges.len()
        invariant
            e <= edges@.len(),
            h.wf(),
            h == hugr@,
            h.valid(dp),
            edges@ == h.edges,
            children@ == h.at(dp).children,
            forall|n: u32| #[trigger]
                order_nodes(graph).contains(n) <==> children@.contains(Node(n)),
            forall|p: u32, n: u32| #[trigger]
                order_edges(graph).contains((p, n)) <==> joins_siblings(
                    h,
                    dp,
                    e as int,
                    Node(p),
                    Node(n),
                ),
        decreases edges@.len() - e,
    {
        let edge = edges[e];
        let ghost before = graph;
        proof {
            assert(h.valid(h.edges[e as int].src));
            lemma_child(h, dp, edge.src);
            lemma_child(h, dp, edge.tgt);
        }
        if has_parent(hugr, edge.src, dp) && has_parent(hugr, edge.tgt, dp) {
            order_graph_add_edge(&mut graph, edge.src.0, edge.tgt.0);
            assert(order_nodes(graph) =~= order_nodes(before));
        }
        proof {
            assert forall|p: u32, n: u32| #[trigger]
                order_edges(graph).contains((p, n)) <==> joins_siblings(
                    h,
                    dp,
                    e + 1,
                    Node(p),
                    Node(n),
                ) by {
                assert(order_edges(before).contains((p, n)) <==> joins_siblings(
                    h,
                    dp,
                    e as int,
                    Node(p),
                    Node(n),
                ));
                if edge.src == Node(p) && edge.tgt == Node(n) {
                    assert(h.edges[e as int].src == Node(p));
                }
            }
        }
        e += 1;
    }
    proof {
        let r = region(graph);
        let s = siblings(h, dp);
        assert(r.nodes =~= s.nodes) by {
            assert forall|n: Node| r.nodes.contains(n) <==> s.nodes.contains(n) by {
                assert(order_nodes(graph).contains(n.0) <==> children@.contains(Node(n.0)));
            }
        }
        assert(r.edges =~= s.edges) by {
            assert forall|x: (Node, Node)| r.edges.contains(x) <==> s.edges.contains(x) by {
                assert(order_edges(graph).contains((x.0.0, x.1.0)) <==> joins_siblings(
                    h,
                    dp,
                    h.edges.len() as int,
                    Node(x.0.0),
                    Node(x.1.0),
                ));
            }
        }
    }
    graph
}

/// Whether `p` and `n` are children of `dp` and one of the first `e` edges leads
/// from `p` to `n`.
spec fn joins_siblings(h: HugrModel, dp: Node, e: int, p: Node, n: Node) -> bool {
    &&& h.at(dp).children.contains(p)
    &&& h.at(dp).children.contains(n)
    &&& exists|k: int| 0 <= k < e && (#[trigger] h.edges[k]).src == p && h.edges[k].tgt == n
}

/// Whether `n` is a child of `dp`.
fn has_parent(hugr: &Hugr, n: Node, dp: Node) -> (found: bool)
    requires
        hugr@.wf(),
        hugr@.valid(n),
    ensures
        found == (hugr@.at(n).parent == Some(dp)),
{
    match hugr.get_parent(n) {
        Some(p) => p.0 == dp.0,
        None => false,
    }
}

/// The children of a node are those whose parent it is.
pub proof fn lemma_child(h: HugrModel, dp: Node, n: Node)
    requires
        h.wf(),
        h.valid(dp),
        h.valid(n),
    ensures
        h.at(dp).children.contains(n) <==> h.at(n).parent == Some(dp),
{
    if h.at(dp).children.contains(n) {
        let k = choose|k: int| 0 <= k < h.at(dp).children.len() && h.at(dp).children[k] == n;
        assert(h.nodes[dp.0 as int].children[k] == n);
    }
    if h.at(n).parent == Some(dp) {
        assert(h.nodes[n.0 as int].parent is Some);
        assert(Node(n.0 as int as u32) == n);
    }
}

/// The order of the children of `dp`.
fn region_order<K: Ord, F: Fn(Node) -> K>(hugr: &Hugr, dp: Node, rank: &F) -> (order: Vec<Node>)
    requires
        totally_ordered::<K>(),
        hugr@.wf(),
        hugr@.valid(dp),
        forall|m: Node| #[trigger] hugr@.valid(m) ==> call_requires(*rank, (m,)),
    ensures
        has_order::<K, F>(hugr@, dp, *rank, order@),
{
    let graph = sibling_graph(hugr, dp);
    let ghost h = hugr@;
    proof {
        assert forall|n: Node| #[trigger] region(graph).nodes.contains(n) implies call_requires(
            *rank,
            (n,),
        ) by {
            assert(h.at(dp).children.contains(n));
            let k = choose|k: int| 0 <= k < h.at(dp).children.len() && h.at(dp).children[k] == n;
            assert(h.nodes[dp.0 as int].children[k] == n);
            assert(h.valid(n));
        }
    }
    let topo: ForceOrder<K, F> = ForceOrder::new(&graph, rank);
    let order = topo.iter(&graph);
    proof {
        let ranks = choose|ranks: Map<Node, K>|
            {
                &&& greedy(region(graph), ranks, order@)
                &&& #[trigger] ranks_given(*rank, ranks)
            };
        assert(is_order(h, dp, ranks, order@));
    }
    order
}

/// The nodes of `order` that are part of the dataflow.
fn keep_dataflow(hugr: &Hugr, order: &Vec<Node>) -> (chain: Vec<Node>)
    requires
        forall|i: int| 0 <= i < order@.len() ==> hugr@.valid(#[trigger] order@[i]),
    ensures
        chain@ == dataflow_nodes(hugr@, order@),
{
    let mut chain: Vec<Node> = Vec::new();
    let mut i: usize = 0;
    let ghost h = hugr@;
    let ghost keep = |n: Node| h.at(n).dataflow_child;
    proof {
        reveal(Seq::filter);
        assert(order@.take(0).filter(keep) =~= Seq::<Node>::empty());
    }
    while i < order.len()
        invariant
            i <= order@.len(),
            h == hugr@,
            keep == (|n: Node| h.at(n).dataflow_child),
            forall|k: int| 0 <= k < order@.len() ==> hugr@.valid(#[trigger] order@[k]),
            chain@ == order@.take(i as int).filter(keep),
        decreases order@.len() - i,
    {
        proof {
            reveal(Seq::filter);
            assert(order@.take(i + 1).drop_last() =~= order@.take(i as int));
        }
        if hugr.get_nodetype(order[i]).op.dataflow_child {
            chain.push(order[i]);
        }
        i += 1;
    }
    assert(order@.take(order@.len() as int) =~= order@);
    chain
}

/// Adds an order edge for each step along `chain` that no edge leads along.
fn link_chain(hugr: &mut Hugr, chain: &Vec<Node>, Ghost(h): Ghost<HugrModel>, Ghost(pre): Ghost<
    Seq<Edge>,
>)
    requires
        old(hugr)@.wf(),
        old(hugr)@.nodes == h.nodes,
        old(hugr)@.edges == h.edges + pre,
        chain@.no_duplicates(),
        forall|i: int| 0 <= i < chain@.len() ==> h.valid(#[trigger] chain@[i]),
        forall|k: int, i: int|
            0 <= k < pre.len() && 0 <= i < chain@.len() ==> (#[trigger] pre[k]).src
                != #[trigger] chain@[i],
    ensures
        final(hugr)@.wf(),
        final(hugr)@.nodes == h.nodes,
        final(hugr)@.edges == h.edges + pre + chain_edges(h, chain@, chain@.len() - 1),
{
    if chain.len() == 0 {
        assert(hugr@.edges =~= h.edges + pre + chain_edges(h, chain@, chain@.len() - 1));
        return ;
    }
    let mut i: usize = 0;
    assert(hugr@.edges =~= h.edges + pre + chain_edges(h, chain@, 0));
    while i < chain.len() - 1
        invariant
            hugr@.wf(),
            hugr@.nodes == h.nodes,
            0 < chain@.len(),
            i <= chain@.len() - 1,
            chain@.no_duplicates(),
            forall|k: int| 0 <= k < chain@.len() ==> h.valid(#[trigger] chain@[k]),
            forall|k: int, j: int|
                0 <= k < pre.len() && 0 <= j < chain@.len() ==> (#[trigger] pre[k]).src
                    != #[trigger] chain@[j],
            hugr@.edges == h.edges + pre + chain_edges(h, chain@, i as int),
        decreases chain@.len() - i,
    {
        let n1 = chain[i];
        let n2 = chain[i + 1];
        let ghost before = hugr@.edges;
        assert(hugr@.joins(n1, n2) == h.joins(n1, n2)) by {
            lemma_joins_same(h, hugr@, pre, chain@, i as int);
        }
        if !hugr.has_edge(n1, n2) {
            let _ = hugr.connect(n1, n2, EdgeKind::StateOrder);
            assert(hugr@.edges =~= h.edges + pre + chain_edges(h, chain@, i + 1));
        }
        i += 1;
    }
}

/// The edges along a chain start at nodes of the chain.
pub proof fn lemma_chain_edges(h: HugrModel, chain: Seq<Node>, i: int, k: int)
    requires
        0 <= i < chain.len() || i <= 0,
        0 <= k < chain_edges(h, chain, i).len(),
    ensures
        exists|j: int|
            0 <= j < i && (#[trigger] chain[j]) == chain_edges(h, chain, i)[k].src && chain[j + 1]
                == chain_edges(h, chain, i)[k].tgt,
        chain_edges(h, chain, i)[k].kind == EdgeKind::StateOrder,
    decreases i,
{
    if i > 0 {
        let rest = chain_edges(h, chain, i - 1);
        if k < rest.len() {
            lemma_chain_edges(h, chain, i - 1, k);
            let j = choose|j: int|
                0 <= j < i - 1 && (#[trigger] chain[j]) == rest[k].src && chain[j + 1]
                    == rest[k].tgt;
            assert(chain[j] == chain_edges(h, chain, i)[k].src);
        } else {
            assert(chain[i - 1] == chain_edges(h, chain, i)[k].src);
        }
    }
}

/// What has been added so far does not lead along the next step.
proof fn lemma_joins_same(h: HugrModel, cur: HugrModel, pre: Seq<Edge>, chain: Seq<Node>, i: int)
    requires
        0 <= i < chain.len() - 1,
        chain.no_duplicates(),
        cur.edges == h.edges + pre + chain_edges(h, chain, i),
        forall|k: int, j: int|
            0 <= k < pre.len() && 0 <= j < chain.len() ==> (#[trigger] pre[k]).src
                != #[trigger] chain[j],
    ensures
        cur.joins(chain[i], chain[i + 1]) == h.joins(chain[i], chain[i + 1]),
{
    let n1 = chain[i];
    let n2 = chain[i + 1];
    if h.joins(n1, n2) {
        let e = choose|e: int|
            0 <= e < h.edges.len() && (#[trigger] h.edges[e]).src == n1 && h.edges[e].tgt == n2;
        assert(cur.edges[e] == h.edges[e]);
    }
    if cur.joins(n1, n2) {
        let e = choose|e: int|
            0 <= e < cur.edges.len() && (#[trigger] cur.edges[e]).src == n1 && cur.edges[e].tgt
                == n2;
        let len = h.edges.len() as int;
        if e < len {
            assert(h.edges[e] == cur.edges[e]);
        } else if e < len + pre.len() {
            assert(pre[e - len] == cur.edges[e]);
            assert(chain[i] == n1);
        } else {
            let k = e - len - pre.len();
            assert(chain_edges(h, chain, i)[k] == cur.edges[e]);
            lemma_chain_edges(h, chain, i, k);
            let j = choose|j: int|
                0 <= j < i && (#[trigger] chain[j]) == chain_edges(h, chain, i)[k].src && chain[j
                    + 1] == chain_edges(h, chain, i)[k].tgt;
            assert(chain[j] == chain[i]);
        }
    }
}

/// Whether a node is at or below another depends on the nodes only.
proof fn lemma_below_nodes(h: HugrModel, cur: HugrModel, root: Node, n: int)
    requires
        h.nodes == cur.nodes,
    ensures
        is_below(h, root, n) == is_below(cur, root, n),
    decreases n,
{
    if 0 < n && n != root.0 {
        if let Some(p) = h.nodes[n].parent {
            if p.0 < n {
                lemma_below_nodes(h, cur, root, p.0 as int);
            }
        }
    }
}

/// The edges that the first regions get start at children of these regions.
pub proof fn lemma_edges_below(h: HugrModel, root: Node, orders: Seq<Seq<Node>>, n: int)
    requires
        h.wf(),
        0 <= n <= h.nodes.len(),
        forall|dp: Node|
            dp.0 < n && #[trigger] is_region(h, root, dp) ==> in_region(
                h,
                dp,
                orders[dp.0 as int],
            ),
    ensures
        forall|k: int|
            0 <= k < order_edges_below(h, root, orders, n).len() ==> {
                let edge = #[trigger] order_edges_below(h, root, orders, n)[k];
                &&& h.valid(edge.src)
                &&& h.at(edge.src).parent matches Some(dp)
                &&& dp.0 < n
            },
    decreases n,
{
    if n > 0 {
        let dp = Node((n - 1) as u32);
        let rest = order_edges_below(h, root, orders, n - 1);
        lemma_edges_below(h, root, orders, n - 1);
        if is_region(h, root, dp) {
            let order = orders[n - 1];
            let chain = dataflow_nodes(h, order);
            let all = order_edges_below(h, root, orders, n);
            assert(in_region(h, dp, order));
            lemma_chain_in_region(h, dp, order);
            assert forall|k: int| 0 <= k < all.len() implies {
                let edge = #[trigger] all[k];
                &&& h.valid(edge.src)
                &&& h.at(edge.src).parent matches Some(d)
                &&& d.0 < n
            } by {
                if k < rest.len() {
                    assert(all[k] == rest[k]);
                } else {
                    let added = region_edges(h, order);
                    assert(all[k] == added[k - rest.len()]);
                    lemma_chain_edges(h, chain, chain.len() - 1, k - rest.len());
                    let j = choose|j: int|
                        0 <= j < chain.len() - 1 && (#[trigger] chain[j]) == all[k].src && chain[j
                            + 1] == all[k].tgt;
                    assert(h.valid(chain[j]));
                }
            }
        }
    }
}

/// Whether `a` comes before `b` in `order`.
pub open spec fn comes_before(order: Seq<Node>, a: Node, b: Node) -> bool {
    exists|i: int, j: int|
        #![trigger order[i], order[j]]
        0 <= i < j < order.len() && order[i] == a && order[j] == b
}

/// The dataflow nodes of an order come in that order.
pub proof fn lemma_dataflow_nodes(h: HugrModel, order: Seq<Node>)
    requires
        order.no_duplicates(),
    ensures
        dataflow_nodes(h, order).len() <= order.len(),
        dataflow_nodes(h, order).no_duplicates(),
        forall|n: Node| #[trigger]
            dataflow_nodes(h, order).contains(n) <==> order.contains(n) && h.at(n).dataflow_child,
        forall|i: int, j: int|
            0 <= i < j < dataflow_nodes(h, order).len() ==> comes_before(
                order,
                #[trigger] dataflow_nodes(h, order)[i],
                #[trigger] dataflow_nodes(h, order)[j],
            ),
    decreases order.len(),
{
    reveal(Seq::filter);
    let chain = dataflow_nodes(h, order);
    if order.len() > 0 {
        let rest = order.drop_last();
        let last = order.last();
        let before = dataflow_nodes(h, rest);
        lemma_dataflow_nodes(h, rest);
        assert(chain == if h.at(last).dataflow_child {
            before.push(last)
        } else {
            before
        });
        assert(!rest.contains(last));
        assert forall|n: Node| #[trigger] chain.contains(n) <==> order.contains(n) && h.at(
            n,
        ).dataflow_child by {
            if order.contains(n) && n != last {
                let k = choose|k: int| 0 <= k < order.len() && order[k] == n;
                assert(rest[k] == n);
            }
            if rest.contains(n) {
                let k = choose|k: int| 0 <= k < rest.len() && rest[k] == n;
                assert(order[k] == n);
            }
            if before.contains(n) {
                let k = choose|k: int| 0 <= k < before.len() && before[k] == n;
                assert(chain[k] == n);
            }
            if chain.contains(n) && n != last {
                let k = choose|k: int| 0 <= k < chain.len() && chain[k] == n;
                assert(before[k] == n);
            }
            if n == last {
                assert(order[order.len() - 1] == n);
                if h.at(last).dataflow_child {
                    assert(chain[before.len() as int] == n);
                } else if chain.contains(n) {
                    assert(before.contains(n));
                }
            }
        }
        assert forall|i: int, j: int| 0 <= i < j < chain.len() implies comes_before(
            order,
            #[trigger] chain[i],
            #[trigger] chain[j],
        ) by {
            if j < before.len() {
                assert(comes_before(rest, before[i], before[j]));
                let (x, y) = choose|x: int, y: int|
                    #![trigger rest[x], rest[y]]
                    0 <= x < y < rest.len() && rest[x] == before[i] && rest[y] == before[j];
                assert(order[x] == chain[i] && order[y] == chain[j]);
            } else {
                assert(before.contains(before[i]));
                let x = choose|x: int| 0 <= x < rest.len() && rest[x] == before[i];
                assert(order[x] == chain[i] && order[order.len() - 1] == chain[j]);
            }
        }
        assert forall|i: int, j: int| 0 <= i < j < chain.len() implies chain[i] != chain[j] by {
            if j == before.len() {
                assert(before.contains(before[i]));
            }
        }
    }
}

/// The dataflow nodes of a region are children of it, each listed once.
pub proof fn lemma_chain_in_region(h: HugrModel, dp: Node, order: Seq<Node>)
    requires
        h.wf(),
        h.valid(dp),
        in_region(h, dp, order),
    ensures
        in_region(h, dp, dataflow_nodes(h, order)),
        forall|i: int|
            0 <= i < dataflow_nodes(h, order).len() ==> h.valid(
                #[trigger] dataflow_nodes(h, order)[i],
            ) && h.at(dataflow_nodes(h, order)[i]).parent == Some(dp),
{
    let chain = dataflow_nodes(h, order);
    lemma_dataflow_nodes(h, order);
    assert forall|i: int| 0 <= i < chain.len() implies h.at(dp).children.contains(
        #[trigger] chain[i],
    ) && h.valid(chain[i]) && h.at(chain[i]).parent == Some(dp) by {
        assert(chain.contains(chain[i]));
        let k = choose|k: int| 0 <= k < order.len() && order[k] == chain[i];
        assert(h.at(dp).children.contains(order[k]));
        lemma_child_valid(h, dp, chain[i]);
        lemma_child(h, dp, chain[i]);
    }
}

/// Children are nodes of the graph.
pub proof fn lemma_child_valid(h: HugrModel, dp: Node, n: Node)
    requires
        h.wf(),
        h.valid(dp),
        h.at(dp).children.contains(n),
    ensures
        h.valid(n),
{
    let k = choose|k: int| 0 <= k < h.at(dp).children.len() && h.at(dp).children[k] == n;
    assert(h.nodes[dp.0 as int].children[k] == n);
}

/// An order of the children of a region lists children, each at most once.
pub proof fn lemma_order_in_region<K: Ord>(
    h: HugrModel,
    dp: Node,
    ranks: Map<Node, K>,
    order: Seq<Node>,
)
    requires
        is_order(h, dp, ranks, order),
    ensures
        in_region(h, dp, order),
{
    let r = siblings(h, dp);
    assert forall|i: int| 0 <= i < order.len() implies h.at(dp).children.contains(
        #[trigger] order[i],
    ) by {
        assert(best_at(r, ranks, order, i));
    }
    assert forall|i: int, j: int| 0 <= i < j < order.len() implies order[i] != order[j] by {
        assert(best_at(r, ranks, order, j));
        assert(order.take(j)[i] == order[i]);
        assert(order.take(j).contains(order[i]));
    }
}

/// Which nodes of an order are part of the dataflow depends on the nodes only.
pub proof fn lemma_dataflow_nodes_like(h: HugrModel, cur: HugrModel, order: Seq<Node>)
    requires
        h.nodes == cur.nodes,
    ensures
        dataflow_nodes(h, order) == dataflow_nodes(cur, order),
    decreases order.len(),
{
    reveal(Seq::filter);
    if order.len() > 0 {
        lemma_dataflow_nodes_like(h, cur, order.drop_last());
    }
}

/// Edges from elsewhere do not change what is between siblings.
proof fn lemma_siblings_like(h: HugrModel, cur: HugrModel, pre: Seq<Edge>, dp: Node)
    requires
        h.wf(),
        h.valid(dp),
        cur.nodes == h.nodes,
        cur.edges == h.edges + pre,
        forall|k: int|
            0 <= k < pre.len() ==> {
                let edge = #[trigger] pre[k];
                &&& h.valid(edge.src)
                &&& h.at(edge.src).parent matches Some(d)
                &&& d.0 < dp.0
            },
    ensures
        siblings(cur, dp) == siblings(h, dp),
{
    let a = siblings(cur, dp);
    let b = siblings(h, dp);
    assert forall|x: (Node, Node)| a.edges.contains(x) <==> b.edges.contains(x) by {
        if b.edges.contains(x) {
            let e = choose|e: int|
                0 <= e < h.edges.len() && (#[trigger] h.edges[e]).src == x.0 && h.edges[e].tgt
                    == x.1;
            assert(cur.edges[e] == h.edges[e]);
        }
        if a.edges.contains(x) {
            let e = choose|e: int|
                0 <= e < cur.edges.len() && (#[trigger] cur.edges[e]).src == x.0 && cur.edges[e].tgt
                    == x.1;
            if e < h.edges.len() {
                assert(h.edges[e] == cur.edges[e]);
            } else {
                assert(pre[e - h.edges.len()] == cur.edges[e]);
                lemma_child(h, dp, x.0);
            }
        }
    }
    assert(a =~= b);
}

/// The edges that were added for earlier regions do not start at nodes of this
/// one.
proof fn lemma_chain_apart(h: HugrModel, dp: Node, pre: Seq<Edge>, chain: Seq<Node>)
    requires
        forall|k: int|
            0 <= k < pre.len() ==> {
                let edge = #[trigger] pre[k];
                &&& h.valid(edge.src)
                &&& h.at(edge.src).parent matches Some(d)
                &&& d.0 < dp.0
            },
        forall|i: int| 0 <= i < chain.len() ==> h.at(#[trigger] chain[i]).parent == Some(dp),
    ensures
        forall|k: int, i: int|
            0 <= k < pre.len() && 0 <= i < chain.len() ==> (#[trigger] pre[k]).src
                != #[trigger] chain[i],
{
}

/// The edges for the first regions depend on their orders only.
proof fn lemma_edges_below_like(
    h: HugrModel,
    root: Node,
    a: Seq<Seq<Node>>,
    b: Seq<Seq<Node>>,
    n: int,
)
    requires
        n <= a.len(),
        n <= b.len(),
        forall|i: int| 0 <= i < n ==> a[i] == #[trigger] b[i],
    ensures
        order_edges_below(h, root, a, n) == order_edges_below(h, root, b, n),
    decreases n,
{
    if n > 0 {
        lemma_edges_below_like(h, root, a, b, n - 1);
        assert(a[n - 1] == b[n - 1]);
    }
}

} // verus!
