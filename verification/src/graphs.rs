//! The graphs of the `petgraph` crate, and what this library relies on about
//! them. Nothing in this module is proved: each item states what the crate's
//! source and documentation show.

use petgraph::graph::{Graph, NodeIndex};
use petgraph::graphmap::GraphMap;
use petgraph::{Directed, Undirected};
use std::hash::BuildHasher;

use vstd::prelude::*;

verus! {

/// `petgraph::graph::Graph`: a graph whose nodes and edges are numbered in the
/// order in which they were added.
#[verifier::external_type_specification]
#[verifier::external_body]
#[verifier::reject_recursive_types(N)]
#[verifier::reject_recursive_types(E)]
#[verifier::reject_recursive_types(Ty)]
#[verifier::reject_recursive_types(Ix)]
pub struct ExGraph<N, E, Ty, Ix>(petgraph::graph::Graph<N, E, Ty, Ix>);

/// `petgraph::Undirected`: marks a graph whose edges have no direction.
#[verifier::external_type_specification]
#[verifier::external_body]
pub struct ExUndirected(petgraph::Undirected);

/// `petgraph::graphmap::GraphMap`: a graph that is addressed by the values of
/// its nodes and has at most one edge from one node to another.
#[verifier::external_type_specification]
#[verifier::external_body]
#[verifier::reject_recursive_types(N)]
#[verifier::reject_recursive_types(E)]
#[verifier::reject_recursive_types(Ty)]
#[verifier::reject_recursive_types(S)]
pub struct ExGraphMap<N, E, Ty, S: BuildHasher>(petgraph::graphmap::GraphMap<N, E, Ty, S>);

/// `petgraph::Directed`: marks a graph whose edges have a direction.
#[verifier::external_type_specification]
#[verifier::external_body]
pub struct ExDirected(petgraph::Directed);

/// An undirected graph whose nodes carry numbers.
pub type LinkGraph = Graph<u32, (), Undirected, usize>;

/// A directed graph over numbers.
pub type OrderGraph = GraphMap<u32, (), Directed, std::hash::RandomState>;

/// The weights of the nodes of an undirected graph, by node index.
pub uninterp spec fn link_nodes(graph: LinkGraph) -> Seq<u32>;

/// The edges of an undirected graph, each as the indices of its two ends.
pub uninterp spec fn link_edges(graph: LinkGraph) -> Seq<(int, int)>;

/// The nodes of a directed graph.
pub uninterp spec fn order_nodes(graph: OrderGraph) -> Set<u32>;

/// The edges of a directed graph, each from its first to its second component.
pub uninterp spec fn order_edges(graph: OrderGraph) -> Set<(u32, u32)>;

/// Whether some edge joins `a` and `b`, in either direction.
pub open spec fn joined(edges: Seq<(int, int)>, a: int, b: int) -> bool {
    edges.contains((a, b)) || edges.contains((b, a))
}

/// Whether `path` leads from `a` to `b` along edges.
pub open spec fn is_walk(edges: Seq<(int, int)>, path: Seq<int>, a: int, b: int) -> bool {
    &&& path.len() > 0
    &&& path[0] == a
    &&& path.last() == b
    &&& forall|k: int| 0 <= k < path.len() - 1 ==> joined(edges, #[trigger] path[k], path[k + 1])
}

/// Whether `a` and `b` lie in the same connected component.
pub open spec fn connected(edges: Seq<(int, int)>, a: int, b: int) -> bool {
    exists|path: Seq<int>| is_walk(edges, path, a, b)
}

/// Whether `index` stands in the list at position `i`.
pub open spec fn listed(lists: Seq<Vec<usize>>, i: int, index: usize) -> bool {
    0 <= i < lists.len() && lists[i]@.contains(index)
}

/// Whether `index` stands in some list.
pub open spec fn covered(lists: Seq<Vec<usize>>, index: usize) -> bool {
    exists|i: int| listed(lists, i, index)
}

/// Whether `path` leads from `a` to `b` along edges, in their direction.
pub open spec fn is_order_walk(edges: Set<(u32, u32)>, path: Seq<u32>, a: u32, b: u32) -> bool {
    &&& path.len() > 0
    &&& path[0] == a
    &&& path.last() == b
    &&& forall|i: int, j: int|
        #![trigger path[i], path[j]]
        0 <= i && j == i + 1 && j < path.len() ==> edges.contains((path[i], path[j]))
}

/// `petgraph::graph::Graph::default`: the graph without nodes and edges.
#[verifier::external_body]
pub(crate) fn link_graph_new() -> (graph: LinkGraph)
    ensures
        link_nodes(graph) == Seq::<u32>::empty(),
        link_edges(graph) == Seq::<(int, int)>::empty(),
{
    Graph::default()
}

/// `petgraph::graph::Graph::add_node`: adds a node that carries `weight` and
/// returns its index, which is the number of nodes so far.
#[verifier::external_body]
pub(crate) fn link_graph_add_node(graph: &mut LinkGraph, weight: u32) -> (index: usize)
    ensures
        index == link_nodes(*old(graph)).len(),
        link_nodes(*final(graph)) == link_nodes(*old(graph)).push(weight),
        link_edges(*final(graph)) == link_edges(*old(graph)),
{
    graph.add_node(weight).index()
}

/// `petgraph::graph::Graph::add_edge`: adds an edge between two nodes, which
/// must exist. The index that the call returns is dropped.
#[verifier::external_body]
pub(crate) fn link_graph_add_edge(graph: &mut LinkGraph, a: usize, b: usize)
    requires
        a < link_nodes(*old(graph)).len(),
        b < link_nodes(*old(graph)).len(),
    ensures
        link_nodes(*final(graph)) == link_nodes(*old(graph)),
        link_edges(*final(graph)) == link_edges(*old(graph)).push((a as int, b as int)),
{
    graph.add_edge(NodeIndex::new(a), NodeIndex::new(b), ());
}

/// `petgraph::graph::Graph::node_weight`: what the node at `index` carries, or
/// `None` where there is no such node.
#[verifier::external_body]
pub(crate) fn link_graph_node_weight(graph: &LinkGraph, index: usize) -> (weight: Option<u32>)
    ensures
        weight == (if index < link_nodes(*graph).len() {
            Some(link_nodes(*graph)[index as int])
        } else {
            None
        }),
{
    graph.node_weight(NodeIndex::new(index)).copied()
}

/// `petgraph::algo::tarjan_scc`: the strongly connected components, which in an
/// undirected graph are the connected components. Each node index stands at
/// exactly one place in the result, no component is empty, and two indices
/// stand in the same component exactly when they are connected. The order of
/// the components and the order inside each of them are left open. The call
/// recurses as deep as the graph's paths are long.
#[verifier::external_body]
pub(crate) fn link_graph_components(graph: &LinkGraph) -> (components: Vec<Vec<usize>>)
    ensures
        forall|i: int|
            0 <= i < components@.len() ==> {
                &&& (#[trigger] components@[i])@.len() > 0
                &&& components@[i]@.no_duplicates()
            },
        forall|i: int, index: usize| #[trigger]
            listed(components@, i, index) ==> index < link_nodes(*graph).len(),
        forall|index: usize|
            index < link_nodes(*graph).len() ==> #[trigger] covered(components@, index),
        forall|i: int, j: int, a: usize, b: usize| #[trigger]
            listed(components@, i, a) && #[trigger] listed(components@, j, b) ==> (i == j
                <==> connected(link_edges(*graph), a as int, b as int)),
{
    let components = petgraph::algo::tarjan_scc(graph);
    components.into_iter().map(|c| c.into_iter().map(|n| n.index()).collect()).collect()
}

/// `petgraph::graphmap::GraphMap::new`: the graph without nodes and edges.
#[verifier::external_body]
pub(crate) fn order_graph_new() -> (graph: OrderGraph)
    ensures
        order_nodes(graph) == Set::<u32>::empty(),
        order_edges(graph) == Set::<(u32, u32)>::empty(),
{
    GraphMap::new()
}

/// `petgraph::graphmap::GraphMap::add_node`: makes `node` part of the graph.
/// The call hands its argument back, which is dropped.
#[verifier::external_body]
pub(crate) fn order_graph_add_node(graph: &mut OrderGraph, node: u32)
    ensures
        order_nodes(*final(graph)) == order_nodes(*old(graph)).insert(node),
        order_edges(*final(graph)) == order_edges(*old(graph)),
{
    graph.add_node(node);
}

/// `petgraph::graphmap::GraphMap::add_edge`: makes the edge from `src` to
/// `tgt` part of the graph, and its ends with it.
#[verifier::external_body]
pub(crate) fn order_graph_add_edge(graph: &mut OrderGraph, src: u32, tgt: u32)
    ensures
        order_nodes(*final(graph)) == order_nodes(*old(graph)).insert(src).insert(tgt),
        order_edges(*final(graph)) == order_edges(*old(graph)).insert((src, tgt)),
{
    graph.add_edge(src, tgt, ());
}

/// `petgraph::graphmap::GraphMap::nodes`: every node once, in an order that is
/// left open.
#[verifier::external_body]
pub(crate) fn order_graph_nodes(graph: &OrderGraph) -> (nodes: Vec<u32>)
    ensures
        nodes@.no_duplicates(),
        nodes@.to_set() == order_nodes(*graph),
{
    graph.nodes().collect()
}

/// `petgraph::graphmap::GraphMap::neighbors` on a directed graph: the target of
/// every edge that starts at `node`, once each, in an order that is left open.
/// Targets are nodes of the graph, since adding an edge adds its ends.
#[verifier::external_body]
pub(crate) fn order_graph_neighbors(graph: &OrderGraph, node: u32) -> (targets: Vec<u32>)
    ensures
        targets@.no_duplicates(),
        forall|n: u32| #[trigger] targets@.contains(n) <==> order_edges(*graph).contains((node, n)),
        forall|n: u32| #[trigger] targets@.contains(n) ==> order_nodes(*graph).contains(n),
{
    graph.neighbors(node).collect()
}

/// `petgraph::graphmap::GraphMap::neighbors_directed` with
/// `petgraph::Direction::Incoming` on a directed graph: the source of every
/// edge that ends at `node`, once each, in an order that is left open.
#[verifier::external_body]
pub(crate) fn order_graph_sources(graph: &OrderGraph, node: u32) -> (sources: Vec<u32>)
    ensures
        sources@.no_duplicates(),
        forall|n: u32| #[trigger] sources@.contains(n) <==> order_edges(*graph).contains((n, node)),
{
    graph.neighbors_directed(node, petgraph::Direction::Incoming).collect()
}

/// `petgraph::algo::has_path_connecting` on a directed graph, without a
/// workspace to be used again: whether edges lead from `from` to `to`, which
/// they do where the two are equal.
#[verifier::external_body]
pub(crate) fn order_graph_has_path(graph: &OrderGraph, from: u32, to: u32) -> (found: bool)
    ensures
        found == exists|path: Seq<u32>| is_order_walk(order_edges(*graph), path, from, to),
{
    petgraph::algo::has_path_connecting(graph, from, to, None)
}

} // verus!
