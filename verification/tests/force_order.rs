use std::collections::HashMap;

use hugr::extension_set::ExtensionSet;
use hugr::force_order::walk::ForceOrder;
use hugr::force_order::{force_order, force_order_by_key};
use hugr::hugr::{EdgeKind, Hugr, HugrError, Node, NodeType, OpType};
use petgraph::graphmap::{DiGraphMap, GraphMap};
use petgraph::visit::{Topo, Walker};
use petgraph::Directed;

type Walked = GraphMap<u32, (), Directed, std::hash::RandomState>;

fn leaf() -> NodeType {
    NodeType::pure(OpType::leaf(ExtensionSet::new()))
}

fn region() -> NodeType {
    NodeType::pure(OpType::dfg(ExtensionSet::new()))
}

fn value(hugr: &mut Hugr, src: Node, tgt: Node) {
    hugr.connect(src, tgt, EdgeKind::Value).unwrap();
}

/// Our tests use the following hugr:
///
/// a DFG with sig: [i8,i8] -> [i8,i8]
///
///         Input
///    |        |
///    | iw1    | iw2
///   v0(neg)  v1(neg)
///    |   \    |
///    |    \   |
///    |     \  |
///   v2(neg)  v3(add)
///    |        |
///      Output
fn test_hugr() -> (Hugr, [Node; 4]) {
    let mut hugr = Hugr::new(region());
    let root = hugr.root();
    let input = hugr
        .add_node_with_parent(root, NodeType::pure(OpType::input()))
        .unwrap();
    let output = hugr
        .add_node_with_parent(root, NodeType::pure(OpType::output()))
        .unwrap();
    let v0 = hugr.add_node_with_parent(root, leaf()).unwrap();
    let v1 = hugr.add_node_with_parent(root, leaf()).unwrap();
    let v2 = hugr.add_node_with_parent(root, leaf()).unwrap();
    let v3 = hugr.add_node_with_parent(root, leaf()).unwrap();
    value(&mut hugr, input, v0);
    value(&mut hugr, input, v1);
    value(&mut hugr, v0, v2);
    value(&mut hugr, v0, v3);
    value(&mut hugr, v1, v3);
    value(&mut hugr, v2, output);
    value(&mut hugr, v3, output);
    (hugr, [v0, v1, v2, v3])
}

type RankMap = HashMap<Node, i64>;

fn as_petgraph(hugr: &Hugr) -> DiGraphMap<u32, ()> {
    let mut graph = DiGraphMap::new();
    for i in 0..hugr.node_count() {
        graph.add_node(i as u32);
    }
    for edge in hugr.edges().iter() {
        graph.add_edge(edge.src.0, edge.tgt.0, ());
    }
    graph
}

fn force_order_test_impl(hugr: &mut Hugr, rank_map: RankMap) -> Vec<Node> {
    let root = hugr.root();
    force_order(hugr, root, |n: Node| *rank_map.get(&n).unwrap_or(&0)).unwrap();

    let graph = as_petgraph(hugr);
    let all: Vec<Node> = Topo::new(&graph).iter(&graph).map(Node).collect();
    // No cycle has come in.
    assert_eq!(all.len(), hugr.node_count());
    all.into_iter()
        .filter(|n| rank_map.contains_key(n))
        .collect()
}

#[test]
fn test_force_order_1() {
    let (mut hugr, [v0, v1, v2, v3]) = test_hugr();

    // v0 has a higher rank than v2, but v0 dominates v2, so cannot be
    // ordered before it.
    //
    // v1 and v3 are pushed to the bottom of the graph with high weights.
    let rank_map = [(v0, 2), (v2, 1), (v1, 10), (v3, 9)].into_iter().collect();

    let topo_sort = force_order_test_impl(&mut hugr, rank_map);
    assert_eq!(vec![v0, v2, v1, v3], topo_sort);
}

#[test]
fn test_force_order_2() {
    let (mut hugr, [v0, v1, v2, v3]) = test_hugr();

    // v1 and v3 are pulled to the top of the graph with low weights.
    // v3 cannot ascend past v0 because it is dominated by v0
    let rank_map = [(v0, 2), (v2, 1), (v1, -10), (v3, -9)]
        .into_iter()
        .collect();
    let topo_sort = force_order_test_impl(&mut hugr, rank_map);
    assert_eq!(vec![v1, v0, v3, v2], topo_sort);
}

#[test]
fn test_force_order_3() {
    let (mut hugr, [v0, v1, v2, v3]) = test_hugr();
    let rank_map = [(v0, 0), (v1, 1), (v2, 2), (v3, 3)].into_iter().collect();
    let topo_sort = force_order_test_impl(&mut hugr, rank_map);
    assert_eq!(vec![v0, v1, v2, v3], topo_sort);
}

#[test]
fn only_missing_edges_are_added() {
    let (mut hugr, [v0, v1, v2, v3]) = test_hugr();
    let root = hugr.root();
    let (input, output) = hugr.get_io(root).unwrap();
    let before = hugr.edges().clone();
    let ranks: RankMap = [(v0, 0), (v1, 1), (v2, 2), (v3, 3)].into_iter().collect();
    let rank = |n: Node| *ranks.get(&n).unwrap_or(&0);
    force_order(&mut hugr, root, rank).unwrap();
    assert_eq!(hugr.edges()[..before.len()], before[..]);
    let added: Vec<(Node, Node)> = hugr.edges()[before.len()..]
        .iter()
        .map(|e| (e.src, e.tgt))
        .collect();
    assert_eq!(added, vec![(v0, v1), (v1, v2), (v2, v3)]);
    assert!(hugr.edges()[before.len()..]
        .iter()
        .all(|e| e.kind == EdgeKind::StateOrder));
    assert!(hugr.has_edge(input, v0) && hugr.has_edge(v3, output));
    // Once more, nothing is left to be done.
    let after = hugr.edges().clone();
    force_order(&mut hugr, root, rank).unwrap();
    assert_eq!(*hugr.edges(), after);
}

#[test]
fn equal_ranks_take_the_later_node() {
    let (mut hugr, [v0, v1, v2, v3]) = test_hugr();
    let rank_map = [(v0, 5), (v1, 5), (v2, 5), (v3, 5)].into_iter().collect();
    let topo_sort = force_order_test_impl(&mut hugr, rank_map);
    assert_eq!(vec![v1, v0, v3, v2], topo_sort);
}

#[test]
fn of_equal_ranks_the_one_that_leads_to_lower_ranks() {
    // v2 has the lowest rank and depends on v0 alone.
    let (mut hugr, [v0, v1, v2, v3]) = test_hugr();
    let rank_map = [(v0, 5), (v1, 5), (v2, 1), (v3, 9)].into_iter().collect();
    let topo_sort = force_order_test_impl(&mut hugr, rank_map);
    assert_eq!(vec![v0, v2, v1, v3], topo_sort);
}

#[test]
fn only_how_ranks_compare_matters() {
    let (mut hugr, [v0, v1, v2, v3]) = test_hugr();
    let (mut other, _) = test_hugr();
    let ranks: RankMap = [(v0, 2), (v1, -3), (v2, 7), (v3, 7)].into_iter().collect();
    let raised = ranks.iter().map(|(n, k)| (*n, k * 10 + 100)).collect();
    assert_eq!(
        force_order_test_impl(&mut hugr, ranks),
        force_order_test_impl(&mut other, raised)
    );
}

#[test]
fn forcing_again_under_other_ranks_changes_nothing() {
    let (mut hugr, [v0, v1, v2, v3]) = test_hugr();
    let root = hugr.root();
    let ranks: RankMap = [(v0, 2), (v2, 1), (v1, 10), (v3, 9)].into_iter().collect();
    assert_eq!(
        force_order_test_impl(&mut hugr, ranks),
        vec![v0, v2, v1, v3]
    );
    let after = hugr.edges().clone();
    force_order(&mut hugr, root, |n: Node| -i64::from(n.0)).unwrap();
    force_order(&mut hugr, root, |_: Node| 0).unwrap();
    assert_eq!(*hugr.edges(), after);
}

#[test]
fn high_dependency_keeps_a_low_rank_back() {
    // n1 depends on p; n2 is on its own.
    let mut hugr = Hugr::new(region());
    let root = hugr.root();
    let p = hugr.add_node_with_parent(root, leaf()).unwrap();
    let n1 = hugr.add_node_with_parent(root, leaf()).unwrap();
    let n2 = hugr.add_node_with_parent(root, leaf()).unwrap();
    value(&mut hugr, p, n1);
    let rank_map: RankMap = [(p, 10), (n1, 1), (n2, 5)].into_iter().collect();
    let topo_sort = force_order_test_impl(&mut hugr, rank_map);
    assert_eq!(vec![n2, p, n1], topo_sort);
}

#[test]
fn low_dependencies_let_a_low_rank_pass() {
    let mut hugr = Hugr::new(region());
    let root = hugr.root();
    let p = hugr.add_node_with_parent(root, leaf()).unwrap();
    let n1 = hugr.add_node_with_parent(root, leaf()).unwrap();
    let n2 = hugr.add_node_with_parent(root, leaf()).unwrap();
    value(&mut hugr, p, n1);
    let rank_map: RankMap = [(p, 4), (n1, 1), (n2, 5)].into_iter().collect();
    let topo_sort = force_order_test_impl(&mut hugr, rank_map);
    assert_eq!(vec![p, n1, n2], topo_sort);
}

#[test]
fn regions_below_the_root_are_ordered() {
    let mut hugr = Hugr::new(NodeType::pure(OpType::module_op()));
    let root = hugr.root();
    let first = hugr.add_node_with_parent(root, region()).unwrap();
    let second = hugr.add_node_with_parent(root, region()).unwrap();
    let inner = hugr.add_node_with_parent(first, region()).unwrap();
    let a = hugr.add_node_with_parent(inner, leaf()).unwrap();
    let b = hugr.add_node_with_parent(inner, leaf()).unwrap();
    let c = hugr.add_node_with_parent(second, leaf()).unwrap();
    let d = hugr.add_node_with_parent(second, leaf()).unwrap();
    let constant = hugr
        .add_node_with_parent(second, NodeType::pure(OpType::module_op()))
        .unwrap();
    // Only what is below `first`.
    let by_index = |n: Node| i64::from(n.0);
    force_order(&mut hugr, first, by_index).unwrap();
    assert_eq!(hugr.edges().len(), 1);
    assert!(hugr.has_edge(a, b));
    // Everything; what is no part of the dataflow is left alone.
    force_order(&mut hugr, root, by_index).unwrap();
    assert_eq!(hugr.edges().len(), 2);
    assert!(hugr.has_edge(c, d));
    assert!(!hugr.has_edge(d, constant));
}

#[test]
fn invalid_root_is_refused() {
    let (mut hugr, _) = test_hugr();
    let before = hugr.edges().len();
    assert_eq!(
        force_order(&mut hugr, Node(99), |_: Node| 0),
        Err(HugrError::InvalidNode(Node(99)))
    );
    assert_eq!(hugr.edges().len(), before);
}

#[test]
fn ranks_of_any_ordered_type() {
    let mut hugr = Hugr::new(region());
    let root = hugr.root();
    let a = hugr.add_node_with_parent(root, leaf()).unwrap();
    let b = hugr.add_node_with_parent(root, leaf()).unwrap();
    let c = hugr.add_node_with_parent(root, leaf()).unwrap();
    let rank = |n: Node| (if n == c { 0u8 } else { 1u8 }, n.0);
    assert_eq!(force_order_by_key(&mut hugr, root, rank), Ok(()));
    assert!(hugr.has_edge(c, a) && hugr.has_edge(a, b));
    assert_eq!(hugr.edges().len(), 2);
}

#[test]
fn cycles_are_left_out() {
    let mut graph: Walked = GraphMap::new();
    for n in 0..4u32 {
        graph.add_node(n);
    }
    // 1 and 2 depend on each other, and 3 on 2.
    graph.add_edge(0, 1, ());
    graph.add_edge(1, 2, ());
    graph.add_edge(2, 1, ());
    graph.add_edge(2, 3, ());
    let rank = |n: Node| n.0;
    let order = ForceOrder::new(&graph, &rank).iter(&graph);
    assert_eq!(order, vec![Node(0)]);
}

#[test]
fn walking_step_by_step() {
    let mut graph: Walked = GraphMap::new();
    graph.add_edge(4, 1, ());
    graph.add_edge(4, 2, ());
    graph.add_edge(1, 3, ());
    graph.add_edge(2, 3, ());
    let rank = |n: Node| if n == Node(2) { 0 } else { 1 };
    let mut topo = ForceOrder::new(&graph, &rank);
    assert_eq!(topo.next(&graph), Some(Node(4)));
    assert_eq!(topo.next(&graph), Some(Node(2)));
    assert_eq!(topo.next(&graph), Some(Node(1)));
    assert_eq!(topo.next(&graph), Some(Node(3)));
    assert_eq!(topo.next(&graph), None);
}

#[test]
fn what_was_visited_is_not_visited_again() {
    let mut graph: Walked = GraphMap::new();
    graph.add_node(1);
    let rank = |n: Node| n.0;
    let mut topo = ForceOrder::empty(&graph, &rank);
    assert_eq!(topo.next(&graph), None);
    topo.extend(vec![Node(1), Node(1), Node(2)]);
    assert_eq!(topo.next(&graph), Some(Node(1)));
    assert_eq!(topo.next(&graph), Some(Node(2)));
    assert_eq!(topo.next(&graph), None);
    topo.extend_with_initials(&graph);
    assert_eq!(topo.next(&graph), None);
}
