//! What forcing an order does to a graph, said of its nodes, their children and
//! its edges.

use vstd::prelude::*;

use crate::force_order::laws::{
    law_low_ranks_go_first, law_lower_rank_precedes, law_order_is_forced, law_order_respects_edges,
    law_orderable_nodes_are_ordered, law_regions_are_chained, lemma_added_edge, lemma_one_way,
};
use crate::force_order::walk::{
    ForceOrder, Region, greedy, is_initial, is_path, leads_to, lower, ranks_given, region, totally_ordered,
};
use crate::force_order::{
    chain_edges, comes_before, dataflow_nodes, has_order, is_below, is_order, is_region,
    lemma_chain_edges, lemma_child, lemma_child_valid, lemma_dataflow_nodes, lemma_order_in_region,
    order_edges_below, order_forced, orders_given, region_edges, siblings,
};
use crate::graphs::{OrderGraph, order_edges, order_nodes};
use crate::hugr::{Edge, EdgeKind, HugrModel, Node};

verus! {

/// Whether each node of `line` is the parent of the next.
pub open spec fn is_line(h: HugrModel, line: Seq<Node>) -> bool {
    &&& line.len() > 0
    &&& forall|i: int| 0 <= i < line.len() ==> (#[trigger] line[i]).0 < h.nodes.len()
    &&& forall|i: int, j: int|
        #![trigger line[i], line[j]]
        0 <= i && j == i + 1 && j < line.len() ==> h.nodes[line[j].0 as int].parent == Some(
            line[i],
        )
}

/// What holds a node that is at or below `root` being so, the node is below too;
/// and `root` is at itself.
pub proof fn law_below_is_transitive(h: HugrModel, root: Node, p: Node, n: Node)
    requires
        h.wf(),
        p.0 < h.nodes.len(),
        n.0 < h.nodes.len(),
        is_below(h, root, p.0 as int),
        h.nodes[n.0 as int].parent == Some(p),
    ensures
        is_below(h, root, n.0 as int),
        is_below(h, root, root.0 as int),
{
    assert(h.nodes[n.0 as int].parent is Some);
}

/// A node is at or below another just if a line of nodes leads to it from there,
/// however long.
pub proof fn law_below_at_any_depth(h: HugrModel, root: Node, n: Node)
    requires
        h.wf(),
        root.0 < h.nodes.len(),
        n.0 < h.nodes.len(),
    ensures
        is_below(h, root, n.0 as int) <==> exists|line: Seq<Node>|
            #![trigger is_line(h, line)]
            is_line(h, line) && line[0] == root && line.last() == n,
{
    if is_below(h, root, n.0 as int) {
        let line = lemma_line_to(h, root, n);
        assert(is_line(h, line) && line[0] == root && line.last() == n);
    }
    if exists|line: Seq<Node>|
        #![trigger is_line(h, line)]
        is_line(h, line) && line[0] == root && line.last() == n {
        let line = choose|line: Seq<Node>|
            #![trigger is_line(h, line)]
            is_line(h, line) && line[0] == root && line.last() == n;
        lemma_along_line(h, line, line.len() - 1);
    }
}

proof fn lemma_along_line(h: HugrModel, line: Seq<Node>, k: int)
    requires
        h.wf(),
        is_line(h, line),
        0 <= k < line.len(),
    ensures
        is_below(h, line[0], line[k].0 as int),
    decreases k,
{
    if k > 0 {
        lemma_along_line(h, line, k - 1);
        assert(h.nodes[line[k].0 as int].parent == Some(line[k - 1]));
        law_below_is_transitive(h, line[0], line[k - 1], line[k]);
    }
}

proof fn lemma_line_to(h: HugrModel, root: Node, n: Node) -> (line: Seq<Node>)
    requires
        h.wf(),
        root.0 < h.nodes.len(),
        n.0 < h.nodes.len(),
        is_below(h, root, n.0 as int),
    ensures
        is_line(h, line),
        line[0] == root,
        line.last() == n,
    decreases n.0,
{
    if n.0 == root.0 {
        assert(n == root);
        seq![n]
    } else {
        let p = h.nodes[n.0 as int].parent->0;
        let rest = lemma_line_to(h, root, p);
        let line = rest.push(n);
        assert forall|i: int, j: int|
            #![trigger line[i], line[j]]
            0 <= i && j == i + 1 && j < line.len() implies h.nodes[line[j].0 as int].parent == Some(
            line[i],
        ) by {
            if j < rest.len() {
                assert(line[i] == rest[i] && line[j] == rest[j]);
            } else {
                assert(line[i] == rest.last());
            }
        }
        line
    }
}

/// The last of a line that starts at `root` is a region if it holds one.
proof fn lemma_region_on_line(h: HugrModel, root: Node, line: Seq<Node>)
    requires
        h.wf(),
        is_line(h, line),
        line[0] == root,
        h.nodes[line.last().0 as int].dataflow_parent,
    ensures
        is_region(h, root, line.last()),
{
    assert(line[line.len() - 1] == line.last());
    lemma_along_line(h, line, line.len() - 1);
}

/// Whether an edge leads from `a` to `b`.
pub open spec fn edge_leads(edges: Seq<Edge>, a: Node, b: Node) -> bool {
    exists|e: int|
        0 <= e < edges.len() && (#[trigger] edges[e]).src == a && edges[e].tgt == b
}

/// Whether `path` leads through children of `p`, along edges of the graph.
pub open spec fn leads_through(h: HugrModel, p: Node, path: Seq<Node>) -> bool {
    &&& path.len() > 0
    &&& forall|i: int|
        0 <= i < path.len() ==> h.nodes[p.0 as int].children.contains(#[trigger] path[i])
    &&& forall|i: int, j: int|
        #![trigger path[i], path[j]]
        0 <= i && j == i + 1 && j < path.len() ==> edge_leads(h.edges, path[i], path[j])
}

/// Whether a path between children of `p` leads from `a` to `b`.
pub open spec fn depends_on(h: HugrModel, p: Node, a: Node, b: Node) -> bool {
    exists|path: Seq<Node>|
        #![trigger leads_through(h, p, path)]
        leads_through(h, p, path) && path[0] == a && path.last() == b
}

/// Dependencies in a region are paths along edges between its nodes.
proof fn lemma_paths(h: HugrModel, p: Node, a: Node, b: Node)
    requires
        h.nodes[p.0 as int].children.contains(a),
        h.nodes[p.0 as int].children.contains(b),
    ensures
        leads_to(siblings(h, p), a, b) <==> depends_on(h, p, a, b),
{
    let r = siblings(h, p);
    if leads_to(r, a, b) {
        let path = choose|path: Seq<Node>| #[trigger]
            is_path(r, path) && path[0] == a && path.last() == b;
        assert forall|i: int| 0 <= i < path.len() implies h.nodes[p.0 as int].children.contains(
            #[trigger] path[i],
        ) by {
            if i + 1 < path.len() {
                assert(r.edges.contains((path[i], path[i + 1])));
            } else {
                assert(path[i] == b);
            }
        }
        assert forall|i: int, j: int|
            #![trigger path[i], path[j]]
            0 <= i && j == i + 1 && j < path.len() implies edge_leads(
            h.edges,
            path[i],
            path[j],
        ) by {
            assert(r.edges.contains((path[i], path[j])));
            assert(h.joins(path[i], path[j]));
        }
        assert(leads_through(h, p, path));
    }
    if depends_on(h, p, a, b) {
        let path = choose|path: Seq<Node>|
            #![trigger leads_through(h, p, path)]
            leads_through(h, p, path) && path[0] == a && path.last() == b;
        assert forall|i: int, j: int|
            #![trigger path[i], path[j]]
            0 <= i && j == i + 1 && j < path.len() implies r.edges.contains(
            (path[i], path[j]),
        ) by {
            assert(edge_leads(h.edges, path[i], path[j]));
            assert(h.joins(path[i], path[j]));
        }
        assert(is_path(r, path));
    }
}

/// In a region at any depth below the root, an edge leads from each dataflow node
/// to the next in the order, where no other dataflow node is between them.
pub proof fn law_regions_at_any_depth_are_chained<K: Ord, F: Fn(Node) -> K>(
    before: HugrModel,
    after: HugrModel,
    root: Node,
    ranking: F,
    orders: Seq<Seq<Node>>,
    line: Seq<Node>,
    i: int,
    j: int,
)
    requires
        before.wf(),
        order_forced::<K, F>(before, after, root, ranking, orders),
        is_line(before, line),
        line[0] == root,
        before.nodes[line.last().0 as int].dataflow_parent,
        0 <= i < j < orders[line.last().0 as int].len(),
        before.nodes[orders[line.last().0 as int][i].0 as int].dataflow_child,
        before.nodes[orders[line.last().0 as int][j].0 as int].dataflow_child,
        forall|k: int|
            i < k < j ==> !before.nodes[(
            #[trigger] orders[line.last().0 as int][k]).0 as int].dataflow_child,
    ensures
        edge_leads(
            after.edges,
            orders[line.last().0 as int][i],
            orders[line.last().0 as int][j],
        ),
{
    let dp = line.last();
    let order = orders[dp.0 as int];
    let chain = dataflow_nodes(before, order);
    lemma_region_on_line(before, root, line);
    assert(has_order(before, dp, ranking, order));
    let ranks = choose|ranks: Map<Node, K>| #[trigger]
        is_order(before, dp, ranks, order) && ranks_given(ranking, ranks);
    lemma_order_in_region(before, dp, ranks, order);
    lemma_dataflow_nodes(before, order);
    let a = order[i];
    let b = order[j];
    assert(order.contains(a) && order.contains(b));
    assert(chain.contains(a) && chain.contains(b));
    let x = choose|x: int| 0 <= x < chain.len() && chain[x] == a;
    let y = choose|y: int| 0 <= y < chain.len() && chain[y] == b;
    assert(comes_before(order, a, b)) by {
        assert(order[i] == a && order[j] == b);
    }
    lemma_one_way(order, a, b);
    if y < x {
        assert(comes_before(order, chain[y], chain[x]));
    }
    if x + 1 < y {
        let z = chain[x + 1];
        assert(comes_before(order, chain[x], chain[x + 1]));
        assert(comes_before(order, chain[x + 1], chain[y]));
        let (u, v) = choose|u: int, v: int|
            #![trigger order[u], order[v]]
            0 <= u < v < order.len() && order[u] == a && order[v] == z;
        let (s, t) = choose|s: int, t: int|
            #![trigger order[s], order[t]]
            0 <= s < t < order.len() && order[s] == z && order[t] == b;
        assert(u == i && t == j && v == s);
        assert(chain.contains(z));
        assert(before.nodes[order[v].0 as int].dataflow_child);
    }
    assert(y == x + 1);
    law_regions_are_chained(before, after, root, ranking, orders, dp, x);
}

/// The order of a region at any depth below the root lists children of it, each
/// at most once, and each after all that edges lead to it from; a child is left
/// out only if an edge leads to it from one that is left out.
pub proof fn law_orders_keep_to_edges<K: Ord, F: Fn(Node) -> K>(
    before: HugrModel,
    after: HugrModel,
    root: Node,
    ranking: F,
    orders: Seq<Seq<Node>>,
    line: Seq<Node>,
)
    requires
        before.wf(),
        order_forced::<K, F>(before, after, root, ranking, orders),
        is_line(before, line),
        line[0] == root,
        before.nodes[line.last().0 as int].dataflow_parent,
    ensures
        ({
            let order = orders[line.last().0 as int];
            let children = before.nodes[line.last().0 as int].children;
            &&& order.no_duplicates()
            &&& forall|n: Node| #[trigger] order.contains(n) ==> children.contains(n)
            &&& forall|a: Node, b: Node| #[trigger]
                edge_leads(before.edges, a, b) && children.contains(a) && order.contains(b)
                    ==> exists|i: int, j: int|
                    #![trigger order[i], order[j]]
                    0 <= i < j < order.len() && order[i] == a && order[j] == b
            &&& forall|b: Node| #[trigger]
                children.contains(b) && !order.contains(b) ==> exists|a: Node|
                    children.contains(a) && !order.contains(a) && #[trigger] edge_leads(
                        before.edges,
                        a,
                        b,
                    )
        }),
{
    let dp = line.last();
    let order = orders[dp.0 as int];
    let children = before.nodes[dp.0 as int].children;
    let r = siblings(before, dp);
    lemma_region_on_line(before, root, line);
    assert(has_order(before, dp, ranking, order));
    let ranks = choose|ranks: Map<Node, K>| #[trigger]
        is_order(before, dp, ranks, order) && ranks_given(ranking, ranks);
    lemma_order_in_region(before, dp, ranks, order);
    assert forall|n: Node| #[trigger] order.contains(n) implies children.contains(n) by {
        let i = choose|i: int| 0 <= i < order.len() && order[i] == n;
        assert(before.at(dp).children.contains(order[i]));
    }
    assert forall|a: Node, b: Node| #[trigger]
        edge_leads(before.edges, a, b) && children.contains(a) && order.contains(b) implies exists|
        i: int,
        j: int,
    |
        #![trigger order[i], order[j]]
        0 <= i < j < order.len() && order[i] == a && order[j] == b by {
        assert(before.joins(a, b));
        assert(r.edges.contains((a, b)));
        law_order_respects_edges(r, ranks, order, a, b);
    }
    assert forall|b: Node| #[trigger] children.contains(b) && !order.contains(b) implies exists|
        a: Node,
    |
        children.contains(a) && !order.contains(a) && #[trigger] edge_leads(
            before.edges,
            a,
            b,
        ) by {
        assert(r.nodes.contains(b));
        law_orderable_nodes_are_ordered(r, ranks, order, b);
        let a = choose|a: Node| #[trigger] r.edges.contains((a, b)) && !order.contains(a);
        assert(before.joins(a, b));
        assert(edge_leads(before.edges, a, b));
    }
}

/// Where edges between the children of a region lead upwards only, as to some
/// numbering, all of them are ordered.
pub proof fn law_all_children_are_ordered<K: Ord, F: Fn(Node) -> K>(
    before: HugrModel,
    after: HugrModel,
    root: Node,
    ranking: F,
    orders: Seq<Seq<Node>>,
    line: Seq<Node>,
    height: spec_fn(Node) -> nat,
    n: Node,
)
    requires
        before.wf(),
        order_forced::<K, F>(before, after, root, ranking, orders),
        is_line(before, line),
        line[0] == root,
        before.nodes[line.last().0 as int].dataflow_parent,
        forall|a: Node, b: Node| #[trigger]
            edge_leads(before.edges, a, b) && before.nodes[line.last().0 as int].children.contains(a)
                && before.nodes[line.last().0 as int].children.contains(b) ==> height(a) < height(
                b,
            ),
        before.nodes[line.last().0 as int].children.contains(n),
    ensures
        orders[line.last().0 as int].contains(n),
    decreases height(n),
{
    let order = orders[line.last().0 as int];
    law_orders_keep_to_edges(before, after, root, ranking, orders, line);
    if !order.contains(n) {
        let children = before.nodes[line.last().0 as int].children;
        let a = choose|a: Node|
            children.contains(a) && !order.contains(a) && #[trigger] edge_leads(
                before.edges,
                a,
                n,
            );
        law_all_children_are_ordered(before, after, root, ranking, orders, line, height, a);
    }
}

/// Of two dataflow children of a region at any depth below the root, edges of the
/// result lead from the one that is ordered first to the other.
pub proof fn law_children_are_ordered_by_edges<K: Ord, F: Fn(Node) -> K>(
    before: HugrModel,
    after: HugrModel,
    root: Node,
    ranking: F,
    orders: Seq<Seq<Node>>,
    line: Seq<Node>,
    i: int,
    j: int,
)
    requires
        before.wf(),
        order_forced::<K, F>(before, after, root, ranking, orders),
        is_line(before, line),
        line[0] == root,
        before.nodes[line.last().0 as int].dataflow_parent,
        0 <= i < j < orders[line.last().0 as int].len(),
        before.nodes[orders[line.last().0 as int][i].0 as int].dataflow_child,
        before.nodes[orders[line.last().0 as int][j].0 as int].dataflow_child,
    ensures
        depends_on(
            after,
            line.last(),
            orders[line.last().0 as int][i],
            orders[line.last().0 as int][j],
        ),
{
    let dp = line.last();
    let order = orders[dp.0 as int];
    lemma_region_on_line(before, root, line);
    law_orders_keep_to_edges(before, after, root, ranking, orders, line);
    assert(comes_before(order, order[i], order[j]));
    assert(order.contains(order[i]) && order.contains(order[j]));
    law_order_is_forced(before, after, root, ranking, orders, dp, order[i], order[j]);
    lemma_paths(after, dp, order[i], order[j]);
}

/// What was in the graph stays as it was. What is added are order edges, each
/// between two dataflow children of one region at or below the root that no edge
/// led along before, from one to one that is ordered later.
pub proof fn law_nothing_else_is_changed<K: Ord, F: Fn(Node) -> K>(
    before: HugrModel,
    after: HugrModel,
    root: Node,
    ranking: F,
    orders: Seq<Seq<Node>>,
)
    requires
        before.wf(),
        root.0 < before.nodes.len(),
        order_forced::<K, F>(before, after, root, ranking, orders),
    ensures
        after.nodes == before.nodes,
        before.edges.len() <= after.edges.len(),
        forall|e: int|
            0 <= e < before.edges.len() ==> #[trigger] after.edges[e] == before.edges[e],
        forall|e: int|
            before.edges.len() <= e < after.edges.len() ==> {
                let edge = #[trigger] after.edges[e];
                &&& edge.kind == EdgeKind::StateOrder
                &&& !edge_leads(before.edges, edge.src, edge.tgt)
                &&& edge.src.0 < before.nodes.len() && edge.tgt.0 < before.nodes.len()
                &&& before.nodes[edge.src.0 as int].dataflow_child
                &&& before.nodes[edge.tgt.0 as int].dataflow_child
                &&& is_ordered_below(before, root, orders, edge.src, edge.tgt)
            },
{
    let total = before.nodes.len() as int;
    let len = before.edges.len() as int;
    let added = order_edges_below(before, root, orders, total);
    assert forall|e: int| len <= e < after.edges.len() implies {
        let edge = #[trigger] after.edges[e];
        &&& edge.kind == EdgeKind::StateOrder
        &&& !edge_leads(before.edges, edge.src, edge.tgt)
        &&& edge.src.0 < before.nodes.len() && edge.tgt.0 < before.nodes.len()
        &&& before.nodes[edge.src.0 as int].dataflow_child
        &&& before.nodes[edge.tgt.0 as int].dataflow_child
        &&& is_ordered_below(before, root, orders, edge.src, edge.tgt)
    } by {
        let edge = after.edges[e];
        assert(added[e - len] == edge);
        let (dp, k) = lemma_added_edge(before, root, orders, total, e - len);
        let order = orders[dp.0 as int];
        let chain = dataflow_nodes(before, order);
        lemma_chain_edges(before, chain, chain.len() - 1, k);
        lemma_chain_edges_missing(before, chain, chain.len() - 1, k);
        let j = choose|j: int|
            0 <= j < chain.len() - 1 && (#[trigger] chain[j]) == edge.src && chain[j + 1]
                == edge.tgt;
        assert(has_order(before, dp, ranking, order));
        let ranks = choose|ranks: Map<Node, K>| #[trigger]
            is_order(before, dp, ranks, order) && ranks_given(ranking, ranks);
        lemma_order_in_region(before, dp, ranks, order);
        lemma_dataflow_nodes(before, order);
        assert(chain.contains(chain[j]) && chain.contains(chain[j + 1]));
        assert(comes_before(order, chain[j], chain[j + 1]));
        let (u, v) = choose|u: int, v: int|
            #![trigger order[u], order[v]]
            0 <= u < v < order.len() && order[u] == edge.src && order[v] == edge.tgt;
        assert(before.at(dp).children.contains(order[u]));
        assert(before.at(dp).children.contains(order[v]));
        lemma_child_valid(before, dp, edge.src);
        lemma_child_valid(before, dp, edge.tgt);
        lemma_child(before, dp, edge.src);
        lemma_child(before, dp, edge.tgt);
        let line = lemma_line_to(before, root, dp);
        assert(is_ordered_by(before, orders, line, edge.src, edge.tgt));
    }
}

/// Whether `a` comes before `b` in the order of the region at the end of `line`,
/// which holds both.
pub open spec fn is_ordered_by(
    h: HugrModel,
    orders: Seq<Seq<Node>>,
    line: Seq<Node>,
    a: Node,
    b: Node,
) -> bool {
    &&& is_line(h, line)
    &&& h.nodes[line.last().0 as int].dataflow_parent
    &&& h.nodes[a.0 as int].parent == Some(line.last())
    &&& h.nodes[b.0 as int].parent == Some(line.last())
    &&& exists|i: int, j: int|
        #![trigger orders[line.last().0 as int][i], orders[line.last().0 as int][j]]
        0 <= i < j < orders[line.last().0 as int].len() && orders[line.last().0 as int][i] == a
            && orders[line.last().0 as int][j] == b
}

/// Whether `a` comes before `b` in the order of a region to which a line leads
/// from `root`.
pub open spec fn is_ordered_below(
    h: HugrModel,
    root: Node,
    orders: Seq<Seq<Node>>,
    a: Node,
    b: Node,
) -> bool {
    exists|line: Seq<Node>| #[trigger] is_ordered_by(h, orders, line, a, b) && line[0] == root
}

/// Edges are added only where there were none.
proof fn lemma_chain_edges_missing(h: HugrModel, chain: Seq<Node>, i: int, k: int)
    requires
        0 <= i < chain.len() || i <= 0,
        0 <= k < chain_edges(h, chain, i).len(),
    ensures
        !edge_leads(
            h.edges,
            chain_edges(h, chain, i)[k].src,
            chain_edges(h, chain, i)[k].tgt,
        ),
    decreases i,
{
    if i > 0 {
        let rest = chain_edges(h, chain, i - 1);
        if k < rest.len() {
            lemma_chain_edges_missing(h, chain, i - 1, k);
        } else {
            let edge = chain_edges(h, chain, i)[k];
            assert(edge.src == chain[i - 1] && edge.tgt == chain[i]);
            if edge_leads(h.edges, edge.src, edge.tgt) {
                assert(h.joins(edge.src, edge.tgt));
            }
        }
    }
}

/// Ranks that are numbers are compared as such.
proof fn lemma_number_ranks(a: i64, b: i64)
    ensures
        lower(a, b) <==> a < b,
        totally_ordered::<i64>(),
{
    broadcast use vstd::laws_cmp::group_laws_cmp;

}

/// Whether the edges between the children of `p`, and what should come before what
/// for its lower rank as no path leads back to it, lead upwards only.
pub open spec fn wishes_agree(
    h: HugrModel,
    p: Node,
    rank: spec_fn(Node) -> int,
    height: spec_fn(Node) -> nat,
) -> bool {
    let children = h.nodes[p.0 as int].children;
    &&& forall|a: Node, b: Node| #[trigger]
        edge_leads(h.edges, a, b) && children.contains(a) && children.contains(b) ==> height(a)
            < height(b)
    &&& forall|a: Node, b: Node|
        #![trigger children.contains(a), children.contains(b)]
        children.contains(a) && children.contains(b) && rank(a) < rank(b) && !depends_on(
            h,
            p,
            b,
            a,
        ) ==> height(a) < height(b)
}

/// In a region at any depth below the root, a node of lower rank is ordered before
/// one of higher rank so long as no path leads from the higher to the lower, where
/// that does not wish for nodes to be ordered in a cycle.
pub proof fn law_lower_numbers_come_first<F: Fn(Node) -> i64>(
    before: HugrModel,
    after: HugrModel,
    root: Node,
    ranking: F,
    orders: Seq<Seq<Node>>,
    line: Seq<Node>,
    rank: spec_fn(Node) -> int,
    height: spec_fn(Node) -> nat,
    n1: Node,
    n2: Node,
)
    requires
        before.wf(),
        order_forced::<i64, F>(before, after, root, ranking, orders),
        is_line(before, line),
        line[0] == root,
        before.nodes[line.last().0 as int].dataflow_parent,
        forall|n: Node, k: i64| #[trigger] call_ensures(ranking, (n,), k) ==> k == rank(n),
        wishes_agree(before, line.last(), rank, height),
        before.nodes[line.last().0 as int].children.contains(n1),
        before.nodes[line.last().0 as int].children.contains(n2),
        rank(n1) < rank(n2),
        !depends_on(before, line.last(), n2, n1),
    ensures
        exists|i: int, j: int|
            #![trigger orders[line.last().0 as int][i], orders[line.last().0 as int][j]]
            0 <= i < j < orders[line.last().0 as int].len() && orders[line.last().0 as int][i]
                == n1 && orders[line.last().0 as int][j] == n2,
{
    let dp = line.last();
    let order = orders[dp.0 as int];
    let children = before.nodes[dp.0 as int].children;
    let r = siblings(before, dp);
    lemma_region_on_line(before, root, line);
    assert(has_order(before, dp, ranking, order));
    let ranks = choose|ranks: Map<Node, i64>| #[trigger]
        is_order(before, dp, ranks, order) && ranks_given(ranking, ranks);
    lemma_number_ranks(0, 0);
    assert forall|n: Node| #[trigger] children.contains(n) implies r.nodes.contains(n)
        && ranks[n] == rank(n) by {
        assert(r.nodes.contains(n));
        assert(ranks.contains_key(n));
        assert(call_ensures(ranking, (n,), ranks[n]));
    }
    assert forall|a: Node, b: Node| #[trigger] r.edges.contains((a, b)) implies r.nodes.contains(a)
        && height(a) < height(b) by {
        assert(before.joins(a, b));
        assert(edge_leads(before.edges, a, b));
    }
    assert forall|a: Node, b: Node| #[trigger]
        crate::force_order::laws::should_precede(r, ranks, a, b) implies height(a) < height(b) by {
        assert(children.contains(a) && children.contains(b));
        lemma_number_ranks(ranks[a], ranks[b]);
        lemma_paths(before, dp, b, a);
    }
    lemma_number_ranks(ranks[n1], ranks[n2]);
    lemma_paths(before, dp, n2, n1);
    law_lower_rank_precedes(r, ranks, height, order, n1, n2);
    assert(comes_before(order, n1, n2));
}

/// In a region at any depth below the root, if a node and all that paths lead to it
/// from have lower ranks than another, it is ordered before the other.
pub proof fn law_low_numbers_come_first<F: Fn(Node) -> i64>(
    before: HugrModel,
    after: HugrModel,
    root: Node,
    ranking: F,
    orders: Seq<Seq<Node>>,
    line: Seq<Node>,
    rank: spec_fn(Node) -> int,
    n1: Node,
    n2: Node,
)
    requires
        before.wf(),
        order_forced::<i64, F>(before, after, root, ranking, orders),
        is_line(before, line),
        line[0] == root,
        before.nodes[line.last().0 as int].dataflow_parent,
        forall|n: Node, k: i64| #[trigger] call_ensures(ranking, (n,), k) ==> k == rank(n),
        orders[line.last().0 as int].contains(n1),
        orders[line.last().0 as int].contains(n2),
        forall|a: Node| #[trigger]
            depends_on(before, line.last(), a, n1) ==> rank(a) < rank(n2),
    ensures
        exists|i: int, j: int|
            #![trigger orders[line.last().0 as int][i], orders[line.last().0 as int][j]]
            0 <= i < j < orders[line.last().0 as int].len() && orders[line.last().0 as int][i]
                == n1 && orders[line.last().0 as int][j] == n2,
{
    let dp = line.last();
    let order = orders[dp.0 as int];
    let children = before.nodes[dp.0 as int].children;
    let r = siblings(before, dp);
    law_orders_keep_to_edges(before, after, root, ranking, orders, line);
    lemma_region_on_line(before, root, line);
    assert(has_order(before, dp, ranking, order));
    let ranks = choose|ranks: Map<Node, i64>| #[trigger]
        is_order(before, dp, ranks, order) && ranks_given(ranking, ranks);
    lemma_number_ranks(0, 0);
    assert forall|n: Node| #[trigger] children.contains(n) implies ranks[n] == rank(n) by {
        assert(r.nodes.contains(n));
        assert(ranks.contains_key(n));
        assert(call_ensures(ranking, (n,), ranks[n]));
    }
    assert(children.contains(n1) && children.contains(n2));
    assert forall|a: Node| #[trigger] leads_to(r, a, n1) implies lower(ranks[a], ranks[n2]) by {
        let path = choose|path: Seq<Node>| #[trigger]
            is_path(r, path) && path[0] == a && path.last() == n1;
        if path.len() > 1 {
            assert(r.edges.contains((path[0], path[1])));
        }
        assert(children.contains(a));
        lemma_paths(before, dp, a, n1);
        assert(depends_on(before, dp, a, n1));
        lemma_number_ranks(ranks[a], ranks[n2]);
    }
    law_low_ranks_go_first(r, ranks, order, n1, n2);
    assert(comes_before(order, n1, n2));
}

/// A walk over a graph visits nodes of the graph, each at most once, and each
/// after all that edges lead to it from; a node is left out only if an edge leads
/// to it from one that is left out.
pub proof fn law_walks_keep_to_edges<K: Ord>(
    graph: OrderGraph,
    ranks: Map<Node, K>,
    order: Seq<Node>,
)
    requires
        greedy(region(graph), ranks, order),
    ensures
        order.no_duplicates(),
        forall|i: int|
            0 <= i < order.len() ==> order_nodes(graph).contains((#[trigger] order[i]).0),
        forall|a: u32, b: u32| #[trigger]
            order_edges(graph).contains((a, b)) && order.contains(Node(b)) ==> exists|i: int, j: int|
                #![trigger order[i], order[j]]
                0 <= i < j < order.len() && order[i] == Node(a) && order[j] == Node(b),
        forall|b: u32|
            order_nodes(graph).contains(b) && !#[trigger] order.contains(Node(b)) ==> exists|a: u32|
                #[trigger] order_edges(graph).contains((a, b)) && !order.contains(Node(a)),
{
    let r = region(graph);
    crate::force_order::laws::lemma_order_distinct(r, ranks, order);
    assert forall|i: int| 0 <= i < order.len() implies order_nodes(graph).contains(
        (#[trigger] order[i]).0,
    ) by {
        assert(r.nodes.contains(order[i]));
    }
    assert forall|a: u32, b: u32| #[trigger]
        order_edges(graph).contains((a, b)) && order.contains(Node(b)) implies exists|
        i: int,
        j: int,
    |
        #![trigger order[i], order[j]]
        0 <= i < j < order.len() && order[i] == Node(a) && order[j] == Node(b) by {
        assert(r.edges.contains((Node(a), Node(b))));
        law_order_respects_edges(r, ranks, order, Node(a), Node(b));
    }
    assert forall|b: u32|
        order_nodes(graph).contains(b) && !#[trigger] order.contains(Node(b)) implies exists|a: u32|
        #[trigger] order_edges(graph).contains((a, b)) && !order.contains(Node(a)) by {
        assert(r.nodes.contains(Node(b)));
        law_orderable_nodes_are_ordered(r, ranks, order, Node(b));
        let p = choose|p: Node| #[trigger] r.edges.contains((p, Node(b))) && !order.contains(p);
        assert(order_edges(graph).contains((p.0, b)));
        assert(Node(p.0) == p);
    }
}

/// At most one edge is added from each node, and at most one to each.
pub proof fn law_added_edges_are_different<K: Ord, F: Fn(Node) -> K>(
    before: HugrModel,
    after: HugrModel,
    root: Node,
    ranking: F,
    orders: Seq<Seq<Node>>,
    d: int,
    e: int,
)
    requires
        before.wf(),
        order_forced::<K, F>(before, after, root, ranking, orders),
        before.edges.len() <= d < e < after.edges.len(),
    ensures
        after.edges[d].src != after.edges[e].src,
        after.edges[d].tgt != after.edges[e].tgt,
{
    let len = before.edges.len() as int;
    let added = order_edges_below(before, root, orders, before.nodes.len() as int);
    assert(added[d - len] == after.edges[d]);
    assert(added[e - len] == after.edges[e]);
    lemma_added_differ::<K, F>(
        before,
        root,
        ranking,
        orders,
        before.nodes.len() as int,
        d - len,
        e - len,
    );
}

proof fn lemma_added_differ<K: Ord, F: Fn(Node) -> K>(
    h: HugrModel,
    root: Node,
    ranking: F,
    orders: Seq<Seq<Node>>,
    n: int,
    d: int,
    e: int,
)
    requires
        h.wf(),
        orders_given::<K, F>(h, root, ranking, orders),
        0 <= n <= h.nodes.len(),
        0 <= d < e < order_edges_below(h, root, orders, n).len(),
    ensures
        order_edges_below(h, root, orders, n)[d].src != order_edges_below(
            h,
            root,
            orders,
            n,
        )[e].src,
        order_edges_below(h, root, orders, n)[d].tgt != order_edges_below(
            h,
            root,
            orders,
            n,
        )[e].tgt,
    decreases n,
{
    if n > 0 {
        let dp = Node((n - 1) as u32);
        let rest = order_edges_below(h, root, orders, n - 1);
        let all = order_edges_below(h, root, orders, n);
        if e < rest.len() {
            lemma_added_differ::<K, F>(h, root, ranking, orders, n - 1, d, e);
        } else {
            let order = orders[n - 1];
            let own = region_edges(h, order);
            let chain = dataflow_nodes(h, order);
            lemma_chain_of_region::<K, F>(h, root, ranking, orders, dp);
            assert(all[e] == own[e - rest.len()]);
            lemma_chain_edges(h, chain, chain.len() - 1, e - rest.len());
            let j = choose|j: int|
                0 <= j < chain.len() - 1 && (#[trigger] chain[j]) == all[e].src && chain[j + 1]
                    == all[e].tgt;
            if d < rest.len() {
                let (q, k) = lemma_added_edge(h, root, orders, n - 1, d);
                let other = dataflow_nodes(h, orders[q.0 as int]);
                lemma_chain_of_region::<K, F>(h, root, ranking, orders, q);
                lemma_chain_edges(h, other, other.len() - 1, k);
                let i = choose|i: int|
                    0 <= i < other.len() - 1 && (#[trigger] other[i]) == all[d].src && other[i + 1]
                        == all[d].tgt;
                assert(h.at(other[i]).parent == Some(q));
                assert(h.at(other[i + 1]).parent == Some(q));
                assert(h.at(chain[j]).parent == Some(dp));
                assert(h.at(chain[j + 1]).parent == Some(dp));
            } else {
                assert(all[d] == own[d - rest.len()]);
                lemma_chain_edges_differ(
                    h,
                    chain,
                    chain.len() - 1,
                    d - rest.len(),
                    e - rest.len(),
                );
            }
        }
    }
}

/// The dataflow nodes in the order of a region are different children of it.
proof fn lemma_chain_of_region<K: Ord, F: Fn(Node) -> K>(
    h: HugrModel,
    root: Node,
    ranking: F,
    orders: Seq<Seq<Node>>,
    dp: Node,
)
    requires
        h.wf(),
        orders_given::<K, F>(h, root, ranking, orders),
        is_region(h, root, dp),
    ensures
        dataflow_nodes(h, orders[dp.0 as int]).no_duplicates(),
        forall|i: int|
            0 <= i < dataflow_nodes(h, orders[dp.0 as int]).len() ==> h.at(
                #[trigger] dataflow_nodes(h, orders[dp.0 as int])[i],
            ).parent == Some(dp),
{
    let order = orders[dp.0 as int];
    let chain = dataflow_nodes(h, order);
    assert(has_order(h, dp, ranking, order));
    let ranks = choose|ranks: Map<Node, K>| #[trigger]
        is_order(h, dp, ranks, order) && ranks_given(ranking, ranks);
    lemma_order_in_region(h, dp, ranks, order);
    lemma_dataflow_nodes(h, order);
    assert forall|i: int| 0 <= i < chain.len() implies h.at(#[trigger] chain[i]).parent == Some(
        dp,
    ) by {
        assert(chain.contains(chain[i]));
        let k = choose|k: int| 0 <= k < order.len() && order[k] == chain[i];
        assert(h.at(dp).children.contains(order[k]));
        lemma_child_valid(h, dp, chain[i]);
        lemma_child(h, dp, chain[i]);
    }
}

proof fn lemma_chain_edges_differ(h: HugrModel, chain: Seq<Node>, i: int, d: int, e: int)
    requires
        chain.no_duplicates(),
        0 <= i < chain.len() || i <= 0,
        0 <= d < e < chain_edges(h, chain, i).len(),
    ensures
        chain_edges(h, chain, i)[d].src != chain_edges(h, chain, i)[e].src,
        chain_edges(h, chain, i)[d].tgt != chain_edges(h, chain, i)[e].tgt,
    decreases i,
{
    if i > 0 {
        let rest = chain_edges(h, chain, i - 1);
        if e < rest.len() {
            lemma_chain_edges_differ(h, chain, i - 1, d, e);
        } else {
            lemma_chain_edges(h, chain, i - 1, d);
            let j = choose|j: int|
                0 <= j < i - 1 && (#[trigger] chain[j]) == rest[d].src && chain[j + 1]
                    == rest[d].tgt;
            assert(chain[j] != chain[i - 1]);
            assert(chain[j + 1] != chain[i]);
        }
    }
}

/// Of the nodes that wait, one is taken that none of lower rank waits beside.
pub proof fn law_lowest_rank_is_taken<'a, F: Fn(Node) -> i64>(
    topo: ForceOrder<'a, i64, F>,
    r: Region,
    ranks: Map<Node, i64>,
    n: Node,
    m: Node,
)
    requires
        topo.takes(r, ranks, n),
        topo.queue().contains(m),
        !topo.done().contains(m),
    ensures
        topo.queue().contains(n),
        !topo.done().contains(n),
        ranks[n] <= ranks[m],
{
    assert(topo.waits(m));
    lemma_number_ranks(ranks[n], ranks[m]);
    lemma_number_ranks(ranks[m], ranks[n]);
    crate::force_order::walk::lemma_ranks(ranks[n], ranks[m], ranks[n]);
}

/// The region of a graph has the nodes and the edges of the graph; a walk starts at
/// those of its nodes that no edge ends at.
pub proof fn law_walks_start_where_nothing_ends(graph: OrderGraph, a: u32, b: u32)
    ensures
        region(graph).nodes.contains(Node(a)) <==> order_nodes(graph).contains(a),
        region(graph).edges.contains((Node(a), Node(b))) <==> order_edges(graph).contains((a, b)),
        is_initial(region(graph), Node(b)) <==> order_nodes(graph).contains(b) && forall|p: u32|
            !#[trigger] order_edges(graph).contains((p, b)),
{
    let r = region(graph);
    if forall|p: u32| !#[trigger] order_edges(graph).contains((p, b)) {
        assert forall|p: Node| !#[trigger] r.edges.contains((p, Node(b))) by {
            assert(!order_edges(graph).contains((p.0, b)));
        }
    }
    if is_initial(r, Node(b)) {
        assert forall|p: u32| !#[trigger] order_edges(graph).contains((p, b)) by {
            assert(!r.edges.contains((Node(p), Node(b))));
        }
    }
}

} // verus!
