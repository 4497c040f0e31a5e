//! What holds of orders and of the edges that force them.

use vstd::prelude::*;

use crate::force_order::walk::{
    Region, best_at, greedy, heads, is_path, leads_to, lemma_preferred, lemma_ranks, level, lower,
    preferred, ranks_given, totally_ordered,
};
use crate::force_order::{
    can_be_forced, can_chain, chain_edges, comes_before, dataflow_nodes, has_order, is_below,
    is_order, is_region, lemma_chain_edges, lemma_child, lemma_child_valid, lemma_dataflow_nodes,
    lemma_order_in_region, order_edges_below, order_forced, orders_given, region_edges, siblings,
};
use crate::hugr::{Edge, EdgeKind, HugrModel, Node};

verus! {

/// An order lists each node at most once.
pub(crate) proof fn lemma_order_distinct<K: Ord>(r: Region, ranks: Map<Node, K>, order: Seq<Node>)
    requires
        greedy(r, ranks, order),
    ensures
        order.no_duplicates(),
        forall|i: int| 0 <= i < order.len() ==> r.nodes.contains(#[trigger] order[i]),
{
    assert forall|i: int| 0 <= i < order.len() implies r.nodes.contains(#[trigger] order[i]) by {
        assert(best_at(r, ranks, order, i));
    }
    assert forall|i: int, j: int| 0 <= i < j < order.len() implies order[i] != order[j] by {
        assert(best_at(r, ranks, order, j));
        assert(order.take(j)[i] == order[i]);
        assert(order.take(j).contains(order[i]));
    }
}

/// A node is ordered after everything that it depends on directly.
pub proof fn law_order_respects_edges<K: Ord>(
    r: Region,
    ranks: Map<Node, K>,
    order: Seq<Node>,
    p: Node,
    n: Node,
)
    requires
        greedy(r, ranks, order),
        r.edges.contains((p, n)),
        order.contains(n),
    ensures
        comes_before(order, p, n),
{
    let j = choose|j: int| 0 <= j < order.len() && order[j] == n;
    assert(best_at(r, ranks, order, j));
    assert(order.take(j).to_set().contains(p));
    let i = choose|i: int| 0 <= i < j && order.take(j)[i] == p;
    assert(order[i] == p);
}

/// A node is ordered after everything that it depends on.
pub proof fn law_order_respects_dependencies<K: Ord>(
    r: Region,
    ranks: Map<Node, K>,
    order: Seq<Node>,
    a: Node,
    n: Node,
)
    requires
        greedy(r, ranks, order),
        leads_to(r, a, n),
        order.contains(n),
    ensures
        a == n || comes_before(order, a, n),
{
    let path = choose|path: Seq<Node>| #[trigger]
        is_path(r, path) && path[0] == a && path.last() == n;
    lemma_path_back(r, ranks, order, path, 0);
}

proof fn lemma_path_back<K: Ord>(
    r: Region,
    ranks: Map<Node, K>,
    order: Seq<Node>,
    path: Seq<Node>,
    k: int,
)
    requires
        greedy(r, ranks, order),
        is_path(r, path),
        order.contains(path.last()),
        0 <= k < path.len(),
    ensures
        order.contains(path[k]),
        path[k] == path.last() || comes_before(order, path[k], path.last()),
    decreases path.len() - k,
{
    if k < path.len() - 1 {
        lemma_path_back(r, ranks, order, path, k + 1);
        let p = path[k];
        let m = path[k + 1];
        let n = path.last();
        law_order_respects_edges(r, ranks, order, p, m);
        let (i, j) = choose|i: int, j: int|
            #![trigger order[i], order[j]]
            0 <= i < j < order.len() && order[i] == p && order[j] == m;
        assert(order.contains(p));
        if m != n {
            lemma_order_distinct(r, ranks, order);
            let (x, y) = choose|x: int, y: int|
                #![trigger order[x], order[y]]
                0 <= x < y < order.len() && order[x] == m && order[y] == n;
            assert(x == j);
            assert(order[i] == p && order[y] == n);
        }
    }
}

/// Any node that can be ordered is: what is left out depends on something that
/// is left out.
pub proof fn law_orderable_nodes_are_ordered<K: Ord>(
    r: Region,
    ranks: Map<Node, K>,
    order: Seq<Node>,
    n: Node,
)
    requires
        greedy(r, ranks, order),
        r.nodes.contains(n),
        !order.contains(n),
    ensures
        exists|p: Node| #[trigger] r.edges.contains((p, n)) && !order.contains(p),
{
    assert(!r.available(order.to_set(), n));
}

/// Where nothing depends on itself, all nodes are ordered.
pub proof fn law_acyclic_regions_are_ordered<K: Ord>(
    r: Region,
    ranks: Map<Node, K>,
    order: Seq<Node>,
    height: spec_fn(Node) -> nat,
    n: Node,
)
    requires
        greedy(r, ranks, order),
        forall|p: Node, m: Node| #[trigger]
            r.edges.contains((p, m)) ==> r.nodes.contains(p) && height(p) < height(m),
        r.nodes.contains(n),
    ensures
        order.contains(n),
    decreases height(n),
{
    if !order.contains(n) {
        law_orderable_nodes_are_ordered(r, ranks, order, n);
        let p = choose|p: Node| #[trigger] r.edges.contains((p, n)) && !order.contains(p);
        law_acyclic_regions_are_ordered(r, ranks, order, height, p);
    }
}

/// The order is determined by the region and the ranks.
pub proof fn law_order_is_determined<K: Ord>(
    r: Region,
    ranks: Map<Node, K>,
    a: Seq<Node>,
    b: Seq<Node>,
)
    requires
        totally_ordered::<K>(),
        greedy(r, ranks, a),
        greedy(r, ranks, b),
    ensures
        a == b,
{
    let len = if a.len() <= b.len() {
        a.len() as int
    } else {
        b.len() as int
    };
    lemma_same_start(r, ranks, a, b, len);
    if a.len() < b.len() {
        assert(best_at(r, ranks, b, len));
        assert(b.take(len) =~= a);
    }
    if b.len() < a.len() {
        assert(best_at(r, ranks, a, len));
        assert(a.take(len) =~= b);
    }
    assert(a =~= b);
}

proof fn lemma_same_start<K: Ord>(
    r: Region,
    ranks: Map<Node, K>,
    a: Seq<Node>,
    b: Seq<Node>,
    len: int,
)
    requires
        totally_ordered::<K>(),
        greedy(r, ranks, a),
        greedy(r, ranks, b),
        0 <= len <= a.len(),
        len <= b.len(),
    ensures
        forall|i: int| 0 <= i < len ==> a[i] == b[i],
    decreases len,
{
    if len > 0 {
        let i = len - 1;
        lemma_same_start(r, ranks, a, b, i);
        assert(best_at(r, ranks, a, i));
        assert(best_at(r, ranks, b, i));
        assert(a.take(i) =~= b.take(i));
        assert(r.available(a.take(i).to_set(), b[i]));
        assert(r.available(b.take(i).to_set(), a[i]));
        lemma_preferred(r, a.take(i).to_set(), ranks, a[i], b[i], a[i]);
    }
}

/// From a node that is not among the first `j` of the order one gets back to one
/// that may come next there.
proof fn lemma_available_source<K: Ord>(
    r: Region,
    ranks: Map<Node, K>,
    order: Seq<Node>,
    j: int,
    q: int,
) -> (a: Node)
    requires
        greedy(r, ranks, order),
        0 <= j <= q < order.len(),
    ensures
        leads_to(r, a, order[q]),
        r.available(order.take(j).to_set(), a),
    decreases q,
{
    let done = order.take(j).to_set();
    let n = order[q];
    lemma_order_distinct(r, ranks, order);
    assert(best_at(r, ranks, order, q));
    assert(!order.take(j).contains(n)) by {
        if order.take(j).contains(n) {
            let i = choose|i: int| 0 <= i < j && order.take(j)[i] == n;
            assert(order[i] == n);
        }
    }
    if r.ready(done, n) {
        assert(is_path(r, seq![n]));
        n
    } else {
        let p = choose|p: Node| #[trigger] r.edges.contains((p, n)) && !done.contains(p);
        assert(order.take(q).to_set().contains(p));
        let i = choose|i: int| 0 <= i < q && order.take(q)[i] == p;
        assert(order[i] == p);
        if i < j {
            assert(order.take(j)[i] == p);
            assert(order.take(j).contains(p));
        }
        let a = lemma_available_source(r, ranks, order, j, i);
        let path = choose|path: Seq<Node>| #[trigger]
            is_path(r, path) && path[0] == a && path.last() == p;
        let longer = path.push(n);
        assert forall|x: int, y: int|
            #![trigger longer[x], longer[y]]
            0 <= x && y == x + 1 && y < longer.len() implies r.edges.contains(
            (longer[x], longer[y]),
        ) by {
            if y < path.len() {
                assert(r.edges.contains((path[x], path[y])));
            }
        }
        assert(is_path(r, longer));
        a
    }
}

/// A node of lower rank is ordered before one of higher rank just if nothing
/// that it depends on and that has no lower rank than the other comes after the
/// other, or is the other.
pub proof fn law_lower_rank_goes_first<K: Ord>(
    r: Region,
    ranks: Map<Node, K>,
    order: Seq<Node>,
    n1: Node,
    n2: Node,
)
    requires
        totally_ordered::<K>(),
        greedy(r, ranks, order),
        order.contains(n1),
        order.contains(n2),
        lower(ranks[n1], ranks[n2]),
    ensures
        comes_before(order, n1, n2) <==> !exists|a: Node| #[trigger]
            leads_to(r, a, n1) && !lower(ranks[a], ranks[n2]) && (a == n2 || comes_before(
                order,
                n2,
                a,
            )),
{
    lemma_order_distinct(r, ranks, order);
    lemma_ranks(ranks[n1], ranks[n2], ranks[n1]);
    let q = choose|q: int| 0 <= q < order.len() && order[q] == n1;
    let j = choose|j: int| 0 <= j < order.len() && order[j] == n2;
    if q < j {
        assert(order[q] == n1 && order[j] == n2);
        assert forall|a: Node| #[trigger] leads_to(r, a, n1) && (a == n2 || comes_before(
            order,
            n2,
            a,
        )) implies lower(ranks[a], ranks[n2]) by {
            law_order_respects_dependencies(r, ranks, order, a, n1);
        }
    } else {
        let a = lemma_available_source(r, ranks, order, j, q);
        assert(best_at(r, ranks, order, j));
        assert(preferred(r, order.take(j).to_set(), ranks, n2, a));
        lemma_ranks(ranks[n2], ranks[a], ranks[n2]);
        lemma_ranks(ranks[a], ranks[n2], ranks[a]);
        law_order_respects_dependencies(r, ranks, order, a, n1);
        assert(order.contains(a));
        let x = choose|x: int| 0 <= x < order.len() && order[x] == a;
        if x < j {
            assert(order.take(j)[x] == a);
            assert(order.take(j).contains(a));
        }
        if x > j {
            assert(order[j] == n2 && order[x] == a);
            assert(comes_before(order, n2, a));
        }
        assert(leads_to(r, a, n1) && !lower(ranks[a], ranks[n2]));
    }
}

/// If all that a node depends on is ranked lower than another node, and so is
/// the node itself, then it is ordered before the other.
pub proof fn law_low_ranks_go_first<K: Ord>(
    r: Region,
    ranks: Map<Node, K>,
    order: Seq<Node>,
    n1: Node,
    n2: Node,
)
    requires
        totally_ordered::<K>(),
        greedy(r, ranks, order),
        order.contains(n1),
        order.contains(n2),
        forall|a: Node| #[trigger] leads_to(r, a, n1) ==> lower(ranks[a], ranks[n2]),
    ensures
        comes_before(order, n1, n2),
{
    assert(is_path(r, seq![n1]));
    assert(leads_to(r, n1, n1));
    law_lower_rank_goes_first(r, ranks, order, n1, n2);
}

/// Whether `n1` should be ordered before `n2` for its lower rank: no path leads
/// back to it.
pub open spec fn should_precede<K: Ord>(
    r: Region,
    ranks: Map<Node, K>,
    n1: Node,
    n2: Node,
) -> bool {
    &&& r.nodes.contains(n1)
    &&& r.nodes.contains(n2)
    &&& lower(ranks[n1], ranks[n2])
    &&& !leads_to(r, n2, n1)
}

/// Whether the edges and what should precede what for its rank can be met
/// together: `height` numbers the nodes so that both lead upwards only.
pub open spec fn can_agree<K: Ord>(
    r: Region,
    ranks: Map<Node, K>,
    height: spec_fn(Node) -> nat,
) -> bool {
    &&& forall|p: Node, n: Node| #[trigger]
        r.edges.contains((p, n)) ==> r.nodes.contains(p) && height(p) < height(n)
    &&& forall|n1: Node, n2: Node| #[trigger]
        should_precede(r, ranks, n1, n2) ==> height(n1) < height(n2)
}

/// Of the nodes that are left, one that nothing else that is left should come
/// before.
proof fn lemma_least_left<K: Ord>(
    r: Region,
    ranks: Map<Node, K>,
    height: spec_fn(Node) -> nat,
    done: Set<Node>,
    n: Node,
) -> (m: Node)
    requires
        can_agree(r, ranks, height),
        r.nodes.contains(n),
        !done.contains(n),
    ensures
        r.available(done, m),
        heads(r, done, ranks, m),
    decreases height(n),
{
    if exists|x: Node|
        r.nodes.contains(x) && !done.contains(x) && #[trigger] height(x) < height(n) {
        let x = choose|x: Node|
            r.nodes.contains(x) && !done.contains(x) && #[trigger] height(x) < height(n);
        lemma_least_left(r, ranks, height, done, x)
    } else {
        assert forall|p: Node| #[trigger] r.edges.contains((p, n)) implies done.contains(p) by {
            assert(height(p) < height(n));
        }
        assert forall|x: Node| #[trigger]
            r.nodes.contains(x) && !done.contains(x) && lower(
                ranks[x],
                ranks[n],
            ) implies leads_to(r, n, x) by {
            if !leads_to(r, n, x) {
                assert(should_precede(r, ranks, x, n));
                assert(height(x) < height(n));
            }
        }
        n
    }
}

/// What a node that may come next depends on has been ordered.
proof fn lemma_needed_is_done<K: Ord>(
    r: Region,
    ranks: Map<Node, K>,
    order: Seq<Node>,
    i: int,
    path: Seq<Node>,
    k: int,
)
    requires
        greedy(r, ranks, order),
        0 <= i <= order.len(),
        is_path(r, path),
        r.available(order.take(i).to_set(), path.last()),
        0 <= k < path.len() - 1,
    ensures
        order.take(i).to_set().contains(path[k]),
    decreases path.len() - k,
{
    let done = order.take(i).to_set();
    assert(r.edges.contains((path[k], path[k + 1])));
    if k + 1 < path.len() - 1 {
        lemma_needed_is_done(r, ranks, order, i, path, k + 1);
        let t = choose|t: int| 0 <= t < i && order.take(i)[t] == path[k + 1];
        assert(best_at(r, ranks, order, t));
        assert(order.take(t).to_set().contains(path[k]));
        let x = choose|x: int| 0 <= x < t && order.take(t)[x] == path[k];
        assert(order.take(i)[x] == path[k]);
        assert(order.take(i).contains(path[k]));
    }
}

/// Where edges and ranks can agree, each node is taken only when all that is left
/// with a lower rank depends on it.
proof fn lemma_heads_are_taken<K: Ord>(
    r: Region,
    ranks: Map<Node, K>,
    height: spec_fn(Node) -> nat,
    order: Seq<Node>,
    i: int,
)
    requires
        totally_ordered::<K>(),
        greedy(r, ranks, order),
        can_agree(r, ranks, height),
        0 <= i < order.len(),
    ensures
        heads(r, order.take(i).to_set(), ranks, order[i]),
{
    let done = order.take(i).to_set();
    let n = order[i];
    assert(best_at(r, ranks, order, i));
    let m = lemma_least_left(r, ranks, height, done, n);
    assert(preferred(r, done, ranks, n, m));
    lemma_ranks(ranks[n], ranks[m], ranks[n]);
    if lower(ranks[n], ranks[m]) {
        assert(leads_to(r, m, n));
        let path = choose|path: Seq<Node>| #[trigger]
            is_path(r, path) && path[0] == m && path.last() == n;
        if path.len() == 1 {
            lemma_ranks(ranks[n], ranks[n], ranks[n]);
        } else {
            lemma_needed_is_done(r, ranks, order, i, path, 0);
        }
    }
}

/// A node of lower rank is ordered before one of higher rank so long as no path
/// leads from the higher to the lower, where that does not wish for nodes to be
/// ordered in a cycle.
pub proof fn law_lower_rank_precedes<K: Ord>(
    r: Region,
    ranks: Map<Node, K>,
    height: spec_fn(Node) -> nat,
    order: Seq<Node>,
    n1: Node,
    n2: Node,
)
    requires
        totally_ordered::<K>(),
        greedy(r, ranks, order),
        can_agree(r, ranks, height),
        r.nodes.contains(n1),
        r.nodes.contains(n2),
        lower(ranks[n1], ranks[n2]),
        !leads_to(r, n2, n1),
    ensures
        comes_before(order, n1, n2),
{
    law_acyclic_regions_are_ordered(r, ranks, order, height, n1);
    law_acyclic_regions_are_ordered(r, ranks, order, height, n2);
    lemma_ranks(ranks[n1], ranks[n2], ranks[n1]);
    let i = choose|i: int| 0 <= i < order.len() && order[i] == n1;
    let j = choose|j: int| 0 <= j < order.len() && order[j] == n2;
    if j < i {
        lemma_heads_are_taken(r, ranks, height, order, j);
        lemma_order_distinct(r, ranks, order);
        assert(!order.take(j).contains(n1)) by {
            if order.take(j).contains(n1) {
                let x = choose|x: int| 0 <= x < j && order.take(j)[x] == n1;
                assert(order[x] == order[i]);
            }
        }
    }
    assert(i != j) by {
        lemma_ranks(ranks[n1], ranks[n1], ranks[n1]);
    }
    assert(order[i] == n1 && order[j] == n2);
}

/// Only how the ranks compare matters: ranks that compare alike, such as those
/// that an increasing function gives for them, give the same order.
pub proof fn law_only_comparing_matters<K: Ord, L: Ord>(
    r: Region,
    ranks: Map<Node, K>,
    others: Map<Node, L>,
    order: Seq<Node>,
)
    requires
        greedy(r, ranks, order),
        forall|n: Node| #[trigger] r.nodes.contains(n) ==> others.contains_key(n),
        forall|m: Node, n: Node|
            #![trigger r.nodes.contains(m), r.nodes.contains(n)]
            r.nodes.contains(m) && r.nodes.contains(n) ==> {
                &&& lower(ranks[m], ranks[n]) == lower(others[m], others[n])
                &&& level(ranks[m], ranks[n]) == level(others[m], others[n])
            },
    ensures
        greedy(r, others, order),
{
    assert forall|i: int| 0 <= i < order.len() implies #[trigger] best_at(r, others, order, i) by {
        let done = order.take(i).to_set();
        assert(best_at(r, ranks, order, i));
        assert forall|n: Node| #[trigger] r.nodes.contains(n) implies heads(r, done, ranks, n)
            == heads(r, done, others, n) by {
            if heads(r, done, ranks, n) {
                assert forall|x: Node| #[trigger]
                    r.nodes.contains(x) && !done.contains(x) && lower(
                        others[x],
                        others[n],
                    ) implies leads_to(r, n, x) by {}
            }
        }
        assert(r.nodes.contains(order[i]));
        assert forall|n: Node| #[trigger] r.available(done, n) implies preferred(
            r,
            done,
            others,
            order[i],
            n,
        ) by {
            assert(preferred(r, done, ranks, order[i], n));
            assert(r.nodes.contains(n));
        }
    }
}

/// The steps along a chain that get an edge are at most all of them.
proof fn lemma_chain_edges_len(h: HugrModel, chain: Seq<Node>, i: int)
    requires
        0 <= i,
    ensures
        chain_edges(h, chain, i).len() <= i,
    decreases i,
{
    if i > 0 {
        lemma_chain_edges_len(h, chain, i - 1);
    }
}

/// A dataflow parent with `C` children gets at most `C-1` edges.
pub proof fn law_few_edges_are_added<K: Ord>(
    h: HugrModel,
    dp: Node,
    ranks: Map<Node, K>,
    order: Seq<Node>,
)
    requires
        h.wf(),
        h.valid(dp),
        is_order(h, dp, ranks, order),
    ensures
        region_edges(h, order).len() <= (if h.at(dp).children.len() == 0 {
            0
        } else {
            h.at(dp).children.len() - 1
        }),
{
    let children = h.at(dp).children;
    let chain = dataflow_nodes(h, order);
    lemma_order_in_region(h, dp, ranks, order);
    lemma_dataflow_nodes(h, order);
    assert(order.to_set().subset_of(children.to_set())) by {
        assert forall|n: Node| order.to_set().contains(n) implies children.to_set().contains(
            n,
        ) by {
            let i = choose|i: int| 0 <= i < order.len() && order[i] == n;
            assert(children.contains(order[i]));
        }
    }
    order.unique_seq_to_set();
    vstd::seq_lib::seq_to_set_is_finite(children);
    vstd::set_lib::lemma_len_subset(order.to_set(), children.to_set());
    children.lemma_cardinality_of_set();
    if chain.len() > 0 {
        lemma_chain_edges_len(h, chain, chain.len() - 1);
    }
}

/// Old edges are kept.
pub proof fn law_edges_are_kept<K: Ord, F: Fn(Node) -> K>(
    before: HugrModel,
    after: HugrModel,
    root: Node,
    ranking: F,
    orders: Seq<Seq<Node>>,
    a: Node,
    b: Node,
)
    requires
        order_forced::<K, F>(before, after, root, ranking, orders),
        before.joins(a, b),
    ensures
        after.joins(a, b),
{
    let e = choose|e: int|
        0 <= e < before.edges.len() && (#[trigger] before.edges[e]).src == a && before.edges[e].tgt
            == b;
    assert(after.edges[e] == before.edges[e]);
}

/// The edges for a region are among all that are added.
proof fn lemma_region_edges_added(
    h: HugrModel,
    root: Node,
    orders: Seq<Seq<Node>>,
    n: int,
    dp: Node,
    k: int,
)
    requires
        is_region(h, root, dp),
        dp.0 < n <= h.nodes.len(),
        0 <= k < region_edges(h, orders[dp.0 as int]).len(),
    ensures
        order_edges_below(h, root, orders, n).contains(region_edges(h, orders[dp.0 as int])[k]),
    decreases n,
{
    let edge = region_edges(h, orders[dp.0 as int])[k];
    let rest = order_edges_below(h, root, orders, n - 1);
    let all = order_edges_below(h, root, orders, n);
    if dp.0 == n - 1 {
        assert(Node((n - 1) as u32) == dp);
        assert(all[rest.len() + k] == edge);
    } else {
        lemma_region_edges_added(h, root, orders, n - 1, dp, k);
        let i = choose|i: int| 0 <= i < rest.len() && rest[i] == edge;
        assert(all[i] == edge);
    }
}

/// A step along a chain that no edge leads along gets one.
proof fn lemma_step_edge(h: HugrModel, chain: Seq<Node>, i: int, s: int)
    requires
        0 <= s < i,
        !h.joins(chain[s], chain[s + 1]),
    ensures
        exists|k: int|
            0 <= k < chain_edges(h, chain, i).len() && (#[trigger] chain_edges(h, chain, i)[k]).src
                == chain[s] && chain_edges(h, chain, i)[k].tgt == chain[s + 1],
    decreases i,
{
    let all = chain_edges(h, chain, i);
    let rest = chain_edges(h, chain, i - 1);
    if s == i - 1 {
        assert(all[rest.len() as int].src == chain[s]);
    } else {
        lemma_step_edge(h, chain, i - 1, s);
        let k = choose|k: int|
            0 <= k < rest.len() && (#[trigger] rest[k]).src == chain[s] && rest[k].tgt == chain[s
                + 1];
        assert(all[k] == rest[k]);
    }
}

/// In each region at or below the root, an edge leads from each dataflow node to
/// the next in the order.
pub proof fn law_regions_are_chained<K: Ord, F: Fn(Node) -> K>(
    before: HugrModel,
    after: HugrModel,
    root: Node,
    ranking: F,
    orders: Seq<Seq<Node>>,
    dp: Node,
    i: int,
)
    requires
        order_forced::<K, F>(before, after, root, ranking, orders),
        is_region(before, root, dp),
        0 <= i < dataflow_nodes(before, orders[dp.0 as int]).len() - 1,
    ensures
        after.joins(
            dataflow_nodes(before, orders[dp.0 as int])[i],
            dataflow_nodes(before, orders[dp.0 as int])[i + 1],
        ),
{
    let chain = dataflow_nodes(before, orders[dp.0 as int]);
    if before.joins(chain[i], chain[i + 1]) {
        law_edges_are_kept(before, after, root, ranking, orders, chain[i], chain[i + 1]);
    } else {
        let n = before.nodes.len() as int;
        let added = order_edges_below(before, root, orders, n);
        let own = region_edges(before, orders[dp.0 as int]);
        lemma_step_edge(before, chain, chain.len() - 1, i);
        let k = choose|k: int|
            0 <= k < own.len() && (#[trigger] own[k]).src == chain[i] && own[k].tgt == chain[i + 1];
        lemma_region_edges_added(before, root, orders, n, dp, k);
        let x = choose|x: int| 0 <= x < added.len() && added[x] == own[k];
        assert(after.edges[before.edges.len() + x] == own[k]);
    }
}

/// Where an edge that is added comes from.
pub(crate) proof fn lemma_added_edge(
    h: HugrModel,
    root: Node,
    orders: Seq<Seq<Node>>,
    n: int,
    k: int,
) -> (found: (Node, int))
    requires
        h.wf(),
        0 <= n <= h.nodes.len(),
        0 <= k < order_edges_below(h, root, orders, n).len(),
    ensures
        is_region(h, root, found.0),
        found.0.0 < n,
        0 <= found.1 < region_edges(h, orders[found.0.0 as int]).len(),
        order_edges_below(h, root, orders, n)[k] == region_edges(
            h,
            orders[found.0.0 as int],
        )[found.1],
    decreases n,
{
    let dp = Node((n - 1) as u32);
    let rest = order_edges_below(h, root, orders, n - 1);
    if k < rest.len() {
        lemma_added_edge(h, root, orders, n - 1, k)
    } else {
        (dp, k - rest.len())
    }
}

/// Nothing is added but order edges between dataflow nodes of the same region.
pub proof fn law_only_order_edges_are_added<K: Ord, F: Fn(Node) -> K>(
    before: HugrModel,
    after: HugrModel,
    root: Node,
    ranking: F,
    orders: Seq<Seq<Node>>,
    e: int,
)
    requires
        before.wf(),
        order_forced::<K, F>(before, after, root, ranking, orders),
        before.edges.len() <= e < after.edges.len(),
    ensures
        after.edges[e].kind == EdgeKind::StateOrder,
        exists|dp: Node|
            {
                &&& #[trigger] is_region(before, root, dp)
                &&& dataflow_nodes(before, orders[dp.0 as int]).contains(after.edges[e].src)
                &&& dataflow_nodes(before, orders[dp.0 as int]).contains(after.edges[e].tgt)
            },
{
    let total = before.nodes.len() as int;
    let len = before.edges.len() as int;
    let added = order_edges_below(before, root, orders, total);
    assert(added[e - len] == after.edges[e]);
    let (dp, k) = lemma_added_edge(before, root, orders, total, e - len);
    let chain = dataflow_nodes(before, orders[dp.0 as int]);
    lemma_chain_edges(before, chain, chain.len() - 1, k);
    let j = choose|j: int|
        0 <= j < chain.len() - 1 && (#[trigger] chain[j]) == after.edges[e].src && chain[j + 1]
            == after.edges[e].tgt;
    assert(chain.contains(chain[j]));
    assert(chain.contains(chain[j + 1]));
}

/// The order of a region is an order for all edges between its nodes, those that
/// were added too: none of them leads back.
pub proof fn law_edges_go_forward<K: Ord, F: Fn(Node) -> K>(
    before: HugrModel,
    after: HugrModel,
    root: Node,
    ranking: F,
    orders: Seq<Seq<Node>>,
    dp: Node,
    p: Node,
    n: Node,
)
    requires
        before.wf(),
        order_forced::<K, F>(before, after, root, ranking, orders),
        is_region(before, root, dp),
        siblings(after, dp).edges.contains((p, n)),
        orders[dp.0 as int].contains(n),
    ensures
        comes_before(orders[dp.0 as int], p, n),
{
    let order = orders[dp.0 as int];
    assert(has_order(before, dp, ranking, order));
    let ranks = choose|ranks: Map<Node, K>| #[trigger]
        is_order(before, dp, ranks, order) && ranks_given(ranking, ranks);
    let e = choose|e: int|
        0 <= e < after.edges.len() && (#[trigger] after.edges[e]).src == p && after.edges[e].tgt
            == n;
    let len = before.edges.len() as int;
    if e < len {
        assert(before.edges[e] == after.edges[e]);
        assert(before.joins(p, n));
        law_order_respects_edges(siblings(before, dp), ranks, order, p, n);
    } else {
        let total = before.nodes.len() as int;
        let added = order_edges_below(before, root, orders, total);
        assert(added[e - len] == after.edges[e]);
        let (d, k) = lemma_added_edge(before, root, orders, total, e - len);
        let chain = dataflow_nodes(before, orders[d.0 as int]);
        lemma_chain_edges(before, chain, chain.len() - 1, k);
        let j = choose|j: int|
            0 <= j < chain.len() - 1 && (#[trigger] chain[j]) == p && chain[j + 1] == n;
        assert(has_order(before, d, ranking, orders[d.0 as int]));
        let other = choose|other: Map<Node, K>| #[trigger]
            is_order(before, d, other, orders[d.0 as int]) && ranks_given(ranking, other);
        lemma_order_in_region(before, d, other, orders[d.0 as int]);
        lemma_dataflow_nodes(before, orders[d.0 as int]);
        assert(comes_before(orders[d.0 as int], chain[j], chain[j + 1]));
        assert(chain.contains(chain[j]));
        let x = choose|x: int|
            0 <= x < orders[d.0 as int].len() && orders[d.0 as int][x] == p;
        assert(before.at(d).children.contains(orders[d.0 as int][x]));
        lemma_child_valid(before, d, p);
        lemma_child(before, d, p);
        lemma_child(before, dp, p);
        assert(d == dp);
    }
}

/// The order of a region is forced: of two of its dataflow nodes, the later one
/// depends on the earlier one.
pub proof fn law_order_is_forced<K: Ord, F: Fn(Node) -> K>(
    before: HugrModel,
    after: HugrModel,
    root: Node,
    ranking: F,
    orders: Seq<Seq<Node>>,
    dp: Node,
    n1: Node,
    n2: Node,
)
    requires
        order_forced::<K, F>(before, after, root, ranking, orders),
        is_region(before, root, dp),
        comes_before(orders[dp.0 as int], n1, n2),
        before.at(n1).dataflow_child,
        before.at(n2).dataflow_child,
    ensures
        leads_to(siblings(after, dp), n1, n2),
{
    let order = orders[dp.0 as int];
    assert(has_order(before, dp, ranking, order));
    let ranks = choose|ranks: Map<Node, K>| #[trigger]
        is_order(before, dp, ranks, order) && ranks_given(ranking, ranks);
    let r = siblings(after, dp);
    let chain = dataflow_nodes(before, order);
    lemma_order_in_region(before, dp, ranks, order);
    lemma_dataflow_nodes(before, order);
    lemma_one_way(order, n1, n2);
    assert(chain.contains(n1) && chain.contains(n2));
    let i = choose|i: int| 0 <= i < chain.len() && chain[i] == n1;
    let j = choose|j: int| 0 <= j < chain.len() && chain[j] == n2;
    if j < i {
        assert(comes_before(order, chain[j], chain[i]));
    }
    assert(i < j);
    let path = chain.subrange(i, j + 1);
    assert forall|x: int, y: int|
        #![trigger path[x], path[y]]
        0 <= x && y == x + 1 && y < path.len() implies r.edges.contains((path[x], path[y])) by {
        law_regions_are_chained(before, after, root, ranking, orders, dp, i + x);
        assert(chain.contains(chain[i + x]) && chain.contains(chain[i + y]));
    }
    assert(is_path(r, path));
    assert(path[0] == n1 && path.last() == n2);
}

/// What is ordered in the graph with the added edges is ordered without them.
proof fn lemma_ordered_before<K: Ord, L: Ord>(
    a: Region,
    b: Region,
    ranks: Map<Node, K>,
    others: Map<Node, L>,
    order: Seq<Node>,
    other: Seq<Node>,
    i: int,
)
    requires
        a.nodes == b.nodes,
        a.edges.subset_of(b.edges),
        greedy(a, ranks, order),
        greedy(b, others, other),
        0 <= i < other.len(),
    ensures
        order.contains(other[i]),
    decreases i,
{
    let n = other[i];
    assert(best_at(b, others, other, i));
    if !order.contains(n) {
        law_orderable_nodes_are_ordered(a, ranks, order, n);
        let p = choose|p: Node| #[trigger] a.edges.contains((p, n)) && !order.contains(p);
        assert(b.edges.contains((p, n)));
        assert(other.take(i).to_set().contains(p));
        let k = choose|k: int| 0 <= k < i && other.take(i)[k] == p;
        lemma_ordered_before(a, b, ranks, others, order, other, k);
    }
}

/// Of a list of different nodes, at most one way round holds for each two.
pub(crate) proof fn lemma_one_way(order: Seq<Node>, a: Node, b: Node)
    requires
        order.no_duplicates(),
        comes_before(order, a, b),
    ensures
        a != b,
        !comes_before(order, b, a),
        order.contains(a),
        order.contains(b),
{
}

/// Along a chain of edges, what comes later there comes later in any order.
proof fn lemma_chain_order<K: Ord>(
    r: Region,
    ranks: Map<Node, K>,
    order: Seq<Node>,
    chain: Seq<Node>,
    i: int,
    j: int,
)
    requires
        greedy(r, ranks, order),
        0 <= i < j < chain.len(),
        order.contains(chain[j]),
        is_path(r, chain),
    ensures
        comes_before(order, chain[i], chain[j]),
    decreases j - i,
{
    lemma_order_distinct(r, ranks, order);
    assert(r.edges.contains((chain[j - 1], chain[j])));
    law_order_respects_edges(r, ranks, order, chain[j - 1], chain[j]);
    lemma_one_way(order, chain[j - 1], chain[j]);
    if i < j - 1 {
        lemma_chain_order(r, ranks, order, chain, i, j - 1);
        let (x, y) = choose|x: int, y: int|
            #![trigger order[x], order[y]]
            0 <= x < y < order.len() && order[x] == chain[i] && order[y] == chain[j - 1];
        let (v, w) = choose|v: int, w: int|
            #![trigger order[v], order[w]]
            0 <= v < w < order.len() && order[v] == chain[j - 1] && order[w] == chain[j];
        assert(y == v);
        assert(order[x] == chain[i] && order[w] == chain[j]);
    }
}

/// Once an order has been forced on a region, it has no other order of its
/// dataflow nodes, whatever the ranks: each is followed by the same as before.
proof fn lemma_order_stays<K: Ord, F: Fn(Node) -> K, L: Ord>(
    before: HugrModel,
    after: HugrModel,
    root: Node,
    ranking: F,
    orders: Seq<Seq<Node>>,
    dp: Node,
    others: Map<Node, L>,
    other: Seq<Node>,
    k: int,
)
    requires
        before.wf(),
        order_forced::<K, F>(before, after, root, ranking, orders),
        is_region(before, root, dp),
        is_order(after, dp, others, other),
        0 <= k < dataflow_nodes(after, other).len() - 1,
    ensures
        exists|i: int| #[trigger]
            steps_along(
                dataflow_nodes(before, orders[dp.0 as int]),
                i,
                dataflow_nodes(after, other)[k],
                dataflow_nodes(after, other)[k + 1],
            ),
{
    let order = orders[dp.0 as int];
    assert(has_order(before, dp, ranking, order));
    let ranks = choose|ranks: Map<Node, K>| #[trigger]
        is_order(before, dp, ranks, order) && ranks_given(ranking, ranks);
    let a = siblings(before, dp);
    let b = siblings(after, dp);
    let chain = dataflow_nodes(before, order);
    let next = dataflow_nodes(after, other);
    lemma_order_in_region(before, dp, ranks, order);
    lemma_order_in_region(after, dp, others, other);
    lemma_dataflow_nodes(before, order);
    lemma_dataflow_nodes(after, other);
    lemma_order_distinct(b, others, other);
    assert(a.nodes =~= b.nodes);
    assert(a.edges.subset_of(b.edges)) by {
        assert forall|e: (Node, Node)| a.edges.contains(e) implies b.edges.contains(e) by {
            law_edges_are_kept(before, after, root, ranking, orders, e.0, e.1);
        }
    }
    assert(next.contains(next[k]) && next.contains(next[k + 1]));
    lemma_ordered_both(a, b, ranks, others, order, other, next[k]);
    lemma_ordered_both(a, b, ranks, others, order, other, next[k + 1]);
    assert(chain.contains(next[k]) && chain.contains(next[k + 1]));
    assert(is_path(b, chain)) by {
        assert forall|i: int, j: int|
            #![trigger chain[i], chain[j]]
            0 <= i && j == i + 1 && j < chain.len() implies b.edges.contains(
            (chain[i], chain[j]),
        ) by {
            law_regions_are_chained(before, after, root, ranking, orders, dp, i);
            assert(chain.contains(chain[i]) && chain.contains(chain[j]));
        }
    }
    assert forall|z: Node| #[trigger] chain.contains(z) && other.contains(z) implies next.contains(
        z,
    ) by {}
    lemma_next_in_chain(b, others, other, chain, next, k);
}

/// Once an order has been forced on a region, no edge is missing for any order.
proof fn lemma_region_stays_forced<K: Ord, F: Fn(Node) -> K, L: Ord>(
    before: HugrModel,
    after: HugrModel,
    root: Node,
    ranking: F,
    orders: Seq<Seq<Node>>,
    dp: Node,
    others: Map<Node, L>,
    other: Seq<Node>,
)
    requires
        before.wf(),
        order_forced::<K, F>(before, after, root, ranking, orders),
        is_region(before, root, dp),
        is_order(after, dp, others, other),
    ensures
        region_edges(after, other) == Seq::<Edge>::empty(),
{
    let chain = dataflow_nodes(before, orders[dp.0 as int]);
    let next = dataflow_nodes(after, other);
    assert forall|k: int| 0 <= k < next.len() - 1 implies #[trigger] next_joined(
        after,
        next,
        k,
    ) by {
        lemma_order_stays(before, after, root, ranking, orders, dp, others, other, k);
        let i = choose|i: int| #[trigger] steps_along(chain, i, next[k], next[k + 1]);
        law_regions_are_chained(before, after, root, ranking, orders, dp, i);
    }
    lemma_joined_chain(after, next, next.len() - 1);
}

/// What is ordered in the graph with the added edges is ordered without them.
proof fn lemma_ordered_both<K: Ord, L: Ord>(
    a: Region,
    b: Region,
    ranks: Map<Node, K>,
    others: Map<Node, L>,
    order: Seq<Node>,
    other: Seq<Node>,
    n: Node,
)
    requires
        a.nodes == b.nodes,
        a.edges.subset_of(b.edges),
        greedy(a, ranks, order),
        greedy(b, others, other),
        other.contains(n),
    ensures
        order.contains(n),
{
    let i = choose|i: int| 0 <= i < other.len() && other[i] == n;
    lemma_ordered_before(a, b, ranks, others, order, other, i);
}

/// Whether an edge leads from the node at place `k` to the next.
spec fn next_joined(h: HugrModel, chain: Seq<Node>, k: int) -> bool {
    h.joins(chain[k], chain[k + 1])
}

/// Whether `a` and then `b` are at place `i` of the chain.
spec fn steps_along(chain: Seq<Node>, i: int, a: Node, b: Node) -> bool {
    0 <= i < chain.len() - 1 && chain[i] == a && chain[i + 1] == b
}

/// Of a list that keeps to an order and has all of a chain of edges that the
/// order has, each node that is in the chain is followed by the next in the chain.
proof fn lemma_next_in_chain<K: Ord>(
    r: Region,
    ranks: Map<Node, K>,
    order: Seq<Node>,
    chain: Seq<Node>,
    next: Seq<Node>,
    k: int,
)
    requires
        greedy(r, ranks, order),
        is_path(r, chain),
        chain.no_duplicates(),
        0 <= k < next.len() - 1,
        chain.contains(next[k]),
        chain.contains(next[k + 1]),
        forall|z: Node| #[trigger] chain.contains(z) && order.contains(z) ==> next.contains(z),
        forall|i: int, j: int|
            #![trigger next[i], next[j]]
            0 <= i < j < next.len() ==> comes_before(order, next[i], next[j]),
    ensures
        exists|i: int| #[trigger] steps_along(chain, i, next[k], next[k + 1]),
{
    let x = next[k];
    let y = next[k + 1];
    lemma_order_distinct(r, ranks, order);
    let i = choose|i: int| 0 <= i < chain.len() && chain[i] == x;
    let j = choose|j: int| 0 <= j < chain.len() && chain[j] == y;
    assert(comes_before(order, x, y));
    lemma_one_way(order, x, y);
    if j < i {
        lemma_chain_order(r, ranks, order, chain, j, i);
    }
    assert(i < j);
    if i + 1 < j {
        let z = chain[i + 1];
        lemma_chain_order(r, ranks, order, chain, i + 1, j);
        lemma_one_way(order, z, y);
        lemma_chain_order(r, ranks, order, chain, i, i + 1);
        lemma_one_way(order, x, z);
        assert(chain.contains(z));
        assert(next.contains(z));
        let t = choose|t: int| 0 <= t < next.len() && next[t] == z;
        if t < k {
            assert(comes_before(order, next[t], next[k]));
        } else {
            assert(t > k + 1);
            assert(comes_before(order, next[k + 1], next[t]));
        }
    }
    assert(steps_along(chain, i, x, y));
}

/// A chain along which edges lead needs no more.
proof fn lemma_joined_chain(h: HugrModel, chain: Seq<Node>, i: int)
    requires
        i < chain.len(),
        forall|k: int| 0 <= k < chain.len() - 1 ==> #[trigger] next_joined(h, chain, k),
    ensures
        chain_edges(h, chain, i) == Seq::<Edge>::empty(),
    decreases i,
{
    if i > 0 {
        lemma_joined_chain(h, chain, i - 1);
        assert(next_joined(h, chain, i - 1));
    }
}

/// Forcing an order once more changes nothing, whatever the ranks are then.
pub proof fn law_forcing_again_changes_nothing<
    K: Ord,
    F: Fn(Node) -> K,
    L: Ord,
    G: Fn(Node) -> L,
>(
    before: HugrModel,
    after: HugrModel,
    again: HugrModel,
    root: Node,
    ranking: F,
    other: G,
    orders: Seq<Seq<Node>>,
    others: Seq<Seq<Node>>,
)
    requires
        before.wf(),
        order_forced::<K, F>(before, after, root, ranking, orders),
        order_forced::<L, G>(after, again, root, other, others),
    ensures
        again == after,
{
    lemma_stays_forced::<K, F, L, G>(
        before,
        after,
        root,
        ranking,
        other,
        orders,
        others,
        after.nodes.len() as int,
    );
    assert(again.edges =~= after.edges);
}

proof fn lemma_stays_forced<K: Ord, F: Fn(Node) -> K, L: Ord, G: Fn(Node) -> L>(
    before: HugrModel,
    after: HugrModel,
    root: Node,
    ranking: F,
    other: G,
    orders: Seq<Seq<Node>>,
    others: Seq<Seq<Node>>,
    n: int,
)
    requires
        before.wf(),
        order_forced::<K, F>(before, after, root, ranking, orders),
        orders_given::<L, G>(after, root, other, others),
        n <= after.nodes.len(),
    ensures
        order_edges_below(after, root, others, n) == Seq::<Edge>::empty(),
    decreases n,
{
    if n > 0 {
        let dp = Node((n - 1) as u32);
        lemma_stays_forced::<K, F, L, G>(
            before,
            after,
            root,
            ranking,
            other,
            orders,
            others,
            n - 1,
        );
        if is_region(after, root, dp) {
            lemma_below_like(before, after, root, dp.0 as int);
            assert(has_order(after, dp, other, others[n - 1]));
            let ranks = choose|ranks: Map<Node, L>| #[trigger]
                is_order(after, dp, ranks, others[n - 1]) && ranks_given(other, ranks);
            lemma_region_stays_forced::<K, F, L>(
                before,
                after,
                root,
                ranking,
                orders,
                dp,
                ranks,
                others[n - 1],
            );
            assert(order_edges_below(after, root, others, n) =~= Seq::<Edge>::empty());
        }
    }
}

/// Where an order has been forced, one for any other ranks can be.
pub proof fn law_forced_order_can_be_forced_again<
    K: Ord,
    F: Fn(Node) -> K,
    L: Ord,
    G: Fn(Node) -> L,
>(
    before: HugrModel,
    after: HugrModel,
    root: Node,
    ranking: F,
    other: G,
    orders: Seq<Seq<Node>>,
)
    requires
        before.wf(),
        can_be_forced::<K, F>(before, root, ranking),
        order_forced::<K, F>(before, after, root, ranking, orders),
    ensures
        can_be_forced::<L, G>(after, root, other),
{
    assert forall|dp: Node, order: Seq<Node>|
        is_region(after, root, dp) && #[trigger] has_order::<L, G>(
            after,
            dp,
            other,
            order,
        ) implies can_chain(after, dataflow_nodes(after, order)) by {
        lemma_below_like(before, after, root, dp.0 as int);
        assert(is_region(before, root, dp));
        assert(has_order::<K, F>(before, dp, ranking, orders[dp.0 as int]));
        let ranks = choose|ranks: Map<Node, L>| #[trigger]
            is_order(after, dp, ranks, order) && ranks_given(other, ranks);
        let chain = dataflow_nodes(before, orders[dp.0 as int]);
        let next = dataflow_nodes(after, order);
        assert(can_chain(before, chain));
        assert forall|k: int, j: int|
            #![trigger next[k], next[j]]
            0 <= k < next.len() && j == k + 1 && j < next.len() implies after.at(
            next[k],
        ).order_output && after.at(next[j]).order_input by {
            lemma_order_stays(before, after, root, ranking, orders, dp, ranks, order, k);
            let i = choose|i: int| #[trigger] steps_along(chain, i, next[k], next[k + 1]);
            assert(before.at(chain[i]).order_output && before.at(chain[i + 1]).order_input);
        }
    }
}

/// What is below what depends on the nodes only.
proof fn lemma_below_like(h: HugrModel, cur: HugrModel, root: Node, n: int)
    requires
        h.nodes == cur.nodes,
    ensures
        is_below(h, root, n) == is_below(cur, root, n),
    decreases n,
{
    if 0 < n {
        if let Some(p) = h.nodes[n].parent {
            if p.0 < n {
                lemma_below_like(h, cur, root, p.0 as int);
            }
        }
    }
}

/// Whether in region `dp` all dataflow nodes depend on those that no order edge
/// may end at, and those that none may start at depend on all others, as on the
/// input node and on the output node of a region.
pub open spec fn is_bounded(h: HugrModel, dp: Node) -> bool {
    let r = siblings(h, dp);
    forall|c: Node, m: Node|
        #![trigger h.at(c), h.at(m)]
        r.nodes.contains(c) && r.nodes.contains(m) && h.at(c).dataflow_child && h.at(
            m,
        ).dataflow_child && c != m ==> {
            &&& !h.at(c).order_input ==> leads_to(r, c, m)
            &&& !h.at(c).order_output ==> leads_to(r, m, c)
        }
}

/// In a graph all regions of which start at their input and end at their output,
/// any order can be forced.
pub proof fn law_bounded_regions_can_be_forced<K: Ord, F: Fn(Node) -> K>(
    h: HugrModel,
    root: Node,
    ranking: F,
)
    requires
        h.wf(),
        forall|dp: Node| #[trigger] is_region(h, root, dp) ==> is_bounded(h, dp),
    ensures
        can_be_forced::<K, F>(h, root, ranking),
{
    assert forall|dp: Node, order: Seq<Node>|
        is_region(h, root, dp) && #[trigger] has_order::<K, F>(
            h,
            dp,
            ranking,
            order,
        ) implies can_chain(h, dataflow_nodes(h, order)) by {
        let ranks = choose|ranks: Map<Node, K>| #[trigger]
            is_order(h, dp, ranks, order) && ranks_given(ranking, ranks);
        let r = siblings(h, dp);
        let chain = dataflow_nodes(h, order);
        lemma_order_in_region(h, dp, ranks, order);
        lemma_dataflow_nodes(h, order);
        assert forall|i: int, j: int|
            #![trigger chain[i], chain[j]]
            0 <= i < chain.len() && j == i + 1 && j < chain.len() implies h.at(
            chain[i],
        ).order_output && h.at(chain[j]).order_input by {
            let a = chain[i];
            let b = chain[j];
            assert(comes_before(order, a, b));
            assert(chain.contains(a) && chain.contains(b));
            lemma_order_distinct(r, ranks, order);
            assert(r.nodes.contains(a) && r.nodes.contains(b));
            if !h.at(b).order_input {
                assert(leads_to(r, b, a));
                law_order_respects_dependencies(r, ranks, order, b, a);
            }
            if !h.at(a).order_output {
                assert(leads_to(r, b, a));
                law_order_respects_dependencies(r, ranks, order, b, a);
            }
        }
    }
}

} // verus!
