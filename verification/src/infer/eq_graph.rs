//! Metavariables that are known to be equal, as a graph.

use std::collections::HashMap;

use vstd::prelude::*;

use crate::graphs::{
    LinkGraph, connected, covered, is_walk, joined, link_edges, link_graph_add_edge, link_graph_add_node,
    link_graph_components, link_graph_new, link_graph_node_weight, link_nodes, listed,
};

verus! {

broadcast use vstd::std_specs::hash::group_hash_axioms;

/// A metavariable: a name for an extension set that is still to be found.
#[derive(Clone, Copy, Debug, PartialEq, Eq, Hash, Structural)]
pub struct Meta(pub u32);

impl Meta {
    /// The metavariable with number `m`.
    pub fn new(m: u32) -> (meta: Meta)
        ensures
            meta.0 == m,
    {
        Meta(m)
    }
}

/// Whether `path` leads from `a` to `b` along equalities, in either direction.
pub open spec fn is_link_path(eqs: Set<(u32, u32)>, path: Seq<u32>, a: u32, b: u32) -> bool {
    &&& path.len() > 0
    &&& path[0] == a
    &&& path.last() == b
    &&& forall|k: int|
        0 <= k < path.len() - 1 ==> eqs.contains((#[trigger] path[k], path[k + 1]))
            || eqs.contains((path[k + 1], path[k]))
}

/// Whether a chain of equalities relates `a` and `b`.
pub open spec fn linked(eqs: Set<(u32, u32)>, a: u32, b: u32) -> bool {
    exists|path: Seq<u32>| is_link_path(eqs, path, a, b)
}

/// More equalities relate more.
pub proof fn lemma_linked_more(a: Set<(u32, u32)>, b: Set<(u32, u32)>, x: u32, y: u32)
    requires
        linked(a, x, y),
        a.subset_of(b),
    ensures
        linked(b, x, y),
{
    let path = choose|path: Seq<u32>| is_link_path(a, path, x, y);
    assert(is_link_path(b, path, x, y));
}

/// What is related to the same is related.
pub proof fn lemma_linked_through(eqs: Set<(u32, u32)>, x: u32, y: u32, z: u32)
    requires
        linked(eqs, x, y),
        linked(eqs, y, z),
    ensures
        linked(eqs, x, z),
{
    let q = choose|q: Seq<u32>| is_link_path(eqs, q, y, z);
    lemma_linked_along(eqs, x, q, q.len() - 1);
}

/// What is related to the start of a path is related to all along it.
proof fn lemma_linked_along(eqs: Set<(u32, u32)>, x: u32, q: Seq<u32>, n: int)
    requires
        q.len() > 0,
        is_link_path(eqs, q, q[0], q.last()),
        linked(eqs, x, q[0]),
        0 <= n < q.len(),
    ensures
        linked(eqs, x, q[n]),
    decreases n,
{
    if n > 0 {
        lemma_linked_along(eqs, x, q, n - 1);
        let y = q[n - 1];
        let z = q[n];
        assert(eqs.contains((q[n - 1], q[n - 1 + 1])) || eqs.contains((q[n - 1 + 1], q[n - 1])));
        lemma_linked_step(eqs, x, y, z);
    }
}

/// One equality more.
proof fn lemma_linked_step(eqs: Set<(u32, u32)>, x: u32, y: u32, z: u32)
    requires
        linked(eqs, x, y),
        eqs.contains((y, z)) || eqs.contains((z, y)),
    ensures
        linked(eqs, x, z),
{
    let p = choose|p: Seq<u32>| is_link_path(eqs, p, x, y);
    let path = p.push(z);
    assert forall|k: int| 0 <= k < path.len() - 1 implies eqs.contains(
        (#[trigger] path[k], path[k + 1]),
    ) || eqs.contains((path[k + 1], path[k])) by {
        assert(path[k] == p[k]);
        if k < p.len() - 1 {
            assert(path[k + 1] == p[k + 1]);
        }
    }
    assert(is_link_path(eqs, path, x, z));
}

/// Being related goes both ways.
pub proof fn lemma_linked_back(eqs: Set<(u32, u32)>, x: u32, y: u32)
    requires
        linked(eqs, x, y),
    ensures
        linked(eqs, y, x),
{
    let p = choose|p: Seq<u32>| is_link_path(eqs, p, x, y);
    let path = p.reverse();
    assert forall|k: int| 0 <= k < path.len() - 1 implies eqs.contains(
        (#[trigger] path[k], path[k + 1]),
    ) || eqs.contains((path[k + 1], path[k])) by {
        let j = p.len() - 2 - k;
        assert(path[k] == p[j + 1] && path[k + 1] == p[j]);
    }
    assert(is_link_path(eqs, path, y, x));
}

/// Whether the group at position `i` holds metavariable `m`.
pub open spec fn grouped(groups: Seq<Vec<Meta>>, i: int, m: u32) -> bool {
    0 <= i < groups.len() && groups[i]@.contains(Meta(m))
}

/// A graph of metavariables which we've found equality constraints for. Edges
/// between nodes represent equality constraints.
pub struct EqGraph {
    equalities: LinkGraph,
    node_map: HashMap<u32, usize>,
    pairs: Vec<(u32, u32)>,
}

impl View for EqGraph {
    type V = Set<(u32, u32)>;

    /// The registered equalities.
    closed spec fn view(&self) -> Set<(u32, u32)> {
        Set::new(
            |pair: (u32, u32)|
                exists|k: int|
                    0 <= k < link_edges(self.equalities).len() && pair == #[trigger] self.pair(k),
        )
    }
}

impl EqGraph {
    /// The metavariables that edge `k` joins.
    spec fn pair(self, k: int) -> (u32, u32) {
        let edge = link_edges(self.equalities)[k];
        (link_nodes(self.equalities)[edge.0], link_nodes(self.equalities)[edge.1])
    }

    /// The node map lists the nodes of the graph, edges join nodes, and the
    /// registered equalities are listed.
    pub closed spec fn wf(self) -> bool {
        let nodes = link_nodes(self.equalities);
        &&& forall|m: u32| #[trigger]
            self.node_map@.contains_key(m) ==> self.node_map@[m] < nodes.len()
                && nodes[self.node_map@[m] as int] == m
        &&& forall|i: int|
            0 <= i < nodes.len() ==> self.node_map@.contains_key(#[trigger] nodes[i])
                && self.node_map@[nodes[i]] == i
        &&& forall|k: int|
            0 <= k < link_edges(self.equalities).len() ==> {
                let edge = #[trigger] link_edges(self.equalities)[k];
                0 <= edge.0 < nodes.len() && 0 <= edge.1 < nodes.len()
            }
        &&& forall|pair: (u32, u32)| #[trigger] self@.contains(pair) <==> self.pairs@.contains(pair)
    }

    /// The metavariables that take part in some equality.
    pub closed spec fn members(self) -> Set<u32> {
        self.node_map@.dom()
    }

    /// Create a new `EqGraph`
    pub fn new() -> (graph: EqGraph)
        ensures
            graph.wf(),
            graph@ == Set::<(u32, u32)>::empty(),
            graph.members() == Set::<u32>::empty(),
    {
        let graph = EqGraph {
            equalities: link_graph_new(),
            node_map: HashMap::new(),
            pairs: Vec::new(),
        };
        assert(graph@ =~= Set::<(u32, u32)>::empty());
        assert(graph.members() =~= Set::<u32>::empty());
        graph
    }

    /// Add a metavariable to the graph as a node and return the node's index.
    /// If it's already there, just return the existing index
    fn add_or_retrieve(&mut self, m: Meta) -> (index: usize)
        requires
            old(self).wf(),
        ensures
            final(self).wf(),
            final(self)@ == old(self)@,
            final(self).members() == old(self).members().insert(m.0),
            final(self).pairs@ == old(self).pairs@,
            link_edges(final(self).equalities) == link_edges(old(self).equalities),
            link_nodes(old(self).equalities).is_prefix_of(link_nodes(final(self).equalities)),
            index < link_nodes(final(self).equalities).len(),
            link_nodes(final(self).equalities)[index as int] == m.0,
    {
        match self.node_map.get(&m.0) {
            Some(index) => {
                assert(self.members().insert(m.0) =~= self.members());
                *index
            },
            None => {
                let index = link_graph_add_node(&mut self.equalities, m.0);
                self.node_map.insert(m.0, index);
                proof {
                    let before = link_nodes(old(self).equalities);
                    let nodes = link_nodes(self.equalities);
                    assert forall|i: int| 0 <= i < nodes.len() implies self.node_map@.contains_key(
                        #[trigger] nodes[i],
                    ) && self.node_map@[nodes[i]] == i by {
                        if i < before.len() {
                            assert(nodes[i] == before[i]);
                            assert(old(self).node_map@.contains_key(before[i]));
                        }
                    }
                    assert forall|k: int|
                        0 <= k < link_edges(self.equalities).len() implies #[trigger] self.pair(k)
                        == old(self).pair(k) by {
                        let edge = link_edges(self.equalities)[k];
                        assert(nodes[edge.0] == before[edge.0]);
                        assert(nodes[edge.1] == before[edge.1]);
                    }
                    let edges = link_edges(self.equalities);
                    assert forall|pair: (u32, u32)| self@.contains(pair) <==> old(self)@.contains(
                        pair,
                    ) by {
                        if self@.contains(pair) {
                            let k = choose|k: int|
                                0 <= k < edges.len() && pair == #[trigger] self.pair(k);
                            assert(pair == old(self).pair(k));
                        }
                        if old(self)@.contains(pair) {
                            let k = choose|k: int|
                                0 <= k < edges.len() && pair == #[trigger] old(self).pair(k);
                            assert(pair == self.pair(k));
                        }
                    }
                    assert(self@ =~= old(self)@);
                    assert(self.members() =~= old(self).members().insert(m.0));
                }
                index
            },
        }
    }

    /// Create an edge between two nodes on the graph, declaring that they stand
    /// for metavariables which should be equal.
    pub fn register_eq(&mut self, src: Meta, tgt: Meta)
        requires
            old(self).wf(),
        ensures
            final(self).wf(),
            final(self)@ == old(self)@.insert((src.0, tgt.0)),
            final(self).members() == old(self).members().insert(src.0).insert(tgt.0),
    {
        let src_ix = self.add_or_retrieve(src);
        let tgt_ix = self.add_or_retrieve(tgt);
        let ghost mid = *self;
        link_graph_add_edge(&mut self.equalities, src_ix, tgt_ix);
        self.pairs.push((src.0, tgt.0));
        proof {
            let n = link_edges(mid.equalities).len() as int;
            assert(forall|k: int| 0 <= k < n ==> #[trigger] self.pair(k) == mid.pair(k));
            assert(self.pair(n) == (src.0, tgt.0));
            assert forall|pair: (u32, u32)| self@.contains(pair) <==> mid@.insert(
                (src.0, tgt.0),
            ).contains(pair) by {
                if mid@.contains(pair) {
                    let k = choose|k: int| 0 <= k < n && pair == #[trigger] mid.pair(k);
                    assert(pair == self.pair(k));
                }
            }
            assert(self@ =~= mid@.insert((src.0, tgt.0)));
            assert forall|pair: (u32, u32)| #[trigger]
                self@.contains(pair) <==> self.pairs@.contains(pair) by {
                let len = mid.pairs@.len() as int;
                if mid.pairs@.contains(pair) {
                    let k = choose|k: int| 0 <= k < len && mid.pairs@[k] == pair;
                    assert(self.pairs@[k] == pair);
                }
                assert(self.pairs@[len] == (src.0, tgt.0));
                if self.pairs@.contains(pair) && pair != (src.0, tgt.0) {
                    let k = choose|k: int| 0 <= k < self.pairs@.len() && self.pairs@[k] == pair;
                    assert(mid.pairs@[k] == pair);
                }
                assert(mid@.contains(pair) <==> mid.pairs@.contains(pair));
            }
        }
    }

    /// Whether the equality of `src` with `tgt` has been registered.
    pub fn is_registered(&self, src: Meta, tgt: Meta) -> (found: bool)
        requires
            self.wf(),
        ensures
            found == self@.contains((src.0, tgt.0)),
    {
        let mut i: usize = 0;
        while i < self.pairs.len()
            invariant
                i <= self.pairs@.len(),
                forall|k: int| 0 <= k < i ==> #[trigger] self.pairs@[k] != (src.0, tgt.0),
                self.wf(),
            decreases self.pairs@.len() - i,
        {
            let pair = self.pairs[i];
            if pair.0 == src.0 && pair.1 == tgt.0 {
                assert(self.pairs@.contains((src.0, tgt.0)));
                return true;
            }
            i += 1;
        }
        assert(!self.pairs@.contains((src.0, tgt.0)));
        false
    }

    /// Return the connected components of the graph in terms of metavariables
    pub fn ccs(&self) -> (groups: Vec<Vec<Meta>>)
        requires
            self.wf(),
        ensures
            forall|i: int|
                0 <= i < groups@.len() ==> (#[trigger] groups@[i])@.len() > 0
                    && groups@[i]@.no_duplicates(),
            forall|m: u32|
                #![trigger self.members().contains(m)]
                self.members().contains(m) <==> exists|i: int| grouped(groups@, i, m),
            forall|i: int, j: int, a: u32, b: u32| #[trigger]
                grouped(groups@, i, a) && #[trigger] grouped(groups@, j, b) ==> (i == j <==> linked(
                    self@,
                    a,
                    b,
                )),
    {
        let components = link_graph_components(&self.equalities);
        let ghost nodes = link_nodes(self.equalities);
        let mut groups: Vec<Vec<Meta>> = Vec::new();
        let mut i: usize = 0;
        while i < components.len()
            invariant
                self.wf(),
                nodes == link_nodes(self.equalities),
                0 <= i <= components@.len(),
                groups@.len() == i,
                forall|k: int, index: usize| #[trigger]
                    listed(components@, k, index) ==> index < nodes.len(),
                forall|k: int|
                    0 <= k < i ==> {
                        &&& (#[trigger] groups@[k])@.len() == components@[k]@.len()
                        &&& forall|j: int|
                            0 <= j < groups@[k]@.len() ==> (#[trigger] groups@[k]@[j]).0
                                == nodes[components@[k]@[j] as int]
                    },
            decreases components@.len() - i,
        {
            let mut group: Vec<Meta> = Vec::new();
            let mut j: usize = 0;
            while j < components[i].len()
                invariant
                    self.wf(),
                    nodes == link_nodes(self.equalities),
                    0 <= i < components@.len(),
                    0 <= j <= components@[i as int]@.len(),
                    group@.len() == j,
                    forall|k: int, index: usize| #[trigger]
                        listed(components@, k, index) ==> index < nodes.len(),
                    forall|k: int|
                        0 <= k < j ==> (#[trigger] group@[k]).0
                            == nodes[components@[i as int]@[k] as int],
                decreases components@[i as int]@.len() - j,
            {
                assert(listed(components@, i as int, components@[i as int]@[j as int]));
                match link_graph_node_weight(&self.equalities, components[i][j]) {
                    Some(weight) => {
                        group.push(Meta::new(weight));
                    },
                    None => {
                        assert(false);
                    },
                }
                j += 1;
            }
            groups.push(group);
            i += 1;
        }
        proof {
            self.lemma_groups(components@, groups@);
        }
        groups
    }

    /// Groups of node indices that are the connected components give the groups
    /// of linked metavariables.
    proof fn lemma_groups(&self, components: Seq<Vec<usize>>, groups: Seq<Vec<Meta>>)
        requires
            self.wf(),
            groups.len() == components.len(),
            forall|k: int|
                0 <= k < groups.len() ==> {
                    &&& (#[trigger] groups[k])@.len() == components[k]@.len()
                    &&& forall|j: int|
                        0 <= j < groups[k]@.len() ==> (#[trigger] groups[k]@[j]).0 == link_nodes(
                            self.equalities,
                        )[components[k]@[j] as int]
                },
            forall|i: int|
                0 <= i < components.len() ==> {
                    &&& (#[trigger] components[i])@.len() > 0
                    &&& components[i]@.no_duplicates()
                },
            forall|i: int, index: usize| #[trigger]
                listed(components, i, index) ==> index < link_nodes(self.equalities).len(),
            forall|index: usize|
                index < link_nodes(self.equalities).len() ==> #[trigger] covered(components, index),
            forall|i: int, j: int, a: usize, b: usize| #[trigger]
                listed(components, i, a) && #[trigger] listed(components, j, b) ==> (i == j
                    <==> connected(link_edges(self.equalities), a as int, b as int)),
        ensures
            forall|i: int|
                0 <= i < groups.len() ==> (#[trigger] groups[i])@.len() > 0
                    && groups[i]@.no_duplicates(),
            forall|m: u32|
                #![trigger self.members().contains(m)]
                self.members().contains(m) <==> exists|i: int| grouped(groups, i, m),
            forall|i: int, j: int, a: u32, b: u32| #[trigger]
                grouped(groups, i, a) && #[trigger] grouped(groups, j, b) ==> (i == j <==> linked(
                    self@,
                    a,
                    b,
                )),
    {
        let nodes = link_nodes(self.equalities);
        assert forall|i: int, m: u32| #[trigger] grouped(groups, i, m) implies self.members().contains(
            m,
        ) && listed(components, i, self.node_map@[m]) by {
            let j = choose|j: int| 0 <= j < groups[i]@.len() && groups[i]@[j] == Meta(m);
            let index = components[i]@[j];
            assert(listed(components, i, index));
            assert(groups[i]@[j].0 == nodes[index as int]);
        }
        assert forall|i: int| 0 <= i < groups.len() implies (#[trigger] groups[i])@.len() > 0
            && groups[i]@.no_duplicates() by {
            assert(components[i]@.len() > 0);
            assert forall|j: int, k: int|
                0 <= j < groups[i]@.len() && 0 <= k < groups[i]@.len() && j != k implies groups[i]@[j]
                != groups[i]@[k] by {
                let a = components[i]@[j];
                let b = components[i]@[k];
                assert(listed(components, i, a) && listed(components, i, b));
                assert(groups[i]@[j].0 == nodes[a as int]);
                assert(groups[i]@[k].0 == nodes[b as int]);
            }
        }
        assert forall|m: u32|
            #![trigger self.members().contains(m)]
            self.members().contains(m) implies exists|i: int| grouped(groups, i, m) by {
            let index = self.node_map@[m];
            assert(self.node_map@.contains_key(m));
            assert(nodes[index as int] == m);
            assert(covered(components, index));
            let i = choose|i: int| listed(components, i, index);
            let j = choose|j: int| 0 <= j < components[i]@.len() && components[i]@[j] == index;
            assert(groups[i]@[j].0 == nodes[index as int]);
            assert(groups[i]@[j] == Meta(m));
            assert(grouped(groups, i, m));
        }
        assert forall|i: int, j: int, a: u32, b: u32| #[trigger]
            grouped(groups, i, a) && #[trigger] grouped(groups, j, b) implies (i == j <==> linked(
            self@,
            a,
            b,
        )) by {
            let ia = self.node_map@[a];
            let ib = self.node_map@[b];
            assert(self.members().contains(a) && self.members().contains(b));
            assert(listed(components, i, ia) && listed(components, j, ib));
            self.lemma_walk(a, b);
        }
    }

    /// Walks in the graph are chains of equalities, and the other way round.
    proof fn lemma_walk(&self, a: u32, b: u32)
        requires
            self.wf(),
            self.members().contains(a),
            self.members().contains(b),
        ensures
            connected(
                link_edges(self.equalities),
                self.node_map@[a] as int,
                self.node_map@[b] as int,
            ) <==> linked(self@, a, b),
    {
        let edges = link_edges(self.equalities);
        let ia = self.node_map@[a] as int;
        let ib = self.node_map@[b] as int;
        assert(self.node_map@.contains_key(a) && self.node_map@.contains_key(b));
        if connected(edges, ia, ib) {
            let path = choose|path: Seq<int>| is_walk(edges, path, ia, ib);
            self.lemma_walk_names(path, a, b);
        }
        if linked(self@, a, b) {
            let path = choose|path: Seq<u32>| is_link_path(self@, path, a, b);
            self.lemma_names_walk(path, a, b);
        }
    }

    proof fn lemma_walk_names(&self, path: Seq<int>, a: u32, b: u32)
        requires
            self.wf(),
            self.node_map@.contains_key(a),
            self.node_map@.contains_key(b),
            is_walk(
                link_edges(self.equalities),
                path,
                self.node_map@[a] as int,
                self.node_map@[b] as int,
            ),
        ensures
            linked(self@, a, b),
    {
        let nodes = link_nodes(self.equalities);
        let edges = link_edges(self.equalities);
        let names = path.map_values(|x: int| nodes[x]);
        assert forall|k: int| 0 <= k < names.len() - 1 implies self@.contains(
            (#[trigger] names[k], names[k + 1]),
        ) || self@.contains((names[k + 1], names[k])) by {
            assert(joined(edges, path[k], path[k + 1]));
            if edges.contains((path[k], path[k + 1])) {
                self.lemma_pair(path[k], path[k + 1]);
            } else {
                self.lemma_pair(path[k + 1], path[k]);
            }
        }
        assert(is_link_path(self@, names, a, b));
    }

    proof fn lemma_pair(&self, x: int, y: int)
        requires
            self.wf(),
            link_edges(self.equalities).contains((x, y)),
        ensures
            self@.contains((link_nodes(self.equalities)[x], link_nodes(self.equalities)[y])),
    {
        let edges = link_edges(self.equalities);
        let k = choose|k: int| 0 <= k < edges.len() && edges[k] == (x, y);
        assert(self.pair(k) == (
            link_nodes(self.equalities)[x],
            link_nodes(self.equalities)[y],
        ));
    }

    proof fn lemma_names_walk(&self, path: Seq<u32>, a: u32, b: u32)
        requires
            self.wf(),
            is_link_path(self@, path, a, b),
        ensures
            connected(
                link_edges(self.equalities),
                self.node_map@[a] as int,
                self.node_map@[b] as int,
            ),
    {
        let edges = link_edges(self.equalities);
        let walk = path.map_values(|m: u32| self.node_map@[m] as int);
        assert forall|k: int| 0 <= k < walk.len() - 1 implies joined(
            edges,
            #[trigger] walk[k],
            walk[k + 1],
        ) by {
            if self@.contains((path[k], path[k + 1])) {
                self.lemma_edge(path[k], path[k + 1]);
            } else {
                self.lemma_edge(path[k + 1], path[k]);
            }
        }
        assert(is_walk(edges, walk, self.node_map@[a] as int, self.node_map@[b] as int));
    }

    proof fn lemma_edge(&self, x: u32, y: u32)
        requires
            self.wf(),
            self@.contains((x, y)),
        ensures
            link_edges(self.equalities).contains(
                (self.node_map@[x] as int, self.node_map@[y] as int),
            ),
    {
        let nodes = link_nodes(self.equalities);
        let edges = link_edges(self.equalities);
        let k = choose|k: int| 0 <= k < edges.len() && (x, y) == #[trigger] self.pair(k);
        assert(self.node_map@[nodes[edges[k].0]] == edges[k].0);
        assert(self.node_map@[nodes[edges[k].1]] == edges[k].1);
        assert(edges[k] == (self.node_map@[x] as int, self.node_map@[y] as int));
    }
}

} // verus!
