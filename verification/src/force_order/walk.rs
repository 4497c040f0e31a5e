//! Topological walks that take nodes of lower rank first.

use std::cmp::Ordering;
use std::collections::{HashMap, HashSet};

use vstd::laws_cmp::obeys_cmp;
use vstd::prelude::*;
use vstd::std_specs::cmp::OrdSpec;

use crate::graphs::{
    OrderGraph, is_order_walk, order_edges, order_graph_has_path, order_graph_neighbors,
    order_graph_nodes, order_graph_sources, order_nodes,
};
use crate::hugr::Node;

verus! {

broadcast use vstd::std_specs::hash::group_hash_axioms;

/// The nodes of a region and the edges between them.
#[verifier::ext_equal]
pub struct Region {
    pub nodes: Set<Node>,
    pub edges: Set<(Node, Node)>,
}

/// The region that a graph represents.
pub open spec fn region(graph: OrderGraph) -> Region {
    Region {
        nodes: Set::new(|n: Node| order_nodes(graph).contains(n.0)),
        edges: Set::new(|e: (Node, Node)| order_edges(graph).contains((e.0.0, e.1.0))),
    }
}

impl Region {
    /// Whether everything that `n` depends on directly is in `done`.
    pub open spec fn ready(self, done: Set<Node>, n: Node) -> bool {
        forall|p: Node| #[trigger] self.edges.contains((p, n)) ==> done.contains(p)
    }

    /// Whether `n` may be taken next after those in `done`.
    pub open spec fn available(self, done: Set<Node>, n: Node) -> bool {
        self.nodes.contains(n) && !done.contains(n) && self.ready(done, n)
    }
}

/// Whether `path` leads along edges of the region.
pub open spec fn is_path(r: Region, path: Seq<Node>) -> bool {
    &&& path.len() > 0
    &&& forall|i: int, j: int|
        #![trigger path[i], path[j]]
        0 <= i && j == i + 1 && j < path.len() ==> r.edges.contains((path[i], path[j]))
}

/// Whether `n` is `a` or depends on it.
pub open spec fn leads_to(r: Region, a: Node, n: Node) -> bool {
    exists|path: Seq<Node>| #[trigger] is_path(r, path) && path[0] == a && path.last() == n
}

/// Whether comparing ranks orders them totally.
pub open spec fn totally_ordered<K: Ord>() -> bool {
    obeys_cmp::<K>()
}

/// Whether rank `a` is lower than rank `b`.
pub open spec fn lower<K: Ord>(a: K, b: K) -> bool {
    a.cmp_spec(&b) == Ordering::Less
}

/// Whether the ranks are equal.
pub open spec fn level<K: Ord>(a: K, b: K) -> bool {
    a.cmp_spec(&b) == Ordering::Equal
}

/// Whether each node that is left after `done` and is ranked lower than `m`
/// depends on `m`.
pub open spec fn heads<K: Ord>(r: Region, done: Set<Node>, ranks: Map<Node, K>, m: Node) -> bool {
    forall|n: Node| #[trigger]
        r.nodes.contains(n) && !done.contains(n) && lower(ranks[n], ranks[m]) ==> leads_to(r, m, n)
}

/// Whether node `m` is preferred to node `n` after `done`: lower ranks go first,
/// of equal ranks a node that all that are left with lower ranks depend on, and
/// else the later node.
pub open spec fn preferred<K: Ord>(
    r: Region,
    done: Set<Node>,
    ranks: Map<Node, K>,
    m: Node,
    n: Node,
) -> bool {
    ||| lower(ranks[m], ranks[n])
    ||| level(ranks[m], ranks[n]) && if heads(r, done, ranks, m) == heads(r, done, ranks, n) {
        m.0 >= n.0
    } else {
        heads(r, done, ranks, m)
    }
}

/// Ranks are ordered totally.
pub proof fn lemma_ranks<K: Ord>(a: K, b: K, c: K)
    requires
        totally_ordered::<K>(),
    ensures
        level(a, a),
        level(a, b) == level(b, a),
        lower(a, b) ==> !lower(b, a) && !level(a, b),
        lower(a, b) || level(a, b) || lower(b, a),
        lower(a, b) && lower(b, c) ==> lower(a, c),
        lower(a, b) && level(b, c) ==> lower(a, c),
        level(a, b) && lower(b, c) ==> lower(a, c),
        level(a, b) && level(b, c) ==> level(a, c),
{
    reveal(vstd::laws_cmp::obeys_cmp_ord);
    reveal(vstd::laws_cmp::obeys_cmp_partial_ord);
    reveal(vstd::laws_cmp::obeys_partial_cmp_spec_properties);
    reveal(vstd::laws_eq::obeys_eq_spec_properties);
}

/// To be preferred orders nodes totally.
pub proof fn lemma_preferred<K: Ord>(
    r: Region,
    done: Set<Node>,
    ranks: Map<Node, K>,
    a: Node,
    b: Node,
    c: Node,
)
    requires
        totally_ordered::<K>(),
    ensures
        preferred(r, done, ranks, a, a),
        preferred(r, done, ranks, a, b) || preferred(r, done, ranks, b, a),
        preferred(r, done, ranks, a, b) && preferred(r, done, ranks, b, c) ==> preferred(
            r,
            done,
            ranks,
            a,
            c,
        ),
        preferred(r, done, ranks, a, b) && preferred(r, done, ranks, b, a) ==> a == b,
{
    lemma_ranks(ranks[a], ranks[b], ranks[c]);
    lemma_ranks(ranks[b], ranks[a], ranks[c]);
}

/// A topological walk over a graph that visits lower ranked nodes before higher
/// ranked nodes whenever the topology of the graph allows: of the nodes that may
/// come next, the one with the lowest rank is taken.
pub struct ForceOrder<'a, K, F> {
    tovisit: Vec<Node>,
    ordered: HashSet<u32>,
    ranks: HashMap<u32, K>,
    rank: &'a F,
}

impl<'a, K: Ord, F: Fn(Node) -> K> ForceOrder<'a, K, F> {
    /// The nodes that have been visited.
    pub closed spec fn done(self) -> Set<Node> {
        Set::new(|n: Node| self.ordered@.contains(n.0))
    }

    /// The nodes that have been put up for a visit.
    pub closed spec fn queue(self) -> Seq<Node> {
        self.tovisit@
    }

    /// The ranks that nodes have been given so far.
    pub closed spec fn ranks(self) -> Map<Node, K> {
        Map::new(|n: Node| self.ranks@.contains_key(n.0), |n: Node| self.ranks@[n.0])
    }

    /// The function that gives nodes their ranks.
    pub closed spec fn ranking(self) -> F {
        *self.rank
    }

    /// Whether `n` waits for its first visit.
    pub open spec fn waits(self, n: Node) -> bool {
        self.queue().contains(n) && !self.done().contains(n)
    }

    /// Whether each node that is put up has a rank, and each rank was given by the
    /// ranking.
    pub open spec fn ranked(self) -> bool {
        &&& self.has_ranks(self.queue())
        &&& ranks_given(self.ranking(), self.ranks())
    }

    /// Whether all nodes of the region have ranks.
    pub open spec fn ranks_all(self, r: Region) -> bool {
        forall|n: Node| #[trigger] r.nodes.contains(n) ==> self.ranks().contains_key(n)
    }

    /// Whether all nodes of the list have ranks.
    pub open spec fn has_ranks(self, nodes: Seq<Node>) -> bool {
        forall|n: Node| #[trigger] nodes.contains(n) ==> self.ranks().contains_key(n)
    }

    /// Whether `later` has the ranks of this walk, and maybe more.
    pub open spec fn ranks_kept(self, later: Self) -> bool {
        &&& later.ranking() == self.ranking()
        &&& forall|n: Node| #[trigger]
            self.ranks().contains_key(n) ==> later.ranks().contains_key(n) && later.ranks()[n]
                == self.ranks()[n]
    }

    /// Starts a walk at the nodes without incoming edges.
    pub fn new(graph: &OrderGraph, rank: &'a F) -> (topo: ForceOrder<'a, K, F>)
        requires
            forall|n: Node| #[trigger]
                region(*graph).nodes.contains(n) ==> call_requires(*rank, (n,)),
        ensures
            topo.ranking() == *rank,
            topo.ranked(),
            topo.done() == Set::<Node>::empty(),
            topo.follows(region(*graph)),
    {
        let mut topo = ForceOrder::empty(graph, rank);
        let ghost before = topo;
        topo.extend_with_initials(graph);
        proof {
            let r = region(*graph);
            let initials = choose|initials: Seq<Node>|
                {
                    &&& topo.queue() == #[trigger] (before.queue() + initials)
                    &&& initials.no_duplicates()
                    &&& forall|n: Node| initials.contains(n) <==> #[trigger] is_initial(r, n)
                };
            assert(topo.queue() =~= initials);
            assert forall|n: Node| #[trigger] r.available(topo.done(), n) <==> is_initial(r, n) by {
                if r.available(topo.done(), n) {
                    assert forall|p: Node| !#[trigger] r.edges.contains((p, n)) by {
                        if r.edges.contains((p, n)) {
                            assert(topo.done().contains(p));
                        }
                    }
                }
            }
            assert forall|n: Node| #[trigger] r.available(topo.done(), n) <==> topo.waits(n) by {
                assert(initials.contains(n) <==> is_initial(r, n));
            }
        }
        topo
    }

    /// The walk in which no node has been put up for a visit.
    pub fn empty(_graph: &OrderGraph, rank: &'a F) -> (topo: ForceOrder<'a, K, F>)
        ensures
            topo.ranking() == *rank,
            topo.ranked(),
            topo.done() == Set::<Node>::empty(),
            topo.queue() == Seq::<Node>::empty(),
            topo.ranks() == Map::<Node, K>::empty(),
    {
        let topo = ForceOrder {
            tovisit: Vec::new(),
            ordered: HashSet::new(),
            ranks: HashMap::new(),
            rank,
        };
        assert(topo.done() =~= Set::<Node>::empty());
        assert(topo.ranks() =~= Map::<Node, K>::empty());
        topo
    }

    /// Puts up the nodes without incoming edges.
    pub fn extend_with_initials(&mut self, g: &OrderGraph)
        requires
            old(self).ranked(),
            forall|n: Node| #[trigger]
                region(*g).nodes.contains(n) ==> call_requires(old(self).ranking(), (n,)),
        ensures
            final(self).ranked(),
            old(self).ranks_kept(*final(self)),
            final(self).done() == old(self).done(),
            exists|initials: Seq<Node>|
                {
                    &&& final(self).queue() == #[trigger] (old(self).queue() + initials)
                    &&& initials.no_duplicates()
                    &&& forall|n: Node|
                        initials.contains(n) <==> #[trigger] is_initial(region(*g), n)
                },
    {
        // find all initial nodes (nodes without incoming edges)
        let nodes = order_graph_nodes(g);
        let ghost r = region(*g);
        let mut initials: Vec<Node> = Vec::new();
        let mut i: usize = 0;
        proof {
            assert forall|k: int| 0 <= k < nodes@.len() implies r.nodes.contains(
                Node(#[trigger] nodes@[k]),
            ) by {
                assert(nodes@.to_set().contains(nodes@[k]));
            }
        }
        while i < nodes.len()
            invariant
                i <= nodes@.len(),
                r == region(*g),
                nodes@.no_duplicates(),
                nodes@.to_set() == order_nodes(*g),
                forall|k: int|
                    0 <= k < nodes@.len() ==> r.nodes.contains(Node(#[trigger] nodes@[k])),
                initials@.no_duplicates(),
                forall|n: Node| #[trigger]
                    initials@.contains(n) ==> is_initial(r, n) && exists|k: int|
                        0 <= k < i && #[trigger] nodes@[k] == n.0,
                forall|k: int|
                    0 <= k < i && is_initial(r, Node(#[trigger] nodes@[k])) ==> initials@.contains(
                        Node(nodes@[k]),
                    ),
            decreases nodes@.len() - i,
        {
            let sources = order_graph_sources(g, nodes[i]);
            let ghost node = Node(nodes@[i as int]);
            let ghost before = initials@;
            if sources.len() == 0 {
                initials.push(Node(nodes[i]));
                proof {
                    assert forall|p: Node| !r.edges.contains((p, node)) by {
                        assert(!sources@.contains(p.0));
                    }
                    assert(is_initial(r, node));
                    assert(!before.contains(node));
                    assert forall|n: Node| #[trigger] initials@.contains(n) implies n == node
                        || before.contains(n) by {}
                    assert(initials@[before.len() as int] == node);
                    assert forall|n: Node| before.contains(n) implies #[trigger] initials@.contains(
                        n,
                    ) by {
                        let k = choose|k: int| 0 <= k < before.len() && before[k] == n;
                        assert(initials@[k] == n);
                    }
                }
            } else {
                proof {
                    let p = Node(sources@[0]);
                    assert(sources@.contains(p.0));
                    assert(r.edges.contains((p, node)));
                }
            }
            i += 1;
        }
        proof {
            assert forall|n: Node| initials@.contains(n) <==> #[trigger] is_initial(r, n) by {
                if is_initial(r, n) {
                    assert(nodes@.to_set().contains(n.0));
                    let k = choose|k: int| 0 <= k < nodes@.len() && nodes@[k] == n.0;
                    assert(initials@.contains(Node(nodes@[k])));
                }
            }
            assert forall|k: int| 0 <= k < initials@.len() implies call_requires(
                self.ranking(),
                (#[trigger] initials@[k],),
            ) by {
                assert(initials@.contains(initials@[k]));
            }
        }
        let ghost added = initials@;
        self.extend(initials);
        assert(self.queue() == old(self).queue() + added);
    }

    /// Puts up `new_nodes` for a visit.
    pub fn extend(&mut self, new_nodes: Vec<Node>)
        requires
            old(self).ranked(),
            forall|i: int|
                0 <= i < new_nodes@.len() ==> call_requires(
                    old(self).ranking(),
                    (#[trigger] new_nodes@[i],),
                ),
        ensures
            final(self).ranked(),
            old(self).ranks_kept(*final(self)),
            final(self).done() == old(self).done(),
            final(self).queue() == old(self).queue() + new_nodes@,
            old(self).has_ranks(new_nodes@) ==> final(self).ranks() == old(self).ranks(),
    {
        let mut i: usize = 0;
        let ghost start = *self;
        assert(self.tovisit@ =~= start.queue() + new_nodes@.take(0));
        while i < new_nodes.len()
            invariant
                i <= new_nodes@.len(),
                start == *old(self),
                forall|k: int|
                    0 <= k < new_nodes@.len() ==> call_requires(
                        start.ranking(),
                        (#[trigger] new_nodes@[k],),
                    ),
                self.ranked(),
                start.ranks_kept(*self),
                self.done() == start.done(),
                self.queue() == start.queue() + new_nodes@.take(i as int),
                start.has_ranks(new_nodes@) ==> self.ranks() == start.ranks(),
            decreases new_nodes@.len() - i,
        {
            let x = new_nodes[i];
            let ghost before = *self;
            self.give_rank(x);
            self.tovisit.push(x);
            proof {
                assert(new_nodes@.contains(x));
                assert(new_nodes@.take(i + 1) =~= new_nodes@.take(i as int).push(x));
                assert(self.queue() =~= before.queue().push(x));
                assert(self.queue() =~= start.queue() + new_nodes@.take(i + 1));
                assert forall|n: Node| #[trigger] self.queue().contains(
                    n,
                ) implies self.ranks().contains_key(n) by {
                    let k = choose|k: int| 0 <= k < self.queue().len() && self.queue()[k] == n;
                    if k < before.queue().len() {
                        assert(before.queue()[k] == n);
                        assert(before.queue().contains(n));
                    }
                }
            }
            i += 1;
        }
        assert(new_nodes@.take(new_nodes@.len() as int) =~= new_nodes@);
    }

    /// Gives a rank to `n` if it has none.
    fn give_rank(&mut self, n: Node)
        requires
            ranks_given(old(self).ranking(), old(self).ranks()),
            call_requires(old(self).ranking(), (n,)),
        ensures
            ranks_given(final(self).ranking(), final(self).ranks()),
            old(self).ranks_kept(*final(self)),
            final(self).done() == old(self).done(),
            final(self).queue() == old(self).queue(),
            final(self).ranks().contains_key(n),
            old(self).ranks().contains_key(n) ==> final(self).ranks() == old(self).ranks(),
    {
        if !self.ranks.contains_key(&n.0) {
            let rank = self.rank;
            let k = rank(n);
            self.ranks.insert(n.0, k);
            proof {
                assert(self.ranks() =~= old(self).ranks().insert(n, k));
            }
        }
    }

    /// Gives ranks to the nodes of the graph that have none.
    fn rank_nodes(&mut self, g: &OrderGraph)
        requires
            old(self).ranked(),
            forall|n: Node| #[trigger]
                region(*g).nodes.contains(n) ==> call_requires(old(self).ranking(), (n,)),
        ensures
            final(self).ranked(),
            final(self).ranks_all(region(*g)),
            old(self).ranks_kept(*final(self)),
            final(self).done() == old(self).done(),
            final(self).queue() == old(self).queue(),
            old(self).ranks_all(region(*g)) ==> final(self).ranks() == old(self).ranks(),
    {
        let nodes = order_graph_nodes(g);
        let ghost r = region(*g);
        let ghost start = *self;
        let mut i: usize = 0;
        while i < nodes.len()
            invariant
                i <= nodes@.len(),
                r == region(*g),
                start == *old(self),
                nodes@.to_set() == order_nodes(*g),
                forall|n: Node| #[trigger]
                    r.nodes.contains(n) ==> call_requires(start.ranking(), (n,)),
                self.ranked(),
                start.ranks_kept(*self),
                self.done() == start.done(),
                self.queue() == start.queue(),
                start.ranks_all(r) ==> self.ranks() == start.ranks(),
                forall|k: int|
                    0 <= k < i ==> self.ranks().contains_key(Node(#[trigger] nodes@[k])),
            decreases nodes@.len() - i,
        {
            proof {
                assert(nodes@.to_set().contains(nodes@[i as int]));
                assert(r.nodes.contains(Node(nodes@[i as int])));
            }
            self.give_rank(Node(nodes[i]));
            i += 1;
        }
        proof {
            assert forall|n: Node| #[trigger] r.nodes.contains(n) implies self.ranks().contains_key(
                n,
            ) by {
                assert(nodes@.to_set().contains(n.0));
                let k = choose|k: int| 0 <= k < nodes@.len() && nodes@[k] == n.0;
                assert(self.ranks().contains_key(Node(nodes@[k])));
            }
        }
    }

    /// Whether the nodes that wait are those that may come next, and nothing was
    /// visited before what it depends on.
    pub open spec fn follows(self, r: Region) -> bool {
        &&& forall|n: Node| #[trigger] r.available(self.done(), n) <==> self.waits(n)
        &&& forall|n: Node| #[trigger] self.done().contains(n) ==> r.ready(self.done(), n)
    }

    /// Whether the nodes that wait are the same in both walks.
    spec fn waits_like(self, other: Self) -> bool {
        &&& self.rank == other.rank
        &&& self.ranks == other.ranks
        &&& self.ordered@ == other.ordered@
        &&& forall|n: Node| #[trigger] self.waits(n) <==> other.waits(n)
    }

    /// Return the next node in the current topological order traversal, or
    /// `None` if the traversal is at the end.
    ///
    /// *Note:* The graph may not have a complete topological order, and the only
    /// way to know is to run the whole traversal and make sure it visits every node.
    pub fn next(&mut self, g: &OrderGraph) -> (result: Option<Node>)
        requires
            totally_ordered::<K>(),
            old(self).ranked(),
            forall|n: Node| #[trigger]
                region(*g).nodes.contains(n) ==> call_requires(old(self).ranking(), (n,)),
        ensures
            final(self).ranked(),
            final(self).ranks_all(region(*g)),
            old(self).ranks_kept(*final(self)),
            old(self).ranks_all(region(*g)) ==> final(self).ranks() == old(self).ranks(),
            match result {
                None => {
                    &&& forall|n: Node| !#[trigger] old(self).waits(n)
                    &&& final(self).done() == old(self).done()
                    &&& final(self).queue() == Seq::<Node>::empty()
                },
                Some(nix) => {
                    let r = region(*g);
                    &&& old(self).takes(r, final(self).ranks(), nix)
                    &&& final(self).done() == old(self).done().insert(nix)
                    &&& forall|n: Node| #[trigger]
                        final(self).waits(n) <==> n != nix && (old(self).waits(n) || unlocks(
                            r,
                            old(self).done(),
                            nix,
                            n,
                        ) && !old(self).done().contains(n))
                    &&& old(self).follows(r) ==> final(self).follows(r)
                },
            },
    {
        self.rank_nodes(g);
        let ghost start = *self;
        let ghost r = region(*g);
        assert forall|n: Node| #[trigger] start.waits(n) <==> old(self).waits(n) by {}
        // Take an unvisited element and find which of its neighbors are next
        while self.tovisit.len() > 0
            invariant
                totally_ordered::<K>(),
                r == region(*g),
                start.ranks_all(r),
                start.ranking() == old(self).ranking(),
                start.done() == old(self).done(),
                forall|n: Node| #[trigger] start.waits(n) <==> old(self).waits(n),
                forall|n: Node| #[trigger]
                    r.nodes.contains(n) ==> call_requires(start.ranking(), (n,)),
                self.ranked(),
                self.waits_like(start),
                old(self).ranks_kept(start),
                old(self).ranks_all(r) ==> start.ranks() == old(self).ranks(),
            decreases self.tovisit@.len(),
        {
            let best = self.find_best(g);
            let ghost before = *self;
            let nix = self.tovisit.remove(best);
            proof {
                assert(before.queue()[best as int] == nix);
                assert(before.queue().contains(nix));
                lemma_queue_removed(before.queue(), best as int);
                assert(self.ranks() == start.ranks());
                assert(self.done() == start.done());
            }
            if self.ordered.contains(&nix.0) {
                proof {
                    assert forall|n: Node| #[trigger] self.waits(n) <==> start.waits(n) by {
                        assert(before.waits(n) <==> start.waits(n));
                    }
                }
                continue;
            }
            self.ordered.insert(nix.0);
            // Look at each neighbor, and those that only have incoming edges
            // from the already ordered list, they are the next to visit.
            let new_nodes = self.unlocked(g, nix);
            let ghost visited = *self;
            proof {
                assert(visited.done() =~= start.done().insert(nix));
                assert(visited.ranks() == start.ranks());
                assert forall|i: int| 0 <= i < new_nodes@.len() implies call_requires(
                    visited.ranking(),
                    (#[trigger] new_nodes@[i],),
                ) by {
                    assert(new_nodes@.contains(new_nodes@[i]));
                    assert(r.nodes.contains(new_nodes@[i]));
                }
            }
            self.extend(new_nodes);
            proof {
                assert(self.ranks() == start.ranks());
                assert(start.takes(r, start.ranks(), nix)) by {
                    assert(before.waits(nix));
                    assert forall|m: Node| #[trigger] start.waits(m) implies preferred(
                        r,
                        start.done(),
                        start.ranks(),
                        nix,
                        m,
                    ) by {
                        assert(before.waits(m));
                        let j = choose|j: int|
                            0 <= j < before.queue().len() && before.queue()[j] == m;
                    }
                }
                assert forall|m: Node| #[trigger] old(self).waits(m) implies preferred(
                    r,
                    old(self).done(),
                    self.ranks(),
                    nix,
                    m,
                ) by {
                    assert(start.waits(m));
                }
                assert forall|n: Node| #[trigger] self.waits(n) <==> n != nix && (old(self).waits(n)
                    || unlocks(r, old(self).done(), nix, n) && !old(self).done().contains(n)) by {
                    assert(start.waits(n) <==> old(self).waits(n));
                    assert(before.waits(n) <==> start.waits(n));
                    lemma_joined(visited.queue(), new_nodes@, n);
                    assert(new_nodes@.contains(n) <==> unlocks(r, start.done(), nix, n));
                }
                if old(self).follows(r) {
                    assert forall|n: Node| #[trigger] unlocks(
                        r,
                        old(self).done(),
                        nix,
                        n,
                    ) implies r.nodes.contains(n) by {
                        assert(new_nodes@.contains(n));
                    }
                    lemma_follows_next(*old(self), *self, r, nix);
                }
            }
            return Some(nix);
        }
        proof {
            assert forall|n: Node| !#[trigger] old(self).waits(n) by {
                assert(self.waits(n) <==> start.waits(n));
                assert(!self.waits(n));
            }
            assert(self.done() =~= old(self).done());
            assert(self.queue() =~= Seq::<Node>::empty());
            assert(self.ranks() == start.ranks());
        }
        None
    }

    /// Whether `n` waits and is preferred to all others that wait.
    pub open spec fn takes(self, r: Region, ranks: Map<Node, K>, n: Node) -> bool {
        &&& self.waits(n)
        &&& forall|m: Node| #[trigger]
            self.waits(m) ==> preferred(r, self.done(), ranks, n, m)
    }

    /// Walks to the end.
    pub fn iter(self, g: &OrderGraph) -> (order: Vec<Node>)
        requires
            totally_ordered::<K>(),
            self.ranked(),
            self.done() == Set::<Node>::empty(),
            self.follows(region(*g)),
            forall|n: Node| #[trigger]
                region(*g).nodes.contains(n) ==> call_requires(self.ranking(), (n,)),
        ensures
            exists|ranks: Map<Node, K>|
                {
                    &&& greedy(region(*g), ranks, order@)
                    &&& #[trigger] ranks_given(self.ranking(), ranks)
                },
    {
        let mut topo = self;
        topo.rank_nodes(g);
        let mut order: Vec<Node> = Vec::new();
        let ghost r = region(*g);
        let ghost ranks = topo.ranks();
        proof {
            assert(order@.to_set() =~= Set::<Node>::empty());
            assert forall|n: Node| #[trigger] topo.waits(n) <==> self.waits(n) by {}
            assert forall|n: Node| #[trigger] r.available(topo.done(), n) <==> topo.waits(n) by {
                assert(r.available(self.done(), n) <==> self.waits(n));
            }
        }
        let bound = order_graph_nodes(g);
        let mut walking = true;
        while walking
            invariant
                totally_ordered::<K>(),
                r == region(*g),
                bound@.to_set() == order_nodes(*g),
                topo.ranking() == self.ranking(),
                forall|n: Node| #[trigger]
                    r.nodes.contains(n) ==> call_requires(self.ranking(), (n,)),
                topo.done() == order@.to_set(),
                topo.follows(r),
                topo.ranked(),
                topo.ranks_all(r),
                topo.ranks() == ranks,
                order@.no_duplicates(),
                forall|i: int| 0 <= i < order@.len() ==> r.nodes.contains(#[trigger] order@[i]),
                order@.len() <= bound@.len(),
                forall|i: int| 0 <= i < order@.len() ==> #[trigger] best_at(r, ranks, order@, i),
                !walking ==> forall|n: Node| !#[trigger] r.available(order@.to_set(), n),
            decreases
                bound@.len() - order@.len() + (if walking {
                    1int
                } else {
                    0int
                }),
        {
            let ghost before = topo;
            let ghost old_order = order@;
            match topo.next(g) {
                Some(nix) => {
                    order.push(nix);
                    proof {
                        assert(before.waits(nix));
                        assert(r.available(before.done(), nix));
                        lemma_push_set(old_order, nix);
                        assert(!old_order.contains(nix));
                        assert forall|i: int| 0 <= i < order@.len() implies bound@.contains(
                            (#[trigger] order@[i]).0,
                        ) by {
                            assert(r.nodes.contains(order@[i]));
                            assert(bound@.to_set().contains(order@[i].0));
                        }
                        lemma_order_bound(bound@, order@);
                        assert(order@.take(old_order.len() as int) =~= old_order);
                        assert forall|n: Node| #[trigger]
                            r.available(old_order.to_set(), n) implies preferred(
                            r,
                            old_order.to_set(),
                            ranks,
                            nix,
                            n,
                        ) by {
                            assert(before.waits(n));
                        }
                        assert forall|i: int| 0 <= i < order@.len() implies #[trigger] best_at(
                            r,
                            ranks,
                            order@,
                            i,
                        ) by {
                            assert(order@.take(i) =~= old_order.take(i));
                            if i < old_order.len() {
                                assert(best_at(r, ranks, old_order, i));
                            }
                        }
                    }
                },
                None => {
                    proof {
                        assert forall|n: Node| !#[trigger] r.available(order@.to_set(), n) by {
                            assert(!before.waits(n));
                        }
                    }
                    walking = false;
                },
            }
        }
        proof {
            assert(greedy(r, ranks, order@));
        }
        order
    }

    /// The rank of `n`.
    fn rank_of(&self, n: Node) -> (k: &K)
        requires
            self.ranks().contains_key(n),
        ensures
            *k == self.ranks()[n],
    {
        self.ranks.get(&n.0).unwrap()
    }

    /// Whether each node that has not been visited and is ranked lower than `m`
    /// depends on `m`.
    fn is_head(&self, g: &OrderGraph, m: Node) -> (head: bool)
        requires
            totally_ordered::<K>(),
            self.ranks_all(region(*g)),
            self.ranks().contains_key(m),
        ensures
            head == heads(region(*g), self.done(), self.ranks(), m),
    {
        let nodes = order_graph_nodes(g);
        let ghost r = region(*g);
        let mut i: usize = 0;
        while i < nodes.len()
            invariant
                i <= nodes@.len(),
                totally_ordered::<K>(),
                r == region(*g),
                nodes@.to_set() == order_nodes(*g),
                self.ranks_all(r),
                self.ranks().contains_key(m),
                forall|j: int|
                    0 <= j < i && !self.done().contains(Node(#[trigger] nodes@[j])) && lower(
                        self.ranks()[Node(nodes@[j])],
                        self.ranks()[m],
                    ) ==> leads_to(r, m, Node(nodes@[j])),
            decreases nodes@.len() - i,
        {
            let n = Node(nodes[i]);
            proof {
                assert(nodes@.to_set().contains(n.0));
                assert(r.nodes.contains(n));
                lemma_has_path(*g, m, n);
            }
            if !self.ordered.contains(&n.0) && is_lower(self.rank_of(n), self.rank_of(m))
                && !order_graph_has_path(g, m.0, n.0) {
                return false;
            }
            i += 1;
        }
        proof {
            assert forall|n: Node| #[trigger]
                r.nodes.contains(n) && !self.done().contains(n) && lower(
                    self.ranks()[n],
                    self.ranks()[m],
                ) implies leads_to(r, m, n) by {
                assert(nodes@.to_set().contains(n.0));
                let j = choose|j: int| 0 <= j < nodes@.len() && nodes@[j] == n.0;
                assert(!self.done().contains(Node(nodes@[j])));
            }
        }
        true
    }

    /// Whether the first node is preferred to the second.
    fn beats(&self, g: &OrderGraph, first: Node, second: Node) -> (better: bool)
        requires
            totally_ordered::<K>(),
            self.ranks_all(region(*g)),
            self.ranks().contains_key(first),
            self.ranks().contains_key(second),
        ensures
            better == preferred(region(*g), self.done(), self.ranks(), first, second),
    {
        proof {
            reveal(vstd::laws_cmp::obeys_cmp_ord);
        }
        match self.rank_of(first).cmp(self.rank_of(second)) {
            Ordering::Less => true,
            Ordering::Equal => {
                let head = self.is_head(g, first);
                if head == self.is_head(g, second) {
                    first.0 >= second.0
                } else {
                    head
                }
            },
            Ordering::Greater => false,
        }
    }

    /// The place of the node that is preferred to all others.
    fn find_best(&self, g: &OrderGraph) -> (best: usize)
        requires
            totally_ordered::<K>(),
            self.ranked(),
            self.ranks_all(region(*g)),
            self.tovisit@.len() > 0,
        ensures
            best < self.tovisit@.len(),
            forall|j: int|
                0 <= j < self.tovisit@.len() ==> preferred(
                    region(*g),
                    self.done(),
                    self.ranks(),
                    self.tovisit@[best as int],
                    #[trigger] self.tovisit@[j],
                ),
    {
        let mut best: usize = 0;
        let mut j: usize = 1;
        let ghost r = region(*g);
        proof {
            let a = self.tovisit@[0];
            lemma_preferred(r, self.done(), self.ranks(), a, a, a);
        }
        while j < self.tovisit.len()
            invariant
                totally_ordered::<K>(),
                r == region(*g),
                self.ranked(),
                self.ranks_all(r),
                best < j <= self.tovisit@.len(),
                forall|i: int|
                    0 <= i < j ==> preferred(
                        r,
                        self.done(),
                        self.ranks(),
                        self.tovisit@[best as int],
                        #[trigger] self.tovisit@[i],
                    ),
            decreases self.tovisit@.len() - j,
        {
            let candidate = self.tovisit[j];
            let champion = self.tovisit[best];
            proof {
                assert(self.queue().contains(candidate));
                assert(self.queue().contains(champion));
                lemma_preferred(r, self.done(), self.ranks(), candidate, champion, candidate);
            }
            let better = self.beats(g, candidate, champion);
            proof {
                assert forall|i: int| 0 <= i < j && better implies preferred(
                    r,
                    self.done(),
                    self.ranks(),
                    candidate,
                    #[trigger] self.tovisit@[i],
                ) by {
                    lemma_preferred(
                        r,
                        self.done(),
                        self.ranks(),
                        candidate,
                        champion,
                        self.tovisit@[i],
                    );
                }
            }
            if better {
                best = j;
            }
            j += 1;
        }
        best
    }

    /// The nodes that follow `nix` and of which everything that they depend on
    /// has been visited.
    fn unlocked(&self, g: &OrderGraph, nix: Node) -> (new_nodes: Vec<Node>)
        ensures
            new_nodes@.no_duplicates(),
            forall|n: Node| #[trigger]
                new_nodes@.contains(n) <==> region(*g).edges.contains((nix, n)) && region(*g).ready(
                    self.done(),
                    n,
                ),
            forall|n: Node| #[trigger] new_nodes@.contains(n) ==> region(*g).nodes.contains(n),
    {
        let targets = order_graph_neighbors(g, nix.0);
        let ghost r = region(*g);
        let mut new_nodes: Vec<Node> = Vec::new();
        let mut i: usize = 0;
        while i < targets.len()
            invariant
                i <= targets@.len(),
                r == region(*g),
                targets@.no_duplicates(),
                forall|n: u32| #[trigger]
                    targets@.contains(n) <==> order_edges(*g).contains((nix.0, n)),
                forall|n: u32| #[trigger] targets@.contains(n) ==> order_nodes(*g).contains(n),
                new_nodes@.no_duplicates(),
                forall|n: Node| #[trigger]
                    new_nodes@.contains(n) ==> r.ready(self.done(), n) && exists|k: int|
                        0 <= k < i && #[trigger] targets@[k] == n.0,
                forall|k: int|
                    0 <= k < i && r.ready(self.done(), Node(#[trigger] targets@[k]))
                        ==> new_nodes@.contains(Node(targets@[k])),
            decreases targets@.len() - i,
        {
            let ghost node = Node(targets@[i as int]);
            let ghost before = new_nodes@;
            if self.all_visited(g, Node(targets[i])) {
                new_nodes.push(Node(targets[i]));
                proof {
                    assert(!before.contains(node));
                    assert forall|n: Node| #[trigger] new_nodes@.contains(n) implies n == node
                        || before.contains(n) by {}
                    assert(new_nodes@[before.len() as int] == node);
                    assert forall|n: Node| before.contains(n) implies #[trigger] new_nodes@.contains(
                        n,
                    ) by {
                        let k = choose|k: int| 0 <= k < before.len() && before[k] == n;
                        assert(new_nodes@[k] == n);
                    }
                }
            }
            i += 1;
        }
        proof {
            assert forall|n: Node| #[trigger]
                new_nodes@.contains(n) <==> r.edges.contains((nix, n)) && r.ready(
                    self.done(),
                    n,
                ) by {
                if new_nodes@.contains(n) {
                    let k = choose|k: int| 0 <= k < i && #[trigger] targets@[k] == n.0;
                    assert(targets@.contains(n.0));
                }
                if r.edges.contains((nix, n)) && r.ready(self.done(), n) {
                    assert(targets@.contains(n.0));
                    let k = choose|k: int| 0 <= k < targets@.len() && targets@[k] == n.0;
                    assert(new_nodes@.contains(Node(targets@[k])));
                }
            }
            assert forall|n: Node| #[trigger] new_nodes@.contains(n) implies r.nodes.contains(
                n,
            ) by {
                assert(r.edges.contains((nix, n)));
                assert(targets@.contains(n.0));
            }
        }
        new_nodes
    }

    /// Whether everything that `n` depends on directly has been visited.
    fn all_visited(&self, g: &OrderGraph, n: Node) -> (all: bool)
        ensures
            all == region(*g).ready(self.done(), n),
    {
        let sources = order_graph_sources(g, n.0);
        let mut i: usize = 0;
        while i < sources.len()
            invariant
                i <= sources@.len(),
                forall|p: u32| #[trigger]
                    sources@.contains(p) <==> order_edges(*g).contains((p, n.0)),
                forall|k: int| 0 <= k < i ==> self.ordered@.contains(#[trigger] sources@[k]),
            decreases sources@.len() - i,
        {
            if !self.ordered.contains(&sources[i]) {
                proof {
                    let p = Node(sources@[i as int]);
                    assert(sources@.contains(p.0));
                    assert(region(*g).edges.contains((p, n)));
                    assert(!self.done().contains(p));
                }
                return false;
            }
            i += 1;
        }
        proof {
            assert forall|p: Node| #[trigger]
                region(*g).edges.contains((p, n)) implies self.done().contains(p) by {
                assert(sources@.contains(p.0));
                let k = choose|k: int| 0 <= k < sources@.len() && sources@[k] == p.0;
                assert(self.ordered@.contains(sources@[k]));
            }
        }
        true
    }
}

/// Whether `ranks` holds what the ranking function may give.
pub open spec fn ranks_given<K, F: Fn(Node) -> K>(ranking: F, ranks: Map<Node, K>) -> bool {
    forall|n: Node| #[trigger] ranks.contains_key(n) ==> call_ensures(ranking, (n,), ranks[n])
}

/// Whether the node at place `i` may come after those before it, and is
/// preferred to all others that may.
pub open spec fn best_at<K: Ord>(
    r: Region,
    ranks: Map<Node, K>,
    order: Seq<Node>,
    i: int,
) -> bool {
    let done = order.take(i).to_set();
    &&& r.available(done, order[i])
    &&& forall|n: Node| #[trigger]
        r.available(done, n) ==> preferred(r, done, ranks, order[i], n)
}

/// Whether all nodes have ranks and `order` takes, as long as some node may come
/// next, the one that is preferred to all others that may.
pub open spec fn greedy<K: Ord>(r: Region, ranks: Map<Node, K>, order: Seq<Node>) -> bool {
    &&& forall|n: Node| #[trigger] r.nodes.contains(n) ==> ranks.contains_key(n)
    &&& forall|i: int| 0 <= i < order.len() ==> #[trigger] best_at(r, ranks, order, i)
    &&& forall|n: Node| !#[trigger] r.available(order.to_set(), n)
}

/// Adding to a list adds to what it lists.
pub proof fn lemma_push_set(order: Seq<Node>, n: Node)
    ensures
        order.push(n).to_set() == order.to_set().insert(n),
{
    let after = order.push(n);
    assert forall|m: Node| after.to_set().contains(m) <==> order.to_set().insert(n).contains(m) by {
        if after.contains(m) && m != n {
            let i = choose|i: int| 0 <= i < after.len() && after[i] == m;
            assert(order[i] == m);
        }
        if order.contains(m) {
            let i = choose|i: int| 0 <= i < order.len() && order[i] == m;
            assert(after[i] == m);
        }
        assert(after[order.len() as int] == n);
    }
    assert(after.to_set() =~= order.to_set().insert(n));
}

/// An order of different nodes is no longer than the list of all nodes.
proof fn lemma_order_bound(all: Seq<u32>, order: Seq<Node>)
    requires
        order.no_duplicates(),
        forall|i: int| 0 <= i < order.len() ==> all.contains((#[trigger] order[i]).0),
    ensures
        order.len() <= all.len(),
{
    let ids = order.map_values(|n: Node| n.0);
    assert(ids.no_duplicates());
    assert(ids.to_set().subset_of(all.to_set())) by {
        assert forall|id: u32| ids.to_set().contains(id) implies all.to_set().contains(id) by {
            let i = choose|i: int| 0 <= i < ids.len() && ids[i] == id;
            assert(all.contains(order[i].0));
        }
    }
    ids.unique_seq_to_set();
    vstd::seq_lib::seq_to_set_is_finite(all);
    vstd::set_lib::lemma_len_subset(ids.to_set(), all.to_set());
    all.lemma_cardinality_of_set();
}
/// Whether the first rank is lower than the second.
fn is_lower<K: Ord>(first: &K, second: &K) -> (less: bool)
    requires
        totally_ordered::<K>(),
    ensures
        less == lower(*first, *second),
{
    proof {
        reveal(vstd::laws_cmp::obeys_cmp_ord);
    }
    match first.cmp(second) {
        Ordering::Less => true,
        _ => false,
    }
}

/// The paths of a graph are those of its region.
proof fn lemma_has_path(g: OrderGraph, a: Node, n: Node)
    ensures
        leads_to(region(g), a, n) <==> exists|path: Seq<u32>|
            is_order_walk(order_edges(g), path, a.0, n.0),
{
    let r = region(g);
    let edges = order_edges(g);
    if leads_to(r, a, n) {
        let path = choose|path: Seq<Node>| #[trigger]
            is_path(r, path) && path[0] == a && path.last() == n;
        let ids = path.map_values(|m: Node| m.0);
        assert forall|i: int, j: int|
            #![trigger ids[i], ids[j]]
            0 <= i && j == i + 1 && j < ids.len() implies edges.contains((ids[i], ids[j])) by {
            assert(r.edges.contains((path[i], path[j])));
        }
        assert(is_order_walk(edges, ids, a.0, n.0));
    }
    if exists|path: Seq<u32>| is_order_walk(edges, path, a.0, n.0) {
        let ids = choose|path: Seq<u32>| is_order_walk(edges, path, a.0, n.0);
        let path = ids.map_values(|id: u32| Node(id));
        assert forall|i: int, j: int|
            #![trigger path[i], path[j]]
            0 <= i && j == i + 1 && j < path.len() implies r.edges.contains(
            (path[i], path[j]),
        ) by {
            assert(edges.contains((ids[i], ids[j])));
        }
        assert(is_path(r, path));
        assert(path[0] == a && path.last() == n);
    }
}

/// Whether visiting `nix` makes `n` available: `n` follows it, and depends on
/// nothing else that has not been visited.
pub open spec fn unlocks(r: Region, done: Set<Node>, nix: Node, n: Node) -> bool {
    r.edges.contains((nix, n)) && r.ready(done.insert(nix), n)
}

/// What is in a list without its entry at `i` was in the list, and what was is,
/// but for that entry.
proof fn lemma_queue_removed(queue: Seq<Node>, i: int)
    requires
        0 <= i < queue.len(),
    ensures
        forall|n: Node| #[trigger] queue.remove(i).contains(n) ==> queue.contains(n),
        forall|n: Node| #[trigger]
            queue.contains(n) && n != queue[i] ==> queue.remove(i).contains(n),
{
    let rest = queue.remove(i);
    assert forall|n: Node| #[trigger] rest.contains(n) implies queue.contains(n) by {
        let j = choose|j: int| 0 <= j < rest.len() && rest[j] == n;
        if j < i {
            assert(queue[j] == n);
        } else {
            assert(queue[j + 1] == n);
        }
    }
    assert forall|n: Node| #[trigger] queue.contains(n) && n != queue[i] implies rest.contains(
        n,
    ) by {
        let j = choose|j: int| 0 <= j < queue.len() && queue[j] == n;
        if j < i {
            assert(rest[j] == n);
        } else {
            assert(rest[j - 1] == n);
        }
    }
}

/// What is in two lists together is in one of them.
proof fn lemma_joined(first: Seq<Node>, second: Seq<Node>, n: Node)
    ensures
        (first + second).contains(n) <==> first.contains(n) || second.contains(n),
{
    let both = first + second;
    if first.contains(n) {
        let i = choose|i: int| 0 <= i < first.len() && first[i] == n;
        assert(both[i] == n);
    }
    if second.contains(n) {
        let i = choose|i: int| 0 <= i < second.len() && second[i] == n;
        assert(both[first.len() + i] == n);
    }
}

/// Visiting a node that may come next keeps the walk in step with the graph.
proof fn lemma_follows_next<'a, K: Ord, F: Fn(Node) -> K>(
    before: ForceOrder<'a, K, F>,
    after: ForceOrder<'a, K, F>,
    r: Region,
    nix: Node,
)
    requires
        before.follows(r),
        before.waits(nix),
        after.done() == before.done().insert(nix),
        forall|n: Node| #[trigger]
            after.waits(n) <==> n != nix && (before.waits(n) || unlocks(r, before.done(), nix, n)
                && !before.done().contains(n)),
        forall|n: Node| #[trigger] unlocks(r, before.done(), nix, n) ==> r.nodes.contains(n),
    ensures
        after.follows(r),
{
    let done = before.done();
    assert(r.available(done, nix));
    assert forall|n: Node| #[trigger] r.available(after.done(), n) implies after.waits(n) by {
        if !r.available(done, n) {
            let p = choose|p: Node| #[trigger] r.edges.contains((p, n)) && !done.contains(p);
            assert(after.done().contains(p));
            assert(p == nix);
            assert(unlocks(r, done, nix, n));
        }
    }
    assert forall|n: Node| after.waits(n) implies #[trigger] r.available(after.done(), n) by {
        if before.waits(n) {
            assert(r.available(done, n));
        }
    }
    assert forall|n: Node| #[trigger] after.done().contains(n) implies r.ready(
        after.done(),
        n,
    ) by {
        if n != nix {
            assert(done.contains(n));
        }
    }
}

/// Whether `n` is a node without incoming edges.
pub open spec fn is_initial(r: Region, n: Node) -> bool {
    r.nodes.contains(n) && forall|p: Node| !#[trigger] r.edges.contains((p, n))
}

} // verus!
