//! Maps from the sides of nodes to values.

use std::collections::HashMap;

use vstd::prelude::*;

use crate::extension_set::{ExtensionSet, Exts};
use crate::hugr::{Direction, Loc};

verus! {

broadcast use vstd::std_specs::hash::group_hash_axioms;

/// A number for each location, different for different locations.
pub closed spec fn loc_key(loc: Loc) -> u64 {
    match loc.1 {
        Direction::Incoming => (2 * loc.0.0) as u64,
        Direction::Outgoing => (2 * loc.0.0 + 1) as u64,
    }
}

/// Different locations have different numbers.
proof fn lemma_loc_key_injective(a: Loc, b: Loc)
    requires
        loc_key(a) == loc_key(b),
    ensures
        a == b,
{
}

fn key_of(loc: &Loc) -> (key: u64)
    ensures
        key == loc_key(*loc),
{
    let twice: u64 = 2 * (loc.0.0 as u64);
    match loc.1 {
        Direction::Incoming => twice,
        Direction::Outgoing => twice + 1,
    }
}

/// A map from locations to values that also lists its locations.
#[derive(Debug, Clone)]
pub struct LocMap<V> {
    locs: Vec<Loc>,
    entries: HashMap<u64, V>,
}

impl<V> View for LocMap<V> {
    type V = Map<Loc, V>;

    closed spec fn view(&self) -> Map<Loc, V> {
        Map::new(
            |loc: Loc| self.entries@.contains_key(loc_key(loc)),
            |loc: Loc| self.entries@[loc_key(loc)],
        )
    }
}

impl<V> LocMap<V> {
    /// Every location of the map is listed once, and nothing else is.
    pub closed spec fn wf(self) -> bool {
        &&& self.locs@.no_duplicates()
        &&& forall|i: int| 0 <= i < self.locs@.len() ==> self@.contains_key(#[trigger] self.locs@[i])
        &&& forall|loc: Loc| #[trigger] self@.contains_key(loc) ==> self.locs@.contains(loc)
    }

    /// The locations in the order in which they were added.
    pub closed spec fn order(self) -> Seq<Loc> {
        self.locs@
    }

    /// The map without entries.
    pub fn new() -> (map: LocMap<V>)
        ensures
            map.wf(),
            map@ == Map::<Loc, V>::empty(),
    {
        let map = LocMap { locs: Vec::new(), entries: HashMap::new() };
        assert(map@ =~= Map::<Loc, V>::empty());
        map
    }

    /// Maps `loc` to `value`; the result tells whether it had no value before.
    pub fn insert(&mut self, loc: Loc, value: V) -> (fresh: bool)
        requires
            old(self).wf(),
        ensures
            final(self).wf(),
            final(self)@ == old(self)@.insert(loc, value),
            fresh == !old(self)@.contains_key(loc),
    {
        let key = key_of(&loc);
        let fresh = !self.entries.contains_key(&key);
        self.entries.insert(key, value);
        if fresh {
            self.locs.push(loc);
        }
        proof {
            assert forall|l: Loc| loc_key(l) == key implies l == loc by {
                lemma_loc_key_injective(l, loc);
            }
            assert(self@ =~= old(self)@.insert(loc, value));
            let before = old(self).locs@;
            assert forall|l: Loc| #[trigger] self@.contains_key(l) implies self.locs@.contains(l) by {
                if l == loc && fresh {
                    assert(self.locs@[before.len() as int] == loc);
                } else {
                    assert(old(self)@.contains_key(l));
                    let i = choose|i: int| 0 <= i < before.len() && before[i] == l;
                    assert(self.locs@[i] == l);
                }
            }
            assert forall|i: int| 0 <= i < self.locs@.len() implies self@.contains_key(
                #[trigger] self.locs@[i],
            ) by {
                if i < before.len() {
                    assert(old(self)@.contains_key(before[i]));
                }
            }
        }
        fresh
    }

    /// The value at `loc`, if there is one.
    pub fn get(&self, loc: &Loc) -> (value: Option<&V>)
        ensures
            match value {
                Some(v) => self@.contains_key(*loc) && *v == self@[*loc],
                None => !self@.contains_key(*loc),
            },
    {
        self.entries.get(&key_of(loc))
    }

    /// Whether there is a value at `loc`.
    pub fn contains_key(&self, loc: &Loc) -> (found: bool)
        ensures
            found == self@.contains_key(*loc),
    {
        self.entries.contains_key(&key_of(loc))
    }

    /// The number of locations.
    pub fn len(&self) -> (n: usize)
        requires
            self.wf(),
        ensures
            n == self.order().len(),
            n == self@.dom().len(),
    {
        proof {
            self.lemma_order();
        }
        self.locs.len()
    }

    /// Whether there are no entries.
    pub fn is_empty(&self) -> (empty: bool)
        requires
            self.wf(),
        ensures
            empty == (self@ == Map::<Loc, V>::empty()),
    {
        proof {
            if self.locs@.len() == 0 {
                assert(self@ =~= Map::<Loc, V>::empty());
            } else {
                assert(self@.contains_key(self.locs@[0]));
            }
        }
        self.locs.len() == 0
    }

    /// The location listed at position `i`.
    pub fn location(&self, i: usize) -> (loc: Loc)
        requires
            self.wf(),
            i < self.order().len(),
        ensures
            loc == self.order()[i as int],
            self@.contains_key(loc),
    {
        self.locs[i]
    }

    /// The order lists each location of the map once.
    pub proof fn lemma_order(&self)
        requires
            self.wf(),
        ensures
            self.order().no_duplicates(),
            self.order().to_set() == self@.dom(),
            self.order().len() == self@.dom().len(),
            self@.dom().finite(),
    {
        assert(self.order().to_set() =~= self@.dom()) by {
            assert forall|loc: Loc| self.order().to_set().contains(loc) <==> self@.dom().contains(
                loc,
            ) by {
                if self.order().contains(loc) {
                    let i = choose|i: int| 0 <= i < self.locs@.len() && self.locs@[i] == loc;
                    assert(self@.contains_key(self.locs@[i]));
                }
            }
        }
        self.order().unique_seq_to_set();
        vstd::seq_lib::seq_to_set_is_finite(self.order());
    }
}

/// The extension sets that were found for locations.
pub type ExtensionSolution = LocMap<ExtensionSet>;

/// What a solution says, in terms of sets of names.
pub open spec fn solution_sets(map: Map<Loc, ExtensionSet>) -> Map<Loc, Exts> {
    map.map_values(|set: ExtensionSet| set@)
}

} // verus!
