//! Extension names and finite sets of them.

use vstd::prelude::*;

verus! {

/// A set of extension names, as the contracts speak of it.
pub type Exts = Set<Seq<char>>;

/// The name of an extension.
#[derive(Debug)]
pub struct ExtensionId {
    name: String,
}

impl View for ExtensionId {
    type V = Seq<char>;

    closed spec fn view(&self) -> Seq<char> {
        self.name@
    }
}

impl ExtensionId {
    /// The extension called `name`.
    pub fn new(name: &str) -> (id: ExtensionId)
        ensures
            id@ == name@,
    {
        ExtensionId { name: name.to_owned() }
    }

    /// The name as text.
    pub fn as_str(&self) -> (name: &str)
        ensures
            name@ == self@,
    {
        self.name.as_str()
    }
}

impl Clone for ExtensionId {
    fn clone(&self) -> (id: ExtensionId)
        ensures
            id@ == self@,
    {
        ExtensionId { name: self.name.clone() }
    }
}

impl PartialEq for ExtensionId {
    fn eq(&self, other: &ExtensionId) -> (same: bool) {
        self.name == other.name
    }
}

impl vstd::std_specs::cmp::PartialEqSpecImpl for ExtensionId {
    open spec fn obeys_eq_spec() -> bool {
        true
    }

    open spec fn eq_spec(&self, other: &ExtensionId) -> bool {
        self@ == other@
    }
}

impl Eq for ExtensionId {

}

/// The names that a list of identifiers spells.
pub open spec fn names(ids: Seq<ExtensionId>) -> Seq<Seq<char>> {
    ids.map_values(|id: ExtensionId| id@)
}

/// A finite set of extensions.
#[derive(Debug)]
pub struct ExtensionSet {
    ids: Vec<ExtensionId>,
}

impl View for ExtensionSet {
    type V = Exts;

    closed spec fn view(&self) -> Exts {
        names(self.ids@).to_set()
    }
}

impl ExtensionSet {
    /// No extension is listed twice.
    #[verifier::type_invariant]
    closed spec fn listed_once(self) -> bool {
        names(self.ids@).no_duplicates()
    }

    /// The set without members.
    pub fn new() -> (set: ExtensionSet)
        ensures
            set@ == Set::<Seq<char>>::empty(),
    {
        let set = ExtensionSet { ids: Vec::new() };
        assert(set@ =~= Set::<Seq<char>>::empty());
        set
    }

    /// The set whose only member is `id`.
    pub fn singleton(id: &ExtensionId) -> (set: ExtensionSet)
        ensures
            set@ == set![id@],
    {
        let mut set = ExtensionSet::new();
        set.insert(id);
        assert(set@ =~= set![id@]);
        set
    }

    /// The set of all identifiers in a list, which may repeat some.
    pub fn from_ids(ids: &[ExtensionId]) -> (set: ExtensionSet)
        ensures
            set@ == names(ids@).to_set(),
            forall|name: Seq<char>| #[trigger]
                set@.contains(name) <==> exists|i: int|
                    0 <= i < ids@.len() && (#[trigger] ids@[i])@ == name,
    {
        let mut set = ExtensionSet::new();
        let mut i: usize = 0;
        assert(names(ids@.take(0)).to_set() =~= Set::<Seq<char>>::empty());
        while i < ids.len()
            invariant
                0 <= i <= ids.len(),
                set@ == names(ids@.take(i as int)).to_set(),
            decreases ids.len() - i,
        {
            set.insert(&ids[i]);
            proof {
                lemma_names_push(ids@.take(i as int), ids@[i as int]);
                assert(ids@.take(i as int).push(ids@[i as int]) =~= ids@.take(i + 1));
            }
            i += 1;
        }
        proof {
            assert(ids@.take(ids@.len() as int) =~= ids@);
            assert forall|name: Seq<char>| #[trigger]
                set@.contains(name) <==> exists|i: int|
                    0 <= i < ids@.len() && (#[trigger] ids@[i])@ == name by {
                let all = names(ids@);
                if set@.contains(name) {
                    let k = choose|k: int| 0 <= k < all.len() && all[k] == name;
                    assert(ids@[k]@ == name);
                }
                if exists|k: int| 0 <= k < ids@.len() && (#[trigger] ids@[k])@ == name {
                    let k = choose|k: int| 0 <= k < ids@.len() && (#[trigger] ids@[k])@ == name;
                    assert(all[k] == name);
                }
            }
        }
        set
    }

    /// The members in the order in which the set lists them.
    pub closed spec fn order(self) -> Seq<Seq<char>> {
        names(self.ids@)
    }

    /// The members, each listed once.
    pub fn ids(&self) -> (ids: &Vec<ExtensionId>)
        ensures
            names(ids@) == self.order(),
            names(ids@).no_duplicates(),
            names(ids@).to_set() == self@,
            ids@.len() == self@.len(),
            self@.finite(),
    {
        proof {
            use_type_invariant(self);
            names(self.ids@).unique_seq_to_set();
            vstd::seq_lib::seq_to_set_is_finite(names(self.ids@));
        }
        &self.ids
    }

    /// Whether `id` is a member.
    pub fn contains(&self, id: &ExtensionId) -> (found: bool)
        ensures
            found == self@.contains(id@),
    {
        let mut i: usize = 0;
        while i < self.ids.len()
            invariant
                0 <= i <= self.ids@.len(),
                forall|j: int| 0 <= j < i ==> (#[trigger] self.ids@[j])@ != id@,
            decreases self.ids@.len() - i,
        {
            if self.ids[i] == *id {
                assert(names(self.ids@)[i as int] == id@);
                return true;
            }
            i += 1;
        }
        proof {
            if self@.contains(id@) {
                let j = choose|j: int| 0 <= j < names(self.ids@).len() && names(self.ids@)[j] == id@;
                assert(self.ids@[j]@ == id@);
            }
        }
        false
    }

    /// Makes `id` a member.
    pub fn insert(&mut self, id: &ExtensionId)
        ensures
            final(self)@ == old(self)@.insert(id@),
    {
        if self.contains(id) {
            assert(self@ =~= self@.insert(id@));
            return;
        }
        proof {
            use_type_invariant(&*self);
        }
        let mut ids: Vec<ExtensionId> = Vec::new();
        assert(names(ids@).no_duplicates());
        std::mem::swap(&mut ids, &mut self.ids);
        let ghost before = ids@;
        ids.push(id.clone());
        proof {
            lemma_names_push(before, ids@.last());
            assert(ids@ =~= before.push(ids@.last()));
            assert(!names(before).contains(id@)) by {
                if names(before).contains(id@) {
                    assert(names(before).to_set().contains(id@));
                }
            }
            assert(names(ids@) =~= names(before).push(id@));
        }
        self.ids = ids;
    }

    /// The members of this set and of `other`.
    pub fn union(&self, other: &ExtensionSet) -> (set: ExtensionSet)
        ensures
            set@ == self@.union(other@),
    {
        let mut set = self.clone();
        let mut i: usize = 0;
        assert(set@ =~= self@.union(names(other.ids@.take(0)).to_set()));
        while i < other.ids.len()
            invariant
                0 <= i <= other.ids@.len(),
                set@ == self@.union(names(other.ids@.take(i as int)).to_set()),
            decreases other.ids@.len() - i,
        {
            set.insert(&other.ids[i]);
            proof {
                lemma_names_push(other.ids@.take(i as int), other.ids@[i as int]);
                assert(other.ids@.take(i as int).push(other.ids@[i as int]) =~= other.ids@.take(
                    i + 1,
                ));
                assert(set@ =~= self@.union(names(other.ids@.take(i + 1)).to_set()));
            }
            i += 1;
        }
        assert(other.ids@.take(other.ids@.len() as int) =~= other.ids@);
        set
    }

    /// The members of `other` that are not members of this set.
    pub fn missing_from(&self, other: &ExtensionSet) -> (set: ExtensionSet)
        ensures
            set@ == other@.difference(self@),
    {
        let mut set = ExtensionSet::new();
        let mut i: usize = 0;
        assert(set@ =~= names(other.ids@.take(0)).to_set().difference(self@));
        while i < other.ids.len()
            invariant
                0 <= i <= other.ids@.len(),
                set@ == names(other.ids@.take(i as int)).to_set().difference(self@),
            decreases other.ids@.len() - i,
        {
            if !self.contains(&other.ids[i]) {
                set.insert(&other.ids[i]);
            }
            proof {
                lemma_names_push(other.ids@.take(i as int), other.ids@[i as int]);
                assert(other.ids@.take(i as int).push(other.ids@[i as int]) =~= other.ids@.take(
                    i + 1,
                ));
                assert(set@ =~= names(other.ids@.take(i + 1)).to_set().difference(self@));
            }
            i += 1;
        }
        assert(other.ids@.take(other.ids@.len() as int) =~= other.ids@);
        set
    }

    /// Whether every member is a member of `other`.
    pub fn is_subset(&self, other: &ExtensionSet) -> (subset: bool)
        ensures
            subset == self@.subset_of(other@),
    {
        let mut i: usize = 0;
        while i < self.ids.len()
            invariant
                0 <= i <= self.ids@.len(),
                forall|j: int| 0 <= j < i ==> other@.contains((#[trigger] self.ids@[j])@),
            decreases self.ids@.len() - i,
        {
            if !other.contains(&self.ids[i]) {
                assert(names(self.ids@)[i as int] == self.ids@[i as int]@);
                assert(self@.contains(self.ids@[i as int]@));
                return false;
            }
            i += 1;
        }
        proof {
            assert forall|name: Seq<char>| self@.contains(name) implies other@.contains(name) by {
                let j = choose|j: int| 0 <= j < names(self.ids@).len() && names(self.ids@)[j] == name;
                assert(self.ids@[j]@ == name);
            }
        }
        true
    }
}

impl Clone for ExtensionSet {
    fn clone(&self) -> (set: ExtensionSet)
        ensures
            set@ == self@,
    {
        let mut ids: Vec<ExtensionId> = Vec::new();
        let mut i: usize = 0;
        while i < self.ids.len()
            invariant
                0 <= i <= self.ids@.len(),
                names(ids@) == names(self.ids@).take(i as int),
            decreases self.ids@.len() - i,
        {
            let ghost before = ids@;
            ids.push(self.ids[i].clone());
            proof {
                lemma_names_push(before, ids@.last());
                assert(ids@ =~= before.push(ids@.last()));
                assert(names(ids@) =~= names(self.ids@).take(i + 1));
            }
            i += 1;
        }
        proof {
            use_type_invariant(self);
            assert(names(self.ids@).take(self.ids@.len() as int) =~= names(self.ids@));
        }
        ExtensionSet { ids }
    }
}

impl PartialEq for ExtensionSet {
    fn eq(&self, other: &ExtensionSet) -> (same: bool) {
        let same = self.is_subset(other) && other.is_subset(self);
        proof {
            if same {
                assert(self@ =~= other@);
            }
        }
        same
    }
}

impl vstd::std_specs::cmp::PartialEqSpecImpl for ExtensionSet {
    open spec fn obeys_eq_spec() -> bool {
        true
    }

    open spec fn eq_spec(&self, other: &ExtensionSet) -> bool {
        self@ == other@
    }
}

impl Eq for ExtensionSet {

}

/// One identifier more adds its name at the end and to the set of names.
proof fn lemma_names_push(ids: Seq<ExtensionId>, id: ExtensionId)
    ensures
        names(ids.push(id)) == names(ids).push(id@),
        names(ids.push(id)).to_set() == names(ids).to_set().insert(id@),
{
    assert(names(ids.push(id)) =~= names(ids).push(id@));
    let after = names(ids).push(id@);
    assert forall|name: Seq<char>| after.to_set().contains(name) <==> names(ids).to_set().insert(
        id@,
    ).contains(name) by {
        if names(ids).contains(name) {
            let j = choose|j: int| 0 <= j < names(ids).len() && names(ids)[j] == name;
            assert(after[j] == name);
        }
        assert(after[names(ids).len() as int] == id@);
    }
    assert(after.to_set() =~= names(ids).to_set().insert(id@));
}

} // verus!
