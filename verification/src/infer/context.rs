//! The state of a unification.

use std::collections::{HashMap, HashSet};

use vstd::prelude::*;

use crate::extension_set::{ExtensionId, ExtensionSet};
use crate::hugr::{Direction, Loc, Node};
use crate::infer::eq_graph::{EqGraph, Meta, grouped, linked};
use crate::infer::error::{InferExtensionError, mismatch_error};
use crate::infer::model::{Con, Ctx, shunts_forward};
use crate::infer::steps::{lemma_constraint_wf, lemma_eq_in_range, pluses};
use crate::locations::LocMap;

verus! {

broadcast use vstd::std_specs::hash::group_hash_axioms;

/// Things we know about metavariables
#[derive(Debug)]
pub enum Constraint {
    /// A variable has the same value as another variable
    Equal(Meta),
    /// Variable extends the value of another by one extension
    Plus(ExtensionId, Meta),
}

impl View for Constraint {
    type V = Con;

    open spec fn view(&self) -> Con {
        match self {
            Constraint::Equal(m) => Con::Equal(m.0),
            Constraint::Plus(id, m) => Con::Plus(id@, m.0),
        }
    }
}

impl Clone for Constraint {
    fn clone(&self) -> (c: Constraint)
        ensures
            c@ == self@,
    {
        match self {
            Constraint::Equal(m) => Constraint::Equal(*m),
            Constraint::Plus(id, m) => Constraint::Plus(id.clone(), *m),
        }
    }
}

impl Constraint {
    /// Whether two constraints say the same.
    pub fn same(&self, other: &Constraint) -> (same: bool)
        ensures
            same == (self@ == other@),
    {
        match (self, other) {
            (Constraint::Equal(m), Constraint::Equal(n)) => m.0 == n.0,
            (Constraint::Plus(a, m), Constraint::Plus(b, n)) => *a == *b && m.0 == n.0,
            _ => false,
        }
    }
}

/// The constraints of a list.
pub open spec fn con_set(list: Seq<Constraint>) -> Set<Con> {
    Set::new(|c: Con| exists|i: int| 0 <= i < list.len() && (#[trigger] list[i])@ == c)
}

/// One constraint more in the list is one more in the set.
proof fn lemma_con_set_push(list: Seq<Constraint>, c: Constraint)
    ensures
        con_set(list.push(c)) == con_set(list).insert(c@),
{
    let after = list.push(c);
    assert forall|d: Con| con_set(after).contains(d) <==> con_set(list).insert(c@).contains(d) by {
        if con_set(list).contains(d) {
            let i = choose|i: int| 0 <= i < list.len() && (#[trigger] list[i])@ == d;
            assert(after[i]@ == d);
        }
        assert(after[list.len() as int]@ == c@);
    }
    assert(con_set(after) =~= con_set(list).insert(c@));
}

/// A copy of a list of constraints.
pub(crate) fn clone_list(list: &Vec<Constraint>) -> (copy: Vec<Constraint>)
    ensures
        copy@.len() == list@.len(),
        forall|i: int| 0 <= i < copy@.len() ==> (#[trigger] copy@[i])@ == list@[i]@,
        con_set(copy@) == con_set(list@),
{
    let mut copy: Vec<Constraint> = Vec::new();
    let mut i: usize = 0;
    while i < list.len()
        invariant
            i <= list@.len(),
            copy@.len() == i,
            forall|j: int| 0 <= j < i ==> (#[trigger] copy@[j])@ == list@[j]@,
        decreases list@.len() - i,
    {
        copy.push(list[i].clone());
        i += 1;
    }
    proof {
        assert forall|c: Con| con_set(copy@).contains(c) <==> con_set(list@).contains(c) by {
            if con_set(list@).contains(c) {
                let j = choose|j: int| 0 <= j < list@.len() && (#[trigger] list@[j])@ == c;
                assert(copy@[j]@ == c);
            }
            if con_set(copy@).contains(c) {
                let j = choose|j: int| 0 <= j < copy@.len() && (#[trigger] copy@[j])@ == c;
                assert(list@[j]@ == c);
            }
        }
        assert(con_set(copy@) =~= con_set(list@));
    }
    copy
}

/// Our current knowledge about the extensions of the graph
pub struct UnificationContext {
    /// A list of constraints for each metavariable
    constraints: HashMap<u32, Vec<Constraint>>,
    /// A map which says which nodes correspond to which metavariables
    extensions: LocMap<Meta>,
    /// Solutions to metavariables
    solved: HashMap<u32, ExtensionSet>,
    /// A graph which says which metavariables should be equal
    eq_graph: EqGraph,
    /// A mapping from metavariables which have been merged, to the meta they've
    /// been merged to
    shunted: HashMap<u32, u32>,
    /// Variables we're allowed to include in solutions
    variables: HashSet<u32>,
    /// A name for the next metavariable we create
    fresh_name: u32,
}

impl View for UnificationContext {
    type V = Ctx;

    closed spec fn view(&self) -> Ctx {
        Ctx {
            cons: self.constraints@.map_values(|list: Vec<Constraint>| con_set(list@)),
            locs: self.extensions@.map_values(|m: Meta| m.0),
            solved: self.solved@.map_values(|set: ExtensionSet| set@),
            shunted: self.shunted@,
            vars: self.variables@,
            fresh: self.fresh_name as nat,
            eqs: self.eq_graph@,
            eq_nodes: self.eq_graph.members(),
        }
    }
}

impl UnificationContext {
    /// The parts of the state are well-formed.
    pub closed spec fn ok(self) -> bool {
        self.extensions.wf() && self.eq_graph.wf()
    }

    /// The constraint on `m` that comes first in its list, if there is any.
    pub closed spec fn first(self, m: u32) -> Option<Con> {
        let n = self@.root(m);
        if self.constraints@.contains_key(n) && self.constraints@[n]@.len() > 0 {
            Some(self.constraints@[n]@[0]@)
        } else {
            None
        }
    }

    /// Whether each metavariable has the same first constraint in `later`.
    pub open spec fn keeps_firsts(self, later: Self) -> bool {
        forall|m: u32| #[trigger] later.first(m) == self.first(m)
    }

    /// The first constraint on a metavariable is one on it, and there is one if
    /// there are any.
    pub proof fn law_first_constraint(&self, m: u32)
        ensures
            match self.first(m) {
                Some(c) => self@.has(self@.root(m), c),
                None => forall|c: Con| !#[trigger] self@.has(self@.root(m), c),
            },
    {
        let n = self@.root(m);
        if self.constraints@.contains_key(n) {
            let list = self.constraints@[n]@;
            if list.len() > 0 {
                assert(con_set(list).contains(list[0]@));
            }
        }
    }

    /// The state that knows nothing.
    pub fn empty() -> (ctx: UnificationContext)
        ensures
            ctx.ok(),
            ctx@.wf(),
            ctx@.at_rest(),
            ctx@ == Ctx::empty(),
    {
        let ctx = UnificationContext {
            constraints: HashMap::new(),
            extensions: LocMap::new(),
            solved: HashMap::new(),
            eq_graph: EqGraph::new(),
            shunted: HashMap::new(),
            variables: HashSet::new(),
            fresh_name: 0,
        };
        assert(ctx@ =~= Ctx::empty());
        ctx
    }

    /// Create a fresh metavariable, and increment `fresh_name` for next time
    pub fn fresh_meta(&mut self) -> (m: Meta)
        requires
            old(self).ok(),
            old(self)@.fresh < u32::MAX,
        ensures
            final(self).ok(),
            m.0 == old(self)@.fresh,
            final(self)@ == old(self)@.with_fresh(),
    {
        let fresh = Meta::new(self.fresh_name);
        self.fresh_name += 1;
        self.constraints.insert(fresh.0, Vec::new());
        proof {
            assert(con_set(Seq::<Constraint>::empty()) =~= Set::<Con>::empty());
            assert(self@.cons =~= old(self)@.with_fresh().cons);
        }
        fresh
    }

    /// Declare a constraint on the metavariable
    pub fn add_constraint(&mut self, m: Meta, c: Constraint)
        requires
            old(self).ok(),
        ensures
            final(self).ok(),
            final(self)@ == old(self)@.with_constraint(m.0, c@),
            old(self)@.may_carry(m.0, c@) ==> final(self)@.wf(),
    {
        let mut list = match self.constraints.remove(&m.0) {
            Some(list) => list,
            None => Vec::new(),
        };
        proof {
            assert(con_set(Seq::<Constraint>::empty()) =~= Set::<Con>::empty());
            assert(con_set(list@) == old(self)@.cons_of(m.0));
        }
        let mut i: usize = 0;
        let mut known = false;
        while i < list.len()
            invariant
                i <= list@.len(),
                known ==> con_set(list@).contains(c@),
            decreases list@.len() - i,
        {
            if list[i].same(&c) {
                known = true;
            }
            i += 1;
        }
        proof {
            lemma_con_set_push(list@, c);
            if known {
                assert(con_set(list@) =~= con_set(list@).insert(c@));
            }
        }
        if !known {
            list.push(c);
        }
        self.constraints.insert(m.0, list);
        proof {
            assert(self@.cons =~= old(self)@.with_constraint(m.0, c@).cons);
            if old(self)@.may_carry(m.0, c@) {
                lemma_constraint_wf(old(self)@, m.0, c@);
            }
        }
    }

    /// Declare that a meta has been solved
    pub fn add_solution(&mut self, m: Meta, rs: ExtensionSet)
        requires
            old(self).ok(),
            !old(self)@.solved.contains_key(m.0),
        ensures
            final(self).ok(),
            final(self)@ == old(self)@.with_solution(m.0, rs@),
            old(self).keeps_firsts(*final(self)),
    {
        self.solved.insert(m.0, rs);
        assert(self@.solved =~= old(self)@.with_solution(m.0, rs@).solved);
    }

    /// Allow the metavariable to stay without a solution
    pub fn add_variable(&mut self, m: Meta)
        requires
            old(self).ok(),
        ensures
            final(self).ok(),
            final(self)@ == old(self)@.with_variable(m.0),
    {
        self.variables.insert(m.0);
    }

    /// Leave no metavariable without a solution.
    pub(crate) fn clear_variables(&mut self)
        requires
            old(self).ok(),
        ensures
            final(self).ok(),
            final(self)@ == (Ctx { vars: Set::empty(), ..old(self)@ }),
    {
        self.variables = HashSet::new();
    }

    /// If a metavariable has been merged, return the new meta, otherwise return
    /// the same meta.
    pub fn resolve(&self, m: Meta) -> (r: Meta)
        requires
            shunts_forward(self@.shunted),
        ensures
            r.0 == self@.root(m.0),
    {
        let mut r: u32 = m.0;
        loop
            invariant_except_break
                shunts_forward(self@.shunted),
                self@.root(r) == self@.root(m.0),
            ensures
                r == self@.root(m.0),
            decreases u32::MAX - r,
        {
            match self.shunted.get(&r) {
                Some(next) => {
                    assert(self@.shunted.contains_key(r));
                    r = *next;
                },
                None => {
                    break;
                },
            }
        }
        Meta(r)
    }

    /// Get the relevant constraints for a metavariable. If it's been merged,
    /// get the constraints for the merged metavariable
    pub fn get_constraints(&self, m: &Meta) -> (list: Option<&Vec<Constraint>>)
        requires
            shunts_forward(self@.shunted),
        ensures
            match list {
                Some(l) => {
                    &&& self@.cons.contains_key(self@.root(m.0))
                    &&& con_set(l@) == self@.cons[self@.root(m.0)]
                    &&& self.first(m.0) == if l@.len() > 0 {
                        Some(l@[0]@)
                    } else {
                        None
                    }
                },
                None => !self@.cons.contains_key(self@.root(m.0)) && self.first(m.0) is None,
            },
    {
        self.constraints.get(&self.resolve(*m).0)
    }

    /// Get the relevant solution for a metavariable. If it's been merged, get
    /// the solution for the merged metavariable
    pub fn get_solution(&self, m: &Meta) -> (set: Option<&ExtensionSet>)
        requires
            shunts_forward(self@.shunted),
        ensures
            match set {
                Some(s) => self@.look(m.0) == Some(s@),
                None => self@.look(m.0) is None,
            },
    {
        self.solved.get(&self.resolve(*m).0)
    }

    /// Return the metavariable corresponding to the given location on the
    /// graph, either by making a new meta, or looking it up
    pub fn make_or_get_meta(&mut self, node: Node, dir: Direction) -> (m: Meta)
        requires
            old(self).ok(),
            old(self)@.locs.contains_key((node, dir)) || old(self)@.fresh < u32::MAX,
        ensures
            final(self).ok(),
            old(self)@.locs.contains_key((node, dir)) ==> *final(self) == *old(self) && m.0
                == old(self)@.locs[(node, dir)],
            !old(self)@.locs.contains_key((node, dir)) ==> m.0 == old(self)@.fresh && final(self)@
                == old(self)@.with_fresh().with_location((node, dir), m.0),
    {
        if let Some(m) = self.extensions.get(&(node, dir)) {
            return *m;
        }
        let m = self.fresh_meta();
        let ghost mid = self@;
        self.extensions.insert((node, dir), m);
        assert(self@.locs =~= mid.with_location((node, dir), m.0).locs);
        m
    }

    /// Register that two metavariables should be equal, to be merged later.
    /// Where some of them have been merged already, that is what they have
    /// become.
    pub fn register_eq(&mut self, src: Meta, tgt: Meta)
        requires
            old(self).ok(),
            shunts_forward(old(self)@.shunted),
        ensures
            final(self).ok(),
            final(self)@ == old(self)@.with_eq(src.0, tgt.0),
            old(self).keeps_firsts(*final(self)),
            old(self)@.wf() && src.0 < old(self)@.fresh && tgt.0 < old(self)@.fresh
                ==> final(self)@.wf(),
    {
        let src_root = self.resolve(src);
        let tgt_root = self.resolve(tgt);
        self.eq_graph.register_eq(src, tgt);
        if src_root != src || tgt_root != tgt {
            self.eq_graph.register_eq(src_root, tgt_root);
        }
        proof {
            let expected = old(self)@.with_eq(src.0, tgt.0);
            assert(self@.eqs =~= expected.eqs);
            assert(self@.eq_nodes =~= expected.eq_nodes);
            assert(self@ =~= expected);
            if old(self)@.wf() && src.0 < old(self)@.fresh && tgt.0 < old(self)@.fresh {
                lemma_eq_in_range(old(self)@, src.0, tgt.0);
            }
        }
    }

    /// The groups of metavariables that should be equal.
    pub(crate) fn equal_groups(&self) -> (groups: Vec<Vec<Meta>>)
        requires
            self.ok(),
        ensures
            forall|i: int|
                0 <= i < groups@.len() ==> (#[trigger] groups@[i])@.len() > 0
                    && groups@[i]@.no_duplicates(),
            forall|m: u32|
                #![trigger self@.eq_nodes.contains(m)]
                self@.eq_nodes.contains(m) <==> exists|i: int| grouped(groups@, i, m),
            forall|i: int, j: int, a: u32, b: u32| #[trigger]
                grouped(groups@, i, a) && #[trigger] grouped(groups@, j, b) ==> (i == j <==> linked(
                    self@.eqs,
                    a,
                    b,
                )),
    {
        self.eq_graph.ccs()
    }

    /// Forget the constraints on a metavariable.
    pub(crate) fn remove_constraints(&mut self, m: Meta)
        requires
            old(self).ok(),
        ensures
            final(self).ok(),
            final(self)@ == old(self)@.without_constraints(m.0),
    {
        self.constraints.remove(&m.0);
        assert(self@.cons =~= old(self)@.without_constraints(m.0).cons);
    }

    /// Merge `m` into `combined`: its constraints other than equalities, its
    /// solution and its being a variable pass over. The result tells whether
    /// `m` had constraints recorded.
    pub(crate) fn absorb(&mut self, m: Meta, combined: Meta) -> (constrained: bool)
        requires
            old(self).ok(),
            m.0 != combined.0,
        ensures
            final(self).ok(),
            constrained == old(self)@.cons.contains_key(m.0),
            final(self)@ == old(self)@.absorbed(m.0, combined.0),
    {
        let constrained = match self.constraints.remove(&m.0) {
            Some(list) => {
                let mut joined = match self.constraints.remove(&combined.0) {
                    Some(joined) => joined,
                    None => Vec::new(),
                };
                let ghost base = old(self)@.cons_of(combined.0);
                proof {
                    assert(con_set(Seq::<Constraint>::empty()) =~= Set::<Con>::empty());
                    assert(con_set(joined@) =~= base);
                    assert(con_set(list@.take(0)) =~= Set::<Con>::empty());
                    assert(con_set(joined@) =~= base.union(pluses(con_set(list@.take(0)))));
                }
                let mut i: usize = 0;
                while i < list.len()
                    invariant
                        i <= list@.len(),
                        con_set(joined@) == base.union(pluses(con_set(list@.take(i as int)))),
                    decreases list@.len() - i,
                {
                    proof {
                        lemma_con_set_push(list@.take(i as int), list@[i as int]);
                        assert(list@.take(i as int).push(list@[i as int]) =~= list@.take(i + 1));
                    }
                    let ghost before = joined@;
                    match &list[i] {
                        Constraint::Equal(_) => {},
                        Constraint::Plus(id, other) => {
                            joined.push(Constraint::Plus(id.clone(), *other));
                            proof {
                                lemma_con_set_push(before, joined@.last());
                                assert(joined@ =~= before.push(joined@.last()));
                            }
                        },
                    }
                    assert(con_set(joined@) =~= base.union(
                        pluses(con_set(list@.take(i + 1))),
                    ));
                    i += 1;
                }
                assert(list@.take(list@.len() as int) =~= list@);
                self.constraints.insert(combined.0, joined);
                true
            },
            None => false,
        };
        assert(self@.cons =~= old(self)@.absorbed(m.0, combined.0).cons);
        if !self.solved.contains_key(&combined.0) {
            let solution = match self.solved.get(&m.0) {
                Some(set) => Some(set.clone()),
                None => None,
            };
            match solution {
                Some(set) => {
                    self.solved.insert(combined.0, set);
                },
                None => {},
            }
        }
        assert(self@.solved =~= old(self)@.absorbed(m.0, combined.0).solved);
        if self.variables.contains(&m.0) {
            self.variables.insert(combined.0);
            self.variables.remove(&m.0);
        }
        assert(self@.vars =~= old(self)@.absorbed(m.0, combined.0).vars);
        self.shunted.insert(m.0, combined.0);
        constrained
    }

    /// The number of metavariables made so far.
    pub(crate) fn meta_count(&self) -> (n: u32)
        ensures
            n == self@.fresh,
    {
        self.fresh_name
    }

    /// Whether a metavariable has been merged into another.
    pub fn is_merged(&self, m: Meta) -> (merged: bool)
        ensures
            merged == self@.shunted.contains_key(m.0),
    {
        self.shunted.contains_key(&m.0)
    }

    /// Whether constraints are recorded for a metavariable.
    pub(crate) fn is_constrained(&self, m: Meta) -> (constrained: bool)
        ensures
            constrained == self@.cons.contains_key(m.0),
    {
        self.constraints.contains_key(&m.0)
    }

    /// Whether a metavariable may stay without a solution.
    pub fn is_variable(&self, m: Meta) -> (variable: bool)
        ensures
            variable == self@.vars.contains(m.0),
    {
        self.variables.contains(&m.0)
    }

    /// The solution recorded for a metavariable itself.
    pub(crate) fn own_solution(&self, m: Meta) -> (set: Option<&ExtensionSet>)
        ensures
            match set {
                Some(s) => self@.solved.contains_key(m.0) && self@.solved[m.0] == s@,
                None => !self@.solved.contains_key(m.0),
            },
    {
        self.solved.get(&m.0)
    }

    /// The locations in the order in which they were added.
    pub closed spec fn loc_order(self) -> Seq<Loc> {
        self.extensions.order()
    }

    /// The order lists each location once.
    pub proof fn lemma_loc_order(&self)
        requires
            self.ok(),
        ensures
            self.loc_order().no_duplicates(),
            forall|loc: Loc| #[trigger]
                self@.locs.contains_key(loc) <==> self.loc_order().contains(loc),
    {
        self.extensions.lemma_order();
        assert forall|loc: Loc| #[trigger]
            self@.locs.contains_key(loc) <==> self.loc_order().contains(loc) by {
            assert(self.extensions@.dom().contains(loc) <==> self.loc_order().to_set().contains(
                loc,
            ));
        }
    }

    /// The number of locations.
    pub(crate) fn loc_count(&self) -> (n: usize)
        requires
            self.ok(),
        ensures
            n == self.loc_order().len(),
    {
        self.extensions.len()
    }

    /// The location at position `i`, with its metavariable.
    pub(crate) fn loc_at(&self, i: usize) -> (entry: (Loc, Meta))
        requires
            self.ok(),
            i < self.loc_order().len(),
        ensures
            entry.0 == self.loc_order()[i as int],
            self@.locs.contains_key(entry.0),
            entry.1.0 == self@.locs[entry.0],
    {
        let loc = self.extensions.location(i);
        match self.extensions.get(&loc) {
            Some(m) => (loc, *m),
            None => {
                assert(false);
                (loc, Meta(0))
            },
        }
    }

    /// When trying to unify two metas, check if they both correspond to
    /// different ends of the same wire. If so, return an `ExtensionError`.
    /// Otherwise check whether they both correspond to *some* location on the
    /// graph and include that info the otherwise generic `MismatchedConcrete`.
    pub fn report_mismatch(
        &self,
        m1: Meta,
        m2: Meta,
        rs1: ExtensionSet,
        rs2: ExtensionSet,
    ) -> (err: InferExtensionError)
        requires
            self.ok(),
            shunts_forward(self@.shunted),
        ensures
            self@.reports(err, m1.0, m2.0, rs1@, rs2@),
    {
        let loc1 = self.find_location(m1);
        let loc2 = self.find_location(m2);
        let wired = match (loc1, loc2) {
            (Some(l1), Some(l2)) => self.check_ends(l1, l2),
            _ => false,
        };
        mismatch_error(loc1, loc2, wired, rs1, rs2)
    }

    /// Whether two locations are the two ends of one wire.
    fn check_ends(&self, loc1: Loc, loc2: Loc) -> (wired: bool)
        requires
            self.ok(),
        ensures
            wired == self@.are_ends(loc1, loc2),
    {
        if loc1.1 == loc2.1 || loc1.0 == loc2.0 {
            return false;
        }
        let (src, tgt) = if loc2.1 == Direction::Incoming {
            (loc1, loc2)
        } else {
            (loc2, loc1)
        };
        self.is_recorded_at(src, tgt) && !self.is_recorded_at((src.0, Direction::Incoming), tgt)
    }

    /// Whether an equality of one location with another is recorded.
    fn is_recorded_at(&self, src: Loc, tgt: Loc) -> (found: bool)
        requires
            self.ok(),
        ensures
            found == self@.recorded_at(src, tgt),
    {
        match (self.extensions.get(&src), self.extensions.get(&tgt)) {
            (Some(m), Some(o)) => self.is_recorded(*m, *o),
            _ => false,
        }
    }

    /// Whether an equality of `m` with `o` is recorded.
    fn is_recorded(&self, m: Meta, o: Meta) -> (found: bool)
        requires
            self.ok(),
        ensures
            found == self@.recorded(m.0, o.0),
    {
        if self.eq_graph.is_registered(m, o) {
            return true;
        }
        match self.constraints.get(&m.0) {
            Some(list) => {
                let mut i: usize = 0;
                while i < list.len()
                    invariant
                        i <= list@.len(),
                        self.constraints@.contains_key(m.0),
                        list == self.constraints@[m.0],
                        forall|k: int| 0 <= k < i ==> (#[trigger] list@[k])@ != Con::Equal(o.0),
                    decreases list@.len() - i,
                {
                    if let Constraint::Equal(other) = &list[i] {
                        if other.0 == o.0 {
                            assert(list@[i as int]@ == Con::Equal(o.0));
                            assert(con_set(list@).contains(Con::Equal(o.0)));
                            return true;
                        }
                    }
                    i += 1;
                }
                assert(!con_set(list@).contains(Con::Equal(o.0)));
                false
            },
            None => false,
        }
    }

    /// Some location of a metavariable or of what was merged into it.
    fn find_location(&self, m: Meta) -> (loc: Option<Loc>)
        requires
            self.ok(),
            shunts_forward(self@.shunted),
        ensures
            self@.located(m.0, loc),
    {
        let n = self.loc_count();
        let mut i: usize = 0;
        while i < n
            invariant
                self.ok(),
                shunts_forward(self@.shunted),
                n == self.loc_order().len(),
                i <= n,
                forall|j: int| 0 <= j < i ==> !self@.stands_at(m.0, #[trigger] self.loc_order()[j]),
            decreases n - i,
        {
            let (loc, meta) = self.loc_at(i);
            if meta.0 == m.0 || self.resolve(meta).0 == m.0 {
                return Some(loc);
            }
            i += 1;
        }
        proof {
            self.lemma_loc_order();
            assert forall|l: Loc| !#[trigger] self@.stands_at(m.0, l) by {
                if self@.locs.contains_key(l) {
                    let j = choose|j: int| 0 <= j < n && self.loc_order()[j] == l;
                    assert(!self@.stands_at(m.0, self.loc_order()[j]));
                }
            }
        }
        None
    }
}

} // verus!
