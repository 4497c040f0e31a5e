//! Solving metavariables from their constraints.

use std::collections::HashSet;

use vstd::prelude::*;

use crate::extension_set::{ExtensionSet, Exts};
use crate::infer::context::{Constraint, UnificationContext, clone_list, con_set};
use crate::infer::eq_graph::Meta;
use crate::infer::error::InferExtensionError;
use crate::infer::model::{Con, Ctx, lemma_root, lemma_root_bound};
use crate::infer::run::{Step, lemma_reaches_self, lemma_reaches_step, lemma_reaches_transitive};
use crate::infer::steps::lemma_eq_step;

verus! {

broadcast use vstd::std_specs::hash::group_hash_axioms;

impl Ctx {
    /// Nothing but solutions and registered equalities has been added.
    pub open spec fn grows_to(self, later: Ctx) -> bool {
        &&& later.cons == self.cons
        &&& later.locs == self.locs
        &&& later.shunted == self.shunted
        &&& later.vars == self.vars
        &&& later.fresh == self.fresh
        &&& forall|m: u32| #[trigger]
            self.solved.contains_key(m) ==> later.solved.contains_key(m) && later.solved[m]
                == self.solved[m]
        &&& self.eqs.subset_of(later.eqs)
        &&& self.eq_nodes.subset_of(later.eq_nodes)
        &&& forall|n: u32| #[trigger]
            later.eq_nodes.contains(n) && !self.eq_nodes.contains(n) ==> self.asked_equal(n)
    }

    /// Whether `later` holds a solution where there was none.
    pub open spec fn finds_more(self, later: Ctx) -> bool {
        exists|m: u32| #[trigger]
            later.solved.contains_key(m) && !self.solved.contains_key(m)
    }

    /// Whether some constraint of equality speaks of `n`.
    pub open spec fn asked_equal(self, n: u32) -> bool {
        exists|m: u32, o: u32| #[trigger]
            self.has(m, Con::Equal(o)) && (n == m || n == o || n == self.root(o))
    }

    /// Whether a constraint gives a solution, if it is on a metavariable that
    /// has none.
    pub open spec fn gives(self, c: Con) -> bool {
        c is Plus && self.look(c->Plus_1) is Some
    }

    /// The problem after a constraint on `m` has been looked at: an equality is
    /// registered; of a sum, the side that has no solution is solved from the
    /// other.
    pub open spec fn applied(self, m: u32, c: Con) -> Ctx {
        match c {
            Con::Equal(o) => self.with_eq(m, o),
            Con::Plus(r, o) => match (self.look(m), self.look(o)) {
                (None, Some(lower)) => self.with_solution(m, lower.insert(r)),
                (Some(upper), None) => self.with_solution(self.root(o), upper.remove(r)),
                _ => self,
            },
        }
    }

    /// Whether a constraint on `m` contradicts what is known.
    pub open spec fn refuses(self, m: u32, c: Con) -> bool {
        match c {
            Con::Equal(_) => false,
            Con::Plus(r, o) => match (self.look(m), self.look(o)) {
                (Some(upper), Some(lower)) => upper != lower.insert(r),
                (Some(upper), None) => !upper.contains(r),
                _ => false,
            },
        }
    }

    /// Whether the constraint that `m` is `o` with `r` gives `set` for `m`.
    pub open spec fn gives_value(self, m: u32, r: Seq<char>, o: u32, set: Exts) -> bool {
        self.has(m, Con::Plus(r, o)) && self.look(o) is Some && set == self.look(o)->0.insert(r)
    }

    /// Whether `set` is the solution for `m`, or, where it has none, one that a
    /// constraint on `m` gives.
    pub open spec fn own_value(self, m: u32, set: Exts) -> bool {
        match self.look(m) {
            Some(known) => set == known,
            None => exists|r: Seq<char>, o: u32| self.gives_value(m, r, o, set),
        }
    }

    /// Whether all sums on `m` hold, or can be made to hold, if `m` is `set`: each
    /// extension is there, solutions that are known fit, and one that is not
    /// known is not asked to lack two different extensions.
    pub open spec fn fits(self, m: u32, set: Exts) -> bool {
        &&& forall|r: Seq<char>, o: u32| #[trigger]
            self.has(m, Con::Plus(r, o)) ==> set.contains(r) && (self.look(o) is Some ==> set
                == self.look(o)->0.insert(r))
        &&& forall|r1: Seq<char>, o1: u32, r2: Seq<char>, o2: u32| #[trigger]
            self.has(m, Con::Plus(r1, o1)) && #[trigger] self.has(m, Con::Plus(r2, o2))
                && self.look(o1) is None && self.root(o1) == self.root(o2) && self.root(o1) != m
                ==> r1 == r2
    }

    /// Whether the constraints on `m` contradict each other or what is known.
    pub open spec fn conflicts(self, m: u32) -> bool {
        exists|set: Exts| #[trigger] self.own_value(m, set) && !self.fits(m, set)
    }

    /// Whether nothing has been solved but `m` and what its sums speak of.
    pub open spec fn solves_own(self, later: Ctx, m: u32) -> bool {
        forall|n: u32| #[trigger]
            later.solved.contains_key(n) && !self.solved.contains_key(n) ==> n == m
                || self.in_sum(m, n)
    }

    /// Whether each new solution is a value for `m` that its constraints give, or is
    /// such a value without an extension that a sum on `m` adds.
    pub open spec fn values_follow(self, later: Ctx, m: u32) -> bool {
        forall|n: u32| #[trigger]
            later.solved.contains_key(n) && !self.solved.contains_key(n) ==> self.value_follows(
                m,
                n,
                later.solved[n],
            )
    }

    /// Whether `value` for `n` follows from a value for `m` that its constraints
    /// give.
    pub open spec fn value_follows(self, m: u32, n: u32, value: Exts) -> bool {
        exists|set: Exts| #[trigger]
            self.own_value(m, set) && (n == m && value == set || self.is_part(m, n, set, value))
    }

    /// Whether a sum on `m` speaks of what has become `n`, and `set` for `m` gives
    /// `value` for `n`.
    pub open spec fn is_part(self, m: u32, n: u32, set: Exts, value: Exts) -> bool {
        exists|r: Seq<char>, o: u32|
            {
                &&& #[trigger] self.has(m, Con::Plus(r, o))
                &&& self.root(o) == n
                &&& set.contains(r)
                &&& value == set.remove(r)
            }
    }

    /// Whether a sum on `m` speaks of what has become `n`.
    pub open spec fn in_sum(self, m: u32, n: u32) -> bool {
        exists|r: Seq<char>, o: u32| #[trigger]
            self.has(m, Con::Plus(r, o)) && self.root(o) == n
    }

    /// Whether `set`, the value of `m`, is what all else has been solved from.
    pub open spec fn solved_from(self, later: Ctx, m: u32, set: Exts) -> bool {
        &&& later.look(m) == Some(set)
        &&& forall|r: Seq<char>, o: u32| #[trigger]
            self.has(m, Con::Plus(r, o)) ==> later.met(m, r, o) && (self.look(o) is None
                && self.root(o) != m ==> later.look(o) == Some(set.remove(r)))
    }

    /// Whether `later` is `self` with `m` solved from its own constraints, what
    /// its sums speak of solved from that, and its equalities registered.
    pub open spec fn solves(self, later: Ctx, m: u32) -> bool {
        &&& self.grows_to(later)
        &&& self.solves_own(later, m)
        &&& forall|set: Exts| #[trigger] self.own_value(m, set) ==> self.solved_from(later, m, set)
        &&& (forall|set: Exts| !#[trigger] self.own_value(m, set)) ==> later.solved == self.solved
        &&& self.registers(later, m, equals_in(self.cons_of(m)))
    }

    /// Whether `n` is `m`, or a sum on `m` speaks of it.
    pub open spec fn concerns(self, m: u32, n: u32) -> bool {
        n == m || self.in_sum(m, n)
    }

    /// Whether all sums on `m` of which a side was solved hold in `later`.
    pub open spec fn tried(self, later: Ctx, m: u32) -> bool {
        forall|r: Seq<char>, o: u32| #[trigger]
            self.has(m, Con::Plus(r, o)) && (self.look(m) is Some || self.look(o) is Some)
                ==> later.met(m, r, o)
    }

    /// Whether `later` holds a new solution for `m` or for what its sums speak of.
    pub open spec fn gains(self, later: Ctx, m: u32) -> bool {
        exists|n: u32| #[trigger]
            later.solved.contains_key(n) && !self.solved.contains_key(n) && self.concerns(m, n)
    }

    /// Whether a new solution for `n` comes from one of `solved`.
    pub open spec fn credited(self, solved: Set<u32>, n: u32) -> bool {
        exists|m: u32| #[trigger] solved.contains(m) && self.concerns(m, n)
    }

    /// Whether each new solution comes from one of `solved`.
    pub open spec fn credits(self, later: Ctx, solved: Set<u32>) -> bool {
        forall|n: u32| #[trigger]
            later.solved.contains_key(n) && !self.solved.contains_key(n) ==> self.credited(
                solved,
                n,
            )
    }

    /// Whether `later` comes of trying to solve those of `order` one after the
    /// other, where `solved` are those for which a solution was found.
    pub open spec fn tries(self, later: Ctx, order: Seq<u32>, solved: Set<u32>) -> bool
        decreases order.len(),
    {
        if order.len() == 0 {
            later == self && solved == Set::<u32>::empty()
        } else {
            exists|mid: Ctx, known: Set<u32>|
                self.tries(mid, order.drop_last(), known) && #[trigger] mid.tries_one(
                    later,
                    order.last(),
                    known,
                    solved,
                )
        }
    }

    /// Whether `later` comes of trying to solve `m`, which joins those `known` to
    /// be solved just if a solution was found.
    pub open spec fn tries_one(
        self,
        later: Ctx,
        m: u32,
        known: Set<u32>,
        solved: Set<u32>,
    ) -> bool {
        &&& !self.conflicts(m)
        &&& self.solves(later, m)
        &&& solved == if self.finds_more(later) {
            known.insert(m)
        } else {
            known
        }
    }

    /// Whether `later` comes of trying to solve each of `vars` once, in some order,
    /// where `solved` are those for which a solution was found.
    pub open spec fn tries_all(self, later: Ctx, vars: Set<u32>, solved: Set<u32>) -> bool {
        exists|order: Seq<u32>| #[trigger]
            self.tries(later, order, solved) && order.no_duplicates() && order.to_set() == vars
    }

    /// Whether the constraints on `m`, one of `vars`, conflict when some others of
    /// `vars` have been tried once each.
    pub open spec fn fails_at(self, vars: Set<u32>, m: u32) -> bool {
        exists|mid: Ctx, order: Seq<u32>, known: Set<u32>|
            {
                &&& #[trigger] self.tries(mid, order, known)
                &&& order.no_duplicates()
                &&& order.to_set().subset_of(vars)
                &&& vars.contains(m) && !order.contains(m)
                &&& mid.conflicts(m)
            }
    }

    /// Whether just the equalities of `m` with those of `others` have been
    /// registered.
    pub open spec fn registers(self, later: Ctx, m: u32, others: Set<u32>) -> bool {
        &&& forall|a: u32, b: u32| #[trigger]
            later.eqs.contains((a, b)) <==> self.eqs.contains((a, b)) || exists|o: u32| #[trigger]
                others.contains(o) && a == m && (b == o || b == self.root(o))
        &&& forall|n: u32| #[trigger]
            later.eq_nodes.contains(n) <==> self.eq_nodes.contains(n) || exists|o: u32| #[trigger]
                others.contains(o) && (n == m || n == o || n == self.root(o))
    }
}

/// What the equalities among some constraints speak of.
pub open spec fn equals_in(cons: Set<Con>) -> Set<u32> {
    Set::new(|o: u32| cons.contains(Con::Equal(o)))
}

/// Solutions that are known stay known when others are added.
pub proof fn lemma_grows_look(a: Ctx, b: Ctx, m: u32)
    requires
        a.grows_to(b),
        a.look(m) is Some,
    ensures
        b.look(m) == a.look(m),
{
    assert(a.solved.contains_key(a.root(m)));
}

/// Growth composes.
pub proof fn lemma_grows_transitive(a: Ctx, b: Ctx, c: Ctx)
    requires
        a.grows_to(b),
        b.grows_to(c),
    ensures
        a.grows_to(c),
{
    assert forall|n: u32| #[trigger]
        c.eq_nodes.contains(n) && !a.eq_nodes.contains(n) implies a.asked_equal(n) by {
        assert forall|m: u32, d: Con| #[trigger] b.has(m, d) == a.has(m, d) by {}
        if !b.eq_nodes.contains(n) {
            assert(b.asked_equal(n));
            let (m, o) = choose|m: u32, o: u32| #[trigger]
                b.has(m, Con::Equal(o)) && (n == m || n == o || n == b.root(o));
            assert(a.has(m, Con::Equal(o)));
        }
    }
}

impl UnificationContext {
    /// Look at one constraint on `meta`. Returns whether a solution was found.
    fn apply_constraint(&mut self, meta: Meta, c: &Constraint) -> (result: Result<
        bool,
        InferExtensionError,
    >)
        requires
            old(self).ok(),
            old(self)@.wf(),
            old(self)@.has(meta.0, c@),
        ensures
            final(self).ok(),
            old(self)@.reaches(final(self)@),
            old(self).keeps_firsts(*final(self)),
            match result {
                Ok(solved) => {
                    &&& final(self)@.wf()
                    &&& old(self)@.grows_to(final(self)@)
                    &&& !old(self)@.refuses(meta.0, c@)
                    &&& final(self)@ == old(self)@.applied(meta.0, c@)
                    &&& solved ==> old(self)@.finds_more(final(self)@)
                    &&& !solved ==> final(self)@.solved == old(self)@.solved
                },
                Err(err) => {
                    &&& old(self)@.refuses(meta.0, c@)
                    &&& final(self)@ == old(self)@
                    &&& final(self)@.own_clash(err, meta.0)
                },
            },
    {
        let ghost before = self@;
        proof {
            lemma_reaches_self(before);
        }
        match c {
            // Just register the equality, we'll process it later
            Constraint::Equal(other) => {
                proof {
                    lemma_eq_step(before, meta.0, other.0);
                    lemma_reaches_step(before, before, Step::Register(meta.0, other.0));
                }
                self.register_eq(meta, *other);
                proof {
                    assert forall|n: u32| #[trigger]
                        self@.eq_nodes.contains(n) && !before.eq_nodes.contains(
                            n,
                        ) implies before.asked_equal(n) by {
                        assert(before.has(meta.0, Con::Equal(other.0)));
                    }
                }
                Ok(false)
            },
            Constraint::Plus(r, other) => {
                let ghost root_o = before.root(other.0);
                proof {
                    assert(before.root(meta.0) == meta.0);
                    lemma_root(before.shunted, other.0);
                    lemma_root_bound(before, other.0);
                    assert(before.has(meta.0, Con::Plus(r@, other.0)));
                }
                let lower: Option<ExtensionSet> = match self.get_solution(other) {
                    Some(rs) => Some(rs.clone()),
                    None => None,
                };
                match lower {
                    Some(rs) => {
                        let mut rrs = rs;
                        rrs.insert(r);
                        let upper: Option<ExtensionSet> = match self.get_solution(&meta) {
                            Some(rs) => Some(rs.clone()),
                            None => None,
                        };
                        match upper {
                            // Let's check that this is right?
                            Some(rs) => {
                                if rs != rrs {
                                    let err = self.report_mismatch(meta, *other, rs, rrs);
                                    proof {
                                        assert(self@.sum_clash(err, meta.0, r@, other.0));
                                    }
                                    return Err(err);
                                }
                                Ok(false)
                            },
                            None => {
                                proof {
                                    let step = Step::Up(meta.0, r@, other.0);
                                    lemma_reaches_step(before, before, step);
                                                                    }
                                self.add_solution(meta, rrs);
                                proof {
                                    assert(self@ =~= before.after(Step::Up(meta.0, r@, other.0)));
                                    lemma_wf_solution(before, meta.0, rrs@);
                                    lemma_grows_look(before, self@, other.0);
                                    assert(self@.look(meta.0) == Some(rrs@));
                                    assert(self@.solved.contains_key(meta.0));
                                }
                                Ok(true)
                            },
                        }
                    },
                    None => {
                        let upper: Option<ExtensionSet> = match self.get_solution(&meta) {
                            Some(superset) => Some(superset.clone()),
                            None => None,
                        };
                        match upper {
                            Some(superset) => {
                                // What should have been extended by `r` has to hold it
                                if !superset.contains(r) {
                                    let mut rrs = superset.clone();
                                    rrs.insert(r);
                                    let err = self.report_mismatch(meta, *other, superset, rrs);
                                    proof {
                                        assert(self@.sum_clash(err, meta.0, r@, other.0));
                                    }
                                    return Err(err);
                                }
                                let subset = ExtensionSet::singleton(r).missing_from(&superset);
                                proof {
                                    let step = Step::Down(meta.0, r@, other.0);
                                    lemma_reaches_step(before, before, step);
                                    assert(subset@ =~= before.look(meta.0)->0.remove(r@));
                                }
                                let target = self.resolve(*other);
                                self.add_solution(target, subset);
                                proof {
                                    assert(self@ =~= before.after(Step::Down(meta.0, r@, other.0)));
                                    lemma_wf_solution(before, root_o, subset@);
                                    lemma_grows_look(before, self@, meta.0);
                                    assert(self@.look(other.0) == Some(subset@));
                                    assert(subset@.insert(r@) =~= superset@);
                                    assert(self@.solved.contains_key(root_o));
                                }
                                Ok(true)
                            },
                            None => Ok(false),
                        }
                    },
                }
            },
        }
    }

    /// Inspect the constraints of a given metavariable and try to find a
    /// solution based on those.
    /// Returns whether a solution was found
    ///
    /// Where the metavariable has no solution yet, a constraint that gives one
    /// is looked at first, so that the others are held against it.
    pub fn solve_meta(&mut self, meta: Meta) -> (result: Result<bool, InferExtensionError>)
        requires
            old(self).ok(),
            old(self)@.wf(),
            old(self)@.cons.contains_key(meta.0),
        ensures
            final(self).ok(),
            old(self)@.reaches(final(self)@),
            old(self).keeps_firsts(*final(self)),
            result is Err <==> old(self)@.conflicts(meta.0),
            old(self)@.grows_to(final(self)@),
            old(self)@.solves_own(final(self)@, meta.0),
            old(self)@.values_follow(final(self)@, meta.0),
            match result {
                Ok(solved) => {
                    &&& final(self)@.wf()
                    &&& old(self)@.solves(final(self)@, meta.0)
                    &&& solved <==> old(self)@.finds_more(final(self)@)
                    &&& !solved ==> final(self)@.solved == old(self)@.solved
                },
                Err(err) => final(self)@.own_clash(err, meta.0),
            },
    {
        let ghost before = self@;
        proof {
            lemma_reaches_self(before);
            assert(before.root(meta.0) == meta.0);
        }
        let list = match self.get_constraints(&meta) {
            Some(list) => clone_list(list),
            None => {
                assert(false);
                Vec::new()
            },
        };
        let first = self.find_giver(meta, &list);
        let mut solved = false;
        let ghost mut done = Set::<Con>::empty();
        let ghost u = if first < list@.len() {
            let c = list@[first as int]@;
            Some(before.look(c->Plus_1)->0.insert(c->Plus_0))
        } else {
            before.look(meta.0)
        };
        if first < list.len() {
            let ghost c = list@[first as int]@;
            assert(before.has(meta.0, c));
            let outcome = self.apply_constraint(meta, &list[first]);
            proof {
                done = done.insert(c);
                lemma_midway_first(before, self@, meta.0, c);
            }
            solved = outcome?;
        } else {
            proof {
                lemma_midway_start(before, meta.0);
            }
        }
        let mut i: usize = 0;
        while i < list.len()
            invariant
                i <= list@.len(),
                before == old(self)@,
                old(self).keeps_firsts(*self),
                self.ok(),
                self@.wf(),
                before.wf(),
                before.reaches(self@),
                before.cons.contains_key(meta.0),
                before.root(meta.0) == meta.0,
                con_set(list@) == before.cons[meta.0],
                midway(before, self@, meta.0, done, u),
                u is None ==> forall|j: int|
                    0 <= j < list@.len() ==> !before.gives((#[trigger] list@[j])@),
                forall|j: int| 0 <= j < i ==> done.contains((#[trigger] list@[j])@),
                forall|c: Con| #[trigger] done.contains(c) ==> before.cons[meta.0].contains(c),
                solved ==> before.finds_more(self@),
                !solved ==> self@.solved == before.solved,
            decreases list@.len() - i,
        {
            let ghost prev = self@;
            let ghost c = list@[i as int]@;
            proof {
                assert(before.has(meta.0, c));
                lemma_midway_grows(before, prev, meta.0, done, u);
                assert(prev.has(meta.0, c));
            }
            let outcome = self.apply_constraint(meta, &list[i]);
            proof {
                lemma_reaches_transitive(before, prev, self@);
                if outcome is Err {
                    lemma_midway_refused(before, prev, meta.0, done, u, c);
                } else {
                    lemma_midway_next(before, prev, meta.0, done, u, c);
                    done = done.insert(c);
                    lemma_midway_grows(before, self@, meta.0, done, u);
                }
            }
            let found = outcome?;
            proof {
                if solved {
                    lemma_finds_more(before, prev, self@);
                } else if found {
                    let n = choose|n: u32| #[trigger]
                        self@.solved.contains_key(n) && !prev.solved.contains_key(n);
                    assert(!before.solved.contains_key(n));
                }
            }
            solved = solved || found;
            i += 1;
        }
        proof {
            assert forall|c: Con| before.cons[meta.0].contains(c) implies done.contains(c) by {
                let j = choose|j: int| 0 <= j < list@.len() && (#[trigger] list@[j])@ == c;
            }
            lemma_midway_end(before, self@, meta.0, done, u);
        }
        Ok(solved)
    }

    /// The position of a constraint that gives a solution for `meta`, or the
    /// length of the list where `meta` has one or none gives one.
    fn find_giver(&self, meta: Meta, list: &Vec<Constraint>) -> (first: usize)
        requires
            self@.in_range(),
        ensures
            first <= list@.len(),
            first < list@.len() ==> self@.look(meta.0) is None && self@.gives(
                list@[first as int]@,
            ),
            first == list@.len() && self@.look(meta.0) is None ==> forall|j: int|
                0 <= j < list@.len() ==> !self@.gives((#[trigger] list@[j])@),
    {
        if self.get_solution(&meta).is_some() {
            return list.len();
        }
        let mut i: usize = 0;
        while i < list.len()
            invariant
                i <= list@.len(),
                self@.in_range(),
                self@.look(meta.0) is None,
                forall|j: int| 0 <= j < i ==> !self@.gives((#[trigger] list@[j])@),
            decreases list@.len() - i,
        {
            match &list[i] {
                Constraint::Plus(_, other) => {
                    if self.get_solution(other).is_some() {
                        return i;
                    }
                },
                Constraint::Equal(_) => {},
            }
            i += 1;
        }
        i
    }

    /// Iterates over a set of metas (the argument) and tries to solve
    /// them.
    /// Returns the metas that we solved
    pub fn solve_constraints(&mut self, vars: &HashSet<u32>) -> (result: Result<
        HashSet<u32>,
        InferExtensionError,
    >)
        requires
            old(self).ok(),
            old(self)@.wf(),
            forall|m: u32| #[trigger] vars@.contains(m) ==> old(self)@.cons.contains_key(m),
        ensures
            final(self).ok(),
            old(self)@.reaches(final(self)@),
            old(self)@.grows_to(final(self)@),
            old(self).keeps_firsts(*final(self)),
            match result {
                Ok(solved) => {
                    &&& final(self)@.wf()
                    &&& solved@.subset_of(vars@)
                    &&& old(self)@.tries_all(final(self)@, vars@, solved@)
                    &&& forall|m: u32| #[trigger]
                        vars@.contains(m) ==> old(self)@.tried(final(self)@, m)
                    &&& forall|m: u32| #[trigger]
                        solved@.contains(m) ==> old(self)@.gains(final(self)@, m)
                    &&& old(self)@.credits(final(self)@, solved@)
                    &&& forall|m: u32| #[trigger]
                        vars@.contains(m) ==> final(self)@.registered(m)
                    &&& !solved@.is_empty() ==> old(self)@.finds_more(final(self)@)
                    &&& solved@.is_empty() ==> final(self)@.solved == old(self)@.solved
                    &&& forall|m: u32, r: Seq<char>, o: u32|
                        solved@.contains(m) && #[trigger] old(self)@.has(m, Con::Plus(r, o))
                            ==> final(self)@.met(m, r, o)
                    &&& solved@.is_empty() ==> forall|m: u32, r: Seq<char>, o: u32|
                        vars@.contains(m) && #[trigger] old(self)@.has(m, Con::Plus(r, o))
                            ==> final(self)@.balanced(m, r, o)
                },
                Err(err) => exists|m: u32| #[trigger]
                    vars@.contains(m) && final(self)@.own_clash(err, m) && old(self)@.fails_at(
                        vars@,
                        m,
                    ),
            },
    {
        let ghost before = self@;
        proof {
            lemma_reaches_self(before);
        }
        let n = self.meta_count();
        let ghost mut order: Seq<u32> = Seq::empty();
        let mut solved: HashSet<u32> = HashSet::new();
        let mut m: u32 = 0;
        proof {
            lemma_worked_start(before, vars@);
            assert(solved@ =~= Set::<u32>::empty());
        }
        while m < n
            invariant
                m <= n,
                n == before.fresh,
                before == old(self)@,
                before.wf(),
                self.ok(),
                self@.wf(),
                before.reaches(self@),
                old(self).keeps_firsts(*self),
                forall|k: u32| #[trigger] vars@.contains(k) ==> before.cons.contains_key(k),
                worked(before, self@, vars@, order, m, solved@),
            decreases n - m,
        {
            if vars.contains(&m) {
                let ghost prev = self@;
                let ghost known = solved@;
                proof {
                    lemma_worked_grows(before, prev, vars@, order, m, known);
                    assert(before.cons.contains_key(m));
                }
                let outcome = self.solve_meta(Meta(m));
                proof {
                    lemma_reaches_transitive(before, prev, self@);
                    lemma_grows_transitive(before, prev, self@);
                    if outcome is Err {
                        lemma_worked_refused(before, prev, vars@, order, m, known);
                    }
                }
                let found = outcome?;
                if found {
                    solved.insert(m);
                }
                proof {
                    lemma_worked_next(before, prev, self@, vars@, order, m, known, solved@);
                    order = order.push(m);
                }
            } else {
                proof {
                    lemma_worked_past(before, self@, vars@, order, m, solved@);
                }
            }
            m += 1;
        }
        proof {
            lemma_worked_end(before, self@, vars@, order, m, solved@);
        }
        Ok(solved)
    }
}

/// How far solving those of `vars` below `m` has come, where those of `order` have
/// been tried, and a solution was found for those of `solved`.
#[verifier::opaque]
spec fn worked(
    before: Ctx,
    now: Ctx,
    vars: Set<u32>,
    order: Seq<u32>,
    m: u32,
    solved: Set<u32>,
) -> bool {
    &&& before.grows_to(now)
    &&& before.tries(now, order, solved)
    &&& order.no_duplicates()
    &&& forall|k: u32| #[trigger] order.contains(k) <==> k < m && vars.contains(k)
    &&& solved.subset_of(vars)
    &&& before.credits(now, solved)
    &&& forall|k: u32|
        k < m && #[trigger] vars.contains(k) ==> worked_one(before, now, k)
    &&& forall|k: u32| #[trigger]
        solved.contains(k) ==> before.gains(now, k) && holds_sums(before, now, k)
}

/// Whether all sums on `m` hold.
spec fn holds_sums(before: Ctx, now: Ctx, m: u32) -> bool {
    forall|r: Seq<char>, o: u32| #[trigger]
        before.has(m, Con::Plus(r, o)) ==> now.met(m, r, o)
}

/// Whether all sums on `m` hold as far as can be told.
spec fn balances_sums(before: Ctx, now: Ctx, m: u32) -> bool {
    forall|r: Seq<char>, o: u32| #[trigger]
        before.has(m, Con::Plus(r, o)) ==> now.balanced(m, r, o)
}

/// What holds of a metavariable that has been tried.
spec fn worked_one(before: Ctx, now: Ctx, m: u32) -> bool {
    &&& now.registered(m)
    &&& before.tried(now, m)
    &&& now.solved == before.solved ==> balances_sums(before, now, m)
}

proof fn lemma_worked_start(before: Ctx, vars: Set<u32>)
    ensures
        worked(before, before, vars, Seq::empty(), 0, Set::empty()),
{
    reveal(worked);
}

proof fn lemma_worked_grows(
    before: Ctx,
    now: Ctx,
    vars: Set<u32>,
    order: Seq<u32>,
    m: u32,
    solved: Set<u32>,
)
    requires
        worked(before, now, vars, order, m, solved),
    ensures
        before.grows_to(now),
{
    reveal(worked);
}

/// Those that are not in `vars` are passed over.
proof fn lemma_worked_past(
    before: Ctx,
    now: Ctx,
    vars: Set<u32>,
    order: Seq<u32>,
    m: u32,
    solved: Set<u32>,
)
    requires
        worked(before, now, vars, order, m, solved),
        !vars.contains(m),
        m < u32::MAX,
    ensures
        worked(before, now, vars, order, (m + 1) as u32, solved),
{
    reveal(worked);
    assert forall|k: u32| k < m + 1 && #[trigger] vars.contains(k) implies worked_one(
        before,
        now,
        k,
    ) by {
        assert(k < m);
    }
}

/// A conflict is one after those before it have been tried.
proof fn lemma_worked_refused(
    before: Ctx,
    now: Ctx,
    vars: Set<u32>,
    order: Seq<u32>,
    m: u32,
    solved: Set<u32>,
)
    requires
        worked(before, now, vars, order, m, solved),
        vars.contains(m),
        now.conflicts(m),
    ensures
        before.fails_at(vars, m),
{
    reveal(worked);
    assert(order.to_set().subset_of(vars)) by {
        assert forall|k: u32| order.to_set().contains(k) implies vars.contains(k) by {
            assert(order.contains(k));
        }
    }
    assert(!order.contains(m));
}

/// One more has been tried.
proof fn lemma_worked_next(
    before: Ctx,
    prev: Ctx,
    now: Ctx,
    vars: Set<u32>,
    order: Seq<u32>,
    m: u32,
    known: Set<u32>,
    solved: Set<u32>,
)
    requires
        before.in_range(),
        before.cons.contains_key(m),
        worked(before, prev, vars, order, m, known),
        prev.in_range(),
        prev.tries_one(now, m, known, solved),
        vars.contains(m),
        m < u32::MAX,
    ensures
        worked(before, now, vars, order.push(m), (m + 1) as u32, solved),
{
    reveal(worked);
    let next = order.push(m);
    lemma_grows_transitive(before, prev, now);
    lemma_tries_next(before, prev, now, order, m, known, solved);
    lemma_credits_next(before, prev, now, m, known, solved);
    assert(!order.contains(m));
    assert forall|k: u32| #[trigger] next.contains(k) <==> k < m + 1 && vars.contains(k) by {
        if next.contains(k) && k != m {
            let i = choose|i: int| 0 <= i < next.len() && next[i] == k;
            assert(order[i] == k);
        }
        if order.contains(k) {
            let i = choose|i: int| 0 <= i < order.len() && order[i] == k;
            assert(next[i] == k);
        }
        assert(next[order.len() as int] == m);
    }
    assert forall|k: u32| k < m + 1 && #[trigger] vars.contains(k) implies worked_one(
        before,
        now,
        k,
    ) by {
        if k == m {
            lemma_worked_now(before, prev, now, m);
        } else {
            lemma_worked_one_grows(before, prev, now, k);
        }
    }
    assert forall|k: u32| #[trigger] solved.contains(k) implies before.gains(now, k) && holds_sums(
        before,
        now,
        k,
    ) by {
        if known.contains(k) {
            lemma_gains_grows(before, prev, now, k);
            lemma_holds_grows(before, prev, now, k);
        } else {
            lemma_gains_now(before, prev, now, m);
            lemma_holds_now(before, prev, now, m);
        }
    }
}

proof fn lemma_worked_now(
    before: Ctx,
    prev: Ctx,
    now: Ctx,
    m: u32,
)
    requires
        before.in_range(),
        before.cons.contains_key(m),
        before.grows_to(prev),
        prev.in_range(),
        prev.solves(now, m),
    ensures
        worked_one(before, now, m),
{
    lemma_tried_now(before, prev, now, m);
    assert(prev.root(m) == m);
    lemma_solves(prev, now, m);
    if now.solved == before.solved {
        assert(!prev.finds_more(now)) by {
            if prev.finds_more(now) {
                let n = choose|n: u32| #[trigger]
                    now.solved.contains_key(n) && !prev.solved.contains_key(n);
                assert(before.solved.contains_key(n));
            }
        }
        assert forall|r: Seq<char>, o: u32| #[trigger]
            before.has(m, Con::Plus(r, o)) implies now.balanced(m, r, o) by {
            assert(prev.has(m, Con::Plus(r, o)));
        }
    }
}

proof fn lemma_worked_one_grows(
    before: Ctx,
    prev: Ctx,
    now: Ctx,
    k: u32,
)
    requires
        before.grows_to(prev),
        prev.grows_to(now),
        worked_one(before, prev, k),
    ensures
        worked_one(before, now, k),
{
    lemma_tried_grows(before, prev, now, k);
    assert forall|o: u32| #[trigger] now.has(k, Con::Equal(o)) implies now.eqs.contains((k, o)) by {
        assert(prev.has(k, Con::Equal(o)));
    }
    if now.solved == before.solved {
        assert(prev.solved =~= before.solved) by {
            assert forall|n: u32| prev.solved.contains_key(n) implies before.solved.contains_key(
                n,
            ) by {
                assert(now.solved.contains_key(n));
            }
        }
        assert forall|x: u32| #[trigger] now.look(x) == prev.look(x) by {}
        assert forall|r: Seq<char>, o: u32| #[trigger]
            before.has(k, Con::Plus(r, o)) implies now.balanced(k, r, o) by {
            assert(prev.balanced(k, r, o));
        }
    }
}

proof fn lemma_holds_grows(before: Ctx, prev: Ctx, now: Ctx, k: u32)
    requires
        holds_sums(before, prev, k),
        prev.grows_to(now),
    ensures
        holds_sums(before, now, k),
{
    assert forall|r: Seq<char>, o: u32| #[trigger] before.has(k, Con::Plus(r, o)) implies now.met(
        k,
        r,
        o,
    ) by {
        assert(prev.met(k, r, o));
        lemma_grows_look(prev, now, k);
        lemma_grows_look(prev, now, o);
    }
}

proof fn lemma_holds_now(before: Ctx, prev: Ctx, now: Ctx, m: u32)
    requires
        before.in_range(),
        before.cons.contains_key(m),
        before.grows_to(prev),
        prev.in_range(),
        prev.solves(now, m),
        prev.finds_more(now),
    ensures
        holds_sums(before, now, m),
{
    assert(prev.root(m) == m);
    lemma_solves(prev, now, m);
    assert forall|r: Seq<char>, o: u32| #[trigger] before.has(m, Con::Plus(r, o)) implies now.met(
        m,
        r,
        o,
    ) by {
        assert(prev.has(m, Con::Plus(r, o)));
    }
}

/// When all of `vars` have been tried, what holds of each of them holds.
proof fn lemma_worked_end(
    before: Ctx,
    now: Ctx,
    vars: Set<u32>,
    order: Seq<u32>,
    m: u32,
    solved: Set<u32>,
)
    requires
        before.in_range(),
        worked(before, now, vars, order, m, solved),
        forall|k: u32| #[trigger] vars.contains(k) ==> before.cons.contains_key(k),
        m == before.fresh,
    ensures
        before.grows_to(now),
        before.tries_all(now, vars, solved),
        solved.subset_of(vars),
        before.credits(now, solved),
        forall|k: u32| #[trigger] vars.contains(k) ==> now.registered(k) && before.tried(now, k),
        forall|k: u32| #[trigger] solved.contains(k) ==> before.gains(now, k),
        forall|k: u32, r: Seq<char>, o: u32|
            solved.contains(k) && #[trigger] before.has(k, Con::Plus(r, o)) ==> now.met(k, r, o),
        solved.is_empty() ==> now.solved == before.solved,
        !solved.is_empty() ==> before.finds_more(now),
        solved.is_empty() ==> forall|k: u32, r: Seq<char>, o: u32|
            vars.contains(k) && #[trigger] before.has(k, Con::Plus(r, o)) ==> now.balanced(k, r, o),
{
    reveal(worked);
    assert forall|k: u32| #[trigger] vars.contains(k) implies k < m && worked_one(
        before,
        now,
        k,
    ) by {
        assert(before.cons.contains_key(k));
    }
    assert(order.to_set() =~= vars) by {
        assert forall|k: u32| order.to_set().contains(k) <==> vars.contains(k) by {
            assert(order.contains(k) <==> k < m && vars.contains(k));
        }
    }
    assert(before.tries_all(now, vars, solved));
    assert forall|k: u32, r: Seq<char>, o: u32|
        solved.contains(k) && #[trigger] before.has(k, Con::Plus(r, o)) implies now.met(
        k,
        r,
        o,
    ) by {
        assert(holds_sums(before, now, k));
    }
    if solved.is_empty() {
        assert(solved =~= Set::<u32>::empty());
        assert(now.solved =~= before.solved) by {
            assert forall|n: u32| now.solved.contains_key(n) implies before.solved.contains_key(
                n,
            ) by {
                if !before.solved.contains_key(n) {
                    assert(before.credited(solved, n));
                }
            }
        }
        assert forall|k: u32, r: Seq<char>, o: u32|
            vars.contains(k) && #[trigger] before.has(k, Con::Plus(r, o)) implies now.balanced(
            k,
            r,
            o,
        ) by {
            assert(worked_one(before, now, k));
            assert(balances_sums(before, now, k));
        }
    } else {
        let k = solved.choose();
        assert(solved.contains(k)) by {
            if forall|x: u32| !solved.contains(x) {
                assert(solved =~= Set::<u32>::empty());
            }
        }
        assert(before.gains(now, k));
        let n = choose|n: u32| #[trigger]
            now.solved.contains_key(n) && !before.solved.contains_key(n) && before.concerns(k, n);
    }
}

/// How far solving `m` has come from `before` when the constraints `done` have
/// been looked at, where `u` is the solution for `m`, if there is one.
#[verifier::opaque]
spec fn midway(before: Ctx, now: Ctx, m: u32, done: Set<Con>, u: Option<Exts>) -> bool {
    &&& before.grows_to(now)
    &&& now.look(m) == u
    &&& u is None ==> now.solved == before.solved
    &&& u is Some ==> before.own_value(m, u->0)
    &&& forall|r: Seq<char>, o: u32| #[trigger]
        done.contains(Con::Plus(r, o)) ==> before.has(m, Con::Plus(r, o)) && (u is Some
            ==> now.met(m, r, o))
    &&& forall|n: u32| #[trigger]
        now.solved.contains_key(n) && !before.solved.contains_key(n) ==> n == m || lowered(
            before,
            now.solved,
            m,
            n,
            u,
        )
    &&& before.registers(now, m, equals_in(done))
}

/// Whether `n` has been solved by taking an extension from the solution of `m`.
spec fn lowered(
    before: Ctx,
    solved: Map<u32, Exts>,
    m: u32,
    n: u32,
    u: Option<Exts>,
) -> bool {
    exists|r: Seq<char>, o: u32|
        {
            &&& #[trigger] before.has(m, Con::Plus(r, o))
            &&& before.root(o) == n
            &&& u is Some
            &&& u->0.contains(r)
            &&& solved[n] == u->0.remove(r)
        }
}

proof fn lemma_midway_grows(before: Ctx, now: Ctx, m: u32, done: Set<Con>, u: Option<Exts>)
    requires
        midway(before, now, m, done, u),
        before.root(m) == m,
    ensures
        before.grows_to(now),
        before.solves_own(now, m),
        before.values_follow(now, m),
{
    reveal(midway);
    assert forall|n: u32| #[trigger]
        now.solved.contains_key(n) && !before.solved.contains_key(n) implies before.value_follows(
        m,
        n,
        now.solved[n],
    ) by {
        assert(u is Some) by {
            if u is None {
                assert(now.solved == before.solved);
            }
        }
        assert(before.own_value(m, u->0));
        if n == m {
            assert(now.look(m) == u);
        } else {
            assert(lowered(before, now.solved, m, n, u));
            let (r, o) = choose|r: Seq<char>, o: u32|
                {
                    &&& #[trigger] before.has(m, Con::Plus(r, o))
                    &&& before.root(o) == n
                    &&& u is Some
                    &&& u->0.contains(r)
                    &&& now.solved[n] == u->0.remove(r)
                };
            assert(before.is_part(m, n, u->0, now.solved[n]));
        }
    }
    assert forall|n: u32| #[trigger]
        now.solved.contains_key(n) && !before.solved.contains_key(n) implies n == m
        || before.in_sum(m, n) by {
        if n != m {
            assert(lowered(before, now.solved, m, n, u));
        }
    }
}

/// Where no constraint gives a solution, nothing has been done yet.
proof fn lemma_midway_start(before: Ctx, m: u32)
    requires
        before.in_range(),
    ensures
        midway(before, before, m, Set::empty(), before.look(m)),
{
    reveal(midway);
}

/// Where a constraint gives a solution, it has been looked at first.
proof fn lemma_midway_first(before: Ctx, now: Ctx, m: u32, c: Con)
    requires
        before.in_range(),
        before.root(m) == m,
        before.has(m, c),
        before.look(m) is None,
        before.gives(c),
        now == before.applied(m, c),
    ensures
        midway(
            before,
            now,
            m,
            Set::<Con>::empty().insert(c),
            Some(before.look(c->Plus_1)->0.insert(c->Plus_0)),
        ),
{
    reveal(midway);
    let r = c->Plus_0;
    let o = c->Plus_1;
    let set = before.look(o)->0.insert(r);
    assert(c == Con::Plus(r, o));
    assert(now == before.with_solution(m, set));
    assert(before.gives_value(m, r, o, set));
    assert forall|k: u32| #[trigger] now.root(k) == before.root(k) by {}
    assert(now.met(m, r, o));
    assert forall|k: u32, d: Con| #[trigger] now.has(k, d) == before.has(k, d) by {}
}

/// One more constraint has been looked at.
#[verifier::spinoff_prover]
#[verifier::rlimit(40)]
proof fn lemma_midway_next(
    before: Ctx,
    now: Ctx,
    m: u32,
    done: Set<Con>,
    u: Option<Exts>,
    c: Con,
)
    requires
        before.in_range(),
        before.root(m) == m,
        midway(before, now, m, done, u),
        before.has(m, c),
        u is None ==> !before.gives(c),
        !now.refuses(m, c),
    ensures
        midway(before, now.applied(m, c), m, done.insert(c), u),
{
    reveal(midway);
    let after = now.applied(m, c);
    let more = done.insert(c);
    assert forall|k: u32| #[trigger] now.root(k) == before.root(k) by {}
    assert forall|k: u32| #[trigger] after.root(k) == before.root(k) by {}
    assert forall|k: u32, d: Con| #[trigger] now.has(k, d) == before.has(k, d) by {}
    match c {
        Con::Equal(p) => {
            assert(after.solved == now.solved);
            assert forall|k: u32| #[trigger] after.look(k) == now.look(k) by {}
            assert forall|r: Seq<char>, o: u32| #[trigger]
                more.contains(Con::Plus(r, o)) implies before.has(m, Con::Plus(r, o)) && (u is Some
                ==> after.met(m, r, o)) by {
                assert(done.contains(Con::Plus(r, o)));
            }
            let known = equals_in(done);
            let others = equals_in(more);
            assert(others =~= known.insert(p));
            assert forall|a: u32, b: u32| #[trigger]
                after.eqs.contains((a, b)) <==> before.eqs.contains((a, b)) || exists|o: u32|
                    #[trigger]
                    others.contains(o) && a == m && (b == o || b == before.root(o)) by {
                if now.eqs.contains((a, b)) && !before.eqs.contains((a, b)) {
                    let o = choose|o: u32| #[trigger]
                        known.contains(o) && a == m && (b == o || b == before.root(o));
                    assert(others.contains(o));
                }
                if a == m && (b == p || b == before.root(p)) {
                    assert(others.contains(p));
                }
                if exists|o: u32| #[trigger]
                    others.contains(o) && a == m && (b == o || b == before.root(o)) {
                    let o = choose|o: u32| #[trigger]
                        others.contains(o) && a == m && (b == o || b == before.root(o));
                    if o != p {
                        assert(known.contains(o));
                    }
                }
            }
            assert forall|n: u32| #[trigger]
                after.eq_nodes.contains(n) <==> before.eq_nodes.contains(n) || exists|o: u32|
                    #[trigger]
                    others.contains(o) && (n == m || n == o || n == before.root(o)) by {
                if now.eq_nodes.contains(n) && !before.eq_nodes.contains(n) {
                    let o = choose|o: u32| #[trigger]
                        known.contains(o) && (n == m || n == o || n == before.root(o));
                    assert(others.contains(o));
                }
                if n == m || n == p || n == before.root(p) {
                    assert(others.contains(p));
                }
                if exists|o: u32| #[trigger]
                    others.contains(o) && (n == m || n == o || n == before.root(o)) {
                    let o = choose|o: u32| #[trigger]
                        others.contains(o) && (n == m || n == o || n == before.root(o));
                    if o != p {
                        assert(known.contains(o));
                    }
                }
            }
            assert(before.grows_to(after)) by {
                assert forall|n: u32| #[trigger]
                    after.eq_nodes.contains(n) && !before.eq_nodes.contains(
                        n,
                    ) implies before.asked_equal(n) by {
                    if !now.eq_nodes.contains(n) {
                        assert(before.has(m, Con::Equal(p)));
                    }
                }
            }
            assert forall|n: u32| #[trigger]
                after.solved.contains_key(n) && !before.solved.contains_key(n) implies n == m
                || lowered(before, after.solved, m, n, u) by {
                assert(now.solved.contains_key(n));
            }
        },
        Con::Plus(r, o) => {
            assert(equals_in(more) =~= equals_in(done));
            assert(after.eqs == now.eqs && after.eq_nodes == now.eq_nodes);
            if u is None {
                assert(now.look(o) == before.look(o));
                assert(before.look(o) is None);
                assert(after == now);
            } else if now.look(o) is Some {
                assert(after == now);
                assert(now.met(m, r, o));
            } else {
                let set = u->0;
                let n = before.root(o);
                assert(!now.solved.contains_key(n));
                lemma_root(before.shunted, o);
                assert(n != m);
                assert(after == now.with_solution(n, set.remove(r)));
                assert(set.remove(r).insert(r) =~= set);
                assert forall|k: u32| (#[trigger] now.look(k)) is Some implies after.look(k)
                    == now.look(k) by {}
                assert(after.look(o) == Some(set.remove(r)));
                assert(lowered(before, after.solved, m, n, u));
                assert forall|x: u32| #[trigger]
                    after.solved.contains_key(x) && !before.solved.contains_key(x) implies x == m
                    || lowered(before, after.solved, m, x, u) by {
                    if x != m && x != n {
                        assert(lowered(before, now.solved, m, x, u));
                        let (q, p) = choose|q: Seq<char>, p: u32|
                            {
                                &&& #[trigger] before.has(m, Con::Plus(q, p))
                                &&& before.root(p) == x
                                &&& u is Some
                                &&& u->0.contains(q)
                                &&& now.solved[x] == u->0.remove(q)
                            };
                        assert(after.solved[x] == now.solved[x]);
                    }
                }
                assert forall|q: Seq<char>, p: u32| #[trigger]
                    more.contains(Con::Plus(q, p)) implies after.met(m, q, p) by {
                    if Con::Plus(q, p) != c {
                        assert(done.contains(Con::Plus(q, p)));
                        assert(now.met(m, q, p));
                    }
                }
            }
        },
    }
}

/// A constraint that contradicts what has been found contradicts the others or
/// what was known.
proof fn lemma_midway_refused(
    before: Ctx,
    now: Ctx,
    m: u32,
    done: Set<Con>,
    u: Option<Exts>,
    c: Con,
)
    requires
        before.in_range(),
        before.root(m) == m,
        midway(before, now, m, done, u),
        before.has(m, c),
        now.refuses(m, c),
    ensures
        before.conflicts(m),
{
    reveal(midway);
    let r = c->Plus_0;
    let o = c->Plus_1;
    let set = u->0;
    assert(c == Con::Plus(r, o));
    assert forall|k: u32| #[trigger] now.root(k) == before.root(k) by {}
    assert(before.own_value(m, set));
    if before.fits(m, set) {
        assert(set.contains(r));
        if before.look(o) is Some {
            assert(now.look(o) == before.look(o));
        } else if now.look(o) is Some {
            let n = before.root(o);
            if n == m {
                assert(set.insert(r) =~= set);
            } else {
                assert(lowered(before, now.solved, m, n, u));
                let (q, p) = choose|q: Seq<char>, p: u32|
                    {
                        &&& #[trigger] before.has(m, Con::Plus(q, p))
                        &&& before.root(p) == n
                        &&& u is Some
                        &&& u->0.contains(q)
                        &&& now.solved[n] == u->0.remove(q)
                    };
                assert(before.look(p) is None);
                assert(before.has(m, Con::Plus(q, p)) && before.has(m, Con::Plus(r, o)));
                assert(q == r);
                assert(set.remove(r).insert(r) =~= set);
            }
        }
    }
}

/// When all constraints have been looked at, they hold as far as can be told.
#[verifier::spinoff_prover]
#[verifier::rlimit(40)]
proof fn lemma_midway_end(before: Ctx, now: Ctx, m: u32, done: Set<Con>, u: Option<Exts>)
    requires
        before.in_range(),
        before.root(m) == m,
        before.cons.contains_key(m),
        midway(before, now, m, done, u),
        forall|c: Con| before.cons[m].contains(c) ==> #[trigger] done.contains(c),
        u is None ==> forall|c: Con| #[trigger] before.cons[m].contains(c) ==> !before.gives(c),
        forall|c: Con| #[trigger] done.contains(c) ==> before.cons[m].contains(c),
    ensures
        before.solves(now, m),
        !before.conflicts(m),
{
    lemma_midway_grows(before, now, m, done, u);
    reveal(midway);
    assert(done =~= before.cons_of(m));
    assert forall|k: u32| #[trigger] now.root(k) == before.root(k) by {}
    assert forall|r: Seq<char>, o: u32| #[trigger] before.has(m, Con::Plus(r, o)) implies u is Some
        ==> now.met(m, r, o) by {
        assert(done.contains(Con::Plus(r, o)));
    }
    assert forall|set: Exts| #[trigger] before.own_value(m, set) implies u == Some(set) by {
        if before.look(m) is Some {
            assert(now.look(m) == before.look(m));
        } else {
            let (r, o) = choose|r: Seq<char>, o: u32| before.gives_value(m, r, o, set);
            assert(before.has(m, Con::Plus(r, o)));
            assert(before.gives(Con::Plus(r, o)));
            assert(now.look(o) == before.look(o));
        }
    }
    if u is Some {
        let set = u->0;
        assert forall|r: Seq<char>, o: u32| #[trigger]
            before.has(m, Con::Plus(r, o)) && before.look(o) is None && before.root(o)
                != m implies set.contains(r) && now.look(o) == Some(set.remove(r)) by {
            let n = before.root(o);
            assert(now.met(m, r, o));
            assert(lowered(before, now.solved, m, n, u));
            let (q, p) = choose|q: Seq<char>, p: u32|
                {
                    &&& #[trigger] before.has(m, Con::Plus(q, p))
                    &&& before.root(p) == n
                    &&& u is Some
                    &&& u->0.contains(q)
                    &&& now.solved[n] == u->0.remove(q)
                };
            assert(set == set.remove(q).insert(r));
            assert(set.remove(q).insert(r).contains(q));
            assert(q == r);
        }
        assert(before.solved_from(now, m, set));
        assert(before.fits(m, set)) by {
            assert forall|r: Seq<char>, o: u32| #[trigger]
                before.has(m, Con::Plus(r, o)) implies set.contains(r) && (before.look(o) is Some
                ==> set == before.look(o)->0.insert(r)) by {
                assert(now.met(m, r, o));
                assert(set == now.look(o)->0.insert(r));
                if before.look(o) is Some {
                    assert(now.look(o) == before.look(o));
                }
            }
            assert forall|r1: Seq<char>, o1: u32, r2: Seq<char>, o2: u32| #[trigger]
                before.has(m, Con::Plus(r1, o1)) && #[trigger] before.has(m, Con::Plus(r2, o2))
                    && before.look(o1) is None && before.root(o1) == before.root(o2)
                    && before.root(o1) != m implies r1 == r2 by {
                assert(now.look(o1) == Some(set.remove(r1)));
                assert(now.look(o2) == Some(set.remove(r2)));
                assert(set.remove(r1) == set.remove(r2));
                assert(!set.remove(r1).contains(r1));
            }
        }
    }
}

/// What solving a metavariable from its own constraints means for the rest of a
/// round.
proof fn lemma_solves(before: Ctx, now: Ctx, m: u32)
    requires
        before.in_range(),
        before.root(m) == m,
        before.cons.contains_key(m),
        before.solves(now, m),
    ensures
        now.registered(m),
        !before.finds_more(now) ==> forall|r: Seq<char>, o: u32| #[trigger]
            before.has(m, Con::Plus(r, o)) ==> now.balanced(m, r, o),
        before.finds_more(now) ==> forall|r: Seq<char>, o: u32| #[trigger]
            before.has(m, Con::Plus(r, o)) ==> now.met(m, r, o),
{
    assert forall|k: u32| #[trigger] now.root(k) == before.root(k) by {}
    assert forall|k: u32, d: Con| #[trigger] now.has(k, d) == before.has(k, d) by {}
    assert forall|o: u32| #[trigger] now.has(m, Con::Equal(o)) implies now.eqs.contains((m, o)) by {
        assert(before.has(m, Con::Equal(o)));
        assert(equals_in(before.cons_of(m)).contains(o));
    }
    if exists|set: Exts| #[trigger] before.own_value(m, set) {
        let set = choose|set: Exts| #[trigger] before.own_value(m, set);
        assert(before.solved_from(now, m, set));
    } else {
        assert(before.look(m) is None) by {
            if before.look(m) is Some {
                assert(before.own_value(m, before.look(m)->0));
            }
        }
        assert forall|r: Seq<char>, o: u32| #[trigger]
            before.has(m, Con::Plus(r, o)) implies now.balanced(m, r, o) by {
            if before.look(o) is Some {
                let set = before.look(o)->0.insert(r);
                assert(before.gives_value(m, r, o, set));
                assert(before.own_value(m, set));
            }
        }
    }
}

/// One more has been tried.
proof fn lemma_tries_next(
    before: Ctx,
    prev: Ctx,
    now: Ctx,
    order: Seq<u32>,
    m: u32,
    known: Set<u32>,
    solved: Set<u32>,
)
    requires
        before.tries(prev, order, known),
        prev.tries_one(now, m, known, solved),
    ensures
        before.tries(now, order.push(m), solved),
{
    let longer = order.push(m);
    assert(longer.drop_last() =~= order);
    assert(prev.tries_one(now, longer.last(), known, solved));
}

/// What holds of the sums on a metavariable goes on to hold.
proof fn lemma_tried_grows(before: Ctx, prev: Ctx, now: Ctx, k: u32)
    requires
        before.tried(prev, k),
        prev.grows_to(now),
    ensures
        before.tried(now, k),
{
    assert forall|r: Seq<char>, o: u32| #[trigger]
        before.has(k, Con::Plus(r, o)) && (before.look(k) is Some || before.look(
            o,
        ) is Some) implies now.met(k, r, o) by {
        assert(prev.met(k, r, o));
        lemma_grows_look(prev, now, k);
        lemma_grows_look(prev, now, o);
    }
}

/// Once a metavariable has been tried, its sums hold as far as a side was known.
proof fn lemma_tried_now(before: Ctx, prev: Ctx, now: Ctx, m: u32)
    requires
        before.grows_to(prev),
        prev.solves(now, m),
    ensures
        before.tried(now, m),
{
    assert forall|r: Seq<char>, o: u32| #[trigger]
        before.has(m, Con::Plus(r, o)) && (before.look(m) is Some || before.look(
            o,
        ) is Some) implies now.met(m, r, o) by {
        assert(prev.has(m, Con::Plus(r, o)));
        if before.look(m) is Some {
            lemma_grows_look(before, prev, m);
        } else {
            lemma_grows_look(before, prev, o);
        }
        let set = if prev.look(m) is Some {
            prev.look(m)->0
        } else {
            prev.look(o)->0.insert(r)
        };
        if prev.look(m) is None {
            assert(prev.gives_value(m, r, o, set));
        }
        assert(prev.own_value(m, set));
        assert(prev.solved_from(now, m, set));
    }
}

/// What a metavariable concerns depends on constraints and merges only.
proof fn lemma_concerns_like(before: Ctx, prev: Ctx, m: u32, n: u32)
    requires
        before.grows_to(prev),
    ensures
        before.concerns(m, n) == prev.concerns(m, n),
{
    assert forall|k: u32, c: Con| #[trigger] prev.has(k, c) == before.has(k, c) by {}
    assert forall|k: u32| #[trigger] prev.root(k) == before.root(k) by {}
    if before.in_sum(m, n) {
        let (r, o) = choose|r: Seq<char>, o: u32| #[trigger]
            before.has(m, Con::Plus(r, o)) && before.root(o) == n;
        assert(prev.has(m, Con::Plus(r, o)));
    }
    if prev.in_sum(m, n) {
        let (r, o) = choose|r: Seq<char>, o: u32| #[trigger]
            prev.has(m, Con::Plus(r, o)) && prev.root(o) == n;
        assert(before.has(m, Con::Plus(r, o)));
    }
}

/// What a metavariable has to show it keeps.
proof fn lemma_gains_grows(before: Ctx, prev: Ctx, now: Ctx, m: u32)
    requires
        before.gains(prev, m),
        prev.grows_to(now),
    ensures
        before.gains(now, m),
{
    let n = choose|n: u32| #[trigger]
        prev.solved.contains_key(n) && !before.solved.contains_key(n) && before.concerns(m, n);
    assert(now.solved.contains_key(n));
}

/// A metavariable for which a solution was found has that to show.
proof fn lemma_gains_now(before: Ctx, prev: Ctx, now: Ctx, m: u32)
    requires
        before.grows_to(prev),
        prev.solves_own(now, m),
        prev.finds_more(now),
    ensures
        before.gains(now, m),
{
    let n = choose|n: u32| #[trigger]
        now.solved.contains_key(n) && !prev.solved.contains_key(n);
    assert(!before.solved.contains_key(n));
    lemma_concerns_like(before, prev, m, n);
}

/// Each new solution comes from one that was solved, when one more has been tried.
proof fn lemma_credits_next(
    before: Ctx,
    prev: Ctx,
    now: Ctx,
    m: u32,
    known: Set<u32>,
    solved: Set<u32>,
)
    requires
        before.grows_to(prev),
        before.credits(prev, known),
        prev.tries_one(now, m, known, solved),
    ensures
        before.credits(now, solved),
{
    assert forall|n: u32| #[trigger]
        now.solved.contains_key(n) && !before.solved.contains_key(n) implies before.credited(
        solved,
        n,
    ) by {
        if prev.solved.contains_key(n) {
            let k = choose|k: u32| #[trigger] known.contains(k) && before.concerns(k, n);
            assert(solved.contains(k));
        } else {
            assert(prev.finds_more(now));
            lemma_concerns_like(before, prev, m, n);
            assert(solved.contains(m));
        }
    }
}

/// What has been found stays found.
proof fn lemma_finds_more(a: Ctx, b: Ctx, c: Ctx)
    requires
        a.finds_more(b),
        b.grows_to(c),
    ensures
        a.finds_more(c),
{
    let m = choose|m: u32| #[trigger] b.solved.contains_key(m) && !a.solved.contains_key(m);
    assert(c.solved.contains_key(m));
}

/// A new solution leaves the problem well-formed, and is a growth.
proof fn lemma_wf_solution(ctx: Ctx, m: u32, set: Exts)
    requires
        ctx.wf(),
        m < ctx.fresh,
        !ctx.solved.contains_key(m),
    ensures
        ctx.with_solution(m, set).wf(),
        ctx.grows_to(ctx.with_solution(m, set)),
{
    let after = ctx.with_solution(m, set);
    assert forall|k: u32, c: Con| #[trigger] after.has(k, c) == ctx.has(k, c) by {}
    assert forall|k: u32| #[trigger] after.root(k) == ctx.root(k) by {}
}

} // verus!
