//! The loop that solves and merges until nothing changes.

use std::collections::HashSet;

use vstd::prelude::*;

use crate::extension_set::{ExtensionSet, Exts};
use crate::hugr::Loc;
use crate::infer::context::UnificationContext;
use crate::infer::eq_graph::Meta;
use crate::infer::error::InferExtensionError;
use crate::infer::merge::tallied;
use crate::infer::model::{Con, Ctx};
use crate::infer::run::{
    Step, law_solving_is_sound, lemma_reaches_self, lemma_reaches_step, lemma_reaches_transitive,
};
use crate::infer::results::lemma_unsolved_like;
use crate::infer::solve::equals_in;
use crate::locations::{ExtensionSolution, solution_sets};

verus! {

broadcast use vstd::std_specs::hash::group_hash_axioms;

impl Ctx {
    /// Nothing is left to be done.
    pub open spec fn finished(self) -> bool {
        self.wf() && self.settled() && self.saturated()
    }

    /// Whether each equality that is registered and has not been merged is asked
    /// for by a constraint.
    pub open spec fn equals_asked(self) -> bool {
        forall|n: u32| #[trigger]
            self.eq_nodes.contains(n) ==> self.shunted.contains_key(n) || self.asked_equal(n)
    }

    /// Whether the equalities can be merged without running out of numbers for
    /// metavariables.
    pub open spec fn has_room(self) -> bool {
        self.no_equals() || 2 * self.fresh <= u32::MAX
    }

    /// Whether solving `self` may come to its end at `end`, where `map` is found
    /// and every location without a solution depends on a variable.
    pub open spec fn succeeds(self, end: Ctx, map: Map<Loc, Exts>) -> bool {
        &&& self.reaches(end)
        &&& end.finished()
        &&& end.all_grounded()
        &&& map == end.found()
    }

    /// Whether solving `self` may fail at `end` with `err`: two things that are
    /// known contradict each other, or some location stays unsolved.
    pub open spec fn fails(self, end: Ctx, err: InferExtensionError) -> bool {
        &&& self.reaches(end)
        &&& end.clash(err) || end.finished() && end.leaves_unsolved(err)
    }

    /// All variables that have no solution solved by the empty set, and no
    /// variables left.
    pub open spec fn instantiated(self) -> Ctx {
        Ctx {
            solved: self.solved.union_prefer_right(
                Map::new(
                    |m: u32| self.vars.contains(m) && !self.solved.contains_key(m),
                    |m: u32| Set::empty(),
                ),
            ),
            vars: Set::empty(),
            ..self
        }
    }

    /// The metavariables that carry constraints are among those `remaining`,
    /// for all of which constraints are recorded.
    spec fn tracked_by(self, remaining: Set<u32>) -> bool {
        &&& remaining.finite()
        &&& forall|m: u32| #[trigger] remaining.contains(m) ==> self.cons.contains_key(m)
        &&& forall|m: u32, c: Con| #[trigger] self.has(m, c) ==> remaining.contains(m)
    }

    /// Nothing but the constraints on `gone` has been removed.
    spec fn drops_to(self, later: Ctx, gone: Set<u32>) -> bool {
        later == (Ctx { cons: self.cons.remove_keys(gone), ..self })
    }
}

impl UnificationContext {
    /// The metavariables for which constraints are recorded.
    fn constrained_metas(&self) -> (metas: HashSet<u32>)
        requires
            self@.in_range(),
        ensures
            metas@.finite(),
            forall|m: u32| #[trigger] metas@.contains(m) <==> self@.cons.contains_key(m),
    {
        let n = self.meta_count();
        let mut metas: HashSet<u32> = HashSet::new();
        let mut m: u32 = 0;
        while m < n
            invariant
                m <= n,
                n == self@.fresh,
                self@.in_range(),
                metas@.finite(),
                forall|k: u32| #[trigger]
                    metas@.contains(k) <==> k < m && self@.cons.contains_key(k),
            decreases n - m,
        {
            if self.is_constrained(Meta(m)) {
                metas.insert(m);
            }
            m += 1;
        }
        metas
    }

    /// The metavariables of `remaining` that are neither solved nor merged, and
    /// those created, as far as constraints are recorded for them.
    fn next_round(
        &self,
        remaining: &HashSet<u32>,
        solved: &HashSet<u32>,
        merged: &HashSet<u32>,
        created: &HashSet<u32>,
    ) -> (metas: HashSet<u32>)
        requires
            self@.in_range(),
        ensures
            metas@.finite(),
            forall|m: u32| #[trigger]
                metas@.contains(m) <==> m < self@.fresh && (remaining@.contains(m)
                    && !solved@.contains(m) && !merged@.contains(m) || created@.contains(m)),
    {
        let n = self.meta_count();
        let mut metas: HashSet<u32> = HashSet::new();
        let mut m: u32 = 0;
        while m < n
            invariant
                m <= n,
                n == self@.fresh,
                self@.in_range(),
                metas@.finite(),
                forall|k: u32| #[trigger]
                    metas@.contains(k) <==> k < m && (remaining@.contains(k) && !solved@.contains(k)
                        && !merged@.contains(k) || created@.contains(k)),
            decreases n - m,
        {
            if remaining.contains(&m) && !solved.contains(&m) && !merged.contains(&m)
                || created.contains(&m) {
                metas.insert(m);
            }
            m += 1;
        }
        metas
    }

    /// Clean up dangling constraints on solved metavariables
    fn forget_solved(&mut self, solved: &HashSet<u32>)
        requires
            old(self).ok(),
            old(self)@.wf(),
            old(self)@.no_equals(),
            forall|m: u32, r: Seq<char>, o: u32|
                solved@.contains(m) && #[trigger] old(self)@.has(m, Con::Plus(r, o)) ==> old(
                    self,
                )@.met(m, r, o),
        ensures
            final(self).ok(),
            final(self)@.wf(),
            old(self)@.reaches(final(self)@),
            old(self)@.drops_to(final(self)@, solved@),
            solved@ == Set::<u32>::empty() ==> *final(self) == *old(self),
    {
        let ghost before = self@;
        let ghost mut gone = Set::<u32>::empty();
        proof {
            lemma_reaches_self(before);
            assert(before.cons.remove_keys(gone) =~= before.cons);
        }
        let n = self.meta_count();
        let mut m: u32 = 0;
        while m < n
            invariant
                m <= n,
                n == before.fresh,
                before == old(self)@,
                self.ok(),
                before.wf(),
                self@.wf(),
                before.reaches(self@),
                before.no_equals(),
                before.drops_to(self@, gone),
                solved@ == Set::<u32>::empty() ==> *self == *old(self),
                forall|k: u32| #[trigger] gone.contains(k) <==> k < m && solved@.contains(k),
                forall|k: u32, r: Seq<char>, o: u32|
                    solved@.contains(k) && #[trigger] before.has(k, Con::Plus(r, o)) ==> before.met(
                        k,
                        r,
                        o,
                    ),
            decreases n - m,
        {
            if solved.contains(&m) {
                let ghost prev = self@;
                proof {
                    assert forall|k: u32, c: Con| #[trigger] prev.has(k, c) implies before.has(
                        k,
                        c,
                    ) by {}
                    assert forall|k: u32| #[trigger] prev.look(k) == before.look(k) by {}
                    let step = Step::Forget(m);
                    assert forall|r: Seq<char>, o: u32| #[trigger]
                        prev.has(m, Con::Plus(r, o)) implies prev.met(m, r, o) by {
                        assert(before.has(m, Con::Plus(r, o)));
                    }
                    assert(prev.registered(m)) by {
                        assert forall|o: u32| !#[trigger] prev.has(m, Con::Equal(o)) by {}
                    }
                    assert(prev.applies(step));
                    lemma_reaches_step(before, prev, step);
                    crate::infer::steps::lemma_forget_step(prev, m);
                }
                self.remove_constraints(Meta(m));
                proof {
                    gone = gone.insert(m);
                    assert(self@.cons =~= before.cons.remove_keys(gone));
                }
            }
            m += 1;
        }
        proof {
            assert(before.cons.remove_keys(gone) =~= before.cons.remove_keys(solved@));
        }
    }

    /// One round: solve what can be solved, merge what should be equal, and
    /// clean up. Returns the metavariables that are left to solve, and whether
    /// there was any progress.
    fn round(&mut self, remaining: &HashSet<u32>) -> (result: Result<
        (HashSet<u32>, bool),
        InferExtensionError,
    >)
        requires
            old(self).ok(),
            old(self)@.wf(),
            old(self)@.equals_asked(),
            old(self)@.has_room(),
            old(self)@.tracked_by(remaining@),
        ensures
            final(self).ok(),
            old(self)@.reaches(final(self)@),
            final(self)@.fresh <= 2 * old(self)@.fresh,
            old(self)@.no_equals() ==> final(self)@.fresh == old(self)@.fresh,
            match result {
                Ok((left, progress)) => {
                    &&& final(self)@.wf()
                    &&& final(self)@.settled()
                    &&& final(self)@.tracked_by(left@)
                    &&& !progress ==> final(self)@.saturated()
                    &&& progress && old(self)@.no_equals() ==> left@.len() < remaining@.len()
                    &&& old(self)@.finished() ==> final(self)@ == old(self)@ && !progress && old(
                        self,
                    ).keeps_firsts(*final(self))
                },
                Err(err) => final(self)@.clash(err) && !old(self)@.finished(),
            },
    {
        let ghost start = self@;
        // Try to solve metas with the information we have now. This may
        // register new equalities
        let outcome = self.solve_constraints(remaining);
        let ghost mid = self@;
        proof {
            if start.finished() {
                if outcome is Ok {
                    lemma_tries_all_at_end(start, mid, remaining@, outcome->Ok_0@);
                } else {
                    lemma_no_failure_at_end(start, remaining@);
                }
            }
        }
        let to_delete = outcome?;
        proof {
            lemma_after_solving(start, mid, remaining@);
        }
        // Merge metas based on the equalities we just registered
        let outcome = self.merge_equal_metas();
        let ghost merged_state = self@;
        proof {
            lemma_reaches_transitive(start, mid, self@);
            if start.finished() {
                assert forall|a: u32, b: u32| !mid.at_odds(a, b) by {}
            }
        }
        let (created, merged) = outcome?;
        proof {
            law_solving_is_sound(mid, merged_state);
            lemma_after_merging(start, mid, merged_state, to_delete@);
        }
        // Clean up dangling constraints on solved metavariables
        self.forget_solved(&to_delete);
        proof {
            lemma_reaches_transitive(start, merged_state, self@);
            lemma_after_forgetting(merged_state, self@, to_delete@);
        }
        // Remove solved and merged metas from remaining "to solve" list
        let left = self.next_round(remaining, &to_delete, &merged, &created);
        let progress = !to_delete.is_empty() || !merged.is_empty() || !created.is_empty();
        proof {
            lemma_left(
                start,
                mid,
                merged_state,
                self@,
                remaining@,
                to_delete@,
                merged@,
                created@,
                left@,
            );
            if !progress {
                lemma_no_progress(start, mid, merged_state, self@, remaining@, merged@, created@);
            } else if start.no_equals() {
                lemma_fewer_left(remaining@, to_delete@, left@);
            }
        }
        Ok((left, progress))
    }

    /// Once the unification context is set up, attempt to infer ExtensionSets
    /// for all of the metavariables in the `UnificationContext`.
    ///
    /// Return a mapping from locations in the graph to concrete `ExtensionSets`
    /// where it was possible to infer them. If it wasn't possible to infer a
    /// *concrete* `ExtensionSet`, e.g. if the ExtensionSet relies on an open
    /// variable in the toplevel graph, don't include that location in the map
    pub fn main_loop(&mut self) -> (result: Result<ExtensionSolution, InferExtensionError>)
        requires
            old(self).ok(),
            old(self)@.wf(),
            old(self)@.equals_asked(),
            old(self)@.has_room(),
        ensures
            final(self).ok(),
            final(self)@.fresh <= 2 * old(self)@.fresh,
            old(self)@.finished() ==> {
                &&& final(self)@ == old(self)@
                &&& result is Ok <==> forall|loc: Loc| !old(self).unsolved_at(loc)
            },
            match result {
                Ok(solution) => {
                    &&& solution.wf()
                    &&& old(self)@.succeeds(final(self)@, solution_sets(solution@))
                    &&& forall|loc: Loc| !final(self).unsolved_at(loc)
                },
                Err(err) => {
                    &&& old(self)@.fails(final(self)@, err)
                    &&& err matches InferExtensionError::Unsolved { location }
                        ==> final(self).unsolved_at(location)
                },
            },
    {
        let ghost before = self@;
        proof {
            lemma_reaches_self(before);
        }
        let mut remaining = self.constrained_metas();
        let mut progress = true;
        // Keep going as long as we're making progress (= merging and solving nodes)
        while progress
            invariant
                before == old(self)@,
                self.ok(),
                self@.wf(),
                self@.equals_asked(),
                self@.has_room(),
                self@.tracked_by(remaining@),
                before.reaches(self@),
                !progress ==> self@.finished(),
                self@ == before || self@.no_equals() && self@.fresh <= 2 * before.fresh,
                before.finished() ==> self@ == before && old(self).keeps_firsts(*self),
            decreases progress as int, !self@.no_equals() as int, remaining@.len(),
        {
            let ghost prev = self@;
            let outcome = self.round(&remaining);
            proof {
                lemma_reaches_transitive(before, prev, self@);
            }
            let (left, changed) = outcome?;
            remaining = left;
            progress = changed;
        }
        proof {
            assert forall|m: u32| #[trigger] self@.clear_chains(m) by {}
            if before.finished() {
                assert forall|loc: Loc| self.unsolved_at(loc) == old(self).unsolved_at(loc) by {
                    lemma_unsolved_like(*old(self), *self, loc);
                }
            }
        }
        self.results()
    }

    /// Instantiate all variables in the graph with the empty extension set.
    /// This is done to solve metas which depend on variables, which allows
    /// us to come up with a fully concrete solution to pass into validation.
    pub fn instantiate_variables(&mut self)
        requires
            old(self).ok(),
            old(self)@.in_range(),
        ensures
            final(self).ok(),
            final(self)@ == old(self)@.instantiated(),
    {
        let ghost before = self@;
        let n = self.meta_count();
        let mut m: u32 = 0;
        let ghost mut solved = before.solved;
        while m < n
            invariant
                m <= n,
                n == before.fresh,
                before.in_range(),
                self.ok(),
                self@ == (Ctx { solved: solved, ..before }),
                forall|k: u32| #[trigger]
                    solved.contains_key(k) <==> before.solved.contains_key(k) || k < m
                        && before.vars.contains(k),
                forall|k: u32| #[trigger]
                    solved.contains_key(k) ==> solved[k] == (if before.solved.contains_key(k) {
                        before.solved[k]
                    } else {
                        Set::empty()
                    }),
            decreases n - m,
        {
            if self.is_variable(Meta(m)) && self.own_solution(Meta(m)).is_none() {
                self.add_solution(Meta(m), ExtensionSet::new());
                proof {
                    solved = solved.insert(m, Set::empty());
                }
            }
            m += 1;
        }
        self.clear_variables();
        assert(self@.solved =~= before.instantiated().solved);
    }
}

/// Once all of `remaining` have been tried, all equalities are registered.
proof fn lemma_after_solving(start: Ctx, mid: Ctx, remaining: Set<u32>)
    requires
        start.equals_asked(),
        start.tracked_by(remaining),
        start.grows_to(mid),
        forall|m: u32| #[trigger] remaining.contains(m) ==> mid.registered(m),
    ensures
        mid.all_registered(),
        start.no_equals() ==> mid.at_rest(),
{
    assert forall|m: u32, c: Con| #[trigger] mid.has(m, c) == start.has(m, c) by {}
    assert forall|m: u32, o: u32| #[trigger] mid.has(m, Con::Equal(o)) implies mid.eqs.contains(
        (m, o),
    ) by {
        assert(start.has(m, Con::Equal(o)));
        assert(remaining.contains(m));
        assert(mid.registered(m));
    }
    if start.no_equals() {
        lemma_rests(start, mid);
    }
}

/// The sums on what was solved still hold when equalities have been merged.
proof fn lemma_after_merging(start: Ctx, mid: Ctx, merged_state: Ctx, solved: Set<u32>)
    requires
        start.wf(),
        start.grows_to(mid),
        mid.wf(),
        mid.merges(merged_state, mid.eq_nodes),
        forall|m: u32| m < mid.fresh && (#[trigger] mid.look(m)) is Some ==> merged_state.look(m)
            == mid.look(m),
        forall|m: u32, r: Seq<char>, o: u32|
            solved.contains(m) && #[trigger] start.has(m, Con::Plus(r, o)) ==> mid.met(m, r, o),
        forall|m: u32| #[trigger] solved.contains(m) ==> start.cons.contains_key(m),
    ensures
        forall|m: u32, r: Seq<char>, o: u32|
            solved.contains(m) && #[trigger] merged_state.has(m, Con::Plus(r, o))
                ==> merged_state.met(m, r, o),
{
    assert forall|m: u32, r: Seq<char>, o: u32|
        solved.contains(m) && #[trigger] merged_state.has(
            m,
            Con::Plus(r, o),
        ) implies merged_state.met(m, r, o) by {
        assert(start.cons.contains_key(m));
        assert(m < start.fresh);
        assert(merged_state.cons.contains_key(m));
        assert(mid.has(m, Con::Plus(r, o)));
        assert(start.has(m, Con::Plus(r, o)));
        assert(mid.met(m, r, o));
        assert(merged_state.look(m) == mid.look(m));
        assert(merged_state.look(o) == mid.look(o));
    }
}

/// What is left of a problem that asks for no equality asks for none.
proof fn lemma_after_forgetting(merged_state: Ctx, end: Ctx, gone: Set<u32>)
    requires
        merged_state.settled(),
        merged_state.drops_to(end, gone),
    ensures
        end.settled(),
        gone == Set::<u32>::empty() ==> end == merged_state,
{
    assert forall|m: u32, c: Con| #[trigger] end.has(m, c) <==> merged_state.has(m, c)
        && !gone.contains(m) by {}
    if gone == Set::<u32>::empty() {
        assert(end.cons =~= merged_state.cons);
    }
}

/// Where something was solved and nothing was created, fewer are left.
proof fn lemma_fewer_left(remaining: Set<u32>, solved: Set<u32>, left: Set<u32>)
    requires
        remaining.finite(),
        left.subset_of(remaining),
        solved.subset_of(remaining),
        left.disjoint(solved),
        !solved.is_empty(),
    ensures
        left.len() < remaining.len(),
{
    let x = choose|x: u32| solved.contains(x);
    assert(solved.contains(x)) by {
        if forall|y: u32| !solved.contains(y) {
            assert(solved =~= Set::<u32>::empty());
        }
    }
    assert(left.subset_of(remaining.remove(x)));
    vstd::set_lib::lemma_len_subset(left, remaining.remove(x));
}

/// At the end, no constraints conflict.
proof fn lemma_no_conflict_at_end(end: Ctx, m: u32)
    requires
        end.finished(),
    ensures
        !end.conflicts(m),
{
    if end.conflicts(m) {
        let set = choose|set: Exts| #[trigger] end.own_value(m, set) && !end.fits(m, set);
        if end.look(m) is None {
            let (r, o) = choose|r: Seq<char>, o: u32| end.gives_value(m, r, o, set);
            assert(end.balanced(m, r, o));
        } else {
            assert forall|r: Seq<char>, o: u32| #[trigger]
                end.has(m, Con::Plus(r, o)) implies set.contains(r) && end.look(o) is Some && set
                == end.look(o)->0.insert(r) by {
                assert(end.balanced(m, r, o));
            }
        }
    }
}

/// At the end, trying to solve a metavariable changes nothing.
proof fn lemma_solves_at_end(end: Ctx, now: Ctx, m: u32)
    requires
        end.finished(),
        end.cons.contains_key(m),
        end.solves(now, m),
    ensures
        now == end,
{
    assert(end.root(m) == m);
    assert(now.solved =~= end.solved) by {
        assert forall|n: u32| now.solved.contains_key(n) implies end.solved.contains_key(n) by {
            if !end.solved.contains_key(n) {
                if end.look(m) is None {
                    assert forall|set: Exts| !#[trigger] end.own_value(m, set) by {
                        if end.own_value(m, set) {
                            let (r, o) = choose|r: Seq<char>, o: u32|
                                end.gives_value(m, r, o, set);
                            assert(end.balanced(m, r, o));
                        }
                    }
                } else if n != m {
                    let (r, o) = choose|r: Seq<char>, o: u32| #[trigger]
                        end.has(m, Con::Plus(r, o)) && end.root(o) == n;
                    assert(end.balanced(m, r, o));
                }
            }
        }
    }
    let others = equals_in(end.cons_of(m));
    assert forall|o: u32| !#[trigger] others.contains(o) by {
        assert(!end.has(m, Con::Equal(o)));
    }
    assert(now.eqs =~= end.eqs) by {
        assert forall|e: (u32, u32)| now.eqs.contains(e) <==> end.eqs.contains(e) by {
            assert(now.eqs.contains((e.0, e.1)) <==> end.eqs.contains((e.0, e.1)));
        }
    }
    assert(now.eq_nodes =~= end.eq_nodes);
}

/// At the end, trying to solve some metavariables changes nothing.
proof fn lemma_tries_at_end(end: Ctx, now: Ctx, order: Seq<u32>, solved: Set<u32>)
    requires
        end.finished(),
        end.tries(now, order, solved),
        forall|i: int| 0 <= i < order.len() ==> end.cons.contains_key(#[trigger] order[i]),
    ensures
        now == end,
        solved == Set::<u32>::empty(),
    decreases order.len(),
{
    if order.len() > 0 {
        let rest = order.drop_last();
        let (mid, known) = choose|mid: Ctx, known: Set<u32>|
            end.tries(mid, rest, known) && #[trigger] mid.tries_one(
                now,
                order.last(),
                known,
                solved,
            );
        assert forall|i: int| 0 <= i < rest.len() implies end.cons.contains_key(
            #[trigger] rest[i],
        ) by {
            assert(rest[i] == order[i]);
        }
        lemma_tries_at_end(end, mid, rest, known);
        assert(end.cons.contains_key(order[order.len() - 1]));
        lemma_solves_at_end(end, now, order.last());
    }
}

/// At the end, trying to solve all that carry constraints changes nothing.
proof fn lemma_tries_all_at_end(end: Ctx, now: Ctx, vars: Set<u32>, solved: Set<u32>)
    requires
        end.finished(),
        end.tries_all(now, vars, solved),
        forall|m: u32| #[trigger] vars.contains(m) ==> end.cons.contains_key(m),
    ensures
        now == end,
        solved == Set::<u32>::empty(),
{
    let order = choose|order: Seq<u32>| #[trigger]
        end.tries(now, order, solved) && order.no_duplicates() && order.to_set() == vars;
    assert forall|i: int| 0 <= i < order.len() implies end.cons.contains_key(
        #[trigger] order[i],
    ) by {
        assert(order.to_set().contains(order[i]));
    }
    lemma_tries_at_end(end, now, order, solved);
}

/// At the end, trying to solve what carries constraints does not fail.
proof fn lemma_no_failure_at_end(end: Ctx, vars: Set<u32>)
    requires
        end.finished(),
        forall|m: u32| #[trigger] vars.contains(m) ==> end.cons.contains_key(m),
    ensures
        forall|m: u32| !#[trigger] end.fails_at(vars, m),
{
    assert forall|m: u32| !#[trigger] end.fails_at(vars, m) by {
        if end.fails_at(vars, m) {
            let (mid, order, known) = choose|mid: Ctx, order: Seq<u32>, known: Set<u32>|
                {
                    &&& #[trigger] end.tries(mid, order, known)
                    &&& order.no_duplicates()
                    &&& order.to_set().subset_of(vars)
                    &&& vars.contains(m) && !order.contains(m)
                    &&& mid.conflicts(m)
                };
            assert forall|i: int| 0 <= i < order.len() implies end.cons.contains_key(
                #[trigger] order[i],
            ) by {
                assert(order.to_set().contains(order[i]));
            }
            lemma_tries_at_end(end, mid, order, known);
            lemma_no_conflict_at_end(end, m);
        }
    }
}

/// Where nothing asks for an equality, solving registers none.
proof fn lemma_rests(a: Ctx, b: Ctx)
    requires
        a.equals_asked(),
        a.no_equals(),
        a.grows_to(b),
    ensures
        b.at_rest(),
{
    assert forall|n: u32| #[trigger] b.eq_nodes.contains(n) implies b.shunted.contains_key(n) by {
        if !a.shunted.contains_key(n) {
            assert(a.asked_equal(n));
        }
    }
}

/// After a round, what is left to solve is again what carries constraints.
proof fn lemma_left(
    start: Ctx,
    mid: Ctx,
    merged_state: Ctx,
    end: Ctx,
    remaining: Set<u32>,
    solved: Set<u32>,
    merged: Set<u32>,
    created: Set<u32>,
    left: Set<u32>,
)
    requires
        start.wf(),
        mid.wf(),
        start.tracked_by(remaining),
        start.grows_to(mid),
        mid.merges(merged_state, mid.eq_nodes),
        tallied(mid, merged_state, mid.eq_nodes, merged, created),
        merged_state.wf(),
        merged_state.drops_to(end, solved),
        solved.subset_of(remaining),
        left.finite(),
        forall|m: u32| #[trigger]
            left.contains(m) <==> m < end.fresh && (remaining.contains(m) && !solved.contains(m)
                && !merged.contains(m) || created.contains(m)),
    ensures
        end.tracked_by(left),
{
    assert forall|m: u32| #[trigger] left.contains(m) implies end.cons.contains_key(m) by {
        if created.contains(m) {
            assert(merged_state.cons.contains_key(m));
            if solved.contains(m) {
                assert(start.cons.contains_key(m));
            }
        } else {
            assert(start.cons.contains_key(m));
            assert(m < mid.fresh);
            assert(!mid.shunted.contains_key(m));
            assert(mid.cons.contains_key(m));
            assert(!mid.eq_nodes.contains(m));
            assert(!merged_state.shunted.contains_key(m));
            assert(merged_state.cons.contains_key(m));
        }
    }
    assert forall|m: u32, c: Con| #[trigger] end.has(m, c) implies left.contains(m) by {
        assert(merged_state.has(m, c));
        assert(merged_state.cons.contains_key(m));
        if m < mid.fresh {
            assert(!merged_state.shunted.contains_key(m));
            assert(mid.has(m, c));
            assert(start.has(m, c));
        } else {
            assert(mid.brings(merged_state, mid.eq_nodes, m, c));
            let x = choose|x: u32| #[trigger]
                mid.goes_to(merged_state, mid.eq_nodes, x, m) && mid.has(x, c);
            assert(merged.contains(x) && merged_state.shunted[x] == m);
            assert(created.contains(m));
        }
    }
}

/// Without progress, nothing was left to be done.
proof fn lemma_no_progress(
    start: Ctx,
    mid: Ctx,
    merged_state: Ctx,
    end: Ctx,
    remaining: Set<u32>,
    merged: Set<u32>,
    created: Set<u32>,
)
    requires
        start.wf(),
        mid.wf(),
        start.equals_asked(),
        start.tracked_by(remaining),
        start.grows_to(mid),
        forall|m: u32, r: Seq<char>, o: u32|
            remaining.contains(m) && #[trigger] start.has(m, Con::Plus(r, o)) ==> mid.balanced(
                m,
                r,
                o,
            ),
        forall|m: u32| #[trigger] remaining.contains(m) ==> mid.registered(m),
        tallied(mid, merged_state, mid.eq_nodes, merged, created),
        mid.at_rest() ==> merged_state == mid,
        merged_state.drops_to(end, Set::empty()),
        merged.is_empty(),
    ensures
        end.saturated(),
{
    assert(mid.at_rest()) by {
        assert forall|n: u32| #[trigger] mid.eq_nodes.contains(n) implies mid.shunted.contains_key(
            n,
        ) by {
            if !start.shunted.contains_key(n) {
                assert(start.asked_equal(n));
                let (m, o) = choose|m: u32, o: u32| #[trigger]
                    start.has(m, Con::Equal(o)) && (n == m || n == o || n == start.root(o));
                assert(mid.has(m, Con::Equal(o)));
                assert(remaining.contains(m));
                assert(mid.eqs.contains((m, o)));
                assert(mid.eq_nodes.contains(m));
                assert(merged.contains(m));
            }
        }
    }
    assert(end.cons =~= merged_state.cons);
    assert forall|m: u32, r: Seq<char>, o: u32| #[trigger]
        end.has(m, Con::Plus(r, o)) implies end.balanced(m, r, o) by {
        assert(start.has(m, Con::Plus(r, o)));
    }
}

} // verus!
