//! Reading solutions off a unification that has come to its end.

use std::collections::HashSet;

use vstd::prelude::*;

use crate::extension_set::ExtensionSet;
use crate::hugr::Loc;
use crate::infer::context::{Constraint, UnificationContext, con_set};
use crate::infer::eq_graph::Meta;
use crate::infer::error::InferExtensionError;
use crate::infer::model::{Con, Ctx};
use crate::locations::{ExtensionSolution, LocMap, solution_sets};

verus! {

broadcast use vstd::std_specs::hash::group_hash_axioms;

impl Ctx {
    /// Whether some chain of dependencies leads from `m` to `x` and no further.
    pub open spec fn ends_loose(self, m: u32, x: u32) -> bool {
        exists|path: Seq<u32>| #[trigger] self.is_loose_end(path, m) && path.last() == x
    }

    /// Nothing asks for an equality.
    pub open spec fn no_equals(self) -> bool {
        forall|m: u32, o: u32| !#[trigger] self.has(m, Con::Equal(o))
    }

    /// No equality is asked for of what a chain of dependencies from `m` leads to.
    pub open spec fn clear_chains(self, m: u32) -> bool {
        forall|path: Seq<u32>, o: u32| #[trigger]
            self.is_dependency(path, m) && self.is_open(path.last()) ==> !#[trigger] self.has(
                self.root(path.last()),
                Con::Equal(o),
            )
    }

    /// No equality is asked for of what chains of dependencies from locations
    /// lead to.
    pub open spec fn clear_locations(self) -> bool {
        forall|loc: Loc| #[trigger]
            self.locs.contains_key(loc) ==> self.clear_chains(self.locs[loc])
    }

    /// Every location without a solution depends on what is known or a
    /// variable.
    pub open spec fn all_grounded(self) -> bool {
        forall|loc: Loc| #[trigger]
            self.locs.contains_key(loc) && self.look(self.locs[loc]) is None ==> self.grounded(
                self.locs[loc],
            )
    }

    /// Whether `err` reports a location without a solution that depends on
    /// neither.
    pub open spec fn leaves_unsolved(self, err: InferExtensionError) -> bool {
        match err {
            InferExtensionError::Unsolved { location } => {
                &&& self.locs.contains_key(location)
                &&& self.look(self.locs[location]) is None
                &&& self.loose(self.locs[location])
            },
            _ => false,
        }
    }
}

impl UnificationContext {
    /// What the dependencies of `m` lead to that is neither solved nor a variable:
    /// from each metavariable its first constraint is followed, `steps` times at
    /// most.
    pub open spec fn live_end(self, m: u32, steps: nat) -> Option<u32>
        decreases steps,
    {
        if !self@.is_open(m) {
            None
        } else if steps == 0 {
            Some(m)
        } else {
            match self.first(m) {
                Some(Con::Plus(_, o)) => self.live_end(o, (steps - 1) as nat),
                _ => Some(m),
            }
        }
    }

    /// What the dependencies of `m` lead to that is neither solved nor a variable,
    /// if not to what is. A chain that is longer than there are metavariables
    /// leads nowhere.
    pub open spec fn live(self, m: u32) -> Option<u32> {
        self.live_end(m, self@.fresh)
    }

    /// Whether a location has no solution, and does not depend on a variable
    /// either.
    pub open spec fn unsolved_at(self, loc: Loc) -> bool {
        self@.locs.contains_key(loc) && self.live(self@.locs[loc]) is Some
    }

    /// Get the live var associated with a meta: where it is neither solved nor
    /// a variable, what it depends on is followed until something is, in which
    /// case there is none, or until nothing is left to follow.
    pub fn live_var(&self, m: &Meta) -> (live: Option<Meta>)
        requires
            self@.in_range(),
            self@.clear_chains(m.0),
        ensures
            match live {
                Some(x) => self.live(m.0) == Some(x.0) && self@.ends_loose(m.0, x.0),
                None => self.live(m.0) is None && self@.grounded(m.0),
            },
    {
        let n = self.meta_count();
        let mut current: Meta = *m;
        let mut steps: u32 = 0;
        let ghost mut path: Seq<u32> = seq![m.0];
        loop
            invariant
                self@.in_range(),
                self@.clear_chains(m.0),
                n == self@.fresh,
                steps <= n,
                self.live_end(m.0, n as nat) == self.live_end(current.0, (n - steps) as nat),
                self@.is_dependency(path, m.0),
                path.last() == current.0,
                path.len() == steps + 1,
            decreases n - steps,
        {
            if self.is_variable(current) || self.is_variable(self.resolve(current)) {
                assert(!self@.is_open(path.last()));
                return None;
            }
            if self.get_solution(&current).is_some() {
                assert(!self@.is_open(path.last()));
                return None;
            }
            if steps == n {
                assert(self@.is_loose_end(path, m.0));
                return Some(current);
            }
            let next: Option<Meta> = match self.get_constraints(&current) {
                Some(list) => {
                    if list.len() == 0 {
                        proof {
                            assert forall|o: u32| !#[trigger] self@.depends(current.0, o) by {
                                if self@.depends(current.0, o) {
                                    let r = choose|r: Seq<char>|
                                        self@.has(self@.root(current.0), Con::Plus(r, o));
                                    assert(con_set(list@).contains(Con::Plus(r, o)));
                                }
                            }
                        }
                        None
                    } else {
                        assert(con_set(list@).contains(list@[0]@));
                        assert(self@.has(self@.root(current.0), list@[0]@));
                        match &list[0] {
                            Constraint::Plus(id, other) => {
                                assert(self@.has(
                                    self@.root(current.0),
                                    Con::Plus(id@, other.0),
                                ));
                                Some(*other)
                            },
                            Constraint::Equal(other) => {
                                assert(self@.is_dependency(path, m.0));
                                assert(!self@.has(
                                    self@.root(path.last()),
                                    Con::Equal(other.0),
                                ));
                                assert(false);
                                None
                            },
                        }
                    }
                },
                None => None,
            };
            match next {
                Some(other) => {
                    proof {
                        let longer = path.push(other.0);
                        assert forall|k: int| 0 <= k < longer.len() - 1 implies self@.is_open(
                            #[trigger] longer[k],
                        ) && self@.depends(longer[k], longer[k + 1]) by {
                            if k < path.len() - 1 {
                                assert(longer[k] == path[k]);
                                assert(longer[k + 1] == path[k + 1]);
                            }
                        }
                        path = longer;
                    }
                    current = other;
                    steps += 1;
                },
                None => {
                    assert(self@.is_loose_end(path, m.0));
                    return Some(current);
                },
            }
        }
    }

    /// Return the set of "live" metavariables in the context.
    /// "Live" here means a metavariable:
    ///   - Is associated to a location in the graph
    ///   - Is still unsolved
    ///   - Isn't a variable, and doesn't only depend on one
    pub fn live_metas(&self) -> (live: HashSet<u32>)
        requires
            self.ok(),
            self@.in_range(),
            self@.clear_locations(),
        ensures
            forall|x: u32| #[trigger]
                live@.contains(x) <==> exists|loc: Loc| #[trigger]
                    self.unsolved_at(loc) && self@.locs[loc] == x,
            forall|x: u32| #[trigger] live@.contains(x) ==> self@.is_open(x) && self@.loose(x),
            forall|loc: Loc| #[trigger]
                self@.locs.contains_key(loc) ==> live@.contains(self@.locs[loc]) || self@.grounded(
                    self@.locs[loc],
                ),
    {
        let n = self.loc_count();
        let mut live: HashSet<u32> = HashSet::new();
        let mut i: usize = 0;
        while i < n
            invariant
                self.ok(),
                self@.in_range(),
                self@.clear_locations(),
                n == self.loc_order().len(),
                i <= n,
                forall|x: u32| #[trigger]
                    live@.contains(x) ==> self@.is_open(x) && self@.loose(x) && exists|loc: Loc|
                        #[trigger]
                        self.unsolved_at(loc) && self@.locs[loc] == x,
                forall|j: int|
                    #![trigger self.loc_order()[j]]
                    0 <= j < i ==> {
                        let loc = self.loc_order()[j];
                        if self.unsolved_at(loc) {
                            live@.contains(self@.locs[loc])
                        } else {
                            self@.grounded(self@.locs[loc])
                        }
                    },
            decreases n - i,
        {
            let (loc, meta) = self.loc_at(i);
            match self.live_var(&meta) {
                Some(x) => {
                    live.insert(meta.0);
                    proof {
                        let path = choose|path: Seq<u32>| #[trigger]
                            self@.is_loose_end(path, meta.0) && path.last() == x.0;
                        assert(self@.loose(meta.0));
                        assert(self@.is_open(meta.0));
                        assert(self.unsolved_at(loc));
                    }
                },
                None => {},
            }
            i += 1;
        }
        proof {
            self.lemma_loc_order();
            assert forall|loc: Loc| #[trigger] self@.locs.contains_key(loc) implies (
            self.unsolved_at(loc) ==> live@.contains(self@.locs[loc])) && (live@.contains(
                self@.locs[loc],
            ) || self@.grounded(self@.locs[loc])) by {
                let j = choose|j: int| 0 <= j < n && self.loc_order()[j] == loc;
                assert(self.loc_order()[j] == loc);
            }
        }
        live
    }

    /// Tries to return concrete extensions for each node in the graph. This only
    /// works when there are no variables in the graph!
    ///
    /// What we really want is to give the concrete extensions where they're
    /// available. When there are variables, we should leave the graph as it is,
    /// but make sure that no matter what they're instantiated to, the graph
    /// still makes sense (should pass the extension validation check)
    pub fn results(&self) -> (result: Result<ExtensionSolution, InferExtensionError>)
        requires
            self.ok(),
            self@.in_range(),
            self@.clear_locations(),
        ensures
            result is Err <==> exists|loc: Loc| self.unsolved_at(loc),
            match result {
                Ok(solution) => {
                    &&& solution.wf()
                    &&& solution_sets(solution@) == self@.found()
                    &&& self@.all_grounded()
                },
                Err(err) => {
                    &&& err matches InferExtensionError::Unsolved { location }
                    &&& self.unsolved_at(location)
                    &&& self@.leaves_unsolved(err)
                },
            },
    {
        // Check that all of the metavariables associated with nodes of the
        // graph are solved
        let n = self.loc_count();
        let mut results: ExtensionSolution = LocMap::new();
        let ghost ctx = self@;
        let mut i: usize = 0;
        while i < n
            invariant
                self.ok(),
                ctx == self@,
                ctx.in_range(),
                ctx.clear_locations(),
                n == self.loc_order().len(),
                i <= n,
                results.wf(),
                forall|loc: Loc| #[trigger]
                    results@.contains_key(loc) ==> ctx.found().contains_key(loc) && results@[loc]@
                        == ctx.found()[loc],
                forall|j: int|
                    #![trigger self.loc_order()[j]]
                    0 <= j < i && ctx.found().contains_key(self.loc_order()[j])
                        ==> results@.contains_key(self.loc_order()[j]),
                forall|j: int|
                    #![trigger self.loc_order()[j]]
                    0 <= j < i && ctx.look(ctx.locs[self.loc_order()[j]]) is None ==> ctx.grounded(
                        ctx.locs[self.loc_order()[j]],
                    ),
                forall|j: int|
                    #![trigger self.loc_order()[j]]
                    0 <= j < i ==> !self.unsolved_at(self.loc_order()[j]),
            decreases n - i,
        {
            let (loc, meta) = self.loc_at(i);
            let solution: Option<ExtensionSet> = match self.get_solution(&meta) {
                Some(rs) => Some(rs.clone()),
                None => None,
            };
            match solution {
                Some(rs) => {
                    assert(ctx.found().contains_key(loc));
                    results.insert(loc, rs);
                },
                None => {
                    // If it depends on some other live meta, that's bad news.
                    // If it only depends on graph variables, then we don't have
                    // a *solution*, but it's fine
                    match self.live_var(&meta) {
                        Some(x) => {
                            proof {
                                let path = choose|path: Seq<u32>| #[trigger]
                                    ctx.is_loose_end(path, meta.0) && path.last() == x.0;
                                assert(ctx.loose(meta.0));
                                assert(self.unsolved_at(loc));
                            }
                            return Err(InferExtensionError::Unsolved { location: loc });
                        },
                        None => {},
                    }
                },
            }
            i += 1;
        }
        proof {
            self.lemma_loc_order();
            assert forall|loc: Loc| solution_sets(results@).contains_key(loc)
                <==> ctx.found().contains_key(loc) by {
                if ctx.found().contains_key(loc) {
                    assert(ctx.locs.contains_key(loc));
                    let j = choose|j: int| 0 <= j < n && self.loc_order()[j] == loc;
                    assert(results@.contains_key(self.loc_order()[j]));
                }
                if solution_sets(results@).contains_key(loc) {
                    assert(results@.contains_key(loc));
                }
            }
            assert forall|loc: Loc| #[trigger]
                solution_sets(results@).contains_key(loc) implies solution_sets(results@)[loc]
                == ctx.found()[loc] by {
                assert(results@.contains_key(loc));
            }
            assert(solution_sets(results@) =~= ctx.found());
            assert forall|loc: Loc| !self.unsolved_at(loc) by {
                if self.unsolved_at(loc) {
                    let j = choose|j: int| 0 <= j < n && self.loc_order()[j] == loc;
                    assert(!self.unsolved_at(self.loc_order()[j]));
                }
            }
            assert forall|loc: Loc| #[trigger]
                ctx.locs.contains_key(loc) && ctx.look(
                    ctx.locs[loc],
                ) is None implies ctx.grounded(ctx.locs[loc]) by {
                let j = choose|j: int| 0 <= j < n && self.loc_order()[j] == loc;
                assert(ctx.look(ctx.locs[self.loc_order()[j]]) is None);
            }
        }
        Ok(results)
    }
}

/// What dependencies lead to depends on what is known and on which constraints
/// come first.
proof fn lemma_live_like(a: UnificationContext, b: UnificationContext, m: u32, steps: nat)
    requires
        a@ == b@,
        a.keeps_firsts(b),
    ensures
        a.live_end(m, steps) == b.live_end(m, steps),
    decreases steps,
{
    assert(b.first(m) == a.first(m));
    if steps > 0 {
        if let Some(Con::Plus(_, o)) = a.first(m) {
            lemma_live_like(a, b, o, (steps - 1) as nat);
        }
    }
}

/// Which locations are unsolved depends on what is known and on which
/// constraints come first.
pub(crate) proof fn lemma_unsolved_like(a: UnificationContext, b: UnificationContext, loc: Loc)
    requires
        a@ == b@,
        a.keeps_firsts(b),
    ensures
        a.unsolved_at(loc) == b.unsolved_at(loc),
{
    lemma_live_like(a, b, a@.locs[loc], a@.fresh);
}

} // verus!
