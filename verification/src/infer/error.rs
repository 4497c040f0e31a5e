//! What can go wrong in inference.

use vstd::prelude::*;

use crate::extension_set::{ExtensionSet, Exts};
use crate::hugr::{Direction, Loc};
use crate::infer::model::{Con, Ctx};
use crate::validate::ExtensionError;

verus! {

/// Errors which arise during unification
#[derive(Debug, PartialEq)]
pub enum InferExtensionError {
    /// We've solved a metavariable, then encountered a constraint
    /// that says it should be something other than our solution
    MismatchedConcrete {
        /// The solution we were trying to insert for this meta
        expected: ExtensionSet,
        /// The incompatible solution that we found was already there
        actual: ExtensionSet,
    },
    /// A version of the above with info about which nodes failed to unify
    MismatchedConcreteWithLocations {
        /// Where the solution we want to insert came from
        expected_loc: Loc,
        /// The solution we were trying to insert for this meta
        expected: ExtensionSet,
        /// Which node we're trying to add a solution for
        actual_loc: Loc,
        /// The incompatible solution that we found was already there
        actual: ExtensionSet,
    },
    /// A variable went unsolved that wasn't related to a parameter
    Unsolved {
        /// The location that's associated to the unsolved meta
        location: Loc,
    },
    /// An extension mismatch between two nodes which are connected by an edge.
    EdgeMismatch(ExtensionError),
}

impl InferExtensionError {
    /// Whether two errors are of the same kind and speak of the same locations
    /// and sets.
    pub open spec fn same(self, other: InferExtensionError) -> bool {
        match (self, other) {
            (
                InferExtensionError::MismatchedConcrete { expected: e1, actual: a1 },
                InferExtensionError::MismatchedConcrete { expected: e2, actual: a2 },
            ) => e1@ == e2@ && a1@ == a2@,
            (
                InferExtensionError::MismatchedConcreteWithLocations {
                    expected_loc: l1,
                    expected: e1,
                    actual_loc: k1,
                    actual: a1,
                },
                InferExtensionError::MismatchedConcreteWithLocations {
                    expected_loc: l2,
                    expected: e2,
                    actual_loc: k2,
                    actual: a2,
                },
            ) => l1 == l2 && e1@ == e2@ && k1 == k2 && a1@ == a2@,
            (
                InferExtensionError::Unsolved { location: l1 },
                InferExtensionError::Unsolved { location: l2 },
            ) => l1 == l2,
            (InferExtensionError::EdgeMismatch(e1), InferExtensionError::EdgeMismatch(e2)) =>
            e1.same(e2),
            _ => false,
        }
    }
}

impl Clone for InferExtensionError {
    fn clone(&self) -> (copy: InferExtensionError)
        ensures
            self.same(copy),
    {
        match self {
            InferExtensionError::MismatchedConcrete {
                expected,
                actual,
            } => InferExtensionError::MismatchedConcrete {
                expected: expected.clone(),
                actual: actual.clone(),
            },
            InferExtensionError::MismatchedConcreteWithLocations {
                expected_loc,
                expected,
                actual_loc,
                actual,
            } => InferExtensionError::MismatchedConcreteWithLocations {
                expected_loc: *expected_loc,
                expected: expected.clone(),
                actual_loc: *actual_loc,
                actual: actual.clone(),
            },
            InferExtensionError::Unsolved { location } => InferExtensionError::Unsolved {
                location: *location,
            },
            InferExtensionError::EdgeMismatch(edge) => InferExtensionError::EdgeMismatch(
                edge.clone(),
            ),
        }
    }
}

impl From<ExtensionError> for InferExtensionError {
    fn from(err: ExtensionError) -> (result: InferExtensionError) {
        InferExtensionError::EdgeMismatch(err)
    }
}

impl vstd::std_specs::convert::FromSpecImpl<ExtensionError> for InferExtensionError {
    open spec fn obeys_from_spec() -> bool {
        true
    }

    open spec fn from_spec(err: ExtensionError) -> InferExtensionError {
        InferExtensionError::EdgeMismatch(err)
    }
}

/// Whether two locations can be the two ends of one edge: they are on
/// different sides of different nodes.
pub open spec fn may_be_ends(loc1: Loc, loc2: Loc) -> bool {
    loc1.1 != loc2.1 && loc1.0 != loc2.0
}

/// Whether `err` says of two ends of an edge which of them asks for more.
pub open spec fn tells_edge(
    err: ExtensionError,
    src: Loc,
    src_exts: Exts,
    tgt: Loc,
    tgt_exts: Exts,
) -> bool {
    match err {
        ExtensionError::TgtExceedsSrcExtensions {
            from,
            from_offset,
            from_extensions,
            to,
            to_offset,
            to_extensions,
        } => {
            &&& src_exts.subset_of(tgt_exts)
            &&& from == src.0 && to == tgt.0
            &&& from_offset is None && to_offset is None
            &&& from_extensions@ == src_exts && to_extensions@ == tgt_exts
        },
        ExtensionError::SrcExceedsTgtExtensions {
            from,
            from_offset,
            from_extensions,
            to,
            to_offset,
            to_extensions,
        } => {
            &&& !src_exts.subset_of(tgt_exts)
            &&& from == src.0 && to == tgt.0
            &&& from_offset is None && to_offset is None
            &&& from_extensions@ == src_exts && to_extensions@ == tgt_exts
        },
        _ => false,
    }
}

/// Whether `err` is the report that sets `exts1` at `loc1` and `exts2` at
/// `loc2` differ, where a location may be unknown. Two locations that are the
/// ends of one edge, which `wired` tells, are reported as such.
pub open spec fn tells_mismatch(
    err: InferExtensionError,
    loc1: Option<Loc>,
    loc2: Option<Loc>,
    wired: bool,
    exts1: Exts,
    exts2: Exts,
) -> bool {
    match (loc1, loc2) {
        (Some(l1), Some(l2)) => if wired {
            match err {
                InferExtensionError::EdgeMismatch(edge) => if l2.1 == Direction::Incoming {
                    tells_edge(edge, l1, exts1, l2, exts2)
                } else {
                    tells_edge(edge, l2, exts2, l1, exts1)
                },
                _ => false,
            }
        } else {
            match err {
                InferExtensionError::MismatchedConcreteWithLocations {
                    expected_loc,
                    expected,
                    actual_loc,
                    actual,
                } => expected_loc == l1 && expected@ == exts1 && actual_loc == l2 && actual@
                    == exts2,
                _ => false,
            }
        },
        _ => match err {
            InferExtensionError::MismatchedConcrete { expected, actual } => expected@ == exts1
                && actual@ == exts2,
            _ => false,
        },
    }
}

/// The report that `rs1` at `loc1` and `rs2` at `loc2` differ, where `wired`
/// tells whether the two locations are the ends of one edge.
pub fn mismatch_error(
    loc1: Option<Loc>,
    loc2: Option<Loc>,
    wired: bool,
    rs1: ExtensionSet,
    rs2: ExtensionSet,
) -> (err: InferExtensionError)
    ensures
        tells_mismatch(err, loc1, loc2, wired, rs1@, rs2@),
{
    match (loc1, loc2) {
        (Some(l1), Some(l2)) => {
            if wired {
                let (src, src_rs, tgt, tgt_rs) = if l2.1 == Direction::Incoming {
                    (l1.0, rs1, l2.0, rs2)
                } else {
                    (l2.0, rs2, l1.0, rs1)
                };
                if src_rs.is_subset(&tgt_rs) {
                    InferExtensionError::EdgeMismatch(
                        ExtensionError::TgtExceedsSrcExtensions {
                            from: src,
                            from_offset: None,
                            from_extensions: src_rs,
                            to: tgt,
                            to_offset: None,
                            to_extensions: tgt_rs,
                        },
                    )
                } else {
                    InferExtensionError::EdgeMismatch(
                        ExtensionError::SrcExceedsTgtExtensions {
                            from: src,
                            from_offset: None,
                            from_extensions: src_rs,
                            to: tgt,
                            to_offset: None,
                            to_extensions: tgt_rs,
                        },
                    )
                }
            } else {
                InferExtensionError::MismatchedConcreteWithLocations {
                    expected_loc: l1,
                    expected: rs1,
                    actual_loc: l2,
                    actual: rs2,
                }
            }
        },
        _ => InferExtensionError::MismatchedConcrete { expected: rs1, actual: rs2 },
    }
}

impl Ctx {
    /// Whether the metavariable of `loc` is `m` or has become `m`.
    pub open spec fn stands_at(self, m: u32, loc: Loc) -> bool {
        self.locs.contains_key(loc) && (self.locs[loc] == m || self.root(self.locs[loc]) == m)
    }

    /// Whether `loc` is a location of `m`, or unknown as there is none.
    pub open spec fn located(self, m: u32, loc: Option<Loc>) -> bool {
        match loc {
            Some(l) => self.stands_at(m, l),
            None => forall|l: Loc| !#[trigger] self.stands_at(m, l),
        }
    }

    /// Whether an equality is recorded, as a constraint or as registered, by
    /// which the first has the same value as the second.
    pub open spec fn recorded(self, m: u32, o: u32) -> bool {
        self.has(m, Con::Equal(o)) || self.eqs.contains((m, o))
    }

    /// Whether an equality of the location `src` with the location `tgt` is
    /// recorded.
    pub open spec fn recorded_at(self, src: Loc, tgt: Loc) -> bool {
        &&& self.locs.contains_key(src)
        &&& self.locs.contains_key(tgt)
        &&& self.recorded(self.locs[src], self.locs[tgt])
    }

    /// Whether a wire leads from `src`, the outgoing side of a node, to `tgt`, the
    /// incoming side of another: an equality of the two is recorded, and not one
    /// of the incoming side of the first node as well. The latter are recorded
    /// together of the input node of a region and the node that holds it.
    pub open spec fn is_wire(self, src: Loc, tgt: Loc) -> bool {
        self.recorded_at(src, tgt) && !self.recorded_at((src.0, Direction::Incoming), tgt)
    }

    /// Whether two locations are the two ends of one wire.
    pub open spec fn are_ends(self, loc1: Loc, loc2: Loc) -> bool {
        &&& may_be_ends(loc1, loc2)
        &&& if loc2.1 == Direction::Incoming {
            self.is_wire(loc1, loc2)
        } else {
            self.is_wire(loc2, loc1)
        }
    }

    /// Whether both locations are known, and are the ends of one wire.
    pub open spec fn wired(self, loc1: Option<Loc>, loc2: Option<Loc>) -> bool {
        match (loc1, loc2) {
            (Some(l1), Some(l2)) => self.are_ends(l1, l2),
            _ => false,
        }
    }

    /// Whether `err` reports that sets `exts1` and `exts2`, which belong to
    /// `m1` and `m2`, differ.
    pub open spec fn reports(
        self,
        err: InferExtensionError,
        m1: u32,
        m2: u32,
        exts1: Exts,
        exts2: Exts,
    ) -> bool {
        exists|loc1: Option<Loc>, loc2: Option<Loc>| #[trigger]
            self.located(m1, loc1) && #[trigger] self.located(m2, loc2) && tells_mismatch(
                err,
                loc1,
                loc2,
                self.wired(loc1, loc2),
                exts1,
                exts2,
            )
    }

    /// Whether the solutions for `m` and `o` contradict the constraint that `m`
    /// is `o` with `r`, and `err` reports it.
    pub open spec fn plus_clash(
        self,
        err: InferExtensionError,
        m: u32,
        r: Seq<char>,
        o: u32,
    ) -> bool {
        &&& self.has(m, Con::Plus(r, o))
        &&& self.look(m) is Some
        &&& self.look(o) is Some
        &&& self.look(m)->0 != self.look(o)->0.insert(r)
        &&& self.reports(err, m, o, self.look(m)->0, self.look(o)->0.insert(r))
    }

    /// Whether the solution for `m` lacks `r`, though it should be that for `o`
    /// with `r`, and `err` reports it.
    pub open spec fn lack_clash(
        self,
        err: InferExtensionError,
        m: u32,
        r: Seq<char>,
        o: u32,
    ) -> bool {
        &&& self.has(m, Con::Plus(r, o))
        &&& self.look(m) is Some
        &&& self.look(o) is None
        &&& !self.look(m)->0.contains(r)
        &&& self.reports(err, m, o, self.look(m)->0, self.look(m)->0.insert(r))
    }

    /// Whether the constraint that `m` is `o` with `r` contradicts what is known,
    /// and `err` reports it.
    pub open spec fn sum_clash(
        self,
        err: InferExtensionError,
        m: u32,
        r: Seq<char>,
        o: u32,
    ) -> bool {
        self.plus_clash(err, m, r, o) || self.lack_clash(err, m, r, o)
    }

    /// Whether a constraint on `m` contradicts what is known, and `err` reports
    /// it.
    pub open spec fn own_clash(self, err: InferExtensionError, m: u32) -> bool {
        exists|r: Seq<char>, o: u32| self.sum_clash(err, m, r, o)
    }

    /// Whether `m` would have to be merged into `c` but has another solution,
    /// and `err` reports it.
    pub open spec fn join_clash(self, err: InferExtensionError, k: u32, m: u32, c: u32) -> bool {
        &&& self.joinable(k, m, c)
        &&& self.solved.contains_key(m)
        &&& self.solved.contains_key(c)
        &&& self.solved[m] != self.solved[c]
        &&& self.reports(err, m, c, self.solved[m], self.solved[c])
    }

    /// Whether two things that are known contradict each other, and `err`
    /// reports it.
    pub open spec fn clash(self, err: InferExtensionError) -> bool {
        ||| exists|m: u32| self.own_clash(err, m)
        ||| exists|k: u32, m: u32, c: u32| self.join_clash(err, k, m, c)
    }
}

} // verus!
