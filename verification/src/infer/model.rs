//! The mathematical model of a unification problem, and what it means for one
//! problem to be a step on from another.

use vstd::prelude::*;

use crate::extension_set::Exts;
use crate::hugr::Loc;
use crate::infer::eq_graph::{is_link_path, linked};

verus! {

/// Things we know about metavariables.
pub enum Con {
    /// A variable has the same value as another variable.
    Equal(u32),
    /// A variable extends the value of another by one extension.
    Plus(Seq<char>, u32),
}

/// A unification problem.
#[verifier::ext_equal]
pub struct Ctx {
    /// The constraints on each metavariable that is still of interest.
    pub cons: Map<u32, Set<Con>>,
    /// The metavariable of each location.
    pub locs: Map<Loc, u32>,
    /// The solutions found so far.
    pub solved: Map<u32, Exts>,
    /// The metavariable that each merged metavariable was merged into.
    pub shunted: Map<u32, u32>,
    /// The metavariables that may stay without a solution.
    pub vars: Set<u32>,
    /// The number of metavariables made so far.
    pub fresh: nat,
    /// The equalities that have been registered for merging.
    pub eqs: Set<(u32, u32)>,
    /// The metavariables that take part in registered equalities.
    pub eq_nodes: Set<u32>,
}

/// Metavariables are only ever merged into newer ones.
pub open spec fn shunts_forward(shunted: Map<u32, u32>) -> bool {
    forall|m: u32| #[trigger] shunted.contains_key(m) ==> m < shunted[m]
}

/// The metavariable that `m` has become through merging.
pub open spec fn root(shunted: Map<u32, u32>, m: u32) -> u32
    decreases u32::MAX - m,
{
    if shunted.contains_key(m) && m < shunted[m] {
        root(shunted, shunted[m])
    } else {
        m
    }
}

/// For each metavariable, a set of values that it may take.
pub type Rel = spec_fn(u32) -> Set<Exts>;

/// Whether no metavariable may take two values.
pub open spec fn functional(rel: Rel) -> bool {
    forall|m: u32, a: Exts, b: Exts| #[trigger]
        rel(m).contains(a) && #[trigger] rel(m).contains(b) ==> a == b
}

/// Whether two relations agree on the first `n` metavariables.
pub open spec fn agree_below(n: nat, a: Rel, b: Rel) -> bool {
    forall|m: u32| m < n ==> #[trigger] a(m) == b(m)
}

impl Ctx {
    /// The metavariable that `m` has become through merging.
    pub open spec fn root(self, m: u32) -> u32 {
        root(self.shunted, m)
    }

    /// The solution for `m`, or for what it has become.
    pub open spec fn look(self, m: u32) -> Option<Exts> {
        if self.solved.contains_key(self.root(m)) {
            Some(self.solved[self.root(m)])
        } else {
            None
        }
    }

    /// Whether `c` is a constraint on `m`.
    pub open spec fn has(self, m: u32, c: Con) -> bool {
        self.cons.contains_key(m) && self.cons[m].contains(c)
    }

    /// The solutions for `m` and `o` are known, and that for `m` is that for `o`
    /// with `r` added.
    pub open spec fn met(self, m: u32, r: Seq<char>, o: u32) -> bool {
        &&& self.look(m) is Some
        &&& self.look(o) is Some
        &&& self.look(m)->0 == self.look(o)->0.insert(r)
    }

    /// Only metavariables that were made are spoken of, and what was merged
    /// away carries no constraints and is no variable.
    pub open spec fn in_range(self) -> bool {
        &&& self.fresh <= u32::MAX
        &&& shunts_forward(self.shunted)
        &&& forall|m: u32| #[trigger]
            self.shunted.contains_key(m) ==> self.shunted[m] < self.fresh
        &&& forall|m: u32| #[trigger]
            self.cons.contains_key(m) ==> m < self.fresh && !self.shunted.contains_key(m)
        &&& forall|m: u32, o: u32| #[trigger] self.has(m, Con::Equal(o)) ==> o < self.fresh
        &&& forall|m: u32, r: Seq<char>, o: u32| #[trigger]
            self.has(m, Con::Plus(r, o)) ==> o < self.fresh
        &&& forall|loc: Loc| #[trigger]
            self.locs.contains_key(loc) ==> self.locs[loc] < self.fresh
        &&& forall|m: u32| #[trigger] self.solved.contains_key(m) ==> m < self.fresh
        &&& forall|m: u32| #[trigger]
            self.vars.contains(m) ==> m < self.fresh && !self.shunted.contains_key(m)
        &&& forall|m: u32| #[trigger] self.eq_nodes.contains(m) ==> m < self.fresh
        &&& forall|a: u32, b: u32| #[trigger]
            self.eqs.contains((a, b)) ==> self.eq_nodes.contains(a) && self.eq_nodes.contains(b)
    }

    /// Both sides of a registered equality have become one, or a chain of
    /// registered equalities relates what they have become.
    pub open spec fn eqs_in_step(self) -> bool {
        forall|a: u32, b: u32| #[trigger]
            self.eqs.contains((a, b)) ==> {
                ||| self.root(a) == self.root(b)
                ||| {
                    &&& self.eq_nodes.contains(self.root(a))
                    &&& self.eq_nodes.contains(self.root(b))
                    &&& linked(self.eqs, self.root(a), self.root(b))
                }
            }
    }

    /// What every operation on a unification problem keeps.
    pub open spec fn wf(self) -> bool {
        self.in_range() && self.eqs_in_step()
    }

    /// Every constraint of equality has been registered.
    pub open spec fn all_registered(self) -> bool {
        forall|m: u32, o: u32| #[trigger] self.has(m, Con::Equal(o)) ==> self.eqs.contains((m, o))
    }

    /// Every registered equality has been merged.
    pub open spec fn at_rest(self) -> bool {
        forall|m: u32| #[trigger] self.eq_nodes.contains(m) ==> self.shunted.contains_key(m)
    }

    /// No equality is left to be registered or merged.
    pub open spec fn settled(self) -> bool {
        &&& forall|m: u32, o: u32| !#[trigger] self.has(m, Con::Equal(o))
        &&& self.at_rest()
    }

    /// Under a constraint that `m` is `o` with `r`, neither has a solution, or
    /// both have and the constraint holds of them.
    pub open spec fn balanced(self, m: u32, r: Seq<char>, o: u32) -> bool {
        match (self.look(m), self.look(o)) {
            (None, None) => true,
            (Some(upper), Some(lower)) => upper == lower.insert(r),
            _ => false,
        }
    }

    /// No constraint tells anything that is not known.
    pub open spec fn saturated(self) -> bool {
        forall|m: u32, r: Seq<char>, o: u32| #[trigger]
            self.has(m, Con::Plus(r, o)) ==> self.balanced(m, r, o)
    }

    /// The solutions found for locations.
    pub open spec fn found(self) -> Map<Loc, Exts> {
        Map::new(
            |loc: Loc| self.locs.contains_key(loc) && self.look(self.locs[loc]) is Some,
            |loc: Loc| self.look(self.locs[loc])->0,
        )
    }

    /// Whether `m` has no solution and is no variable.
    pub open spec fn is_open(self, m: u32) -> bool {
        &&& self.look(m) is None
        &&& !self.vars.contains(m)
        &&& !self.vars.contains(self.root(m))
    }

    /// Whether some constraint makes the value of `m` depend on that of `o`.
    pub open spec fn depends(self, m: u32, o: u32) -> bool {
        exists|r: Seq<char>| self.has(self.root(m), Con::Plus(r, o))
    }

    /// Whether `path` starts at `m` and each of its metavariables but the last
    /// is open and depends on the next.
    pub open spec fn is_dependency(self, path: Seq<u32>, m: u32) -> bool {
        &&& path.len() > 0
        &&& path[0] == m
        &&& forall|k: int|
            0 <= k < path.len() - 1 ==> self.is_open(#[trigger] path[k]) && self.depends(
                path[k],
                path[k + 1],
            )
    }

    /// Whether some chain of dependencies leads from `m` to a metavariable that
    /// is solved or a variable.
    pub open spec fn grounded(self, m: u32) -> bool {
        exists|path: Seq<u32>| #[trigger]
            self.is_dependency(path, m) && !self.is_open(path.last())
    }

    /// Whether `path` leads from `m` to an open metavariable and ends there, as
    /// that depends on nothing, or is longer than there are metavariables.
    pub open spec fn is_loose_end(self, path: Seq<u32>, m: u32) -> bool {
        &&& self.is_dependency(path, m)
        &&& self.is_open(path.last())
        &&& path.len() > self.fresh || forall|o: u32| !#[trigger] self.depends(path.last(), o)
    }

    /// Whether some chain of dependencies leads from `m` nowhere.
    pub open spec fn loose(self, m: u32) -> bool {
        exists|path: Seq<u32>| self.is_loose_end(path, m)
    }

    /// The values that `rel` allows contain the known solutions and all that
    /// follows from them: along an equality in both directions, along a `Plus`
    /// by adding the extension, against it by taking it away.
    pub open spec fn closed(self, rel: Rel) -> bool {
        &&& forall|m: u32, o: u32| #[trigger] self.has(m, Con::Equal(o)) ==> rel(m) == rel(o)
        &&& forall|m: u32, r: Seq<char>, o: u32| #[trigger]
            self.has(m, Con::Plus(r, o)) ==> plus_closed(rel(m), r, rel(o))
        &&& forall|m: u32| #[trigger]
            self.solved.contains_key(m) ==> rel(m).contains(self.solved[m])
        &&& forall|m: u32| #[trigger]
            self.shunted.contains_key(m) ==> rel(m) == rel(self.shunted[m])
        &&& forall|a: u32, b: u32| #[trigger] self.eqs.contains((a, b)) ==> rel(a) == rel(b)
    }

    /// No relation that holds the known solutions and what follows from them
    /// gives one value to each metavariable.
    pub open spec fn contradictory(self) -> bool {
        forall|rel: Rel| #[trigger] self.closed(rel) ==> !functional(rel)
    }

    /// `later` allows for at least what `rel` allows for in `self`.
    pub open spec fn carries(self, later: Ctx, rel: Rel) -> bool {
        exists|wider: Rel|
            {
                &&& #[trigger] later.closed(wider)
                &&& agree_below(self.fresh, rel, wider)
                &&& functional(rel) ==> functional(wider)
            }
    }

    /// Known solutions stay as they are, and merging is never undone.
    pub open spec fn keeps_solutions(self, later: Ctx) -> bool {
        &&& forall|m: u32| #[trigger]
            self.shunted.contains_key(m) ==> later.shunted.contains_key(m)
        &&& forall|m: u32| m < self.fresh ==> #[trigger] later.root(self.root(m)) == later.root(m)
        &&& forall|m: u32|
            m < self.fresh && (#[trigger] self.look(m)) is Some ==> later.look(m) == self.look(m)
    }

    /// Every constraint is still there for what its metavariable has become, or
    /// has been met.
    pub open spec fn keeps_constraints(self, later: Ctx) -> bool {
        &&& forall|m: u32, r: Seq<char>, o: u32| #[trigger]
            self.has(m, Con::Plus(r, o)) ==> later.has(later.root(m), Con::Plus(r, o)) || later.met(
                m,
                r,
                o,
            )
        &&& forall|m: u32, o: u32| #[trigger]
            self.has(m, Con::Equal(o)) ==> later.has(m, Con::Equal(o)) || later.eqs.contains((m, o))
        &&& self.eqs.subset_of(later.eqs)
    }

    /// The variables are what the variables have become.
    pub open spec fn keeps_vars(self, later: Ctx) -> bool {
        &&& forall|v: u32| #[trigger] self.vars.contains(v) ==> later.vars.contains(later.root(v))
        &&& forall|w: u32| #[trigger]
            later.vars.contains(w) ==> exists|v: u32|
                self.vars.contains(v) && #[trigger] later.root(v) == w
    }

    /// `later` is a step on from `self`: nothing that was known is lost, and
    /// nothing is concluded that does not follow.
    pub open spec fn refines(self, later: Ctx) -> bool {
        &&& self.fresh <= later.fresh
        &&& self.locs == later.locs
        &&& self.keeps_solutions(later)
        &&& self.keeps_constraints(later)
        &&& self.keeps_vars(later)
        &&& forall|rel: Rel| #[trigger] self.closed(rel) ==> self.carries(later, rel)
    }
}

/// Values of a metavariable and of the one that it extends by `r` follow from
/// each other.
pub open spec fn plus_closed(upper: Set<Exts>, r: Seq<char>, lower: Set<Exts>) -> bool {
    &&& forall|s: Exts| #[trigger] lower.contains(s) ==> upper.contains(s.insert(r))
    &&& forall|s: Exts| #[trigger] upper.contains(s) ==> lower.contains(s.remove(r))
}

/// What a metavariable has become has not been merged, and is not older.
pub proof fn lemma_root(shunted: Map<u32, u32>, m: u32)
    requires
        shunts_forward(shunted),
    ensures
        !shunted.contains_key(root(shunted, m)),
        m <= root(shunted, m),
        shunted.contains_key(m) ==> m < root(shunted, m),
        root(shunted, root(shunted, m)) == root(shunted, m),
    decreases u32::MAX - m,
{
    if shunted.contains_key(m) {
        lemma_root(shunted, shunted[m]);
    }
}

/// What a metavariable has become was made.
pub proof fn lemma_root_bound(ctx: Ctx, m: u32)
    requires
        ctx.in_range(),
        m < ctx.fresh,
    ensures
        ctx.root(m) < ctx.fresh,
    decreases u32::MAX - m,
{
    if ctx.shunted.contains_key(m) {
        lemma_root_bound(ctx, ctx.shunted[m]);
    }
}

/// Merging `k` into the new `c` turns what had become `k` into `c`, and
/// leaves the rest.
pub proof fn lemma_root_insert(shunted: Map<u32, u32>, k: u32, c: u32, m: u32)
    requires
        shunts_forward(shunted),
        !shunted.contains_key(k),
        !shunted.contains_key(c),
        k < c,
    ensures
        root(shunted.insert(k, c), m) == (if root(shunted, m) == k {
            c
        } else {
            root(shunted, m)
        }),
    decreases u32::MAX - m,
{
    let after = shunted.insert(k, c);
    if m == k {
        assert(root(after, c) == c);
    } else if shunted.contains_key(m) {
        lemma_root_insert(shunted, k, c, shunted[m]);
    }
}

/// A metavariable has the values of what it has become.
pub proof fn lemma_closed_root(ctx: Ctx, rel: Rel, m: u32)
    requires
        ctx.closed(rel),
        shunts_forward(ctx.shunted),
    ensures
        rel(ctx.root(m)) == rel(m),
    decreases u32::MAX - m,
{
    if ctx.shunted.contains_key(m) {
        lemma_closed_root(ctx, rel, ctx.shunted[m]);
    }
}

/// A found solution is among the values that every closed relation allows.
pub proof fn lemma_closed_look(ctx: Ctx, rel: Rel, m: u32)
    requires
        ctx.closed(rel),
        shunts_forward(ctx.shunted),
        ctx.look(m) is Some,
    ensures
        rel(m).contains(ctx.look(m)->0),
{
    lemma_closed_root(ctx, rel, m);
}

/// Metavariables that are linked by equalities have the same values.
pub proof fn lemma_closed_linked(ctx: Ctx, rel: Rel, a: u32, b: u32)
    requires
        ctx.closed(rel),
        linked(ctx.eqs, a, b),
    ensures
        rel(a) == rel(b),
{
    let path = choose|path: Seq<u32>| is_link_path(ctx.eqs, path, a, b);
    lemma_closed_path(ctx, rel, path, path.len() - 1);
}

proof fn lemma_closed_path(ctx: Ctx, rel: Rel, path: Seq<u32>, n: int)
    requires
        ctx.closed(rel),
        is_link_path(ctx.eqs, path, path[0], path.last()),
        0 <= n < path.len(),
    ensures
        rel(path[0]) == rel(path[n]),
    decreases n,
{
    if n > 0 {
        lemma_closed_path(ctx, rel, path, n - 1);
        let k = n - 1;
        assert(ctx.eqs.contains((path[k], path[k + 1])) || ctx.eqs.contains((path[k + 1], path[k])));
    }
}

/// Every problem is a step on from itself.
pub proof fn lemma_refines_reflexive(ctx: Ctx)
    requires
        ctx.in_range(),
    ensures
        ctx.refines(ctx),
{
    assert forall|m: u32| m < ctx.fresh implies #[trigger] ctx.root(ctx.root(m)) == ctx.root(m) by {
        lemma_root(ctx.shunted, m);
    }
    assert forall|m: u32, r: Seq<char>, o: u32| #[trigger]
        ctx.has(m, Con::Plus(r, o)) implies ctx.has(ctx.root(m), Con::Plus(r, o)) by {
        assert(!ctx.shunted.contains_key(m));
    }
    assert forall|v: u32| #[trigger] ctx.vars.contains(v) implies ctx.root(v) == v by {}
    assert forall|rel: Rel| #[trigger] ctx.closed(rel) implies ctx.carries(ctx, rel) by {
        assert(agree_below(ctx.fresh, rel, rel));
    }
}

/// Steps compose.
pub proof fn lemma_refines_transitive(a: Ctx, b: Ctx, c: Ctx)
    requires
        a.in_range(),
        b.in_range(),
        a.refines(b),
        b.refines(c),
    ensures
        a.refines(c),
{
    assert forall|m: u32| m < a.fresh implies #[trigger] c.root(a.root(m)) == c.root(m) by {
        lemma_root_bound(a, m);
        let r = a.root(m);
        assert(b.root(r) == b.root(m));
        assert(c.root(b.root(r)) == c.root(r));
        assert(c.root(b.root(m)) == c.root(m));
    }
    assert forall|m: u32| m < a.fresh && (#[trigger] a.look(m)) is Some implies c.look(m)
        == a.look(m) by {
        assert(b.look(m) == a.look(m));
    }
    assert forall|m: u32, r: Seq<char>, o: u32| #[trigger] a.has(m, Con::Plus(r, o)) implies c.has(
        c.root(m),
        Con::Plus(r, o),
    ) || c.met(m, r, o) by {
        assert(m < a.fresh);
        if b.met(m, r, o) {
            assert(b.look(m) is Some && b.look(o) is Some);
            assert(c.look(m) == b.look(m));
            assert(c.look(o) == b.look(o));
        } else {
            let n = b.root(m);
            assert(b.has(n, Con::Plus(r, o)));
            assert(c.root(n) == c.root(m));
            if c.met(n, r, o) {
                assert(c.look(n) == c.look(m)) by {
                    assert(c.root(b.root(m)) == c.root(m));
                }
            }
        }
    }
    assert forall|v: u32| #[trigger] a.vars.contains(v) implies c.vars.contains(c.root(v)) by {
        assert(b.vars.contains(b.root(v)));
        assert(c.root(b.root(v)) == c.root(v));
    }
    assert forall|w: u32| #[trigger] c.vars.contains(w) implies exists|v: u32|
        a.vars.contains(v) && #[trigger] c.root(v) == w by {
        let u = choose|u: u32| b.vars.contains(u) && #[trigger] c.root(u) == w;
        let v = choose|v: u32| a.vars.contains(v) && #[trigger] b.root(v) == u;
        assert(c.root(b.root(v)) == c.root(v));
    }
    assert forall|rel: Rel| #[trigger] a.closed(rel) implies a.carries(c, rel) by {
        assert(a.carries(b, rel));
        let mid = choose|wider: Rel|
            {
                &&& #[trigger] b.closed(wider)
                &&& agree_below(a.fresh, rel, wider)
                &&& functional(rel) ==> functional(wider)
            };
        assert(b.carries(c, mid));
        let wide = choose|wider: Rel|
            {
                &&& #[trigger] c.closed(wider)
                &&& agree_below(b.fresh, mid, wider)
                &&& functional(mid) ==> functional(wider)
            };
        assert forall|m: u32| m < a.fresh implies #[trigger] rel(m) == wide(m) by {
            assert(rel(m) == mid(m));
            assert(mid(m) == wide(m));
        }
        assert(agree_below(a.fresh, rel, wide));
    }
}

/// What is contradictory after a step was contradictory before it.
pub proof fn lemma_contradictory_before(a: Ctx, b: Ctx)
    requires
        a.refines(b),
        b.contradictory(),
    ensures
        a.contradictory(),
{
    assert forall|rel: Rel| #[trigger] a.closed(rel) implies !functional(rel) by {
        assert(a.carries(b, rel));
    }
}

} // verus!
