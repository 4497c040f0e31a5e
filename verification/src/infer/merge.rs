//! Merging metavariables that should be equal.

use std::collections::HashSet;

use vstd::prelude::*;

use crate::extension_set::ExtensionSet;
use crate::infer::context::UnificationContext;
use crate::infer::eq_graph::{
    Meta, grouped, is_link_path, lemma_linked_back, lemma_linked_through, linked,
};
use crate::infer::error::InferExtensionError;
use crate::infer::model::{Con, Ctx, lemma_root};
use crate::infer::run::{Step, lemma_reaches_self, lemma_reaches_step};
use crate::infer::steps::{lemma_absorbed_roots, lemma_fresh_step, pluses};

verus! {

broadcast use vstd::std_specs::hash::group_hash_axioms;

impl Ctx {
    /// Whether `m` takes part in a registered equality and has not been merged.
    pub open spec fn to_merge(self, m: u32) -> bool {
        self.eq_nodes.contains(m) && !self.shunted.contains_key(m)
    }

    /// Whether `m`, one of those `done`, has been merged into `c`.
    pub open spec fn goes_to(self, later: Ctx, done: Set<u32>, m: u32, c: u32) -> bool {
        done.contains(m) && self.to_merge(m) && later.shunted[m] == c
    }

    /// Whether some of those `done` has been merged into `c`.
    pub open spec fn made_for(self, later: Ctx, done: Set<u32>, c: u32) -> bool {
        exists|m: u32| self.goes_to(later, done, m, c)
    }

    /// Whether some of those `done` has been merged into `c` and carried
    /// constraint `d`.
    pub open spec fn brings(self, later: Ctx, done: Set<u32>, c: u32, d: Con) -> bool {
        exists|m: u32| #[trigger] self.goes_to(later, done, m, c) && self.has(m, d)
    }

    /// Whether some of those `done` has been merged into `c` and had a solution.
    pub open spec fn brings_solution(self, later: Ctx, done: Set<u32>, c: u32) -> bool {
        exists|m: u32| #[trigger]
            self.goes_to(later, done, m, c) && self.solved.contains_key(m)
    }

    /// Whether some of those `done` has been merged into `c` and was a variable.
    pub open spec fn brings_variable(self, later: Ctx, done: Set<u32>, c: u32) -> bool {
        exists|m: u32| #[trigger] self.goes_to(later, done, m, c) && self.vars.contains(m)
    }

    /// `later` is `self` with those of `done` merged that take part in registered
    /// equalities: each into a new metavariable, two into the same just if a
    /// chain of equalities relates them. The new ones have the constraints that
    /// the merged ones had, equalities aside, their solution if they had one, and
    /// are variables if one of them was. All else is as before.
    pub open spec fn merges(self, later: Ctx, done: Set<u32>) -> bool {
        &&& later.locs == self.locs
        &&& later.eqs == self.eqs
        &&& later.eq_nodes == self.eq_nodes
        &&& self.fresh <= later.fresh
        &&& forall|m: u32| #[trigger]
            later.shunted.contains_key(m) <==> self.shunted.contains_key(m) || (done.contains(m)
                && self.eq_nodes.contains(m))
        &&& forall|m: u32| #[trigger]
            self.shunted.contains_key(m) ==> later.shunted[m] == self.shunted[m]
        &&& forall|m: u32|
            #![trigger later.shunted[m]]
            done.contains(m) && self.to_merge(m) ==> self.fresh <= later.shunted[m] < later.fresh
        &&& forall|a: u32, b: u32|
            #![trigger later.shunted[a], later.shunted[b]]
            done.contains(a) && done.contains(b) && self.to_merge(a) && self.to_merge(b) ==> (
            later.shunted[a] == later.shunted[b] <==> linked(self.eqs, a, b))
        &&& forall|c: u32|
            self.fresh <= c < later.fresh ==> #[trigger] self.made_for(later, done, c)
        &&& forall|m: u32|
            m < self.fresh ==> (#[trigger] later.cons.contains_key(m) <==> self.cons.contains_key(m)
                && !done.contains(m))
        &&& forall|m: u32|
            m < self.fresh && #[trigger] later.cons.contains_key(m) ==> later.cons[m]
                == self.cons[m]
        &&& forall|m: u32|
            m < self.fresh ==> (#[trigger] later.solved.contains_key(m)
                <==> self.solved.contains_key(m))
        &&& forall|m: u32|
            m < self.fresh && #[trigger] self.solved.contains_key(m) ==> later.solved[m]
                == self.solved[m]
        &&& forall|m: u32|
            m < self.fresh ==> (#[trigger] later.vars.contains(m) <==> self.vars.contains(m)
                && !done.contains(m))
        &&& forall|c: u32|
            self.fresh <= c < later.fresh ==> #[trigger] later.cons.contains_key(c)
        &&& forall|c: u32, d: Con|
            self.fresh <= c < later.fresh ==> (#[trigger] later.has(c, d) <==> d is Plus
                && self.brings(later, done, c, d))
        &&& forall|c: u32|
            self.fresh <= c < later.fresh ==> (#[trigger] later.solved.contains_key(c)
                <==> self.brings_solution(later, done, c))
        &&& forall|m: u32, c: u32| #[trigger]
            self.goes_to(later, done, m, c) && self.solved.contains_key(m) ==> later.solved[c]
                == self.solved[m]
        &&& forall|c: u32|
            self.fresh <= c < later.fresh ==> (#[trigger] later.vars.contains(c)
                <==> self.brings_variable(later, done, c))
    }

    /// Whether `a` and `b` are to be merged into one but have different solutions.
    pub open spec fn at_odds(self, a: u32, b: u32) -> bool {
        &&& self.to_merge(a)
        &&& self.to_merge(b)
        &&& linked(self.eqs, a, b)
        &&& self.solved.contains_key(a)
        &&& self.solved.contains_key(b)
        &&& self.solved[a] != self.solved[b]
    }

    /// Whether two that are to be merged into one have different solutions.
    pub open spec fn is_at_odds(self) -> bool {
        exists|a: u32, b: u32| self.at_odds(a, b)
    }
}

/// How far merging has come from `base` when the metavariables `done` have been
/// dealt with.
#[verifier::opaque]
spec fn merging(base: Ctx, now: Ctx, done: Set<u32>) -> bool {
    &&& base.all_registered() ==> base.reaches(now)
    &&& now.in_range()
    &&& base.merges(now, done)
    &&& forall|m: u32| #[trigger] done.contains(m) ==> base.eq_nodes.contains(m)
}

/// Which of the metavariables `done` carried constraints, and which new ones
/// they were merged into.
pub open spec fn tallied(
    base: Ctx,
    now: Ctx,
    done: Set<u32>,
    merged: Set<u32>,
    created: Set<u32>,
) -> bool {
    &&& forall|m: u32| #[trigger]
        merged.contains(m) <==> done.contains(m) && base.to_merge(m) && base.cons.contains_key(m)
    &&& forall|c: u32| #[trigger]
        created.contains(c) <==> exists|m: u32| #[trigger]
            merged.contains(m) && now.shunted[m] == c
}

/// Dealing with one more metavariable.
#[verifier::spinoff_prover]
#[verifier::rlimit(60)]
proof fn lemma_merges_step(
    base: Ctx,
    now: Ctx,
    mid: Ctx,
    done: Set<u32>,
    m: u32,
    c: u32,
    opened: bool,
)
    requires
        base.in_range(),
        now.in_range(),
        base.merges(now, done),
        base.to_merge(m),
        !done.contains(m),
        opened ==> now.fresh < u32::MAX && c == now.fresh && mid == now.with_fresh(),
        !opened ==> base.fresh <= c < now.fresh && mid == now,
        mid.compatible(m, c),
        forall|a: u32|
            #![trigger done.contains(a)]
            done.contains(a) && base.to_merge(a) ==> (linked(base.eqs, a, m) <==> !opened
                && now.shunted[a] == c),
        forall|a: u32| #[trigger] linked(base.eqs, a, m) <==> linked(base.eqs, m, a),
        linked(base.eqs, m, m),
    ensures
        base.merges(mid.absorbed(m, c), done.insert(m)),
{
    let after = mid.absorbed(m, c);
    let more = done.insert(m);
    assert(m < base.fresh);
    assert(!now.shunted.contains_key(m));
    assert(now.cons.contains_key(m) <==> base.cons.contains_key(m));
    assert(now.solved.contains_key(m) <==> base.solved.contains_key(m));
    assert(now.vars.contains(m) <==> base.vars.contains(m));
    assert forall|x: u32, e: u32| #[trigger] base.goes_to(after, more, x, e) <==> base.goes_to(
        now,
        done,
        x,
        e,
    ) || (x == m && e == c) by {
        if done.contains(x) && base.to_merge(x) {
            assert(now.shunted.contains_key(x));
            assert(after.shunted[x] == now.shunted[x]);
        }
    }
    assert(base.goes_to(after, more, m, c));
    assert forall|e: u32| base.fresh <= e < after.fresh implies #[trigger] base.made_for(
        after,
        more,
        e,
    ) by {
        if e != c {
            assert(base.made_for(now, done, e));
            let x = choose|x: u32| base.goes_to(now, done, x, e);
            assert(base.goes_to(after, more, x, e));
        }
    }
    assert forall|x: u32|
        #![trigger after.shunted[x]]
        more.contains(x) && base.to_merge(x) implies base.fresh <= after.shunted[x]
        < after.fresh by {
        if x != m {
            assert(after.shunted[x] == now.shunted[x]);
        }
    }
    assert forall|a: u32, b: u32|
        #![trigger after.shunted[a], after.shunted[b]]
        more.contains(a) && more.contains(b) && base.to_merge(a) && base.to_merge(b) implies (
    after.shunted[a] == after.shunted[b] <==> linked(base.eqs, a, b)) by {
        if a != m {
            assert(after.shunted[a] == now.shunted[a]);
            assert(done.contains(a));
        }
        if b != m {
            assert(after.shunted[b] == now.shunted[b]);
            assert(done.contains(b));
        }
        assert(linked(base.eqs, b, m) <==> linked(base.eqs, m, b));
    }
    assert forall|x: u32| #[trigger] base.shunted.contains_key(x) implies after.shunted[x]
        == base.shunted[x] by {
        assert(now.shunted.contains_key(x));
    }
    lemma_merges_step_new(base, now, mid, done, m, c, opened);
}

/// What the new metavariables have when one more has been dealt with.
#[verifier::spinoff_prover]
#[verifier::rlimit(60)]
proof fn lemma_merges_step_new(
    base: Ctx,
    now: Ctx,
    mid: Ctx,
    done: Set<u32>,
    m: u32,
    c: u32,
    opened: bool,
)
    requires
        base.in_range(),
        now.in_range(),
        base.merges(now, done),
        base.to_merge(m),
        !done.contains(m),
        m < base.fresh,
        opened ==> now.fresh < u32::MAX && c == now.fresh && mid == now.with_fresh(),
        !opened ==> base.fresh <= c < now.fresh && mid == now,
        mid.compatible(m, c),
        forall|x: u32, e: u32| #[trigger]
            base.goes_to(mid.absorbed(m, c), done.insert(m), x, e) <==> base.goes_to(
                now,
                done,
                x,
                e,
            ) || (x == m && e == c),
    ensures
        ({
            let after = mid.absorbed(m, c);
            let more = done.insert(m);
            &&& forall|e: u32|
                base.fresh <= e < after.fresh ==> #[trigger] after.cons.contains_key(e)
            &&& forall|e: u32, d: Con|
                base.fresh <= e < after.fresh ==> (#[trigger] after.has(e, d) <==> d is Plus
                    && base.brings(after, more, e, d))
            &&& forall|e: u32|
                base.fresh <= e < after.fresh ==> (#[trigger] after.solved.contains_key(e)
                    <==> base.brings_solution(after, more, e))
            &&& forall|x: u32, e: u32| #[trigger]
                base.goes_to(after, more, x, e) && base.solved.contains_key(x) ==> after.solved[e]
                    == base.solved[x]
            &&& forall|e: u32|
                base.fresh <= e < after.fresh ==> (#[trigger] after.vars.contains(e)
                    <==> base.brings_variable(after, more, e))
        }),
{
    let after = mid.absorbed(m, c);
    let more = done.insert(m);
    assert(base.goes_to(after, more, m, c));
    assert(now.cons.contains_key(m) <==> base.cons.contains_key(m));
    assert(now.solved.contains_key(m) <==> base.solved.contains_key(m));
    assert(now.vars.contains(m) <==> base.vars.contains(m));
    assert(opened ==> !now.cons.contains_key(c) && !now.solved.contains_key(c)
        && !now.vars.contains(c));
    assert forall|x: u32| opened implies !#[trigger] base.goes_to(now, done, x, c) by {
        if base.goes_to(now, done, x, c) {
            assert(now.shunted[x] < now.fresh);
        }
    }
    assert forall|e: u32, d: Con| base.fresh <= e < after.fresh implies (#[trigger] after.has(e, d)
        <==> d is Plus && base.brings(after, more, e, d)) by {
        if e < now.fresh {
            assert(now.has(e, d) <==> d is Plus && base.brings(now, done, e, d));
        }
        if after.has(e, d) {
            if e == c && base.cons.contains_key(m) && pluses(base.cons[m]).contains(d) {
                assert(base.goes_to(after, more, m, c) && base.has(m, d));
            } else {
                assert(now.has(e, d));
                let x = choose|x: u32| #[trigger] base.goes_to(now, done, x, e) && base.has(x, d);
                assert(base.goes_to(after, more, x, e));
            }
        }
        if d is Plus && base.brings(after, more, e, d) {
            let x = choose|x: u32| #[trigger] base.goes_to(after, more, x, e) && base.has(x, d);
            if x == m && e == c {
                assert(pluses(mid.cons[m]).contains(d));
                assert(after.has(c, d));
            } else {
                assert(base.goes_to(now, done, x, e));
                assert(now.has(e, d));
                assert(after.has(e, d));
            }
        }
    }
    assert forall|e: u32| base.fresh <= e < after.fresh implies (
    #[trigger] after.solved.contains_key(e) <==> base.brings_solution(after, more, e)) by {
        if e < now.fresh {
            assert(now.solved.contains_key(e) <==> base.brings_solution(now, done, e));
        }
        if now.solved.contains_key(e) {
            let x = choose|x: u32| #[trigger]
                base.goes_to(now, done, x, e) && base.solved.contains_key(x);
            assert(base.goes_to(after, more, x, e));
        }
        if base.brings_solution(after, more, e) {
            let x = choose|x: u32| #[trigger]
                base.goes_to(after, more, x, e) && base.solved.contains_key(x);
            if base.goes_to(now, done, x, e) {
                assert(now.shunted[x] < now.fresh);
                assert(base.brings_solution(now, done, e));
            }
        }
    }
    assert forall|x: u32, e: u32| #[trigger]
        base.goes_to(after, more, x, e) && base.solved.contains_key(x) implies after.solved[e]
        == base.solved[x] by {
        if base.goes_to(now, done, x, e) {
            assert(base.fresh <= now.shunted[x] < now.fresh);
            assert(base.brings_solution(now, done, e));
            assert(now.solved.contains_key(e));
            assert(now.solved[e] == base.solved[x]);
        } else {
            assert(mid.solved.contains_key(m));
        }
    }
    assert forall|e: u32| base.fresh <= e < after.fresh implies (#[trigger] after.vars.contains(e)
        <==> base.brings_variable(after, more, e)) by {
        if e < now.fresh {
            assert(now.vars.contains(e) <==> base.brings_variable(now, done, e));
        }
        if now.vars.contains(e) {
            let x = choose|x: u32| #[trigger]
                base.goes_to(now, done, x, e) && base.vars.contains(x);
            assert(base.goes_to(after, more, x, e));
        }
        if base.brings_variable(after, more, e) {
            let x = choose|x: u32| #[trigger]
                base.goes_to(after, more, x, e) && base.vars.contains(x);
            if base.goes_to(now, done, x, e) {
                assert(base.brings_variable(now, done, e));
            }
        }
    }
}

/// When all that take part in equalities have been dealt with, nothing is left
/// to be merged.
proof fn lemma_merging_done(base: Ctx, now: Ctx)
    requires
        base.wf(),
        merging(base, now, base.eq_nodes),
    ensures
        now.wf(),
        now.at_rest(),
        base.merges(now, base.eq_nodes),
        base.all_registered() ==> now.settled() && base.reaches(now),
        !base.is_at_odds(),
{
    reveal(merging);
    if base.all_registered() {
        assert forall|m: u32, o: u32| !#[trigger] now.has(m, Con::Equal(o)) by {
            if now.has(m, Con::Equal(o)) {
                if m < base.fresh {
                    assert(now.cons.contains_key(m));
                    assert(base.has(m, Con::Equal(o)));
                    assert(base.eqs.contains((m, o)));
                    assert(base.eq_nodes.contains(m));
                } else {
                    assert(now.cons.contains_key(m));
                }
            }
        }
    }
    assert forall|a: u32, b: u32| #[trigger] now.eqs.contains((a, b)) implies now.root(a)
        == now.root(b) by {
        assert(base.eqs.contains((a, b)));
        lemma_merged_root(base, now, a);
        lemma_merged_root(base, now, b);
        let x = base.root(a);
        let y = base.root(b);
        lemma_root(base.shunted, a);
        lemma_root(base.shunted, b);
        if x != y {
            assert(base.to_merge(x) && base.to_merge(y));
            assert(now.shunted[x] == now.shunted[y]);
            assert(now.shunted.contains_key(x) && now.shunted.contains_key(y));
            assert(now.root(x) == now.root(now.shunted[x]));
            assert(now.root(y) == now.root(now.shunted[y]));
        }
    }
    assert forall|a: u32, b: u32| !base.at_odds(a, b) by {
        if base.at_odds(a, b) {
            assert(now.shunted[a] == now.shunted[b]);
            assert(base.goes_to(now, base.eq_nodes, a, now.shunted[a]));
            assert(base.goes_to(now, base.eq_nodes, b, now.shunted[a]));
        }
    }
}

/// What has become of a metavariable is what has become of what it had become.
proof fn lemma_merged_root(base: Ctx, now: Ctx, m: u32)
    requires
        base.in_range(),
        now.in_range(),
        base.merges(now, base.eq_nodes),
    ensures
        now.root(base.root(m)) == now.root(m),
    decreases u32::MAX - m,
{
    if base.shunted.contains_key(m) {
        assert(now.shunted.contains_key(m));
        lemma_merged_root(base, now, base.shunted[m]);
    }
}

/// Where everything has been merged, merging changes nothing.
pub proof fn lemma_nothing_to_merge(base: Ctx, now: Ctx)
    requires
        base.in_range(),
        now.in_range(),
        base.at_rest(),
        base.merges(now, base.eq_nodes),
    ensures
        now == base,
{
    assert(now.fresh == base.fresh) by {
        if base.fresh < now.fresh {
            let c = base.fresh as u32;
            assert(base.made_for(now, base.eq_nodes, c));
        }
    }
    assert forall|m: u32| base.shunted.contains_key(m) <==> now.shunted.contains_key(m) by {}
    assert(now.shunted =~= base.shunted);
    assert forall|m: u32| base.cons.contains_key(m) <==> now.cons.contains_key(m) by {
        if base.cons.contains_key(m) {
            assert(m < base.fresh);
            assert(!base.eq_nodes.contains(m));
            assert(now.cons.contains_key(m));
        }
    }
    assert(now.cons =~= base.cons);
    assert forall|m: u32| base.solved.contains_key(m) <==> now.solved.contains_key(m) by {}
    assert(now.solved =~= base.solved);
    assert forall|m: u32| base.vars.contains(m) <==> now.vars.contains(m) by {
        if base.vars.contains(m) {
            assert(!base.eq_nodes.contains(m));
            assert(now.vars.contains(m));
        }
    }
    assert(now.vars =~= base.vars);
}

/// Merging `m` into `c`, which is new or which one related to it has been merged
/// into.
proof fn lemma_merging_one(
    base: Ctx,
    now: Ctx,
    done: Set<u32>,
    m: u32,
    c: u32,
    opened: bool,
    k: u32,
)
    requires
        base.wf(),
        merging(base, now, done),
        base.to_merge(m),
        !now.shunted.contains_key(m),
        opened ==> now.fresh < u32::MAX && c == now.fresh,
        !opened ==> base.fresh <= c && now.joinable(k, m, c) && now.compatible(m, c),
        forall|a: u32|
            #![trigger done.contains(a)]
            done.contains(a) && base.to_merge(a) && (linked(base.eqs, a, m) || linked(
                base.eqs,
                m,
                a,
            )) ==> !opened && now.shunted[a] == c,
    ensures
        ({
            let mid = if opened {
                now.with_fresh()
            } else {
                now
            };
            let after = mid.absorbed(m, c);
            &&& merging(base, after, done.insert(m))
            &&& !after.shunted.contains_key(c)
            &&& base.fresh <= c < after.fresh
            &&& after.shunted.contains_key(m) && after.shunted[m] == c
            &&& forall|x: u32| #[trigger]
                now.shunted.contains_key(x) ==> after.shunted[x] == now.shunted[x]
            &&& now.cons.contains_key(m) <==> base.cons.contains_key(m)
        }),
{
    reveal(merging);
    let mid = if opened {
        now.with_fresh()
    } else {
        now
    };
    let after = mid.absorbed(m, c);
    assert(m < base.fresh);
    assert(!done.contains(m));
    if opened {
        lemma_fresh_step(now);
    }
    lemma_absorbed_roots(mid, m, c);
    assert(is_link_path(base.eqs, seq![m], m, m));
    assert forall|a: u32| #[trigger] linked(base.eqs, a, m) <==> linked(base.eqs, m, a) by {
        if linked(base.eqs, a, m) {
            lemma_linked_back(base.eqs, a, m);
        }
        if linked(base.eqs, m, a) {
            lemma_linked_back(base.eqs, m, a);
        }
    }
    assert forall|a: u32|
        #![trigger done.contains(a)]
        done.contains(a) && base.to_merge(a) implies (linked(base.eqs, a, m) <==> !opened
        && now.shunted[a] == c) by {
        if !opened && now.shunted[a] == c {
            lemma_merged_this_time(base, now, done, k);
            assert(linked(base.eqs, a, k));
            lemma_linked_through(base.eqs, a, k, m);
        }
    }
    lemma_merges_step(base, now, mid, done, m, c, opened);
    if base.all_registered() {
        assert(now.registered(m)) by {
            assert forall|o: u32| #[trigger] now.has(m, Con::Equal(o)) implies now.eqs.contains(
                (m, o),
            ) by {
                assert(now.cons.contains_key(m));
                assert(base.has(m, Con::Equal(o)));
            }
        }
        let step = if opened {
            Step::Open(m)
        } else {
            Step::Join(k, m, c)
        };
        assert(now.applies(step));
        lemma_reaches_step(base, now, step);
    }
}

/// What was merged into a new metavariable was merged this time.
proof fn lemma_merged_this_time(base: Ctx, now: Ctx, done: Set<u32>, k: u32)
    requires
        base.in_range(),
        base.merges(now, done),
        now.shunted.contains_key(k),
        base.fresh <= now.shunted[k],
    ensures
        done.contains(k),
        base.to_merge(k),
{
    if base.shunted.contains_key(k) {
        assert(now.shunted[k] == base.shunted[k]);
    }
}

/// A solution that is in the way belongs to one that should be equal.
proof fn lemma_at_odds(base: Ctx, now: Ctx, done: Set<u32>, k: u32, m: u32, c: u32)
    requires
        base.wf(),
        merging(base, now, done),
        base.to_merge(m),
        !now.shunted.contains_key(m),
        base.fresh <= c,
        now.joinable(k, m, c),
        now.solved.contains_key(m),
        now.solved.contains_key(c),
        now.solved[m] != now.solved[c],
    ensures
        base.is_at_odds(),
{
    reveal(merging);
    assert(m < base.fresh);
    assert(base.solved.contains_key(m));
    assert(base.brings_solution(now, done, c));
    let x = choose|x: u32| #[trigger]
        base.goes_to(now, done, x, c) && base.solved.contains_key(x);
    lemma_merged_this_time(base, now, done, k);
    assert(now.shunted[x] == now.shunted[k]);
    assert(linked(base.eqs, x, k));
    lemma_linked_through(base.eqs, x, k, m);
    assert(base.at_odds(x, m));
}

impl UnificationContext {
    /// Merge `m` into `combined`, or into a new metavariable where there is
    /// none yet. Returns what it was merged into, and whether it carried
    /// constraints.
    fn merge_one(
        &mut self,
        m: Meta,
        combined: Option<Meta>,
        Ghost(base): Ghost<Ctx>,
        Ghost(done): Ghost<Set<u32>>,
        Ghost(k): Ghost<u32>,
    ) -> (result: Result<(Meta, bool), InferExtensionError>)
        requires
            old(self).ok(),
            base.wf(),
            merging(base, old(self)@, done),
            base.to_merge(m.0),
            !old(self)@.shunted.contains_key(m.0),
            combined is None ==> old(self)@.fresh < u32::MAX,
            combined matches Some(c) ==> {
                &&& base.fresh <= c.0
                &&& old(self)@.joinable(k, m.0, c.0)
            },
            forall|a: u32|
                #![trigger done.contains(a)]
                done.contains(a) && base.to_merge(a) && (linked(base.eqs, a, m.0) || linked(
                    base.eqs,
                    m.0,
                    a,
                )) ==> (combined matches Some(c) && old(self)@.shunted[a] == c.0),
        ensures
            final(self).ok(),
            match result {
                Ok((c, constrained)) => {
                    &&& merging(base, final(self)@, done.insert(m.0))
                    &&& combined matches Some(d) ==> d == c && final(self)@.fresh == old(self)@.fresh
                    &&& combined is None ==> final(self)@.fresh == old(self)@.fresh + 1
                    &&& base.fresh <= c.0 < final(self)@.fresh
                    &&& !final(self)@.shunted.contains_key(c.0)
                    &&& final(self)@.shunted.contains_key(m.0)
                    &&& final(self)@.shunted[m.0] == c.0
                    &&& forall|a: u32| #[trigger]
                        old(self)@.shunted.contains_key(a) ==> final(self)@.shunted[a]
                            == old(self)@.shunted[a]
                    &&& constrained == base.cons.contains_key(m.0)
                },
                Err(err) => {
                    &&& final(self)@ == old(self)@
                    &&& final(self)@.clash(err)
                    &&& base.is_at_odds()
                },
            },
    {
        let ghost now = self@;
        proof {
            assert(m.0 < base.fresh);
            assert(now.in_range()) by {
                reveal(merging);
            }
        }
        match combined {
            Some(c) => {
                let mine: Option<ExtensionSet> = match self.own_solution(m) {
                    Some(set) => Some(set.clone()),
                    None => None,
                };
                let theirs: Option<ExtensionSet> = match self.own_solution(c) {
                    Some(set) => Some(set.clone()),
                    None => None,
                };
                match (mine, theirs) {
                    (Some(solution), Some(existing)) => {
                        if solution != existing {
                            let err = self.report_mismatch(m, c, solution, existing);
                            proof {
                                assert(self@.join_clash(err, k, m.0, c.0));
                                lemma_at_odds(base, now, done, k, m.0, c.0);
                            }
                            return Err(err);
                        }
                    },
                    _ => {},
                }
                proof {
                    lemma_merging_one(base, now, done, m.0, c.0, false, k);
                }
                let constrained = self.absorb(m, c);
                Ok((c, constrained))
            },
            None => {
                let c = self.fresh_meta();
                proof {
                    lemma_merging_one(base, now, done, m.0, c.0, true, k);
                }
                let constrained = self.absorb(m, c);
                Ok((c, constrained))
            },
        }
    }

    /// Merge the metavariables of one group into a new, single one. Those that
    /// carried constraints are added to `merged`, and the new one to `created`
    /// if it carries constraints now.
    fn merge_group(
        &mut self,
        groups: &Vec<Vec<Meta>>,
        i: usize,
        merged: &mut HashSet<u32>,
        created: &mut HashSet<u32>,
        Ghost(base): Ghost<Ctx>,
        Ghost(done): Ghost<Set<u32>>,
    ) -> (result: Result<Ghost<Set<u32>>, InferExtensionError>)
        requires
            old(self).ok(),
            base.wf(),
            base.at_rest() || 2 * base.fresh <= u32::MAX,
            partition(base, groups@),
            i < groups@.len() <= base.fresh,
            merging(base, old(self)@, done),
            tallied(base, old(self)@, done, old(merged)@, old(created)@),
            base.at_rest() ==> old(self)@ == base,
            old(self)@.fresh <= base.fresh + i,
            handled(base, groups@, i as int, done),
        ensures
            final(self).ok(),
            match result {
                Ok(after) => {
                    &&& merging(base, final(self)@, after@)
                    &&& tallied(base, final(self)@, after@, final(merged)@, final(created)@)
                    &&& base.at_rest() ==> *final(self) == *old(self)
                    &&& final(self)@.fresh <= base.fresh + i + 1
                    &&& handled(base, groups@, i + 1, after@)
                },
                Err(err) => {
                    &&& final(self)@.clash(err)
                    &&& base.is_at_odds()
                    &&& partly_merged(base, final(self)@)
                    &&& final(self)@.fresh <= base.fresh + i + 1
                },
            },
    {
        let group = &groups[i];
        let ghost mut seen = done;
        let mut combined: Option<Meta> = None;
        let ghost mut k: u32 = 0;
        let mut j: usize = 0;
        proof {
            lemma_group_starts(base, groups@, i as int, done, self@);
        }
        while j < group.len()
            invariant
                i < groups@.len() <= base.fresh,
                group@ == groups@[i as int]@,
                j <= group@.len(),
                base.wf(),
                base.at_rest() || 2 * base.fresh <= u32::MAX,
                partition(base, groups@),
                self.ok(),
                merging(base, self@, seen),
                tallied(base, self@, seen, merged@, created@),
                base.at_rest() ==> old(self)@ == base && *self == *old(self),
                combined is None ==> self@.fresh <= base.fresh + i,
                self@.fresh <= base.fresh + i + 1,
                underway(base, groups@, i as int, j as int, seen, self@, combined, k),
            decreases group@.len() - j,
        {
            let m = group[j];
            let ghost prev = self@;
            let ghost prev_combined = combined;
            proof {
                lemma_underway_member(
                    base,
                    groups@,
                    i as int,
                    j as int,
                    seen,
                    self@,
                    combined,
                    k,
                );
            }
            // The same meta shouldn't be shunted twice directly. Only
            // transitively, as we still process the meta it was shunted to
            if !self.is_merged(m) {
                let outcome = self.merge_one(m, combined, Ghost(base), Ghost(seen), Ghost(k));
                proof {
                    if outcome is Err {
                        lemma_partly_merged(base, self@, seen);
                    }
                }
                let (c, constrained) = outcome?;
                combined = Some(c);
                let ghost was_merged = merged@;
                let ghost was_created = created@;
                if constrained {
                    merged.insert(m.0);
                    created.insert(c.0);
                }
                proof {
                    lemma_tally(
                        base,
                        prev,
                        self@,
                        seen,
                        m.0,
                        c.0,
                        constrained,
                        was_merged,
                        was_created,
                    );
                    lemma_underway_next(
                        base,
                        groups@,
                        i as int,
                        j as int,
                        seen,
                        prev,
                        self@,
                        prev_combined,
                        k,
                        c,
                    );
                    k = m.0;
                    seen = seen.insert(m.0);
                }
            }
            j += 1;
        }
        proof {
            lemma_group_ends(base, groups@, i as int, seen, self@, combined, k);
        }
        Ok(Ghost(seen))
    }

    /// Take the groups of equal metas and merge each into a new, single meta.
    ///
    /// Returns the set of new metas created that carry constraints, and the set
    /// of metas that were merged and carried them. Fails just if two that should
    /// be equal have different solutions.
    pub fn merge_equal_metas(&mut self) -> (result: Result<
        (HashSet<u32>, HashSet<u32>),
        InferExtensionError,
    >)
        requires
            old(self).ok(),
            old(self)@.wf(),
            old(self)@.at_rest() || 2 * old(self)@.fresh <= u32::MAX,
        ensures
            final(self).ok(),
            old(self)@.all_registered() ==> old(self)@.reaches(final(self)@),
            result is Err <==> old(self)@.is_at_odds(),
            final(self)@.fresh <= 2 * old(self)@.fresh,
            match result {
                Ok((created, merged)) => {
                    &&& final(self)@.wf()
                    &&& final(self)@.at_rest()
                    &&& old(self)@.all_registered() ==> final(self)@.settled()
                    &&& old(self)@.merges(final(self)@, old(self)@.eq_nodes)
                    &&& tallied(
                        old(self)@,
                        final(self)@,
                        old(self)@.eq_nodes,
                        merged@,
                        created@,
                    )
                    &&& old(self)@.at_rest() ==> *final(self) == *old(self) && merged@ == Set::<
                        u32,
                    >::empty() && created@ == Set::<u32>::empty()
                },
                Err(err) => {
                    &&& final(self)@.clash(err)
                    &&& partly_merged(old(self)@, final(self)@)
                },
            },
    {
        let ghost base = self@;
        let ghost mut done = Set::<u32>::empty();
        let mut merged: HashSet<u32> = HashSet::new();
        let mut created: HashSet<u32> = HashSet::new();
        let groups = self.equal_groups();
        proof {
            lemma_reaches_self(base);
            lemma_group_count(base, groups@);
            assert(merging(base, self@, done) && tallied(base, self@, done, merged@, created@)) by {
                reveal(merging);
            }
        }
        let mut i: usize = 0;
        while i < groups.len()
            invariant
                i <= groups@.len() <= base.fresh,
                base == old(self)@,
                base.wf(),
                base.at_rest() || 2 * base.fresh <= u32::MAX,
                partition(base, groups@),
                self.ok(),
                merging(base, self@, done),
                tallied(base, self@, done, merged@, created@),
                base.at_rest() ==> *self == *old(self),
                self@.fresh <= base.fresh + i,
                handled(base, groups@, i as int, done),
            decreases groups@.len() - i,
        {
            let Ghost(after) = self.merge_group(
                &groups,
                i,
                &mut merged,
                &mut created,
                Ghost(base),
                Ghost(done),
            )?;
            proof {
                done = after;
            }
            i += 1;
        }
        proof {
            lemma_all_handled(base, groups@, done, self@, merged@, created@);
            lemma_merging_done(base, self@);
            if base.at_rest() {
                assert(merged@ =~= Set::<u32>::empty());
                assert(created@ =~= Set::<u32>::empty());
            }
        }
        Ok((created, merged))
    }
}

/// Whether some of those to be merged have been, and the rest is as before.
pub open spec fn partly_merged(base: Ctx, now: Ctx) -> bool {
    &&& exists|done: Set<u32>| base.merges(now, done)
    &&& base.all_registered() ==> base.reaches(now)
}

proof fn lemma_partly_merged(base: Ctx, now: Ctx, done: Set<u32>)
    requires
        merging(base, now, done),
    ensures
        partly_merged(base, now),
{
    reveal(merging);
}

/// The groups hold the metavariables of registered equalities, those that are
/// linked together.
pub open spec fn partition(base: Ctx, groups: Seq<Vec<Meta>>) -> bool {
    &&& forall|g: int| 0 <= g < groups.len() ==> (#[trigger] groups[g])@.no_duplicates()
    &&& forall|m: u32|
        #![trigger base.eq_nodes.contains(m)]
        base.eq_nodes.contains(m) <==> exists|g: int| grouped(groups, g, m)
    &&& forall|g: int, h: int, a: u32, b: u32| #[trigger]
        grouped(groups, g, a) && #[trigger] grouped(groups, h, b) ==> (g == h <==> linked(
            base.eqs,
            a,
            b,
        ))
}

/// The first `n` groups have been dealt with, and the others have not.
pub open spec fn handled(base: Ctx, groups: Seq<Vec<Meta>>, n: int, done: Set<u32>) -> bool {
    &&& forall|g: int, m: u32|
        g < n && #[trigger] grouped(groups, g, m) ==> done.contains(m) || base.shunted.contains_key(
            m,
        )
    &&& forall|g: int, m: u32| g >= n && #[trigger] grouped(groups, g, m) ==> !done.contains(m)
}

/// The first `i` groups have been dealt with, and the first `j` of the next,
/// which were merged into `combined`, among them `k`.
#[verifier::opaque]
spec fn underway(
    base: Ctx,
    groups: Seq<Vec<Meta>>,
    i: int,
    j: int,
    seen: Set<u32>,
    now: Ctx,
    combined: Option<Meta>,
    k: u32,
) -> bool {
    let group = groups[i]@;
    &&& forall|g: int, m: u32|
        g < i && #[trigger] grouped(groups, g, m) ==> seen.contains(m) || base.shunted.contains_key(
            m,
        )
    &&& forall|g: int, m: u32| g > i && #[trigger] grouped(groups, g, m) ==> !seen.contains(m)
    &&& forall|t: int| j <= t < group.len() ==> !seen.contains((#[trigger] group[t]).0)
    &&& forall|t: int|
        0 <= t < j ==> seen.contains((#[trigger] group[t]).0) || base.shunted.contains_key(
            group[t].0,
        )
    &&& forall|t: int|
        0 <= t < j && !base.shunted.contains_key((#[trigger] group[t]).0) ==> (
        combined matches Some(c) && now.shunted[group[t].0] == c.0)
    &&& combined matches Some(c) ==> {
        &&& base.fresh <= c.0 < now.fresh
        &&& !now.shunted.contains_key(c.0)
        &&& now.shunted.contains_key(k)
        &&& now.shunted[k] == c.0
        &&& grouped(groups, i, k)
    }
}

proof fn lemma_group_starts(
    base: Ctx,
    groups: Seq<Vec<Meta>>,
    i: int,
    done: Set<u32>,
    now: Ctx,
)
    requires
        0 <= i < groups.len(),
        handled(base, groups, i, done),
    ensures
        underway(base, groups, i, 0, done, now, None, 0),
{
    reveal(underway);
    let group = groups[i]@;
    assert forall|t: int| 0 <= t < group.len() implies !done.contains((#[trigger] group[t]).0) by {
        assert(group[t] == Meta(group[t].0));
        assert(grouped(groups, i, group[t].0));
    }
}

/// What can be said of the next member of the group.
proof fn lemma_underway_member(
    base: Ctx,
    groups: Seq<Vec<Meta>>,
    i: int,
    j: int,
    seen: Set<u32>,
    now: Ctx,
    combined: Option<Meta>,
    k: u32,
)
    requires
        base.wf(),
        partition(base, groups),
        0 <= i < groups.len(),
        0 <= j < groups[i]@.len(),
        merging(base, now, seen),
        underway(base, groups, i, j, seen, now, combined, k),
    ensures
        base.eq_nodes.contains(groups[i]@[j].0),
        now.shunted.contains_key(groups[i]@[j].0) <==> base.shunted.contains_key(groups[i]@[j].0),
        combined matches Some(c) ==> !now.shunted.contains_key(groups[i]@[j].0) ==> base.fresh
            <= c.0 && now.joinable(k, groups[i]@[j].0, c.0),
        forall|a: u32| #[trigger]
            seen.contains(a) && base.to_merge(a) && (linked(base.eqs, a, groups[i]@[j].0) || linked(
                base.eqs,
                groups[i]@[j].0,
                a,
            )) ==> (combined matches Some(c) && now.shunted[a] == c.0),
        now.shunted.contains_key(groups[i]@[j].0) ==> underway(
            base,
            groups,
            i,
            j + 1,
            seen,
            now,
            combined,
            k,
        ),
{
    reveal(underway);
    reveal(merging);
    let group = groups[i]@;
    let m = group[j].0;
    assert(group[j] == Meta(m));
    assert(grouped(groups, i, m));
    assert(base.eq_nodes.contains(m));
    assert forall|a: u32| #[trigger]
        seen.contains(a) && base.to_merge(a) && (linked(base.eqs, a, m) || linked(
            base.eqs,
            m,
            a,
        )) implies (combined matches Some(c) && now.shunted[a] == c.0) by {
        assert(base.eq_nodes.contains(a));
        let g = choose|g: int| grouped(groups, g, a);
        assert(g == i);
        let t = choose|t: int| 0 <= t < group.len() && group[t] == Meta(a);
        assert(group[t].0 == a);
    }
}

/// One more member of the group has been merged.
proof fn lemma_underway_next(
    base: Ctx,
    groups: Seq<Vec<Meta>>,
    i: int,
    j: int,
    seen: Set<u32>,
    now: Ctx,
    after: Ctx,
    combined: Option<Meta>,
    k: u32,
    c: Meta,
)
    requires
        base.wf(),
        partition(base, groups),
        0 <= i < groups.len(),
        0 <= j < groups[i]@.len(),
        merging(base, now, seen),
        underway(base, groups, i, j, seen, now, combined, k),
        combined matches Some(d) ==> d == c,
        base.fresh <= c.0 < after.fresh,
        !after.shunted.contains_key(c.0),
        after.shunted.contains_key(groups[i]@[j].0),
        after.shunted[groups[i]@[j].0] == c.0,
        forall|a: u32| #[trigger] now.shunted.contains_key(a) ==> after.shunted[a] == now.shunted[a],
    ensures
        underway(
            base,
            groups,
            i,
            j + 1,
            seen.insert(groups[i]@[j].0),
            after,
            Some(c),
            groups[i]@[j].0,
        ),
{
    reveal(underway);
    reveal(merging);
    let group = groups[i]@;
    let m = group[j].0;
    assert(group[j] == Meta(m));
    assert(grouped(groups, i, m));
    assert forall|t: int| 0 <= t < j && !base.shunted.contains_key(
        (#[trigger] group[t]).0,
    ) implies after.shunted[group[t].0] == c.0 by {
        assert(now.shunted.contains_key(group[t].0));
    }
    assert forall|g: int, n: u32| g > i && #[trigger] grouped(groups, g, n) implies !seen.insert(
        m,
    ).contains(n) by {
        if n == m {
            assert(grouped(groups, i, m) && grouped(groups, i, m));
            assert(grouped(groups, g, m) && grouped(groups, i, m));
        }
    }
    assert forall|t: int| j + 1 <= t < group.len() implies !seen.insert(m).contains(
        (#[trigger] group[t]).0,
    ) by {
        if group[t].0 == m {
            assert(group[t] == group[j]);
        }
    }
}

proof fn lemma_group_ends(
    base: Ctx,
    groups: Seq<Vec<Meta>>,
    i: int,
    seen: Set<u32>,
    now: Ctx,
    combined: Option<Meta>,
    k: u32,
)
    requires
        0 <= i < groups.len(),
        underway(base, groups, i, groups[i]@.len() as int, seen, now, combined, k),
    ensures
        handled(base, groups, i + 1, seen),
{
    reveal(underway);
    let group = groups[i]@;
    assert forall|g: int, m: u32|
        g < i + 1 && #[trigger] grouped(groups, g, m) implies seen.contains(m)
        || base.shunted.contains_key(m) by {
        if g == i {
            let t = choose|t: int| 0 <= t < group.len() && group[t] == Meta(m);
            assert(group[t].0 == m);
        }
    }
}

/// Those that have been dealt with have been merged.
proof fn lemma_done_shunted(base: Ctx, now: Ctx, done: Set<u32>)
    requires
        merging(base, now, done),
    ensures
        forall|m: u32| #[trigger] done.contains(m) ==> now.shunted.contains_key(m),
{
    reveal(merging);
}

/// Counting in one more metavariable.
proof fn lemma_tally(
    base: Ctx,
    now: Ctx,
    after: Ctx,
    done: Set<u32>,
    m: u32,
    c: u32,
    constrained: bool,
    merged: Set<u32>,
    created: Set<u32>,
)
    requires
        tallied(base, now, done, merged, created),
        merging(base, now, done),
        base.to_merge(m),
        !now.shunted.contains_key(m),
        after.shunted.contains_key(m) && after.shunted[m] == c,
        forall|a: u32| #[trigger] now.shunted.contains_key(a) ==> after.shunted[a] == now.shunted[a],
        constrained == base.cons.contains_key(m),
    ensures
        tallied(
            base,
            after,
            done.insert(m),
            if constrained {
                merged.insert(m)
            } else {
                merged
            },
            if constrained {
                created.insert(c)
            } else {
                created
            },
        ),
{
    lemma_done_shunted(base, now, done);
    let more = if constrained {
        merged.insert(m)
    } else {
        merged
    };
    let made = if constrained {
        created.insert(c)
    } else {
        created
    };
    assert forall|x: u32| #[trigger] merged.contains(x) implies after.shunted[x] == now.shunted[x]
        && x != m by {
        assert(now.shunted.contains_key(x));
    }
    assert forall|e: u32| #[trigger] made.contains(e) <==> exists|x: u32| #[trigger]
        more.contains(x) && after.shunted[x] == e by {
        if created.contains(e) {
            let x = choose|x: u32| #[trigger] merged.contains(x) && now.shunted[x] == e;
            assert(more.contains(x) && after.shunted[x] == e);
        }
        if constrained && e == c {
            assert(more.contains(m) && after.shunted[m] == e);
        }
        if exists|x: u32| #[trigger] more.contains(x) && after.shunted[x] == e {
            let x = choose|x: u32| #[trigger] more.contains(x) && after.shunted[x] == e;
            if x != m {
                assert(merged.contains(x) && now.shunted[x] == e);
            }
        }
    }
}

/// When every group has been dealt with, so have all metavariables that take
/// part in equalities.
proof fn lemma_all_handled(
    base: Ctx,
    groups: Seq<Vec<Meta>>,
    done: Set<u32>,
    now: Ctx,
    merged: Set<u32>,
    created: Set<u32>,
)
    requires
        base.in_range(),
        partition(base, groups),
        handled(base, groups, groups.len() as int, done),
        merging(base, now, done),
        tallied(base, now, done, merged, created),
    ensures
        merging(base, now, base.eq_nodes),
        tallied(base, now, base.eq_nodes, merged, created),
{
    reveal(merging);
    assert forall|m: u32| #[trigger] base.eq_nodes.contains(m) implies done.contains(m)
        || base.shunted.contains_key(m) by {
        let g = choose|g: int| grouped(groups, g, m);
    }
    lemma_merges_same(base, now, done, base.eq_nodes);
}

/// What has been merged depends only on those that were to be merged.
#[verifier::spinoff_prover]
#[verifier::rlimit(60)]
proof fn lemma_merges_same(base: Ctx, now: Ctx, a: Set<u32>, b: Set<u32>)
    requires
        base.in_range(),
        base.merges(now, a),
        forall|m: u32| base.to_merge(m) ==> (#[trigger] a.contains(m) <==> b.contains(m)),
        forall|m: u32| #[trigger] a.contains(m) ==> base.eq_nodes.contains(m),
        forall|m: u32| #[trigger] b.contains(m) ==> base.eq_nodes.contains(m),
    ensures
        base.merges(now, b),
{
    lemma_goes_same(base, now, a, b);
    assert forall|m: u32| base.cons.contains_key(m) || base.vars.contains(m) implies (a.contains(m)
        <==> b.contains(m)) by {
        if base.eq_nodes.contains(m) {
            assert(base.to_merge(m));
        }
    }
    assert forall|m: u32| #[trigger] now.shunted.contains_key(m) <==> base.shunted.contains_key(m)
        || (b.contains(m) && base.eq_nodes.contains(m)) by {
        if base.to_merge(m) {
            assert(a.contains(m) <==> b.contains(m));
        }
    }
}

/// What goes where depends only on those that were to be merged.
proof fn lemma_goes_same(base: Ctx, now: Ctx, a: Set<u32>, b: Set<u32>)
    requires
        forall|m: u32| base.to_merge(m) ==> (#[trigger] a.contains(m) <==> b.contains(m)),
    ensures
        forall|m: u32, c: u32| #[trigger]
            base.goes_to(now, b, m, c) == base.goes_to(now, a, m, c),
        forall|c: u32| #[trigger] base.made_for(now, b, c) == base.made_for(now, a, c),
        forall|c: u32, d: Con| #[trigger]
            base.brings(now, b, c, d) == base.brings(now, a, c, d),
        forall|c: u32| #[trigger]
            base.brings_solution(now, b, c) == base.brings_solution(now, a, c),
        forall|c: u32| #[trigger]
            base.brings_variable(now, b, c) == base.brings_variable(now, a, c),
{
    assert forall|m: u32, c: u32| #[trigger] base.goes_to(now, b, m, c) == base.goes_to(
        now,
        a,
        m,
        c,
    ) by {
        if base.to_merge(m) {
            assert(a.contains(m) <==> b.contains(m));
        }
    }
    assert forall|m: u32, c: u32| #[trigger] base.goes_to(now, a, m, c) == base.goes_to(
        now,
        b,
        m,
        c,
    ) by {
        assert(base.goes_to(now, b, m, c) == base.goes_to(now, a, m, c));
    }
}

/// There are no more groups than metavariables.
proof fn lemma_group_count(ctx: Ctx, groups: Seq<Vec<Meta>>)
    requires
        ctx.in_range(),
        forall|i: int| 0 <= i < groups.len() ==> (#[trigger] groups[i])@.len() > 0,
        forall|m: u32|
            #![trigger ctx.eq_nodes.contains(m)]
            ctx.eq_nodes.contains(m) <==> exists|i: int| grouped(groups, i, m),
        forall|i: int, j: int, a: u32, b: u32| #[trigger]
            grouped(groups, i, a) && #[trigger] grouped(groups, j, b) ==> (i == j <==> linked(
                ctx.eqs,
                a,
                b,
            )),
    ensures
        groups.len() <= ctx.fresh,
{
    let firsts = Seq::new(groups.len(), |i: int| groups[i]@[0].0 as int);
    assert forall|i: int| 0 <= i < groups.len() implies grouped(
        groups,
        i,
        #[trigger] groups[i]@[0].0,
    ) by {
        assert(groups[i]@[0] == Meta(groups[i]@[0].0));
    }
    assert forall|i: int, j: int|
        0 <= i < firsts.len() && 0 <= j < firsts.len() && i != j implies firsts[i]
        != firsts[j] by {
        let a = groups[i]@[0].0;
        let b = groups[j]@[0].0;
        assert(grouped(groups, i, a) && grouped(groups, j, b));
        if a == b {
            assert(grouped(groups, i, b));
        }
    }
    assert forall|x: int| #[trigger] firsts.to_set().contains(x) implies 0 <= x < ctx.fresh by {
        let i = choose|i: int| 0 <= i < firsts.len() && firsts[i] == x;
        assert(grouped(groups, i, groups[i]@[0].0));
        assert(ctx.eq_nodes.contains(groups[i]@[0].0));
    }
    firsts.unique_seq_to_set();
    vstd::set_lib::lemma_int_range(0, ctx.fresh as int);
    assert(firsts.to_set().subset_of(vstd::set_lib::set_int_range(0, ctx.fresh as int)));
    vstd::set_lib::lemma_len_subset(
        firsts.to_set(),
        vstd::set_lib::set_int_range(0, ctx.fresh as int),
    );
}

} // verus!
