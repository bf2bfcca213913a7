//! Counting allocations, and making them fail on purpose.

use vstd::prelude::*;

verus! {

/// `a - b`, or zero.
pub open spec fn monus(a: u64, b: u64) -> u64 {
    if a > b {
        (a - b) as u64
    } else {
        0
    }
}

/// `a + b`, or the greatest count.
pub open spec fn capped_sum(a: u64, b: u64) -> u64 {
    if a + b > u64::MAX {
        u64::MAX
    } else {
        (a + b) as u64
    }
}

/// Allocation counts at one moment.
#[derive(Clone, Copy, Debug, PartialEq, Eq, Structural)]
pub struct AllocSnapshot {
    /// Allocations.
    pub allocs: u64,
    /// Reallocations.
    pub reallocs: u64,
    /// Deallocations.
    pub deallocs: u64,
}

impl AllocSnapshot {
    /// The counts between this moment and a later one.
    pub open spec fn since(self, later: AllocSnapshot) -> AllocSnapshot {
        AllocSnapshot {
            allocs: monus(later.allocs, self.allocs),
            reallocs: monus(later.reallocs, self.reallocs),
            deallocs: monus(later.deallocs, self.deallocs),
        }
    }

    /// Allocations between this moment and a later one.
    #[must_use]
    pub fn delta_allocs(self, later: AllocSnapshot) -> (r: u64)
        ensures
            r == self.since(later).allocs,
    {
        later.allocs.saturating_sub(self.allocs)
    }

    /// Reallocations between this moment and a later one.
    #[must_use]
    pub fn delta_reallocs(self, later: AllocSnapshot) -> (r: u64)
        ensures
            r == self.since(later).reallocs,
    {
        later.reallocs.saturating_sub(self.reallocs)
    }

    /// What was counted between this moment and a later one.
    #[must_use]
    pub fn delta(self, later: AllocSnapshot) -> (r: AllocSnapshot)
        ensures
            r == self.since(later),
    {
        AllocSnapshot {
            allocs: self.delta_allocs(later),
            reallocs: self.delta_reallocs(later),
            deallocs: later.deallocs.saturating_sub(self.deallocs),
        }
    }

    /// Allocations and reallocations between this moment and a later one.
    #[must_use]
    pub fn delta_allocating(self, later: AllocSnapshot) -> (r: u64)
        ensures
            r == capped_sum(self.since(later).allocs, self.since(later).reallocs),
    {
        self.delta_allocs(later).saturating_add(self.delta_reallocs(later))
    }
}

/// A counter of allocations.
pub struct CountingAlloc {
    counts: AllocSnapshot,
}

impl View for CountingAlloc {
    type V = AllocSnapshot;

    closed spec fn view(&self) -> AllocSnapshot {
        self.counts
    }
}

/// The count after one more, which wraps around.
pub open spec fn next_tally(n: u64) -> u64 {
    if n == u64::MAX {
        0
    } else {
        (n + 1) as u64
    }
}

impl CountingAlloc {
    /// A counter at zero.
    #[must_use]
    pub fn new() -> (r: CountingAlloc)
        ensures
            r@ == (AllocSnapshot { allocs: 0, reallocs: 0, deallocs: 0 }),
    {
        CountingAlloc { counts: AllocSnapshot { allocs: 0, reallocs: 0, deallocs: 0 } }
    }

    /// The counts.
    #[must_use]
    pub fn snapshot(&self) -> (r: AllocSnapshot)
        ensures
            r == self@,
    {
        self.counts
    }

    /// Count an allocation.
    pub fn count_alloc(&mut self)
        ensures
            final(self)@ == (AllocSnapshot { allocs: next_tally(old(self)@.allocs), ..old(self)@ }),
    {
        self.counts.allocs = self.counts.allocs.wrapping_add(1);
    }

    /// Count a reallocation.
    pub fn count_realloc(&mut self)
        ensures
            final(self)@ == (AllocSnapshot {
                reallocs: next_tally(old(self)@.reallocs),
                ..old(self)@
            }),
    {
        self.counts.reallocs = self.counts.reallocs.wrapping_add(1);
    }

    /// Count a deallocation.
    pub fn count_dealloc(&mut self)
        ensures
            final(self)@ == (AllocSnapshot {
                deallocs: next_tally(old(self)@.deallocs),
                ..old(self)@
            }),
    {
        self.counts.deallocs = self.counts.deallocs.wrapping_add(1);
    }

    /// Run `body`, and tell what was counted meanwhile.
    pub fn scope<R>(&mut self, body: impl FnOnce(&mut CountingAlloc) -> R) -> (r: (
        R,
        AllocSnapshot,
    ))
        requires
            forall|c: &mut CountingAlloc| call_requires(body, (c,)),
        ensures
            exists|counter: &mut CountingAlloc, result: R| #[trigger]
                call_ensures(body, (counter,), result) && result == r.0 && *counter == *old(self)
                    && *final(counter) == *final(self),
            r.1 == old(self)@.since(final(self)@),
    {
        let before = self.snapshot();
        let result = body(self);
        let after = self.snapshot();
        (result, before.delta(after))
    }
}

/// Whether allocations fail, and from which on.
#[verifier::ext_equal]
pub struct FailState {
    /// Failing is armed.
    pub armed: bool,
    /// Allocations since arming.
    pub seen: u64,
    /// The first allocation that fails, counted from one.
    pub fail_at: u64,
}

impl FailState {
    /// The state after one more allocation.
    pub open spec fn stepped(self) -> FailState {
        if self.armed {
            FailState { seen: next_tally(self.seen), ..self }
        } else {
            self
        }
    }

    /// The next allocation fails.
    pub open spec fn fails(self) -> bool {
        self.armed && capped_sum(self.seen, 1) >= self.fail_at
    }

    /// The state after some allocations.
    pub open spec fn after(self, n: nat) -> FailState
        decreases n,
    {
        if n == 0 {
            self
        } else {
            self.after((n - 1) as nat).stepped()
        }
    }
}

/// Decides which allocations fail.
pub struct FailingAlloc {
    armed: bool,
    seen: u64,
    fail_at: u64,
}

impl View for FailingAlloc {
    type V = FailState;

    closed spec fn view(&self) -> FailState {
        FailState { armed: self.armed, seen: self.seen, fail_at: self.fail_at }
    }
}

impl FailingAlloc {
    /// No allocation fails.
    #[must_use]
    pub fn new() -> (r: FailingAlloc)
        ensures
            r@ == (FailState { armed: false, seen: 0, fail_at: u64::MAX }),
    {
        FailingAlloc { armed: false, seen: 0, fail_at: u64::MAX }
    }

    /// Make the `k`th allocation from now on fail, counted from one, and every
    /// later one.
    pub fn fail_after(&mut self, k: u64)
        ensures
            final(self)@ == (FailState { armed: true, seen: 0, fail_at: k }),
    {
        self.seen = 0;
        self.fail_at = k;
        self.armed = true;
    }

    /// Make no allocation fail.
    pub fn disarm(&mut self)
        ensures
            final(self)@ == (FailState {
                armed: false,
                seen: old(self)@.seen,
                fail_at: u64::MAX,
            }),
    {
        self.armed = false;
        self.fail_at = u64::MAX;
    }

    /// Whether the next allocation fails. It is counted while failing is armed.
    pub fn should_fail(&mut self) -> (r: bool)
        ensures
            r == old(self)@.fails(),
            r <==> old(self)@.armed && old(self)@.seen + 1 >= old(self)@.fail_at,
            final(self)@ == old(self)@.stepped(),
            final(self)@.armed == old(self)@.armed && final(self)@.fail_at == old(self)@.fail_at,
            old(self)@.armed && old(self)@.seen < u64::MAX ==> final(self)@.seen == old(self)@.seen
                + 1,
            !old(self)@.armed ==> final(self)@.seen == old(self)@.seen,
    {
        if !self.armed {
            return false;
        }
        let seen: u64 = self.seen.saturating_add(1);
        self.seen = self.seen.wrapping_add(1);
        seen >= self.fail_at
    }
}

/// Once armed at `k`, exactly the allocations from the `k`th on fail.
pub proof fn law_fails_from_kth(k: u64, n: nat)
    requires
        n < u64::MAX,
    ensures
        ({
            let armed = FailState { armed: true, seen: 0, fail_at: k };
            armed.after(n).fails() <==> n + 1 >= k
        }),
    decreases n,
{
    lemma_after(k, n);
}

proof fn lemma_after(k: u64, n: nat)
    requires
        n < u64::MAX,
    ensures
        (FailState { armed: true, seen: 0, fail_at: k }).after(n) == (FailState {
            armed: true,
            seen: n as u64,
            fail_at: k,
        }),
    decreases n,
{
    if n > 0 {
        lemma_after(k, (n - 1) as nat);
    }
}

/// What was counted between two moments is the difference of the counts, and nothing
/// where a count went back. Allocations and reallocations are added up, as far as a
/// count goes.
pub proof fn law_counts_between_are_differences(
    before: AllocSnapshot,
    later: AllocSnapshot,
    delta: AllocSnapshot,
    allocating: u64,
)
    requires
        call_ensures(AllocSnapshot::delta, (before, later), delta),
        call_ensures(AllocSnapshot::delta_allocating, (before, later), allocating),
    ensures
        later.allocs >= before.allocs ==> delta.allocs == later.allocs - before.allocs,
        later.allocs < before.allocs ==> delta.allocs == 0,
        later.reallocs >= before.reallocs ==> delta.reallocs == later.reallocs - before.reallocs,
        later.reallocs < before.reallocs ==> delta.reallocs == 0,
        later.deallocs >= before.deallocs ==> delta.deallocs == later.deallocs - before.deallocs,
        later.deallocs < before.deallocs ==> delta.deallocs == 0,
        delta.allocs + delta.reallocs <= u64::MAX ==> allocating == delta.allocs + delta.reallocs,
        delta.allocs + delta.reallocs > u64::MAX ==> allocating == u64::MAX,
{
}

/// A tally goes up by one, and from the highest count to zero.
pub proof fn law_tallies_go_up_by_one(n: u64)
    ensures
        next_tally(n) == (n + 1) % 0x1_0000_0000_0000_0000,
{
}

} // verus!
