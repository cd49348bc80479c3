//! What a step knows while it runs: the block, the limits of its scope and
//! when its scope was entered.

use crate::limits::ScopeLimits;
use crate::payload::block::{same_block, BlockContext};
use vstd::prelude::*;

verus! {

/// Whether a scope entered at `started_at` has run for its whole deadline
/// at time `now`; never when there is no deadline or the scope is not
/// active.
pub open spec fn deadline_passed(limits: ScopeLimits, started_at: Option<u64>, now: u64) -> bool {
    match (limits.deadline_millis, started_at) {
        (Some(d), Some(s)) => (if now >= s { now - s } else { 0 }) >= d,
        _ => false,
    }
}

/// The context of the step that runs: the block under construction, the
/// limits of the step's scope and when that scope was entered.
#[derive(Debug)]
pub struct StepContext {
    block: BlockContext,
    limits: ScopeLimits,
    started_at: Option<u64>,
}

impl StepContext {
    /// The block under construction.
    pub closed spec fn spec_block(&self) -> BlockContext {
        self.block
    }

    /// The limits of the step's scope.
    pub closed spec fn spec_limits(&self) -> ScopeLimits {
        self.limits
    }

    /// When the step's scope was entered.
    pub closed spec fn spec_started_at(&self) -> Option<u64> {
        self.started_at
    }

    /// A context for a step of `block` that runs with `limits` in a scope
    /// entered at `in_scope_since`.
    pub fn new(block: &BlockContext, limits: ScopeLimits, in_scope_since: Option<u64>) -> (r: Self)
        ensures
            same_block(r.spec_block(), *block),
            r.spec_limits() == limits,
            r.spec_started_at() == in_scope_since,
    {
        StepContext { block: block.duplicate(), limits, started_at: in_scope_since }
    }

    /// The block under construction.
    pub fn block(&self) -> (r: &BlockContext)
        ensures
            *r == self.spec_block(),
    {
        &self.block
    }

    /// The limits for the step.
    pub fn limits(&self) -> (r: &ScopeLimits)
        ensures
            *r == self.spec_limits(),
    {
        &self.limits
    }

    /// When the step's scope was last entered.
    pub fn in_scope_since(&self) -> (r: Option<u64>)
        ensures
            r == self.spec_started_at(),
    {
        self.started_at
    }

    /// Whether the step's scope has run at least as long as its deadline at
    /// time `now`; `false` without a deadline.
    pub fn deadline_reached(&self, now: u64) -> (r: bool)
        ensures
            r == deadline_passed(self.spec_limits(), self.spec_started_at(), now),
            self.spec_limits().deadline_millis is None || self.spec_started_at() is None ==> !r,
            self.spec_limits().deadline_millis is Some && self.spec_started_at() is Some && self.spec_started_at()->0 <= now
                ==> (r <==> now - self.spec_started_at()->0 >= self.spec_limits().deadline_millis->0),
    {
        match (self.limits.deadline_millis, self.started_at) {
            (Some(d), Some(s)) => now.saturating_sub(s) >= d,
            _ => false,
        }
    }
}

/// A scope's deadline counts the time elapsed since the scope was entered:
/// at `now`, a scope entered at `s` with deadline `d` has reached it
/// exactly when `now - s >= d`; without a deadline, or when the scope was
/// never entered, it never has.
pub proof fn lemma_deadline_counts_elapsed_time(limits: ScopeLimits, started_at: Option<u64>, now: u64)
    ensures
        limits.deadline_millis is None || started_at is None ==> !deadline_passed(limits, started_at, now),
        limits.deadline_millis is Some && started_at is Some && started_at->0 <= now
            ==> (deadline_passed(limits, started_at, now) <==> now - started_at->0 >= limits.deadline_millis->0),
        limits.deadline_millis is Some && started_at is Some && now < started_at->0
            ==> (deadline_passed(limits, started_at, now) <==> limits.deadline_millis->0 == 0),
{
}

/// Only the time elapsed since the scope was entered matters: entering and
/// asking `k` milliseconds later gives the same answer.
pub proof fn lemma_deadline_shift_invariant(limits: ScopeLimits, s: u64, now: u64, k: u64)
    requires
        s + k <= u64::MAX,
        now + k <= u64::MAX,
    ensures
        deadline_passed(limits, Some(s), now) == deadline_passed(limits, Some((s + k) as u64), (now + k) as u64),
{
}

} // verus!

