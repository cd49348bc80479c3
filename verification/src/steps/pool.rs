//! The decisions of the steps that take transactions from the pool: when to
//! stop, which candidates to skip or reject, and which to keep once applied.
//!
//! Iterating the pool and executing a candidate are done by the caller,
//! which hands each candidate and each resulting checkpoint to these
//! functions.

use crate::executor::{ControlFlow, PayloadBuilderError};
use crate::fmt::{decimal, push_decimal};
use crate::limits::ScopeLimits;
use crate::payload::block::same_block;
use crate::payload::checkpoint::{pushed, Checkpoint, NodeView};
use crate::payload::exec::{exec_view, ExecutionResult, Tx};
use crate::payload::ext::{blob_pred, history_view};
use crate::payload::span::{blob_gas_sum, span_gas, span_txs};
use crate::steps::context::{deadline_passed, StepContext};
use std::collections::HashSet;
use vstd::prelude::*;

verus! {

/// The gas used by the whole history of a payload.
pub open spec fn payload_gas(h: Seq<NodeView>) -> int {
    span_gas(history_view(h))
}

/// All transactions of the history of a payload.
pub open spec fn payload_txs(h: Seq<NodeView>) -> Seq<Tx> {
    span_txs(history_view(h))
}

/// Whether a payload has reached the gas limit or the maximum number of
/// transactions of `limits`.
pub open spec fn at_limits_spec(h: Seq<NodeView>, limits: ScopeLimits) -> bool {
    ||| payload_gas(h) >= limits.gas_limit
    ||| (limits.max_transactions matches Some(n) && payload_txs(h).len() >= n)
}

/// Whether the blobs of `t` fit next to `used` blob gas within `limits`;
/// transactions without blobs, or limits without blob parameters, always
/// fit.
pub open spec fn blobs_fit_spec(t: Tx, used: int, limits: ScopeLimits) -> bool {
    match (t.blob_gas_used, limits.blob_params) {
        (Some(g), Some(p)) => g + used <= p.spec_max_blob_gas_per_block(),
        _ => true,
    }
}

/// Blob gas is counted over the whole payload: a blob transaction fits only
/// when its blob gas plus the blob gas of the payload's transactions is at
/// most the block's maximum, the maximum blob count times 131072 (the blob
/// gas of one blob); transactions without blobs, and limits without blob
/// parameters, always fit.
pub proof fn lemma_blobs_fit_counts_payload_blobs(t: Tx, used: int, limits: ScopeLimits)
    ensures
        t.blob_gas_used is None ==> blobs_fit_spec(t, used, limits),
        limits.blob_params is None ==> blobs_fit_spec(t, used, limits),
        t.blob_gas_used is Some && limits.blob_params is Some ==> (blobs_fit_spec(t, used, limits)
            <==> t.blob_gas_used->0 + used <= limits.blob_params->0.max_blob_count * 131072),
{
}

/// A payload whose blob gas already reaches the block's maximum admits no
/// further blob transaction.
pub proof fn lemma_full_payload_takes_no_blobs(t: Tx, used: int, limits: ScopeLimits)
    requires
        t.blob_gas_used is Some,
        t.blob_gas_used->0 > 0,
        limits.blob_params is Some,
        used >= limits.blob_params->0.max_blob_count * 131072,
    ensures
        !blobs_fit_spec(t, used, limits),
{
}

fn at_limits(payload: &Checkpoint, limits: &ScopeLimits) -> (r: bool)
    requires
        payload_gas(payload@) <= u128::MAX,
    ensures
        r == at_limits_spec(payload@, *limits),
{
    let history = payload.history();
    if history.gas_used() >= limits.gas_limit as u128 {
        return true;
    }
    match limits.max_transactions {
        Some(n) => history.transactions().len() as u64 >= n,
        None => false,
    }
}

fn blobs_fit(payload: &Checkpoint, candidate: &Tx, limits: &ScopeLimits) -> (r: bool)
    requires
        blob_gas_sum(payload_txs(payload@)) <= u128::MAX,
    ensures
        r == blobs_fit_spec(*candidate, blob_gas_sum(payload_txs(payload@)), *limits),
{
    match (candidate.blob_gas_used, limits.blob_params) {
        (Some(g), Some(p)) => {
            let used = payload.cumulative_blob_gas_used();
            let max = p.max_blob_gas_per_block();
            if used > max {
                false
            } else {
                (g as u128) <= max - used
            }
        },
        _ => true,
    }
}

/// Fills the payload with the best transactions of the pool until the pool
/// is exhausted, the deadline passes or the payload reaches its limits.
#[derive(Debug, Clone, Copy)]
pub struct GatherBestTransactions;

impl GatherBestTransactions {
    /// Whether to stop before taking the next candidate: the deadline has
    /// passed, or the payload reached the gas limit or the maximum number of
    /// transactions.
    pub fn should_stop(&self, payload: &Checkpoint, ctx: &StepContext, now: u64) -> (r: bool)
        requires
            payload_gas(payload@) <= u128::MAX,
        ensures
            r == (deadline_passed(ctx.spec_limits(), ctx.spec_started_at(), now)
                || at_limits_spec(payload@, ctx.spec_limits())),
    {
        if ctx.deadline_reached(now) {
            return true;
        }
        at_limits(payload, ctx.limits())
    }

    /// Whether the blobs of a candidate fit in the payload; a candidate that
    /// does not fit is skipped.
    pub fn blobs_fit(&self, payload: &Checkpoint, candidate: &Tx, ctx: &StepContext) -> (r: bool)
        requires
            blob_gas_sum(payload_txs(payload@)) <= u128::MAX,
        ensures
            r == blobs_fit_spec(*candidate, blob_gas_sum(payload_txs(payload@)), ctx.spec_limits()),
    {
        blobs_fit(payload, candidate, ctx.limits())
    }

    /// Whether the payload with a candidate applied stays within the gas
    /// limit; if so it replaces the payload, else the candidate is skipped.
    pub fn keeps(&self, new_payload: &Checkpoint, ctx: &StepContext) -> (r: bool)
        requires
            payload_gas(new_payload@) <= u128::MAX,
        ensures
            r == (payload_gas(new_payload@) <= ctx.spec_limits().gas_limit),
    {
        new_payload.history().gas_used() <= ctx.limits().gas_limit as u128
    }
}

/// Whether the gas sums of a payload's history fit in 128 bits.
pub open spec fn sums_fit(h: Seq<NodeView>) -> bool {
    payload_gas(h) <= u128::MAX && blob_gas_sum(payload_txs(h)) <= u128::MAX
}

/// What the gathering step does next.
#[derive(Debug)]
pub enum GatherAction {
    /// The step is over: continue the pipeline with the payload as it is.
    Stop,
    /// The payload's gas sums do not fit in 128 bits: the step fails.
    Overflow,
    /// Take the next candidate from the pool.
    Next,
    /// Execute this candidate on the payload.
    Execute(Tx),
}

impl GatherBestTransactions {
    /// What to do before taking the next candidate: fail when the gas sums
    /// of the payload overflow, stop when the deadline has passed or the
    /// payload reached its limits, else take a candidate.
    pub fn poll(&self, payload: &Checkpoint, ctx: &StepContext, now: u64) -> (r: GatherAction)
        ensures
            !sums_fit(payload@) ==> r is Overflow,
            sums_fit(payload@) ==> if deadline_passed(ctx.spec_limits(), ctx.spec_started_at(), now)
                || at_limits_spec(payload@, ctx.spec_limits()) {
                r is Stop
            } else {
                r is Next
            },
    {
        if payload.checked_cumulative_gas_used().is_none() || payload.checked_cumulative_blob_gas_used().is_none() {
            return GatherAction::Overflow;
        }
        if self.should_stop(payload, ctx, now) {
            GatherAction::Stop
        } else {
            GatherAction::Next
        }
    }

    /// What to do with what the pool gave: stop when it is exhausted, skip a
    /// candidate whose blobs do not fit, else execute it.
    pub fn on_candidate(&self, payload: &Checkpoint, candidate: Option<Tx>, ctx: &StepContext) -> (r: GatherAction)
        requires
            sums_fit(payload@),
        ensures
            match candidate {
                None => r is Stop,
                Some(t) => if blobs_fit_spec(t, blob_gas_sum(payload_txs(payload@)), ctx.spec_limits()) {
                    r == GatherAction::Execute(t)
                } else {
                    r is Next
                },
            },
    {
        match candidate {
            None => GatherAction::Stop,
            Some(t) => if self.blobs_fit(payload, &t, ctx) {
                GatherAction::Execute(t)
            } else {
                GatherAction::Next
            },
        }
    }

    /// The payload to carry on with once a candidate was executed: the
    /// payload with the result applied when that stays within the gas limit
    /// (and its gas sum fits in 128 bits), else the payload unchanged; a
    /// failed execution leaves the payload unchanged. A payload within the
    /// gas limit stays within it.
    pub fn on_executed<E>(&self, payload: Checkpoint, outcome: Result<ExecutionResult, E>, ctx: &StepContext, now: u64)
        -> (r: Checkpoint)
        ensures
            match outcome {
                Err(_) => r == payload,
                Ok(res) => {
                    let applied = pushed(
                        payload@,
                        Some((exec_view(res.spec_source()), res.spec_results())),
                        res.spec_state(),
                        now,
                        payload@.last().context,
                    );
                    if payload_gas(applied) <= ctx.spec_limits().gas_limit {
                        r@ == applied && same_block(r.spec_block(), payload.spec_block())
                    } else {
                        r == payload
                    }
                },
            },
            payload_gas(payload@) <= ctx.spec_limits().gas_limit ==> payload_gas(r@) <= ctx.spec_limits().gas_limit,
    {
        match outcome {
            Err(_) => payload,
            Ok(res) => {
                let applied = payload.apply(res, now);
                match applied.checked_cumulative_gas_used() {
                    Some(_) => {
                        if self.keeps(&applied, ctx) {
                            applied
                        } else {
                            payload
                        }
                    },
                    None => payload,
                }
            },
        }
    }
}

/// A transaction that an earlier run of the pipeline added to the payload
/// and that a later step removed again.
#[derive(Debug, Clone, Copy, PartialEq, Eq, Structural)]
pub struct DiscardedByOtherSteps(pub u64);

impl DiscardedByOtherSteps {
    /// The message of this error.
    pub fn message(&self) -> (r: String)
        ensures
            r@ == "Transaction was discarded by other steps in the pipeline: "@ + decimal(self.0 as nat),
    {
        let mut out = String::new();
        out.append("Transaction was discarded by other steps in the pipeline: ");
        proof {
            reveal_strlit("Transaction was discarded by other steps in the pipeline: ");
        }
        push_decimal(&mut out, self.0 as u128);
        out
    }
}

/// What to do with a candidate from the pool.
#[derive(Debug, Clone, Copy, PartialEq, Eq, Structural)]
pub enum Candidate {
    /// The deadline has passed: stop with the payload as it is.
    Stop,
    /// The transaction is in the payload already.
    Skip,
    /// The transaction was added before and removed by a later step: mark it
    /// invalid in the pool, so that its dependents are not taken either.
    Discard(DiscardedByOtherSteps),
    /// The payload has no room for the transaction's blobs: mark it invalid
    /// in the pool.
    TooManyBlobs {
        /// The blob transactions in the payload.
        have: u64,
        /// The maximum number of blobs of the block.
        permitted: u64,
    },
    /// Execute the transaction on the payload.
    Apply,
}

/// What to do with the candidate `t` of the pool, given the hashes `added`
/// in this job and the payload history `h`: stop once the deadline has
/// passed, skip a transaction the payload holds, discard one added before
/// and removed since, reject one whose blobs do not fit, else apply it.
pub open spec fn candidate_decision(
    added: Set<u64>,
    h: Seq<NodeView>,
    t: Tx,
    limits: ScopeLimits,
    started_at: Option<u64>,
    now: u64,
) -> Candidate {
    if deadline_passed(limits, started_at, now) {
        Candidate::Stop
    } else if exists|i: int| 0 <= i < payload_txs(h).len() && (#[trigger] payload_txs(h)[i]).hash == t.hash {
        Candidate::Skip
    } else if added.contains(t.hash) {
        Candidate::Discard(DiscardedByOtherSteps(t.hash))
    } else if !blobs_fit_spec(t, blob_gas_sum(payload_txs(h)), limits) {
        Candidate::TooManyBlobs {
            have: payload_txs(h).filter(blob_pred()).len() as u64,
            permitted: limits.blob_params->0.max_blob_count,
        }
    } else {
        Candidate::Apply
    }
}

/// Why a candidate of the pool is marked invalid there.
#[derive(Debug, Clone, Copy, PartialEq, Eq, Structural)]
pub enum Rejection {
    /// It was added before in this job and removed by a later step.
    Discarded(DiscardedByOtherSteps),
    /// The payload has no room for its blobs.
    TooManyBlobs {
        /// The blob transactions in the payload.
        have: u64,
        /// The maximum number of blobs of the block.
        permitted: u64,
    },
    /// Applying it would exceed the gas limit.
    ExceedsGasLimit {
        /// The transaction's own gas limit.
        tx_gas_limit: u64,
        /// The gas limit of the step's scope.
        block_gas_limit: u64,
    },
}

/// Where appending a transaction from the pool stands.
#[derive(Debug)]
pub enum Appending {
    /// Take the next candidate from the pool for this payload.
    Next(Checkpoint),
    /// Mark this candidate invalid in the pool for this reason, then take the
    /// next candidate for the payload.
    Reject(Checkpoint, Tx, Rejection),
    /// Execute this candidate on the payload.
    Execute(Checkpoint, Tx),
    /// The step is over with this outcome.
    Done(ControlFlow),
}

/// The message when the gas sums of a payload do not fit in 128 bits.
pub open spec fn overflow_message() -> Seq<char> {
    "the gas used by the payload does not fit in 128 bits"@
}

/// Appends one new transaction from the pool to the payload, if it stays
/// within the payload limits; it does not add a transaction twice in one
/// payload job.
#[derive(Debug)]
pub struct AppendNewTransactionFromPool {
    previously_added: HashSet<u64>,
}

impl AppendNewTransactionFromPool {
    /// The hashes of the transactions added in this payload job.
    pub closed spec fn spec_added(&self) -> Set<u64> {
        self.previously_added@
    }

    /// A step that has added nothing yet.
    pub fn new() -> (r: Self)
        ensures
            r.spec_added() == Set::<u64>::empty(),
    {
        AppendNewTransactionFromPool { previously_added: HashSet::new() }
    }

    /// Forgets the added transactions, before a new payload job.
    pub fn before_job(&mut self)
        ensures
            final(self).spec_added() == Set::<u64>::empty(),
    {
        self.previously_added = HashSet::new();
    }

    /// Whether the payload has reached its limits already: then the step
    /// breaks with the payload as it is.
    pub fn at_limits(&self, payload: &Checkpoint, ctx: &StepContext) -> (r: bool)
        requires
            payload_gas(payload@) <= u128::MAX,
        ensures
            r == at_limits_spec(payload@, ctx.spec_limits()),
    {
        at_limits(payload, ctx.limits())
    }

    /// What to do with the next candidate of the pool.
    pub fn screen(&self, payload: &Checkpoint, candidate: &Tx, ctx: &StepContext, now: u64) -> (r: Candidate)
        requires
            blob_gas_sum(payload_txs(payload@)) <= u128::MAX,
        ensures
            r == candidate_decision(self.spec_added(), payload@, *candidate, ctx.spec_limits(), ctx.spec_started_at(), now),
    {
        if ctx.deadline_reached(now) {
            return Candidate::Stop;
        }
        let history = payload.history();
        if history.contains(candidate.hash) {
            return Candidate::Skip;
        }
        proof {
            broadcast use vstd::std_specs::hash::group_hash_axioms;
        }
        if self.previously_added.contains(&candidate.hash) {
            return Candidate::Discard(DiscardedByOtherSteps(candidate.hash));
        }
        if !blobs_fit(payload, candidate, ctx.limits()) {
            let have = history.blobs().len() as u64;
            let permitted = match ctx.limits().blob_params {
                Some(p) => p.max_blob_count,
                None => 0,
            };
            return Candidate::TooManyBlobs { have, permitted };
        }
        Candidate::Apply
    }

    /// Whether the payload with the candidate applied stays within the gas
    /// limit; if so the candidate is recorded as added and the step
    /// continues with the new payload, else the candidate is marked invalid
    /// in the pool.
    pub fn accept(&mut self, new_payload: &Checkpoint, candidate: &Tx, ctx: &StepContext) -> (r: bool)
        requires
            payload_gas(new_payload@) <= u128::MAX,
        ensures
            r == (payload_gas(new_payload@) <= ctx.spec_limits().gas_limit),
            r ==> final(self).spec_added() == old(self).spec_added().insert(candidate.hash),
            !r ==> final(self).spec_added() == old(self).spec_added(),
    {
        let fits = new_payload.history().gas_used() <= ctx.limits().gas_limit as u128;
        if fits {
            proof {
                broadcast use vstd::std_specs::hash::group_hash_axioms;
            }
            self.previously_added.insert(candidate.hash);
        }
        fits
    }

    /// The start of the step: it fails when the payload's gas sums do not
    /// fit in 128 bits, breaks with the payload when it has reached its
    /// limits already, else takes a candidate.
    pub fn start(&self, payload: Checkpoint, ctx: &StepContext) -> (r: Appending)
        ensures
            !sums_fit(payload@) ==> (r matches Appending::Done(ControlFlow::Fail(PayloadBuilderError::Other(m)))
                && m@ == overflow_message()),
            sums_fit(payload@) && at_limits_spec(payload@, ctx.spec_limits()) ==> r == Appending::Done(ControlFlow::Break(payload)),
            sums_fit(payload@) && !at_limits_spec(payload@, ctx.spec_limits()) ==> r == Appending::Next(payload),
    {
        if payload.checked_cumulative_gas_used().is_none() || payload.checked_cumulative_blob_gas_used().is_none() {
            let mut m = String::new();
            proof {
                reveal_strlit("the gas used by the payload does not fit in 128 bits");
            }
            m.append("the gas used by the payload does not fit in 128 bits");
            return Appending::Done(ControlFlow::Fail(PayloadBuilderError::Other(m)));
        }
        if self.at_limits(&payload, ctx) {
            Appending::Done(ControlFlow::Break(payload))
        } else {
            Appending::Next(payload)
        }
    }

    /// What follows what the pool gave: when it is exhausted or the deadline
    /// has passed, break with the payload as it is; a transaction the
    /// payload holds is skipped; one added before in this job, or whose
    /// blobs do not fit, is rejected; any other is executed.
    pub fn on_candidate(&self, payload: Checkpoint, candidate: Option<Tx>, ctx: &StepContext, now: u64) -> (r: Appending)
        requires
            sums_fit(payload@),
        ensures
            match candidate {
                None => r == Appending::Done(ControlFlow::Break(payload)),
                Some(t) => match candidate_decision(self.spec_added(), payload@, t, ctx.spec_limits(), ctx.spec_started_at(), now) {
                    Candidate::Stop => r == Appending::Done(ControlFlow::Break(payload)),
                    Candidate::Skip => r == Appending::Next(payload),
                    Candidate::Discard(d) => r == Appending::Reject(payload, t, Rejection::Discarded(d)),
                    Candidate::TooManyBlobs { have, permitted } =>
                        r == Appending::Reject(payload, t, Rejection::TooManyBlobs { have, permitted }),
                    Candidate::Apply => r == Appending::Execute(payload, t),
                },
            },
    {
        let t = match candidate {
            None => {
                return Appending::Done(ControlFlow::Break(payload));
            },
            Some(t) => t,
        };
        match self.screen(&payload, &t, ctx, now) {
            Candidate::Stop => Appending::Done(ControlFlow::Break(payload)),
            Candidate::Skip => Appending::Next(payload),
            Candidate::Discard(d) => Appending::Reject(payload, t, Rejection::Discarded(d)),
            Candidate::TooManyBlobs { have, permitted } => Appending::Reject(payload, t, Rejection::TooManyBlobs { have, permitted }),
            Candidate::Apply => Appending::Execute(payload, t),
        }
    }

    /// What follows the execution of `candidate` on `payload`: a failed
    /// execution fails the step; when the payload with the result applied
    /// stays within the gas limit the step continues with it and records the
    /// candidate as added, else the candidate is rejected and the payload
    /// stays.
    pub fn on_executed(
        &mut self,
        payload: Checkpoint,
        candidate: Tx,
        outcome: Result<ExecutionResult, PayloadBuilderError>,
        ctx: &StepContext,
        now: u64,
    ) -> (r: Appending)
        ensures
            match outcome {
                Err(e) => r == Appending::Done(ControlFlow::Fail(e)) && final(self).spec_added() == old(self).spec_added(),
                Ok(res) => {
                    let applied = pushed(
                        payload@,
                        Some((exec_view(res.spec_source()), res.spec_results())),
                        res.spec_state(),
                        now,
                        payload@.last().context,
                    );
                    if payload_gas(applied) <= ctx.spec_limits().gas_limit {
                        &&& r matches Appending::Done(ControlFlow::Continue(c))
                        &&& c@ == applied
                        &&& same_block(c.spec_block(), payload.spec_block())
                        &&& final(self).spec_added() == old(self).spec_added().insert(candidate.hash)
                    } else {
                        &&& r == Appending::Reject(payload, candidate, Rejection::ExceedsGasLimit {
                            tx_gas_limit: candidate.gas_limit,
                            block_gas_limit: ctx.spec_limits().gas_limit,
                        })
                        &&& final(self).spec_added() == old(self).spec_added()
                    }
                },
            },
    {
        match outcome {
            Err(e) => Appending::Done(ControlFlow::Fail(e)),
            Ok(res) => {
                let applied = payload.apply(res, now);
                let fits = match applied.checked_cumulative_gas_used() {
                    Some(_) => self.accept(&applied, &candidate, ctx),
                    None => false,
                };
                if fits {
                    Appending::Done(ControlFlow::Continue(applied))
                } else {
                    Appending::Reject(payload, candidate, Rejection::ExceedsGasLimit {
                        tx_gas_limit: candidate.gas_limit,
                        block_gas_limit: ctx.limits().gas_limit,
                    })
                }
            },
        }
    }
}

} // verus!
