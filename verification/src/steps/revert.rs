//! Revert protection: removing the transactions that reverted or halted from
//! the staging part of a payload.

use crate::payload::checkpoint::{node_results, node_txs, Checkpoint, NodeView};
use crate::payload::exec::{ExecOutcome, Tx};
use crate::payload::ext::{history_view, last_barrier};
use crate::payload::span::Span;
use vstd::prelude::*;

verus! {

/// Whether a checkpoint counts as failed: its first transaction did not
/// succeed. Barriers and empty results do not fail.
pub open spec fn failed(n: NodeView) -> bool {
    node_results(n).len() > 0 && !(node_results(n)[0] is Success)
}

/// Eliminates transactions that reverted or halted from the payload;
/// committed (sealed) transactions stay.
#[derive(Debug, Clone, Copy)]
pub struct RevertProtection;

/// What `RevertProtection` does with a payload.
#[derive(Debug)]
pub enum RevertPlan {
    /// Nothing failed: the payload stays.
    Keep,
    /// Starting from this checkpoint, apply again the transactions of the
    /// remaining checkpoints, in order, keeping those that succeed.
    Rebuild(Checkpoint, Span),
}

/// What to do with one remaining checkpoint while rebuilding.
#[derive(Debug)]
pub enum RevertAction {
    /// Execute this transaction on the rebuilt payload.
    Reapply(Tx),
    /// The checkpoint applied a bundle, which revert protection does not
    /// handle.
    Bundle,
    /// The checkpoint is a barrier: nothing to apply.
    Nothing,
}

impl RevertProtection {
    /// The plan for `payload`: when a checkpoint of the staging history
    /// failed, keep the checkpoint before the first such one and apply the
    /// rest of the staging history again; otherwise keep the payload.
    pub fn plan(&self, payload: &Checkpoint) -> (r: RevertPlan)
        ensures
            ({
                let staging = history_view(payload@).skip(last_barrier(payload@) + 1);
                match r {
                    RevertPlan::Keep => payload@.len() == 1
                        || forall|i: int| 0 <= i < staging.len() ==> !failed(#[trigger] staging[i].last()),
                    RevertPlan::Rebuild(base, rest) => payload@.len() > 1 && exists|p: int| {
                        &&& 0 <= p < staging.len()
                        &&& #[trigger] failed(staging[p].last())
                        &&& (forall|i: int| 0 <= i < p ==> !failed(#[trigger] staging[i].last()))
                        &&& base@ == history_view(payload@)[last_barrier(payload@) + p]
                        &&& rest@ == staging.skip(p)
                    },
                }
            }),
    {
        if payload.is_empty() {
            return RevertPlan::Keep;
        }
        let history = payload.history_staging();
        let anchored = payload.from_last_barrier();
        let n = history.len();
        let mut i: usize = 0;
        payload.note_valid();
        while i < n
            invariant
                crate::payload::checkpoint::valid_history(payload@),
                n == history@.len(),
                i <= n,
                history@ == history_view(payload@).skip(last_barrier(payload@) + 1),
                anchored@ == history_view(payload@).skip(last_barrier(payload@)),
                payload@.len() > 1,
                0 <= last_barrier(payload@) < payload@.len(),
                forall|j: int| 0 <= j < i ==> !failed(#[trigger] history@[j].last()),
            decreases n - i,
        {
            let c = history.at(i).unwrap();
            let fails = match c.result() {
                Some(res) => {
                    let results = res.results();
                    results.len() > 0 && !results[0].is_success()
                },
                None => false,
            };
            if fails {
                let base = anchored.at(i).unwrap();
                let rest = history.skip(i);
                assert(failed(history@[i as int].last()));
                return RevertPlan::Rebuild(base, rest);
            }
            i = i + 1;
        }
        RevertPlan::Keep
    }

    /// What to do with a remaining checkpoint while rebuilding.
    pub fn action(&self, checkpoint: &Checkpoint) -> (r: RevertAction)
        ensures
            match checkpoint@.last().mutation {
                None => r is Nothing,
                Some((e, _)) => if e.is_bundle { r is Bundle } else { r == RevertAction::Reapply(e.txs[0]) },
            },
    {
        match checkpoint.as_transaction() {
            Some(t) => RevertAction::Reapply(t),
            None => if checkpoint.is_bundle() {
                RevertAction::Bundle
            } else {
                RevertAction::Nothing
            },
        }
    }

    /// Whether a transaction applied again is kept: its outcome is a
    /// success, or it has none.
    pub fn keeps(&self, applied: &Checkpoint) -> (r: bool)
        ensures
            r == !failed(applied@.last()),
            r <==> (node_results(applied@.last()).len() == 0 || node_results(applied@.last())[0] is Success),
    {
        match applied.result() {
            Some(res) => {
                let results = res.results();
                results.len() == 0 || results[0].is_success()
            },
            None => true,
        }
    }
}

/// A checkpoint counts as failed exactly when its first transaction did not
/// succeed: a revert fails it and so does a halt, a success does not, and
/// a checkpoint without outcomes (a barrier) never fails.
pub proof fn lemma_failed_is_revert_or_halt(n: NodeView)
    ensures
        node_results(n).len() > 0 && node_results(n)[0] is Revert ==> failed(n),
        node_results(n).len() > 0 && node_results(n)[0] is Halt ==> failed(n),
        node_results(n).len() > 0 && node_results(n)[0] is Success ==> !failed(n),
        node_results(n).len() == 0 ==> !failed(n),
{
}

} // verus!

