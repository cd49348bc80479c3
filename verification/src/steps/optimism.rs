//! The prologue of Optimism payloads: the sequencer transactions from the
//! payload attributes come first, and a barrier seals them.

use crate::executor::PayloadBuilderError;
use crate::fmt::{decimal, push_decimal};
use crate::payload::checkpoint::{pushed, Checkpoint};
use crate::payload::exec::{total_gas, Tx};
use crate::payload::checkpoint::node_results;
use crate::steps::context::StepContext;
use crate::steps::pool::payload_txs;
use crate::vec_util::contains_u64;
use vstd::prelude::*;

verus! {

/// Applies the sequencer transactions of the payload attributes at the top
/// of an empty payload, checks that they fit the gas limit, and places a
/// barrier after them.
#[derive(Debug, Clone, Copy)]
pub struct OptimismPrologue;

/// The message when the payload already has transactions.
pub open spec fn not_at_top_message(n: nat) -> Seq<char> {
    "Optimism sequencer transactions must be at the top of the block. This payload already has "@
        + decimal(n) + " transaction(s)."@
}

/// The message when the sequencer transactions use more gas than allowed.
pub open spec fn over_gas_message(used: nat, limit: nat) -> Seq<char> {
    "Sequencer transactions exceed block gas limit: "@ + decimal(used) + " > "@ + decimal(limit)
}

/// The running total of the gas of the sequencer transactions applied so far.
#[derive(Debug, Clone, Copy, PartialEq, Eq, Structural)]
pub struct SequencerGas(pub u64);

impl OptimismPrologue {
    /// Checks that the payload has no transaction yet: the sequencer
    /// transactions must be at the top of the block.
    pub fn check_empty(&self, payload: &Checkpoint) -> (r: Result<SequencerGas, PayloadBuilderError>)
        ensures
            payload_txs(payload@).len() == 0 ==> r == Ok::<SequencerGas, PayloadBuilderError>(SequencerGas(0)),
            payload_txs(payload@).len() > 0 ==> (r matches Err(e) && e matches PayloadBuilderError::Other(m)
                && m@ == not_at_top_message(payload_txs(payload@).len())),
    {
        let n = payload.all_transactions().len();
        if n > 0 {
            let mut m = String::new();
            proof {
                reveal_strlit("Optimism sequencer transactions must be at the top of the block. This payload already has ");
                reveal_strlit(" transaction(s).");
            }
            m.append("Optimism sequencer transactions must be at the top of the block. This payload already has ");
            push_decimal(&mut m, n as u128);
            m.append(" transaction(s).");
            return Err(PayloadBuilderError::Other(m));
        }
        Ok(SequencerGas(0))
    }

    /// Adds the gas of a sequencer transaction just applied (the checkpoint
    /// `applied`) to the total, and fails when the total exceeds the gas
    /// limit of the step's scope.
    pub fn add_gas(&self, total: SequencerGas, applied: &Checkpoint, ctx: &StepContext)
        -> (r: Result<SequencerGas, PayloadBuilderError>)
        requires
            total.0 + total_gas(node_results(applied@.last())) <= u64::MAX,
        ensures
            ({
                let sum = total.0 + total_gas(node_results(applied@.last()));
                &&& sum <= ctx.spec_limits().gas_limit ==> r == Ok::<SequencerGas, PayloadBuilderError>(SequencerGas(sum as u64))
                &&& sum > ctx.spec_limits().gas_limit ==> (r matches Err(e) && e matches PayloadBuilderError::Other(m)
                    && m@ == over_gas_message(sum as nat, ctx.spec_limits().gas_limit as nat))
            }),
    {
        let g = applied.gas_used();
        let sum = (total.0 as u128 + g) as u64;
        let limit = ctx.limits().gas_limit;
        if sum > limit {
            let mut m = String::new();
            proof {
                reveal_strlit("Sequencer transactions exceed block gas limit: ");
                reveal_strlit(" > ");
            }
            m.append("Sequencer transactions exceed block gas limit: ");
            push_decimal(&mut m, sum as u128);
            m.append(" > ");
            push_decimal(&mut m, limit as u128);
            return Err(PayloadBuilderError::Other(m));
        }
        Ok(SequencerGas(sum))
    }

    /// The payload once the sequencer transactions are applied: sealed by a
    /// barrier when it has any checkpoint on top of the initial one.
    pub fn finish(&self, payload: Checkpoint, created_at: u64) -> (r: Checkpoint)
        ensures
            payload@.len() > 1 ==> r@ == pushed(payload@, None, Seq::empty(), created_at, payload@.last().context),
            payload@.len() <= 1 ==> r@ == payload@,
    {
        if payload.depth() > 0 {
            payload.barrier(created_at)
        } else {
            payload
        }
    }
}

/// Whether `h` is the hash of one of the sequencer transactions.
pub open spec fn is_sequencer_hash(sequencer: Seq<Tx>, h: u64) -> bool {
    exists|j: int| 0 <= j < sequencer.len() && #[trigger] sequencer[j].hash == h
}

/// The transactions, in order, without those whose hash is that of a
/// sequencer transaction.
pub open spec fn without_sequencer(transactions: Seq<Tx>, sequencer: Seq<Tx>) -> Seq<Tx>
    decreases transactions.len(),
{
    if transactions.len() == 0 {
        Seq::empty()
    } else {
        let rest = without_sequencer(transactions.drop_last(), sequencer);
        if is_sequencer_hash(sequencer, transactions.last().hash) {
            rest
        } else {
            rest.push(transactions.last())
        }
    }
}

/// The transactions that remain to be given to the Optimism block builder,
/// which adds the sequencer transactions of the payload attributes itself:
/// the sequencer transactions that the list already holds are removed from
/// it, so that none is included twice, and the others keep their order.
pub fn skip_sequencer_transactions(transactions: Vec<Tx>, sequencer_txs: &Vec<Tx>) -> (r: Vec<Tx>)
    ensures
        r@ == without_sequencer(transactions@, sequencer_txs@),
{
    let mut hashes: Vec<u64> = Vec::new();
    let mut i: usize = 0;
    while i < sequencer_txs.len()
        invariant
            i <= sequencer_txs@.len(),
            hashes@.len() == i,
            forall|j: int| 0 <= j < i ==> hashes@[j] == #[trigger] sequencer_txs@[j].hash,
        decreases sequencer_txs@.len() - i,
    {
        hashes.push(sequencer_txs[i].hash);
        i = i + 1;
    }
    let mut r: Vec<Tx> = Vec::new();
    let mut k: usize = 0;
    while k < transactions.len()
        invariant
            k <= transactions@.len(),
            hashes@.len() == sequencer_txs@.len(),
            forall|j: int| 0 <= j < hashes@.len() ==> hashes@[j] == #[trigger] sequencer_txs@[j].hash,
            r@ == without_sequencer(transactions@.take(k as int), sequencer_txs@),
        decreases transactions@.len() - k,
    {
        let t = transactions[k];
        let known = contains_u64(&hashes, t.hash);
        proof {
            let next = transactions@.take(k + 1);
            assert(next.drop_last() =~= transactions@.take(k as int));
            assert(next.last() == t);
            if known {
                let j = choose|j: int| 0 <= j < hashes@.len() && hashes@[j] == t.hash;
                assert(sequencer_txs@[j].hash == t.hash);
            } else {
                assert forall|j: int| 0 <= j < sequencer_txs@.len() implies #[trigger] sequencer_txs@[j].hash != t.hash by {
                    assert(hashes@[j] == sequencer_txs@[j].hash);
                }
            }
        }
        if !known {
            r.push(t);
        }
        k = k + 1;
    }
    assert(transactions@.take(transactions@.len() as int) =~= transactions@);
    r
}

} // verus!
