//! The platforms that payloads are built for, their default limits, and the
//! list of preselected transactions handed to the platform's block builder.

use crate::limits::{clamp_spec, BlobParams, ScopeLimits};
use crate::payload::block::BlockContext;
use crate::payload::exec::Tx;
use std::collections::HashMap;
use vstd::prelude::*;

verus! {

/// The Ethereum mainnet platform.
#[derive(Debug, Clone, Copy, Default)]
pub struct Ethereum;

/// The Optimism (OP stack) platform.
#[derive(Debug, Clone, Copy, Default)]
pub struct Optimism;

/// An error of the state provider behind a payload.
#[derive(Debug)]
pub enum StateError {
    /// The provider failed, with its message.
    Provider(String),
}

/// The default limits of Ethereum payloads: the gas limit that the node's
/// builder configuration sets, and the blob parameters of the fork.
#[derive(Debug, Clone, Copy, Default)]
pub struct EthereumDefaultLimits {
    /// The gas limit the builder aims for, if configured.
    pub desired_gas_limit: Option<u64>,
}

impl EthereumDefaultLimits {
    /// These limits, aiming for `gas_limit`.
    pub fn with_gas_limit(self, gas_limit: u64) -> (r: Self)
        ensures
            r.desired_gas_limit == Some(gas_limit),
    {
        EthereumDefaultLimits { desired_gas_limit: Some(gas_limit) }
    }

    /// The limits of a payload on `block`: `gas_limit` (what the builder
    /// configuration derives from the parent block's gas limit), held within
    /// the enclosing gas limit if any, with the block's blob parameters held
    /// within the enclosing ones if any.
    pub fn create(&self, block: &BlockContext, enclosing: Option<&ScopeLimits>, gas_limit: u64) -> (r: ScopeLimits)
        ensures
            r.gas_limit == match enclosing {
                Some(e) => if gas_limit <= e.gas_limit { gas_limit } else { e.gas_limit },
                None => gas_limit,
            },
            r.max_transactions is None,
            r.deadline_millis is None,
            r.blob_params == match block.blob_params {
                Some(p) => Some(match enclosing {
                    Some(e) => match e.blob_params {
                        Some(q) => BlobParams {
                            target_blob_count: if q.target_blob_count <= p.target_blob_count { q.target_blob_count } else { p.target_blob_count },
                            max_blob_count: if q.max_blob_count <= p.max_blob_count { q.max_blob_count } else { p.max_blob_count },
                        },
                        None => p,
                    },
                    None => p,
                }),
                None => None::<BlobParams>,
            },
    {
        let mut gas = gas_limit;
        if let Some(e) = enclosing {
            if e.gas_limit < gas {
                gas = e.gas_limit;
            }
        }
        let limits = ScopeLimits::with_gas_limit(gas);
        match block.blob_params {
            Some(p) => {
                let mut params = p;
                if let Some(e) = enclosing {
                    if let Some(q) = e.blob_params {
                        params = BlobParams {
                            target_blob_count: if q.target_blob_count <= p.target_blob_count { q.target_blob_count } else { p.target_blob_count },
                            max_blob_count: if q.max_blob_count <= p.max_blob_count { q.max_blob_count } else { p.max_blob_count },
                        };
                    }
                }
                limits.with_blob_params(params)
            },
            None => limits,
        }
    }
}

/// The default limits of Optimism payloads: the gas limit of the payload
/// attributes (else the parent's), a deadline at the block's timestamp, and
/// the blob parameters of the fork, all held within the enclosing limits.
#[derive(Debug, Clone, Copy, Default)]
pub struct OptimismDefaultLimits;

/// What `OptimismDefaultLimits::create` gives before the enclosing limits
/// apply.
pub open spec fn optimism_limits(block: BlockContext, now_secs: u64) -> ScopeLimits {
    ScopeLimits {
        gas_limit: match block.gas_limit {
            Some(g) => g,
            None => block.parent_gas_limit,
        },
        max_transactions: None,
        deadline_millis: Some(
            if (block.timestamp - now_secs) * 1000 <= u64::MAX {
                ((block.timestamp - now_secs) * 1000) as u64
            } else {
                u64::MAX
            },
        ),
        blob_params: block.blob_params,
    }
}

impl OptimismDefaultLimits {
    /// The limits of a payload on `block` when the time is `now_secs`
    /// (seconds since the Unix epoch, not after the block's timestamp); the
    /// deadline saturates at the largest number of milliseconds.
    pub fn create(&self, block: &BlockContext, enclosing: Option<&ScopeLimits>, now_secs: u64) -> (r: ScopeLimits)
        requires
            now_secs <= block.timestamp,
        ensures
            r == match enclosing {
                Some(e) => clamp_spec(optimism_limits(*block, now_secs), *e),
                None => optimism_limits(*block, now_secs),
            },
    {
        let gas = match block.gas_limit {
            Some(g) => g,
            None => block.parent_gas_limit,
        };
        let secs = block.timestamp - now_secs;
        let deadline: u64 = if secs <= u64::MAX / 1000 { secs * 1000 } else { u64::MAX };
        let mut limits = ScopeLimits::with_gas_limit(gas).with_deadline(deadline);
        if let Some(p) = block.blob_params {
            limits = limits.with_blob_params(p);
        }
        match enclosing {
            Some(e) => limits.clamp(e),
            None => limits,
        }
    }
}

/// Whether `t` is skipped: its sender has an invalidated nonce not greater
/// than `t`'s.
pub open spec fn skipped(invalid: Map<u64, u64>, t: Tx) -> bool {
    invalid.contains_key(t.signer) && invalid[t.signer] <= t.nonce
}

/// The next transaction handed out from `remaining` (in order) and what
/// remains after it.
pub open spec fn next_valid(remaining: Seq<Tx>, invalid: Map<u64, u64>) -> (Option<Tx>, Seq<Tx>)
    decreases remaining.len(),
{
    if remaining.len() == 0 {
        (None, remaining)
    } else if skipped(invalid, remaining[0]) {
        next_valid(remaining.drop_first(), invalid)
    } else {
        (Some(remaining[0]), remaining.drop_first())
    }
}

/// A fixed list of transactions handed out in order, skipping those whose
/// sender was marked invalid at a nonce not greater than theirs.
#[derive(Debug)]
pub struct PreselectedBestTransactions {
    txs: Vec<Tx>,
    invalid: HashMap<u64, u64>,
}

impl PreselectedBestTransactions {
    /// The transactions not handed out yet, in order.
    pub closed spec fn remaining(&self) -> Seq<Tx> {
        self.txs@.reverse()
    }

    /// The invalidated nonce of each sender marked invalid.
    pub closed spec fn invalidated(&self) -> Map<u64, u64> {
        self.invalid@
    }

    /// The list `txs`, with no sender marked invalid.
    pub fn new(txs: Vec<Tx>) -> (r: Self)
        ensures
            r.remaining() == txs@,
            r.invalidated() == Map::<u64, u64>::empty(),
    {
        let mut rev: Vec<Tx> = Vec::new();
        let mut i: usize = txs.len();
        while i > 0
            invariant
                i <= txs@.len(),
                rev@.reverse() == txs@.skip(i as int),
            decreases i,
        {
            let ghost old_rev = rev@;
            rev.push(txs[i - 1]);
            assert(old_rev.reverse().len() == old_rev.len());
            assert(old_rev.len() == txs@.len() - i);
            assert forall|j: int| 0 <= j < rev@.len() implies rev@.reverse()[j] == txs@.skip(i - 1)[j] by {
                if j > 0 {
                    assert(rev@[rev@.len() - 1 - j] == old_rev[old_rev.len() - 1 - (j - 1)]);
                    assert(old_rev.reverse()[j - 1] == old_rev[old_rev.len() - 1 - (j - 1)]);
                    assert(old_rev.reverse()[j - 1] == txs@.skip(i as int)[j - 1]);
                } else {
                    assert(rev@[rev@.len() - 1] == txs@[i - 1]);
                }
            }
            assert(rev@.reverse() =~= txs@.skip(i - 1));
            i = i - 1;
        }
        assert(txs@.skip(0) =~= txs@);
        PreselectedBestTransactions { txs: rev, invalid: HashMap::new() }
    }

    /// Marks `tx` invalid: its sender's invalidated nonce becomes `tx`'s
    /// nonce when it has none yet or a lower one.
    pub fn mark_invalid(&mut self, tx: &Tx)
        ensures
            final(self).remaining() == old(self).remaining(),
            final(self).invalidated() == if old(self).invalidated().contains_key(tx.signer)
                && old(self).invalidated()[tx.signer] >= tx.nonce {
                old(self).invalidated()
            } else {
                old(self).invalidated().insert(tx.signer, tx.nonce)
            },
    {
        broadcast use vstd::std_specs::hash::group_hash_axioms;
        let keep = match self.invalid.get(&tx.signer) {
            Some(n) => *n >= tx.nonce,
            None => false,
        };
        if !keep {
            self.invalid.insert(tx.signer, tx.nonce);
        }
    }

    /// The next transaction: the first remaining one that is not skipped;
    /// the skipped ones before it are dropped.
    pub fn next(&mut self) -> (r: Option<Tx>)
        ensures
            (r, final(self).remaining()) == next_valid(old(self).remaining(), old(self).invalidated()),
            final(self).invalidated() == old(self).invalidated(),
    {
        broadcast use vstd::std_specs::hash::group_hash_axioms;
        loop
            invariant
                self.invalid@ == old(self).invalid@,
                next_valid(self.remaining(), self.invalid@) == next_valid(old(self).remaining(), old(self).invalid@),
            decreases self.txs@.len(),
        {
            let ghost rem = self.remaining();
            match self.txs.pop() {
                None => {
                    assert(rem.len() == 0);
                    return None;
                },
                Some(t) => {
                    assert(rem[0] == t);
                    assert(rem.drop_first() =~= self.remaining());
                    let skip = match self.invalid.get(&t.signer) {
                        Some(n) => *n <= t.nonce,
                        None => false,
                    };
                    if !skip {
                        return Some(t);
                    }
                },
            }
        }
    }
}

} // verus!
