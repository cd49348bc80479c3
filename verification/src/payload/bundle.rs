//! Executing a bundle: which transactions are kept, dropped or make the
//! whole bundle invalid, from what the EVM did with each of them.
//!
//! The EVM runs outside; `BundleExecution` takes the outcome of each
//! transaction in turn and decides.

use crate::payload::exec::{
    executable_txs, Bundle, ExecOutcome, Executable, ExecutionResult, Tx,
};
use vstd::prelude::*;

verus! {

/// Why a transaction or a bundle could not be executed.
#[derive(Debug)]
pub enum ExecutionError {
    /// The signature of a transaction could not be recovered.
    InvalidSignature,
    /// The EVM rejected a transaction, with its message.
    InvalidTransaction(String),
    /// The EVM rejected a transaction (by hash) of a bundle that may not be
    /// dropped, with its message.
    InvalidBundleTransaction(u64, String),
    /// A transaction (by hash) of a bundle reverted or halted, and may
    /// neither fail nor be dropped.
    BundleTransactionReverted(u64),
    /// The bundle's own checks after execution failed, with their message.
    InvalidBundlePostExecutionState(String),
    /// The bundle may not be executed in this block.
    IneligibleBundle,
    /// Every transaction of the bundle was dropped.
    EmptyBundle,
}

/// What the EVM did with one transaction: it executed it, with an outcome
/// and state changes, or rejected it, with a message.
#[derive(Debug)]
pub enum TxExecution {
    /// Executed, successfully or not.
    Executed(ExecOutcome, Vec<(u64, u64)>),
    /// Rejected as invalid.
    Invalid(String),
}

/// What happens to a transaction of a bundle.
#[derive(Debug, Clone, Copy, PartialEq, Eq, Structural)]
pub enum BundleAction {
    /// It stays in the bundle, with its outcome and state changes.
    Include,
    /// It is dropped from the bundle.
    Discard,
    /// The bundle is invalid.
    Reject,
}

/// The rule for one transaction of a bundle: a success, or a failure that is
/// allowed, is included; otherwise an optional transaction is dropped and
/// any other makes the bundle invalid. A transaction that the EVM rejected
/// counts as failed and never as allowed to fail.
pub open spec fn bundle_action(executed: bool, success: bool, allowed_to_fail: bool, optional: bool) -> BundleAction {
    if executed && (success || allowed_to_fail) {
        BundleAction::Include
    } else if optional {
        BundleAction::Discard
    } else {
        BundleAction::Reject
    }
}

/// The bundle without the transactions whose hashes are in `hashes`.
pub open spec fn without_all(txs: Seq<Tx>, hashes: Seq<u64>) -> Seq<Tx> {
    txs.filter(|t: Tx| !hashes.contains(t.hash))
}

/// A bundle being executed: the next transaction to run, the transactions
/// dropped so far, and the outcomes and state changes of those kept.
#[derive(Debug)]
pub struct BundleExecution {
    bundle: Bundle,
    next: usize,
    discarded: Vec<u64>,
    results: Vec<ExecOutcome>,
    state: Vec<(u64, u64)>,
}

impl BundleExecution {
    /// The bundle being executed.
    pub closed spec fn spec_bundle(&self) -> Bundle {
        self.bundle
    }

    /// How many transactions have been decided.
    pub closed spec fn spec_next(&self) -> nat {
        self.next as nat
    }

    /// The hashes of the dropped transactions, in order.
    pub closed spec fn spec_discarded(&self) -> Seq<u64> {
        self.discarded@
    }

    /// The outcomes of the kept transactions, in order.
    pub closed spec fn spec_results(&self) -> Seq<ExecOutcome> {
        self.results@
    }

    /// The state changes of the kept transactions, in order.
    pub closed spec fn spec_state(&self) -> Seq<(u64, u64)> {
        self.state@
    }

    /// Starts executing `bundle`; an ineligible bundle is refused.
    pub fn start(bundle: Bundle, eligible: bool) -> (r: Result<BundleExecution, ExecutionError>)
        ensures
            eligible ==> (r matches Ok(x) && x.spec_bundle() == bundle && x.spec_next() == 0
                && x.spec_discarded().len() == 0 && x.spec_results().len() == 0 && x.spec_state().len() == 0),
            !eligible ==> (r matches Err(ExecutionError::IneligibleBundle)),
    {
        if !eligible {
            return Err(ExecutionError::IneligibleBundle);
        }
        Ok(BundleExecution { bundle, next: 0, discarded: Vec::new(), results: Vec::new(), state: Vec::new() })
    }

    /// The next transaction to execute, on the state left by the kept ones;
    /// `None` when all are decided.
    pub fn next_transaction(&self) -> (r: Option<Tx>)
        ensures
            self.spec_next() < self.spec_bundle().transactions@.len() ==> r == Some(self.spec_bundle().transactions@[self.spec_next() as int]),
            self.spec_next() >= self.spec_bundle().transactions@.len() ==> r is None,
    {
        if self.next < self.bundle.transactions.len() {
            Some(self.bundle.transactions[self.next])
        } else {
            None
        }
    }

    /// Decides the next transaction from what the EVM did with it.
    pub fn record(&mut self, outcome: TxExecution) -> (r: Result<(), ExecutionError>)
        requires
            old(self).spec_next() < old(self).spec_bundle().transactions@.len(),
        ensures
            ({
                let t = old(self).spec_bundle().transactions@[old(self).spec_next() as int];
                let optional = old(self).spec_bundle().optional@.contains(t.hash);
                let allowed = old(self).spec_bundle().allowed_to_fail@.contains(t.hash);
                let (executed, success) = match outcome {
                    TxExecution::Executed(o, _) => (true, o is Success),
                    TxExecution::Invalid(_) => (false, false),
                };
                match bundle_action(executed, success, allowed, optional) {
                    BundleAction::Include => r is Ok && match outcome {
                        TxExecution::Executed(o, w) => final(self).spec_results() == old(self).spec_results().push(o)
                            && final(self).spec_state() == old(self).spec_state() + w@
                            && final(self).spec_discarded() == old(self).spec_discarded(),
                        TxExecution::Invalid(_) => false,
                    },
                    BundleAction::Discard => r is Ok
                        && final(self).spec_discarded() == old(self).spec_discarded().push(t.hash)
                        && final(self).spec_results() == old(self).spec_results()
                        && final(self).spec_state() == old(self).spec_state(),
                    BundleAction::Reject => match outcome {
                        TxExecution::Executed(_, _) => r matches Err(ExecutionError::BundleTransactionReverted(h)) && h == t.hash,
                        TxExecution::Invalid(m) => r matches Err(ExecutionError::InvalidBundleTransaction(h, m2)) && h == t.hash && m2@ == m@,
                    },
                }
            }),
            final(self).spec_bundle() == old(self).spec_bundle(),
            r is Ok ==> final(self).spec_next() == old(self).spec_next() + 1,
    {
        let n = self.bundle.transactions.len();
        let t = self.bundle.transactions[self.next];
        assert(self.next < n);
        let after = self.next + 1;
        let optional = self.bundle.is_optional(t.hash);
        let allowed = self.bundle.is_allowed_to_fail(t.hash);
        match outcome {
            TxExecution::Executed(o, w) => {
                if o.is_success() || allowed {
                    self.results.push(o);
                    crate::payload::state::append_writes(&mut self.state, &w);
                    self.next = after;
                    Ok(())
                } else if optional {
                    self.discarded.push(t.hash);
                    self.next = after;
                    Ok(())
                } else {
                    Err(ExecutionError::BundleTransactionReverted(t.hash))
                }
            },
            TxExecution::Invalid(m) => {
                if optional {
                    self.discarded.push(t.hash);
                    self.next = after;
                    Ok(())
                } else {
                    Err(ExecutionError::InvalidBundleTransaction(t.hash, m))
                }
            },
        }
    }

    /// The result once every transaction is decided: the bundle without its
    /// dropped transactions, the outcomes and the state changes of the kept
    /// ones. `EmptyBundle` when every transaction was dropped; `None` when
    /// the outcomes do not match the transactions that remain (when a kept
    /// transaction shares its hash with a dropped one).
    pub fn finish(self) -> (r: Option<Result<ExecutionResult, ExecutionError>>)
        requires
            self.spec_next() == self.spec_bundle().transactions@.len(),
        ensures
            ({
                let remaining = without_all(self.spec_bundle().transactions@, self.spec_discarded());
                match r {
                    Some(Ok(x)) => remaining.len() > 0 && x.wf()
                        && executable_txs(x.spec_source()) == remaining
                        && x.spec_source() is Bundle
                        && x.spec_results() == self.spec_results()
                        && x.spec_state() == self.spec_state(),
                    Some(Err(e)) => remaining.len() == 0 && e is EmptyBundle,
                    None => remaining.len() > 0 && remaining.len() != self.spec_results().len(),
                }
            }),
    {
        let BundleExecution { bundle, next: _, discarded, results, state } = self;
        let ghost all = bundle.transactions@;
        let mut b = bundle;
        let mut i: usize = 0;
        proof {
            assert(discarded@.take(0) =~= Seq::<u64>::empty());
            lemma_filter_all(all, |t: Tx| !Seq::<u64>::empty().contains(t.hash));
        }
        while i < discarded.len()
            invariant
                i <= discarded@.len(),
                b.transactions@ == without_all(all, discarded@.take(i as int)),
            decreases discarded@.len() - i,
        {
            let h = discarded[i];
            let ghost before = b.transactions@;
            b = b.without_transaction(h);
            proof {
                lemma_without_step(all, discarded@, i as int);
            }
            i = i + 1;
        }
        assert(discarded@.take(discarded@.len() as int) =~= discarded@);
        if b.transactions.len() == 0 {
            return Some(Err(ExecutionError::EmptyBundle));
        }
        match ExecutionResult::new(Executable::Bundle(b), results, state) {
            Some(x) => Some(Ok(x)),
            None => None,
        }
    }
}

proof fn lemma_without_step(all: Seq<Tx>, hashes: Seq<u64>, i: int)
    requires
        0 <= i < hashes.len(),
    ensures
        without_all(all, hashes.take(i)).filter(crate::payload::exec::hash_differs(hashes[i]))
            == without_all(all, hashes.take(i + 1)),
{
    let p = |t: Tx| !hashes.take(i).contains(t.hash);
    let q = crate::payload::exec::hash_differs(hashes[i]);
    let pq = |t: Tx| !hashes.take(i + 1).contains(t.hash);
    assert forall|t: Tx| #[trigger] pq(t) == (p(t) && q(t)) by {
        assert(hashes.take(i + 1) =~= hashes.take(i).push(hashes[i]));
        let a = hashes.take(i);
        let b = hashes.take(i + 1);
        if a.contains(t.hash) {
            let k = choose|k: int| 0 <= k < a.len() && #[trigger] a[k] == t.hash;
            assert(b[k] == t.hash);
        }
        if b.contains(t.hash) {
            let k = choose|k: int| 0 <= k < b.len() && #[trigger] b[k] == t.hash;
            if k < i {
                assert(a[k] == t.hash);
            }
        }
        if t.hash == hashes[i] {
            assert(hashes.take(i + 1)[i] == t.hash);
        }
    }
    lemma_filter_twice(all, p, q, pq);
}

proof fn lemma_filter_all(s: Seq<Tx>, p: spec_fn(Tx) -> bool)
    requires
        forall|t: Tx| #[trigger] p(t),
    ensures
        s.filter(p) == s,
    decreases s.len(),
{
    reveal(Seq::filter);
    if s.len() > 0 {
        lemma_filter_all(s.drop_last(), p);
        assert(s.drop_last().push(s.last()) =~= s);
    } else {
        assert(s.filter(p) =~= s);
    }
}

proof fn lemma_filter_twice(s: Seq<Tx>, p: spec_fn(Tx) -> bool, q: spec_fn(Tx) -> bool, pq: spec_fn(Tx) -> bool)
    requires
        forall|t: Tx| #[trigger] pq(t) == (p(t) && q(t)),
    ensures
        s.filter(p).filter(q) == s.filter(pq),
    decreases s.len(),
{
    reveal(Seq::filter);
    if s.len() > 0 {
        lemma_filter_twice(s.drop_last(), p, q, pq);
        assert(s.filter(p) == if p(s.last()) { s.drop_last().filter(p).push(s.last()) } else { s.drop_last().filter(p) });
        if p(s.last()) {
            assert(s.drop_last().filter(p).push(s.last()).drop_last() =~= s.drop_last().filter(p));
        }
    } else {
        assert(s.filter(p) =~= Seq::<Tx>::empty());
    }
}

} // verus!
