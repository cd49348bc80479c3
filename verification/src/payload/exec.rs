//! Transactions, bundles and the results of executing them.

use crate::vec_util::{contains_u64, copy_vec};
use vstd::prelude::*;

verus! {

/// A signature-recovered transaction, reduced to what payload building
/// reads of it. Hashes and addresses are identifiers.
#[derive(Debug, Clone, Copy, PartialEq, Eq, Structural)]
pub struct Tx {
    /// The transaction hash.
    pub hash: u64,
    /// The recovered signer address.
    pub signer: u64,
    /// The signer's nonce.
    pub nonce: u64,
    /// The maximum fee per gas (the gas price of legacy transactions).
    pub max_fee_per_gas: u128,
    /// The maximum priority fee per gas, for EIP-1559 style transactions.
    pub max_priority_fee_per_gas: Option<u128>,
    /// The blob gas used, for EIP-4844 blob transactions.
    pub blob_gas_used: Option<u64>,
    /// The gas limit of the transaction.
    pub gas_limit: u64,
    /// Whether this is a deposit (sequencer) transaction.
    pub is_deposit: bool,
}

/// The tip per gas that a transaction pays to the block producer at the
/// given base fee: the fee above the base fee, capped by the priority fee;
/// `None` when the maximum fee is below the base fee.
pub open spec fn effective_tip(tx: Tx, base_fee: u64) -> Option<u128> {
    if tx.max_fee_per_gas < base_fee {
        None
    } else {
        let fee = (tx.max_fee_per_gas - base_fee) as u128;
        match tx.max_priority_fee_per_gas {
            Some(p) => Some(if fee <= p { fee } else { p }),
            None => Some(fee),
        }
    }
}

impl Tx {
    /// The tip per gas paid at the given base fee.
    pub fn effective_tip_per_gas(&self, base_fee: u64) -> (r: Option<u128>)
        ensures
            r == effective_tip(*self, base_fee),
            self.max_fee_per_gas < base_fee ==> r is None,
            self.max_fee_per_gas >= base_fee && self.max_priority_fee_per_gas is None
                ==> r == Some((self.max_fee_per_gas - base_fee) as u128),
            self.max_fee_per_gas >= base_fee && self.max_priority_fee_per_gas is Some
                ==> r == Some(if self.max_fee_per_gas - base_fee <= self.max_priority_fee_per_gas->0 {
                    (self.max_fee_per_gas - base_fee) as u128
                } else {
                    self.max_priority_fee_per_gas->0
                }),
    {
        let base_fee = base_fee as u128;
        if self.max_fee_per_gas < base_fee {
            return None;
        }
        let fee = self.max_fee_per_gas - base_fee;
        match self.max_priority_fee_per_gas {
            Some(p) => Some(if fee <= p { fee } else { p }),
            None => Some(fee),
        }
    }
}

/// The tip is what a transaction pays above the base fee: all of it for a
/// transaction without a priority fee (a legacy gas price), at most the
/// priority fee otherwise; a transaction that cannot pay the base fee has
/// none.
pub proof fn lemma_effective_tip_is_fee_above_base(tx: Tx, base_fee: u64)
    ensures
        tx.max_fee_per_gas < base_fee ==> effective_tip(tx, base_fee) is None,
        tx.max_fee_per_gas >= base_fee && tx.max_priority_fee_per_gas is None
            ==> effective_tip(tx, base_fee) == Some((tx.max_fee_per_gas - base_fee) as u128),
        tx.max_fee_per_gas >= base_fee && tx.max_priority_fee_per_gas is Some ==> {
            &&& effective_tip(tx, base_fee) is Some
            &&& effective_tip(tx, base_fee)->0 <= tx.max_fee_per_gas - base_fee
            &&& effective_tip(tx, base_fee)->0 <= tx.max_priority_fee_per_gas->0
            &&& (effective_tip(tx, base_fee)->0 == tx.max_fee_per_gas - base_fee
                || effective_tip(tx, base_fee)->0 == tx.max_priority_fee_per_gas->0)
        },
{
}

/// A higher gas price pays a higher tip: of two transactions without a
/// priority fee that both pay the base fee, the one with the higher maximum
/// fee has the higher tip.
pub proof fn lemma_effective_tip_monotonic(a: Tx, b: Tx, base_fee: u64)
    requires
        a.max_priority_fee_per_gas is None,
        b.max_priority_fee_per_gas is None,
        base_fee <= b.max_fee_per_gas,
        b.max_fee_per_gas < a.max_fee_per_gas,
    ensures
        effective_tip(a, base_fee) is Some,
        effective_tip(b, base_fee) is Some,
        effective_tip(b, base_fee)->0 < effective_tip(a, base_fee)->0,
{
}

/// Keeps the transactions whose hash differs from `tx_hash`.
pub open spec fn hash_differs(tx_hash: u64) -> spec_fn(Tx) -> bool {
    |t: Tx| t.hash != tx_hash
}

/// A bundle of transactions that execute together, with the transactions
/// that may be dropped (optional) and those that may fail.
#[derive(Debug)]
pub struct Bundle {
    /// The transactions, in execution order.
    pub transactions: Vec<Tx>,
    /// The bundle hash.
    pub hash: u64,
    /// Hashes of transactions that may be removed from the bundle.
    pub optional: Vec<u64>,
    /// Hashes of transactions that may revert or halt.
    pub allowed_to_fail: Vec<u64>,
}

impl Bundle {
    /// Whether the transaction with this hash may be removed.
    pub fn is_optional(&self, tx_hash: u64) -> (r: bool)
        ensures
            r == self.optional@.contains(tx_hash),
    {
        contains_u64(&self.optional, tx_hash)
    }

    /// Whether the transaction with this hash may revert or halt.
    pub fn is_allowed_to_fail(&self, tx_hash: u64) -> (r: bool)
        ensures
            r == self.allowed_to_fail@.contains(tx_hash),
    {
        contains_u64(&self.allowed_to_fail, tx_hash)
    }

    /// The bundle without the transactions that have this hash.
    pub fn without_transaction(self, tx_hash: u64) -> (r: Bundle)
        ensures
            r.transactions@ == self.transactions@.filter(hash_differs(tx_hash)),
            r.hash == self.hash,
            r.optional@ == self.optional@,
            r.allowed_to_fail@ == self.allowed_to_fail@,
    {
        let mut kept: Vec<Tx> = Vec::new();
        let mut i: usize = 0;
        let ghost pred = hash_differs(tx_hash);
        while i < self.transactions.len()
            invariant
                i <= self.transactions@.len(),
                pred == hash_differs(tx_hash),
                kept@ == self.transactions@.subrange(0, i as int).filter(pred),
            decreases self.transactions@.len() - i,
        {
            let t = self.transactions[i];
            proof {
                let s = self.transactions@.subrange(0, i as int);
                assert(self.transactions@.subrange(0, i + 1) =~= s.push(t));
                s.lemma_filter_push(t, pred);
            }
            assert(pred(t) == (t.hash != tx_hash));
            if t.hash != tx_hash {
                kept.push(t);
            }
            i = i + 1;
        }
        assert(self.transactions@.subrange(0, self.transactions@.len() as int) =~= self.transactions@);
        Bundle { transactions: kept, hash: self.hash, optional: self.optional, allowed_to_fail: self.allowed_to_fail }
    }

    /// A copy of the bundle.
    pub fn duplicate(&self) -> (r: Bundle)
        ensures
            r.transactions@ == self.transactions@,
            r.hash == self.hash,
            r.optional@ == self.optional@,
            r.allowed_to_fail@ == self.allowed_to_fail@,
    {
        Bundle {
            transactions: copy_vec(&self.transactions),
            hash: self.hash,
            optional: copy_vec(&self.optional),
            allowed_to_fail: copy_vec(&self.allowed_to_fail),
        }
    }
}

/// An atomic unit of execution: one transaction or one bundle.
#[derive(Debug)]
pub enum Executable {
    /// A single transaction.
    Transaction(Tx),
    /// A bundle of transactions.
    Bundle(Bundle),
}

/// What an executable is, as plain values.
pub struct ExecView {
    /// Whether it is a bundle.
    pub is_bundle: bool,
    /// The transaction or bundle hash.
    pub hash: u64,
    /// Its transactions.
    pub txs: Seq<Tx>,
    /// For bundles, the hashes of the optional transactions.
    pub optional: Seq<u64>,
    /// For bundles, the hashes of the transactions allowed to fail.
    pub allowed_to_fail: Seq<u64>,
}

/// The plain view of an executable.
pub open spec fn exec_view(e: Executable) -> ExecView {
    match e {
        Executable::Transaction(t) => ExecView {
            is_bundle: false,
            hash: t.hash,
            txs: seq![t],
            optional: Seq::empty(),
            allowed_to_fail: Seq::empty(),
        },
        Executable::Bundle(b) => ExecView {
            is_bundle: true,
            hash: b.hash,
            txs: b.transactions@,
            optional: b.optional@,
            allowed_to_fail: b.allowed_to_fail@,
        },
    }
}

/// The transactions that make up an executable.
pub open spec fn executable_txs(e: Executable) -> Seq<Tx> {
    match e {
        Executable::Transaction(t) => seq![t],
        Executable::Bundle(b) => b.transactions@,
    }
}

/// The hash of an executable: the transaction hash or the bundle hash.
pub open spec fn executable_hash(e: Executable) -> u64 {
    match e {
        Executable::Transaction(t) => t.hash,
        Executable::Bundle(b) => b.hash,
    }
}

impl Executable {
    /// All transactions that make up this executable.
    pub fn transactions(&self) -> (r: Vec<Tx>)
        ensures
            r@ == executable_txs(*self),
    {
        match self {
            Executable::Transaction(t) => {
                let v = vec![*t];
                assert(v@ =~= seq![*t]);
                v
            },
            Executable::Bundle(b) => copy_vec(&b.transactions),
        }
    }

    /// Whether this is a single transaction.
    pub fn is_transaction(&self) -> (r: bool)
        ensures
            r == (*self is Transaction),
    {
        matches!(self, Executable::Transaction(_))
    }

    /// Whether this is a bundle.
    pub fn is_bundle(&self) -> (r: bool)
        ensures
            r == (*self is Bundle),
    {
        matches!(self, Executable::Bundle(_))
    }

    /// The transaction hash or the bundle hash.
    pub fn hash(&self) -> (r: u64)
        ensures
            r == executable_hash(*self),
    {
        match self {
            Executable::Transaction(t) => t.hash,
            Executable::Bundle(b) => b.hash,
        }
    }

    /// A copy of the executable.
    pub fn duplicate(&self) -> (r: Executable)
        ensures
            exec_view(r) == exec_view(*self),
            executable_txs(r) == executable_txs(*self),
            executable_hash(r) == executable_hash(*self),
            (r is Transaction) == (*self is Transaction),
    {
        match self {
            Executable::Transaction(t) => Executable::Transaction(*t),
            Executable::Bundle(b) => Executable::Bundle(b.duplicate()),
        }
    }
}

/// The outcome of executing one transaction.
#[derive(Debug, Clone, Copy, PartialEq, Eq, Structural)]
pub enum ExecOutcome {
    /// The transaction succeeded.
    Success { gas_used: u64 },
    /// The transaction reverted.
    Revert { gas_used: u64 },
    /// The transaction halted.
    Halt { gas_used: u64 },
}

/// The gas used by an outcome.
pub open spec fn outcome_gas(o: ExecOutcome) -> u64 {
    match o {
        ExecOutcome::Success { gas_used } => gas_used,
        ExecOutcome::Revert { gas_used } => gas_used,
        ExecOutcome::Halt { gas_used } => gas_used,
    }
}

impl ExecOutcome {
    /// Whether the transaction succeeded.
    pub fn is_success(&self) -> (r: bool)
        ensures
            r == (*self is Success),
    {
        matches!(self, ExecOutcome::Success { .. })
    }

    /// The gas used.
    pub fn gas_used(&self) -> (r: u64)
        ensures
            r == outcome_gas(*self),
    {
        match self {
            ExecOutcome::Success { gas_used } => *gas_used,
            ExecOutcome::Revert { gas_used } => *gas_used,
            ExecOutcome::Halt { gas_used } => *gas_used,
        }
    }
}

/// The total gas of a list of outcomes.
pub open spec fn total_gas(s: Seq<ExecOutcome>) -> int
    decreases s.len(),
{
    if s.len() == 0 {
        0
    } else {
        total_gas(s.drop_last()) + outcome_gas(s.last())
    }
}

/// The result of executing a transaction or a bundle: its source, one
/// outcome per transaction of the source, and the state changes that the
/// execution made (a list of writes, see `payload::state`).
#[derive(Debug)]
pub struct ExecutionResult {
    source: Executable,
    results: Vec<ExecOutcome>,
    state: Vec<(u64, u64)>,
}

impl ExecutionResult {
    /// The executable that produced this result.
    pub closed spec fn spec_source(&self) -> Executable {
        self.source
    }

    /// The outcome of each transaction of the source.
    pub closed spec fn spec_results(&self) -> Seq<ExecOutcome> {
        self.results@
    }

    /// The state changes of the execution, as a list of writes.
    pub closed spec fn spec_state(&self) -> Seq<(u64, u64)> {
        self.state@
    }

    /// Every transaction of the source has exactly one outcome.
    pub open spec fn wf(&self) -> bool {
        self.spec_results().len() == executable_txs(self.spec_source()).len()
    }

    /// Every result holds one outcome per transaction of its source.
    #[verifier::type_invariant]
    pub(crate) open spec fn outcomes_match(&self) -> bool {
        self.wf()
    }

    /// A result from a source, the outcome of each of its transactions and
    /// the state changes of the execution; `None` when the number of outcomes
    /// differs from the number of transactions.
    pub fn new(source: Executable, results: Vec<ExecOutcome>, state: Vec<(u64, u64)>) -> (r: Option<Self>)
        ensures
            match r {
                Some(x) => x.wf() && x.spec_source() == source && x.spec_results() == results@
                    && x.spec_state() == state@,
                None => results@.len() != executable_txs(source).len(),
            },
    {
        let n = match &source {
            Executable::Transaction(_) => 1,
            Executable::Bundle(b) => b.transactions.len(),
        };
        if results.len() != n {
            return None;
        }
        Some(ExecutionResult { source, results, state })
    }

    /// The state changes of the execution.
    pub fn state(&self) -> (r: &Vec<(u64, u64)>)
        ensures
            r@ == self.spec_state(),
    {
        &self.state
    }

    /// The executable used to produce this result.
    pub fn source(&self) -> (r: &Executable)
        ensures
            *r == self.spec_source(),
    {
        &self.source
    }

    /// The outcome of each transaction.
    pub fn results(&self) -> (r: &Vec<ExecOutcome>)
        ensures
            r@ == self.spec_results(),
    {
        &self.results
    }

    /// The transactions executed as part of this result.
    pub fn transactions(&self) -> (r: Vec<Tx>)
        ensures
            r@ == executable_txs(self.spec_source()),
    {
        self.source.transactions()
    }

    /// The cumulative gas used by all transactions of this result.
    pub fn gas_used(&self) -> (r: u128)
        ensures
            r == total_gas(self.spec_results()),
    {
        let mut total: u128 = 0;
        let mut i: usize = 0;
        while i < self.results.len()
            invariant
                i <= self.results@.len(),
                total == total_gas(self.results@.subrange(0, i as int)),
                total <= i * 0xffff_ffff_ffff_ffff,
            decreases self.results@.len() - i,
        {
            let g = self.results[i].gas_used();
            assert(self.results@.subrange(0, i + 1).drop_last() =~= self.results@.subrange(0, i as int));
            assert(total + g <= (i + 1) * 0xffff_ffff_ffff_ffff) by (nonlinear_arith)
                requires total <= i * 0xffff_ffff_ffff_ffff, g <= 0xffff_ffff_ffff_ffff;
            assert((i + 1) * 0xffff_ffff_ffff_ffff <= 0xffff_ffff_ffff_ffff * 0xffff_ffff_ffff_ffff + 0xffff_ffff_ffff_ffff) by (nonlinear_arith)
                requires i < 0xffff_ffff_ffff_ffff;
            total = total + g as u128;
            i = i + 1;
        }
        assert(self.results@.subrange(0, self.results@.len() as int) =~= self.results@);
        total
    }

    /// A copy of the result.
    pub fn duplicate(&self) -> (r: ExecutionResult)
        ensures
            exec_view(r.spec_source()) == exec_view(self.spec_source()),
            executable_txs(r.spec_source()) == executable_txs(self.spec_source()),
            executable_hash(r.spec_source()) == executable_hash(self.spec_source()),
            (r.spec_source() is Transaction) == (self.spec_source() is Transaction),
            r.spec_results() == self.spec_results(),
            r.spec_state() == self.spec_state(),
    {
        proof {
            use_type_invariant(self);
        }
        ExecutionResult {
            source: self.source.duplicate(),
            results: copy_vec(&self.results),
            state: copy_vec(&self.state),
        }
    }
}

} // verus!
