//! Payload building limits.

use vstd::prelude::*;

verus! {

/// Blob gas used by one blob (EIP-4844).
pub const DATA_GAS_PER_BLOB: u64 = 131072;

/// The limits that a block building process can be held to.
///
/// Implementations provide the gas limit; the other limits have the
/// defaults of EIP-4844 unless overridden.
pub trait Limits {
    /// The maximum cumulative gas that can be used in the block.
    fn gas_limit(&self) -> u64;

    /// The maximum number of transactions in the block, if any.
    fn max_transactions(&self) -> (r: Option<u64>)
        default_ensures
            r is None,
    {
        None
    }

    /// The maximum size of a blob in a single transaction (128 kB).
    fn max_blob_size(&self) -> (r: u64)
        default_ensures
            r == 131072,
    {
        128 * 1024
    }

    /// The maximum number of blob transactions in the block (6).
    fn max_blob_transactions(&self) -> (r: u64)
        default_ensures
            r == 6,
    {
        6
    }
}

/// The maximum cumulative size of all blobs in the block: the maximum blob
/// size times the maximum number of blob transactions (wrapping on overflow,
/// as the unchecked product does in a release build).
pub fn max_total_blobs_size<L: Limits>(limits: &L) -> (r: Option<u64>)
    ensures
        r matches Some(v) && exists|size: u64, count: u64|
            #![trigger call_ensures(L::max_blob_size, (limits,), size), call_ensures(L::max_blob_transactions, (limits,), count)]
            call_ensures(L::max_blob_size, (limits,), size)
                && call_ensures(L::max_blob_transactions, (limits,), count)
                && v == size.wrapping_mul(count),
{
    let size_of = L::max_blob_size;
    let count_of = L::max_blob_transactions;
    let size = size_of(limits);
    let count = count_of(limits);
    Some(size.wrapping_mul(count))
}

/// Limits with a fixed gas limit and the default values for everything else.
#[derive(Debug, Clone, Copy)]
pub struct StaticLimits {
    /// The maximum cumulative gas that can be used in the block.
    pub gas_limit: u64,
}

impl Limits for StaticLimits {
    fn gas_limit(&self) -> (r: u64)
        ensures
            r == self.gas_limit,
    {
        self.gas_limit
    }
}

/// Blob parameters of a fork: how many blobs a block may hold.
#[derive(Debug, Clone, Copy, PartialEq, Eq)]
pub struct BlobParams {
    /// The target number of blobs per block.
    pub target_blob_count: u64,
    /// The maximum number of blobs per block.
    pub max_blob_count: u64,
}

impl BlobParams {
    /// The maximum blob gas of a block: the maximum blob count times the
    /// blob gas of one blob.
    pub open spec fn spec_max_blob_gas_per_block(&self) -> int {
        self.max_blob_count * DATA_GAS_PER_BLOB
    }

    /// The maximum blob gas of a block, computed without overflow.
    pub fn max_blob_gas_per_block(&self) -> (r: u128)
        ensures
            r == self.spec_max_blob_gas_per_block(),
    {
        assert(self.max_blob_count * 131072 <= 0xffff_ffff_ffff_ffff * 131072) by (nonlinear_arith)
            requires self.max_blob_count <= 0xffff_ffff_ffff_ffff;
        self.max_blob_count as u128 * DATA_GAS_PER_BLOB as u128
    }
}

/// The smaller of two optional bounds, where `None` stands for no bound.
pub open spec fn min_bound(a: Option<u64>, b: Option<u64>) -> Option<u64> {
    match (a, b) {
        (Some(x), Some(y)) => Some(if x <= y { x } else { y }),
        (Some(x), None) => Some(x),
        (None, y) => y,
    }
}

fn min_bound_exec(a: Option<u64>, b: Option<u64>) -> (r: Option<u64>)
    ensures
        r == min_bound(a, b),
{
    match (a, b) {
        (Some(x), Some(y)) => Some(if x <= y { x } else { y }),
        (Some(x), None) => Some(x),
        (None, y) => y,
    }
}

/// The limits in force for the steps of one pipeline scope.
#[derive(Debug, Clone, Copy, PartialEq, Eq)]
pub struct ScopeLimits {
    /// The maximum cumulative gas used by the payload.
    pub gas_limit: u64,
    /// The maximum number of transactions, if any.
    pub max_transactions: Option<u64>,
    /// How long the scope may run, in milliseconds, if bounded.
    pub deadline_millis: Option<u64>,
    /// Blob limits, for forks that have blobs.
    pub blob_params: Option<BlobParams>,
}

/// The limits of `l` held within `enclosing`: every bound is the tighter of
/// the two.
pub open spec fn clamp_spec(l: ScopeLimits, enclosing: ScopeLimits) -> ScopeLimits {
    ScopeLimits {
        gas_limit: if l.gas_limit <= enclosing.gas_limit { l.gas_limit } else { enclosing.gas_limit },
        max_transactions: min_bound(l.max_transactions, enclosing.max_transactions),
        deadline_millis: min_bound(l.deadline_millis, enclosing.deadline_millis),
        blob_params: match (l.blob_params, enclosing.blob_params) {
            (Some(a), Some(b)) => Some(BlobParams {
                target_blob_count: if a.target_blob_count <= b.target_blob_count { a.target_blob_count } else { b.target_blob_count },
                max_blob_count: if a.max_blob_count <= b.max_blob_count { a.max_blob_count } else { b.max_blob_count },
            }),
            (a, b) => if a is Some { a } else { b },
        },
    }
}

/// Whether `l` is at least as tight as `enclosing` in every bound.
pub open spec fn within(l: ScopeLimits, enclosing: ScopeLimits) -> bool {
    &&& l.gas_limit <= enclosing.gas_limit
    &&& (enclosing.max_transactions matches Some(m) ==> l.max_transactions matches Some(x) && x <= m)
    &&& (enclosing.deadline_millis matches Some(m) ==> l.deadline_millis matches Some(x) && x <= m)
    &&& (enclosing.blob_params matches Some(b) ==> l.blob_params matches Some(a)
        && a.max_blob_count <= b.max_blob_count && a.target_blob_count <= b.target_blob_count)
}

impl ScopeLimits {
    /// Limits with the given gas limit and no other bound.
    pub fn with_gas_limit(gas_limit: u64) -> (r: Self)
        ensures
            r == (ScopeLimits { gas_limit, max_transactions: None, deadline_millis: None, blob_params: None }),
    {
        ScopeLimits { gas_limit, max_transactions: None, deadline_millis: None, blob_params: None }
    }

    /// These limits with the given blob parameters.
    pub fn with_blob_params(self, blob_params: BlobParams) -> (r: Self)
        ensures
            r == (ScopeLimits { blob_params: Some(blob_params), ..self }),
    {
        ScopeLimits { blob_params: Some(blob_params), ..self }
    }

    /// These limits with the given deadline.
    pub fn with_deadline(self, deadline_millis: u64) -> (r: Self)
        ensures
            r == (ScopeLimits { deadline_millis: Some(deadline_millis), ..self }),
    {
        ScopeLimits { deadline_millis: Some(deadline_millis), ..self }
    }

    /// These limits with the given maximum transaction count.
    pub fn with_max_transactions(self, max_transactions: u64) -> (r: Self)
        ensures
            r == (ScopeLimits { max_transactions: Some(max_transactions), ..self }),
    {
        ScopeLimits { max_transactions: Some(max_transactions), ..self }
    }

    /// These limits held within `enclosing`.
    pub fn clamp(&self, enclosing: &ScopeLimits) -> (r: Self)
        ensures
            r == clamp_spec(*self, *enclosing),
            within(r, *enclosing),
            r.gas_limit == if self.gas_limit <= enclosing.gas_limit { self.gas_limit } else { enclosing.gas_limit },
            self.deadline_millis is Some && enclosing.deadline_millis is Some ==> r.deadline_millis == Some(
                if self.deadline_millis->0 <= enclosing.deadline_millis->0 { self.deadline_millis->0 } else { enclosing.deadline_millis->0 },
            ),
            self.max_transactions is Some && enclosing.max_transactions is Some ==> r.max_transactions == Some(
                if self.max_transactions->0 <= enclosing.max_transactions->0 { self.max_transactions->0 } else { enclosing.max_transactions->0 },
            ),
    {
        let gas_limit = if self.gas_limit <= enclosing.gas_limit {
            self.gas_limit
        } else {
            enclosing.gas_limit
        };
        let blob_params = match (self.blob_params, enclosing.blob_params) {
            (Some(a), Some(b)) => Some(BlobParams {
                target_blob_count: if a.target_blob_count <= b.target_blob_count { a.target_blob_count } else { b.target_blob_count },
                max_blob_count: if a.max_blob_count <= b.max_blob_count { a.max_blob_count } else { b.max_blob_count },
            }),
            (a, b) => if a.is_some() { a } else { b },
        };
        ScopeLimits {
            gas_limit,
            max_transactions: min_bound_exec(self.max_transactions, enclosing.max_transactions),
            deadline_millis: min_bound_exec(self.deadline_millis, enclosing.deadline_millis),
            blob_params,
        }
    }
}

impl Limits for ScopeLimits {
    fn gas_limit(&self) -> (r: u64)
        ensures
            r == self.gas_limit,
    {
        self.gas_limit
    }

    fn max_transactions(&self) -> (r: Option<u64>)
        ensures
            r == self.max_transactions,
    {
        self.max_transactions
    }
}

/// Clamping is idempotent: limits already held within `enclosing` do not
/// change when clamped to it again, and clamping twice equals clamping once.
pub proof fn lemma_clamp_idempotent(l: ScopeLimits, enclosing: ScopeLimits)
    ensures
        clamp_spec(clamp_spec(l, enclosing), enclosing) == clamp_spec(l, enclosing),
        within(l, enclosing) ==> clamp_spec(l, enclosing) == l,
{
}

/// Clamping keeps, of each bound, the tighter of the two: the smaller gas
/// limit, the smaller maximum transaction count, the earlier deadline and
/// the smaller blob counts; a bound that only one side has is kept as it is.
pub proof fn lemma_clamp_takes_tighter_bounds(l: ScopeLimits, e: ScopeLimits)
    ensures
        clamp_spec(l, e).gas_limit == if l.gas_limit <= e.gas_limit { l.gas_limit } else { e.gas_limit },
        l.deadline_millis is Some && e.deadline_millis is Some ==> clamp_spec(l, e).deadline_millis == Some(
            if l.deadline_millis->0 <= e.deadline_millis->0 { l.deadline_millis->0 } else { e.deadline_millis->0 },
        ),
        l.deadline_millis is None ==> clamp_spec(l, e).deadline_millis == e.deadline_millis,
        e.deadline_millis is None ==> clamp_spec(l, e).deadline_millis == l.deadline_millis,
        l.max_transactions is Some && e.max_transactions is Some ==> clamp_spec(l, e).max_transactions == Some(
            if l.max_transactions->0 <= e.max_transactions->0 { l.max_transactions->0 } else { e.max_transactions->0 },
        ),
        l.max_transactions is None ==> clamp_spec(l, e).max_transactions == e.max_transactions,
        e.max_transactions is None ==> clamp_spec(l, e).max_transactions == l.max_transactions,
        l.blob_params is Some && e.blob_params is Some ==> clamp_spec(l, e).blob_params == Some(BlobParams {
            target_blob_count: if l.blob_params->0.target_blob_count <= e.blob_params->0.target_blob_count {
                l.blob_params->0.target_blob_count
            } else {
                e.blob_params->0.target_blob_count
            },
            max_blob_count: if l.blob_params->0.max_blob_count <= e.blob_params->0.max_blob_count {
                l.blob_params->0.max_blob_count
            } else {
                e.blob_params->0.max_blob_count
            },
        }),
        l.blob_params is None ==> clamp_spec(l, e).blob_params == e.blob_params,
        e.blob_params is None ==> clamp_spec(l, e).blob_params == l.blob_params,
{
}

/// Clamping never makes a bound tighter than both sides: the clamped limits
/// are at least as loose as any limits that lie within both.
pub proof fn lemma_clamp_is_loosest_within_both(l: ScopeLimits, e: ScopeLimits, m: ScopeLimits)
    requires
        within(m, l),
        within(m, e),
    ensures
        within(m, clamp_spec(l, e)),
{
}

} // verus!

