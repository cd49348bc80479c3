//! Conveniences over checkpoints: gas and tips, blobs, signers, failures,
//! and the spans of a checkpoint's history.

use crate::payload::block::same_block;
use crate::payload::checkpoint::{node_results, node_txs, valid_history, Checkpoint, NodeView};
use crate::payload::exec::{effective_tip, total_gas, ExecOutcome, Tx};
use crate::payload::span::{
    between_view, blob_gas_sum, is_blob, linear, span_gas, span_of, span_txs, Span, SpanError,
};
use crate::vec_util::contains_u64;
use vstd::prelude::*;

verus! {

/// Selects the transactions that carry blobs.
pub open spec fn blob_pred() -> spec_fn(Tx) -> bool {
    |t: Tx| is_blob(t)
}

/// The spans of a history: one checkpoint per entry, from the initial one.
pub open spec fn history_view(h: Seq<NodeView>) -> Seq<Seq<NodeView>> {
    span_of(h.take(1), h)
}

/// The sum of the tips per gas of the transactions that pay one at
/// `base_fee`.
pub open spec fn tips_sum(txs: Seq<Tx>, base_fee: u64) -> int
    decreases txs.len(),
{
    if txs.len() == 0 {
        0
    } else {
        tips_sum(txs.drop_last(), base_fee) + match effective_tip(txs.last(), base_fee) {
            Some(t) => t as int,
            None => 0,
        }
    }
}

/// The values of `s` without repetitions, each where it first occurs.
pub open spec fn unique_in_order(s: Seq<u64>) -> Seq<u64>
    decreases s.len(),
{
    if s.len() == 0 {
        Seq::empty()
    } else {
        let u = unique_in_order(s.drop_last());
        if u.contains(s.last()) {
            u
        } else {
            u.push(s.last())
        }
    }
}

/// The transactions paired with their outcomes, where the outcome is not a
/// success.
pub open spec fn failures(txs: Seq<Tx>, results: Seq<ExecOutcome>) -> Seq<(Tx, ExecOutcome)>
    decreases txs.len(),
{
    if txs.len() == 0 || results.len() != txs.len() {
        Seq::empty()
    } else {
        let rest = failures(txs.drop_last(), results.drop_last());
        if results.last() is Success {
            rest
        } else {
            rest.push((txs.last(), results.last()))
        }
    }
}

/// The index of the last barrier among the entries `0..=i` of `h`; the
/// initial checkpoint when no other is one.
pub open spec fn last_barrier_from(h: Seq<NodeView>, i: int) -> int
    decreases i,
{
    if i <= 0 {
        0
    } else if h[i].mutation is None {
        i
    } else {
        last_barrier_from(h, i - 1)
    }
}

/// The index of the last barrier of a history.
pub open spec fn last_barrier(h: Seq<NodeView>) -> int {
    last_barrier_from(h, h.len() - 1)
}

proof fn lemma_last_barrier_range(h: Seq<NodeView>, i: int)
    requires
        0 <= i,
    ensures
        0 <= last_barrier_from(h, i) <= i,
    decreases i,
{
    if i > 0 && h[i].mutation is Some {
        lemma_last_barrier_range(h, i - 1);
    }
}

/// The sealed history and the staging history of a checkpoint partition its
/// history at the last barrier: the sealed history ends with that barrier,
/// the staging history holds the checkpoints after it, and each of those
/// applied a transaction or a bundle. A barrier has an empty staging
/// history.
pub proof fn lemma_sealed_staging_partition(h: Seq<NodeView>)
    requires
        valid_history(h),
    ensures
        ({
            let sealed = history_view(h).take(last_barrier(h) + 1);
            let staging = history_view(h).skip(last_barrier(h) + 1);
            &&& sealed + staging == history_view(h)
            &&& sealed.len() > 0
            &&& sealed.last().last().mutation is None
            &&& forall|i: int| 0 <= i < staging.len() ==> (#[trigger] staging[i]).last().mutation is Some
            &&& h.last().mutation is None ==> staging.len() == 0
        }),
{
    lemma_last_barrier_range(h, h.len() - 1);
    lemma_last_barrier_is_last(h, h.len() - 1);
    let b = last_barrier(h);
    let sealed = history_view(h).take(b + 1);
    let staging = history_view(h).skip(b + 1);
    assert(sealed + staging =~= history_view(h));
    assert(sealed.last() == h.take(b + 1));
    assert forall|i: int| 0 <= i < staging.len() implies (#[trigger] staging[i]).last().mutation is Some by {
        assert(staging[i] == h.take(b + i + 2));
        assert(staging[i].last() == h[b + i + 1]);
    }
    if h.last().mutation is None {
        assert(b == h.len() - 1);
    }
}

proof fn lemma_last_barrier_is_last(h: Seq<NodeView>, i: int)
    requires
        0 <= i < h.len(),
        h[0].mutation is None,
    ensures
        h[last_barrier_from(h, i)].mutation is None,
        forall|j: int| last_barrier_from(h, i) < j <= i ==> (#[trigger] h[j]).mutation is Some,
    decreases i,
{
    if i > 0 && h[i].mutation is Some {
        lemma_last_barrier_is_last(h, i - 1);
    }
}

/// The history of a checkpoint has one checkpoint per entry: its depth plus
/// one; each is the history up to that entry.
pub proof fn lemma_history_len(h: Seq<NodeView>)
    requires
        h.len() >= 1,
    ensures
        history_view(h).len() == h.len(),
        forall|i: int| 0 <= i < h.len() ==> #[trigger] history_view(h)[i] == h.take(i + 1),
        history_view(h).last() == h,
{
    assert(h.take(h.len() as int) =~= h);
}

/// Applying a mutation and going back to the previous checkpoint gives the
/// history one started from: `prev` undoes `apply` and `barrier`.
pub proof fn lemma_prev_undoes_apply(
    h: Seq<NodeView>,
    mutation: Option<(crate::payload::exec::ExecView, Seq<ExecOutcome>)>,
    writes: Seq<(u64, u64)>,
    created_at: u64,
    context: Seq<char>,
)
    ensures
        crate::payload::checkpoint::pushed(h, mutation, writes, created_at, context).drop_last() == h,
        crate::payload::checkpoint::pushed(h, mutation, writes, created_at, context).len() == h.len() + 1,
{
    assert(crate::payload::checkpoint::pushed(h, mutation, writes, created_at, context).drop_last() =~= h);
}

/// Applying one more mutation adds exactly its own gas to the cumulative gas
/// of the payload: the cumulative gas of the new checkpoint is that of the
/// checkpoint it was applied to plus its own gas used.
pub proof fn lemma_cumulative_gas_after_push(
    h: Seq<NodeView>,
    mutation: Option<(crate::payload::exec::ExecView, Seq<ExecOutcome>)>,
    writes: Seq<(u64, u64)>,
    created_at: u64,
    context: Seq<char>,
)
    requires
        h.len() >= 1,
    ensures
        ({
            let next = crate::payload::checkpoint::pushed(h, mutation, writes, created_at, context);
            span_gas(history_view(next)) == span_gas(history_view(h)) + total_gas(node_results(next.last()))
        }),
{
    let next = crate::payload::checkpoint::pushed(h, mutation, writes, created_at, context);
    assert(history_view(next).drop_last() =~= history_view(h)) by {
        assert forall|i: int| 0 <= i < history_view(h).len() implies history_view(next).drop_last()[i] == #[trigger] history_view(h)[i] by {
            assert(next.take(1 + i) =~= h.take(1 + i));
        }
    }
    assert(history_view(next).last() =~= next);
}

/// The root of a payload, its initial checkpoint, has used no gas.
pub proof fn lemma_root_gas_is_zero(h: Seq<NodeView>)
    requires
        valid_history(h),
    ensures
        span_gas(history_view(h.take(1))) == 0,
{
    let root = h.take(1);
    assert(root.take(1) =~= root);
    assert(history_view(root).drop_last().len() == 0);
    assert(history_view(root).last() =~= root);
    assert(node_results(root.last()) =~= Seq::<ExecOutcome>::empty());
    assert(span_gas(history_view(root).drop_last()) == 0);
    assert(total_gas(node_results(root.last())) == 0);
}

/// The entry of `h` that opens a span starting at a checkpoint tagged `tag`,
/// searching from the newest (`last`) or from the oldest.
pub open spec fn tagged_at(h: Seq<NodeView>, i: int, tag: Seq<char>) -> bool {
    0 <= i < h.len() && h[i].context == tag
}

/// Conveniences
impl Checkpoint {
    /// Whether this is the initial checkpoint of the payload: no mutation in
    /// its history.
    pub fn is_empty(&self) -> (r: bool)
        ensures
            r == (self@.len() == 1),
    {
        self.depth() == 0
    }

    /// The initial checkpoint of this checkpoint's history.
    pub fn root(&self) -> (r: Checkpoint)
        ensures
            r@ == self@.take(1),
            same_block(r.spec_block(), self.spec_block()),
    {
        self.note_valid();
        self.truncated(1)
    }

    /// The gas used by this checkpoint's own mutation; zero for a barrier.
    pub fn gas_used(&self) -> (r: u128)
        ensures
            r == total_gas(node_results(self@.last())),
    {
        match self.result() {
            Some(res) => res.gas_used(),
            None => 0,
        }
    }

    /// The gas used by the whole history of this checkpoint.
    pub fn cumulative_gas_used(&self) -> (r: u128)
        requires
            span_gas(history_view(self@)) <= u128::MAX,
        ensures
            r == span_gas(history_view(self@)),
    {
        self.history().gas_used()
    }

    /// The gas used by the whole history of this checkpoint, or `None` when
    /// it does not fit in 128 bits.
    pub fn checked_cumulative_gas_used(&self) -> (r: Option<u128>)
        ensures
            r == if span_gas(history_view(self@)) <= u128::MAX {
                Some(span_gas(history_view(self@)) as u128)
            } else {
                None::<u128>
            },
    {
        self.history().checked_gas_used()
    }

    /// The blob gas used by the whole history of this checkpoint, or `None`
    /// when it does not fit in 128 bits.
    pub fn checked_cumulative_blob_gas_used(&self) -> (r: Option<u128>)
        ensures
            r == if blob_gas_sum(span_txs(history_view(self@))) <= u128::MAX {
                Some(blob_gas_sum(span_txs(history_view(self@))) as u128)
            } else {
                None::<u128>
            },
    {
        self.history().checked_blob_gas_used()
    }

    /// The blob gas used by the whole history of this checkpoint.
    pub fn cumulative_blob_gas_used(&self) -> (r: u128)
        requires
            blob_gas_sum(span_txs(history_view(self@))) <= u128::MAX,
        ensures
            r == blob_gas_sum(span_txs(history_view(self@))),
    {
        self.history().blob_gas_used()
    }

    /// The sum of the tips per gas of this checkpoint's transactions at the
    /// block's base fee; transactions that cannot pay the base fee add
    /// nothing.
    pub fn effective_tip_per_gas(&self) -> (r: u128)
        requires
            tips_sum(node_txs(self@.last()), self.spec_block().base_fee) <= u128::MAX,
        ensures
            r == tips_sum(node_txs(self@.last()), self.spec_block().base_fee),
    {
        let txs = self.transactions();
        let base_fee = self.block().base_fee;
        let mut total: u128 = 0;
        let mut i: usize = 0;
        while i < txs.len()
            invariant
                i <= txs@.len(),
                txs@ == node_txs(self@.last()),
                base_fee == self.spec_block().base_fee,
                total == tips_sum(txs@.take(i as int), base_fee),
                tips_sum(txs@, base_fee) <= u128::MAX,
            decreases txs@.len() - i,
        {
            proof {
                lemma_tips_mono(txs@, base_fee, i + 1);
                assert(txs@.take(i + 1).drop_last() =~= txs@.take(i as int));
            }
            let t = txs[i].effective_tip_per_gas(base_fee);
            match t {
                Some(t) => {
                    total = total + t;
                },
                None => {},
            }
            i = i + 1;
        }
        assert(txs@.take(txs@.len() as int) =~= txs@);
        total
    }

    /// The blob gas used by this checkpoint's blob transactions; `None` when
    /// it has none.
    pub fn blob_gas_used(&self) -> (r: Option<u128>)
        ensures
            r == if node_txs(self@.last()).any(blob_pred()) {
                Some(blob_gas_sum(node_txs(self@.last())) as u128)
            } else {
                None::<u128>
            },
            r is Some ==> blob_gas_sum(node_txs(self@.last())) <= u128::MAX,
    {
        let txs = self.transactions();
        let mut total: u128 = 0;
        let mut any = false;
        let mut i: usize = 0;
        while i < txs.len()
            invariant
                i <= txs@.len(),
                txs@ == node_txs(self@.last()),
                total == blob_gas_sum(txs@.take(i as int)),
                total <= i * 0xffff_ffff_ffff_ffff,
                any == txs@.take(i as int).any(blob_pred()),
            decreases txs@.len() - i,
        {
            assert(txs@.take(i + 1).drop_last() =~= txs@.take(i as int));
            let g: u64 = match txs[i].blob_gas_used {
                Some(g) => g,
                None => 0,
            };
            assert(total + g <= (i + 1) * 0xffff_ffff_ffff_ffff) by (nonlinear_arith)
                requires total <= i * 0xffff_ffff_ffff_ffff, g <= 0xffff_ffff_ffff_ffff;
            assert((i + 1) * 0xffff_ffff_ffff_ffff <= 0xffff_ffff_ffff_ffff * 0xffff_ffff_ffff_ffff + 0xffff_ffff_ffff_ffff) by (nonlinear_arith)
                requires i < 0xffff_ffff_ffff_ffff;
            proof {
                let pr = blob_pred();
                let p = txs@.take(i + 1);
                let q = txs@.take(i as int);
                if p.any(pr) {
                    let k = choose|k: int| 0 <= k < p.len() && #[trigger] pr(p[k]);
                    if k < i {
                        assert(q[k] == p[k]);
                        assert(pr(q[k]));
                    } else {
                        assert(p[k] == txs@[i as int]);
                    }
                }
                if q.any(pr) {
                    let k = choose|k: int| 0 <= k < q.len() && #[trigger] pr(q[k]);
                    assert(p[k] == q[k]);
                    assert(pr(p[k]));
                }
                if is_blob(txs@[i as int]) {
                    assert(p[i as int] == txs@[i as int]);
                    assert(pr(p[i as int]));
                }
            }
            any = any || txs[i].blob_gas_used.is_some();
            total = total + g as u128;
            i = i + 1;
        }
        assert(txs@.take(txs@.len() as int) =~= txs@);
        if any {
            Some(total)
        } else {
            None
        }
    }

    /// Whether this checkpoint applied a blob transaction.
    pub fn has_blobs(&self) -> (r: bool)
        ensures
            r == node_txs(self@.last()).any(blob_pred()),
    {
        self.blob_gas_used().is_some()
    }

    /// The blob transactions of this checkpoint, in order.
    pub fn blobs(&self) -> (r: Vec<Tx>)
        ensures
            r@ == node_txs(self@.last()).filter(blob_pred()),
    {
        let txs = self.transactions();
        let mut r: Vec<Tx> = Vec::new();
        let mut i: usize = 0;
        let ghost pred = blob_pred();
        while i < txs.len()
            invariant
                i <= txs@.len(),
                pred == (blob_pred()),
                r@ == txs@.take(i as int).filter(pred),
            decreases txs@.len() - i,
        {
            let t = txs[i];
            proof {
                assert(txs@.take(i + 1) =~= txs@.take(i as int).push(t));
                txs@.take(i as int).lemma_filter_push(t, pred);
            }
            if t.blob_gas_used.is_some() {
                r.push(t);
            }
            i = i + 1;
        }
        assert(txs@.take(txs@.len() as int) =~= txs@);
        r
    }

    /// The span of this checkpoint's whole history, from the initial
    /// checkpoint to this one.
    pub fn history(&self) -> (r: Span)
        ensures
            r@ == history_view(self@),
            same_block(r.spec_block(), self.spec_block()),
    {
        let n = self.history_len();
        let top = self.truncated(n);
        assert(self@.take(n as int) =~= self@);
        Span::whole(top)
    }

    /// Whether this checkpoint applied a transaction with this hash.
    pub fn contains(&self, tx_hash: u64) -> (r: bool)
        ensures
            r == exists|i: int| 0 <= i < node_txs(self@.last()).len() && (#[trigger] node_txs(self@.last())[i]).hash == tx_hash,
    {
        let txs = self.transactions();
        let mut i: usize = 0;
        while i < txs.len()
            invariant
                i <= txs@.len(),
                txs@ == node_txs(self@.last()),
                forall|j: int| 0 <= j < i ==> (#[trigger] txs@[j]).hash != tx_hash,
            decreases txs@.len() - i,
        {
            if txs[i].hash == tx_hash {
                return true;
            }
            i = i + 1;
        }
        false
    }

    /// The span between this checkpoint and `other`, whichever comes first;
    /// see `Span::between`.
    pub fn to(&self, other: &Checkpoint) -> (r: Result<Span, SpanError>)
        ensures
            match r {
                Ok(s) => linear(self@, other@) && same_block(self.spec_block(), other.spec_block())
                    && s@ == between_view(self@, other@),
                Err(e) => e == SpanError::NonlinearHistory && !(linear(self@, other@)
                    && same_block(self.spec_block(), other.spec_block())),
            },
    {
        Span::between(self, other)
    }

    /// The signer and nonce of each transaction of this checkpoint.
    pub fn nonces(&self) -> (r: Vec<(u64, u64)>)
        ensures
            r@ == node_txs(self@.last()).map_values(|t: Tx| (t.signer, t.nonce)),
    {
        let txs = self.transactions();
        let mut r: Vec<(u64, u64)> = Vec::new();
        let mut i: usize = 0;
        while i < txs.len()
            invariant
                i <= txs@.len(),
                r@ == txs@.take(i as int).map_values(|t: Tx| (t.signer, t.nonce)),
            decreases txs@.len() - i,
        {
            r.push((txs[i].signer, txs[i].nonce));
            assert(txs@.take(i + 1).map_values(|t: Tx| (t.signer, t.nonce))
                =~= txs@.take(i as int).map_values(|t: Tx| (t.signer, t.nonce)).push((txs@[i as int].signer, txs@[i as int].nonce)));
            i = i + 1;
        }
        assert(txs@.take(txs@.len() as int) =~= txs@);
        r
    }

    /// The signers of this checkpoint's transactions, each once, in the order
    /// they first sign.
    pub fn signers(&self) -> (r: Vec<u64>)
        ensures
            r@ == unique_in_order(node_txs(self@.last()).map_values(|t: Tx| t.signer)),
    {
        let txs = self.transactions();
        let ghost all = txs@.map_values(|t: Tx| t.signer);
        let mut r: Vec<u64> = Vec::new();
        let mut i: usize = 0;
        while i < txs.len()
            invariant
                i <= txs@.len(),
                all == txs@.map_values(|t: Tx| t.signer),
                r@ == unique_in_order(all.take(i as int)),
            decreases txs@.len() - i,
        {
            assert(all.take(i + 1).drop_last() =~= all.take(i as int));
            assert(all.take(i + 1).last() == txs@[i as int].signer);
            let s = txs[i].signer;
            if !contains_u64(&r, s) {
                r.push(s);
            }
            i = i + 1;
        }
        assert(all.take(txs@.len() as int) =~= all);
        r
    }

    /// The transaction hash or bundle hash of this checkpoint's mutation;
    /// `None` for a barrier.
    pub fn hash(&self) -> (r: Option<u64>)
        ensures
            r == match self@.last().mutation {
                Some((e, _)) => Some(e.hash),
                None => None::<u64>,
            },
    {
        match self.result() {
            Some(res) => Some(res.source().hash()),
            None => None,
        }
    }

    /// The transactions of this checkpoint whose outcome is not a success,
    /// with their outcome.
    pub fn failed_txs(&self) -> (r: Vec<(Tx, ExecOutcome)>)
        ensures
            r@ == failures(node_txs(self@.last()), node_results(self@.last())),
    {
        let txs = self.transactions();
        match self.result() {
            None => {
                assert(failures(node_txs(self@.last()), node_results(self@.last())) =~= Seq::empty());
                Vec::new()
            },
            Some(res) => {
                let results = res.results();
                let mut r: Vec<(Tx, ExecOutcome)> = Vec::new();
                let mut i: usize = 0;
                while i < txs.len()
                    invariant
                        i <= txs@.len(),
                        txs@.len() == results@.len(),
                        r@ == failures(txs@.take(i as int), results@.take(i as int)),
                    decreases txs@.len() - i,
                {
                    assert(txs@.take(i + 1).drop_last() =~= txs@.take(i as int));
                    assert(results@.take(i + 1).drop_last() =~= results@.take(i as int));
                    let o = results[i];
                    if !o.is_success() {
                        r.push((txs[i], o));
                    }
                    i = i + 1;
                }
                assert(txs@.take(txs@.len() as int) =~= txs@);
                assert(results@.take(results@.len() as int) =~= results@);
                r
            },
        }
    }

    /// Whether a transaction of this checkpoint did not succeed.
    pub fn has_failures(&self) -> (r: bool)
        ensures
            r == (failures(node_txs(self@.last()), node_results(self@.last())).len() > 0),
    {
        self.failed_txs().len() > 0
    }

    /// Whether this checkpoint applied a bundle.
    pub fn is_bundle(&self) -> (r: bool)
        ensures
            r == (self@.last().mutation matches Some((e, _)) && e.is_bundle),
    {
        match self.result() {
            Some(res) => res.source().is_bundle(),
            None => false,
        }
    }

    /// When the payload building started: the creation time of the initial
    /// checkpoint.
    pub fn building_since(&self) -> (r: u64)
        ensures
            r == self@[0].created_at,
    {
        self.note_valid();
        self.root().created_at()
    }

    pub(crate) fn last_barrier_index(&self) -> (r: usize)
        ensures
            r == last_barrier(self@),
            r < self@.len(),
            self@.len() <= usize::MAX,
    {
        let n = self.history_len();
        let mut i: usize = n - 1;
        proof {
            lemma_last_barrier_range(self@, n - 1);
        }
        while i > 0
            invariant
                i < n,
                n == self@.len(),
                last_barrier(self@) == last_barrier_from(self@, i as int),
            decreases i,
        {
            if self.entry_is_barrier(i) {
                return i;
            }
            i = i - 1;
        }
        0
    }

    /// The staging history: the checkpoints after the last barrier up to
    /// this one. When this checkpoint is a barrier, it is empty.
    pub fn history_staging(&self) -> (r: Span)
        ensures
            r@ == history_view(self@).skip(last_barrier(self@) + 1),
            0 <= last_barrier(self@) < self@.len(),
            same_block(r.spec_block(), self.spec_block()),
    {
        let b = self.last_barrier_index();
        self.history().skip(b + 1)
    }

    /// The checkpoints from the last barrier, included, up to this one: the
    /// staging history with the checkpoint it builds on in front.
    pub(crate) fn from_last_barrier(&self) -> (r: Span)
        ensures
            r@ == history_view(self@).skip(last_barrier(self@)),
            0 <= last_barrier(self@) < self@.len(),
            same_block(r.spec_block(), self.spec_block()),
    {
        let b = self.last_barrier_index();
        self.history().skip(b)
    }

    /// The sealed history: the checkpoints from the initial one up to the
    /// last barrier, included.
    pub fn history_sealed(&self) -> (r: Span)
        ensures
            r@ == history_view(self@).take(last_barrier(self@) + 1),
            same_block(r.spec_block(), self.spec_block()),
    {
        let b = self.last_barrier_index();
        self.history().take(b + 1)
    }

    /// The part of the history that starts at the last checkpoint tagged
    /// `tag`; `None` when no checkpoint of the history has that tag.
    pub fn history_since_last_tag(&self, tag: &str) -> (r: Option<Span>)
        ensures
            match r {
                Some(s) => exists|i: int| #[trigger] tagged_at(self@, i, tag@)
                    && (forall|j: int| i < j < self@.len() ==> !(#[trigger] tagged_at(self@, j, tag@)))
                    && s@ == history_view(self@).skip(i),
                None => forall|i: int| !(#[trigger] tagged_at(self@, i, tag@)),
            },
    {
        let n = self.history_len();
        let mut i: usize = n;
        while i > 0
            invariant
                i <= n,
                n == self@.len(),
                forall|j: int| i <= j < n ==> !(#[trigger] tagged_at(self@, j, tag@)),
            decreases i,
        {
            if self.entry_has_context(i - 1, tag) {
                let s = self.history().skip(i - 1);
                assert(tagged_at(self@, i - 1, tag@));
                return Some(s);
            }
            i = i - 1;
        }
        None
    }

    /// The part of the history that starts at the first checkpoint tagged
    /// `tag`; `None` when no checkpoint of the history has that tag.
    pub fn history_since_first_tag(&self, tag: &str) -> (r: Option<Span>)
        ensures
            match r {
                Some(s) => exists|i: int| #[trigger] tagged_at(self@, i, tag@)
                    && (forall|j: int| 0 <= j < i ==> !(#[trigger] tagged_at(self@, j, tag@)))
                    && s@ == history_view(self@).skip(i),
                None => forall|i: int| !(#[trigger] tagged_at(self@, i, tag@)),
            },
    {
        let n = self.history_len();
        let mut i: usize = 0;
        while i < n
            invariant
                i <= n,
                n == self@.len(),
                forall|j: int| 0 <= j < i ==> !(#[trigger] tagged_at(self@, j, tag@)),
            decreases n - i,
        {
            if self.entry_has_context(i, tag) {
                let s = self.history().skip(i);
                assert(tagged_at(self@, i as int, tag@));
                return Some(s);
            }
            i = i + 1;
        }
        None
    }

    /// All transactions of this checkpoint's history, in the order they were
    /// applied.
    pub fn all_transactions(&self) -> (r: Vec<Tx>)
        ensures
            r@ == span_txs(history_view(self@)),
    {
        self.history().transactions()
    }
}

proof fn lemma_tips_mono(s: Seq<Tx>, base_fee: u64, k: int)
    requires
        0 <= k <= s.len(),
    ensures
        0 <= tips_sum(s.take(k), base_fee) <= tips_sum(s, base_fee),
    decreases s.len(),
{
    lemma_tips_nonneg(s.take(k), base_fee);
    if k < s.len() {
        assert(s.drop_last().take(k) =~= s.take(k));
        lemma_tips_mono(s.drop_last(), base_fee, k);
    } else {
        assert(s.take(k) =~= s);
    }
}

proof fn lemma_tips_nonneg(s: Seq<Tx>, base_fee: u64)
    ensures
        tips_sum(s, base_fee) >= 0,
    decreases s.len(),
{
    if s.len() > 0 {
        lemma_tips_nonneg(s.drop_last(), base_fee);
    }
}

} // verus!
