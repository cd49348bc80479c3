//! Spans: runs of consecutive checkpoints of one linear history.
//!
//! While a checkpoint only reaches back through its history, a span can be
//! walked both ways and treated as one aggregate of state transitions.

use crate::payload::block::same_block;
use crate::payload::checkpoint::{history_prefix, node_results, node_txs, visible_state, Checkpoint, NodeView};
use crate::payload::state::{find_write, last_write};
use crate::payload::exec::{total_gas, Tx};
use vstd::prelude::*;

verus! {

/// Why a span could not be built.
#[derive(Debug, Clone, Copy, PartialEq, Eq, Structural)]
pub enum SpanError {
    /// Neither checkpoint is a descendant of the other.
    NonlinearHistory,
}

/// The checkpoints from `anc` to `desc` (both included), as histories, where
/// `anc` is a prefix of `desc`.
pub open spec fn span_of(anc: Seq<NodeView>, desc: Seq<NodeView>) -> Seq<Seq<NodeView>> {
    Seq::new((desc.len() - anc.len() + 1) as nat, |i: int| desc.take(anc.len() + i))
}

/// Whether one of the two histories is a prefix of the other.
pub open spec fn linear(a: Seq<NodeView>, b: Seq<NodeView>) -> bool {
    history_prefix(a, b) || history_prefix(b, a)
}

/// The span between two checkpoints of one linear history, whichever comes
/// first.
pub open spec fn between_view(a: Seq<NodeView>, b: Seq<NodeView>) -> Seq<Seq<NodeView>> {
    if history_prefix(a, b) {
        span_of(a, b)
    } else {
        span_of(b, a)
    }
}

/// The order of the two checkpoints does not matter: the span between `a`
/// and `b` is the span between `b` and `a`.
pub proof fn lemma_between_symmetric(a: Seq<NodeView>, b: Seq<NodeView>)
    requires
        linear(a, b),
    ensures
        between_view(a, b) == between_view(b, a),
{
    if history_prefix(a, b) && history_prefix(b, a) {
        assert(a =~= b);
    }
}

/// The total gas used by the checkpoints of a span.
pub open spec fn span_gas(s: Seq<Seq<NodeView>>) -> int
    decreases s.len(),
{
    if s.len() == 0 {
        0
    } else {
        span_gas(s.drop_last()) + total_gas(node_results(s.last().last()))
    }
}

/// All transactions of a span, in the order they were applied.
pub open spec fn span_txs(s: Seq<Seq<NodeView>>) -> Seq<Tx>
    decreases s.len(),
{
    if s.len() == 0 {
        Seq::empty()
    } else {
        span_txs(s.drop_last()) + node_txs(s.last().last())
    }
}

/// The blob gas of a transaction; zero for transactions without blobs.
pub open spec fn tx_blob_gas(t: Tx) -> int {
    match t.blob_gas_used {
        Some(g) => g as int,
        None => 0,
    }
}

/// The total blob gas of a list of transactions.
pub open spec fn blob_gas_sum(txs: Seq<Tx>) -> int
    decreases txs.len(),
{
    if txs.len() == 0 {
        0
    } else {
        blob_gas_sum(txs.drop_last()) + tx_blob_gas(txs.last())
    }
}

/// Whether a transaction carries blobs.
pub open spec fn is_blob(t: Tx) -> bool {
    t.blob_gas_used is Some
}

/// The value last written to `key` by the checkpoints `0..n` of a span, each
/// showing the state changes it exposes (see `visible_state`); state from
/// outside the span is not seen.
pub open spec fn span_lookup(s: Seq<Seq<NodeView>>, n: int, key: u64) -> Option<u64>
    decreases n,
{
    if n <= 0 {
        None
    } else {
        match visible_state(s[n - 1].last()) {
            Some(w) => match last_write(w, key) {
                Some(v) => Some(v),
                None => span_lookup(s, n - 1, key),
            },
            None => span_lookup(s, n - 1, key),
        }
    }
}

/// A run of consecutive checkpoints of one linear history, from the oldest
/// to the newest. It may be empty.
#[derive(Debug)]
pub struct Span {
    top: Checkpoint,
    start: usize,
    end: usize,
}

impl View for Span {
    type V = Seq<Seq<NodeView>>;

    closed spec fn view(&self) -> Seq<Seq<NodeView>> {
        Seq::new((self.end - self.start) as nat, |i: int| self.top@.take(self.start + i + 1))
    }
}

impl Span {
    #[verifier::type_invariant]
    spec fn inv(&self) -> bool {
        self.start <= self.end <= self.top@.len()
    }

    /// Every checkpoint of the span extends the one before it by one entry;
    /// this brings that fact into the proof context and does nothing at run
    /// time.
    pub fn note_linear(&self)
        ensures
            forall|i: int| 0 < i < self@.len() ==> (#[trigger] self@[i]).drop_last() == self@[i - 1],
            forall|i: int| 0 <= i < self@.len() ==> (#[trigger] self@[i]).len() >= 1,
    {
        proof {
            use_type_invariant(self);
        }
        assert forall|i: int| 0 < i < self@.len() implies (#[trigger] self@[i]).drop_last() == self@[i - 1] by {
            assert(self@[i].drop_last() =~= self@[i - 1]);
        }
    }

    /// The block that the checkpoints of the span build on.
    pub closed spec fn spec_block(&self) -> crate::payload::block::BlockContext {
        self.top.spec_block()
    }

    /// The span of the whole history of `top`.
    pub(crate) fn whole(top: Checkpoint) -> (r: Span)
        ensures
            r@ == span_of(top@.take(1), top@),
            same_block(r.spec_block(), top.spec_block()),
    {
        top.note_valid();
        let end = top.history_len();
        let r = Span { top, start: 0, end };
        assert(r@ =~= span_of(r.top@.take(1), r.top@));
        r
    }

    /// The span between two checkpoints of one linear history, from the older
    /// to the newer, both included; the order of the arguments does not
    /// matter. `NonlinearHistory` when neither is an ancestor of the other.
    pub fn between(start: &Checkpoint, end: &Checkpoint) -> (r: Result<Span, SpanError>)
        ensures
            match r {
                Ok(s) => linear(start@, end@) && same_block(start.spec_block(), end.spec_block())
                    && s@ == between_view(start@, end@) && same_block(s.spec_block(), end.spec_block()),
                Err(e) => e == SpanError::NonlinearHistory && !(linear(start@, end@)
                    && same_block(start.spec_block(), end.spec_block())),
            },
    {
        start.note_valid();
        end.note_valid();
        if start.is_ancestor_of(end) {
            let top = end.truncated(end.history_len());
            assert(end@.take(end@.len() as int) =~= end@);
            let s = Span { top, start: start.depth(), end: end.history_len() };
            assert(s@ =~= span_of(start@, end@));
            Ok(s)
        } else if end.is_ancestor_of(start) {
            let top = start.truncated(start.history_len());
            assert(start@.take(start@.len() as int) =~= start@);
            let s = Span { top, start: end.depth(), end: start.history_len() };
            assert(s@ =~= span_of(end@, start@));
            proof {
                if history_prefix(start@, end@) {
                    assert(start@ =~= end@);
                }
            }
            Ok(s)
        } else {
            Err(SpanError::NonlinearHistory)
        }
    }

    /// The number of checkpoints in the span.
    pub fn len(&self) -> (r: usize)
        ensures
            r == self@.len(),
    {
        proof {
            use_type_invariant(self);
        }
        self.end - self.start
    }

    /// Whether the span has no checkpoint.
    pub fn is_empty(&self) -> (r: bool)
        ensures
            r == (self@.len() == 0),
    {
        proof {
            use_type_invariant(self);
        }
        self.end == self.start
    }

    /// The checkpoint at `index`, counted from the oldest; `None` past the
    /// end.
    pub fn at(&self, index: usize) -> (r: Option<Checkpoint>)
        ensures
            match r {
                Some(c) => index < self@.len() && c@ == self@[index as int] && same_block(c.spec_block(), self.spec_block()),
                None => index >= self@.len(),
            },
    {
        proof {
            use_type_invariant(self);
        }
        if index >= self.end - self.start {
            return None;
        }
        Some(self.top.truncated(self.start + index + 1))
    }

    /// The oldest checkpoint of the span.
    pub fn first(&self) -> (r: Option<Checkpoint>)
        ensures
            match r {
                Some(c) => self@.len() > 0 && c@ == self@[0] && same_block(c.spec_block(), self.spec_block()),
                None => self@.len() == 0,
            },
    {
        self.at(0)
    }

    /// The newest checkpoint of the span.
    pub fn last(&self) -> (r: Option<Checkpoint>)
        ensures
            match r {
                Some(c) => self@.len() > 0 && c@ == self@.last() && same_block(c.spec_block(), self.spec_block()),
                None => self@.len() == 0,
            },
    {
        let n = self.len();
        if n == 0 {
            return None;
        }
        self.at(n - 1)
    }

    /// Removes the oldest checkpoint from the span and returns it.
    pub fn pop_first(&mut self) -> (r: Option<Checkpoint>)
        ensures
            match r {
                Some(c) => old(self)@.len() > 0 && c@ == old(self)@[0] && final(self)@ == old(self)@.drop_first(),
                None => old(self)@.len() == 0 && final(self)@ == old(self)@,
            },
            same_block(final(self).spec_block(), old(self).spec_block()),
    {
        proof {
            use_type_invariant(&*self);
        }
        let r = self.first();
        if r.is_some() {
            self.start = self.start + 1;
            assert(self@ =~= old(self)@.drop_first());
        }
        r
    }

    /// Removes the newest checkpoint from the span and returns it.
    pub fn pop_last(&mut self) -> (r: Option<Checkpoint>)
        ensures
            match r {
                Some(c) => old(self)@.len() > 0 && c@ == old(self)@.last() && final(self)@ == old(self)@.drop_last(),
                None => old(self)@.len() == 0 && final(self)@ == old(self)@,
            },
            same_block(final(self).spec_block(), old(self).spec_block()),
    {
        proof {
            use_type_invariant(&*self);
        }
        let r = self.last();
        if r.is_some() {
            self.end = self.end - 1;
            assert(self@ =~= old(self)@.drop_last());
        }
        r
    }

    /// The checkpoints of the span, from the oldest to the newest.
    pub fn checkpoints(&self) -> (r: Vec<Checkpoint>)
        ensures
            r@.len() == self@.len(),
            forall|i: int| 0 <= i < r@.len() ==> (#[trigger] r@[i])@ == self@[i],
    {
        let n = self.len();
        let mut r: Vec<Checkpoint> = Vec::new();
        let mut i: usize = 0;
        while i < n
            invariant
                n == self@.len(),
                i <= n,
                r@.len() == i,
                forall|j: int| 0 <= j < i ==> (#[trigger] r@[j])@ == self@[j],
            decreases n - i,
        {
            let c = self.at(i);
            match c {
                Some(c) => r.push(c),
                None => {},
            }
            i = i + 1;
        }
        r
    }

    /// Splits the span at `mid`: the first part holds the checkpoints before
    /// `mid`, the second the rest. Past the end, the whole span is the first
    /// part and the second is empty.
    pub fn split_at(&self, mid: usize) -> (r: (Span, Span))
        ensures
            r.0@ == self@.take(if mid <= self@.len() { mid as int } else { self@.len() as int }),
            r.1@ == self@.skip(if mid <= self@.len() { mid as int } else { self@.len() as int }),
            same_block(r.0.spec_block(), self.spec_block()),
            same_block(r.1.spec_block(), self.spec_block()),
    {
        proof {
            use_type_invariant(self);
        }
        let n = self.end - self.start;
        let m = if mid <= n { mid } else { n };
        let top = &self.top;
        let k = top.history_len();
        let left = Span { top: top.truncated(k), start: self.start, end: self.start + m };
        let right = Span { top: top.truncated(k), start: self.start + m, end: self.end };
        assert(top@.take(k as int) =~= top@);
        assert(left@ =~= self@.take(m as int));
        assert(right@ =~= self@.skip(m as int));
        (left, right)
    }

    /// The span without its first `n` checkpoints.
    pub fn skip(&self, n: usize) -> (r: Span)
        ensures
            r@ == self@.skip(if n <= self@.len() { n as int } else { self@.len() as int }),
            same_block(r.spec_block(), self.spec_block()),
    {
        let (_, right) = self.split_at(n);
        right
    }

    /// The first `n` checkpoints of the span.
    pub fn take(&self, n: usize) -> (r: Span)
        ensures
            r@ == self@.take(if n <= self@.len() { n as int } else { self@.len() as int }),
            same_block(r.spec_block(), self.spec_block()),
    {
        let (left, _) = self.split_at(n);
        left
    }

    /// All transactions of the span, in the order they were applied.
    pub fn transactions(&self) -> (r: Vec<Tx>)
        ensures
            r@ == span_txs(self@),
    {
        let n = self.len();
        let mut r: Vec<Tx> = Vec::new();
        let mut i: usize = 0;
        while i < n
            invariant
                n == self@.len(),
                i <= n,
                r@ == span_txs(self@.take(i as int)),
            decreases n - i,
        {
            let c = self.at(i).unwrap();
            let txs = c.transactions();
            let ghost before = r@;
            let mut j: usize = 0;
            while j < txs.len()
                invariant
                    j <= txs@.len(),
                    r@ == before + txs@.take(j as int),
                decreases txs@.len() - j,
            {
                r.push(txs[j]);
                assert(before + txs@.take(j + 1) =~= before + txs@.take(j as int) + seq![txs@[j as int]]);
                j = j + 1;
            }
            assert(txs@.take(txs@.len() as int) =~= txs@);
            assert(self@.take(i + 1).drop_last() =~= self@.take(i as int));
            i = i + 1;
        }
        assert(self@.take(n as int) =~= self@);
        r
    }

    /// The blob transactions of the span, in the order they were applied.
    pub fn blobs(&self) -> (r: Vec<Tx>)
        ensures
            r@ == span_txs(self@).filter(|t: Tx| is_blob(t)),
    {
        let txs = self.transactions();
        let mut r: Vec<Tx> = Vec::new();
        let mut i: usize = 0;
        let ghost pred = |t: Tx| is_blob(t);
        while i < txs.len()
            invariant
                i <= txs@.len(),
                pred == (|t: Tx| is_blob(t)),
                r@ == txs@.take(i as int).filter(pred),
            decreases txs@.len() - i,
        {
            let t = txs[i];
            proof {
                assert(txs@.take(i + 1) =~= txs@.take(i as int).push(t));
                txs@.take(i as int).lemma_filter_push(t, pred);
            }
            if t.blob_gas_used.is_some() {
                r.push(t);
            }
            i = i + 1;
        }
        assert(txs@.take(txs@.len() as int) =~= txs@);
        r
    }

    /// Whether a checkpoint of the span applied a transaction with this hash.
    pub fn contains(&self, tx_hash: u64) -> (r: bool)
        ensures
            r == exists|i: int| 0 <= i < span_txs(self@).len() && (#[trigger] span_txs(self@)[i]).hash == tx_hash,
    {
        let txs = self.transactions();
        let mut i: usize = 0;
        while i < txs.len()
            invariant
                i <= txs@.len(),
                txs@ == span_txs(self@),
                forall|j: int| 0 <= j < i ==> (#[trigger] txs@[j]).hash != tx_hash,
            decreases txs@.len() - i,
        {
            if txs[i].hash == tx_hash {
                return true;
            }
            i = i + 1;
        }
        false
    }

    /// The value last written to `key` within the span, searching from the
    /// newest checkpoint; `None` when no checkpoint of the span wrote it.
    pub fn lookup(&self, key: u64) -> (r: Option<u64>)
        ensures
            r == span_lookup(self@, self@.len() as int, key),
    {
        let n = self.len();
        let mut i: usize = n;
        while i > 0
            invariant
                n == self@.len(),
                i <= n,
                span_lookup(self@, n as int, key) == span_lookup(self@, i as int, key),
            decreases i,
        {
            let c = self.at(i - 1).unwrap();
            match c.state() {
                Some(w) => {
                    if let Some(v) = find_write(&w, key) {
                        return Some(v);
                    }
                },
                None => {},
            }
            i = i - 1;
        }
        None
    }

    /// The hash of block `number`, which a span knows only for the parent of
    /// the block under construction; `None` for any other block or an empty
    /// span.
    pub fn block_hash(&self, number: u64) -> (r: Option<u64>)
        ensures
            r == if self@.len() > 0 && number == self.spec_block().parent_number {
                Some(self.spec_block().parent_hash)
            } else {
                None::<u64>
            },
    {
        match self.first() {
            Some(c) => {
                let b = c.block();
                if b.parent_number == number {
                    Some(b.parent_hash)
                } else {
                    None
                }
            },
            None => None,
        }
    }

    /// The total gas used by the checkpoints of the span.
    pub fn gas_used(&self) -> (r: u128)
        requires
            span_gas(self@) <= u128::MAX,
        ensures
            r == span_gas(self@),
    {
        let n = self.len();
        let mut total: u128 = 0;
        let mut i: usize = 0;
        while i < n
            invariant
                n == self@.len(),
                i <= n,
                total == span_gas(self@.take(i as int)),
                span_gas(self@) <= u128::MAX,
            decreases n - i,
        {
            let c = self.at(i).unwrap();
            proof {
                lemma_span_gas_mono(self@, i + 1);
                assert(self@.take(i + 1).drop_last() =~= self@.take(i as int));
            }
            let g = match c.result() {
                Some(res) => res.gas_used(),
                None => 0,
            };
            assert(g == total_gas(node_results(c@.last())));
            total = total + g;
            i = i + 1;
        }
        assert(self@.take(n as int) =~= self@);
        total
    }

    /// The total gas used by the checkpoints of the span, or `None` when it
    /// does not fit in 128 bits.
    pub fn checked_gas_used(&self) -> (r: Option<u128>)
        ensures
            r == if span_gas(self@) <= u128::MAX { Some(span_gas(self@) as u128) } else { None::<u128> },
    {
        let n = self.len();
        let mut total: u128 = 0;
        let mut i: usize = 0;
        while i < n
            invariant
                n == self@.len(),
                i <= n,
                total == span_gas(self@.take(i as int)),
            decreases n - i,
        {
            let c = self.at(i).unwrap();
            proof {
                assert(self@.take(i + 1).drop_last() =~= self@.take(i as int));
            }
            let g = match c.result() {
                Some(res) => res.gas_used(),
                None => 0,
            };
            assert(g == total_gas(node_results(c@.last())));
            match total.checked_add(g) {
                Some(t) => total = t,
                None => {
                    proof {
                        lemma_span_gas_mono(self@, i + 1);
                    }
                    return None;
                },
            }
            i = i + 1;
        }
        assert(self@.take(n as int) =~= self@);
        Some(total)
    }

    /// The total blob gas used by the blob transactions of the span, or
    /// `None` when it does not fit in 128 bits.
    pub fn checked_blob_gas_used(&self) -> (r: Option<u128>)
        ensures
            r == if blob_gas_sum(span_txs(self@)) <= u128::MAX {
                Some(blob_gas_sum(span_txs(self@)) as u128)
            } else {
                None::<u128>
            },
    {
        let txs = self.transactions();
        let mut total: u128 = 0;
        let mut i: usize = 0;
        while i < txs.len()
            invariant
                i <= txs@.len(),
                txs@ == span_txs(self@),
                total == blob_gas_sum(txs@.take(i as int)),
            decreases txs@.len() - i,
        {
            proof {
                assert(txs@.take(i + 1).drop_last() =~= txs@.take(i as int));
            }
            let g: u64 = match txs[i].blob_gas_used {
                Some(g) => g,
                None => 0,
            };
            match total.checked_add(g as u128) {
                Some(t) => total = t,
                None => {
                    proof {
                        lemma_blob_gas_mono(txs@, i + 1);
                    }
                    return None;
                },
            }
            i = i + 1;
        }
        assert(txs@.take(txs@.len() as int) =~= txs@);
        Some(total)
    }

    /// The total blob gas used by the blob transactions of the span.
    pub fn blob_gas_used(&self) -> (r: u128)
        requires
            blob_gas_sum(span_txs(self@)) <= u128::MAX,
        ensures
            r == blob_gas_sum(span_txs(self@)),
    {
        let txs = self.transactions();
        let mut total: u128 = 0;
        let mut i: usize = 0;
        while i < txs.len()
            invariant
                i <= txs@.len(),
                txs@ == span_txs(self@),
                total == blob_gas_sum(txs@.take(i as int)),
                blob_gas_sum(txs@) <= u128::MAX,
            decreases txs@.len() - i,
        {
            proof {
                lemma_blob_gas_mono(txs@, i + 1);
                assert(txs@.take(i + 1).drop_last() =~= txs@.take(i as int));
            }
            let g: u64 = match txs[i].blob_gas_used {
                Some(g) => g,
                None => 0,
            };
            total = total + g as u128;
            i = i + 1;
        }
        assert(txs@.take(txs@.len() as int) =~= txs@);
        total
    }
}

/// Gas sums only grow along a span.
pub proof fn lemma_span_gas_mono(s: Seq<Seq<NodeView>>, k: int)
    requires
        0 <= k <= s.len(),
    ensures
        0 <= span_gas(s.take(k)) <= span_gas(s),
    decreases s.len(),
{
    lemma_span_gas_nonneg(s.take(k));
    if k < s.len() {
        assert(s.drop_last().take(k) =~= s.take(k));
        lemma_span_gas_mono(s.drop_last(), k);
        lemma_total_gas_nonneg(node_results(s.last().last()));
    } else {
        assert(s.take(k) =~= s);
    }
}

proof fn lemma_span_gas_nonneg(s: Seq<Seq<NodeView>>)
    ensures
        span_gas(s) >= 0,
    decreases s.len(),
{
    if s.len() > 0 {
        lemma_span_gas_nonneg(s.drop_last());
        lemma_total_gas_nonneg(node_results(s.last().last()));
    }
}

proof fn lemma_total_gas_nonneg(s: Seq<crate::payload::exec::ExecOutcome>)
    ensures
        total_gas(s) >= 0,
    decreases s.len(),
{
    if s.len() > 0 {
        lemma_total_gas_nonneg(s.drop_last());
    }
}

/// Blob gas sums only grow along a list of transactions.
pub proof fn lemma_blob_gas_mono(s: Seq<Tx>, k: int)
    requires
        0 <= k <= s.len(),
    ensures
        0 <= blob_gas_sum(s.take(k)) <= blob_gas_sum(s),
    decreases s.len(),
{
    lemma_blob_gas_nonneg(s.take(k));
    if k < s.len() {
        assert(s.drop_last().take(k) =~= s.take(k));
        lemma_blob_gas_mono(s.drop_last(), k);
    } else {
        assert(s.take(k) =~= s);
    }
}

proof fn lemma_blob_gas_nonneg(s: Seq<Tx>)
    ensures
        blob_gas_sum(s) >= 0,
    decreases s.len(),
{
    if s.len() > 0 {
        lemma_blob_gas_nonneg(s.drop_last());
    }
}

} // verus!
