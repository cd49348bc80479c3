//! Ordering transactions by priority fee while keeping each signer's nonce
//! order.

use crate::executor::ControlFlow;
use crate::payload::checkpoint::Checkpoint;
use crate::payload::exec::{effective_tip, Tx};
use crate::payload::ext::{history_view, last_barrier};
use crate::payload::span::{span_txs, Span};
use vstd::prelude::*;

verus! {

/// `s` with `t` inserted after every transaction whose nonce is not greater
/// than `t`'s: the insertion step of a stable sort by nonce.
pub open spec fn insert_by_nonce(s: Seq<Tx>, t: Tx) -> Seq<Tx>
    decreases s.len(),
{
    if s.len() == 0 {
        seq![t]
    } else if s.last().nonce <= t.nonce {
        s.push(t)
    } else {
        insert_by_nonce(s.drop_last(), t).push(s.last())
    }
}

/// `s` stably sorted by nonce: transactions with equal nonces keep their
/// order.
pub open spec fn sort_by_nonce(s: Seq<Tx>) -> Seq<Tx>
    decreases s.len(),
{
    if s.len() == 0 {
        Seq::empty()
    } else {
        insert_by_nonce(sort_by_nonce(s.drop_last()), s.last())
    }
}

/// The transactions of `s` signed by `signer`, in order.
pub open spec fn signed_by(s: Seq<Tx>, signer: u64) -> Seq<Tx> {
    s.filter(|t: Tx| t.signer == signer)
}

/// The queued transactions of `signer` in queue `q`, in the order they will
/// be handed out; empty when the signer has none.
pub open spec fn group_of(q: Seq<(u64, Seq<Tx>)>, signer: u64) -> Seq<Tx>
    decreases q.len(),
{
    if q.len() == 0 {
        Seq::empty()
    } else if q.last().0 == signer {
        q.last().1
    } else {
        group_of(q.drop_last(), signer)
    }
}

/// The number of queued transactions.
pub open spec fn queue_size(q: Seq<(u64, Seq<Tx>)>) -> nat
    decreases q.len(),
{
    if q.len() == 0 {
        0
    } else {
        queue_size(q.drop_last()) + q.last().1.len()
    }
}

/// Whether tip `a` ranks at least as high as tip `b`; a transaction that
/// cannot pay the base fee ranks lowest.
pub open spec fn tip_at_least(a: Option<u128>, b: Option<u128>) -> bool {
    match (a, b) {
        (_, None) => true,
        (None, Some(_)) => false,
        (Some(x), Some(y)) => x >= y,
    }
}

/// The index of the group whose first transaction pays the highest tip
/// among the first `n` groups; among equal tips, the last such group.
pub open spec fn best_among(q: Seq<(u64, Seq<Tx>)>, n: int, base_fee: u64) -> int
    decreases n,
{
    if n <= 1 {
        0
    } else {
        let b = best_among(q, n - 1, base_fee);
        if tip_at_least(effective_tip(q[n - 1].1[0], base_fee), effective_tip(q[b].1[0], base_fee)) {
            n - 1
        } else {
            b
        }
    }
}

/// The queue with the first transaction of group `i` removed, and the group
/// removed when it becomes empty.
pub open spec fn pop_group(q: Seq<(u64, Seq<Tx>)>, i: int) -> Seq<(u64, Seq<Tx>)> {
    if q[i].1.len() <= 1 {
        q.remove(i)
    } else {
        q.update(i, (q[i].0, q[i].1.drop_first()))
    }
}

/// A well-formed queue: signers in strictly increasing order, no empty
/// group.
pub open spec fn queue_wf(q: Seq<(u64, Seq<Tx>)>) -> bool {
    &&& forall|i: int, j: int| 0 <= i < j < q.len() ==> q[i].0 < q[j].0
    &&& forall|i: int| 0 <= i < q.len() ==> (#[trigger] q[i]).1.len() > 0
    &&& forall|i: int, k: int| 0 <= i < q.len() && 0 <= k < q[i].1.len() ==> (#[trigger] q[i].1[k]).signer == q[i].0
}

/// The order in which the queue hands out its transactions when the best
/// one is taken each time.
pub open spec fn drain_order(q: Seq<(u64, Seq<Tx>)>, base_fee: u64) -> Seq<Tx>
    decreases queue_size(q),
{
    if q.len() == 0 || !queue_wf(q) {
        Seq::empty()
    } else {
        let b = best_among(q, q.len() as int, base_fee);
        proof {
            lemma_best_range(q, q.len() as int, base_fee);
            lemma_pop_size(q, b);
        }
        seq![q[b].1[0]] + drain_order(pop_group(q, b), base_fee)
    }
}

/// The best group among the first `n` groups is one of them.
pub proof fn lemma_best_range(q: Seq<(u64, Seq<Tx>)>, n: int, base_fee: u64)
    requires
        1 <= n,
    ensures
        0 <= best_among(q, n, base_fee) < n,
    decreases n,
{
    if n > 1 {
        lemma_best_range(q, n - 1, base_fee);
    }
}

/// The size of a queue splits around any of its groups.
pub proof fn lemma_size_split(q: Seq<(u64, Seq<Tx>)>, i: int)
    requires
        0 <= i < q.len(),
    ensures
        queue_size(q) == queue_size(q.take(i)) + q[i].1.len() + queue_size(q.skip(i + 1)),
    decreases q.len(),
{
    if i == q.len() - 1 {
        assert(q.take(i) =~= q.drop_last());
        assert(q.skip(i + 1) =~= Seq::<(u64, Seq<Tx>)>::empty());
    } else {
        lemma_size_split(q.drop_last(), i);
        assert(q.drop_last().take(i) =~= q.take(i));
        assert(q.skip(i + 1).drop_last() =~= q.drop_last().skip(i + 1));
        assert(q.skip(i + 1).last() == q.last());
    }
}

/// Taking one transaction out of a non-empty group shrinks the queue by one.
pub proof fn lemma_pop_size(q: Seq<(u64, Seq<Tx>)>, i: int)
    requires
        0 <= i < q.len(),
        q[i].1.len() > 0,
    ensures
        queue_size(pop_group(q, i)) + 1 == queue_size(q),
{
    let p = pop_group(q, i);
    lemma_size_split(q, i);
    if q[i].1.len() <= 1 {
        if i < p.len() {
            lemma_size_split(p, i);
            assert(p.take(i) =~= q.take(i));
            assert(p.skip(i) =~= q.skip(i + 1));
            assert(p.skip(i + 1) =~= q.skip(i + 2));
            assert(q.skip(i + 1).drop_first() =~= q.skip(i + 2));
            lemma_size_first(q.skip(i + 1));
        } else {
            assert(p =~= q.take(i));
            assert(q.skip(i + 1) =~= Seq::<(u64, Seq<Tx>)>::empty());
        }
    } else {
        lemma_size_split(p, i);
        assert(p.take(i) =~= q.take(i));
        assert(p.skip(i + 1) =~= q.skip(i + 1));
    }
}

/// The size of a queue is the size of its first group plus that of the rest.
pub proof fn lemma_size_first(q: Seq<(u64, Seq<Tx>)>)
    requires
        q.len() > 0,
    ensures
        queue_size(q) == q[0].1.len() + queue_size(q.drop_first()),
{
    lemma_size_split(q, 0);
    assert(q.take(0) =~= Seq::<(u64, Seq<Tx>)>::empty());
    assert(q.skip(1) =~= q.drop_first());
}

/// The group of a signer in a well-formed queue sits at its index.
proof fn lemma_group_at(q: Seq<(u64, Seq<Tx>)>, i: int)
    requires
        queue_wf(q),
        0 <= i < q.len(),
    ensures
        group_of(q, q[i].0) == q[i].1,
        forall|s: u64| s != q[i].0 ==> group_of(q.remove(i), s) == group_of(q, s),
    decreases q.len(),
{
    if i < q.len() - 1 {
        assert(queue_wf(q.drop_last()));
        lemma_group_at(q.drop_last(), i);
        assert forall|s: u64| s != q[i].0 implies group_of(q.remove(i), s) == group_of(q, s) by {
            let r = q.remove(i);
            assert(r.drop_last() =~= q.drop_last().remove(i));
            assert(r.last() == q.last());
            assert(q.drop_last()[i].0 == q[i].0);
            assert(group_of(q.drop_last().remove(i), s) == group_of(q.drop_last(), s));
            assert(group_of(r.drop_last(), s) == group_of(q.drop_last(), s));
        }
    } else {
        assert forall|s: u64| s != q[i].0 implies group_of(q.remove(i), s) == group_of(q, s) by {
            assert(q.remove(i) =~= q.drop_last());
        }
    }
}

proof fn lemma_group_absent(q: Seq<(u64, Seq<Tx>)>, s: u64)
    requires
        forall|i: int| 0 <= i < q.len() ==> (#[trigger] q[i]).0 != s,
    ensures
        group_of(q, s) == Seq::<Tx>::empty(),
    decreases q.len(),
{
    if q.len() > 0 {
        lemma_group_absent(q.drop_last(), s);
    }
}

/// Taking the first transaction of a group leaves the other signers' groups
/// as they were, and that signer's group without its first transaction.
proof fn lemma_pop_groups(q: Seq<(u64, Seq<Tx>)>, i: int)
    requires
        queue_wf(q),
        0 <= i < q.len(),
    ensures
        queue_wf(pop_group(q, i)),
        group_of(pop_group(q, i), q[i].0) == q[i].1.drop_first(),
        forall|s: u64| s != q[i].0 ==> group_of(pop_group(q, i), s) == group_of(q, s),
{
    let p = pop_group(q, i);
    lemma_group_at(q, i);
    if q[i].1.len() <= 1 {
        assert forall|a: int, b: int| 0 <= a < b < p.len() implies p[a].0 < p[b].0 by {
            let a2 = if a < i { a } else { a + 1 };
            let b2 = if b < i { b } else { b + 1 };
            assert(p[a] == q[a2] && p[b] == q[b2]);
        }
        assert forall|a: int, k: int| 0 <= a < p.len() && 0 <= k < p[a].1.len() implies (#[trigger] p[a].1[k]).signer == p[a].0 by {
            let a2 = if a < i { a } else { a + 1 };
            assert(p[a] == q[a2]);
        }
        assert(queue_wf(p));
        assert forall|j: int| 0 <= j < p.len() implies (#[trigger] p[j]).0 != q[i].0 by {
            let j2 = if j < i { j } else { j + 1 };
            assert(p[j] == q[j2]);
        }
        lemma_group_absent(p, q[i].0);
        assert(q[i].1.drop_first() =~= Seq::<Tx>::empty());
    } else {
        assert forall|a: int, k: int| 0 <= a < p.len() && 0 <= k < p[a].1.len() implies (#[trigger] p[a].1[k]).signer == p[a].0 by {
            if a == i {
                assert(p[a].1[k] == q[i].1[k + 1]);
            }
        }
        assert(queue_wf(p));
        lemma_group_update(q, i, q[i].1.drop_first());
    }
}

proof fn lemma_group_update(q: Seq<(u64, Seq<Tx>)>, i: int, g: Seq<Tx>)
    requires
        queue_wf(q),
        0 <= i < q.len(),
    ensures
        group_of(q.update(i, (q[i].0, g)), q[i].0) == g,
        forall|s: u64| s != q[i].0 ==> group_of(q.update(i, (q[i].0, g)), s) == group_of(q, s),
    decreases q.len(),
{
    let u = q.update(i, (q[i].0, g));
    if i < q.len() - 1 {
        let d = q.drop_last();
        assert(queue_wf(d));
        assert(u.drop_last() =~= d.update(i, (d[i].0, g)));
        lemma_group_update(d, i, g);
        assert(u.last() == q.last());
        assert(q.last().0 != q[i].0);
        assert forall|s: u64| s != q[i].0 implies group_of(u, s) == group_of(q, s) by {
            assert(group_of(d.update(i, (d[i].0, g)), s) == group_of(d, s));
        }
    } else {
        assert(u.drop_last() =~= q.drop_last());
        assert forall|s: u64| s != q[i].0 implies group_of(u, s) == group_of(q, s) by {}
    }
}

/// The tip paid by the next transaction of group `j` of `q`.
pub open spec fn head_tip(q: Seq<(u64, Seq<Tx>)>, j: int, base_fee: u64) -> Option<u128> {
    effective_tip(q[j].1[0], base_fee)
}

proof fn lemma_best_among_is_max(q: Seq<(u64, Seq<Tx>)>, n: int, base_fee: u64)
    requires
        1 <= n <= q.len(),
    ensures
        ({
            let b = best_among(q, n, base_fee);
            &&& 0 <= b < n
            &&& forall|j: int| 0 <= j < n && (#[trigger] head_tip(q, j, base_fee)) is Some ==> head_tip(q, b, base_fee) is Some
                && head_tip(q, b, base_fee)->0 >= head_tip(q, j, base_fee)->0
            &&& forall|j: int| b < j < n ==> head_tip(q, b, base_fee) is Some && ((#[trigger] head_tip(q, j, base_fee)) is None
                || head_tip(q, j, base_fee)->0 < head_tip(q, b, base_fee)->0)
        }),
    decreases n,
{
    if n > 1 {
        lemma_best_among_is_max(q, n - 1, base_fee);
    }
}

/// The queue hands out first the eligible transaction that pays the
/// highest tip: no signer's next transaction pays more, a transaction that
/// cannot pay the base fee goes only after those that can, and among equal
/// tips the greatest signer's goes first.
pub proof fn lemma_drain_takes_best_first(q: Seq<(u64, Seq<Tx>)>, base_fee: u64)
    requires
        queue_wf(q),
        q.len() > 0,
    ensures
        exists|b: int| {
            &&& 0 <= b < q.len()
            &&& drain_order(q, base_fee)[0] == #[trigger] q[b].1[0]
            &&& forall|j: int| 0 <= j < q.len() && (#[trigger] head_tip(q, j, base_fee)) is Some ==> head_tip(q, b, base_fee) is Some
                && head_tip(q, b, base_fee)->0 >= head_tip(q, j, base_fee)->0
            &&& forall|j: int| 0 <= j < q.len() && q[b].0 < q[j].0 ==> head_tip(q, b, base_fee) is Some
                && ((#[trigger] head_tip(q, j, base_fee)) is None || head_tip(q, j, base_fee)->0 < head_tip(q, b, base_fee)->0)
        },
{
    let b = best_among(q, q.len() as int, base_fee);
    lemma_best_among_is_max(q, q.len() as int, base_fee);
    lemma_best_range(q, q.len() as int, base_fee);
    lemma_pop_size(q, b);
    assert(drain_order(q, base_fee)[0] == q[b].1[0]);
    assert forall|j: int| 0 <= j < q.len() && q[b].0 < q[j].0 implies head_tip(q, b, base_fee) is Some
        && ((#[trigger] head_tip(q, j, base_fee)) is None || head_tip(q, j, base_fee)->0 < head_tip(q, b, base_fee)->0) by {
        if j <= b {
            if j < b {
                assert(q[j].0 < q[b].0);
            }
        }
    }
}

/// Taking the best transaction each time hands out every signer's
/// transactions in the order of that signer's group: nonce dependencies are
/// kept, and nothing is lost or added.
pub proof fn lemma_drain_keeps_signer_order(q: Seq<(u64, Seq<Tx>)>, base_fee: u64, s: u64)
    requires
        queue_wf(q),
    ensures
        signed_by(drain_order(q, base_fee), s) == group_of(q, s),
    decreases queue_size(q),
{
    if q.len() == 0 {
        assert(drain_order(q, base_fee) =~= Seq::<Tx>::empty());
        assert(signed_by(Seq::<Tx>::empty(), s) =~= Seq::<Tx>::empty());
    } else {
        let b = best_among(q, q.len() as int, base_fee);
        lemma_best_range(q, q.len() as int, base_fee);
        lemma_pop_size(q, b);
        let p = pop_group(q, b);
        lemma_pop_groups(q, b);
        lemma_drain_keeps_signer_order(p, base_fee, s);
        let t = q[b].1[0];
        let rest = drain_order(p, base_fee);
        assert(drain_order(q, base_fee) == seq![t] + rest);
        let pred = |x: Tx| x.signer == s;
        rest.lemma_filter_prepend(t, pred);
        lemma_group_at(q, b);
        if q[b].0 == s {
            assert(q[b].1 =~= seq![t] + q[b].1.drop_first());
        } else {
            assert(Seq::<Tx>::empty() + rest.filter(pred) =~= rest.filter(pred));
        }
    }
}

/// The queue of a list of transactions: grouped by signer, in increasing
/// signer order, each group stably sorted by nonce.
pub open spec fn queue_of(txs: Seq<Tx>) -> Seq<(u64, Seq<Tx>)> {
    choose|q: Seq<(u64, Seq<Tx>)>| queue_wf(q) && forall|s: u64| group_of(q, s) == sort_by_nonce(signed_by(txs, s))
}

proof fn lemma_group_present(q: Seq<(u64, Seq<Tx>)>, s: u64)
    requires
        group_of(q, s).len() > 0,
    ensures
        exists|i: int| 0 <= i < q.len() && (#[trigger] q[i]).0 == s,
{
    if forall|i: int| 0 <= i < q.len() ==> (#[trigger] q[i]).0 != s {
        lemma_group_absent(q, s);
    }
}

proof fn lemma_group_drop_last(q: Seq<(u64, Seq<Tx>)>, s: u64)
    requires
        queue_wf(q),
        q.len() > 0,
    ensures
        s != q.last().0 ==> group_of(q.drop_last(), s) == group_of(q, s),
        group_of(q.drop_last(), q.last().0) == Seq::<Tx>::empty(),
        queue_wf(q.drop_last()),
{
    let d = q.drop_last();
    assert forall|i: int| 0 <= i < d.len() implies (#[trigger] d[i]).0 != q.last().0 by {
        assert(d[i] == q[i]);
    }
    lemma_group_absent(d, q.last().0);
}

/// A well-formed queue is determined by its groups.
proof fn lemma_queue_unique(q1: Seq<(u64, Seq<Tx>)>, q2: Seq<(u64, Seq<Tx>)>)
    requires
        queue_wf(q1),
        queue_wf(q2),
        forall|s: u64| group_of(q1, s) == group_of(q2, s),
    ensures
        q1 == q2,
    decreases q1.len() + q2.len(),
{
    if q1.len() == 0 && q2.len() == 0 {
        assert(q1 =~= q2);
    } else if q1.len() == 0 {
        lemma_group_at(q2, 0);
        assert(group_of(q1, q2[0].0).len() == 0);
    } else if q2.len() == 0 {
        lemma_group_at(q1, 0);
        assert(group_of(q2, q1[0].0).len() == 0);
    } else {
        let s1 = q1.last().0;
        let s2 = q2.last().0;
        lemma_group_at(q1, q1.len() - 1);
        lemma_group_at(q2, q2.len() - 1);
        lemma_group_present(q2, s1);
        lemma_group_present(q1, s2);
        let i2 = choose|i: int| 0 <= i < q2.len() && (#[trigger] q2[i]).0 == s1;
        let i1 = choose|i: int| 0 <= i < q1.len() && (#[trigger] q1[i]).0 == s2;
        assert(s1 <= s2) by {
            if i2 < q2.len() - 1 {
                assert(q2[i2].0 < q2[q2.len() - 1].0);
            }
        }
        assert(s2 <= s1) by {
            if i1 < q1.len() - 1 {
                assert(q1[i1].0 < q1[q1.len() - 1].0);
            }
        }
        assert forall|s: u64| group_of(q1.drop_last(), s) == group_of(q2.drop_last(), s) by {
            lemma_group_drop_last(q1, s);
            lemma_group_drop_last(q2, s);
        }
        lemma_group_drop_last(q1, s1);
        lemma_group_drop_last(q2, s1);
        lemma_queue_unique(q1.drop_last(), q2.drop_last());
        assert(q1 =~= q2.drop_last().push(q2.last()));
        assert(q2 =~= q2.drop_last().push(q2.last()));
    }
}

proof fn lemma_queue_of(txs: Seq<Tx>, q: Seq<(u64, Seq<Tx>)>)
    requires
        queue_wf(q),
        forall|s: u64| group_of(q, s) == sort_by_nonce(signed_by(txs, s)),
    ensures
        q == queue_of(txs),
        queue_wf(queue_of(txs)),
{
    let c = queue_of(txs);
    assert(queue_wf(c) && forall|s: u64| group_of(c, s) == sort_by_nonce(signed_by(txs, s)));
    lemma_queue_unique(q, c);
}

/// A queue of transactions grouped by signer, each group sorted by nonce:
/// only the first transaction of each signer is eligible to be taken.
#[derive(Debug)]
pub struct TxsQueue {
    groups: Vec<(u64, Vec<Tx>)>,
}

impl View for TxsQueue {
    type V = Seq<(u64, Seq<Tx>)>;

    closed spec fn view(&self) -> Seq<(u64, Seq<Tx>)> {
        self.groups@.map_values(|g: (u64, Vec<Tx>)| (g.0, g.1@))
    }
}

impl TxsQueue {
    /// The queue is well formed; every constructor ensures it and every
    /// method keeps it.
    pub open spec fn wf(&self) -> bool {
        queue_wf(self@)
    }

    /// The queue of the transactions of a span: grouped by signer, each group
    /// stably sorted by nonce.
    pub fn from_span(span: &Span) -> (r: TxsQueue)
        ensures
            r.wf(),
            forall|s: u64| group_of(r@, s) == sort_by_nonce(signed_by(span_txs(span@), s)),
            r@ == queue_of(span_txs(span@)),
    {
        let txs = span.transactions();
        TxsQueue::from_txs(&txs)
    }

    /// The queue of `txs`: grouped by signer, each group stably sorted by
    /// nonce.
    pub fn from_txs(txs: &Vec<Tx>) -> (r: TxsQueue)
        ensures
            r.wf(),
            forall|s: u64| group_of(r@, s) == sort_by_nonce(signed_by(txs@, s)),
            r@ == queue_of(txs@),
    {
        let mut q = TxsQueue { groups: Vec::new() };
        let mut i: usize = 0;
        proof {
            assert forall|s: u64| group_of(q@, s) == sort_by_nonce(signed_by(txs@.take(0), s)) by {
                assert(q@ =~= Seq::<(u64, Seq<Tx>)>::empty());
                assert(signed_by(txs@.take(0), s) =~= Seq::<Tx>::empty()) by {
                    reveal(Seq::filter);
                }
            }
        }
        while i < txs.len()
            invariant
                i <= txs@.len(),
                q.wf(),
                forall|s: u64| group_of(q@, s) == sort_by_nonce(signed_by(txs@.take(i as int), s)),
            decreases txs@.len() - i,
        {
            let t = txs[i];
            q.insert(t);
            proof {
                assert forall|s: u64| group_of(q@, s) == sort_by_nonce(signed_by(txs@.take(i + 1), s)) by {
                    let pred = |x: Tx| x.signer == s;
                    assert(txs@.take(i + 1) =~= txs@.take(i as int).push(t));
                    txs@.take(i as int).lemma_filter_push(t, pred);
                    let f = signed_by(txs@.take(i as int), s);
                    if t.signer == s {
                        assert(signed_by(txs@.take(i + 1), s) == f.push(t));
                        assert(f.push(t).drop_last() =~= f);
                    }
                }
            }
            i = i + 1;
        }
        assert(txs@.take(txs@.len() as int) =~= txs@);
        proof {
            lemma_queue_of(txs@, q@);
        }
        q
    }

    /// Adds `t` to its signer's group, after the transactions whose nonce is
    /// not greater than its own.
    fn insert(&mut self, t: Tx)
        requires
            old(self).wf(),
        ensures
            final(self).wf(),
            group_of(final(self)@, t.signer) == insert_by_nonce(group_of(old(self)@, t.signer), t),
            forall|s: u64| s != t.signer ==> group_of(final(self)@, s) == group_of(old(self)@, s),
    {
        let n = self.groups.len();
        let mut i: usize = 0;
        while i < n && self.groups[i].0 < t.signer
            invariant
                n == self.groups@.len(),
                i <= n,
                queue_wf(self@),
                self@ == old(self)@,
                forall|j: int| 0 <= j < i ==> self@[j].0 < t.signer,
            decreases n - i,
        {
            i = i + 1;
        }
        let ghost q = self@;
        if i < n && self.groups[i].0 == t.signer {
            let ghost g = q[i as int].1;
            let mut group = self.groups.remove(i);
            let mut p = group.1.len();
            proof {
                assert(g.take(p as int) =~= g);
                assert(g.skip(p as int) =~= Seq::<Tx>::empty());
                assert(insert_by_nonce(g, t) + Seq::<Tx>::empty() =~= insert_by_nonce(g, t));
            }
            while p > 0 && group.1[p - 1].nonce > t.nonce
                invariant
                    p <= group.1@.len(),
                    group.1@ == g,
                    insert_by_nonce(g, t) == insert_by_nonce(g.take(p as int), t) + g.skip(p as int),
                decreases p,
            {
                proof {
                    let h = g.take(p as int);
                    assert(h.last() == g[p - 1]);
                    assert(h.drop_last() =~= g.take(p - 1));
                    assert(insert_by_nonce(h, t) == insert_by_nonce(g.take(p - 1), t).push(g[p - 1]));
                    assert(g.skip(p - 1) =~= seq![g[p - 1]] + g.skip(p as int));
                    assert(insert_by_nonce(g.take(p - 1), t).push(g[p - 1]) + g.skip(p as int)
                        =~= insert_by_nonce(g.take(p - 1), t) + g.skip(p - 1));
                }
                p = p - 1;
            }
            proof {
                let h = g.take(p as int);
                if p > 0 {
                    assert(h.last() == g[p - 1]);
                } else {
                    assert(h.len() == 0);
                }
                assert(insert_by_nonce(h, t) == h.push(t));
            }
            group.1.insert(p, t);
            proof {
                assert(group.1@ =~= insert_by_nonce(g, t)) by {
                    assert(g =~= g.take(p as int) + g.skip(p as int));
                }
            }
            self.groups.insert(i, group);
            proof {
                let ng = insert_by_nonce(g, t);
                lemma_group_at(q, i as int);
                assert(self@ =~= q.update(i as int, (t.signer, ng)));
                lemma_insert_signers(g, t, q[i as int].0);
                lemma_group_update(q, i as int, ng);
            }
        } else {
            let mut v: Vec<Tx> = Vec::new();
            v.push(t);
            self.groups.insert(i, (t.signer, v));
            proof {
                assert(self@ =~= q.insert(i as int, (t.signer, seq![t])));
                lemma_group_insert_new(q, i as int, t);
            }
        }
    }

    /// The first transaction of each signer, by increasing signer.
    pub fn eligible(&self) -> (r: Vec<Tx>)
        requires
            self.wf(),
        ensures
            r@ == self@.map_values(|g: (u64, Seq<Tx>)| g.1[0]),
    {
        let mut r: Vec<Tx> = Vec::new();
        let mut i: usize = 0;
        while i < self.groups.len()
            invariant
                i <= self@.len(),
                queue_wf(self@),
                r@ == self@.take(i as int).map_values(|g: (u64, Seq<Tx>)| g.1[0]),
            decreases self@.len() - i,
        {
            assert(self@[i as int].1.len() > 0);
            r.push(self.groups[i].1[0]);
            assert(self@.take(i + 1).map_values(|g: (u64, Seq<Tx>)| g.1[0])
                =~= self@.take(i as int).map_values(|g: (u64, Seq<Tx>)| g.1[0]).push(self@[i as int].1[0]));
            i = i + 1;
        }
        assert(self@.take(self@.len() as int) =~= self@);
        r
    }

    /// Takes the first transaction of `signer`; `None` when the signer has
    /// none left.
    pub fn pop_by_signer(&mut self, signer: u64) -> (r: Option<Tx>)
        requires
            old(self).wf(),
        ensures
            final(self).wf(),
            group_of(old(self)@, signer).len() == 0 ==> r is None && final(self)@ == old(self)@,
            group_of(old(self)@, signer).len() > 0 ==> r == Some(group_of(old(self)@, signer)[0])
                && group_of(final(self)@, signer) == group_of(old(self)@, signer).drop_first()
                && forall|s: u64| s != signer ==> group_of(final(self)@, s) == group_of(old(self)@, s),
    {
        let n = self.groups.len();
        let mut i: usize = 0;
        while i < n
            invariant
                n == self.groups@.len(),
                i <= n,
                queue_wf(self@),
                self@ == old(self)@,
                forall|j: int| 0 <= j < i ==> self@[j].0 != signer,
            decreases n - i,
        {
            if self.groups[i].0 == signer {
                let ghost q = self@;
                proof {
                    lemma_group_at(q, i as int);
                    lemma_pop_groups(q, i as int);
                }
                let r = self.pop_at(i);
                return Some(r);
            }
            i = i + 1;
        }
        proof {
            lemma_group_absent(self@, signer);
        }
        None
    }

    fn pop_at(&mut self, i: usize) -> (r: Tx)
        requires
            old(self).wf(),
            i < old(self)@.len(),
        ensures
            final(self).wf(),
            r == old(self)@[i as int].1[0],
            final(self)@ == pop_group(old(self)@, i as int),
    {
        let ghost q = self@;
        let mut group = self.groups.remove(i);
        let t = group.1.remove(0);
        if group.1.len() > 0 {
            self.groups.insert(i, group);
            proof {
                assert(self@ =~= pop_group(q, i as int));
                lemma_pop_groups(q, i as int);
            }
        } else {
            proof {
                assert(self@ =~= pop_group(q, i as int));
                lemma_pop_groups(q, i as int);
            }
        }
        t
    }

    fn best_index(&self, base_fee: u64) -> (r: Option<usize>)
        requires
            self.wf(),
        ensures
            match r {
                Some(b) => self@.len() > 0 && b == best_among(self@, self@.len() as int, base_fee),
                None => self@.len() == 0,
            },
    {
        let n = self.groups.len();
        if n == 0 {
            return None;
        }
        let mut best: usize = 0;
        let mut best_tip = self.groups[0].1[0].effective_tip_per_gas(base_fee);
        let mut i: usize = 1;
        while i < n
            invariant
                n == self@.len(),
                1 <= i <= n,
                queue_wf(self@),
                best == best_among(self@, i as int, base_fee),
                best < i,
                best_tip == effective_tip(self@[best as int].1[0], base_fee),
            decreases n - i,
        {
            proof {
                lemma_best_range(self@, i as int, base_fee);
            }
            assert(self@[i as int].1.len() > 0);
            let tip = self.groups[i].1[0].effective_tip_per_gas(base_fee);
            let at_least = match (tip, best_tip) {
                (_, None) => true,
                (None, Some(_)) => false,
                (Some(x), Some(y)) => x >= y,
            };
            if at_least {
                best = i;
                best_tip = tip;
            }
            i = i + 1;
        }
        Some(best)
    }

    /// Takes the eligible transaction that pays the highest tip at
    /// `base_fee` (among equal tips, the one of the greatest signer); `None`
    /// when the queue is empty.
    pub fn pop_best(&mut self, base_fee: u64) -> (r: Option<Tx>)
        requires
            old(self).wf(),
        ensures
            final(self).wf(),
            old(self)@.len() == 0 ==> r is None && final(self)@ == old(self)@,
            old(self)@.len() > 0 ==> {
                let b = best_among(old(self)@, old(self)@.len() as int, base_fee);
                r == Some(old(self)@[b].1[0]) && final(self)@ == pop_group(old(self)@, b)
            },
    {
        match self.best_index(base_fee) {
            Some(b) => {
                proof {
                    lemma_best_range(self@, self@.len() as int, base_fee);
                }
                Some(self.pop_at(b))
            },
            None => None,
        }
    }

    /// The eligible transaction that pays the highest tip at `base_fee`,
    /// without taking it.
    pub fn peek_best(&self, base_fee: u64) -> (r: Option<Tx>)
        requires
            self.wf(),
        ensures
            self@.len() == 0 ==> r is None,
            self@.len() > 0 ==> r == Some(self@[best_among(self@, self@.len() as int, base_fee)].1[0]),
    {
        match self.best_index(base_fee) {
            Some(b) => {
                proof {
                    lemma_best_range(self@, self@.len() as int, base_fee);
                }
                Some(self.groups[b].1[0])
            },
            None => None,
        }
    }

    /// All transactions, taking the best one each time: by priority fee,
    /// with each signer's transactions in nonce order.
    pub fn ordered(self, base_fee: u64) -> (r: Vec<Tx>)
        requires
            self.wf(),
        ensures
            r@ == drain_order(self@, base_fee),
    {
        let mut q = self;
        let ghost start = q@;
        let mut out: Vec<Tx> = Vec::new();
        loop
            invariant
                q.wf(),
                start == self@,
                out@ + drain_order(q@, base_fee) == drain_order(start, base_fee),
            decreases queue_size(q@),
        {
            let ghost before = q@;
            match q.pop_best(base_fee) {
                Some(t) => {
                    proof {
                        let b = best_among(before, before.len() as int, base_fee);
                        lemma_best_range(before, before.len() as int, base_fee);
                        lemma_pop_size(before, b);
                        assert(drain_order(before, base_fee) == seq![t] + drain_order(q@, base_fee));
                        assert(out@.push(t) + drain_order(q@, base_fee) =~= out@ + (seq![t] + drain_order(q@, base_fee)));
                    }
                    out.push(t);
                },
                None => {
                    proof {
                        assert(drain_order(before, base_fee) =~= Seq::<Tx>::empty());
                        assert(out@ + Seq::<Tx>::empty() =~= out@);
                    }
                    return out;
                },
            }
        }
    }
}

proof fn lemma_insert_signers(g: Seq<Tx>, t: Tx, s: u64)
    requires
        t.signer == s,
        forall|k: int| 0 <= k < g.len() ==> (#[trigger] g[k]).signer == s,
    ensures
        forall|k: int| 0 <= k < insert_by_nonce(g, t).len() ==> (#[trigger] insert_by_nonce(g, t)[k]).signer == s,
        insert_by_nonce(g, t).len() == g.len() + 1,
    decreases g.len(),
{
    if g.len() > 0 && g.last().nonce > t.nonce {
        lemma_insert_signers(g.drop_last(), t, s);
    }
}

proof fn lemma_group_insert_new(q: Seq<(u64, Seq<Tx>)>, i: int, t: Tx)
    requires
        queue_wf(q),
        0 <= i <= q.len(),
        forall|j: int| 0 <= j < i ==> q[j].0 < t.signer,
        i < q.len() ==> q[i].0 > t.signer,
    ensures
        queue_wf(q.insert(i, (t.signer, seq![t]))),
        group_of(q.insert(i, (t.signer, seq![t])), t.signer) == insert_by_nonce(group_of(q, t.signer), t),
        forall|s: u64| s != t.signer ==> group_of(q.insert(i, (t.signer, seq![t])), s) == group_of(q, s),
{
    let u = q.insert(i, (t.signer, seq![t]));
    assert forall|a: int, b: int| 0 <= a < b < u.len() implies u[a].0 < u[b].0 by {
        if a < i && b > i {
            assert(u[b] == q[b - 1]);
        } else if a == i && b > i {
            assert(u[b] == q[b - 1]);
        } else if a > i {
            assert(u[a] == q[a - 1] && u[b] == q[b - 1]);
        }
    }
    assert forall|a: int| 0 <= a < u.len() implies (#[trigger] u[a]).1.len() > 0 by {
        if a > i {
            assert(u[a] == q[a - 1]);
        }
    }
    assert forall|a: int, k: int| 0 <= a < u.len() && 0 <= k < u[a].1.len() implies (#[trigger] u[a].1[k]).signer == u[a].0 by {
        if a > i {
            assert(u[a] == q[a - 1]);
        }
    }
    assert(queue_wf(u));
    lemma_group_at(u, i);
    assert(u.remove(i) =~= q);
    assert forall|j: int| 0 <= j < q.len() implies (#[trigger] q[j]).0 != t.signer by {
        if j >= i {
            assert(q[j].0 >= q[i].0);
        }
    }
    lemma_group_absent(q, t.signer);
}

/// Orders the transactions of the payload's staging history by priority fee,
/// keeping each signer's nonce order.
#[derive(Debug, Clone, Copy)]
pub struct PriorityFeeOrdering;

/// What `PriorityFeeOrdering` does with a payload.
#[derive(Debug)]
pub enum Reordering {
    /// The transactions are in order already: the payload stays.
    InOrder,
    /// Apply these transactions, in order, on top of this checkpoint.
    Reapply(Checkpoint, Vec<Tx>),
    /// The first transaction out of order lies beyond the checkpoints of the
    /// staging history (its checkpoints hold several transactions each), so
    /// no checkpoint of the history precedes it.
    Unsupported,
}

/// Position `k` is the first where the transactions `existing` differ, by
/// hash, from the transactions `ordered`.
pub open spec fn first_out_of_order(existing: Seq<Tx>, ordered: Seq<Tx>, k: int) -> bool {
    &&& 0 <= k < existing.len()
    &&& k < ordered.len()
    &&& existing[k].hash != ordered[k].hash
    &&& forall|j: int| 0 <= j < k ==> existing[j].hash == ordered[j].hash
}

impl PriorityFeeOrdering {
    /// The plan for `payload`: the staging transactions in the order of
    /// their queue (see `TxsQueue::ordered`); when they already come in that
    /// order the payload stays, else the transactions from the first one out
    /// of order are applied again, in order, on the checkpoint at that
    /// position counted from the last barrier (the barrier for the first
    /// transaction, the staging checkpoint before it otherwise).
    pub fn plan(&self, payload: &Checkpoint) -> (r: Reordering)
        ensures
            ({
                let staging = history_view(payload@).skip(last_barrier(payload@) + 1);
                let existing = span_txs(staging);
                let ordered = drain_order(queue_of(existing), payload.spec_block().base_fee);
                match r {
                    Reordering::InOrder => forall|k: int| 0 <= k < existing.len() && k < ordered.len()
                        ==> existing[k].hash == ordered[k].hash,
                    Reordering::Reapply(base, txs) => exists|k: int| {
                        &&& #[trigger] first_out_of_order(existing, ordered, k)
                        &&& txs@ == ordered.skip(k)
                        &&& k <= staging.len() && base@ == history_view(payload@)[last_barrier(payload@) + k]
                    },
                    Reordering::Unsupported => exists|k: int| #[trigger] first_out_of_order(existing, ordered, k)
                        && k > staging.len(),
                }
            }),
    {
        let history = payload.history_staging();
        let anchored = payload.from_last_barrier();
        let existing = history.transactions();
        let q = TxsQueue::from_txs(&existing);
        let ordered = q.ordered(payload.block().base_fee);
        let n = if existing.len() < ordered.len() { existing.len() } else { ordered.len() };
        let mut k: usize = 0;
        while k < n
            invariant
                n <= existing@.len(),
                n <= ordered@.len(),
                k <= n,
                history@ == history_view(payload@).skip(last_barrier(payload@) + 1),
                anchored@ == history_view(payload@).skip(last_barrier(payload@)),
                existing@ == span_txs(history@),
                0 <= last_barrier(payload@) < payload@.len(),
                ordered@ == drain_order(queue_of(existing@), payload.spec_block().base_fee),
                forall|j: int| 0 <= j < k ==> existing@[j].hash == ordered@[j].hash,
            decreases n - k,
        {
            if existing[k].hash != ordered[k].hash {
                assert(first_out_of_order(existing@, ordered@, k as int));
                let base = match anchored.at(k) {
                    Some(c) => c,
                    None => {
                        return Reordering::Unsupported;
                    },
                };
                let mut rest: Vec<Tx> = Vec::new();
                let mut j: usize = k;
                while j < ordered.len()
                    invariant
                        k <= j <= ordered@.len(),
                        rest@ == ordered@.subrange(k as int, j as int),
                    decreases ordered@.len() - j,
                {
                    rest.push(ordered[j]);
                    assert(rest@ =~= ordered@.subrange(k as int, j + 1));
                    j = j + 1;
                }
                assert(rest@ =~= ordered@.skip(k as int));
                return Reordering::Reapply(base, rest);
            }
            k = k + 1;
        }
        Reordering::InOrder
    }
}

} // verus!
