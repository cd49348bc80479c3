use rblib::limits::BlobParams;
use rblib::payload::block::BlockContext;
use rblib::payload::checkpoint::Checkpoint;
use rblib::payload::exec::{Bundle, ExecOutcome, Executable, ExecutionResult, Tx};
use rblib::payload::span::{Span, SpanError};

fn block() -> BlockContext {
    BlockContext {
        payload_id: 7,
        parent_number: 100,
        parent_hash: 0xabc,
        parent_gas_limit: 30_000_000,
        gas_limit: None,
        timestamp: 1_700_000_000,
        base_fee: 10,
        blob_fee: Some(1),
        blob_params: Some(BlobParams { target_blob_count: 3, max_blob_count: 6 }),
        coinbase: 0xc0ffee,
        sequencer_txs: Vec::new(),
    }
}

fn tx(signer: u64, nonce: u64) -> Tx {
    Tx {
        hash: signer * 1000 + nonce,
        signer,
        nonce,
        max_fee_per_gas: 100,
        max_priority_fee_per_gas: Some(5),
        blob_gas_used: None,
        gas_limit: 21_000,
        is_deposit: false,
    }
}

fn tx_result(t: Tx, gas: u64, writes: Vec<(u64, u64)>) -> ExecutionResult {
    ExecutionResult::new(Executable::Transaction(t), vec![ExecOutcome::Success { gas_used: gas }], writes).unwrap()
}

fn apply_multiple(root: Checkpoint, txs: &[Tx]) -> Vec<Checkpoint> {
    let mut out = Vec::new();
    let mut cur = root;
    for (i, t) in txs.iter().enumerate() {
        cur = cur.apply(tx_result(*t, 21_000, vec![(t.signer, t.nonce + 1)]), 10 + i as u64);
        out.push(cur.duplicate());
    }
    out
}

#[test]
fn test_new_at_block() {
    let block = block();
    let checkpoint = Checkpoint::new_at_block(block.duplicate(), 5);
    assert!(checkpoint.block().same_as(&block));
    assert!(checkpoint.prev().is_none());
    assert_eq!(checkpoint.depth(), 0);
    assert!(checkpoint.is_barrier());
    assert_eq!(checkpoint.created_at(), 5);
}

#[test]
fn test_apply_with() {
    let block = block();
    let root = block.duplicate().start(1);
    let checkpoint = root.barrier(2);
    assert!(checkpoint.block().same_as(&block));
    assert!(checkpoint.prev().unwrap().same_as(&root));
    assert_eq!(checkpoint.depth(), root.depth() + 1);
    assert!(checkpoint.is_barrier());
    assert_eq!(checkpoint.created_at(), 2);
}

#[test]
fn test_apply_barrier() {
    let root = block().start(1);
    let barrier = root.barrier(2);
    assert!(barrier.result().is_none());
    assert!(barrier.state().is_none());
    assert!(barrier.as_transaction().is_none());
    assert!(barrier.as_bundle().is_none());
    assert!(barrier.transactions().is_empty());
}

#[test]
fn test_apply_tx() {
    let root = block().start(1);
    let t = tx(1, 0);
    let checkpoint = root.apply(tx_result(t, 21_000, vec![(1, 1)]), 2);
    assert_eq!(checkpoint.as_transaction(), Some(t));
    assert_eq!(checkpoint.transactions(), vec![t]);
    assert!(checkpoint.as_bundle().is_none());
    assert!(!checkpoint.is_barrier());

    let res = checkpoint.result().unwrap();
    assert_eq!(res.transactions(), vec![t]);
    assert_eq!(res.results(), &vec![ExecOutcome::Success { gas_used: 21_000 }]);
    assert_eq!(checkpoint.state(), Some(vec![(1, 1)]));
    assert_eq!(checkpoint.transactions(), res.transactions());

    let t2 = tx(1, 1);
    let checkpoint = checkpoint.apply(tx_result(t2, 21_000, vec![(1, 2)]), 3);
    assert_eq!(checkpoint.depth(), 2);
}

#[test]
fn test_apply_bundle() {
    let root = block().start(1);
    let txs = vec![tx(1, 0), tx(2, 0), tx(3, 0)];
    let bundle = Bundle { transactions: txs.clone(), hash: 77, optional: vec![], allowed_to_fail: vec![] };
    let outcomes = vec![
        ExecOutcome::Success { gas_used: 21_000 },
        ExecOutcome::Success { gas_used: 21_000 },
        ExecOutcome::Success { gas_used: 21_000 },
    ];
    let result = ExecutionResult::new(Executable::Bundle(bundle.duplicate()), outcomes, vec![(9, 9)]).unwrap();
    let checkpoint = root.apply(result, 2);
    let b = checkpoint.as_bundle().unwrap();
    assert_eq!(b.hash, 77);
    assert_eq!(b.transactions, txs);
    assert_eq!(checkpoint.transactions(), txs);
    assert!(checkpoint.as_transaction().is_none());
    assert!(!checkpoint.is_barrier());
    assert!(checkpoint.is_bundle());
    assert_eq!(checkpoint.hash(), Some(77));
    assert_eq!(checkpoint.gas_used(), 63_000);

    let bundle2 = Bundle { transactions: vec![tx(4, 0)], hash: 78, optional: vec![], allowed_to_fail: vec![] };
    let result2 =
        ExecutionResult::new(Executable::Bundle(bundle2), vec![ExecOutcome::Success { gas_used: 1 }], vec![]).unwrap();
    let checkpoint = checkpoint.apply(result2, 3);
    assert_eq!(checkpoint.depth(), 2);
}

#[test]
fn test_iter() {
    let root = block().start(1);
    let txs: Vec<Tx> = (0..10).map(|n| tx(1, n)).collect();
    let checkpoints = apply_multiple(root, &txs);
    let latest = checkpoints.last().unwrap().duplicate();
    let mut cur = Some(latest);
    for expected in checkpoints.iter().rev() {
        let c = cur.unwrap();
        assert!(c.same_as(expected));
        cur = c.prev();
    }
    assert!(cur.unwrap().is_empty());
}

#[test]
fn test_checkpoint_to_txs() {
    let root = block().start(1);
    let txs: Vec<Tx> = (0..10).map(|n| tx(1, n)).collect();
    let checkpoint = apply_multiple(root, &txs).pop().unwrap();
    assert_eq!(checkpoint.all_transactions(), txs);
}

#[test]
fn result_counts_must_match() {
    let bundle = Bundle { transactions: vec![tx(1, 0), tx(2, 0)], hash: 1, optional: vec![], allowed_to_fail: vec![] };
    assert!(ExecutionResult::new(Executable::Bundle(bundle), vec![ExecOutcome::Success { gas_used: 1 }], vec![]).is_none());
}

#[test]
fn lookup_sees_the_latest_write_through_fat_checkpoints() {
    let root = block().start(1);
    let c1 = root.apply(tx_result(tx(1, 0), 1, vec![(100, 1), (200, 2)]), 2);
    let c2 = c1.apply(tx_result(tx(1, 1), 1, vec![(100, 3)]), 3).fat();
    assert!(c2.state().is_some());
    assert_eq!(c2.state(), Some(vec![(100, 1), (200, 2), (100, 3)]));
    let c3 = c2.barrier(4);
    let c4 = c3.apply(tx_result(tx(1, 2), 1, vec![(200, 5)]), 5);
    let c5 = c4.apply(tx_result(tx(1, 3), 1, vec![(300, 6)]), 6).fat();
    assert_eq!(c5.state(), Some(vec![(200, 5), (300, 6)]));
    let c6 = c5.apply(tx_result(tx(1, 4), 1, vec![]), 7);

    assert_eq!(c6.lookup(100), Some(3));
    assert_eq!(c6.lookup(200), Some(5));
    assert_eq!(c6.lookup(300), Some(6));
    assert_eq!(c6.lookup(400), None);
    assert_eq!(c1.lookup(100), Some(1));
    assert_eq!(root.lookup(100), None);
}

#[test]
fn fat_is_a_no_op_on_barriers_only() {
    let root = block().start(1);
    let b = root.barrier(2).fat();
    assert!(b.state().is_none());
    let fat = root.apply(tx_result(tx(1, 0), 1, vec![(1, 1)]), 3).fat();
    let again = fat.duplicate().fat();
    assert!(again.same_as(&fat));
}

#[test]
fn span_between_is_order_independent() {
    let root = block().start(1);
    let txs: Vec<Tx> = (0..4).map(|n| tx(1, n)).collect();
    let cps = apply_multiple(root.duplicate(), &txs);
    let a = Span::between(&cps[0], &cps[3]).unwrap();
    let b = Span::between(&cps[3], &cps[0]).unwrap();
    assert_eq!(a.len(), 4);
    assert_eq!(b.len(), 4);
    for i in 0..4 {
        assert!(a.at(i).unwrap().same_as(&b.at(i).unwrap()));
        assert!(a.at(i).unwrap().same_as(&cps[i]));
    }
    assert!(a.at(4).is_none());
    let single = Span::between(&cps[2], &cps[2]).unwrap();
    assert_eq!(single.len(), 1);
}

#[test]
fn span_between_forks_is_nonlinear() {
    let root = block().start(1);
    let left = root.apply(tx_result(tx(1, 0), 1, vec![]), 2);
    let right = root.apply(tx_result(tx(2, 0), 1, vec![]), 3);
    assert_eq!(Span::between(&left, &right).err(), Some(SpanError::NonlinearHistory));
    assert_eq!(left.to(&right).err(), Some(SpanError::NonlinearHistory));
}

#[test]
fn span_split_take_skip_and_pops() {
    let root = block().start(1);
    let txs: Vec<Tx> = (0..3).map(|n| tx(1, n)).collect();
    let last = apply_multiple(root, &txs).pop().unwrap();
    let history = last.history();
    assert_eq!(history.len(), 4);
    let (left, right) = history.split_at(1);
    assert_eq!(left.len(), 1);
    assert_eq!(right.len(), 3);
    assert_eq!(right.transactions(), txs);
    let (all, none) = history.split_at(10);
    assert_eq!(all.len(), 4);
    assert!(none.is_empty());
    assert_eq!(history.take(2).len(), 2);
    assert_eq!(history.skip(3).len(), 1);
    let mut h = history.skip(0);
    assert!(h.pop_first().unwrap().is_empty());
    assert!(h.pop_last().unwrap().same_as(&last));
    assert_eq!(h.len(), 2);
    assert_eq!(history.gas_used(), 63_000);
    assert!(history.contains(1001));
    assert!(!history.contains(5));
    assert_eq!(history.checkpoints().len(), 4);
}

#[test]
fn blobs_are_counted() {
    let root = block().start(1);
    let mut blob_tx = tx(1, 0);
    blob_tx.blob_gas_used = Some(131_072);
    let c = root.apply(tx_result(blob_tx, 1, vec![]), 2);
    assert!(c.has_blobs());
    assert_eq!(c.blob_gas_used(), Some(131_072));
    assert_eq!(c.blobs(), vec![blob_tx]);
    let c2 = c.apply(tx_result(tx(2, 0), 1, vec![]), 3);
    assert!(!c2.has_blobs());
    assert_eq!(c2.blob_gas_used(), None);
    assert_eq!(c2.cumulative_blob_gas_used(), 131_072);
    assert_eq!(c2.history().blobs(), vec![blob_tx]);
    assert_eq!(c2.history().blob_gas_used(), 131_072);
}

#[test]
fn checkpoint_conveniences() {
    let root = block().start(1);
    let t1 = tx(1, 0);
    let t2 = tx(1, 1);
    let t3 = tx(2, 0);
    let bundle = Bundle { transactions: vec![t1, t2, t3], hash: 5, optional: vec![], allowed_to_fail: vec![] };
    let outcomes = vec![
        ExecOutcome::Success { gas_used: 10 },
        ExecOutcome::Revert { gas_used: 20 },
        ExecOutcome::Halt { gas_used: 30 },
    ];
    let c = root.apply(ExecutionResult::new(Executable::Bundle(bundle), outcomes, vec![]).unwrap(), 2);
    assert_eq!(c.nonces(), vec![(1, 0), (1, 1), (2, 0)]);
    assert_eq!(c.signers(), vec![1, 2]);
    assert!(c.contains(1001));
    assert!(!c.contains(3));
    assert!(c.has_failures());
    assert_eq!(c.failed_txs(), vec![(t2, ExecOutcome::Revert { gas_used: 20 }), (t3, ExecOutcome::Halt { gas_used: 30 })]);
    assert_eq!(c.gas_used(), 60);
    assert_eq!(c.cumulative_gas_used(), 60);
    // tip: min(100 - 10, 5) = 5 per transaction
    assert_eq!(c.effective_tip_per_gas(), 15);
    assert_eq!(c.building_since(), 1);
    assert!(c.root().is_empty());
    assert!(!c.is_empty());
}

#[test]
fn staging_and_sealed_histories_meet_at_the_last_barrier() {
    let root = block().start(1);
    // no barrier but the initial checkpoint, which is one: nothing is staged
    assert_eq!(root.history_sealed().len(), 1);
    assert_eq!(root.history_staging().len(), 0);

    let c1 = root.apply(tx_result(tx(9, 0), 1, vec![]), 2);
    assert_eq!(c1.history_staging().len(), 1);
    let sealed_point = c1.barrier(3);
    // a barrier placed after the sequencer transaction has an empty staging history
    assert_eq!(sealed_point.history_sealed().len(), 3);
    assert_eq!(sealed_point.history_staging().len(), 0);
    assert_eq!(sealed_point.history_staging().transactions().len(), 0);

    let c2 = sealed_point.apply(tx_result(tx(1, 0), 1, vec![]), 4);
    let c3 = c2.apply(tx_result(tx(1, 1), 1, vec![]), 5);
    let staging = c3.history_staging();
    assert_eq!(staging.len(), 2);
    assert!(staging.first().unwrap().same_as(&c2));
    assert!(c3.history_sealed().last().unwrap().same_as(&sealed_point));
    assert_eq!(c3.history_sealed().len() + staging.len(), c3.history().len());
}

#[test]
fn tags_open_spans() {
    let root = block().start(1);
    let a = root.barrier_with_context("flashblock".to_string(), 2);
    let b = a.apply(tx_result(tx(1, 0), 1, vec![]), 3);
    let c = b.barrier_with_context("flashblock".to_string(), 4);
    let d = c.apply_with_context(tx_result(tx(1, 1), 1, vec![]), "other".to_string(), 5);
    assert!(d.has_context("other"));
    assert_eq!(d.history_since_last_tag("flashblock").unwrap().len(), 2);
    assert_eq!(d.history_since_first_tag("flashblock").unwrap().len(), 4);
    assert!(d.history_since_first_tag("missing").is_none());
    assert_eq!(b.context(), "flashblock");
}

#[test]
fn span_lookup_sees_only_its_checkpoints() {
    let root = block().start(1);
    let c1 = root.apply(tx_result(tx(1, 0), 1, vec![(1, 10)]), 2);
    let c2 = c1.apply(tx_result(tx(1, 1), 1, vec![(2, 20)]), 3);
    let c3 = c2.apply(tx_result(tx(1, 2), 1, vec![(1, 30)]), 4);
    let span = Span::between(&c2, &c3).unwrap();
    assert_eq!(span.lookup(1), Some(30));
    assert_eq!(span.lookup(2), Some(20));
    let span = Span::between(&c2, &c2).unwrap();
    assert_eq!(span.lookup(1), None);
    assert_eq!(span.block_hash(100), Some(0xabc));
    assert_eq!(span.block_hash(99), None);
    assert_eq!(c3.lookup(1), Some(30));
}

#[test]
fn display_strings() {
    let root = block().start(1);
    assert_eq!(root.to_display_string(), "[0] initial");
    let c1 = root.apply(tx_result(tx(1, 0), 21_000, vec![]), 2);
    assert_eq!(c1.to_display_string(), "[1] tx 1000 (success, 21000 gas)");
    let b = c1.barrier_with_context("sealed".to_string(), 3);
    assert_eq!(b.to_display_string(), "[2] barrier, context=\"sealed\"");
    let bundle = Bundle { transactions: vec![tx(2, 0), tx(3, 0)], hash: 5, optional: vec![], allowed_to_fail: vec![] };
    let outcomes = vec![ExecOutcome::Success { gas_used: 10 }, ExecOutcome::Revert { gas_used: 5 }];
    let c3 = b.apply(ExecutionResult::new(Executable::Bundle(bundle), outcomes, vec![]).unwrap(), 4);
    assert_eq!(c3.to_display_string(), "[3] (bundle 2 txs, 15 gas) metadata=\"sealed\"");
    let history = c3.history();
    assert_eq!(history.to_display_string(), "[checkpoints 0-3 / 3 txs] (21015 gas, 0 blob gas)");
    assert_eq!(history.skip(10).to_display_string(), "[empty]");
}

#[test]
fn cumulative_gas_grows_by_each_checkpoint() {
    let root = block().start(1);
    assert_eq!(root.cumulative_gas_used(), 0);
    let c1 = root.apply(tx_result(tx(1, 0), 21_000, vec![]), 2);
    let c2 = c1.apply(tx_result(tx(1, 1), 30_000, vec![]), 3);
    assert_eq!(c2.cumulative_gas_used(), c1.cumulative_gas_used() + c2.gas_used());
    assert_eq!(c2.cumulative_gas_used(), 51_000);
    assert_eq!(c2.root().cumulative_gas_used(), 0);
}
