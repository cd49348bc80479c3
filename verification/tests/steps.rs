use rblib::executor::{ControlFlow, PayloadBuilderError};
use rblib::limits::{BlobParams, ScopeLimits};
use rblib::payload::block::BlockContext;
use rblib::payload::bundle::{BundleExecution, ExecutionError, TxExecution};
use rblib::payload::checkpoint::Checkpoint;
use rblib::payload::exec::{Bundle, ExecOutcome, Executable, ExecutionResult, Tx};
use rblib::platform::{EthereumDefaultLimits, OptimismDefaultLimits, PreselectedBestTransactions};
use rblib::steps::atomic::{AtomicMode, AtomicProgress, TotalProfitOrdering};
use rblib::steps::context::StepContext;
use rblib::steps::optimism::{skip_sequencer_transactions, OptimismPrologue, SequencerGas};
use rblib::steps::order::{PriorityFeeOrdering, Reordering, TxsQueue};
use rblib::steps::pool::{
    AppendNewTransactionFromPool, Appending, Candidate, DiscardedByOtherSteps, GatherAction, GatherBestTransactions, Rejection,
};
use rblib::steps::revert::{RevertAction, RevertPlan, RevertProtection};

fn block() -> BlockContext {
    BlockContext {
        payload_id: 1,
        parent_number: 10,
        parent_hash: 2,
        parent_gas_limit: 30_000_000,
        gas_limit: Some(25_000_000),
        timestamp: 1_000,
        base_fee: 10,
        blob_fee: None,
        blob_params: Some(BlobParams { target_blob_count: 1, max_blob_count: 2 }),
        coinbase: 3,
        sequencer_txs: Vec::new(),
    }
}

fn tx(signer: u64, nonce: u64, tip: u128) -> Tx {
    Tx {
        hash: signer * 1000 + nonce,
        signer,
        nonce,
        max_fee_per_gas: 1_000,
        max_priority_fee_per_gas: Some(tip),
        blob_gas_used: None,
        gas_limit: 21_000,
        is_deposit: false,
    }
}

fn result(t: Tx, outcome: ExecOutcome) -> ExecutionResult {
    ExecutionResult::new(Executable::Transaction(t), vec![outcome], vec![]).unwrap()
}

fn ok(gas: u64) -> ExecOutcome {
    ExecOutcome::Success { gas_used: gas }
}

fn payload_of(txs: &[Tx]) -> Checkpoint {
    let mut cp = block().start(1);
    for t in txs {
        cp = cp.apply(result(*t, ok(21_000)), 2);
    }
    cp
}

fn ctx(limits: ScopeLimits, started: Option<u64>) -> StepContext {
    StepContext::new(&block(), limits, started)
}

#[test]
fn queue_orders_by_tip_keeping_nonces() {
    // signer 1 pays little first then a lot; signer 2 pays in between
    let txs = vec![tx(1, 1, 50), tx(2, 0, 20), tx(1, 0, 5)];
    let q = TxsQueue::from_txs(&txs);
    assert_eq!(q.eligible(), vec![tx(1, 0, 5), tx(2, 0, 20)]);
    let ordered = q.ordered(10);
    assert_eq!(ordered, vec![tx(2, 0, 20), tx(1, 0, 5), tx(1, 1, 50)]);
}

#[test]
fn queue_pops_and_peeks() {
    let txs = vec![tx(1, 0, 5), tx(2, 0, 5), tx(3, 0, 1)];
    let mut q = TxsQueue::from_txs(&txs);
    // equal tips: the greatest signer wins
    assert_eq!(q.peek_best(10), Some(tx(2, 0, 5)));
    assert_eq!(q.pop_best(10), Some(tx(2, 0, 5)));
    assert_eq!(q.pop_by_signer(3), Some(tx(3, 0, 1)));
    assert_eq!(q.pop_by_signer(3), None);
    assert_eq!(q.pop_best(10), Some(tx(1, 0, 5)));
    assert_eq!(q.pop_best(10), None);
}

#[test]
fn priority_fee_ordering_plans() {
    let in_order = payload_of(&[tx(1, 0, 30), tx(2, 0, 20), tx(3, 0, 10)]);
    assert!(matches!(PriorityFeeOrdering.plan(&in_order), Reordering::InOrder));

    let out_of_order = payload_of(&[tx(1, 0, 30), tx(2, 0, 10), tx(3, 0, 20)]);
    match PriorityFeeOrdering.plan(&out_of_order) {
        Reordering::Reapply(base, txs) => {
            assert_eq!(base.depth(), 1);
            assert_eq!(txs, vec![tx(3, 0, 20), tx(2, 0, 10)]);
        },
        other => panic!("unexpected {other:?}"),
    }

    // nonce dependencies are kept even when the later nonce pays more
    let deps = payload_of(&[tx(1, 0, 1), tx(1, 1, 50)]);
    assert!(matches!(PriorityFeeOrdering.plan(&deps), Reordering::InOrder));
}

#[test]
fn revert_protection_plans() {
    let root = block().start(1);
    assert!(matches!(RevertProtection.plan(&root), RevertPlan::Keep));

    let c1 = root.apply(result(tx(1, 0, 1), ok(1)), 2);
    let c2 = c1.apply(result(tx(1, 1, 1), ExecOutcome::Revert { gas_used: 1 }), 3);
    let c3 = c2.apply(result(tx(1, 2, 1), ok(1)), 4);
    match RevertProtection.plan(&c3) {
        RevertPlan::Rebuild(base, rest) => {
            assert!(base.same_as(&c1));
            assert_eq!(rest.len(), 2);
            match RevertProtection.action(&rest.at(0).unwrap()) {
                RevertAction::Reapply(t) => assert_eq!(t, tx(1, 1, 1)),
                other => panic!("unexpected {other:?}"),
            }
        },
        other => panic!("unexpected {other:?}"),
    }
    assert!(!RevertProtection.keeps(&c2));
    assert!(RevertProtection.keeps(&c3));

    // a reverted transaction sealed by a barrier stays
    let sealed = c2.barrier(5);
    assert!(matches!(RevertProtection.plan(&sealed), RevertPlan::Keep));
    assert!(matches!(RevertProtection.action(&sealed), RevertAction::Nothing));
}

#[test]
fn gather_best_transactions_decisions() {
    let payload = payload_of(&[tx(1, 0, 1), tx(1, 1, 1)]);
    let limits = ScopeLimits::with_gas_limit(50_000).with_deadline(100);
    let step = GatherBestTransactions;
    assert!(!step.should_stop(&payload, &ctx(limits, Some(0)), 50));
    assert!(step.should_stop(&payload, &ctx(limits, Some(0)), 100));
    assert!(step.should_stop(&payload, &ctx(ScopeLimits::with_gas_limit(42_000), None), 0));
    assert!(step.should_stop(&payload, &ctx(ScopeLimits::with_gas_limit(90_000).with_max_transactions(2), None), 0));
    let bigger = payload.apply(result(tx(1, 2, 1), ok(21_000)), 3);
    assert!(!step.keeps(&bigger, &ctx(limits, None)));
    assert!(step.keeps(&bigger, &ctx(ScopeLimits::with_gas_limit(63_000), None)));

    let mut blob = tx(5, 0, 1);
    blob.blob_gas_used = Some(3 * 131_072);
    let blob_limits = limits.with_blob_params(BlobParams { target_blob_count: 1, max_blob_count: 2 });
    assert!(!step.blobs_fit(&payload, &blob, &ctx(blob_limits, None)));
    blob.blob_gas_used = Some(131_072);
    assert!(step.blobs_fit(&payload, &blob, &ctx(blob_limits, None)));
}

#[test]
fn append_new_transaction_decisions() {
    let payload = payload_of(&[tx(1, 0, 1)]);
    let limits = ScopeLimits::with_gas_limit(100_000);
    let mut step = AppendNewTransactionFromPool::new();
    assert!(!step.at_limits(&payload, &ctx(limits, None)));
    assert!(step.at_limits(&payload, &ctx(ScopeLimits::with_gas_limit(21_000), None)));
    assert_eq!(step.screen(&payload, &tx(1, 0, 1), &ctx(limits, None), 0), Candidate::Skip);
    assert_eq!(step.screen(&payload, &tx(2, 0, 1), &ctx(limits, None), 0), Candidate::Apply);
    assert_eq!(step.screen(&payload, &tx(2, 0, 1), &ctx(limits.with_deadline(5), Some(0)), 5), Candidate::Stop);

    let next = payload.apply(result(tx(2, 0, 1), ok(21_000)), 3);
    assert!(step.accept(&next, &tx(2, 0, 1), &ctx(limits, None)));
    // removed by a later step, it is not added again
    assert_eq!(
        step.screen(&payload, &tx(2, 0, 1), &ctx(limits, None), 0),
        Candidate::Discard(DiscardedByOtherSteps(2000))
    );
    assert!(!step.accept(&next, &tx(3, 0, 1), &ctx(ScopeLimits::with_gas_limit(30_000), None)));

    let mut blob = tx(4, 0, 1);
    blob.blob_gas_used = Some(3 * 131_072);
    let blob_limits = limits.with_blob_params(BlobParams { target_blob_count: 1, max_blob_count: 2 });
    assert_eq!(
        step.screen(&payload, &blob, &ctx(blob_limits, None), 0),
        Candidate::TooManyBlobs { have: 0, permitted: 2 }
    );
    step.before_job();
    assert_eq!(step.screen(&payload, &tx(2, 0, 1), &ctx(limits, None), 0), Candidate::Apply);
    assert_eq!(
        DiscardedByOtherSteps(12).message(),
        "Transaction was discarded by other steps in the pipeline: 12"
    );
}

#[test]
fn sequencer_txs_are_included() {
    let prologue = OptimismPrologue;
    let root = block().start(1);
    let gas = prologue.check_empty(&root).unwrap();
    let mut deposit = tx(9, 0, 0);
    deposit.is_deposit = true;
    let payload = root.apply(result(deposit, ok(50_000)), 2);
    let gas = prologue.add_gas(gas, &payload, &ctx(ScopeLimits::with_gas_limit(100_000), None)).unwrap();
    assert_eq!(gas, SequencerGas(50_000));
    let payload = prologue.finish(payload, 3);
    assert_eq!(payload.history().transactions().len(), 1, "sequencer transaction should be included");
    assert!(payload.is_barrier(), "a barrier is placed after sequencer txs");
    assert_eq!(payload.history_sealed().len(), 3);
    assert_eq!(payload.history_staging().len(), 0, "a barrier has an empty staging history");
    assert!(payload.history_sealed().transactions()[0].is_deposit, "Sequencer tx should be a deposit");
}

#[test]
fn sequencer_txs_not_included_without_step() {
    let payload = block().start(1);
    assert_eq!(payload.history().transactions().len(), 0);
    assert_eq!(payload.history_sealed().len(), 1);
    assert_eq!(payload.history_staging().len(), 0);
    assert_eq!(payload.history_staging().transactions().len(), 0);
    // an empty payload stays as it is
    let payload = OptimismPrologue.finish(payload, 2);
    assert!(payload.is_empty());
}

#[test]
fn fails_on_non_empty_payload() {
    let payload = payload_of(&[tx(1, 0, 1)]);
    match OptimismPrologue.check_empty(&payload) {
        Err(PayloadBuilderError::Other(m)) => assert!(m.contains(
            "Optimism sequencer transactions must be at the top of the block. This payload already has 1 transaction(s)."
        )),
        other => panic!("unexpected {other:?}"),
    }
}

#[test]
fn sequencer_gas_over_limit_fails() {
    let root = block().start(1);
    let payload = root.apply(result(tx(9, 0, 0), ok(60_000)), 2);
    match OptimismPrologue.add_gas(SequencerGas(50_000), &payload, &ctx(ScopeLimits::with_gas_limit(100_000), None)) {
        Err(PayloadBuilderError::Other(m)) => {
            assert_eq!(m, "Sequencer transactions exceed block gas limit: 110000 > 100000")
        },
        other => panic!("unexpected {other:?}"),
    }
}

#[test]
fn skip_sequencer_prefix() {
    let seq = vec![tx(9, 0, 0), tx(9, 1, 0)];
    let txs = vec![tx(9, 0, 0), tx(9, 1, 0), tx(1, 0, 1)];
    assert_eq!(skip_sequencer_transactions(txs, &seq), vec![tx(1, 0, 1)]);
    let txs = vec![tx(1, 0, 1), tx(2, 0, 1)];
    assert_eq!(skip_sequencer_transactions(txs.clone(), &seq), txs);
    // a sequencer transaction further down is removed, the others stay
    let txs = vec![tx(1, 0, 1), tx(9, 1, 0), tx(2, 0, 1)];
    assert_eq!(skip_sequencer_transactions(txs, &seq), vec![tx(1, 0, 1), tx(2, 0, 1)]);
}

#[test]
fn atomic_mode_break_reverts() {
    let initial = payload_of(&[tx(1, 0, 1)]);
    let mode = AtomicMode;
    let c = ctx(ScopeLimits::with_gas_limit(1), None);
    assert!(mode.before_step(&initial, &c, 0).is_none());
    let next = initial.apply(result(tx(1, 1, 1), ok(1)), 5);
    let progress = mode.after_step(&initial, ControlFlow::Continue(next));
    let current = match progress {
        AtomicProgress::Next(cp) => cp,
        other => panic!("unexpected {other:?}"),
    };
    match mode.after_step(&initial, ControlFlow::Break(current)) {
        AtomicProgress::Done(ControlFlow::Break(cp)) => assert!(cp.same_as(&initial)),
        other => panic!("unexpected {other:?}"),
    }
}

#[test]
fn atomic_mode_fail_propagates() {
    let initial = payload_of(&[]);
    match AtomicMode.after_step(&initial, ControlFlow::Fail(PayloadBuilderError::MissingPayload)) {
        AtomicProgress::Done(ControlFlow::Fail(PayloadBuilderError::MissingPayload)) => {},
        other => panic!("unexpected {other:?}"),
    }
    let late = ctx(ScopeLimits::with_gas_limit(1).with_deadline(10), Some(0));
    match AtomicMode.finish(&initial, payload_of(&[tx(1, 0, 1)]), &late, 20) {
        ControlFlow::Break(cp) => assert!(cp.same_as(&initial)),
        other => panic!("unexpected {other:?}"),
    }
    assert!(matches!(TotalProfitOrdering.step(initial), ControlFlow::Continue(_)));
}

#[test]
fn bundle_truth_table() {
    let txs = vec![tx(1, 0, 1), tx(2, 0, 1), tx(3, 0, 1), tx(4, 0, 1)];
    let bundle = Bundle {
        transactions: txs.clone(),
        hash: 99,
        optional: vec![3000, 4000],
        allowed_to_fail: vec![2000],
    };
    let mut exec = BundleExecution::start(bundle, true).unwrap();
    assert_eq!(exec.next_transaction(), Some(txs[0]));
    exec.record(TxExecution::Executed(ok(1), vec![(1, 1)])).unwrap();
    // fails, allowed to fail: included
    exec.record(TxExecution::Executed(ExecOutcome::Revert { gas_used: 2 }, vec![(2, 2)])).unwrap();
    // fails, optional: discarded
    exec.record(TxExecution::Executed(ExecOutcome::Halt { gas_used: 3 }, vec![(3, 3)])).unwrap();
    // invalid, optional: discarded
    exec.record(TxExecution::Invalid("nonce too low".to_string())).unwrap();
    assert_eq!(exec.next_transaction(), None);
    let result = exec.finish().unwrap().unwrap();
    assert_eq!(result.transactions(), vec![txs[0], txs[1]]);
    assert_eq!(result.state(), &vec![(1, 1), (2, 2)]);
    assert_eq!(result.gas_used(), 3);

    let strict = Bundle { transactions: txs.clone(), hash: 1, optional: vec![], allowed_to_fail: vec![] };
    let mut exec = BundleExecution::start(strict, true).unwrap();
    assert!(matches!(
        exec.record(TxExecution::Executed(ExecOutcome::Revert { gas_used: 1 }, vec![])),
        Err(ExecutionError::BundleTransactionReverted(1000))
    ));
    let strict = Bundle { transactions: txs.clone(), hash: 1, optional: vec![], allowed_to_fail: vec![] };
    let mut exec = BundleExecution::start(strict, true).unwrap();
    match exec.record(TxExecution::Invalid("bad".to_string())) {
        Err(ExecutionError::InvalidBundleTransaction(1000, m)) => assert_eq!(m, "bad"),
        other => panic!("unexpected {other:?}"),
    }
    let b = Bundle { transactions: txs.clone(), hash: 1, optional: vec![], allowed_to_fail: vec![] };
    assert!(matches!(BundleExecution::start(b, false), Err(ExecutionError::IneligibleBundle)));

    let all_optional = Bundle { transactions: vec![tx(1, 0, 1)], hash: 1, optional: vec![1000], allowed_to_fail: vec![] };
    let mut exec = BundleExecution::start(all_optional, true).unwrap();
    exec.record(TxExecution::Invalid("x".to_string())).unwrap();
    assert!(matches!(exec.finish(), Some(Err(ExecutionError::EmptyBundle))));
}

#[test]
fn default_limits() {
    let b = block();
    let enclosing = ScopeLimits::with_gas_limit(20_000_000)
        .with_blob_params(BlobParams { target_blob_count: 3, max_blob_count: 1 });
    let eth = EthereumDefaultLimits::default().with_gas_limit(29_000_000);
    assert_eq!(eth.desired_gas_limit, Some(29_000_000));
    let l = eth.create(&b, Some(&enclosing), 29_000_000);
    assert_eq!(l.gas_limit, 20_000_000);
    assert_eq!(l.blob_params, Some(BlobParams { target_blob_count: 1, max_blob_count: 1 }));
    let l = eth.create(&b, None, 29_000_000);
    assert_eq!(l.gas_limit, 29_000_000);

    let op = OptimismDefaultLimits.create(&b, None, 998);
    assert_eq!(op.gas_limit, 25_000_000);
    assert_eq!(op.deadline_millis, Some(2_000));
    let op = OptimismDefaultLimits.create(&b, Some(&enclosing), 998);
    assert_eq!(op.gas_limit, 20_000_000);
}

#[test]
fn preselected_best_transactions() {
    let txs = vec![tx(1, 0, 1), tx(2, 0, 1), tx(1, 1, 1), tx(2, 1, 1)];
    let mut best = PreselectedBestTransactions::new(txs);
    assert_eq!(best.next(), Some(tx(1, 0, 1)));
    best.mark_invalid(&tx(2, 0, 1));
    assert_eq!(best.next(), Some(tx(1, 1, 1)));
    assert_eq!(best.next(), None);
}

#[test]
fn total_blobs_size_of_default_limits() {
    let limits = rblib::limits::StaticLimits { gas_limit: 30_000_000 };
    assert_eq!(rblib::limits::max_total_blobs_size(&limits), Some(128 * 1024 * 6));
}

#[test]
fn gathering_keeps_the_payload_within_the_gas_limit() {
    let step = GatherBestTransactions;
    let c = ctx(ScopeLimits::with_gas_limit(50_000), None);
    let payload = payload_of(&[tx(1, 0, 1)]);
    assert!(matches!(step.poll(&payload, &c, 5), GatherAction::Next));
    assert!(matches!(step.on_candidate(&payload, None, &c), GatherAction::Stop));
    let candidate = tx(2, 0, 1);
    match step.on_candidate(&payload, Some(candidate), &c) {
        GatherAction::Execute(t) => assert_eq!(t, candidate),
        other => panic!("unexpected {other:?}"),
    }
    // 21000 + 21000 fits in 50000: the result is kept
    let payload = step.on_executed(payload, Ok::<_, ()>(result(candidate, ok(21_000))), &c, 6);
    assert_eq!(payload.cumulative_gas_used(), 42_000);
    // 42000 + 21000 does not: the payload stays as it was
    let payload = step.on_executed(payload, Ok::<_, ()>(result(tx(3, 0, 1), ok(21_000))), &c, 7);
    assert_eq!(payload.cumulative_gas_used(), 42_000);
    // a failed execution changes nothing
    let payload = step.on_executed(payload, Err::<ExecutionResult, _>(()), &c, 8);
    assert_eq!(payload.cumulative_gas_used(), 42_000);
    assert_eq!(payload.checked_cumulative_gas_used(), Some(42_000));
    assert_eq!(payload.checked_cumulative_blob_gas_used(), Some(0));
    // at the limit the step stops
    let full = ctx(ScopeLimits::with_gas_limit(42_000), None);
    assert!(matches!(step.poll(&payload, &full, 9), GatherAction::Stop));
}

#[test]
fn append_one_continues_with_the_applied_candidate() {
    let mut step = AppendNewTransactionFromPool::new();
    let c = ctx(ScopeLimits::with_gas_limit(50_000), None);
    let payload = payload_of(&[tx(1, 0, 1)]);
    let payload = match step.start(payload, &c) {
        Appending::Next(p) => p,
        other => panic!("unexpected {other:?}"),
    };
    let candidate = tx(2, 0, 1);
    let payload = match step.on_candidate(payload, Some(candidate), &c, 5) {
        Appending::Execute(p, t) => {
            assert_eq!(t, candidate);
            p
        },
        other => panic!("unexpected {other:?}"),
    };
    let before = payload.duplicate();
    match step.on_executed(payload, candidate, Ok(result(candidate, ok(21_000))), &c, 6) {
        Appending::Done(ControlFlow::Continue(next)) => {
            assert!(next.prev().unwrap().same_as(&before));
            assert_eq!(next.transactions(), vec![candidate]);
        },
        other => panic!("unexpected {other:?}"),
    }
    // the candidate is now known as added: seen again, it is discarded
    let payload = payload_of(&[tx(1, 0, 1)]);
    match step.on_candidate(payload, Some(candidate), &c, 7) {
        Appending::Reject(_, t, Rejection::Discarded(d)) => {
            assert_eq!(t, candidate);
            assert_eq!(d, DiscardedByOtherSteps(candidate.hash));
        },
        other => panic!("unexpected {other:?}"),
    }
}

#[test]
fn append_one_breaks_and_rejects() {
    let mut step = AppendNewTransactionFromPool::new();
    let c = ctx(ScopeLimits::with_gas_limit(30_000), None);
    let payload = payload_of(&[tx(1, 0, 1)]);
    // an exhausted pool breaks with the payload as it is
    match step.on_candidate(payload.duplicate(), None, &c, 5) {
        Appending::Done(ControlFlow::Break(p)) => assert!(p.same_as(&payload)),
        other => panic!("unexpected {other:?}"),
    }
    // a candidate that would exceed the gas limit is rejected and the payload stays
    let candidate = tx(2, 0, 1);
    match step.on_executed(payload.duplicate(), candidate, Ok(result(candidate, ok(21_000))), &c, 6) {
        Appending::Reject(p, t, Rejection::ExceedsGasLimit { tx_gas_limit, block_gas_limit }) => {
            assert!(p.same_as(&payload));
            assert_eq!(t, candidate);
            assert_eq!(tx_gas_limit, 21_000);
            assert_eq!(block_gas_limit, 30_000);
        },
        other => panic!("unexpected {other:?}"),
    }
    // a failed execution fails the step
    match step.on_executed(payload.duplicate(), candidate, Err(PayloadBuilderError::Other("evm".to_string())), &c, 7) {
        Appending::Done(ControlFlow::Fail(PayloadBuilderError::Other(m))) => assert_eq!(m, "evm"),
        other => panic!("unexpected {other:?}"),
    }
    // a payload at its limits breaks at once
    let full = ctx(ScopeLimits::with_gas_limit(21_000), None);
    match step.start(payload.duplicate(), &full) {
        Appending::Done(ControlFlow::Break(p)) => assert!(p.same_as(&payload)),
        other => panic!("unexpected {other:?}"),
    }
}
