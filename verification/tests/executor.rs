use rblib::executor::{clone_payload_error_lossy, AfterJob, BeforeJob, ControlFlow, ControlFlowKind, Cursor, PayloadBuilderError, PipelineExecutor};
use rblib::limits::{BlobParams, ScopeLimits};
use rblib::payload::block::BlockContext;
use rblib::pipeline::{Behavior, Pipeline, StepInstance};
use rblib::scope::{scope_of, RootScope, Scope};
use rblib::step_path::StepPath;

fn block() -> BlockContext {
    BlockContext {
        payload_id: 1,
        parent_number: 10,
        parent_hash: 2,
        parent_gas_limit: 1_000,
        gas_limit: None,
        timestamp: 100,
        base_fee: 1,
        blob_fee: None,
        blob_params: None,
        coinbase: 3,
        sequencer_txs: Vec::new(),
    }
}

fn step(name: &str) -> StepInstance {
    StepInstance::named(name)
}

fn limits(gas: u64) -> ScopeLimits {
    ScopeLimits::with_gas_limit(gas)
}

fn pipeline() -> Pipeline {
    Pipeline::named("top")
        .with_step(step("A"))
        .with_pipeline(
            Behavior::Loop,
            Pipeline::named("inner").with_step(step("B")).with_step(step("C")).with_limits(limits(500)),
        )
        .with_step(step("D"))
        .with_limits(limits(800))
}

#[test]
fn clone_payload_error_lossy_keeps_plain_errors() {
    assert!(matches!(
        clone_payload_error_lossy(&PayloadBuilderError::MissingParentHeader(5)),
        PayloadBuilderError::MissingParentHeader(5)
    ));
    assert!(matches!(clone_payload_error_lossy(&PayloadBuilderError::ChannelClosed), PayloadBuilderError::ChannelClosed));
    match clone_payload_error_lossy(&PayloadBuilderError::Internal("db".to_string())) {
        PayloadBuilderError::Other(m) => assert_eq!(m, "db"),
        other => panic!("unexpected {other:?}"),
    }
    match clone_payload_error_lossy(&PayloadBuilderError::EvmExecutionError("nonce".to_string())) {
        PayloadBuilderError::Other(m) => assert_eq!(m, "nonce"),
        other => panic!("unexpected {other:?}"),
    }
}

#[test]
fn control_flow_accessors() {
    let cp = block().start(1);
    let ok = ControlFlow::Continue(cp);
    assert!(ok.is_ok());
    assert_eq!(ok.kind(), ControlFlowKind::Continue);
    assert!(ok.try_into_payload().is_ok());
    let fail = ControlFlow::Fail(PayloadBuilderError::MissingPayload);
    assert!(fail.is_fail());
    assert_eq!(fail.kind(), ControlFlowKind::Fail);
    assert!(fail.try_into_fail().is_ok());
    let brk = ControlFlow::Break(block().start(2));
    assert!(brk.is_break());
    assert!(brk.try_into_fail().is_err());
}

#[test]
fn executor_runs_steps_in_order_and_switches_scopes() {
    let p = pipeline();
    let platform = limits(1_000);
    let mut exec = PipelineExecutor::run(&p, &platform);
    assert!(!exec.scope().is_active());
    exec.initialize(10);
    assert!(exec.scope().is_active());

    let (path, cp) = match exec.first_step(block(), 11) {
        Cursor::BeforeStep(path, cp) => (path, cp),
        other => panic!("unexpected {other:?}"),
    };
    assert_eq!(path, StepPath::step(0));
    assert_eq!(cp.created_at(), 11);

    // A continues into the loop: the inner scope is entered with its own limits
    let (path, cp) = match exec.advance_cursor(&path, ControlFlow::Continue(cp), 12) {
        Cursor::BeforeStep(path, cp) => (path, cp),
        other => panic!("unexpected {other:?}"),
    };
    assert_eq!(path, StepPath::step(1).concat(StepPath::step(0)));
    assert_eq!(exec.scope().limits_of(&path).unwrap().gas_limit, 500);
    assert_eq!(exec.scope().entered_at(&path), Some(12));
    assert_eq!(exec.scope().limits_of(&StepPath::step(0)).unwrap().gas_limit, 800);

    let (path, cp) = match exec.advance_cursor(&path, ControlFlow::Continue(cp), 13) {
        Cursor::BeforeStep(path, cp) => (path, cp),
        other => panic!("unexpected {other:?}"),
    };
    assert_eq!(path, StepPath::step(1).concat(StepPath::step(1)));
    // C loops back to B, staying in the inner scope
    let (path, cp) = match exec.advance_cursor(&path, ControlFlow::Continue(cp), 14) {
        Cursor::BeforeStep(path, cp) => (path, cp),
        other => panic!("unexpected {other:?}"),
    };
    assert_eq!(path, StepPath::step(1).concat(StepPath::step(0)));
    assert_eq!(exec.scope().entered_at(&path), Some(12));
    // B breaks out of the loop: the inner scope is left
    let (path, cp) = match exec.advance_cursor(&path, ControlFlow::Break(cp), 15) {
        Cursor::BeforeStep(path, cp) => (path, cp),
        other => panic!("unexpected {other:?}"),
    };
    assert_eq!(path, StepPath::step(2));
    // the inner scope is no longer active, but remembers when it was entered
    assert_eq!(exec.scope().entered_at(&StepPath::step(1).concat(StepPath::step(0))), Some(12));
    // D is the last step: the run is over
    let out = match exec.advance_cursor(&path, ControlFlow::Continue(cp), 16) {
        Cursor::Finalizing(out) => out,
        other => panic!("unexpected {other:?}"),
    };
    let out = exec.finalize(out, 17);
    assert!(out.is_ok());
    assert!(!exec.scope().is_active());
}

#[test]
fn executor_fails_on_failed_step() {
    let p = pipeline();
    let platform = limits(1_000);
    let mut exec = PipelineExecutor::run(&p, &platform);
    exec.initialize(1);
    let out = exec.advance_cursor(&StepPath::step(0), ControlFlow::Fail(PayloadBuilderError::Internal("boom".to_string())), 2);
    let out = match out {
        Cursor::Finalizing(out) => out,
        other => panic!("unexpected {other:?}"),
    };
    match exec.finalize(out, 3) {
        Err(PayloadBuilderError::Other(m)) => assert_eq!(m, "boom"),
        other => panic!("unexpected {other:?}"),
    }
}

#[test]
fn empty_pipeline_builds_empty_payload() {
    let p = Pipeline::named("empty");
    let platform = limits(1_000);
    let mut exec = PipelineExecutor::run(&p, &platform);
    exec.initialize(1);
    match exec.first_step(block(), 2) {
        Cursor::Finalizing(Ok(cp)) => assert!(cp.is_empty()),
        other => panic!("unexpected {other:?}"),
    }
}

#[test]
fn scopes_nest_and_clamp_limits() {
    let p = pipeline();
    let platform = limits(600).with_blob_params(BlobParams { target_blob_count: 1, max_blob_count: 2 });
    let mut root = RootScope::new(&p, &platform);
    // the root scope's own limits (800) are held within the platform's (600)
    assert_eq!(root.limits_of(&StepPath::step(0)).unwrap().gas_limit, 600);
    root.enter(5);
    let inner_step = StepPath::step(1).concat(StepPath::step(1));
    root.switch_context(&inner_step, 6);
    let inner = root.limits_of(&inner_step).unwrap();
    assert_eq!(inner.gas_limit, 500);
    assert_eq!(inner.blob_params, Some(BlobParams { target_blob_count: 1, max_blob_count: 2 }));
    root.switch_context(&StepPath::step(2), 7);
    assert_eq!(root.entered_at(&inner_step), Some(6));
    assert_eq!(root.entered_at(&StepPath::step(2)), Some(5));
    root.leave(8);
    assert!(!root.is_active());
    // the most recent entry is kept after leaving
    assert_eq!(root.entered_at(&StepPath::step(2)), Some(5));
    root.enter(9);
    assert_eq!(root.entered_at(&StepPath::step(2)), Some(9));
    assert_eq!(scope_of(&inner_step), StepPath::step(1));
    assert_eq!(scope_of(&StepPath::step(3)), StepPath::empty());
}

#[test]
fn scope_accessors() {
    let p = pipeline();
    let mut s = Scope::rooted_at(&p, &limits(1_000));
    assert_eq!(s.name, "top_pipeline");
    match &s.nested[1] {
        Some(inner) => assert_eq!(inner.name, "top_pipeline_2"),
        None => panic!("missing nested scope"),
    }
    assert!(!s.is_active());
    assert_eq!(s.elapsed(5), None);
    assert_eq!(s.started_at(), None);
    s.entered_at = Some(3);
    s.last_entered = Some(3);
    assert_eq!(s.started_at(), Some(3));
    assert_eq!(s.elapsed(10), Some(7));
    assert_eq!(s.elapsed(1), Some(0));
    assert_eq!(s.leave(9), 6);
    assert!(!s.is_active());
    // the most recent entry is still known once the scope is left
    assert_eq!(s.started_at(), Some(3));
    assert_eq!(s.limits().gas_limit, 800);
}

#[test]
fn after_job_runs_for_every_step_in_order() {
    let p = pipeline();
    let platform = limits(1_000);
    let mut exec = PipelineExecutor::run(&p, &platform);
    exec.initialize(1);
    let start = block().start(2);
    let mut after = exec.after_jobs(Ok(start));
    let mut visited = Vec::new();
    let mut previous = Ok(());
    loop {
        match after.next(previous) {
            AfterJob::Call(path) => {
                assert!(after.output().is_ok());
                visited.push(path);
                previous = Ok(());
            },
            AfterJob::Failed(_) => panic!("no call failed"),
            AfterJob::Finished => break,
        }
    }
    let inner = StepPath::step(1);
    assert_eq!(
        visited,
        vec![StepPath::step(0), inner.clone().concat(StepPath::step(0)), inner.concat(StepPath::step(1)), StepPath::step(2)]
    );
    assert!(exec.finalize(after.into_output(), 3).is_ok());
    assert!(!exec.scope().is_active());
}

#[test]
fn failed_after_job_fails_the_job() {
    let p = pipeline();
    let platform = limits(1_000);
    let exec = PipelineExecutor::run(&p, &platform);
    let mut after = exec.after_jobs(Ok(block().start(2)));
    match after.next(Ok(())) {
        AfterJob::Call(path) => assert_eq!(path, StepPath::step(0)),
        other => panic!("unexpected {other:?}"),
    }
    match after.next(Err(PayloadBuilderError::Other("after".to_string()))) {
        AfterJob::Failed(PayloadBuilderError::Other(m)) => assert_eq!(m, "after"),
        other => panic!("unexpected {other:?}"),
    }
}

#[test]
fn well_formed_pipelines_are_recognised() {
    assert!(pipeline().is_well_formed());
    assert!(Pipeline::named("empty").is_well_formed());
}

#[test]
fn before_job_stops_at_the_first_failure() {
    let p = pipeline();
    let platform = limits(1_000);
    let exec = PipelineExecutor::run(&p, &platform);
    let mut before = exec.before_jobs();
    match before.next(Ok(())) {
        BeforeJob::Call(path) => assert_eq!(path, StepPath::step(0)),
        other => panic!("unexpected {other:?}"),
    }
    match before.next(Ok(())) {
        BeforeJob::Call(path) => assert_eq!(path, StepPath::step(1).concat(StepPath::step(0))),
        other => panic!("unexpected {other:?}"),
    }
    match before.next(Err(PayloadBuilderError::ChannelClosed)) {
        BeforeJob::Failed(PayloadBuilderError::ChannelClosed) => {},
        other => panic!("unexpected {other:?}"),
    }
    let mut all = exec.before_jobs();
    let mut count = 0;
    let mut previous = Ok(());
    loop {
        match all.next(previous) {
            BeforeJob::Call(_) => count += 1,
            BeforeJob::Failed(_) => panic!("no call failed"),
            BeforeJob::Finished => break,
        }
        previous = Ok(());
    }
    assert_eq!(count, 4);
}
