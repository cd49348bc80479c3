//! The decisions of the pipeline executor: which step runs first, which runs
//! after a step returned, and how a run ends.
//!
//! Running a step, and building the payload at the end, are work done by
//! the caller; each decision here takes the outcome of that work and says
//! what comes next.

use crate::navi::{entry, next_break, next_ok, points_at_step};
use crate::payload::block::BlockContext;
use crate::payload::checkpoint::{initial_history, Checkpoint};
use crate::pipeline::Pipeline;
use crate::scope::{active_chain, limits_renewed, scope_path, RootScope};
use crate::limits::ScopeLimits;
use crate::step_path::StepPath;
use crate::iter::{all_steps, StepPathIter};
use vstd::prelude::*;

verus! {

/// Why building a payload failed.
#[derive(Debug)]
pub enum PayloadBuilderError {
    /// The parent header of the block (by hash) is unknown.
    MissingParentHeader(u64),
    /// The parent block (by hash) is unknown.
    MissingParentBlock(u64),
    /// A channel to the payload builder service was closed.
    ChannelClosed,
    /// No payload was produced.
    MissingPayload,
    /// An internal error of the node, with its message.
    Internal(String),
    /// The EVM failed to execute a transaction, with its message.
    EvmExecutionError(String),
    /// Any other error, with its message.
    Other(String),
}

/// What `clone_payload_error_lossy` gives for an error: the same variant for
/// those that carry plain data, `Other` with the message for the rest.
pub open spec fn lossy_clone(e: PayloadBuilderError) -> PayloadBuilderError {
    match e {
        PayloadBuilderError::Internal(m) => PayloadBuilderError::Other(m),
        PayloadBuilderError::EvmExecutionError(m) => PayloadBuilderError::Other(m),
        _ => e,
    }
}

/// The message of an error that carries one.
pub open spec fn error_message(e: PayloadBuilderError) -> Option<Seq<char>> {
    match e {
        PayloadBuilderError::Internal(m) => Some(m@),
        PayloadBuilderError::EvmExecutionError(m) => Some(m@),
        PayloadBuilderError::Other(m) => Some(m@),
        _ => None,
    }
}

/// The same error kind and data: variants that carry a message are compared
/// by the message's text.
pub open spec fn same_error(a: PayloadBuilderError, b: PayloadBuilderError) -> bool {
    match (a, b) {
        (PayloadBuilderError::MissingParentHeader(x), PayloadBuilderError::MissingParentHeader(y)) => x == y,
        (PayloadBuilderError::MissingParentBlock(x), PayloadBuilderError::MissingParentBlock(y)) => x == y,
        (PayloadBuilderError::ChannelClosed, PayloadBuilderError::ChannelClosed) => true,
        (PayloadBuilderError::MissingPayload, PayloadBuilderError::MissingPayload) => true,
        (PayloadBuilderError::Internal(x), PayloadBuilderError::Internal(y)) => x@ == y@,
        (PayloadBuilderError::EvmExecutionError(x), PayloadBuilderError::EvmExecutionError(y)) => x@ == y@,
        (PayloadBuilderError::Other(x), PayloadBuilderError::Other(y)) => x@ == y@,
        _ => false,
    }
}

/// A copy of a payload builder error: errors that carry plain data are
/// copied as they are; internal and EVM errors become `Other` errors with
/// the same message.
pub fn clone_payload_error_lossy(error: &PayloadBuilderError) -> (r: PayloadBuilderError)
    ensures
        same_error(r, lossy_clone(*error)),
{
    match error {
        PayloadBuilderError::MissingParentHeader(h) => PayloadBuilderError::MissingParentHeader(*h),
        PayloadBuilderError::MissingParentBlock(h) => PayloadBuilderError::MissingParentBlock(*h),
        PayloadBuilderError::ChannelClosed => PayloadBuilderError::ChannelClosed,
        PayloadBuilderError::MissingPayload => PayloadBuilderError::MissingPayload,
        PayloadBuilderError::Internal(m) => PayloadBuilderError::Other(m.clone()),
        PayloadBuilderError::EvmExecutionError(m) | PayloadBuilderError::Other(m) => PayloadBuilderError::Other(m.clone()),
    }
}

/// Copying an error twice loses nothing more than copying it once.
pub proof fn lemma_lossy_clone_idempotent(e: PayloadBuilderError)
    ensures
        lossy_clone(lossy_clone(e)) == lossy_clone(e),
        error_message(lossy_clone(e)) == error_message(e),
{
}

/// What a step returns: a failure, or the checkpoint to carry on with,
/// either breaking out of its pipeline or continuing.
#[derive(Debug)]
pub enum ControlFlow {
    /// Terminates the whole pipeline run with an error; no payload is built.
    Fail(PayloadBuilderError),
    /// Stops the enclosing pipeline's steps with this checkpoint: a loop
    /// stops and its epilogue runs; breaking out of a prologue step leaves
    /// the enclosing pipeline; breaking out of an epilogue step has the
    /// effect of `Continue`.
    Break(Checkpoint),
    /// Continues with the next step and this checkpoint.
    Continue(Checkpoint),
}

/// The kind of a control flow value.
#[derive(Debug, Clone, Copy, PartialEq, Eq, Structural)]
pub enum ControlFlowKind {
    /// `ControlFlow::Continue`.
    Continue,
    /// `ControlFlow::Break`.
    Break,
    /// `ControlFlow::Fail`.
    Fail,
}

impl ControlFlow {
    /// The checkpoint of a `Continue` or a `Break`; the value itself back for a
    /// `Fail`.
    pub fn try_into_payload(self) -> (r: Result<Checkpoint, ControlFlow>)
        ensures
            match self {
                ControlFlow::Continue(c) => r == Ok::<Checkpoint, ControlFlow>(c),
                ControlFlow::Break(c) => r == Ok::<Checkpoint, ControlFlow>(c),
                ControlFlow::Fail(_) => r == Err::<Checkpoint, ControlFlow>(self),
            },
    {
        match self {
            ControlFlow::Continue(c) | ControlFlow::Break(c) => Ok(c),
            ControlFlow::Fail(_) => Err(self),
        }
    }

    /// The error of a `Fail`; the value itself back otherwise.
    pub fn try_into_fail(self) -> (r: Result<PayloadBuilderError, ControlFlow>)
        ensures
            match self {
                ControlFlow::Fail(e) => r == Ok::<PayloadBuilderError, ControlFlow>(e),
                _ => r == Err::<PayloadBuilderError, ControlFlow>(self),
            },
    {
        match self {
            ControlFlow::Fail(e) => Ok(e),
            _ => Err(self),
        }
    }

    /// Whether this is a `Break`.
    pub fn is_break(&self) -> (r: bool)
        ensures
            r == (*self is Break),
    {
        matches!(self, ControlFlow::Break(_))
    }

    /// Whether this is a `Fail`.
    pub fn is_fail(&self) -> (r: bool)
        ensures
            r == (*self is Fail),
    {
        matches!(self, ControlFlow::Fail(_))
    }

    /// Whether this is a `Continue`.
    pub fn is_ok(&self) -> (r: bool)
        ensures
            r == (*self is Continue),
    {
        matches!(self, ControlFlow::Continue(_))
    }

    /// The kind of this value.
    pub fn kind(&self) -> (r: ControlFlowKind)
        ensures
            match self {
                ControlFlow::Continue(_) => r == ControlFlowKind::Continue,
                ControlFlow::Break(_) => r == ControlFlowKind::Break,
                ControlFlow::Fail(_) => r == ControlFlowKind::Fail,
            },
    {
        match self {
            ControlFlow::Continue(_) => ControlFlowKind::Continue,
            ControlFlow::Break(_) => ControlFlowKind::Break,
            ControlFlow::Fail(_) => ControlFlowKind::Fail,
        }
    }
}

/// Where a pipeline run stands between two steps.
#[derive(Debug)]
pub enum Cursor {
    /// The step at this path runs next, with this checkpoint as input.
    BeforeStep(StepPath, Checkpoint),
    /// The run is over: build the payload from this checkpoint, or fail with
    /// this error.
    Finalizing(Result<Checkpoint, PayloadBuilderError>),
}

/// Published when a payload job starts, with the block it builds.
#[derive(Debug)]
pub struct PayloadJobStarted(pub BlockContext);

/// Published when a payload job has built its payload.
#[derive(Debug, Clone, Copy, PartialEq, Eq, Structural)]
pub struct PayloadJobCompleted {
    /// The payload id of the job.
    pub payload_id: u64,
}

/// Published when a payload job failed.
#[derive(Debug)]
pub struct PayloadJobFailed {
    /// The payload id of the job.
    pub payload_id: u64,
    /// Why it failed.
    pub error: PayloadBuilderError,
}

/// Published when a pipeline is dropped.
#[derive(Debug, Clone, Copy, PartialEq, Eq, Structural)]
pub struct PipelineDropped;

/// The event that ends a payload job.
#[derive(Debug)]
pub enum JobEnded {
    /// The job built its payload.
    Completed(PayloadJobCompleted),
    /// The job failed.
    Failed(PayloadJobFailed),
}

/// The event that a payload job ends with, from its outcome: `Completed`
/// when it built a payload, `Failed` with its error otherwise.
pub fn job_ended<T>(payload_id: u64, outcome: Result<T, PayloadBuilderError>) -> (r: JobEnded)
    ensures
        match outcome {
            Ok(_) => r == JobEnded::Completed(PayloadJobCompleted { payload_id }),
            Err(e) => r == JobEnded::Failed(PayloadJobFailed { payload_id, error: e }),
        },
{
    match outcome {
        Ok(_) => JobEnded::Completed(PayloadJobCompleted { payload_id }),
        Err(e) => JobEnded::Failed(PayloadJobFailed { payload_id, error: e }),
    }
}

/// What follows in the preparation of a run, before any step runs.
#[derive(Debug)]
pub enum BeforeJob {
    /// Call `before_job` of the step at this path.
    Call(StepPath),
    /// A `before_job` call failed: no further step is prepared and the run
    /// ends with its error.
    Failed(PayloadBuilderError),
    /// Every step was prepared: the run can start.
    Finished,
}

/// The preparation of a run: the `before_job` of every step of the
/// pipeline, nested ones included, is called in traversal order, until one
/// fails.
pub struct BeforeJobs {
    steps: StepPathIter,
}

impl BeforeJobs {
    /// The steps whose `before_job` is still to be called.
    pub closed spec fn spec_remaining(&self) -> Seq<Seq<usize>> {
        self.steps.remaining()
    }

    /// What follows the previous `before_job` call, whose outcome is
    /// `previous` (`Ok(())` before the first call): its error ends the
    /// preparation, and no later step is prepared; otherwise the next
    /// step's `before_job` is called, or, when every step has had its call,
    /// the preparation is over.
    pub fn next(&mut self, previous: Result<(), PayloadBuilderError>) -> (r: BeforeJob)
        ensures
            match previous {
                Err(e) => r == BeforeJob::Failed(e) && final(self).spec_remaining() == old(self).spec_remaining(),
                Ok(_) => if old(self).spec_remaining().len() == 0 {
                    r is Finished && final(self).spec_remaining() == old(self).spec_remaining()
                } else {
                    r matches BeforeJob::Call(p) && p@ == old(self).spec_remaining()[0]
                        && final(self).spec_remaining() == old(self).spec_remaining().drop_first()
                },
            },
    {
        match previous {
            Err(e) => BeforeJob::Failed(e),
            Ok(()) => match self.steps.next() {
                Some(p) => BeforeJob::Call(p),
                None => BeforeJob::Finished,
            },
        }
    }
}

/// What follows in the after-job phase of a run, once the steps are done.
#[derive(Debug)]
pub enum AfterJob {
    /// Call `after_job` of the step at this path with the run's output.
    Call(StepPath),
    /// An `after_job` call failed: the whole job fails with its error.
    Failed(PayloadBuilderError),
    /// Every step's `after_job` succeeded: the run can be finalized.
    Finished,
}

/// The after-job phase of a run: the `after_job` of every step of the
/// pipeline, nested ones included, is called in traversal order with the
/// run's output, until one fails.
pub struct AfterJobs {
    steps: StepPathIter,
    output: Result<Checkpoint, PayloadBuilderError>,
}

impl AfterJobs {
    /// The steps whose `after_job` is still to be called.
    pub closed spec fn spec_remaining(&self) -> Seq<Seq<usize>> {
        self.steps.remaining()
    }

    /// The output of the run, handed to every `after_job` call.
    pub closed spec fn spec_output(&self) -> Result<Checkpoint, PayloadBuilderError> {
        self.output
    }

    /// The output of the run, handed to every `after_job` call.
    pub fn output(&self) -> (r: &Result<Checkpoint, PayloadBuilderError>)
        ensures
            *r == self.spec_output(),
    {
        &self.output
    }

    /// What follows the previous `after_job` call, whose outcome is
    /// `previous` (`Ok(())` before the first call): its error fails the
    /// job; otherwise the next step's `after_job` is called, or, when every
    /// step has had its call, the phase is over.
    pub fn next(&mut self, previous: Result<(), PayloadBuilderError>) -> (r: AfterJob)
        ensures
            final(self).spec_output() == old(self).spec_output(),
            match previous {
                Err(e) => r == AfterJob::Failed(e) && final(self).spec_remaining() == old(self).spec_remaining(),
                Ok(_) => if old(self).spec_remaining().len() == 0 {
                    r is Finished && final(self).spec_remaining() == old(self).spec_remaining()
                } else {
                    r matches AfterJob::Call(p) && p@ == old(self).spec_remaining()[0]
                        && final(self).spec_remaining() == old(self).spec_remaining().drop_first()
                },
            },
    {
        match previous {
            Err(e) => AfterJob::Failed(e),
            Ok(()) => match self.steps.next() {
                Some(p) => AfterJob::Call(p),
                None => AfterJob::Finished,
            },
        }
    }

    /// The output of the run, once the phase is over.
    pub fn into_output(self) -> (r: Result<Checkpoint, PayloadBuilderError>)
        ensures
            r == self.spec_output(),
    {
        self.output
    }
}

/// Runs one top-level pipeline for one payload job: it keeps the scopes of
/// the pipeline and decides the order of the steps.
pub struct PipelineExecutor<'a> {
    pipeline: &'a Pipeline,
    scope: RootScope<'a>,
}

impl<'a> PipelineExecutor<'a> {
    /// The pipeline that runs.
    pub closed spec fn spec_pipeline(&self) -> Pipeline {
        *self.pipeline
    }

    /// The scopes of the run.
    pub closed spec fn spec_scope(&self) -> RootScope<'a> {
        self.scope
    }

    /// The executor's scopes belong to its pipeline, and are consistent.
    pub closed spec fn wf(&self) -> bool {
        &&& self.pipeline.well_formed()
        &&& self.scope.wf()
        &&& self.scope.spec_pipeline() == *self.pipeline
    }

    /// An executor for a new payload job on `pipeline`, with the platform's
    /// limits as the outermost bound; no scope is active yet.
    pub fn run(pipeline: &'a Pipeline, platform_limits: &ScopeLimits) -> (r: Self)
        requires
            pipeline.well_formed(),
        ensures
            r.wf(),
            r.spec_pipeline() == *pipeline,
            !(r.spec_scope().spec_root().entered_at is Some),
    {
        let scope = RootScope::new(pipeline, platform_limits);
        PipelineExecutor { pipeline, scope }
    }

    /// The scopes of the run.
    pub fn scope(&self) -> (r: &RootScope<'a>)
        ensures
            *r == self.spec_scope(),
    {
        &self.scope
    }

    /// Starts the job: enters the scope of the top-level pipeline.
    pub fn initialize(&mut self, now: u64)
        requires
            old(self).wf(),
            !(old(self).spec_scope().spec_root().entered_at is Some),
        ensures
            final(self).wf(),
            final(self).spec_pipeline() == old(self).spec_pipeline(),
            final(self).spec_scope().spec_root().entered_at == Some(now),
    {
        self.scope.enter(now);
    }

    /// What comes after the steps prepared for the job (their `before_job`):
    /// on success the first step of the run; on failure the run ends with
    /// that error, and no step runs.
    pub fn initialized(&self, outcome: Result<(), PayloadBuilderError>, block: BlockContext, now: u64) -> (r: Cursor)
        requires
            self.wf(),
        ensures
            match outcome {
                Ok(_) => match r {
                    Cursor::BeforeStep(path, c) => entry(self.spec_pipeline()) == Some(path@)
                        && c@ == initial_history(now) && c.spec_block() == block,
                    Cursor::Finalizing(Ok(c)) => entry(self.spec_pipeline()) is None
                        && c@ == initial_history(now) && c.spec_block() == block,
                    Cursor::Finalizing(Err(_)) => false,
                },
                Err(e) => r == Cursor::Finalizing(Err(e)),
            },
    {
        match outcome {
            Ok(()) => self.first_step(block, now),
            Err(e) => Cursor::Finalizing(Err(e)),
        }
    }

    /// The first step of the run, with the initial checkpoint of the payload
    /// on `block` as its input; when the pipeline has no step to run, the
    /// run is over and the payload is built from that checkpoint.
    pub fn first_step(&self, block: BlockContext, now: u64) -> (r: Cursor)
        requires
            self.wf(),
        ensures
            match r {
                Cursor::BeforeStep(path, c) => entry(self.spec_pipeline()) == Some(path@)
                    && c@ == initial_history(now) && c.spec_block() == block,
                Cursor::Finalizing(Ok(c)) => entry(self.spec_pipeline()) is None
                    && c@ == initial_history(now) && c.spec_block() == block,
                Cursor::Finalizing(Err(_)) => false,
            },
    {
        let start = block.start(now);
        match crate::navi::StepNavigator::entrypoint(self.pipeline) {
            Some(nav) => Cursor::BeforeStep(nav.0, start),
            None => Cursor::Finalizing(Ok(start)),
        }
    }

    /// What comes after the step at `current_path` returned `output`: a
    /// failure ends the run with its error; otherwise the next step after a
    /// `Continue` or a `Break` runs with the returned checkpoint, after switching
    /// to its scope, or, when there is none, the run is over and the payload
    /// is built from that checkpoint.
    pub fn advance_cursor(&mut self, current_path: &StepPath, output: ControlFlow, now: u64) -> (r: Cursor)
        requires
            old(self).wf(),
            old(self).spec_scope().spec_root().entered_at is Some,
            points_at_step(old(self).spec_pipeline(), current_path@),
        ensures
            final(self).wf(),
            final(self).spec_pipeline() == old(self).spec_pipeline(),
            final(self).spec_scope().spec_root().entered_at is Some,
            match output {
                ControlFlow::Fail(e) => r == Cursor::Finalizing(Err(e)) && final(self).spec_scope() == old(self).spec_scope(),
                ControlFlow::Continue(c) => match next_ok(old(self).spec_pipeline(), current_path@) {
                    Some(n) => r matches Cursor::BeforeStep(p, c2) && p@ == n && c2 == c
                        && final(self).spec_scope().spec_current() == scope_path(n)
                        && active_chain(final(self).spec_scope().spec_root(), scope_path(n))
                        && limits_renewed(final(self).spec_scope().spec_root(), scope_path(n)),
                    None => r == Cursor::Finalizing(Ok(c)) && final(self).spec_scope() == old(self).spec_scope(),
                },
                ControlFlow::Break(c) => match next_break(old(self).spec_pipeline(), current_path@) {
                    Some(n) => r matches Cursor::BeforeStep(p, c2) && p@ == n && c2 == c
                        && final(self).spec_scope().spec_current() == scope_path(n)
                        && active_chain(final(self).spec_scope().spec_root(), scope_path(n))
                        && limits_renewed(final(self).spec_scope().spec_root(), scope_path(n)),
                    None => r == Cursor::Finalizing(Ok(c)) && final(self).spec_scope() == old(self).spec_scope(),
                },
            },
    {
        proof {
            crate::navi::lemma_navigator_round_trip(*self.pipeline, current_path@);
        }
        let navigator = current_path.navigator(self.pipeline);
        let navigator = match navigator {
            Some(n) => n,
            None => {
                return match output {
                    ControlFlow::Fail(e) => Cursor::Finalizing(Err(e)),
                    ControlFlow::Continue(c) | ControlFlow::Break(c) => Cursor::Finalizing(Ok(c)),
                };
            },
        };
        let (step, input) = match output {
            ControlFlow::Fail(e) => {
                return Cursor::Finalizing(Err(e));
            },
            ControlFlow::Break(c) => (navigator.next_break(), c),
            ControlFlow::Continue(c) => (navigator.next_ok(), c),
        };
        match step {
            None => Cursor::Finalizing(Ok(input)),
            Some(step) => {
                proof {
                    let n = step.0@;
                    assert(n.take(n.len() - 1) =~= n.drop_last());
                    if n.len() <= 1 {
                        assert(scope_path(n) =~= Seq::<usize>::empty());
                        assert(n.drop_last() =~= Seq::<usize>::empty());
                    }
                }
                self.scope.switch_context(&step.0, now);
                Cursor::BeforeStep(step.0, input)
            },
        }
    }

    /// The preparation of the run: every step of the pipeline, in traversal
    /// order, is due its `before_job` call.
    pub fn before_jobs(&self) -> (r: BeforeJobs)
        requires
            self.wf(),
        ensures
            r.spec_remaining() == all_steps(self.spec_pipeline()),
    {
        BeforeJobs { steps: self.pipeline.iter_steps() }
    }

    /// The after-job phase for the run's output: every step of the
    /// pipeline, in traversal order, is due its `after_job` call with the
    /// output, errors copied by `clone_payload_error_lossy`.
    pub fn after_jobs(&self, output: Result<Checkpoint, PayloadBuilderError>) -> (r: AfterJobs)
        requires
            self.wf(),
        ensures
            r.spec_remaining() == all_steps(self.spec_pipeline()),
            match output {
                Ok(c) => r.spec_output() == Ok::<Checkpoint, PayloadBuilderError>(c),
                Err(e) => r.spec_output() matches Err(e2) && same_error(e2, lossy_clone(e)),
            },
    {
        let steps = self.pipeline.iter_steps();
        let output = match output {
            Ok(c) => Ok(c),
            Err(e) => Err(clone_payload_error_lossy(&e)),
        };
        AfterJobs { steps, output }
    }

    /// Ends the run: leaves the scopes that are still active and gives the
    /// outcome of the run, with errors copied by `clone_payload_error_lossy`.
    pub fn finalize(&mut self, output: Result<Checkpoint, PayloadBuilderError>, now: u64)
        -> (r: Result<Checkpoint, PayloadBuilderError>)
        requires
            old(self).wf(),
        ensures
            final(self).wf(),
            final(self).spec_pipeline() == old(self).spec_pipeline(),
            !(final(self).spec_scope().spec_root().entered_at is Some),
            match output {
                Ok(c) => r == Ok::<Checkpoint, PayloadBuilderError>(c),
                Err(e) => r matches Err(e2) && same_error(e2, lossy_clone(e)),
            },
    {
        if self.scope.is_active() {
            self.scope.leave(now);
        }
        match output {
            Ok(c) => Ok(c),
            Err(e) => Err(clone_payload_error_lossy(&e)),
        }
    }
}

} // verus!
