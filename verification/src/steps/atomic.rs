//! Composite steps that run their steps as one atomic unit, and ordering
//! steps that keep the payload as it is.

use crate::executor::ControlFlow;
use crate::payload::checkpoint::Checkpoint;
use crate::steps::context::{deadline_passed, StepContext};
use vstd::prelude::*;

verus! {

/// Runs the steps of a composite step in order as one unit: if one of them
/// breaks, or the deadline passes, the composite breaks with the payload it
/// started with; a failure fails the composite.
#[derive(Debug, Clone, Copy)]
pub struct AtomicMode;

/// Where an atomic run stands after one of its steps.
#[derive(Debug)]
pub enum AtomicProgress {
    /// Run the next step on this checkpoint.
    Next(Checkpoint),
    /// The composite step is done with this outcome.
    Done(ControlFlow),
}

impl AtomicMode {
    /// Before running the next step: when the deadline has passed, the
    /// composite breaks with its initial payload.
    pub fn before_step(&self, initial: &Checkpoint, ctx: &StepContext, now: u64) -> (r: Option<ControlFlow>)
        ensures
            deadline_passed(ctx.spec_limits(), ctx.spec_started_at(), now) ==> (r matches Some(ControlFlow::Break(c)) && c@ == initial@),
            !deadline_passed(ctx.spec_limits(), ctx.spec_started_at(), now) ==> r is None,
    {
        if ctx.deadline_reached(now) {
            Some(ControlFlow::Break(initial.duplicate()))
        } else {
            None
        }
    }

    /// After a step returned `output`: continue with its checkpoint, break
    /// with the initial payload when it broke, or fail with its error.
    pub fn after_step(&self, initial: &Checkpoint, output: ControlFlow) -> (r: AtomicProgress)
        ensures
            match output {
                ControlFlow::Continue(c) => r == AtomicProgress::Next(c),
                ControlFlow::Break(_) => r matches AtomicProgress::Done(ControlFlow::Break(c)) && c@ == initial@,
                ControlFlow::Fail(e) => r == AtomicProgress::Done(ControlFlow::Fail(e)),
            },
    {
        match output {
            ControlFlow::Continue(c) => AtomicProgress::Next(c),
            ControlFlow::Break(_) => AtomicProgress::Done(ControlFlow::Break(initial.duplicate())),
            ControlFlow::Fail(e) => AtomicProgress::Done(ControlFlow::Fail(e)),
        }
    }

    /// After the last step: the payload of the steps, or the initial payload
    /// with a break when the deadline has passed.
    pub fn finish(&self, initial: &Checkpoint, current: Checkpoint, ctx: &StepContext, now: u64) -> (r: ControlFlow)
        ensures
            deadline_passed(ctx.spec_limits(), ctx.spec_started_at(), now) ==> (r matches ControlFlow::Break(c) && c@ == initial@),
            !deadline_passed(ctx.spec_limits(), ctx.spec_started_at(), now) ==> r == ControlFlow::Continue(current),
    {
        if ctx.deadline_reached(now) {
            ControlFlow::Break(initial.duplicate())
        } else {
            ControlFlow::Continue(current)
        }
    }
}

/// Orders a payload by total profit; it keeps the payload as it is.
#[derive(Debug, Clone, Copy)]
pub struct TotalProfitOrdering;

impl TotalProfitOrdering {
    /// The step: continues with the payload unchanged.
    pub fn step(&self, payload: Checkpoint) -> (r: ControlFlow)
        ensures
            r == ControlFlow::Continue(payload),
    {
        ControlFlow::Continue(payload)
    }
}

} // verus!
