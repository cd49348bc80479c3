//! Pipelines: declarative descriptions of the steps that build a payload.

use crate::limits::ScopeLimits;
use crate::step_path::{EPILOGUE_START_INDEX, STEP0_INDEX};
use vstd::prelude::*;

verus! {

/// How a nested pipeline runs: once, or in a loop until a step breaks out.
#[derive(Debug, Clone, Copy, PartialEq, Eq, Structural)]
pub enum Behavior {
    /// The nested pipeline runs its steps once.
    Once,
    /// The nested pipeline runs its steps repeatedly until a step breaks.
    Loop,
}

/// A step as it is held by a pipeline: its name and the metric scope name
/// that it is given once the pipeline becomes a service.
#[derive(Debug)]
pub struct StepInstance {
    pretty: String,
    metrics: Option<String>,
}

impl StepInstance {
    /// The name of the step.
    pub closed spec fn spec_name(&self) -> Seq<char> {
        self.pretty@
    }

    /// The metric scope name, once initialized.
    pub closed spec fn spec_metric(&self) -> Option<Seq<char>> {
        match self.metrics {
            Some(m) => Some(m@),
            None => None,
        }
    }

    /// A step whose type has the full name `full_name`; the step's name is
    /// its short form (see `short_type_name`).
    pub fn new(full_name: &str) -> (r: Self)
        requires
            crate::name::short_ok(full_name@, 0),
        ensures
            r.spec_name() == crate::name::short_from(full_name@, 0),
            r.spec_metric() is None,
    {
        StepInstance { pretty: crate::name::short_type_name(full_name), metrics: None }
    }

    /// A step with the given (already shortened) name.
    pub fn named(name: &str) -> (r: Self)
        ensures
            r.spec_name() == name@,
            r.spec_metric() is None,
    {
        StepInstance { pretty: name.to_string(), metrics: None }
    }

    /// The name of the type that implements this step.
    pub fn name(&self) -> (r: &str)
        ensures
            r@ == self.spec_name(),
    {
        self.pretty.as_str()
    }

    /// Whether the metric scope name has been initialized.
    pub fn has_metrics(&self) -> (r: bool)
        ensures
            r == self.spec_metric() is Some,
    {
        self.metrics.is_some()
    }

    /// Assigns the metric scope name of this step. It may be assigned once.
    pub fn init_metrics(&mut self, name: &str)
        requires
            old(self).spec_metric() is None,
        ensures
            final(self).spec_metric() == Some(name@),
            final(self).spec_name() == old(self).spec_name(),
    {
        self.metrics = Some(name.to_string());
    }
}

/// An item of a pipeline: a step or a nested pipeline with its behavior.
#[derive(Debug)]
pub enum StepOrPipeline {
    /// A step.
    Step(StepInstance),
    /// A nested pipeline.
    Pipeline(Behavior, Pipeline),
}

/// A pipeline: an optional prologue and epilogue (each a list of steps), a
/// list of steps and nested pipelines, optional limits for its scope, and a
/// name.
#[derive(Debug)]
pub struct Pipeline {
    /// Steps that run after the steps of the pipeline, in order.
    pub epilogue: Vec<StepInstance>,
    /// Steps that run before the steps of the pipeline, in order.
    pub prologue: Vec<StepInstance>,
    /// The steps and nested pipelines, in order.
    pub steps: Vec<StepOrPipeline>,
    /// The limits of the pipeline's scope, if it sets any.
    pub limits: Option<ScopeLimits>,
    /// The name of the pipeline, used in logs and metric names.
    pub name: String,
}

impl Pipeline {
    /// Whether the pipeline has no steps, no prologue and no epilogue.
    pub open spec fn spec_is_empty(&self) -> bool {
        self.prologue@.len() == 0 && self.epilogue@.len() == 0 && self.steps@.len() == 0
    }

    /// The sizes of this pipeline fit the index ranges of step paths, and so
    /// do those of its nested pipelines down to `levels` levels.
    pub open spec fn fits_within(&self, levels: nat) -> bool
        decreases levels,
    {
        &&& levels > 0
        &&& self.prologue@.len() <= STEP0_INDEX
        &&& self.epilogue@.len() <= usize::MAX - EPILOGUE_START_INDEX + 1
        &&& STEP0_INDEX + self.steps@.len() <= EPILOGUE_START_INDEX
        &&& forall|i: int| 0 <= i < self.steps@.len() ==> match #[trigger] self.steps@[i] {
            StepOrPipeline::Pipeline(_, q) => q.fits_within((levels - 1) as nat),
            StepOrPipeline::Step(_) => true,
        }
    }

    /// The pipeline can be navigated with step paths: every index fits its
    /// range and the nesting is shallower than the longest path.
    pub open spec fn well_formed(&self) -> bool {
        self.fits_within(usize::MAX as nat)
    }

    /// Whether the pipeline and its nested pipelines fit within `levels`
    /// levels of nesting, with every list within its index range.
    fn fits(&self, levels: usize) -> (r: bool)
        ensures
            r == self.fits_within(levels as nat),
        decreases levels,
    {
        if levels == 0 {
            return false;
        }
        if self.prologue.len() > STEP0_INDEX || self.epilogue.len() > usize::MAX - EPILOGUE_START_INDEX + 1
            || self.steps.len() > EPILOGUE_START_INDEX - STEP0_INDEX {
            return false;
        }
        let mut i: usize = 0;
        while i < self.steps.len()
            invariant
                levels > 0,
                i <= self.steps@.len(),
                forall|j: int| 0 <= j < i ==> match #[trigger] self.steps@[j] {
                    StepOrPipeline::Pipeline(_, q) => q.fits_within((levels - 1) as nat),
                    StepOrPipeline::Step(_) => true,
                },
            decreases self.steps@.len() - i,
        {
            match &self.steps[i] {
                StepOrPipeline::Pipeline(_, q) => {
                    if !q.fits(levels - 1) {
                        return false;
                    }
                },
                StepOrPipeline::Step(_) => {},
            }
            i = i + 1;
        }
        true
    }

    /// Whether the pipeline can be run: its nesting and the lengths of its
    /// lists fit the index ranges of step paths.
    pub fn is_well_formed(&self) -> (r: bool)
        ensures
            r == self.well_formed(),
    {
        self.fits(usize::MAX)
    }
}


/// Pipeline building API
impl Pipeline {
    /// An empty pipeline with the given name.
    pub fn named(name: &str) -> (r: Self)
        ensures
            r.name@ == name@,
            r.spec_is_empty(),
            r.limits is None,
    {
        Pipeline {
            epilogue: Vec::new(),
            prologue: Vec::new(),
            steps: Vec::new(),
            limits: None,
            name: name.to_string(),
        }
    }

    /// Appends a prologue step: prologue steps run before any other step.
    pub fn with_prologue(self, step: StepInstance) -> (r: Self)
        ensures
            r.prologue@ == self.prologue@.push(step),
            r.epilogue@ == self.epilogue@,
            r.steps@ == self.steps@,
            r.limits == self.limits,
            r.name@ == self.name@,
    {
        let mut this = self;
        this.prologue.push(step);
        this
    }

    /// Appends a prologue step when `cond` holds.
    pub fn with_prologue_if(self, cond: bool, step: StepInstance) -> (r: Self)
        ensures
            r.prologue@ == (if cond { self.prologue@.push(step) } else { self.prologue@ }),
            r.epilogue@ == self.epilogue@,
            r.steps@ == self.steps@,
            r.limits == self.limits,
            r.name@ == self.name@,
    {
        if cond { self.with_prologue(step) } else { self }
    }

    /// Appends an epilogue step: epilogue steps run after all other steps.
    pub fn with_epilogue(self, step: StepInstance) -> (r: Self)
        ensures
            r.epilogue@ == self.epilogue@.push(step),
            r.prologue@ == self.prologue@,
            r.steps@ == self.steps@,
            r.limits == self.limits,
            r.name@ == self.name@,
    {
        let mut this = self;
        this.epilogue.push(step);
        this
    }

    /// Appends an epilogue step when `cond` holds.
    pub fn with_epilogue_if(self, cond: bool, step: StepInstance) -> (r: Self)
        ensures
            r.epilogue@ == (if cond { self.epilogue@.push(step) } else { self.epilogue@ }),
            r.prologue@ == self.prologue@,
            r.steps@ == self.steps@,
            r.limits == self.limits,
            r.name@ == self.name@,
    {
        if cond { self.with_epilogue(step) } else { self }
    }

    /// Appends a step that runs with the output of the previous step as input.
    pub fn with_step(self, step: StepInstance) -> (r: Self)
        ensures
            r.steps@ == self.steps@.push(StepOrPipeline::Step(step)),
            r.prologue@ == self.prologue@,
            r.epilogue@ == self.epilogue@,
            r.limits == self.limits,
            r.name@ == self.name@,
    {
        let mut this = self;
        this.steps.push(StepOrPipeline::Step(step));
        this
    }

    /// Appends a step when `cond` holds.
    pub fn with_step_if(self, cond: bool, step: StepInstance) -> (r: Self)
        ensures
            r.steps@ == (if cond { self.steps@.push(StepOrPipeline::Step(step)) } else { self.steps@ }),
            r.prologue@ == self.prologue@,
            r.epilogue@ == self.epilogue@,
            r.limits == self.limits,
            r.name@ == self.name@,
    {
        if cond { self.with_step(step) } else { self }
    }

    /// Appends a nested pipeline that runs once or in a loop.
    pub fn with_pipeline(self, behavior: Behavior, nested: Pipeline) -> (r: Self)
        ensures
            r.steps@ == self.steps@.push(StepOrPipeline::Pipeline(behavior, nested)),
            r.prologue@ == self.prologue@,
            r.epilogue@ == self.epilogue@,
            r.limits == self.limits,
            r.name@ == self.name@,
    {
        let mut this = self;
        this.steps.push(StepOrPipeline::Pipeline(behavior, nested));
        this
    }

    /// Sets the limits of the pipeline's scope.
    pub fn with_limits(self, limits: ScopeLimits) -> (r: Self)
        ensures
            r.limits == Some(limits),
            r.prologue@ == self.prologue@,
            r.epilogue@ == self.epilogue@,
            r.steps@ == self.steps@,
            r.name@ == self.name@,
    {
        let mut this = self;
        this.limits = Some(limits);
        this
    }

    /// Renames the pipeline.
    pub fn with_name(self, name: &str) -> (r: Self)
        ensures
            r.name@ == name@,
            r.limits == self.limits,
            r.prologue@ == self.prologue@,
            r.epilogue@ == self.epilogue@,
            r.steps@ == self.steps@,
    {
        let mut this = self;
        this.name = name.to_string();
        this
    }
}

/// Observability
impl Pipeline {
    /// Whether the pipeline has no steps, no prologue and no epilogue.
    pub fn is_empty(&self) -> (r: bool)
        ensures
            r == self.spec_is_empty(),
    {
        self.prologue.len() == 0 && self.epilogue.len() == 0 && self.steps.len() == 0
    }

    /// The name of the pipeline.
    pub fn name(&self) -> (r: &str)
        ensures
            r@ == self.name@,
    {
        self.name.as_str()
    }

    /// The prologue steps.
    pub fn prologue(&self) -> (r: &Vec<StepInstance>)
        ensures
            r@ == self.prologue@,
    {
        &self.prologue
    }

    /// The epilogue steps.
    pub fn epilogue(&self) -> (r: &Vec<StepInstance>)
        ensures
            r@ == self.epilogue@,
    {
        &self.epilogue
    }

    /// The steps and nested pipelines.
    pub fn steps(&self) -> (r: &Vec<StepOrPipeline>)
        ensures
            r@ == self.steps@,
    {
        &self.steps
    }

    /// The limits of the pipeline's scope, if any.
    pub fn limits(&self) -> (r: Option<ScopeLimits>)
        ensures
            r == self.limits,
    {
        self.limits
    }
}

} // verus!
