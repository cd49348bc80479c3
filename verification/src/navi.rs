//! Pipeline navigation: finding the next step to run from the current one,
//! the output of the current step and the structure of the pipeline.

use crate::pipeline::{Behavior, Pipeline, StepInstance, StepOrPipeline};
use crate::step_path::{
    is_epilogue_index, is_prologue_index, StepPath, EPILOGUE_START_INDEX, PROLOGUE_INDEX,
    STEP0_INDEX,
};
use vstd::prelude::*;

verus! {

/// The pipeline reached from `p` by following the nested pipelines whose
/// indices make up `prefix`; `None` when an index does not address a nested
/// pipeline.
pub open spec fn pipeline_at(p: Pipeline, prefix: Seq<usize>) -> Option<Pipeline>
    decreases prefix.len(),
{
    if prefix.len() == 0 {
        Some(p)
    } else {
        let leaf = prefix[0];
        if leaf >= STEP0_INDEX && leaf - STEP0_INDEX < p.steps@.len() {
            match p.steps@[leaf - STEP0_INDEX] {
                StepOrPipeline::Pipeline(_, q) => pipeline_at(q, prefix.drop_first()),
                StepOrPipeline::Step(_) => None,
            }
        } else {
            None
        }
    }
}

/// Whether `leaf` addresses an item (a step or a nested pipeline) of `e`.
pub open spec fn is_item_of(e: Pipeline, leaf: usize) -> bool {
    if is_prologue_index(leaf) {
        leaf - PROLOGUE_INDEX < e.prologue@.len()
    } else if is_epilogue_index(leaf) {
        leaf - EPILOGUE_START_INDEX < e.epilogue@.len()
    } else {
        leaf - STEP0_INDEX < e.steps@.len()
    }
}

/// Whether `leaf` addresses a step (not a nested pipeline) of `e`.
pub open spec fn is_step_of(e: Pipeline, leaf: usize) -> bool {
    &&& is_item_of(e, leaf)
    &&& (!is_prologue_index(leaf) && !is_epilogue_index(leaf) ==> e.steps@[leaf - STEP0_INDEX] is Step)
}

/// Whether `path` addresses an item of `root`.
pub open spec fn points_at_item(root: Pipeline, path: Seq<usize>) -> bool {
    &&& path.len() >= 1
    &&& pipeline_at(root, path.drop_last()) is Some
    &&& is_item_of(pipeline_at(root, path.drop_last())->0, path.last())
}

/// Whether `path` addresses a step of `root`.
pub open spec fn points_at_step(root: Pipeline, path: Seq<usize>) -> bool {
    &&& path.len() >= 1
    &&& pipeline_at(root, path.drop_last()) is Some
    &&& is_step_of(pipeline_at(root, path.drop_last())->0, path.last())
}

/// The pipeline that immediately encloses the item addressed by `path`.
pub open spec fn enclosing(root: Pipeline, path: Seq<usize>) -> Pipeline {
    pipeline_at(root, path.drop_last())->0
}

/// The path, relative to `p`, of the first step that runs in `p`: its first
/// prologue step, else the entry of its first item, else its first epilogue
/// step; `None` when nothing can run.
pub open spec fn entry(p: Pipeline) -> Option<Seq<usize>>
    decreases p,
{
    if p.spec_is_empty() {
        None
    } else if p.prologue@.len() > 0 {
        Some(seq![PROLOGUE_INDEX])
    } else if p.steps@.len() == 0 {
        Some(seq![EPILOGUE_START_INDEX])
    } else {
        match p.steps@[0] {
            StepOrPipeline::Step(_) => Some(seq![STEP0_INDEX]),
            StepOrPipeline::Pipeline(_, q) => match entry(q) {
                Some(e) => Some(seq![STEP0_INDEX] + e),
                None => None,
            },
        }
    }
}

/// The first step that runs at or below the item addressed by `path`.
pub open spec fn enter(root: Pipeline, path: Seq<usize>) -> Option<Seq<usize>> {
    let leaf = path.last();
    let enc = enclosing(root, path);
    if is_prologue_index(leaf) || is_epilogue_index(leaf) {
        Some(path)
    } else if leaf - STEP0_INDEX < enc.steps@.len() {
        match enc.steps@[leaf - STEP0_INDEX] {
            StepOrPipeline::Step(_) => Some(path),
            StepOrPipeline::Pipeline(_, q) => match entry(q) {
                Some(e) => Some(path + e),
                None => None,
            },
        }
    } else {
        None
    }
}

/// The loop behavior of the pipeline that encloses the item at `path`:
/// top-level pipelines run once, nested ones as configured by their parent.
pub open spec fn behavior(root: Pipeline, path: Seq<usize>) -> Behavior {
    if path.len() <= 1 {
        Behavior::Once
    } else {
        let parent = path.drop_last();
        match enclosing(root, parent).steps@[parent.last() - STEP0_INDEX] {
            StepOrPipeline::Pipeline(b, _) => b,
            StepOrPipeline::Step(_) => Behavior::Once,
        }
    }
}

/// The path with its last index replaced.
pub open spec fn with_leaf(path: Seq<usize>, leaf: int) -> Seq<usize> {
    path.update(path.len() - 1, leaf as usize)
}

/// What runs once the step loop of the pipeline enclosing `path` ends: its
/// first epilogue step, or else what follows the pipeline in its parent.
pub open spec fn after_loop(root: Pipeline, path: Seq<usize>) -> Option<Seq<usize>>
    decreases path.len(), 1nat,
{
    if enclosing(root, path).epilogue@.len() == 0 {
        next_in_parent(root, path)
    } else {
        enter(root, with_leaf(path, EPILOGUE_START_INDEX as int))
    }
}

/// What runs once the prologue of the pipeline enclosing `path` ends: its
/// first item, or else what runs after its loop.
pub open spec fn after_prologue(root: Pipeline, path: Seq<usize>) -> Option<Seq<usize>>
    decreases path.len(), 2nat,
{
    if enclosing(root, path).steps@.len() == 0 {
        after_loop(root, path)
    } else {
        enter(root, with_leaf(path, STEP0_INDEX as int))
    }
}

/// What runs once the pipeline enclosing `path` is done: the next item of
/// its parent, or, when it was the parent's last item, the parent's next
/// iteration (loop) or the end of the parent's loop (once).
pub open spec fn next_in_parent(root: Pipeline, path: Seq<usize>) -> Option<Seq<usize>>
    decreases path.len(), 0nat,
{
    if path.len() <= 1 {
        None
    } else {
        let anc = path.drop_last();
        let leaf = anc.last();
        if leaf < STEP0_INDEX {
            None
        } else if leaf - STEP0_INDEX + 1 >= enclosing(root, anc).steps@.len() {
            match behavior(root, anc) {
                Behavior::Loop => after_prologue(root, anc),
                Behavior::Once => after_loop(root, anc),
            }
        } else {
            enter(root, with_leaf(anc, leaf + 1))
        }
    }
}

/// The step that runs after the step at `path` returns `Ok`.
pub open spec fn next_ok(root: Pipeline, path: Seq<usize>) -> Option<Seq<usize>> {
    let leaf = path.last();
    let enc = enclosing(root, path);
    if is_epilogue_index(leaf) {
        if leaf - EPILOGUE_START_INDEX + 1 < enc.epilogue@.len() {
            enter(root, with_leaf(path, leaf + 1))
        } else {
            next_in_parent(root, path)
        }
    } else if is_prologue_index(leaf) {
        if leaf - PROLOGUE_INDEX + 1 < enc.prologue@.len() {
            enter(root, with_leaf(path, leaf + 1))
        } else {
            after_prologue(root, path)
        }
    } else if leaf - STEP0_INDEX + 1 >= enc.steps@.len() {
        match behavior(root, path) {
            Behavior::Loop => enter(root, with_leaf(path, STEP0_INDEX as int)),
            Behavior::Once => after_loop(root, path),
        }
    } else {
        enter(root, with_leaf(path, leaf + 1))
    }
}

/// The step that runs after the step at `path` returns `Break`: breaking
/// out of an epilogue step has the effect of returning `Ok` from it,
/// breaking out of a prologue step leaves the enclosing pipeline, and
/// breaking out of a regular step ends the loop and runs the epilogue.
pub open spec fn next_break(root: Pipeline, path: Seq<usize>) -> Option<Seq<usize>> {
    if is_epilogue_index(path.last()) {
        next_ok(root, path)
    } else if is_prologue_index(path.last()) {
        next_in_parent(root, path)
    } else {
        after_loop(root, path)
    }
}


/// Following `a` and then `b` reaches the same pipeline as following `a + b`.
pub proof fn lemma_pipeline_at_concat(p: Pipeline, a: Seq<usize>, b: Seq<usize>)
    ensures
        pipeline_at(p, a + b) == match pipeline_at(p, a) {
            Some(x) => pipeline_at(x, b),
            None => None,
        },
    decreases a.len(),
{
    if a.len() == 0 {
        assert(a + b =~= b);
    } else {
        assert((a + b).drop_first() =~= a.drop_first() + b);
        assert((a + b)[0] == a[0]);
        let leaf = a[0];
        if leaf >= STEP0_INDEX && leaf - STEP0_INDEX < p.steps@.len() {
            match p.steps@[leaf - STEP0_INDEX] {
                StepOrPipeline::Pipeline(_, q) => {
                    lemma_pipeline_at_concat(q, a.drop_first(), b);
                },
                StepOrPipeline::Step(_) => {},
            }
        }
    }
}

/// Following a path of nested pipelines from a pipeline whose nesting fits
/// within `n` levels uses fewer than `n` indices and reaches a pipeline whose
/// nesting fits within the remaining levels.
pub proof fn lemma_pipeline_at_fits(p: Pipeline, n: nat, prefix: Seq<usize>)
    requires
        p.fits_within(n),
        pipeline_at(p, prefix) is Some,
    ensures
        prefix.len() < n,
        pipeline_at(p, prefix)->0.fits_within((n - prefix.len()) as nat),
    decreases prefix.len(),
{
    if prefix.len() > 0 {
        let leaf = prefix[0];
        let i = leaf - STEP0_INDEX;
        assert(0 <= i < p.steps@.len());
        match p.steps@[i] {
            StepOrPipeline::Pipeline(_, q) => {
                assert(q.fits_within((n - 1) as nat));
                lemma_pipeline_at_fits(q, (n - 1) as nat, prefix.drop_first());
            },
            StepOrPipeline::Step(_) => {},
        }
    }
}

/// The first step of a pipeline, when there is one, is a step of it, at a
/// depth within the levels its nesting fits in.
pub proof fn lemma_entry(p: Pipeline, n: nat)
    requires
        p.fits_within(n),
    ensures
        entry(p) matches Some(e) ==> 1 <= e.len() <= n && points_at_step(p, e),
    decreases p,
{
    if !p.spec_is_empty() && p.prologue@.len() == 0 && p.steps@.len() > 0 {
        match p.steps@[0] {
            StepOrPipeline::Step(_) => {
                assert(seq![STEP0_INDEX].drop_last() =~= Seq::<usize>::empty());
            },
            StepOrPipeline::Pipeline(_, q) => {
                assert(q.fits_within((n - 1) as nat));
                lemma_entry(q, (n - 1) as nat);
                if let Some(e) = entry(q) {
                    let full = seq![STEP0_INDEX] + e;
                    assert(full.drop_last() =~= seq![STEP0_INDEX] + e.drop_last());
                    lemma_pipeline_at_concat(p, seq![STEP0_INDEX], e.drop_last());
                    assert(seq![STEP0_INDEX].drop_first() =~= Seq::<usize>::empty());
                    reveal_with_fuel(pipeline_at, 2);
                    assert(pipeline_at(p, seq![STEP0_INDEX]) == Some(q));
                    assert(full.last() == e.last());
                }
            },
        }
    } else if !p.spec_is_empty() {
        assert(seq![PROLOGUE_INDEX].drop_last() =~= Seq::<usize>::empty());
        assert(seq![EPILOGUE_START_INDEX].drop_last() =~= Seq::<usize>::empty());
    }
}

/// The pipeline reached by a path extended with one index of a nested
/// pipeline is that nested pipeline.
pub proof fn lemma_pipeline_at_push(root: Pipeline, path: Seq<usize>)
    requires
        path.len() >= 1,
    ensures
        pipeline_at(root, path) == match pipeline_at(root, path.drop_last()) {
            Some(x) => {
                let leaf = path.last();
                if leaf >= STEP0_INDEX && leaf - STEP0_INDEX < x.steps@.len() {
                    match x.steps@[leaf - STEP0_INDEX] {
                        StepOrPipeline::Pipeline(_, q) => Some(q),
                        StepOrPipeline::Step(_) => None,
                    }
                } else {
                    None
                }
            },
            None => None,
        },
{
    assert(path =~= path.drop_last() + seq![path.last()]);
    lemma_pipeline_at_concat(root, path.drop_last(), seq![path.last()]);
    assert(seq![path.last()].drop_first() =~= Seq::<usize>::empty());
    reveal_with_fuel(pipeline_at, 2);
}

/// Entering an item of a well-formed pipeline yields, if anything, a path to
/// a step, no longer than the longest path.
pub proof fn lemma_enter(root: Pipeline, path: Seq<usize>)
    requires
        root.well_formed(),
        points_at_item(root, path),
    ensures
        enter(root, path) matches Some(r) ==> points_at_step(root, r) && r.len() <= usize::MAX,
{
    let enc = enclosing(root, path);
    let leaf = path.last();
    lemma_pipeline_at_fits(root, usize::MAX as nat, path.drop_last());
    if !is_prologue_index(leaf) && !is_epilogue_index(leaf) && leaf - STEP0_INDEX < enc.steps@.len() {
        match enc.steps@[leaf - STEP0_INDEX] {
            StepOrPipeline::Step(_) => {},
            StepOrPipeline::Pipeline(_, q) => {
                let n = (usize::MAX - path.drop_last().len()) as nat;
                assert(enc.fits_within(n));
                assert(q.fits_within((n - 1) as nat));
                lemma_entry(q, (n - 1) as nat);
                lemma_pipeline_at_push(root, path);
                if let Some(e) = entry(q) {
                    let full = path + e;
                    assert(full.drop_last() =~= path + e.drop_last());
                    lemma_pipeline_at_concat(root, path, e.drop_last());
                    assert(full.last() == e.last());
                }
            },
        }
    }
}


/// Every way of leaving a pipeline (`next_in_parent`, rank 0), ending its
/// loop (`after_loop`, rank 1) or ending its prologue (`after_prologue`,
/// rank 2) leads, if anywhere, to a step.
pub proof fn lemma_leaving(root: Pipeline, path: Seq<usize>, rank: nat)
    requires
        root.well_formed(),
        path.len() >= 1,
        pipeline_at(root, path.drop_last()) is Some,
    ensures
        rank == 0 ==> (next_in_parent(root, path) matches Some(r) ==> points_at_step(root, r) && r.len() <= usize::MAX),
        rank == 1 ==> (after_loop(root, path) matches Some(r) ==> points_at_step(root, r) && r.len() <= usize::MAX),
        rank == 2 ==> (after_prologue(root, path) matches Some(r) ==> points_at_step(root, r) && r.len() <= usize::MAX),
    decreases path.len(), rank,
{
    let enc = enclosing(root, path);
    lemma_pipeline_at_fits(root, usize::MAX as nat, path.drop_last());
    if rank == 0 {
        if path.len() > 1 {
            let anc = path.drop_last();
            let leaf = anc.last();
            lemma_pipeline_at_push(root, anc);
            lemma_pipeline_at_fits(root, usize::MAX as nat, anc.drop_last());
            let x = pipeline_at(root, anc.drop_last())->0;
            if leaf >= STEP0_INDEX {
                if leaf - STEP0_INDEX + 1 >= x.steps@.len() {
                    lemma_leaving(root, anc, 1);
                    lemma_leaving(root, anc, 2);
                } else {
                    let next = with_leaf(anc, leaf + 1);
                    assert(next.drop_last() =~= anc.drop_last());
                    lemma_enter(root, next);
                }
            }
        }
    } else if rank == 1 {
        if enc.epilogue@.len() == 0 {
            lemma_leaving(root, path, 0);
        } else {
            let next = with_leaf(path, EPILOGUE_START_INDEX as int);
            assert(next.drop_last() =~= path.drop_last());
            lemma_enter(root, next);
        }
    } else if rank == 2 {
        if enc.steps@.len() == 0 {
            lemma_leaving(root, path, 1);
        } else {
            let next = with_leaf(path, STEP0_INDEX as int);
            assert(next.drop_last() =~= path.drop_last());
            lemma_enter(root, next);
        }
    }
}

/// After a step returns `Ok` or `Break`, navigation leads, if anywhere, to a
/// step: a navigator never points at a nested pipeline.
pub proof fn lemma_next_points_at_step(root: Pipeline, path: Seq<usize>)
    requires
        root.well_formed(),
        points_at_step(root, path),
    ensures
        next_ok(root, path) matches Some(r) ==> points_at_step(root, r) && r.len() <= usize::MAX,
        next_break(root, path) matches Some(r) ==> points_at_step(root, r) && r.len() <= usize::MAX,
{
    let enc = enclosing(root, path);
    let leaf = path.last();
    lemma_pipeline_at_fits(root, usize::MAX as nat, path.drop_last());
    lemma_leaving(root, path, 0);
    lemma_leaving(root, path, 1);
    lemma_leaving(root, path, 2);
    if is_epilogue_index(leaf) {
        if leaf - EPILOGUE_START_INDEX + 1 < enc.epilogue@.len() {
            let next = with_leaf(path, leaf + 1);
            assert(next.drop_last() =~= path.drop_last());
            lemma_enter(root, next);
        }
    } else if is_prologue_index(leaf) {
        if leaf - PROLOGUE_INDEX + 1 < enc.prologue@.len() {
            let next = with_leaf(path, leaf + 1);
            assert(next.drop_last() =~= path.drop_last());
            lemma_enter(root, next);
        }
    } else if leaf - STEP0_INDEX + 1 >= enc.steps@.len() {
        let next = with_leaf(path, STEP0_INDEX as int);
        assert(next.drop_last() =~= path.drop_last());
        lemma_enter(root, next);
    } else {
        let next = with_leaf(path, leaf + 1);
        assert(next.drop_last() =~= path.drop_last());
        lemma_enter(root, next);
    }
}


/// The step addressed by a path that points at a step.
pub open spec fn step_at(root: Pipeline, path: Seq<usize>) -> StepInstance {
    let enc = enclosing(root, path);
    let leaf = path.last();
    if is_prologue_index(leaf) {
        enc.prologue@[leaf - PROLOGUE_INDEX]
    } else if is_epilogue_index(leaf) {
        enc.epilogue@[leaf - EPILOGUE_START_INDEX]
    } else {
        match enc.steps@[leaf - STEP0_INDEX] {
            StepOrPipeline::Step(s) => s,
            StepOrPipeline::Pipeline(_, _) => arbitrary(),
        }
    }
}

/// `refs` lists the pipelines that `path` leads through from `root`: the
/// `k`-th one is reached by the first `k` indices.
pub open spec fn chain(root: Pipeline, path: Seq<usize>, refs: Seq<&Pipeline>) -> bool {
    &&& refs.len() == path.len()
    &&& forall|k: int| 0 <= k < refs.len() ==> pipeline_at(root, path.take(k)) == Some(*#[trigger] refs[k])
}

/// Replacing the last index of a path keeps the pipelines it leads through.
pub proof fn lemma_chain_with_leaf(root: Pipeline, path: Seq<usize>, refs: Seq<&Pipeline>, leaf: int)
    requires
        chain(root, path, refs),
        path.len() >= 1,
    ensures
        chain(root, with_leaf(path, leaf), refs),
        with_leaf(path, leaf).drop_last() == path.drop_last(),
{
    let p2 = with_leaf(path, leaf);
    assert forall|k: int| 0 <= k < refs.len() implies pipeline_at(root, p2.take(k)) == Some(*#[trigger] refs[k]) by {
        assert(p2.take(k) =~= path.take(k));
    }
    assert(p2.drop_last() =~= path.drop_last());
}

/// Appending the chain of a nested pipeline to the chain that leads to it.
pub proof fn lemma_chain_join(
    root: Pipeline,
    path: Seq<usize>,
    refs: Seq<&Pipeline>,
    nested: Pipeline,
    e: Seq<usize>,
    erefs: Seq<&Pipeline>,
)
    requires
        chain(root, path, refs),
        pipeline_at(root, path) == Some(nested),
        chain(nested, e, erefs),
    ensures
        chain(root, path + e, refs + erefs),
{
    let full = path + e;
    let frefs = refs + erefs;
    assert forall|k: int| 0 <= k < frefs.len() implies pipeline_at(root, full.take(k)) == Some(*#[trigger] frefs[k]) by {
        if k < path.len() {
            assert(full.take(k) =~= path.take(k));
        } else {
            let j = k - path.len();
            assert(full.take(k) =~= path + e.take(j));
            lemma_pipeline_at_concat(root, path, e.take(j));
        }
    }
}

/// A position in a pipeline: the path to the current item and the chain of
/// pipelines that enclose it, from the top-level pipeline down.
///
/// The navigators that the public functions return always point at a step,
/// never at a nested pipeline.
pub struct StepNavigator<'a>(pub StepPath, pub Vec<&'a Pipeline>);

impl<'a> StepNavigator<'a> {
    /// The top-level pipeline.
    pub open spec fn root_spec(&self) -> Pipeline {
        *self.1@[0]
    }

    /// The enclosing pipelines are those that the path leads through.
    pub open spec fn chain_ok(&self, root: Pipeline) -> bool {
        chain(root, self.0@, self.1@)
    }

    /// The navigator points at an item of a well-formed top-level pipeline.
    pub open spec fn wf_item(&self) -> bool {
        &&& self.0@.len() >= 1
        &&& self.root_spec().well_formed()
        &&& self.chain_ok(self.root_spec())
        &&& points_at_item(self.root_spec(), self.0@)
    }

    /// The navigator points at a step of a well-formed top-level pipeline.
    pub open spec fn wf(&self) -> bool {
        &&& self.wf_item()
        &&& points_at_step(self.root_spec(), self.0@)
    }

    /// The first step that runs in `pipeline`: its first prologue step, the
    /// first step of its first item, or its first epilogue step. `None` when
    /// the pipeline is empty or its first item is a pipeline with nothing to
    /// run.
    pub fn entrypoint(pipeline: &'a Pipeline) -> (r: Option<Self>)
        requires
            pipeline.well_formed(),
        ensures
            match r {
                Some(n) => n.wf() && n.root_spec() == *pipeline && entry(*pipeline) == Some(n.0@),
                None => entry(*pipeline) is None,
            },
    {
        let r = Self::entry_within(pipeline, Ghost(usize::MAX as nat));
        proof {
            if let Some(ref n) = r {
                assert(n.0@.take(0) =~= Seq::<usize>::empty());
                assert(pipeline_at(*pipeline, n.0@.take(0)) == Some(*pipeline));
                lemma_pipeline_at_fits(*pipeline, usize::MAX as nat, n.0@.drop_last());
                let enc = enclosing(*pipeline, n.0@);
            }
        }
        r
    }

    fn entry_within(p: &'a Pipeline, Ghost(n): Ghost<nat>) -> (r: Option<Self>)
        requires
            p.fits_within(n),
            n <= usize::MAX,
        ensures
            match r {
                Some(nav) => {
                    &&& entry(*p) == Some(nav.0@)
                    &&& nav.chain_ok(*p)
                    &&& points_at_step(*p, nav.0@)
                    &&& nav.0@.len() <= n
                },
                None => entry(*p) is None,
            },
        decreases *p,
    {
        proof {
            lemma_entry(*p, n);
        }
        if p.is_empty() {
            return None;
        }
        if p.prologue.len() > 0 {
            let nav = StepNavigator(StepPath::prologue(), vec![p]);
            assert(nav.0@.take(0) =~= Seq::<usize>::empty());
            return Some(nav);
        }
        if p.steps.len() == 0 {
            let nav = StepNavigator(StepPath::epilogue(), vec![p]);
            assert(nav.0@.take(0) =~= Seq::<usize>::empty());
            return Some(nav);
        }
        match &p.steps[0] {
            StepOrPipeline::Step(_) => {
                let nav = StepNavigator(StepPath::step0(), vec![p]);
                assert(nav.0@.take(0) =~= Seq::<usize>::empty());
                Some(nav)
            },
            StepOrPipeline::Pipeline(_, q) => {
                assert(q.fits_within((n - 1) as nat));
                let inner = Self::entry_within(q, Ghost((n - 1) as nat));
                match inner {
                    None => None,
                    Some(inner) => {
                        let head = StepNavigator(StepPath::step0(), vec![p]);
                        let ghost hpath = head.0@;
                        let ghost ipath = inner.0@;
                        let ghost irefs = inner.1@;
                        assert(hpath.take(0) =~= Seq::<usize>::empty());
                        proof {
                            reveal_with_fuel(pipeline_at, 2);
                            assert(hpath.drop_first() =~= Seq::<usize>::empty());
                            assert(pipeline_at(*p, hpath) == Some(*q));
                        }
                        let joined = head.join(inner);
                        proof {
                            assert forall|k: int| 0 <= k < joined.1@.len() implies
                                pipeline_at(*p, joined.0@.take(k)) == Some(*#[trigger] joined.1@[k]) by {
                                if k == 0 {
                                    assert(joined.0@.take(0) =~= Seq::<usize>::empty());
                                } else {
                                    let j = k - 1;
                                    assert(joined.0@.take(k) =~= hpath + ipath.take(j));
                                    lemma_pipeline_at_concat(*p, hpath, ipath.take(j));
                                    assert(joined.1@[k] == irefs[j]);
                                }
                            }
                            assert(joined.0@.drop_last() =~= hpath + ipath.drop_last());
                            lemma_pipeline_at_concat(*p, hpath, ipath.drop_last());
                            assert(joined.0@.last() == ipath.last());
                        }
                        Some(joined)
                    },
                }
            },
        }
    }

    /// The step that the navigator points at.
    pub fn instance(&self) -> (r: &'a StepInstance)
        requires
            self.wf(),
        ensures
            *r == step_at(self.root_spec(), self.0@),
    {
        let step_index = self.0.leaf();
        let enclosing_pipeline = self.pipeline();
        proof {
            let n = self.0@.len();
            assert(self.0@.take(n - 1) =~= self.0@.drop_last());
        }
        if self.is_prologue() {
            &enclosing_pipeline.prologue[step_index - PROLOGUE_INDEX]
        } else if self.is_epilogue() {
            &enclosing_pipeline.epilogue[step_index - EPILOGUE_START_INDEX]
        } else {
            match &enclosing_pipeline.steps[step_index - STEP0_INDEX] {
                StepOrPipeline::Step(step) => step,
                StepOrPipeline::Pipeline(_, _) => vstd::pervasive::unreached(),
            }
        }
    }

    /// The pipeline that immediately encloses the current step.
    pub fn pipeline(&self) -> (r: &'a Pipeline)
        requires
            self.1@.len() >= 1,
        ensures
            r == self.1@.last(),
    {
        self.1[self.1.len() - 1]
    }

    /// The top-level pipeline.
    pub fn root_pipeline(&self) -> (r: &'a Pipeline)
        requires
            self.1@.len() >= 1,
        ensures
            *r == self.root_spec(),
    {
        self.1[0]
    }

    /// The path of the current step relative to the top-level pipeline.
    pub fn path(&self) -> (r: &StepPath)
        ensures
            r == &self.0,
    {
        &self.0
    }

    /// The navigator with the last index of its path replaced.
    fn relocate(self, leaf: usize) -> (r: Self)
        requires
            self.0@.len() >= 1,
            self.1@.len() >= 1,
            self.chain_ok(self.root_spec()),
        ensures
            r.0@ == with_leaf(self.0@, leaf as int),
            r.1@ == self.1@,
            r.root_spec() == self.root_spec(),
            r.chain_ok(self.root_spec()),
            r.0@.drop_last() == self.0@.drop_last(),
    {
        proof {
            lemma_chain_with_leaf(self.root_spec(), self.0@, self.1@, leaf as int);
        }
        let StepNavigator(path, refs) = self;
        StepNavigator(path.replace_leaf(leaf), refs)
    }

    /// The first step at or below the current item: the item itself when it
    /// is a step, else the entry of the nested pipeline.
    fn enter(self) -> (r: Option<Self>)
        requires
            self.wf_item(),
        ensures
            match r {
                Some(n) => n.wf() && n.root_spec() == self.root_spec() && enter(self.root_spec(), self.0@) == Some(n.0@),
                None => enter(self.root_spec(), self.0@) is None,
            },
    {
        let ghost root = self.root_spec();
        let ghost path = self.0@;
        proof {
            lemma_enter(root, path);
            lemma_pipeline_at_fits(root, usize::MAX as nat, path.drop_last());
            assert(path.take(path.len() - 1) =~= path.drop_last());
        }
        let enclosing_pipeline = self.pipeline();
        if self.is_prologue() || self.is_epilogue() {
            return Some(self);
        }
        let step_index = self.0.leaf() - STEP0_INDEX;
        if step_index >= enclosing_pipeline.steps.len() {
            return None;
        }
        match &enclosing_pipeline.steps[step_index] {
            StepOrPipeline::Step(_) => Some(self),
            StepOrPipeline::Pipeline(_, nested) => {
                let ghost m = (usize::MAX - path.len()) as nat;
                assert(nested.fits_within(m));
                match Self::entry_within(nested, Ghost(m)) {
                    None => None,
                    Some(inner) => {
                        proof {
                            lemma_pipeline_at_push(root, path);
                            lemma_chain_join(root, path, self.1@, *nested, inner.0@, inner.1@);
                        }
                        let joined = self.join(inner);
                        Some(joined)
                    },
                }
            },
        }
    }

    /// The navigator for the nested pipeline that encloses the current item;
    /// `None` at the top level.
    fn ancestor(self) -> (r: Option<Self>)
        requires
            self.wf_item(),
        ensures
            self.0@.len() == 1 ==> r is None,
            self.0@.len() > 1 ==> (r matches Some(n) && n.wf_item() && n.root_spec() == self.root_spec()
                && n.0@ == self.0@.drop_last()),
    {
        let ghost root = self.root_spec();
        let ghost path = self.0@;
        let StepNavigator(path_x, refs) = self;
        match path_x.remove_leaf() {
            None => None,
            Some(anc_path) => {
                let mut refs = refs;
                let n = refs.len();
                refs.truncate(n - 1);
                let nav = StepNavigator(anc_path, refs);
                proof {
                    let anc = path.drop_last();
                    assert forall|k: int| 0 <= k < nav.1@.len() implies pipeline_at(root, anc.take(k)) == Some(*#[trigger] nav.1@[k]) by {
                        assert(anc.take(k) =~= path.take(k));
                        assert(nav.1@[k] == self.1@[k]);
                    }
                    assert(path.take(path.len() - 1) =~= anc);
                    assert(pipeline_at(root, anc) is Some);
                    lemma_pipeline_at_push(root, anc);
                    lemma_pipeline_at_fits(root, usize::MAX as nat, anc.drop_last());
                }
                Some(nav)
            },
        }
    }

    /// The loop behavior of the pipeline that encloses the current item.
    pub fn behavior(&self) -> (r: Behavior)
        requires
            self.wf_item(),
        ensures
            r == behavior(self.root_spec(), self.0@),
    {
        if self.0.is_toplevel() {
            return Behavior::Once;
        }
        let ghost root = self.root_spec();
        let ghost path = self.0@;
        let ghost parent = path.drop_last();
        let n = self.1.len();
        let grandparent = self.1[n - 2];
        let parent_leaf = self.0.0.get(n - 2);
        proof {
            assert(path.take(n - 1) =~= parent);
            assert(path.take(n - 2) =~= parent.drop_last());
            assert(pipeline_at(root, parent) is Some);
            lemma_pipeline_at_push(root, parent);
            assert(parent.last() == parent_leaf);
        }
        match &grandparent.steps[parent_leaf - STEP0_INDEX] {
            StepOrPipeline::Pipeline(behavior, _) => *behavior,
            StepOrPipeline::Step(_) => vstd::pervasive::unreached(),
        }
    }

    /// What runs once the loop of the enclosing pipeline ends.
    fn after_loop(self) -> (r: Option<Self>)
        requires
            self.wf_item(),
        ensures
            match r {
                Some(n) => n.wf() && n.root_spec() == self.root_spec() && after_loop(self.root_spec(), self.0@) == Some(n.0@),
                None => after_loop(self.root_spec(), self.0@) is None,
            },
        decreases self.0@.len(), 1nat,
    {
        let ghost root = self.root_spec();
        let ghost path = self.0@;
        proof {
            assert(path.take(path.len() - 1) =~= path.drop_last());
        }
        if self.pipeline().epilogue.len() == 0 {
            self.next_in_parent()
        } else {
            let nav = self.relocate(EPILOGUE_START_INDEX);
            nav.enter()
        }
    }

    /// What runs once the prologue of the enclosing pipeline ends.
    fn after_prologue(self) -> (r: Option<Self>)
        requires
            self.wf_item(),
        ensures
            match r {
                Some(n) => n.wf() && n.root_spec() == self.root_spec() && after_prologue(self.root_spec(), self.0@) == Some(n.0@),
                None => after_prologue(self.root_spec(), self.0@) is None,
            },
        decreases self.0@.len(), 2nat,
    {
        let ghost root = self.root_spec();
        let ghost path = self.0@;
        proof {
            assert(path.take(path.len() - 1) =~= path.drop_last());
            lemma_pipeline_at_fits(root, usize::MAX as nat, path.drop_last());
        }
        if self.pipeline().steps.len() == 0 {
            self.after_loop()
        } else {
            let nav = self.relocate(STEP0_INDEX);
            nav.enter()
        }
    }

    /// What runs once the enclosing pipeline is done.
    fn next_in_parent(self) -> (r: Option<Self>)
        requires
            self.wf_item(),
        ensures
            match r {
                Some(n) => n.wf() && n.root_spec() == self.root_spec() && next_in_parent(self.root_spec(), self.0@) == Some(n.0@),
                None => next_in_parent(self.root_spec(), self.0@) is None,
            },
        decreases self.0@.len(), 0nat,
    {
        let ghost root = self.root_spec();
        let ghost path = self.0@;
        let ancestor = match self.ancestor() {
            Some(a) => a,
            None => return None,
        };
        let ghost anc = ancestor.0@;
        let leaf = ancestor.0.leaf();
        if leaf < STEP0_INDEX {
            return None;
        }
        let step_index = leaf - STEP0_INDEX;
        proof {
            assert(anc.take(anc.len() - 1) =~= anc.drop_last());
            lemma_pipeline_at_fits(root, usize::MAX as nat, anc.drop_last());
        }
        if step_index + 1 >= ancestor.pipeline().steps.len() {
            match ancestor.behavior() {
                Behavior::Loop => ancestor.after_prologue(),
                Behavior::Once => ancestor.after_loop(),
            }
        } else {
            let nav = ancestor.relocate(leaf + 1);
            nav.enter()
        }
    }

    /// The step that runs after the current step returns `Ok`; `None` when
    /// the pipeline is done.
    pub fn next_ok(self) -> (r: Option<Self>)
        requires
            self.wf(),
        ensures
            match r {
                Some(n) => n.wf() && n.root_spec() == self.root_spec() && next_ok(self.root_spec(), self.0@) == Some(n.0@),
                None => next_ok(self.root_spec(), self.0@) is None,
            },
    {
        let ghost root = self.root_spec();
        let ghost path = self.0@;
        proof {
            assert(path.take(path.len() - 1) =~= path.drop_last());
            lemma_pipeline_at_fits(root, usize::MAX as nat, path.drop_last());
        }
        let enclosing_pipeline = self.pipeline();
        let leaf = self.0.leaf();
        if self.is_epilogue() {
            let epilogue_index = leaf - EPILOGUE_START_INDEX;
            if epilogue_index + 1 < enclosing_pipeline.epilogue.len() {
                let nav = self.relocate(leaf + 1);
                return nav.enter();
            }
            return self.next_in_parent();
        }
        if self.is_prologue() {
            let prologue_index = leaf - PROLOGUE_INDEX;
            if prologue_index + 1 < enclosing_pipeline.prologue.len() {
                let nav = self.relocate(leaf + 1);
                return nav.enter();
            }
            return self.after_prologue();
        }
        let position = leaf - STEP0_INDEX;
        let is_last = position + 1 >= enclosing_pipeline.steps.len();
        match (self.behavior(), is_last) {
            (Behavior::Loop, true) => {
                let nav = self.relocate(STEP0_INDEX);
                nav.enter()
            },
            (Behavior::Once, true) => self.after_loop(),
            (_, false) => {
                let nav = self.relocate(leaf + 1);
                nav.enter()
            },
        }
    }

    /// The step that runs after the current step returns `Break`; `None`
    /// when the pipeline is done. Breaking out of an epilogue step has the
    /// effect of returning `Ok` from it; breaking out of a prologue step
    /// leaves the enclosing pipeline.
    pub fn next_break(self) -> (r: Option<Self>)
        requires
            self.wf(),
        ensures
            match r {
                Some(n) => n.wf() && n.root_spec() == self.root_spec() && next_break(self.root_spec(), self.0@) == Some(n.0@),
                None => next_break(self.root_spec(), self.0@) is None,
            },
    {
        if self.is_epilogue() {
            return self.next_ok();
        }
        if self.is_prologue() {
            return self.next_in_parent();
        }
        self.after_loop()
    }

    fn join(self, other: Self) -> (r: Self)
        requires
            self.0@.len() + other.0@.len() <= usize::MAX,
        ensures
            r.0@ == self.0@ + other.0@,
            r.1@ == self.1@ + other.1@,
    {
        let StepNavigator(path, refs) = self;
        let StepNavigator(other_path, other_refs) = other;
        let mut refs = refs;
        let mut other_refs = other_refs;
        refs.append(&mut other_refs);
        StepNavigator(path.concat(other_path), refs)
    }

    fn is_epilogue(&self) -> (r: bool)
        requires
            self.0@.len() >= 1,
        ensures
            r == is_epilogue_index(self.0@.last()),
    {
        self.0.is_epilogue()
    }

    fn is_prologue(&self) -> (r: bool)
        requires
            self.0@.len() >= 1,
        ensures
            r == is_prologue_index(self.0@.last()),
    {
        self.0.is_prologue()
    }
}


/// Where `StepPath::navigator` leads: the first step at or below the item
/// that `path` addresses, or `None` when it addresses no item.
pub open spec fn navigator_spec(root: Pipeline, path: Seq<usize>) -> Option<Seq<usize>> {
    if points_at_item(root, path) {
        enter(root, path)
    } else {
        None
    }
}

impl StepPath {
    /// Binds this path to a pipeline: a navigator that points at the step
    /// addressed by the path, or, when the path addresses a nested pipeline,
    /// at the first step that runs in it. `None` when the path addresses no
    /// item of the pipeline.
    pub fn navigator<'a>(&self, root: &'a Pipeline) -> (r: Option<StepNavigator<'a>>)
        requires
            root.well_formed(),
            self@.len() >= 1,
        ensures
            match r {
                Some(n) => n.wf() && n.root_spec() == *root && navigator_spec(*root, self@) == Some(n.0@),
                None => navigator_spec(*root, self@) is None,
            },
    {
        let ghost path = self@;
        let n = self.depth();
        let mut ancestors: Vec<&'a Pipeline> = Vec::new();
        ancestors.push(root);
        let mut i: usize = 0;
        assert(path.take(0) =~= Seq::<usize>::empty());
        while i + 1 < n
            invariant
                path == self@,
                n == path.len(),
                n >= 1,
                i + 1 <= n,
                chain(*root, path.take(i + 1), ancestors@),
            decreases n - i,
        {
            let enclosing_pipeline = ancestors[i];
            let leaf = self.0.get(i);
            proof {
                assert(path.take(i + 1).take(i as int) =~= path.take(i as int));
                assert(pipeline_at(*root, path.take(i as int)) == Some(*enclosing_pipeline));
                assert(path.take(i + 1).drop_last() =~= path.take(i as int));
                assert(path.take(i + 1).last() == leaf);
                lemma_pipeline_at_push(*root, path.take(i + 1));
            }
            if leaf < STEP0_INDEX {
                proof {
                    assert(path.take(i + 1) =~= path.drop_last().take(i + 1));
                    lemma_pipeline_at_prefix_none(*root, path.drop_last(), (i + 1) as nat);
                }
                return None;
            }
            let step_index = leaf - STEP0_INDEX;
            if step_index >= enclosing_pipeline.steps.len() {
                proof {
                    assert(path.take(i + 1) =~= path.drop_last().take(i + 1));
                    lemma_pipeline_at_prefix_none(*root, path.drop_last(), (i + 1) as nat);
                }
                return None;
            }
            match &enclosing_pipeline.steps[step_index] {
                StepOrPipeline::Pipeline(_, nested) => {
                    ancestors.push(nested);
                    proof {
                        assert forall|k: int| 0 <= k < ancestors@.len() implies pipeline_at(*root, path.take(i + 2).take(k))
                            == Some(*#[trigger] ancestors@[k]) by {
                            if k < i + 1 {
                                assert(path.take(i + 2).take(k) =~= path.take(i + 1).take(k));
                            } else {
                                assert(path.take(i + 2).take(k) =~= path.take(i + 1));
                            }
                        }
                    }
                },
                StepOrPipeline::Step(_) => {
                    proof {
                        assert(path.take(i + 1) =~= path.drop_last().take(i + 1));
                        lemma_pipeline_at_prefix_none(*root, path.drop_last(), (i + 1) as nat);
                    }
                    return None;
                },
            }
            i = i + 1;
        }
        assert(path.take(n as int) =~= path);
        let nav = StepNavigator(self.clone(), ancestors);
        proof {
            assert(path.take(n - 1) =~= path.drop_last());
            assert(nav.1@[n - 1] == ancestors@[n - 1]);
            lemma_pipeline_at_fits(*root, usize::MAX as nat, path.drop_last());
        }
        let enc = ancestors_last(&nav.1);
        if !leaf_is_item(enc, self.leaf()) {
            return None;
        }
        nav.enter()
    }
}

/// The last pipeline of a non-empty list.
fn ancestors_last<'a>(v: &Vec<&'a Pipeline>) -> (r: &'a Pipeline)
    requires
        v@.len() >= 1,
    ensures
        r == v@.last(),
{
    v[v.len() - 1]
}

/// Whether `leaf` addresses an item of `e`.
fn leaf_is_item(e: &Pipeline, leaf: usize) -> (r: bool)
    ensures
        r == is_item_of(*e, leaf),
{
    if leaf < STEP0_INDEX {
        leaf - PROLOGUE_INDEX < e.prologue.len()
    } else if leaf >= EPILOGUE_START_INDEX {
        leaf - EPILOGUE_START_INDEX < e.epilogue.len()
    } else {
        leaf - STEP0_INDEX < e.steps.len()
    }
}

/// When a prefix of a path does not lead through nested pipelines, neither
/// does the whole path.
pub proof fn lemma_pipeline_at_prefix_none(root: Pipeline, path: Seq<usize>, k: nat)
    requires
        k <= path.len(),
        pipeline_at(root, path.take(k as int)) is None,
    ensures
        pipeline_at(root, path) is None,
{
    assert(path =~= path.take(k as int) + path.skip(k as int));
    lemma_pipeline_at_concat(root, path.take(k as int), path.skip(k as int));
}


/// Binding the path of a step to its pipeline yields a navigator at that
/// same step: paths taken from navigators round-trip through
/// `StepPath::navigator`.
pub proof fn lemma_navigator_round_trip(root: Pipeline, path: Seq<usize>)
    requires
        points_at_step(root, path),
    ensures
        navigator_spec(root, path) == Some(path),
{
}

} // verus!
