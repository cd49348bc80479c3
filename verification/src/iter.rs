//! Traversal of all steps of a pipeline and of its nested pipelines.

use crate::navi::{is_step_of, lemma_pipeline_at_concat, pipeline_at, points_at_step};
use crate::pipeline::{Pipeline, StepOrPipeline};
use crate::step_path::{StepPath, EPILOGUE_START_INDEX, PROLOGUE_INDEX, STEP0_INDEX};
use vstd::prelude::*;

verus! {

/// The paths of the first `n` prologue steps.
pub open spec fn prologue_paths(n: nat) -> Seq<Seq<usize>> {
    Seq::new(n, |k: int| seq![(PROLOGUE_INDEX + k) as usize])
}

/// The paths of the first `n` epilogue steps.
pub open spec fn epilogue_paths(n: nat) -> Seq<Seq<usize>> {
    Seq::new(n, |k: int| seq![(EPILOGUE_START_INDEX + k) as usize])
}

/// Each path of `s` with `i` put in front.
pub open spec fn prefixed(i: usize, s: Seq<Seq<usize>>) -> Seq<Seq<usize>> {
    s.map_values(|t: Seq<usize>| seq![i] + t)
}

/// The paths, relative to `p`, of every step of `p` in traversal order:
/// prologue steps, then the steps of each item (descending into nested
/// pipelines), then epilogue steps.
pub open spec fn all_steps(p: Pipeline) -> Seq<Seq<usize>>
    decreases p, p.steps@.len() + 1,
{
    prologue_paths(p.prologue@.len()) + item_steps(p, p.steps@.len()) + epilogue_paths(p.epilogue@.len())
}

/// The step paths of the first `n` items of `p`.
pub open spec fn item_steps(p: Pipeline, n: nat) -> Seq<Seq<usize>>
    decreases p, n,
{
    if n == 0 || n > p.steps@.len() {
        Seq::empty()
    } else {
        let i = (n - 1) as int;
        item_steps(p, (n - 1) as nat) + match p.steps@[i] {
            StepOrPipeline::Step(_) => seq![seq![(STEP0_INDEX + i) as usize]],
            StepOrPipeline::Pipeline(_, q) => prefixed((STEP0_INDEX + i) as usize, all_steps(q)),
        }
    }
}

/// Iterates the paths of all steps of a pipeline and of its nested
/// pipelines, in traversal order.
pub struct StepPathIter {
    paths: Vec<StepPath>,
    next_ix: usize,
}

impl StepPathIter {
    /// The paths that remain to be yielded.
    pub closed spec fn remaining(&self) -> Seq<Seq<usize>> {
        if self.next_ix <= self.paths@.len() {
            self.paths@.skip(self.next_ix as int).map_values(|s: StepPath| s@)
        } else {
            Seq::empty()
        }
    }

    /// An iterator over all steps of `pipeline`.
    pub fn new(pipeline: &Pipeline) -> (r: Self)
        requires
            pipeline.well_formed(),
        ensures
            r.remaining() == all_steps(*pipeline),
    {
        let mut paths: Vec<StepPath> = Vec::new();
        let prefix = StepPath::empty();
        collect(pipeline, &prefix, &mut paths, Ghost(usize::MAX as nat));
        let r = StepPathIter { paths, next_ix: 0 };
        proof {
            let all = all_steps(*pipeline);
            assert(r.paths@.skip(0) =~= r.paths@);
            assert forall|k: int| 0 <= k < all.len() implies #[trigger] r.remaining()[k] == all[k] by {
                assert(r.paths@[0 + k]@ == Seq::<usize>::empty() + all[k]);
                assert(Seq::<usize>::empty() + all[k] =~= all[k]);
            }
            assert(r.remaining() =~= all);
        }
        r
    }

    /// The next step path, if any.
    pub fn next(&mut self) -> (r: Option<StepPath>)
        ensures
            old(self).remaining().len() == 0 ==> r is None && final(self).remaining() == old(self).remaining(),
            old(self).remaining().len() > 0 ==> (r matches Some(p) && p@ == old(self).remaining()[0]
                && final(self).remaining() == old(self).remaining().drop_first()),
    {
        if self.next_ix >= self.paths.len() {
            return None;
        }
        let p = self.paths[self.next_ix].clone();
        self.next_ix = self.next_ix + 1;
        assert(self.paths@.skip(self.next_ix as int) =~= old(self).paths@.skip(old(self).next_ix as int).drop_first());
        Some(p)
    }
}

/// Appends to `out` the paths of every step of `p`, each put after `prefix`.
#[verifier::rlimit(50)]
#[verifier::spinoff_prover]
fn collect(p: &Pipeline, prefix: &StepPath, out: &mut Vec<StepPath>, Ghost(n): Ghost<nat>)
    requires
        p.fits_within(n),
        prefix@.len() + n <= usize::MAX,
    ensures
        final(out)@.len() == old(out)@.len() + all_steps(*p).len(),
        forall|k: int| 0 <= k < old(out)@.len() ==> #[trigger] final(out)@[k] == old(out)@[k],
        forall|k: int| 0 <= k < all_steps(*p).len() ==>
            #[trigger] final(out)@[old(out)@.len() + k]@ == prefix@ + all_steps(*p)[k],
    decreases *p,
{
    let ghost base = out@.len();
    let ghost start = out@;
    let np = p.prologue.len();
    let mut k: usize = 0;
    while k < np
        invariant
            np == p.prologue@.len(),
            np <= STEP0_INDEX,
            k <= np,
            prefix@.len() + 1 <= usize::MAX,
            out@.len() == base + k,
            forall|j: int| 0 <= j < base ==> #[trigger] out@[j] == start[j],
            forall|j: int| 0 <= j < k ==> #[trigger] out@[base + j]@ == prefix@ + prologue_paths(np as nat)[j],
        decreases np - k,
    {
        let path = prefix.clone().concat(StepPath::prologue_step(k));
        out.push(path);
        k = k + 1;
    }
    let ghost after_prologue = out@;
    let ns = p.steps.len();
    let mut i: usize = 0;
    while i < ns
        invariant
            ns == p.steps@.len(),
            STEP0_INDEX + ns <= EPILOGUE_START_INDEX,
            p.fits_within(n),
            prefix@.len() + n <= usize::MAX,
            i <= ns,
            out@.len() == base + np + item_steps(*p, i as nat).len(),
            forall|j: int| 0 <= j < base + np ==> #[trigger] out@[j] == after_prologue[j],
            forall|j: int| 0 <= j < item_steps(*p, i as nat).len() ==>
                #[trigger] out@[base + np + j]@ == prefix@ + item_steps(*p, i as nat)[j],
        decreases ns - i,
    {
        let ghost before = out@;
        let ghost prev_items = item_steps(*p, i as nat);
        assert(item_steps(*p, (i + 1) as nat).subrange(0, prev_items.len() as int) =~= prev_items);
        let ghost leaf = (STEP0_INDEX + i) as usize;
        let ghost next_items = item_steps(*p, (i + 1) as nat);
        match &p.steps[i] {
            StepOrPipeline::Step(_) => {
                let path = prefix.clone().concat(StepPath::step(i));
                out.push(path);
                proof {
                    assert(next_items =~= prev_items + seq![seq![leaf]]);
                    assert forall|j: int| 0 <= j < next_items.len() implies
                        #[trigger] out@[base + np + j]@ == prefix@ + next_items[j] by {
                        if j < prev_items.len() {
                            assert(out@[base + np + j] == before[base + np + j]);
                        }
                    }
                }
            },
            StepOrPipeline::Pipeline(_, q) => {
                assert(q.fits_within((n - 1) as nat));
                let nested_prefix = prefix.clone().concat(StepPath::step(i));
                let ghost mid = out@.len();
                collect(q, &nested_prefix, out, Ghost((n - 1) as nat));
                proof {
                    let aq = all_steps(*q);
                    assert(next_items =~= prev_items + prefixed(leaf, aq));
                    assert forall|j: int| 0 <= j < next_items.len() implies
                        #[trigger] out@[base + np + j]@ == prefix@ + next_items[j] by {
                        if j < prev_items.len() {
                            assert(out@[base + np + j] == before[base + np + j]);
                        } else {
                            let jj = j - prev_items.len();
                            assert(out@[mid + jj]@ == nested_prefix@ + aq[jj]);
                            assert(nested_prefix@ + aq[jj] =~= prefix@ + (seq![leaf] + aq[jj]));
                        }
                    }
                }
            },
        }
        i = i + 1;
    }
    let ghost after_items = out@;
    let ne = p.epilogue.len();
    let mut k: usize = 0;
    while k < ne
        invariant
            ne == p.epilogue@.len(),
            ne <= usize::MAX - EPILOGUE_START_INDEX + 1,
            k <= ne,
            prefix@.len() + 1 <= usize::MAX,
            out@.len() == base + np + item_steps(*p, ns as nat).len() + k,
            forall|j: int| 0 <= j < base + np + item_steps(*p, ns as nat).len() ==> #[trigger] out@[j] == after_items[j],
            forall|j: int| 0 <= j < k ==> #[trigger] out@[base + np + item_steps(*p, ns as nat).len() + j]@
                == prefix@ + epilogue_paths(ne as nat)[j],
        decreases ne - k,
    {
        let path = prefix.clone().concat(StepPath::epilogue_step(k));
        out.push(path);
        k = k + 1;
    }
    proof {
        let all = all_steps(*p);
        let pl = prologue_paths(np as nat);
        let it = item_steps(*p, ns as nat);
        let el = epilogue_paths(ne as nat);
        assert(all =~= pl + it + el);
        assert forall|k: int| 0 <= k < all.len() implies #[trigger] out@[base + k]@ == prefix@ + all[k] by {
            if k < pl.len() {
                assert(out@[base + k] == after_items[base + k]);
                assert(after_items[base + k] == after_prologue[base + k]);
                assert(all[k] == pl[k]);
            } else if k < pl.len() + it.len() {
                let j = k - pl.len();
                assert(out@[base + k] == after_items[base + k]);
                assert(after_items[base + np + j]@ == prefix@ + it[j]);
                assert(all[k] == it[j]);
            } else {
                let j = k - pl.len() - it.len();
                assert(out@[base + np + it.len() + j]@ == prefix@ + el[j]);
                assert(all[k] == el[j]);
            }
        }
    }
}


/// Every path that the traversal of a pipeline yields addresses a step of
/// that pipeline, at a depth within the levels its nesting fits in.
pub proof fn lemma_all_steps_point_at_steps(p: Pipeline, n: nat)
    requires
        p.fits_within(n),
    ensures
        forall|k: int| 0 <= k < all_steps(p).len() ==> points_at_step(p, #[trigger] all_steps(p)[k])
            && all_steps(p)[k].len() <= n,
    decreases p, p.steps@.len() + 1,
{
    let pl = prologue_paths(p.prologue@.len());
    let it = item_steps(p, p.steps@.len());
    let el = epilogue_paths(p.epilogue@.len());
    lemma_item_steps_point_at_steps(p, n, p.steps@.len());
    assert forall|k: int| 0 <= k < all_steps(p).len() implies points_at_step(p, #[trigger] all_steps(p)[k])
        && all_steps(p)[k].len() <= n by {
        let s = all_steps(p)[k];
        if k < pl.len() {
            assert(s == pl[k]);
            assert(s.drop_last() =~= Seq::<usize>::empty());
        } else if k < pl.len() + it.len() {
            assert(s == it[k - pl.len()]);
        } else {
            assert(s == el[k - pl.len() - it.len()]);
            assert(s.drop_last() =~= Seq::<usize>::empty());
        }
    }
}

/// Every path of the steps of the first `m` items addresses a step.
pub proof fn lemma_item_steps_point_at_steps(p: Pipeline, n: nat, m: nat)
    requires
        p.fits_within(n),
    ensures
        forall|k: int| 0 <= k < item_steps(p, m).len() ==> points_at_step(p, #[trigger] item_steps(p, m)[k])
            && item_steps(p, m)[k].len() <= n,
    decreases p, m,
{
    if m > 0 && m <= p.steps@.len() {
        let i = (m - 1) as int;
        let leaf = (STEP0_INDEX + i) as usize;
        let prev = item_steps(p, (m - 1) as nat);
        lemma_item_steps_point_at_steps(p, n, (m - 1) as nat);
        match p.steps@[i] {
            StepOrPipeline::Step(_) => {
                assert forall|k: int| 0 <= k < item_steps(p, m).len() implies points_at_step(p, #[trigger] item_steps(p, m)[k])
                    && item_steps(p, m)[k].len() <= n by {
                    if k >= prev.len() {
                        assert(item_steps(p, m)[k] == seq![leaf]);
                        assert(seq![leaf].drop_last() =~= Seq::<usize>::empty());
                    } else {
                        assert(item_steps(p, m)[k] == prev[k]);
                    }
                }
            },
            StepOrPipeline::Pipeline(_, q) => {
                assert(q.fits_within((n - 1) as nat));
                lemma_all_steps_point_at_steps(q, (n - 1) as nat);
                let aq = all_steps(q);
                assert forall|k: int| 0 <= k < item_steps(p, m).len() implies points_at_step(p, #[trigger] item_steps(p, m)[k])
                    && item_steps(p, m)[k].len() <= n by {
                    if k >= prev.len() {
                        let j = k - prev.len();
                        let t = aq[j];
                        assert(item_steps(p, m)[k] == seq![leaf] + t);
                        assert(points_at_step(q, t));
                        assert((seq![leaf] + t).drop_last() =~= seq![leaf] + t.drop_last());
                        lemma_pipeline_at_concat(p, seq![leaf], t.drop_last());
                        reveal_with_fuel(pipeline_at, 2);
                        assert(seq![leaf].drop_first() =~= Seq::<usize>::empty());
                        assert(pipeline_at(p, seq![leaf]) == Some(q));
                        assert((seq![leaf] + t).last() == t.last());
                    } else {
                        assert(item_steps(p, m)[k] == prev[k]);
                    }
                }
            },
        }
    }
}

impl Pipeline {
    /// Iterates the paths of all steps of this pipeline and of its nested
    /// pipelines, in traversal order; each path leads to its step through
    /// `StepPath::navigator`.
    pub fn iter_steps(&self) -> (r: StepPathIter)
        requires
            self.well_formed(),
        ensures
            r.remaining() == all_steps(*self),
    {
        StepPathIter::new(self)
    }
}

} // verus!
