//! Pipeline execution scopes.
//!
//! Every pipeline of a top-level pipeline has a scope: the root scope for the
//! top-level pipeline and one nested scope per nested pipeline. A scope is
//! active while one of its steps, or a step of a pipeline nested in it, runs;
//! when a scope is active, all the scopes that enclose it are active too.
//! Entering a scope renews its limits: the limits that its pipeline sets,
//! held within the limits of the enclosing scope.

use crate::limits::{clamp_spec, within, ScopeLimits};
use crate::navi::{lemma_pipeline_at_prefix_none, pipeline_at};
use crate::pipeline::{Pipeline, StepOrPipeline};
use crate::step_path::{StepPath, STEP0_INDEX};
use vstd::prelude::*;

verus! {

/// The scope of one pipeline: its limits, when it was last entered, how many
/// times it was entered, its metric name and the scopes of its nested
/// pipelines (one entry per item of the pipeline, `None` for plain steps).
#[derive(Debug)]
pub struct Scope {
    /// The limits in force for the steps of this scope.
    pub limits: ScopeLimits,
    /// The limits that the scope's pipeline sets, if any.
    pub configured: Option<ScopeLimits>,
    /// When the scope was entered, in milliseconds, while it is active.
    pub entered_at: Option<u64>,
    /// When the scope was most recently entered, in milliseconds; kept once
    /// the scope is left.
    pub last_entered: Option<u64>,
    /// How many times the scope was entered.
    pub enter_counter: u32,
    /// The name under which the scope's metrics are reported.
    pub name: String,
    /// The scopes of the nested pipelines, by item index.
    pub nested: Vec<Option<Scope>>,
}

/// No scope in this tree is active.
pub open spec fn all_inactive(s: Scope) -> bool
    decreases s,
{
    &&& s.entered_at is None
    &&& forall|i: int| 0 <= i < s.nested@.len() ==> match #[trigger] s.nested@[i] {
        Some(c) => all_inactive(c),
        None => true,
    }
}

/// Every inactive scope of this tree has only inactive scopes below it.
pub open spec fn tidy(s: Scope) -> bool
    decreases s,
{
    &&& (s.entered_at is None ==> all_inactive(s))
    &&& forall|i: int| 0 <= i < s.nested@.len() ==> match #[trigger] s.nested@[i] {
        Some(c) => tidy(c),
        None => true,
    }
}

/// The nested scope of `s` for the item addressed by `leaf`.
pub open spec fn child_at(s: Scope, leaf: usize) -> Option<Scope> {
    if leaf >= STEP0_INDEX && leaf - STEP0_INDEX < s.nested@.len() {
        s.nested@[leaf - STEP0_INDEX]
    } else {
        None
    }
}

/// The scope reached from `s` by following the nested pipelines at `path`.
pub open spec fn scope_at(s: Scope, path: Seq<usize>) -> Option<Scope>
    decreases path.len(),
{
    if path.len() == 0 {
        Some(s)
    } else {
        match child_at(s, path[0]) {
            Some(c) => scope_at(c, path.drop_first()),
            None => None,
        }
    }
}

/// The active scopes below `s` are exactly those along `path`: `s` and
/// every scope on the path are active, every other scope is not.
pub open spec fn active_chain(s: Scope, path: Seq<usize>) -> bool
    decreases path.len(),
{
    &&& s.entered_at is Some
    &&& forall|i: int| 0 <= i < s.nested@.len() && (path.len() == 0 || i != path[0] - STEP0_INDEX)
        ==> match #[trigger] s.nested@[i] {
            Some(c) => all_inactive(c),
            None => true,
        }
    &&& path.len() > 0 ==> match child_at(s, path[0]) {
        Some(c) => active_chain(c, path.drop_first()),
        None => false,
    }
}

/// Along `path`, the limits of every scope are held within the limits of
/// the scope that encloses it.
pub open spec fn limits_nested(s: Scope, path: Seq<usize>) -> bool
    decreases path.len(),
{
    path.len() > 0 ==> match child_at(s, path[0]) {
        Some(c) => within(c.limits, s.limits) && limits_nested(c, path.drop_first()),
        None => true,
    }
}

/// Along `path`, the limits of every scope are those it was entered with:
/// the limits its pipeline sets, held within the limits of the scope that
/// encloses it (the enclosing scope's own limits when it sets none).
pub open spec fn limits_renewed(s: Scope, path: Seq<usize>) -> bool
    decreases path.len(),
{
    path.len() > 0 ==> match child_at(s, path[0]) {
        Some(c) => c.limits == entered_limits(c.configured, s.limits) && limits_renewed(c, path.drop_first()),
        None => true,
    }
}

/// The scope tree mirrors the pipeline: one nested scope for each nested
/// pipeline, with the limits that pipeline sets.
pub open spec fn shaped(s: Scope, p: Pipeline) -> bool
    decreases p,
{
    &&& s.configured == p.limits
    &&& s.nested@.len() == p.steps@.len()
    &&& forall|i: int| 0 <= i < p.steps@.len() ==> match #[trigger] p.steps@[i] {
        StepOrPipeline::Pipeline(_, q) => s.nested@[i] matches Some(c) && shaped(c, q),
        StepOrPipeline::Step(_) => s.nested@[i] is None,
    }
}

/// Two scope trees have the same structure, configuration and names; only
/// their limits and activity may differ.
pub open spec fn same_shape(a: Scope, b: Scope) -> bool
    decreases a,
{
    &&& a.configured == b.configured
    &&& a.name@ == b.name@
    &&& a.nested@.len() == b.nested@.len()
    &&& forall|i: int| 0 <= i < a.nested@.len() ==> match (#[trigger] a.nested@[i], b.nested@[i]) {
        (Some(x), Some(y)) => same_shape(x, y),
        (None, None) => true,
        _ => false,
    }
}

/// The limits a scope gets when it is entered within `enclosing`: the ones
/// its pipeline sets, else the enclosing ones, held within the enclosing
/// ones.
pub open spec fn entered_limits(configured: Option<ScopeLimits>, enclosing: ScopeLimits) -> ScopeLimits {
    match configured {
        Some(l) => clamp_spec(l, enclosing),
        None => clamp_spec(enclosing, enclosing),
    }
}

/// The path of the scope (the enclosing pipeline) of the step at `step`.
pub open spec fn scope_path(step: Seq<usize>) -> Seq<usize> {
    if step.len() <= 1 {
        Seq::empty()
    } else {
        step.drop_last()
    }
}

proof fn lemma_all_inactive_tidy(s: Scope)
    requires
        all_inactive(s),
    ensures
        tidy(s),
    decreases s,
{
    assert forall|i: int| 0 <= i < s.nested@.len() implies match #[trigger] s.nested@[i] {
        Some(c) => tidy(c),
        None => true,
    } by {
        if let Some(c) = s.nested@[i] {
            lemma_all_inactive_tidy(c);
        }
    }
}

proof fn lemma_chain_tidy(s: Scope, path: Seq<usize>)
    requires
        active_chain(s, path),
    ensures
        tidy(s),
    decreases path.len(),
{
    assert forall|i: int| 0 <= i < s.nested@.len() implies match #[trigger] s.nested@[i] {
        Some(c) => tidy(c),
        None => true,
    } by {
        if let Some(c) = s.nested@[i] {
            if path.len() > 0 && i == path[0] - STEP0_INDEX {
                lemma_chain_tidy(c, path.drop_first());
            } else {
                lemma_all_inactive_tidy(c);
            }
        }
    }
}

proof fn lemma_same_shape_shaped(a: Scope, b: Scope, p: Pipeline)
    requires
        same_shape(a, b),
        shaped(a, p),
    ensures
        shaped(b, p),
    decreases p,
{
    assert forall|i: int| 0 <= i < p.steps@.len() implies match #[trigger] p.steps@[i] {
        StepOrPipeline::Pipeline(_, q) => b.nested@[i] matches Some(c) && shaped(c, q),
        StepOrPipeline::Step(_) => b.nested@[i] is None,
    } by {
        match p.steps@[i] {
            StepOrPipeline::Pipeline(_, q) => {
                let x = a.nested@[i]->0;
                let y = b.nested@[i]->0;
                assert(same_shape(x, y));
                lemma_same_shape_shaped(x, y, q);
            },
            StepOrPipeline::Step(_) => {
                assert(a.nested@[i] is None);
            },
        }
    }
}

proof fn lemma_same_shape_refl(a: Scope)
    ensures
        same_shape(a, a),
    decreases a,
{
    assert forall|i: int| 0 <= i < a.nested@.len() implies match (#[trigger] a.nested@[i], a.nested@[i]) {
        (Some(x), Some(y)) => same_shape(x, y),
        (None, None) => true,
        _ => false,
    } by {
        if let Some(x) = a.nested@[i] {
            lemma_same_shape_refl(x);
        }
    }
}

/// A nested pipeline of a shaped scope tree has a scope.
proof fn lemma_shaped_scope_at(s: Scope, p: Pipeline, path: Seq<usize>)
    requires
        shaped(s, p),
        pipeline_at(p, path) is Some,
    ensures
        scope_at(s, path) matches Some(c) && shaped(c, pipeline_at(p, path)->0),
    decreases path.len(),
{
    if path.len() > 0 {
        let i = path[0] - STEP0_INDEX;
        match p.steps@[i] {
            StepOrPipeline::Pipeline(_, q) => {
                lemma_shaped_scope_at(s.nested@[i]->0, q, path.drop_first());
            },
            StepOrPipeline::Step(_) => {},
        }
    }
}

/// Public API
impl Scope {
    /// Whether one of the scope's steps, or of its nested pipelines' steps,
    /// is running.
    pub fn is_active(&self) -> (r: bool)
        ensures
            r == (self.entered_at is Some),
    {
        self.entered_at.is_some()
    }

    /// How long the scope has been active at time `now`, in milliseconds;
    /// `None` when it is not active.
    pub fn elapsed(&self, now: u64) -> (r: Option<u64>)
        ensures
            r == match self.entered_at {
                Some(start) => Some(if now >= start { (now - start) as u64 } else { 0u64 }),
                None => None::<u64>,
            },
    {
        match self.entered_at {
            Some(start) => Some(now.saturating_sub(start)),
            None => None,
        }
    }

    /// When the scope was most recently entered, whether or not it is still
    /// active; `None` when it was never entered.
    pub fn started_at(&self) -> (r: Option<u64>)
        ensures
            r == self.last_entered,
    {
        self.last_entered
    }

    /// The limits for the steps that run in this scope.
    pub fn limits(&self) -> (r: &ScopeLimits)
        ensures
            *r == self.limits,
    {
        &self.limits
    }

    /// Leaves the scope, and every active scope nested in it; returns how
    /// long the scope was active.
    pub fn leave(&mut self, now: u64) -> (r: u64)
        requires
            old(self).entered_at is Some,
        ensures
            final(self).entered_at is None,
            final(self).last_entered == old(self).last_entered,
            tidy(*old(self)) ==> all_inactive(*final(self)),
            same_shape(*old(self), *final(self)),
            final(self).limits == old(self).limits,
            r == match old(self).entered_at {
                Some(start) => if now >= start { (now - start) as u64 } else { 0u64 },
                None => 0u64,
            },
        decreases *old(self),
    {
        let ghost before = self.nested@;
        let n = self.nested.len();
        let mut i: usize = 0;
        while i < n
            invariant
                n == self.nested@.len(),
                n == before.len(),
                before == old(self).nested@,
                self.limits == old(self).limits,
                self.configured == old(self).configured,
                self.name@ == old(self).name@,
                self.entered_at == old(self).entered_at,
                self.last_entered == old(self).last_entered,
                i <= n,
                forall|j: int| i <= j < n ==> self.nested@[j] == before[j],
                forall|j: int| 0 <= j < i ==> match (#[trigger] before[j], self.nested@[j]) {
                    (Some(x), Some(y)) => same_shape(x, y) && (tidy(x) ==> all_inactive(y)),
                    (None, None) => true,
                    _ => false,
                },
            decreases n - i,
        {
            let ghost bi = before[i as int];
            match &mut self.nested[i] {
                Some(c) => {
                    if c.entered_at.is_some() {
                        proof {
                            assert(old(self).nested@[i as int] == before[i as int]);
                            assert(decreases_to!(*old(self) => old(self).nested));
                            assert(decreases_to!(old(self).nested => old(self).nested@));
                            assert(decreases_to!(old(self).nested@ => old(self).nested@[i as int]));
                            assert(decreases_to!(old(self).nested@[i as int] => old(self).nested@[i as int]->0));
                        }
                        c.leave(now);
                    } else {
                        proof {
                            lemma_same_shape_refl(*c);
                        }
                    }
                },
                None => {},
            }
            proof {
                match bi {
                    Some(x) => {
                        if x.entered_at is None && tidy(x) {
                            assert(all_inactive(x));
                        }
                    },
                    None => {},
                }
            }
            i = i + 1;
        }
        let r = match self.entered_at {
            Some(start) => now.saturating_sub(start),
            None => 0,
        };
        self.entered_at = None;
        proof {
            if tidy(*old(self)) {
                assert forall|j: int| 0 <= j < self.nested@.len() implies match #[trigger] self.nested@[j] {
                    Some(c) => all_inactive(c),
                    None => true,
                } by {
                    match before[j] {
                        Some(x) => {
                            assert(tidy(x));
                        },
                        None => {},
                    }
                }
            }
            assert forall|j: int| 0 <= j < old(self).nested@.len() implies match (#[trigger] old(self).nested@[j], self.nested@[j]) {
                (Some(x), Some(y)) => same_shape(x, y),
                (None, None) => true,
                _ => false,
            } by {
                assert(old(self).nested@[j] == before[j]);
            }
        }
        r
    }
}

/// Private API
impl Scope {
    /// Enters the scope within `enclosing`: renews its limits and records
    /// when it was entered.
    fn enter(&mut self, enclosing: &ScopeLimits, now: u64)
        requires
            old(self).entered_at is None,
        ensures
            final(self).limits == entered_limits(old(self).configured, *enclosing),
            within(final(self).limits, *enclosing),
            final(self).entered_at == Some(now),
            final(self).last_entered == Some(now),
            final(self).enter_counter == if old(self).enter_counter < u32::MAX {
                (old(self).enter_counter + 1) as u32
            } else {
                u32::MAX
            },
            final(self).configured == old(self).configured,
            final(self).name@ == old(self).name@,
            final(self).nested@ == old(self).nested@,
    {
        let base = match self.configured {
            Some(l) => l,
            None => *enclosing,
        };
        self.limits = base.clamp(enclosing);
        self.entered_at = Some(now);
        self.last_entered = Some(now);
        self.enter_counter = self.enter_counter.saturating_add(1);
    }

    /// The scope of the nested pipeline at `path`, from index `i` of `path`
    /// on.
    fn get(&self, path: &StepPath, i: usize) -> (r: Option<&Scope>)
        requires
            i <= path@.len(),
        ensures
            match (r, scope_at(*self, path@.skip(i as int))) {
                (Some(x), Some(y)) => *x == y,
                (None, None) => true,
                _ => false,
            },
        decreases path@.len() - i,
    {
        if i == path.depth() {
            assert(path@.skip(i as int).len() == 0);
            return Some(self);
        }
        let leaf = path.0.get(i);
        assert(path@.skip(i as int)[0] == leaf);
        assert(path@.skip(i as int).drop_first() =~= path@.skip(i + 1));
        if leaf < STEP0_INDEX || leaf - STEP0_INDEX >= self.nested.len() {
            return None;
        }
        match &self.nested[leaf - STEP0_INDEX] {
            Some(c) => c.get(path, i + 1),
            None => None,
        }
    }

    /// Leaves every active scope below the scope at `path[i..]` (which must
    /// lie on the active chain `chain`), keeping that scope active.
    fn leave_below(&mut self, path: &StepPath, i: usize, now: u64, Ghost(chain): Ghost<Seq<usize>>)
        requires
            i <= path@.len(),
            active_chain(*old(self), chain),
            limits_nested(*old(self), chain),
            limits_renewed(*old(self), chain),
            chain.take(path@.len() - i) == path@.skip(i as int),
            path@.len() - i <= chain.len(),
        ensures
            active_chain(*final(self), path@.skip(i as int)),
            limits_nested(*final(self), path@.skip(i as int)),
            limits_renewed(*final(self), path@.skip(i as int)),
            same_shape(*old(self), *final(self)),
            final(self).limits == old(self).limits,
        decreases path@.len() - i,
    {
        let ghost before = self.nested@;
        if i == path.depth() {
            proof {
                lemma_chain_tidy(*old(self), chain);
            }
            let n = self.nested.len();
            let mut j: usize = 0;
            while j < n
                invariant
                    n == self.nested@.len(),
                    n == before.len(),
                    before == old(self).nested@,
                    self.limits == old(self).limits,
                    self.configured == old(self).configured,
                    self.name@ == old(self).name@,
                    self.entered_at == old(self).entered_at,
                    j <= n,
                    self.entered_at is Some,
                    forall|k: int| j <= k < n ==> self.nested@[k] == before[k],
                    forall|k: int| 0 <= k < j ==> match (#[trigger] before[k], self.nested@[k]) {
                        (Some(x), Some(y)) => same_shape(x, y) && all_inactive(y),
                        (None, None) => true,
                        _ => false,
                    },
                    forall|k: int| 0 <= k < n ==> match #[trigger] before[k] {
                        Some(x) => tidy(x),
                        None => true,
                    },
                decreases n - j,
            {
                match &mut self.nested[j] {
                    Some(c) => {
                        if c.entered_at.is_some() {
                            c.leave(now);
                        } else {
                            proof {
                                lemma_same_shape_refl(*c);
                            }
                        }
                    },
                    None => {},
                }
                j = j + 1;
            }
            proof {
                assert(path@.skip(i as int) =~= Seq::<usize>::empty());
                assert forall|k: int| 0 <= k < self.nested@.len() implies match #[trigger] self.nested@[k] {
                    Some(c) => all_inactive(c),
                    None => true,
                } by {
                    match before[k] {
                        Some(x) => {},
                        None => {},
                    }
                }
                assert(active_chain(*self, path@.skip(i as int)));
                assert forall|k: int| 0 <= k < old(self).nested@.len() implies match (#[trigger] old(self).nested@[k], self.nested@[k]) {
                    (Some(x), Some(y)) => same_shape(x, y),
                    (None, None) => true,
                    _ => false,
                } by {
                    assert(old(self).nested@[k] == before[k]);
                }
            }
            return;
        }
        let leaf = path.0.get(i);
        let ghost sub = path@.skip(i as int);
        assert(sub[0] == leaf);
        assert(chain[0] == leaf);
        assert(sub.drop_first() =~= path@.skip(i + 1));
        assert(chain.drop_first().take(path@.len() - (i + 1)) =~= path@.skip(i + 1));
        let k = leaf - STEP0_INDEX;
        match &mut self.nested[k] {
            Some(c) => {
                c.leave_below(path, i + 1, now, Ghost(chain.drop_first()));
            },
            None => {},
        }
        proof {
            assert forall|m: int| 0 <= m < old(self).nested@.len() && m != k implies self.nested@[m] == before[m] by {}
            assert forall|m: int| 0 <= m < old(self).nested@.len() implies match (#[trigger] old(self).nested@[m], self.nested@[m]) {
                (Some(x), Some(y)) => same_shape(x, y),
                (None, None) => true,
                _ => false,
            } by {
                assert(old(self).nested@[m] == before[m]);
                if m != k {
                    if let Some(x) = before[m] {
                        lemma_same_shape_refl(x);
                    }
                }
            }
            assert(child_at(*self, sub[0]) == self.nested@[k as int]);
        }
    }

    /// Enters the scope at `path` (the last index of `path` addresses it from
    /// its enclosing scope), where the active chain reaches its enclosing
    /// scope; its limits are renewed within the enclosing scope's limits.
    fn enter_below(&mut self, path: &StepPath, i: usize, now: u64)
        requires
            i < path@.len(),
            active_chain(*old(self), path@.subrange(i as int, path@.len() - 1)),
            limits_nested(*old(self), path@.subrange(i as int, path@.len() - 1)),
            limits_renewed(*old(self), path@.subrange(i as int, path@.len() - 1)),
            scope_at(*old(self), path@.skip(i as int)) is Some,
        ensures
            active_chain(*final(self), path@.skip(i as int)),
            limits_nested(*final(self), path@.skip(i as int)),
            limits_renewed(*final(self), path@.skip(i as int)),
            same_shape(*old(self), *final(self)),
            final(self).limits == old(self).limits,
        decreases path@.len() - i,
    {
        let ghost before = self.nested@;
        let leaf = path.0.get(i);
        let ghost sub = path@.skip(i as int);
        let ghost upper = path@.subrange(i as int, path@.len() - 1);
        assert(sub[0] == leaf);
        assert(child_at(*old(self), leaf) is Some);
        let k = leaf - STEP0_INDEX;
        let d = path.depth();
        if i + 1 == d {
            assert(upper.len() == 0);
            let enclosing = self.limits;
            match &mut self.nested[k] {
                Some(c) => {
                    proof {
                        assert(all_inactive(*c));
                        lemma_same_shape_refl(*c);
                    }
                    c.enter(&enclosing, now);
                },
                None => {},
            }
            proof {
                let c_old = before[k as int]->0;
                let c_new = self.nested@[k as int]->0;
                assert(sub.drop_first().len() == 0);
                assert(all_inactive(c_old));
                assert forall|m: int| 0 <= m < c_new.nested@.len() implies match #[trigger] c_new.nested@[m] {
                    Some(x) => all_inactive(x),
                    None => true,
                } by {
                    assert(c_new.nested@[m] == c_old.nested@[m]);
                }
                assert(active_chain(c_new, sub.drop_first()));
                assert(within(c_new.limits, self.limits));
                assert(limits_nested(c_new, sub.drop_first()));
                assert(c_new.limits == entered_limits(c_new.configured, self.limits));
                assert(limits_renewed(c_new, sub.drop_first()));
                assert(child_at(*self, sub[0]) == Some(c_new));
            }
        } else {
            assert(upper[0] == leaf);
            assert(upper.drop_first() =~= path@.subrange(i + 1, path@.len() - 1));
            assert(sub.drop_first() =~= path@.skip(i + 1));
            match &mut self.nested[k] {
                Some(c) => {
                    c.enter_below(path, i + 1, now);
                },
                None => {},
            }
            proof {
                let c_old = before[k as int]->0;
                let c_new = self.nested@[k as int]->0;
                assert(child_at(*old(self), upper[0]) == Some(c_old));
                assert(within(c_old.limits, old(self).limits));
                assert(c_new.limits == c_old.limits);
                assert(active_chain(c_new, sub.drop_first()));
                assert(limits_nested(c_new, sub.drop_first()));
                assert(c_old.limits == entered_limits(c_old.configured, old(self).limits));
                assert(c_new.configured == c_old.configured);
                assert(limits_renewed(c_new, sub.drop_first()));
                assert(child_at(*self, sub[0]) == Some(c_new));
            }
        }
        proof {
            assert forall|m: int| 0 <= m < old(self).nested@.len() implies match (#[trigger] old(self).nested@[m], self.nested@[m]) {
                (Some(x), Some(y)) => same_shape(x, y),
                (None, None) => true,
                _ => false,
            } by {
                assert(old(self).nested@[m] == before[m]);
                if m != k {
                    if let Some(x) = before[m] {
                        lemma_same_shape_refl(x);
                    }
                }
            }
            assert(child_at(*self, sub[0]) == self.nested@[k as int]);
            assert forall|m: int| 0 <= m < self.nested@.len() && m != k implies match #[trigger] self.nested@[m] {
                Some(c) => all_inactive(c),
                None => true,
            } by {
                assert(self.nested@[m] == before[m]);
            }
        }
    }
}

/// Construction
impl Scope {
    /// The scope of the top-level pipeline `root` and of all its nested
    /// pipelines, none of them active. The root scope's limits are the ones
    /// that `root` sets, held within the platform's limits.
    pub fn rooted_at(root: &Pipeline, platform_limits: &ScopeLimits) -> (r: Scope)
        requires
            root.well_formed(),
        ensures
            shaped(r, *root),
            all_inactive(r),
            r.limits == entered_limits(root.limits, *platform_limits),
            within(r.limits, *platform_limits),
            r.name@ == root.name@ + "_pipeline"@,
    {
        let base = match root.limits {
            Some(l) => l,
            None => *platform_limits,
        };
        let limits = base.clamp(platform_limits);
        let mut name = root.name.clone();
        name.append("_pipeline");
        let nested = Scope::nested_of(root, &StepPath::empty(), root.name.as_str(), &limits, Ghost(usize::MAX as nat));
        let r = Scope { limits, configured: root.limits, entered_at: None, last_entered: None, enter_counter: 0, name, nested };
        proof {
            assert forall|i: int| 0 <= i < r.nested@.len() implies match #[trigger] r.nested@[i] {
                Some(c) => all_inactive(c),
                None => true,
            } by {
                match root.steps@[i] {
                    StepOrPipeline::Pipeline(_, q) => {},
                    StepOrPipeline::Step(_) => {},
                }
            }
            assert(r.name@ == root.name@ + "_pipeline"@);
        }
        r
    }

    /// The scopes of the items of `local` (whose own path is `path`), with
    /// `enclosing` as their enclosing limits.
    fn nested_of(
        local: &Pipeline,
        path: &StepPath,
        root_name: &str,
        enclosing: &ScopeLimits,
        Ghost(levels): Ghost<nat>,
    ) -> (r: Vec<Option<Scope>>)
        requires
            local.fits_within(levels),
            path@.len() + levels <= usize::MAX,
        ensures
            r@.len() == local.steps@.len(),
            forall|i: int| 0 <= i < local.steps@.len() ==> match #[trigger] local.steps@[i] {
                StepOrPipeline::Pipeline(_, q) => r@[i] matches Some(c) && shaped(c, q) && all_inactive(c),
                StepOrPipeline::Step(_) => r@[i] is None,
            },
        decreases *local, 0nat,
    {
        let mut nested: Vec<Option<Scope>> = Vec::new();
        let n = local.steps.len();
        let mut ix: usize = 0;
        while ix < n
            invariant
                n == local.steps@.len(),
                ix <= n,
                nested@.len() == ix,
                local.fits_within(levels),
                path@.len() + levels <= usize::MAX,
                forall|i: int| 0 <= i < ix ==> match #[trigger] local.steps@[i] {
                    StepOrPipeline::Pipeline(_, q) => nested@[i] matches Some(c) && shaped(c, q) && all_inactive(c),
                    StepOrPipeline::Step(_) => nested@[i] is None,
                },
            decreases n - ix,
        {
            match &local.steps[ix] {
                StepOrPipeline::Pipeline(_, inner) => {
                    assert(local.steps@[ix as int] matches StepOrPipeline::Pipeline(_, q) && q.fits_within((levels - 1) as nat));
                    let child_path = path.clone().concat(StepPath::step(ix));
                    let c = Scope::inner(inner, &child_path, root_name, enclosing, Ghost((levels - 1) as nat));
                    nested.push(Some(c));
                },
                StepOrPipeline::Step(_) => {
                    nested.push(None);
                },
            }
            ix = ix + 1;
        }
        nested
    }

    /// The scope of the nested pipeline `local` at `path`, and of all its
    /// nested pipelines, none of them active.
    fn inner(
        local: &Pipeline,
        path: &StepPath,
        root_name: &str,
        enclosing: &ScopeLimits,
        Ghost(levels): Ghost<nat>,
    ) -> (r: Scope)
        requires
            local.fits_within(levels),
            path@.len() + levels <= usize::MAX,
        ensures
            shaped(r, *local),
            all_inactive(r),
            r.limits == entered_limits(local.limits, *enclosing),
            r.name@ == root_name@ + "_pipeline_"@ + crate::step_path::path_label(path@),
        decreases *local, 1nat,
    {
        let base = match local.limits {
            Some(l) => l,
            None => *enclosing,
        };
        let limits = base.clamp(enclosing);
        let mut name = root_name.to_string();
        name.append("_pipeline_");
        let label = path.to_display_string();
        name.append(label.as_str());
        let nested = Scope::nested_of(local, path, root_name, &limits, Ghost(levels));
        let r = Scope { limits, configured: local.limits, entered_at: None, last_entered: None, enter_counter: 0, name, nested };
        proof {
            assert forall|i: int| 0 <= i < r.nested@.len() implies match #[trigger] r.nested@[i] {
                Some(c) => all_inactive(c),
                None => true,
            } by {
                match local.steps@[i] {
                    StepOrPipeline::Pipeline(_, q) => {},
                    StepOrPipeline::Step(_) => {},
                }
            }
        }
        r
    }
}

/// The path of the scope (the enclosing pipeline) of a step.
pub fn scope_of(step: &StepPath) -> (r: StepPath)
    ensures
        r@ == scope_path(step@),
{
    let n = step.depth();
    if n <= 1 {
        StepPath::empty()
    } else {
        let r = StepPath(step.0.slice(0, n - 1));
        assert(step@.subrange(0, n - 1) =~= step@.drop_last());
        r
    }
}

/// The scopes of a running top-level pipeline, with the scope of the step
/// that runs now.
///
/// The executor switches the context before each step: the scopes that the
/// next step leaves are left, and those it enters are entered, renewing
/// their limits within their enclosing scope's limits.
pub struct RootScope<'a> {
    pipeline: &'a Pipeline,
    platform: ScopeLimits,
    root: Scope,
    current: StepPath,
}

impl<'a> RootScope<'a> {
    /// The scope of the top-level pipeline.
    pub closed spec fn spec_root(&self) -> Scope {
        self.root
    }

    /// The path of the scope of the step that runs now.
    pub closed spec fn spec_current(&self) -> Seq<usize> {
        self.current@
    }

    /// The top-level pipeline.
    pub closed spec fn spec_pipeline(&self) -> Pipeline {
        *self.pipeline
    }

    /// The platform's limits: the outermost bound of every scope.
    pub closed spec fn spec_platform(&self) -> ScopeLimits {
        self.platform
    }

    /// The scopes mirror the pipeline; while the root scope is active, the
    /// active scopes are exactly the chain from the root to the current
    /// scope, each with limits within its enclosing scope's; while it is not,
    /// no scope is active.
    pub closed spec fn wf(&self) -> bool {
        &&& self.pipeline.well_formed()
        &&& shaped(self.root, *self.pipeline)
        &&& within(self.root.limits, self.platform)
        &&& pipeline_at(*self.pipeline, self.current@) is Some
        &&& self.root.entered_at is Some ==> active_chain(self.root, self.current@) && limits_nested(self.root, self.current@)
            && limits_renewed(self.root, self.current@)
        &&& self.root.entered_at is None ==> all_inactive(self.root) && self.current@.len() == 0
    }

    /// The scopes of `pipeline`, none active, with the platform's limits as
    /// the outermost bound.
    pub fn new(pipeline: &'a Pipeline, platform_limits: &ScopeLimits) -> (r: Self)
        requires
            pipeline.well_formed(),
        ensures
            r.wf(),
            r.spec_pipeline() == *pipeline,
            all_inactive(r.spec_root()),
            r.spec_current() == Seq::<usize>::empty(),
            r.spec_root().limits == entered_limits(pipeline.limits, *platform_limits),
            r.spec_platform() == *platform_limits,
    {
        let root = Scope::rooted_at(pipeline, platform_limits);
        let current = StepPath::empty();
        RootScope { pipeline, platform: *platform_limits, root, current }
    }

    /// Whether the root scope is active.
    pub fn is_active(&self) -> (r: bool)
        ensures
            r == (self.spec_root().entered_at is Some),
    {
        self.root.is_active()
    }

    /// The limits in force for the step at `step_path`: those of its scope.
    pub fn limits_of(&self, step_path: &StepPath) -> (r: Option<ScopeLimits>)
        ensures
            r == match scope_at(self.spec_root(), scope_path(step_path@)) {
                Some(s) => Some(s.limits),
                None => None::<ScopeLimits>,
            },
    {
        let path = scope_of(step_path);
        assert(path@.skip(0) =~= path@);
        match self.root.get(&path, 0) {
            Some(s) => Some(s.limits),
            None => None,
        }
    }

    /// When the scope of the step at `step_path` was most recently entered.
    pub fn entered_at(&self, step_path: &StepPath) -> (r: Option<u64>)
        ensures
            r == match scope_at(self.spec_root(), scope_path(step_path@)) {
                Some(s) => s.last_entered,
                None => None::<u64>,
            },
    {
        let path = scope_of(step_path);
        assert(path@.skip(0) =~= path@);
        match self.root.get(&path, 0) {
            Some(s) => s.started_at(),
            None => None,
        }
    }

    /// Enters the root scope, when the payload job starts; its limits are
    /// renewed within its current ones.
    pub fn enter(&mut self, now: u64)
        requires
            old(self).wf(),
            old(self).spec_root().entered_at is None,
        ensures
            final(self).wf(),
            final(self).spec_pipeline() == old(self).spec_pipeline(),
            final(self).spec_root().entered_at == Some(now),
            final(self).spec_current() == Seq::<usize>::empty(),
            final(self).spec_root().limits == entered_limits(old(self).spec_root().configured, old(self).spec_root().limits),
    {
        let limits = self.root.limits;
        let ghost before = self.root;
        self.root.enter(&limits, now);
        proof {
            assert forall|i: int| 0 <= i < self.root.nested@.len() implies match #[trigger] self.root.nested@[i] {
                Some(c) => all_inactive(c),
                None => true,
            } by {
                assert(self.root.nested@[i] == before.nested@[i]);
            }
            assert(active_chain(self.root, self.current@));
            lemma_same_shape_refl(before);
            assert forall|i: int| 0 <= i < before.nested@.len() implies match (#[trigger] before.nested@[i], self.root.nested@[i]) {
                (Some(x), Some(y)) => same_shape(x, y),
                (None, None) => true,
                _ => false,
            } by {
                assert(self.root.nested@[i] == before.nested@[i]);
                assert(match (before.nested@[i], before.nested@[i]) {
                    (Some(x), Some(y)) => same_shape(x, y),
                    (None, None) => true,
                    _ => false,
                });
            }
            lemma_same_shape_shaped(before, self.root, *self.pipeline);
        }
    }

    /// Leaves the root scope and every active nested scope, when the payload
    /// job ends.
    pub fn leave(&mut self, now: u64)
        requires
            old(self).wf(),
            old(self).spec_root().entered_at is Some,
        ensures
            final(self).wf(),
            final(self).spec_pipeline() == old(self).spec_pipeline(),
            all_inactive(final(self).spec_root()),
            final(self).spec_current() == Seq::<usize>::empty(),
    {
        let ghost before = self.root;
        proof {
            lemma_chain_tidy(self.root, self.current@);
        }
        self.root.leave(now);
        self.current = StepPath::empty();
        proof {
            lemma_same_shape_shaped(before, self.root, *self.pipeline);
        }
    }

    /// Switches to the scope of the step at `next_step`: leaves the active
    /// scopes that do not enclose it and enters, from the outermost inwards,
    /// those that enclose it and are not active, renewing their limits.
    pub fn switch_context(&mut self, next_step: &StepPath, now: u64)
        requires
            old(self).wf(),
            old(self).spec_root().entered_at is Some,
            pipeline_at(old(self).spec_pipeline(), scope_path(next_step@)) is Some,
        ensures
            final(self).wf(),
            final(self).spec_pipeline() == old(self).spec_pipeline(),
            final(self).spec_current() == scope_path(next_step@),
            active_chain(final(self).spec_root(), scope_path(next_step@)),
            limits_nested(final(self).spec_root(), scope_path(next_step@)),
            limits_renewed(final(self).spec_root(), scope_path(next_step@)),
            final(self).spec_root().limits == old(self).spec_root().limits,
    {
        let next = scope_of(next_step);
        if self.current != next {
            let common = self.current.common_ancestor(&next);
            let ghost prev = self.current@;
            let ghost start = self.root;
            proof {
                assert(common@.skip(0) =~= common@);
                assert(prev.take(common@.len() as int) =~= common@);
            }
            self.root.leave_below(&common, 0, now, Ghost(prev));
            proof {
                lemma_same_shape_shaped(start, self.root, *self.pipeline);
                assert(next@.take(common@.len() as int) =~= common@);
            }
            let d = next.depth();
            let mut k = common.depth();
            while k < d
                invariant
                    d == next@.len(),
                    common@.len() <= k <= d,
                    *self.pipeline == old(self).spec_pipeline(),
                    self.pipeline.well_formed(),
                    shaped(self.root, *self.pipeline),
                    pipeline_at(*self.pipeline, next@) is Some,
                    active_chain(self.root, next@.take(k as int)),
                    limits_nested(self.root, next@.take(k as int)),
                    limits_renewed(self.root, next@.take(k as int)),
                    self.root.limits == old(self).spec_root().limits,
                    self.platform == old(self).spec_platform(),
                    within(self.root.limits, self.platform),
                decreases d - k,
            {
                let target = StepPath(next.0.slice(0, k + 1));
                let ghost before = self.root;
                proof {
                    assert(target@.subrange(0, target@.len() - 1) =~= next@.take(k as int));
                    assert(target@.skip(0) =~= target@);
                    if pipeline_at(*self.pipeline, target@) is None {
                        assert(next@.take(k + 1) =~= target@);
                        lemma_pipeline_at_prefix_none(*self.pipeline, next@, (k + 1) as nat);
                    }
                    lemma_shaped_scope_at(self.root, *self.pipeline, target@);
                }
                self.root.enter_below(&target, 0, now);
                proof {
                    lemma_same_shape_shaped(before, self.root, *self.pipeline);
                    assert(next@.take(k + 1) =~= target@);
                }
                k = k + 1;
            }
            proof {
                assert(next@.take(d as int) =~= next@);
            }
            self.current = next;
        }
    }
}

/// No scope of an inactive tree is active.
proof fn lemma_inactive_tree(s: Scope, p: Seq<usize>)
    requires
        all_inactive(s),
        scope_at(s, p) is Some,
    ensures
        scope_at(s, p)->0.entered_at is None,
    decreases p.len(),
{
    if p.len() > 0 {
        let c = child_at(s, p[0])->0;
        assert(s.nested@[p[0] - STEP0_INDEX] == Some(c));
        lemma_inactive_tree(c, p.drop_first());
    }
}

/// Along an active chain, the active scopes are those on the chain's path.
proof fn lemma_active_on_chain(s: Scope, path: Seq<usize>, p: Seq<usize>)
    requires
        active_chain(s, path),
        scope_at(s, p) matches Some(n) && n.entered_at is Some,
    ensures
        p.len() <= path.len(),
        p == path.take(p.len() as int),
    decreases p.len(),
{
    if p.len() > 0 {
        let i = p[0] - STEP0_INDEX;
        let c = child_at(s, p[0])->0;
        assert(s.nested@[i] == Some(c));
        if path.len() == 0 || i != path[0] - STEP0_INDEX {
            lemma_inactive_tree(c, p.drop_first());
            assert(false);
        }
        lemma_active_on_chain(c, path.drop_first(), p.drop_first());
        assert(p[0] == path[0]);
        assert forall|j: int| 0 <= j < p.len() implies p[j] == #[trigger] path.take(p.len() as int)[j] by {
            if j > 0 {
                assert(p[j] == p.drop_first()[j - 1]);
                assert(p.drop_first()[j - 1] == path.drop_first().take(p.len() - 1)[j - 1]);
            }
        }
        assert(p =~= path.take(p.len() as int));
    } else {
        assert(p =~= path.take(0));
    }
}

/// Every scope on an active chain is active.
proof fn lemma_chain_prefix_active(s: Scope, path: Seq<usize>, k: int)
    requires
        active_chain(s, path),
        0 <= k <= path.len(),
    ensures
        scope_at(s, path.take(k)) matches Some(a) && a.entered_at is Some,
    decreases k,
{
    if k > 0 {
        let c = child_at(s, path[0])->0;
        lemma_chain_prefix_active(c, path.drop_first(), k - 1);
        assert(path.take(k).drop_first() =~= path.drop_first().take(k - 1));
    } else {
        assert(path.take(0) =~= Seq::<usize>::empty());
    }
}

/// Along an active chain with nested limits, each scope's limits are held
/// within those of the scope that encloses it.
proof fn lemma_chain_limits(s: Scope, path: Seq<usize>, k: int)
    requires
        active_chain(s, path),
        limits_nested(s, path),
        0 < k <= path.len(),
    ensures
        scope_at(s, path.take(k)) is Some,
        scope_at(s, path.take(k - 1)) is Some,
        within(scope_at(s, path.take(k))->0.limits, scope_at(s, path.take(k - 1))->0.limits),
    decreases k,
{
    let c = child_at(s, path[0])->0;
    assert(path.take(k).drop_first() =~= path.drop_first().take(k - 1));
    if k == 1 {
        assert(path.take(0) =~= Seq::<usize>::empty());
        assert(path.drop_first().take(0) =~= Seq::<usize>::empty());
    } else {
        lemma_chain_limits(c, path.drop_first(), k - 1);
        assert(path.take(k - 1).drop_first() =~= path.drop_first().take(k - 2));
    }
}

/// When a scope is active, all the scopes that enclose it are active too.
pub proof fn lemma_active_scopes_nest<'a>(rs: RootScope<'a>, p: Seq<usize>, k: int)
    requires
        rs.wf(),
        scope_at(rs.spec_root(), p) matches Some(n) && n.entered_at is Some,
        0 <= k <= p.len(),
    ensures
        scope_at(rs.spec_root(), p.take(k)) matches Some(a) && a.entered_at is Some,
{
    let root = rs.spec_root();
    if root.entered_at is None {
        lemma_inactive_tree(root, p);
    } else {
        let path = rs.spec_current();
        lemma_active_on_chain(root, path, p);
        lemma_chain_prefix_active(root, path, k);
        assert(p.take(k) =~= path.take(k));
    }
}

/// The limits of every active nested scope are held within the limits of
/// the scope that encloses it.
pub proof fn lemma_active_limits_nest<'a>(rs: RootScope<'a>, p: Seq<usize>)
    requires
        rs.wf(),
        p.len() > 0,
        scope_at(rs.spec_root(), p) matches Some(n) && n.entered_at is Some,
    ensures
        scope_at(rs.spec_root(), p.drop_last()) is Some,
        within(scope_at(rs.spec_root(), p)->0.limits, scope_at(rs.spec_root(), p.drop_last())->0.limits),
{
    let root = rs.spec_root();
    if root.entered_at is None {
        lemma_inactive_tree(root, p);
    } else {
        let path = rs.spec_current();
        lemma_active_on_chain(root, path, p);
        lemma_chain_limits(root, path, p.len() as int);
        assert(p.drop_last() =~= path.take(p.len() - 1));
        assert(p =~= path.take(p.len() as int));
    }
}

/// The limits of the root scope stay within the platform's limits, and so,
/// by nesting, do those of every active scope.
pub proof fn lemma_scopes_within_platform<'a>(rs: RootScope<'a>, p: Seq<usize>)
    requires
        rs.wf(),
        scope_at(rs.spec_root(), p) matches Some(n) && n.entered_at is Some,
    ensures
        within(rs.spec_root().limits, rs.spec_platform()),
        within(scope_at(rs.spec_root(), p)->0.limits, rs.spec_platform()),
    decreases p.len(),
{
    if p.len() > 0 {
        lemma_active_scopes_nest(rs, p, p.len() - 1);
        assert(p.take(p.len() - 1) =~= p.drop_last());
        lemma_scopes_within_platform(rs, p.drop_last());
        lemma_active_limits_nest(rs, p);
    }
}

} // verus!


