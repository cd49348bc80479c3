//! Checkpoints: immutable snapshots of a payload under construction, each
//! one mutation (a transaction, a bundle or a barrier) on top of the
//! previous one.

use crate::payload::block::{same_block, BlockContext};
use crate::payload::state::{last_write, lemma_last_write_concat, find_write, append_writes};
use crate::payload::exec::{
    exec_view, executable_txs, Bundle, ExecOutcome, ExecView, Executable, ExecutionResult, Tx,
};
use crate::vec_util::{copy_vec, same_txs};
use vstd::prelude::*;

verus! {

/// One checkpoint of a history, as plain values.
pub struct NodeView {
    /// `None` for a barrier, else the executed transaction or bundle and the
    /// outcome of each of its transactions.
    pub mutation: Option<(ExecView, Seq<ExecOutcome>)>,
    /// The state changes of this checkpoint's own mutation (none for a
    /// barrier).
    pub writes: Seq<(u64, u64)>,
    /// For a fat checkpoint, the accumulated state changes since the previous
    /// fat checkpoint, this one's included; `None` for a light checkpoint.
    pub accumulated: Option<Seq<(u64, u64)>>,
    /// When the checkpoint was created, in milliseconds.
    pub created_at: u64,
    /// The user-defined context (tag) of the checkpoint.
    pub context: Seq<char>,
}

/// The transactions of a checkpoint.
pub open spec fn node_txs(n: NodeView) -> Seq<Tx> {
    match n.mutation {
        Some((e, _)) => e.txs,
        None => Seq::empty(),
    }
}

/// The outcomes of the transactions of a checkpoint.
pub open spec fn node_results(n: NodeView) -> Seq<ExecOutcome> {
    match n.mutation {
        Some((_, r)) => r,
        None => Seq::empty(),
    }
}

/// The index of the latest fat checkpoint before index `i` of history `h`,
/// or -1 when there is none.
pub open spec fn fat_before(h: Seq<NodeView>, i: int) -> int
    decreases i,
{
    if i <= 0 {
        -1
    } else if h[i - 1].accumulated is Some {
        i - 1
    } else {
        fat_before(h, i - 1)
    }
}

/// The own writes of the checkpoints `lo..hi` of `h`, in order.
pub open spec fn writes_between(h: Seq<NodeView>, lo: int, hi: int) -> Seq<(u64, u64)>
    decreases hi - lo,
{
    if hi <= lo {
        Seq::empty()
    } else {
        writes_between(h, lo, hi - 1) + h[hi - 1].writes
    }
}

/// A fat checkpoint at index `i` accumulates exactly the writes of the
/// checkpoints since the previous fat one.
pub open spec fn accumulated_ok(h: Seq<NodeView>, i: int) -> bool {
    h[i].accumulated matches Some(a) ==> a == writes_between(h, fat_before(h, i) + 1, i + 1)
}

/// Whether history `a` is a prefix of history `b`: the checkpoint of `a` is
/// the checkpoint of `b` or one of its ancestors.
pub open spec fn history_prefix(a: Seq<NodeView>, b: Seq<NodeView>) -> bool {
    a.len() <= b.len() && b.take(a.len() as int) == a
}

/// Whether `h` is a valid history: it starts with the initial checkpoint, a
/// barrier; barriers write nothing; every fat checkpoint accumulates the
/// writes since the previous fat one.
pub open spec fn valid_history(h: Seq<NodeView>) -> bool {
    &&& h.len() >= 1
    &&& h[0].mutation is None
    &&& forall|i: int| 0 <= i < h.len() ==> (#[trigger] h[i]).mutation is None ==> h[i].writes.len() == 0
    &&& forall|i: int| 0 <= i < h.len() ==> #[trigger] accumulated_ok(h, i)
}

/// The value last written to `key` by the checkpoints `0..=i` of `h`, in
/// history order; `None` when none of them wrote it.
pub open spec fn lookup_from(h: Seq<NodeView>, i: int, key: u64) -> Option<u64>
    decreases i + 1,
{
    if i < 0 {
        None
    } else {
        match last_write(h[i].writes, key) {
            Some(v) => Some(v),
            None => lookup_from(h, i - 1, key),
        }
    }
}

/// The lookup that walks the chain from checkpoint `i` backwards: a light
/// checkpoint shows its own writes and hands over to the previous one; a fat
/// checkpoint shows its accumulated writes and hands over to the previous
/// fat one.
pub open spec fn chain_lookup(h: Seq<NodeView>, i: int, key: u64) -> Option<u64>
    decreases i + 1,
{
    if i < 0 {
        None
    } else {
        match h[i].accumulated {
            Some(a) => match last_write(a, key) {
                Some(v) => Some(v),
                None => {
                    proof {
                        lemma_fat_before_range(h, i);
                    }
                    chain_lookup(h, fat_before(h, i), key)
                },
            },
            None => match last_write(h[i].writes, key) {
                Some(v) => Some(v),
                None => chain_lookup(h, i - 1, key),
            },
        }
    }
}

/// The previous fat checkpoint lies before `i`.
pub proof fn lemma_fat_before_range(h: Seq<NodeView>, i: int)
    ensures
        -1 <= fat_before(h, i),
        i >= 0 ==> fat_before(h, i) < i,
        fat_before(h, i) >= 0 ==> h[fat_before(h, i)].accumulated is Some,
        forall|j: int| fat_before(h, i) < j < i ==> (#[trigger] h[j]).accumulated is None,
    decreases i,
{
    if i > 0 && h[i - 1].accumulated is None {
        lemma_fat_before_range(h, i - 1);
    }
}

/// Histories that agree on their first `k` checkpoints agree on what is
/// computed from those checkpoints.
pub proof fn lemma_prefix_agree(h1: Seq<NodeView>, h2: Seq<NodeView>, k: int)
    requires
        0 <= k <= h1.len(),
        k <= h2.len(),
        forall|j: int| 0 <= j < k ==> h1[j] == h2[j],
    ensures
        forall|i: int| 0 <= i <= k ==> fat_before(h1, i) == fat_before(h2, i),
        forall|lo: int, hi: int| 0 <= lo && hi <= k ==> writes_between(h1, lo, hi) == writes_between(h2, lo, hi),
        forall|i: int| 0 <= i < k ==> (accumulated_ok(h1, i) <==> accumulated_ok(h2, i)),
{
    assert forall|i: int| 0 <= i <= k implies fat_before(h1, i) == fat_before(h2, i) by {
        lemma_prefix_fat_before(h1, h2, k, i);
    }
    assert forall|lo: int, hi: int| 0 <= lo && hi <= k implies writes_between(h1, lo, hi) == writes_between(h2, lo, hi) by {
        lemma_prefix_writes(h1, h2, k, lo, hi);
    }
    assert forall|i: int| 0 <= i < k implies (accumulated_ok(h1, i) <==> accumulated_ok(h2, i)) by {
        lemma_prefix_fat_before(h1, h2, k, i);
        lemma_fat_before_range(h1, i);
        lemma_prefix_writes(h1, h2, k, fat_before(h1, i) + 1, i + 1);
    }
}

proof fn lemma_prefix_fat_before(h1: Seq<NodeView>, h2: Seq<NodeView>, k: int, i: int)
    requires
        0 <= i <= k,
        forall|j: int| 0 <= j < k ==> (h1[j].accumulated is Some) == (h2[j].accumulated is Some),
    ensures
        fat_before(h1, i) == fat_before(h2, i),
    decreases i,
{
    if i > 0 {
        lemma_prefix_fat_before(h1, h2, k, i - 1);
    }
}

proof fn lemma_prefix_writes(h1: Seq<NodeView>, h2: Seq<NodeView>, k: int, lo: int, hi: int)
    requires
        0 <= lo,
        hi <= k,
        forall|j: int| 0 <= j < k ==> h1[j].writes == h2[j].writes,
    ensures
        writes_between(h1, lo, hi) == writes_between(h2, lo, hi),
    decreases hi - lo,
{
    if lo < hi {
        lemma_prefix_writes(h1, h2, k, lo, hi - 1);
        assert(h1[hi - 1].writes == h2[hi - 1].writes);
    }
}

/// Writes of consecutive ranges concatenate.
pub proof fn lemma_writes_split(h: Seq<NodeView>, lo: int, mid: int, hi: int)
    requires
        lo <= mid <= hi,
    ensures
        writes_between(h, lo, hi) == writes_between(h, lo, mid) + writes_between(h, mid, hi),
    decreases hi - mid,
{
    if hi == mid {
        assert(writes_between(h, mid, hi) =~= Seq::<(u64, u64)>::empty());
        assert(writes_between(h, lo, mid) + Seq::<(u64, u64)>::empty() =~= writes_between(h, lo, mid));
    } else {
        lemma_writes_split(h, lo, mid, hi - 1);
        assert(writes_between(h, lo, mid) + writes_between(h, mid, hi - 1) + h[hi - 1].writes
            =~= writes_between(h, lo, mid) + (writes_between(h, mid, hi - 1) + h[hi - 1].writes));
    }
}

/// The linear lookup is the last write among all writes up to `i`.
pub proof fn lemma_lookup_from_writes(h: Seq<NodeView>, i: int, key: u64)
    requires
        i >= -1,
    ensures
        lookup_from(h, i, key) == last_write(writes_between(h, 0, i + 1), key),
    decreases i + 1,
{
    if i >= 0 {
        lemma_lookup_from_writes(h, i - 1, key);
        lemma_last_write_concat(writes_between(h, 0, i), h[i].writes, key);
    }
}

/// Reading state through the chain of checkpoints, with fat checkpoints as
/// shortcuts, gives the value last written in the history: the state at a
/// checkpoint is the sum of all mutations applied up to it.
pub proof fn lemma_chain_lookup(h: Seq<NodeView>, i: int, key: u64)
    requires
        -1 <= i < h.len(),
        forall|j: int| 0 <= j <= i ==> #[trigger] accumulated_ok(h, j),
    ensures
        chain_lookup(h, i, key) == lookup_from(h, i, key),
    decreases i + 1,
{
    if i >= 0 {
        match h[i].accumulated {
            Some(a) => {
                let f = fat_before(h, i);
                lemma_fat_before_range(h, i);
                assert(accumulated_ok(h, i));
                lemma_chain_lookup(h, f, key);
                lemma_lookup_from_writes(h, i, key);
                lemma_lookup_from_writes(h, f, key);
                lemma_writes_split(h, 0, f + 1, i + 1);
                lemma_last_write_concat(writes_between(h, 0, f + 1), a, key);
            },
            None => {
                lemma_chain_lookup(h, i - 1, key);
            },
        }
    }
}

/// What a checkpoint applies on top of the previous one.
#[derive(Debug)]
pub enum Mutation {
    /// Marks everything before it as immutable.
    Barrier,
    /// The result of executing a transaction or a bundle.
    Executable(ExecutionResult),
}

#[derive(Debug)]
struct Node {
    mutation: Mutation,
    accumulated: Option<Vec<(u64, u64)>>,
    fat_ancestor: Option<usize>,
    created_at: u64,
    context: String,
}

spec fn node_view(n: Node) -> NodeView {
    NodeView {
        mutation: match n.mutation {
            Mutation::Barrier => None,
            Mutation::Executable(r) => Some((exec_view(r.spec_source()), r.spec_results())),
        },
        writes: match n.mutation {
            Mutation::Barrier => Seq::empty(),
            Mutation::Executable(r) => r.spec_state(),
        },
        accumulated: match n.accumulated {
            Some(a) => Some(a@),
            None => None,
        },
        created_at: n.created_at,
        context: n.context@,
    }
}

spec fn node_wf(n: Node) -> bool {
    match n.mutation {
        Mutation::Barrier => true,
        Mutation::Executable(r) => r.wf(),
    }
}

fn copy_writes(a: &Option<Vec<(u64, u64)>>) -> (r: Option<Vec<(u64, u64)>>)
    ensures
        match (r, *a) {
            (Some(x), Some(y)) => x@ == y@,
            (None, None) => true,
            _ => false,
        },
{
    match a {
        Some(v) => Some(copy_vec(v)),
        None => None,
    }
}

impl Node {
    fn duplicate(&self) -> (r: Node)
        ensures
            node_view(r) == node_view(*self),
            node_wf(*self) ==> node_wf(r),
            r.fat_ancestor == self.fat_ancestor,
    {
        let mutation = match &self.mutation {
            Mutation::Barrier => Mutation::Barrier,
            Mutation::Executable(res) => Mutation::Executable(res.duplicate()),
        };
        Node {
            mutation,
            accumulated: copy_writes(&self.accumulated),
            fat_ancestor: self.fat_ancestor,
            created_at: self.created_at,
            context: self.context.clone(),
        }
    }
}

/// The recorded fat ancestor of checkpoint `i` is the previous fat one.
spec fn fat_ancestor_ok(nodes: Seq<Node>, h: Seq<NodeView>, i: int) -> bool {
    match nodes[i].fat_ancestor {
        Some(j) => j == fat_before(h, i),
        None => fat_before(h, i) == -1,
    }
}

/// A checkpoint: the block it builds on and the whole history of mutations
/// from the initial checkpoint (a barrier) up to this one.
///
/// Checkpoints are immutable: applying a mutation creates a new checkpoint
/// whose history extends this one's by one entry, and several checkpoints
/// may extend the same one (forks of the payload).
#[derive(Debug)]
pub struct Checkpoint {
    block: BlockContext,
    nodes: Vec<Node>,
}

impl View for Checkpoint {
    type V = Seq<NodeView>;

    closed spec fn view(&self) -> Seq<NodeView> {
        self.nodes@.map_values(|n: Node| node_view(n))
    }
}

impl Checkpoint {
    #[verifier::type_invariant]
    spec fn inv(&self) -> bool {
        &&& self.nodes@.len() >= 1
        &&& self.nodes@[0].mutation is Barrier
        &&& forall|i: int| 0 <= i < self.nodes@.len() ==> node_wf(#[trigger] self.nodes@[i])
        &&& valid_history(self@)
        &&& forall|i: int| 0 <= i < self.nodes@.len() ==> #[trigger] fat_ancestor_ok(self.nodes@, self@, i)
    }

    /// The block that this checkpoint builds on.
    pub closed spec fn spec_block(&self) -> BlockContext {
        self.block
    }

    /// Brings the validity of this checkpoint's history into the proof
    /// context; it does nothing at run time.
    pub(crate) fn note_valid(&self)
        ensures
            valid_history(self@),
    {
        proof {
            use_type_invariant(self);
        }
    }

    fn copy_nodes(&self, n: usize) -> (r: Vec<Node>)
        requires
            n <= self.nodes@.len(),
        ensures
            r@.len() == n,
            r@.map_values(|x: Node| node_view(x)) == self@.subrange(0, n as int),
            forall|i: int| 0 <= i < n ==> node_wf(#[trigger] r@[i]),
            forall|i: int| 0 <= i < n ==> (#[trigger] r@[i]).fat_ancestor == self.nodes@[i].fat_ancestor,
            n >= 1 ==> r@[0].mutation is Barrier,
    {
        proof {
            use_type_invariant(self);
        }
        let mut r: Vec<Node> = Vec::new();
        let mut i: usize = 0;
        while i < n
            invariant
                n <= self.nodes@.len(),
                i <= n,
                r@.len() == i,
                forall|j: int| 0 <= j < i ==> node_view(#[trigger] r@[j]) == node_view(self.nodes@[j]),
                forall|j: int| 0 <= j < i ==> node_wf(#[trigger] r@[j]),
                forall|j: int| 0 <= j < i ==> (#[trigger] r@[j]).fat_ancestor == self.nodes@[j].fat_ancestor,
                i >= 1 ==> r@[0].mutation is Barrier,
                self.nodes@[0].mutation is Barrier,
                forall|j: int| 0 <= j < self.nodes@.len() ==> node_wf(#[trigger] self.nodes@[j]),
            decreases n - i,
        {
            let d = self.nodes[i].duplicate();
            r.push(d);
            i = i + 1;
        }
        assert(r@.map_values(|x: Node| node_view(x)) =~= self@.subrange(0, n as int));
        r
    }
}


/// The history of the initial checkpoint of a payload: one barrier with the
/// default (empty) context.
pub open spec fn initial_history(created_at: u64) -> Seq<NodeView> {
    seq![NodeView { mutation: None, writes: Seq::empty(), accumulated: None, created_at, context: Seq::empty() }]
}

/// `h` with one more checkpoint on top, a light one.
pub open spec fn pushed(
    h: Seq<NodeView>,
    mutation: Option<(ExecView, Seq<ExecOutcome>)>,
    writes: Seq<(u64, u64)>,
    created_at: u64,
    context: Seq<char>,
) -> Seq<NodeView> {
    h.push(NodeView { mutation, writes, accumulated: None, created_at, context })
}

/// Whether one of the checkpoints `lo..hi` of `h` applied a transaction or a
/// bundle.
pub open spec fn has_mutation_between(h: Seq<NodeView>, lo: int, hi: int) -> bool {
    exists|j: int| lo <= j < hi && (#[trigger] h[j]).mutation is Some
}

/// `h` with its last checkpoint made fat: it accumulates the writes since the
/// previous fat checkpoint. A checkpoint that is fat already, or that has
/// only barriers since the previous fat one, stays as it is.
pub open spec fn fat_view(h: Seq<NodeView>) -> Seq<NodeView> {
    let n = h.len() - 1;
    let lo = fat_before(h, n) + 1;
    if h[n].accumulated is Some || !has_mutation_between(h, lo, n + 1) {
        h
    } else {
        h.update(
            n,
            NodeView {
                mutation: h[n].mutation,
                writes: h[n].writes,
                accumulated: Some(writes_between(h, lo, n + 1)),
                created_at: h[n].created_at,
                context: h[n].context,
            },
        )
    }
}

/// The state changes a checkpoint exposes: the accumulated ones of a fat
/// checkpoint, the own ones of a light checkpoint, none for a light barrier.
pub open spec fn visible_state(n: NodeView) -> Option<Seq<(u64, u64)>> {
    match n.accumulated {
        Some(a) => Some(a),
        None => if n.mutation is None {
            None
        } else {
            Some(n.writes)
        },
    }
}

/// Builder API
impl Checkpoint {
    /// The initial checkpoint of a payload built on `block`: a barrier with
    /// the default (empty) context.
    pub fn new_at_block(block: BlockContext, created_at: u64) -> (r: Checkpoint)
        ensures
            r@ == initial_history(created_at),
            r.spec_block() == block,
    {
        Checkpoint::new_with_context(block, String::new(), created_at)
    }

    /// The initial checkpoint of a payload built on `block`, tagged with
    /// `context`.
    pub fn new_with_context(block: BlockContext, context: String, created_at: u64) -> (r: Checkpoint)
        ensures
            r@ == seq![NodeView { mutation: None, writes: Seq::empty(), accumulated: None, created_at, context: context@ }],
            r.spec_block() == block,
    {
        let node = Node { mutation: Mutation::Barrier, accumulated: None, fat_ancestor: None, created_at, context };
        let nodes = vec![node];
        let r = Checkpoint { block, nodes };
        assert(r@ =~= seq![node_view(node)]);
        r
    }

    fn apply_with(&self, mutation: Mutation, context: String, created_at: u64) -> (r: Checkpoint)
        requires
            node_wf(Node { mutation, accumulated: None, fat_ancestor: None, created_at, context }),
        ensures
            r@ == self@.push(node_view(Node { mutation, accumulated: None, fat_ancestor: None, created_at, context })),
            same_block(r.spec_block(), self.spec_block()),
    {
        proof {
            use_type_invariant(self);
        }
        let n = self.nodes.len();
        let last = &self.nodes[n - 1];
        let fat_ancestor = if last.accumulated.is_some() {
            Some(n - 1)
        } else {
            last.fat_ancestor
        };
        let mut nodes = self.copy_nodes(n);
        let ghost before = nodes@;
        let ghost x = Node { mutation, accumulated: None, fat_ancestor: None, created_at, context };
        let node = Node { mutation, accumulated: None, fat_ancestor, created_at, context };
        assert(node_view(node) == node_view(x));
        nodes.push(node);
        proof {
            let h = self@;
            let h2 = nodes@.map_values(|y: Node| node_view(y));
            assert(self@.subrange(0, n as int) =~= self@);
            assert forall|i: int| 0 <= i < n implies h2[i] == h[i] by {
                assert(nodes@[i] == before[i]);
                assert(before.map_values(|y: Node| node_view(y))[i] == h[i]);
            }
            assert(h2[n as int] == node_view(x));
            assert(h2 =~= h.push(node_view(x)));
            lemma_prefix_agree(h, h2, n as int);
            lemma_prefix_fat_before(h, h2, n as int, n - 1);
            assert(fat_ancestor_ok(self.nodes@, h, n - 1));
            assert forall|i: int| 0 <= i < nodes@.len() implies #[trigger] fat_ancestor_ok(nodes@, h2, i) by {
                if i < n {
                    assert(fat_ancestor_ok(self.nodes@, h, i));
                }
            }
            assert forall|i: int| 0 <= i < h2.len() implies #[trigger] accumulated_ok(h2, i) by {
                if i < n {
                    assert(accumulated_ok(h, i));
                }
            }
            assert forall|i: int| 0 <= i < h2.len() && (#[trigger] h2[i]).mutation is None implies h2[i].writes.len() == 0 by {
                if i < n {
                    assert(h2[i] == h[i]);
                }
            }
            assert forall|i: int| 0 <= i < nodes@.len() implies node_wf(#[trigger] nodes@[i]) by {
                if i == n {
                    assert(node_wf(x));
                }
            }
        }
        Checkpoint { block: self.block.duplicate(), nodes }
    }

    /// A new checkpoint on top of this one that applies the result of
    /// executing a transaction or a bundle on this checkpoint's state; it
    /// keeps this checkpoint's context.
    pub fn apply(&self, result: ExecutionResult, created_at: u64) -> (r: Checkpoint)
        ensures
            r@ == pushed(
                self@,
                Some((exec_view(result.spec_source()), result.spec_results())),
                result.spec_state(),
                created_at,
                self@.last().context,
            ),
            same_block(r.spec_block(), self.spec_block()),
    {
        proof {
            use_type_invariant(&result);
        }
        let context = self.context().to_string();
        let r = self.apply_with(Mutation::Executable(result), context, created_at);
        assert(r@ =~= pushed(
            self@,
            Some((exec_view(result.spec_source()), result.spec_results())),
            result.spec_state(),
            created_at,
            self@.last().context,
        ));
        r
    }

    /// A new checkpoint on top of this one that applies the result of
    /// executing a transaction or a bundle, tagged with `context`.
    pub fn apply_with_context(&self, result: ExecutionResult, context: String, created_at: u64) -> (r: Checkpoint)
        ensures
            r@ == pushed(
                self@,
                Some((exec_view(result.spec_source()), result.spec_results())),
                result.spec_state(),
                created_at,
                context@,
            ),
            same_block(r.spec_block(), self.spec_block()),
    {
        proof {
            use_type_invariant(&result);
        }
        let ghost c = context@;
        let r = self.apply_with(Mutation::Executable(result), context, created_at);
        assert(r@ =~= pushed(
            self@,
            Some((exec_view(result.spec_source()), result.spec_results())),
            result.spec_state(),
            created_at,
            c,
        ));
        r
    }

    /// A new barrier checkpoint on top of this one, with this checkpoint's
    /// context: it becomes the start of the staging history.
    pub fn barrier(&self, created_at: u64) -> (r: Checkpoint)
        ensures
            r@ == pushed(self@, None, Seq::empty(), created_at, self@.last().context),
            same_block(r.spec_block(), self.spec_block()),
    {
        let context = self.context().to_string();
        let r = self.apply_with(Mutation::Barrier, context, created_at);
        assert(r@ =~= pushed(self@, None, Seq::empty(), created_at, self@.last().context));
        r
    }

    /// A new barrier checkpoint on top of this one, tagged with `context`.
    pub fn barrier_with_context(&self, context: String, created_at: u64) -> (r: Checkpoint)
        ensures
            r@ == pushed(self@, None, Seq::empty(), created_at, context@),
            same_block(r.spec_block(), self.spec_block()),
    {
        let ghost c = context@;
        let r = self.apply_with(Mutation::Barrier, context, created_at);
        assert(r@ =~= pushed(self@, None, Seq::empty(), created_at, c));
        r
    }

    /// This checkpoint made fat: it carries the writes accumulated since the
    /// previous fat checkpoint, so that state lookups can skip the light
    /// checkpoints in between. A fat checkpoint, or one preceded only by
    /// barriers since the previous fat one, comes back unchanged.
    pub fn fat(self) -> (r: Checkpoint)
        ensures
            r@ == fat_view(self@),
            same_block(r.spec_block(), self.spec_block()),
    {
        proof {
            use_type_invariant(&self);
        }
        let n = self.nodes.len();
        if self.nodes[n - 1].accumulated.is_some() {
            return self;
        }
        let ghost h = self@;
        proof {
            assert(fat_ancestor_ok(self.nodes@, h, n - 1));
            lemma_fat_before_range(h, n - 1);
        }
        let lo: usize = match self.nodes[n - 1].fat_ancestor {
            Some(j) => j + 1,
            None => 0,
        };
        let mut acc: Vec<(u64, u64)> = Vec::new();
        let mut any = false;
        let mut i: usize = lo;
        while i < n
            invariant
                n == self.nodes@.len(),
                h == self@,
                lo <= i <= n,
                acc@ == writes_between(h, lo as int, i as int),
                any == has_mutation_between(h, lo as int, i as int),
            decreases n - i,
        {
            assert(h[i as int] == node_view(self.nodes@[i as int]));
            match &self.nodes[i].mutation {
                Mutation::Executable(res) => {
                    any = true;
                    append_writes(&mut acc, res.state());
                },
                Mutation::Barrier => {
                    assert(writes_between(h, lo as int, i as int) + h[i as int].writes
                        =~= writes_between(h, lo as int, i as int));
                },
            }
            assert(has_mutation_between(h, lo as int, i + 1) == (any || h[i as int].mutation is Some));
            i = i + 1;
        }
        if !any {
            return self;
        }
        let last = &self.nodes[n - 1];
        let mutation = match &last.mutation {
            Mutation::Barrier => Mutation::Barrier,
            Mutation::Executable(res) => Mutation::Executable(res.duplicate()),
        };
        let ghost acc_view = acc@;
        let node = Node {
            mutation,
            accumulated: Some(acc),
            fat_ancestor: last.fat_ancestor,
            created_at: last.created_at,
            context: last.context.clone(),
        };
        let mut nodes = self.copy_nodes(n - 1);
        let ghost before = nodes@;
        nodes.push(node);
        proof {
            let h2 = nodes@.map_values(|y: Node| node_view(y));
            assert(node_wf(self.nodes@[n - 1]));
            assert forall|i: int| 0 <= i < n - 1 implies h2[i] == h[i] by {
                assert(nodes@[i] == before[i]);
                assert(before.map_values(|y: Node| node_view(y))[i] == self@.subrange(0, n - 1)[i]);
            }
            assert(h[n - 1] == node_view(self.nodes@[n - 1]));
            assert(h2 =~= fat_view(h));
            lemma_prefix_agree(h, h2, n - 1);
            lemma_prefix_fat_before(h, h2, n - 1, n - 1);
            lemma_prefix_writes(h, h2, n as int, lo as int, n as int);
            assert forall|i: int| 0 <= i < nodes@.len() implies #[trigger] fat_ancestor_ok(nodes@, h2, i) by {
                assert(fat_ancestor_ok(self.nodes@, h, i));
                lemma_prefix_fat_before(h, h2, n - 1, i);
            }
            assert forall|i: int| 0 <= i < h2.len() implies #[trigger] accumulated_ok(h2, i) by {
                if i < n - 1 {
                    assert(accumulated_ok(h, i));
                }
            }
            assert forall|i: int| 0 <= i < h2.len() && (#[trigger] h2[i]).mutation is None implies h2[i].writes.len() == 0 by {
                assert(h2[i].mutation == h[i].mutation && h2[i].writes == h[i].writes);
            }
            assert forall|i: int| 0 <= i < nodes@.len() implies node_wf(#[trigger] nodes@[i]) by {}
        }
        Checkpoint { block: self.block, nodes }
    }

    /// The value last written to `key` in this checkpoint's history; `None`
    /// when no checkpoint wrote it, and the block's base state holds it. The
    /// lookup walks back from this checkpoint, through the accumulated state
    /// of fat checkpoints where there are some.
    pub fn lookup(&self, key: u64) -> (r: Option<u64>)
        ensures
            r == lookup_from(self@, self@.len() - 1, key),
    {
        proof {
            use_type_invariant(self);
            lemma_chain_lookup(self@, self@.len() - 1, key);
        }
        let ghost h = self@;
        let n = self.nodes.len();
        let mut cur: usize = n;
        while cur > 0
            invariant
                h == self@,
                n == self.nodes@.len(),
                cur <= n,
                chain_lookup(h, n - 1, key) == lookup_from(h, n - 1, key),
                chain_lookup(h, n - 1, key) == chain_lookup(h, cur - 1, key),
                forall|i: int| 0 <= i < n ==> #[trigger] fat_ancestor_ok(self.nodes@, h, i),
            decreases cur,
        {
            let i = cur - 1;
            let node = &self.nodes[i];
            assert(h[i as int] == node_view(*node));
            match &node.accumulated {
                Some(a) => {
                    match find_write(a, key) {
                        Some(v) => {
                            return Some(v);
                        },
                        None => {
                            proof {
                                assert(fat_ancestor_ok(self.nodes@, h, i as int));
                                lemma_fat_before_range(h, i as int);
                            }
                            cur = match node.fat_ancestor {
                                Some(j) => j + 1,
                                None => 0,
                            };
                        },
                    }
                },
                None => {
                    if let Mutation::Executable(res) = &node.mutation {
                        if let Some(v) = find_write(res.state(), key) {
                            return Some(v);
                        }
                    }
                    cur = i;
                },
            }
        }
        None
    }

    /// The state changes this checkpoint exposes: for a fat checkpoint the
    /// changes accumulated since the previous fat one, else the changes of
    /// its own mutation; `None` for a light barrier.
    pub fn state(&self) -> (r: Option<Vec<(u64, u64)>>)
        ensures
            match (r, visible_state(self@.last())) {
                (Some(x), Some(y)) => x@ == y,
                (None, None) => true,
                _ => false,
            },
    {
        proof {
            use_type_invariant(self);
        }
        let last = &self.nodes[self.nodes.len() - 1];
        match &last.accumulated {
            Some(a) => Some(copy_vec(a)),
            None => match &last.mutation {
                Mutation::Barrier => None,
                Mutation::Executable(res) => Some(copy_vec(res.state())),
            },
        }
    }
}

/// Builder API
impl BlockContext {
    /// Starts building a payload on this block: the initial checkpoint.
    pub fn start(self, created_at: u64) -> (r: Checkpoint)
        ensures
            r@ == initial_history(created_at),
            r.spec_block() == self,
    {
        Checkpoint::new_at_block(self, created_at)
    }
}

/// Public read API
impl Checkpoint {
    /// The number of checkpoints before this one; zero for the initial one.
    pub fn depth(&self) -> (r: usize)
        ensures
            r == self@.len() - 1,
    {
        proof {
            use_type_invariant(self);
        }
        self.nodes.len() - 1
    }

    /// When this checkpoint was created, in milliseconds.
    pub fn created_at(&self) -> (r: u64)
        ensures
            r == self@.last().created_at,
    {
        proof {
            use_type_invariant(self);
        }
        self.nodes[self.nodes.len() - 1].created_at
    }

    /// The previous checkpoint: this history without its last entry; `None`
    /// for the initial checkpoint.
    pub fn prev(&self) -> (r: Option<Checkpoint>)
        ensures
            self@.len() == 1 ==> r is None,
            self@.len() > 1 ==> (r matches Some(p) && p@ == self@.drop_last()
                && same_block(p.spec_block(), self.spec_block())),
    {
        proof {
            use_type_invariant(self);
        }
        let n = self.nodes.len();
        if n == 1 {
            return None;
        }
        let r = self.truncated(n - 1);
        assert(self@.take(n - 1) =~= self@.drop_last());
        Some(r)
    }

    /// The checkpoint `k - 1` of this history: its first `k` entries.
    pub fn truncated(&self, k: usize) -> (r: Checkpoint)
        requires
            1 <= k <= self@.len(),
        ensures
            r@ == self@.take(k as int),
            same_block(r.spec_block(), self.spec_block()),
    {
        proof {
            use_type_invariant(self);
        }
        let nodes = self.copy_nodes(k);
        proof {
            let h2 = nodes@.map_values(|x: Node| node_view(x));
            lemma_prefix_agree(self@, h2, k as int);
            assert forall|i: int| 0 <= i < nodes@.len() implies #[trigger] fat_ancestor_ok(nodes@, h2, i) by {
                assert(fat_ancestor_ok(self.nodes@, self@, i));
            }
            assert forall|i: int| 0 <= i < h2.len() implies #[trigger] accumulated_ok(h2, i) by {
                assert(accumulated_ok(self@, i));
            }
            assert forall|i: int| 0 <= i < h2.len() && (#[trigger] h2[i]).mutation is None implies h2[i].writes.len() == 0 by {
                assert(h2[i] == self@[i]);
            }
        }
        let r = Checkpoint { block: self.block.duplicate(), nodes };
        assert(r@ =~= self@.take(k as int));
        r
    }

    /// A copy of this checkpoint: the same history on the same block.
    pub fn duplicate(&self) -> (r: Checkpoint)
        ensures
            r@ == self@,
            same_block(r.spec_block(), self.spec_block()),
    {
        let n = self.history_len();
        let r = self.truncated(n);
        assert(self@.take(n as int) =~= self@);
        r
    }

    /// Whether entry `i` of this history is a barrier.
    pub(crate) fn entry_is_barrier(&self, i: usize) -> (r: bool)
        requires
            i < self@.len(),
        ensures
            r == (self@[i as int].mutation is None),
    {
        matches!(self.nodes[i].mutation, Mutation::Barrier)
    }

    /// Whether entry `i` of this history has the context `tag`.
    pub(crate) fn entry_has_context(&self, i: usize, tag: &str) -> (r: bool)
        requires
            i < self@.len(),
        ensures
            r == (self@[i as int].context == tag@),
    {
        let mine = self.nodes[i].context.clone();
        let other = tag.to_string();
        mine == other
    }

    /// The number of checkpoints in this history, this one included.
    pub(crate) fn history_len(&self) -> (r: usize)
        ensures
            r == self@.len(),
            r >= 1,
    {
        proof {
            use_type_invariant(self);
        }
        self.nodes.len()
    }

    /// Whether this checkpoint's history is a prefix of `other`'s, on the
    /// same block: this checkpoint is `other` or one of its ancestors.
    pub fn is_ancestor_of(&self, other: &Checkpoint) -> (r: bool)
        ensures
            r == (history_prefix(self@, other@) && same_block(self.spec_block(), other.spec_block())),
    {
        let n = self.nodes.len();
        if n > other.nodes.len() {
            assert(!history_prefix(self@, other@));
            return false;
        }
        let mut i: usize = 0;
        while i < n
            invariant
                n == self.nodes@.len(),
                n <= other.nodes@.len(),
                i <= n,
                forall|j: int| 0 <= j < i ==> node_view(#[trigger] self.nodes@[j]) == node_view(other.nodes@[j]),
            decreases n - i,
        {
            if !same_node(&self.nodes[i], &other.nodes[i]) {
                assert(other@.take(n as int)[i as int] != self@[i as int]);
                return false;
            }
            i = i + 1;
        }
        assert(other@.take(n as int) =~= self@);
        self.block.same_as(&other.block)
    }

    /// The block that this checkpoint builds on.
    pub fn block(&self) -> (r: &BlockContext)
        ensures
            *r == self.spec_block(),
    {
        &self.block
    }

    /// The transactions that created this checkpoint: none for a barrier,
    /// one for a transaction, all of a bundle.
    pub fn transactions(&self) -> (r: Vec<Tx>)
        ensures
            r@ == node_txs(self@.last()),
    {
        proof {
            use_type_invariant(self);
        }
        match &self.nodes[self.nodes.len() - 1].mutation {
            Mutation::Barrier => Vec::new(),
            Mutation::Executable(res) => res.transactions(),
        }
    }

    /// The execution result that created this checkpoint; `None` for a
    /// barrier.
    pub fn result(&self) -> (r: Option<&ExecutionResult>)
        ensures
            match r {
                Some(res) => self@.last().mutation == Some((exec_view(res.spec_source()), res.spec_results())) && res.wf(),
                None => self@.last().mutation is None,
            },
    {
        proof {
            use_type_invariant(self);
        }
        let last = &self.nodes[self.nodes.len() - 1];
        match &last.mutation {
            Mutation::Barrier => None,
            Mutation::Executable(res) => {
                assert(node_wf(*last));
                Some(res)
            },
        }
    }

    /// Whether this checkpoint is a barrier.
    pub fn is_barrier(&self) -> (r: bool)
        ensures
            r == self@.last().mutation is None,
    {
        proof {
            use_type_invariant(self);
        }
        matches!(self.nodes[self.nodes.len() - 1].mutation, Mutation::Barrier)
    }

    /// The context (tag) of this checkpoint.
    pub fn context(&self) -> (r: &str)
        ensures
            r@ == self@.last().context,
    {
        proof {
            use_type_invariant(self);
        }
        self.nodes[self.nodes.len() - 1].context.as_str()
    }

    /// Whether this checkpoint has the given context.
    pub fn has_context(&self, context: &str) -> (r: bool)
        ensures
            r == (self@.last().context == context@),
    {
        let mine = self.context().to_string();
        let other = context.to_string();
        mine == other
    }

    /// The transaction that created this checkpoint, when it was created by a
    /// single transaction.
    pub fn as_transaction(&self) -> (r: Option<Tx>)
        ensures
            match self@.last().mutation {
                Some((e, _)) => if e.is_bundle { r is None } else { r == Some(e.txs[0]) },
                None => r is None,
            },
    {
        proof {
            use_type_invariant(self);
        }
        match &self.nodes[self.nodes.len() - 1].mutation {
            Mutation::Executable(res) => match res.source() {
                Executable::Transaction(t) => Some(*t),
                Executable::Bundle(_) => None,
            },
            Mutation::Barrier => None,
        }
    }

    /// The bundle that created this checkpoint, when it was created by a
    /// bundle.
    pub fn as_bundle(&self) -> (r: Option<Bundle>)
        ensures
            match self@.last().mutation {
                Some((e, _)) => if e.is_bundle {
                    r matches Some(b) && exec_view(Executable::Bundle(b)) == e
                } else {
                    r is None
                },
                None => r is None,
            },
    {
        proof {
            use_type_invariant(self);
        }
        match &self.nodes[self.nodes.len() - 1].mutation {
            Mutation::Executable(res) => match res.source() {
                Executable::Transaction(_) => None,
                Executable::Bundle(b) => Some(b.duplicate()),
            },
            Mutation::Barrier => None,
        }
    }

    /// Whether two checkpoints have the same history.
    pub fn same_as(&self, other: &Checkpoint) -> (r: bool)
        ensures
            r == (self@ == other@),
    {
        let n = self.nodes.len();
        if n != other.nodes.len() {
            assert(self@.len() != other@.len());
            return false;
        }
        let mut i: usize = 0;
        while i < n
            invariant
                n == self.nodes@.len(),
                n == other.nodes@.len(),
                i <= n,
                forall|j: int| 0 <= j < i ==> node_view(#[trigger] self.nodes@[j]) == node_view(other.nodes@[j]),
            decreases n - i,
        {
            if !same_node(&self.nodes[i], &other.nodes[i]) {
                assert(self@[i as int] != other@[i as int]);
                return false;
            }
            i = i + 1;
        }
        assert(self@ =~= other@);
        true
    }
}

fn same_pairs(a: &Vec<(u64, u64)>, b: &Vec<(u64, u64)>) -> (r: bool)
    ensures
        r == (a@ == b@),
{
    if a.len() != b.len() {
        return false;
    }
    let mut i: usize = 0;
    while i < a.len()
        invariant
            a@.len() == b@.len(),
            i <= a@.len(),
            forall|j: int| 0 <= j < i ==> a@[j] == b@[j],
        decreases a@.len() - i,
    {
        let (x0, x1) = a[i];
        let (y0, y1) = b[i];
        if x0 != y0 || x1 != y1 {
            return false;
        }
        i = i + 1;
    }
    assert(a@ =~= b@);
    true
}

fn same_u64s(a: &Vec<u64>, b: &Vec<u64>) -> (r: bool)
    ensures
        r == (a@ == b@),
{
    if a.len() != b.len() {
        return false;
    }
    let mut i: usize = 0;
    while i < a.len()
        invariant
            a@.len() == b@.len(),
            i <= a@.len(),
            forall|j: int| 0 <= j < i ==> a@[j] == b@[j],
        decreases a@.len() - i,
    {
        if a[i] != b[i] {
            return false;
        }
        i = i + 1;
    }
    assert(a@ =~= b@);
    true
}

fn same_outcomes(a: &Vec<ExecOutcome>, b: &Vec<ExecOutcome>) -> (r: bool)
    ensures
        r == (a@ == b@),
{
    if a.len() != b.len() {
        return false;
    }
    let mut i: usize = 0;
    while i < a.len()
        invariant
            a@.len() == b@.len(),
            i <= a@.len(),
            forall|j: int| 0 <= j < i ==> a@[j] == b@[j],
        decreases a@.len() - i,
    {
        if a[i] != b[i] {
            return false;
        }
        i = i + 1;
    }
    assert(a@ =~= b@);
    true
}

fn same_executable(a: &Executable, b: &Executable) -> (r: bool)
    ensures
        r == (exec_view(*a) == exec_view(*b)),
{
    match (a, b) {
        (Executable::Transaction(x), Executable::Transaction(y)) => {
            if *x == *y {
                true
            } else {
                assert(exec_view(*a).txs[0] != exec_view(*b).txs[0]);
                false
            }
        },
        (Executable::Bundle(x), Executable::Bundle(y)) => {
            x.hash == y.hash && same_txs(&x.transactions, &y.transactions) && same_u64s(&x.optional, &y.optional)
                && same_u64s(&x.allowed_to_fail, &y.allowed_to_fail)
        },
        _ => false,
    }
}

fn same_node(a: &Node, b: &Node) -> (r: bool)
    ensures
        r == (node_view(*a) == node_view(*b)),
{
    let mutation_same = match (&a.mutation, &b.mutation) {
        (Mutation::Barrier, Mutation::Barrier) => true,
        (Mutation::Executable(x), Mutation::Executable(y)) => same_executable(x.source(), y.source())
            && same_outcomes(x.results(), y.results()),
        _ => false,
    };
    let context_same = a.context == b.context;
    let writes_same = match (&a.mutation, &b.mutation) {
        (Mutation::Executable(x), Mutation::Executable(y)) => same_pairs(x.state(), y.state()),
        _ => true,
    };
    let acc_same = match (&a.accumulated, &b.accumulated) {
        (Some(x), Some(y)) => same_pairs(x, y),
        (None, None) => true,
        _ => false,
    };
    mutation_same && writes_same && acc_same && a.created_at == b.created_at && context_same
}

} // verus!
