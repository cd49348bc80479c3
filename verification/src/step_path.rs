//! Paths that address steps and nested pipelines inside a pipeline.

use smallvec::SmallVec;
use crate::fmt::{decimal, push_decimal};
use vstd::prelude::*;

verus! {

/// The index storage of a [`StepPath`]: a `SmallVec` that keeps up to eight
/// indices inline.
#[verifier::external_body]
#[derive(Debug)]
pub struct PathIndices {
    items: SmallVec<[usize; 8]>,
}

/// The indices held by a path storage, in order.
pub uninterp spec fn path_items(v: PathIndices) -> Seq<usize>;

impl PathIndices {
    /// `SmallVec::new`: an empty vector.
    #[verifier::external_body]
    pub(crate) fn new() -> (r: PathIndices)
        ensures
            path_items(r) == Seq::<usize>::empty(),
    {
        PathIndices { items: SmallVec::new() }
    }

    /// `SmallVec::len`: the number of stored indices.
    #[verifier::external_body]
    pub(crate) fn len(&self) -> (r: usize)
        ensures
            r == path_items(*self).len(),
    {
        self.items.len()
    }

    /// `SmallVec` indexing: the index stored at position `i`.
    #[verifier::external_body]
    pub(crate) fn get(&self, i: usize) -> (r: usize)
        requires
            i < path_items(*self).len(),
        ensures
            r == path_items(*self)[i as int],
    {
        self.items[i]
    }

    /// `SmallVec` mutable indexing: overwrites the index at position `i`.
    #[verifier::external_body]
    pub(crate) fn set(&mut self, i: usize, x: usize)
        requires
            i < path_items(*old(self)).len(),
        ensures
            path_items(*final(self)) == path_items(*old(self)).update(i as int, x),
    {
        self.items[i] = x;
    }

    /// `SmallVec::push`: appends one index.
    #[verifier::external_body]
    pub(crate) fn push(&mut self, x: usize)
        requires
            path_items(*old(self)).len() < usize::MAX,
        ensures
            path_items(*final(self)) == path_items(*old(self)).push(x),
    {
        self.items.push(x);
    }

    /// `Extend::extend` of `SmallVec`: appends all indices of `other`.
    #[verifier::external_body]
    pub(crate) fn extend(&mut self, other: PathIndices)
        requires
            path_items(*old(self)).len() + path_items(other).len() <= usize::MAX,
        ensures
            path_items(*final(self)) == path_items(*old(self)) + path_items(other),
    {
        self.items.extend(other.items);
    }

    /// `From<&[usize]>` of `SmallVec` applied to the slice `self[lo..hi]`.
    #[verifier::external_body]
    pub(crate) fn slice(&self, lo: usize, hi: usize) -> (r: PathIndices)
        requires
            lo <= hi <= path_items(*self).len(),
        ensures
            path_items(r) == path_items(*self).subrange(lo as int, hi as int),
    {
        PathIndices { items: SmallVec::from(&self.items[lo..hi]) }
    }

    /// `PartialEq::eq` of `SmallVec`: element-wise equality.
    #[verifier::external_body]
    pub(crate) fn same(&self, other: &PathIndices) -> (r: bool)
        ensures
            r == (path_items(*self) == path_items(*other)),
    {
        self.items == other.items
    }

    /// `Clone::clone` of `SmallVec`: a copy with the same indices.
    #[verifier::external_body]
    pub(crate) fn duplicate(&self) -> (r: PathIndices)
        ensures
            path_items(r) == path_items(*self),
    {
        PathIndices { items: self.items.clone() }
    }
}


/// Number of slots reserved for prologue steps and for epilogue steps.
pub const EXTRA_SECTIONS_SIZE: usize = 1024;

/// Leaf index of the first prologue step.
pub const PROLOGUE_INDEX: usize = 0;

/// Leaf index of the first regular step (or nested pipeline).
pub const STEP0_INDEX: usize = 1025;

/// Leaf index of the first epilogue step.
pub const EPILOGUE_START_INDEX: usize = usize::MAX - 1024;

/// Whether a leaf index addresses a prologue step.
pub open spec fn is_prologue_index(leaf: usize) -> bool {
    leaf < STEP0_INDEX
}

/// Whether a leaf index addresses an epilogue step.
pub open spec fn is_epilogue_index(leaf: usize) -> bool {
    leaf >= EPILOGUE_START_INDEX
}

/// Whether `a` is a prefix of `b`.
pub open spec fn is_prefix(a: Seq<usize>, b: Seq<usize>) -> bool {
    a.len() <= b.len() && b.subrange(0, a.len() as int) == a
}

/// Whether `c` is the longest common prefix of `a` and `b`.
pub open spec fn is_longest_common_prefix(c: Seq<usize>, a: Seq<usize>, b: Seq<usize>) -> bool {
    &&& is_prefix(c, a)
    &&& is_prefix(c, b)
    &&& (c.len() == a.len() || c.len() == b.len() || a[c.len() as int] != b[c.len() as int])
}

/// The paths strictly below `a` on the way down to `b`, nearest first,
/// `b` included: the prefixes of `b` of lengths `a.len() + 1 ..= b.len()`.
pub open spec fn descent(a: Seq<usize>, b: Seq<usize>) -> Seq<Seq<usize>> {
    Seq::new((b.len() - a.len()) as nat, |i: int| b.subrange(0, a.len() + i + 1))
}

/// What `between` returns for two paths.
pub open spec fn between_spec(a: Seq<usize>, b: Seq<usize>) -> Seq<Seq<usize>> {
    if is_prefix(a, b) {
        descent(a, b)
    } else if is_prefix(b, a) {
        descent(b, a).reverse()
    } else {
        Seq::empty()
    }
}

/// Walking between two paths one way visits the same paths as walking the
/// other way, in reverse order.
pub proof fn lemma_between_reverse(a: Seq<usize>, b: Seq<usize>)
    ensures
        between_spec(a, b) == between_spec(b, a).reverse(),
{
    if is_prefix(a, b) && is_prefix(b, a) {
        assert(a =~= b);
        assert(descent(a, b) =~= Seq::<Seq<usize>>::empty());
        assert(between_spec(b, a) =~= Seq::<Seq<usize>>::empty());
        assert(between_spec(b, a).reverse() =~= Seq::<Seq<usize>>::empty());
    } else if is_prefix(a, b) {
        assert(descent(a, b).reverse().reverse() =~= descent(a, b));
    } else if is_prefix(b, a) {
    } else {
        assert(Seq::<Seq<usize>>::empty().reverse() =~= Seq::<Seq<usize>>::empty());
    }
}

/// The text of one index: `p`, `p1`, `p2`... for prologue steps, `e`, `e1`...
/// for epilogue steps and the one-based position for regular items.
pub open spec fn leaf_label(leaf: usize) -> Seq<char> {
    if leaf < STEP0_INDEX {
        if leaf == PROLOGUE_INDEX { seq!['p'] } else { seq!['p'] + decimal((leaf - PROLOGUE_INDEX) as nat) }
    } else if leaf >= EPILOGUE_START_INDEX {
        if leaf == EPILOGUE_START_INDEX { seq!['e'] } else { seq!['e'] + decimal((leaf - EPILOGUE_START_INDEX) as nat) }
    } else {
        decimal((leaf - STEP0_INDEX + 1) as nat)
    }
}

/// The text of a path: the labels of its indices joined by `_`.
pub open spec fn path_label(s: Seq<usize>) -> Seq<char>
    decreases s.len(),
{
    if s.len() == 0 {
        Seq::empty()
    } else if s.len() == 1 {
        leaf_label(s[0])
    } else {
        path_label(s.drop_last()) + seq!['_'] + leaf_label(s.last())
    }
}

fn push_leaf_label(out: &mut String, leaf: usize)
    ensures
        final(out)@ == old(out)@ + leaf_label(leaf),
{
    proof {
        reveal_strlit("p");
        reveal_strlit("e");
    }
    if leaf < STEP0_INDEX {
        out.append("p");
        if leaf != PROLOGUE_INDEX {
            push_decimal(out, (leaf - PROLOGUE_INDEX) as u128);
        }
    } else if leaf >= EPILOGUE_START_INDEX {
        out.append("e");
        if leaf != EPILOGUE_START_INDEX {
            push_decimal(out, (leaf - EPILOGUE_START_INDEX) as u128);
        }
    } else {
        push_decimal(out, (leaf - STEP0_INDEX + 1) as u128);
    }
    assert(final(out)@ =~= old(out)@ + leaf_label(leaf));
}

/// A path to a step or a nested pipeline, as the sequence of indices taken
/// from the top-level pipeline down to the item.
///
/// Each index is a leaf index of one nesting level: prologue steps use
/// `PROLOGUE_INDEX..STEP0_INDEX`, regular items use
/// `STEP0_INDEX..EPILOGUE_START_INDEX` and epilogue steps use the rest.
#[derive(Debug)]
pub struct StepPath(pub PathIndices);

impl View for StepPath {
    type V = Seq<usize>;

    open spec fn view(&self) -> Seq<usize> {
        path_items(self.0)
    }
}

impl Clone for StepPath {
    fn clone(&self) -> (r: Self)
        ensures
            r@ == self@,
    {
        StepPath(self.0.duplicate())
    }
}

impl PartialEq for StepPath {
    fn eq(&self, other: &Self) -> (r: bool) {
        self.0.same(&other.0)
    }
}

impl vstd::std_specs::cmp::PartialEqSpecImpl for StepPath {
    open spec fn obeys_eq_spec() -> bool {
        true
    }

    open spec fn eq_spec(&self, other: &Self) -> bool {
        self@ == other@
    }
}

impl Eq for StepPath {}

/// Public API
impl StepPath {
    /// The number of nesting levels in the path.
    pub fn depth(&self) -> (r: usize)
        ensures
            r == self@.len(),
    {
        self.0.len()
    }

    /// Whether the path addresses an item of the top-level pipeline.
    pub fn is_toplevel(&self) -> (r: bool)
        ensures
            r == (self@.len() == 1),
    {
        self.depth() == 1
    }

    /// Whether the path addresses a prologue step.
    pub fn is_prologue(&self) -> (r: bool)
        requires
            self@.len() > 0,
        ensures
            r == is_prologue_index(self@.last()),
    {
        self.leaf() < STEP0_INDEX
    }

    /// Whether the path addresses an epilogue step.
    pub fn is_epilogue(&self) -> (r: bool)
        requires
            self@.len() > 0,
        ensures
            r == is_epilogue_index(self@.last()),
    {
        self.leaf() >= EPILOGUE_START_INDEX
    }

    /// The highest ancestor: the path made of the first index only.
    pub fn root(&self) -> (r: StepPath)
        requires
            self@.len() > 0,
        ensures
            r@ == self@.subrange(0, 1),
    {
        StepPath(self.0.slice(0, 1))
    }

    /// The index of the addressed item within its immediate parent.
    pub fn leaf(&self) -> (r: usize)
        requires
            self@.len() > 0,
        ensures
            r == self@.last(),
    {
        self.0.get(self.0.len() - 1)
    }

    /// The path without its first index; `None` for a top-level path.
    pub fn remove_root(self) -> (r: Option<StepPath>)
        requires
            self@.len() > 0,
        ensures
            self@.len() == 1 ==> r is None,
            self@.len() > 1 ==> r is Some && r->0@ == self@.drop_first(),
    {
        if self.is_toplevel() {
            None
        } else {
            let n = self.0.len();
            Some(StepPath(self.0.slice(1, n)))
        }
    }

    /// The path without its last index; `None` for a top-level path.
    pub fn remove_leaf(self) -> (r: Option<StepPath>)
        requires
            self@.len() > 0,
        ensures
            self@.len() == 1 ==> r is None,
            self@.len() > 1 ==> r is Some && r->0@ == self@.drop_last(),
    {
        if self.is_toplevel() {
            None
        } else {
            let n = self.0.len();
            Some(StepPath(self.0.slice(0, n - 1)))
        }
    }

    /// The path to the next item of the same parent: the last index plus one.
    pub fn increment_leaf(self) -> (r: Self)
        requires
            self@.len() > 0 ==> self@.last() < usize::MAX,
        ensures
            self@.len() == 0 ==> r@ == self@,
            self@.len() > 0 ==> r@ == self@.update(self@.len() - 1, (self@.last() + 1) as usize),
    {
        let mut new_path = self.0;
        let n = new_path.len();
        if n > 0 {
            let last = new_path.get(n - 1);
            new_path.set(n - 1, last + 1);
        }
        StepPath(new_path)
    }

    /// The path with its last index replaced by `new_leaf`.
    pub fn replace_leaf(self, new_leaf: usize) -> (r: Self)
        requires
            self@.len() > 0,
        ensures
            r@ == self@.update(self@.len() - 1, new_leaf),
    {
        let mut new_path = self.0;
        let n = new_path.len();
        new_path.set(n - 1, new_leaf);
        StepPath(new_path)
    }

    /// Whether this path is a prefix of `other` (a path is its own ancestor).
    pub fn is_ancestor_of(&self, other: &StepPath) -> (r: bool)
        ensures
            r == is_prefix(self@, other@),
    {
        let n = self.0.len();
        if n > other.0.len() {
            return false;
        }
        let mut i: usize = 0;
        while i < n
            invariant
                n == self@.len(),
                n <= other@.len(),
                i <= n,
                forall|j: int| 0 <= j < i ==> self@[j] == other@[j],
            decreases n - i,
        {
            if self.0.get(i) != other.0.get(i) {
                assert(other@.subrange(0, n as int)[i as int] != self@[i as int]);
                return false;
            }
            i = i + 1;
        }
        assert(other@.subrange(0, n as int) =~= self@);
        true
    }
}


/// Textual form
impl StepPath {
    /// The text of the path, such as `1_2_e` or `p`.
    pub fn to_display_string(&self) -> (r: String)
        ensures
            r@ == path_label(self@),
    {
        let mut out = String::new();
        let n = self.0.len();
        let mut i: usize = 0;
        proof {
            reveal_strlit("_");
        }
        while i < n
            invariant
                n == self@.len(),
                i <= n,
                out@ == path_label(self@.subrange(0, i as int)),
            decreases n - i,
        {
            let ghost prev = out@;
            if i > 0 {
                let sep = "_";
                proof {
                    reveal_strlit("_");
                    assert(sep@ =~= seq!['_']);
                }
                out.append(sep);
            }
            let ghost mid = out@;
            let leaf = self.0.get(i);
            push_leaf_label(&mut out, leaf);
            proof {
                let t = self@.subrange(0, i + 1);
                assert(t.drop_last() =~= self@.subrange(0, i as int));
                assert(t.last() == leaf);
                if i == 0 {
                    assert(t.len() == 1);
                    assert(out@ =~= leaf_label(leaf));
                } else {
                    assert(mid =~= prev + seq!['_']);
                    assert(out@ =~= prev + seq!['_'] + leaf_label(leaf));
                }
            }
            i = i + 1;
        }
        assert(self@.subrange(0, n as int) =~= self@);
        out
    }
}

/// Private APIs
impl StepPath {
    /// The lowest common ancestor of the two paths; the empty path (the root
    /// scope) when they share no prefix.
    pub fn common_ancestor(&self, other: &StepPath) -> (r: StepPath)
        ensures
            is_longest_common_prefix(r@, self@, other@),
    {
        let mut common = StepPath::empty();
        let n = self.0.len();
        let m = other.0.len();
        let mut i: usize = 0;
        while i < n && i < m
            invariant
                n == self@.len(),
                m == other@.len(),
                i <= n,
                i <= m,
                common@ == self@.subrange(0, i as int),
                common@ == other@.subrange(0, i as int),
            decreases n - i,
        {
            let a = self.0.get(i);
            let b = other.0.get(i);
            if a == b {
                common.0.push(a);
                assert(common@ =~= self@.subrange(0, i + 1));
                assert(common@ =~= other@.subrange(0, i + 1));
                i = i + 1;
            } else {
                return common;
            }
        }
        common
    }

    /// The intermediate paths between two paths of which one is an ancestor
    /// of the other, walking from `self` to `other` and ending at `other` when
    /// going down, or starting at `self` when going up. Empty when neither is
    /// an ancestor of the other, or when they are equal.
    pub fn between(&self, other: &StepPath) -> (r: Vec<StepPath>)
        ensures
            r@.len() == between_spec(self@, other@).len(),
            forall|i: int| 0 <= i < r@.len() ==> #[trigger] r@[i]@ == between_spec(self@, other@)[i],
    {
        if !self.is_ancestor_of(other) && !other.is_ancestor_of(self) {
            return Vec::new();
        }
        let ancestor = self.common_ancestor(other);
        let mut paths: Vec<StepPath> = Vec::new();
        if ancestor == *self {
            // going down from `self` to `other`
            assert(is_prefix(self@, other@)) by {
                assert(self@ =~= ancestor@);
            }
            let mut current = self.clone();
            while current != *other
                invariant
                    is_prefix(self@, other@),
                    is_prefix(current@, other@),
                    current@.len() >= self@.len(),
                    paths@.len() == current@.len() - self@.len(),
                    forall|i: int| 0 <= i < paths@.len() ==> #[trigger] paths@[i]@
                        == descent(self@, other@)[i],
                decreases other@.len() - current@.len(),
            {
                let k = current.0.len();
                if k == other.0.len() {
                    assert(current@ =~= other@);
                }
                let next_index = other.0.get(k);
                current.0.push(next_index);
                assert(current@ =~= other@.subrange(0, k + 1));
                paths.push(current.clone());
            }
            assert(current@ =~= other@);
        } else if ancestor == *other {
            // going up from `self` to `other`
            assert(is_prefix(other@, self@)) by {
                assert(other@ =~= ancestor@);
            }
            let lo = other.0.len();
            let mut k = self.0.len();
            while k > lo
                invariant
                    is_prefix(other@, self@),
                    lo == other@.len(),
                    lo <= k <= self@.len(),
                    paths@.len() == self@.len() - k,
                    forall|i: int| 0 <= i < paths@.len() ==> #[trigger] paths@[i]@
                        == descent(other@, self@).reverse()[i],
                decreases k,
            {
                paths.push(StepPath(self.0.slice(0, k)));
                k = k - 1;
            }
        } else {
            // one of the paths is an ancestor of the other, so the common
            // ancestor is one of them
            proof {
                if is_prefix(self@, other@) {
                    assert(self@ =~= ancestor@);
                } else {
                    assert(other@ =~= ancestor@);
                }
            }
        }
        paths
    }
}

/// Manual navigation
impl StepPath {
    /// A top-level path to the prologue step with the given index.
    pub fn prologue_step(prologue_index: usize) -> (r: Self)
        ensures
            r@ == seq![if prologue_index < STEP0_INDEX - 1 { prologue_index } else { (STEP0_INDEX - 1) as usize }],
    {
        let leaf = if prologue_index + PROLOGUE_INDEX < STEP0_INDEX - 1 {
            prologue_index + PROLOGUE_INDEX
        } else {
            STEP0_INDEX - 1
        };
        let mut v = PathIndices::new();
        v.push(leaf);
        assert(path_items(v) =~= seq![leaf]);
        StepPath(v)
    }

    /// A top-level path to the first prologue step.
    pub fn prologue() -> (r: Self)
        ensures
            r@ == seq![PROLOGUE_INDEX],
    {
        Self::prologue_step(0)
    }

    /// A top-level path to the epilogue step with the given index.
    pub fn epilogue_step(epilogue_index: usize) -> (r: Self)
        ensures
            r@ == seq![if epilogue_index + EPILOGUE_START_INDEX <= usize::MAX {
                (epilogue_index + EPILOGUE_START_INDEX) as usize
            } else {
                usize::MAX
            }],
    {
        let leaf = epilogue_index.saturating_add(EPILOGUE_START_INDEX);
        let mut v = PathIndices::new();
        v.push(leaf);
        assert(path_items(v) =~= seq![leaf]);
        StepPath(v)
    }

    /// A top-level path to the first epilogue step.
    pub fn epilogue() -> (r: Self)
        ensures
            r@ == seq![EPILOGUE_START_INDEX],
    {
        Self::epilogue_step(0)
    }

    /// A top-level path to the regular item with the given index.
    pub fn step(step_index: usize) -> (r: Self)
        requires
            step_index + STEP0_INDEX <= usize::MAX,
        ensures
            r@ == seq![if step_index + STEP0_INDEX < EPILOGUE_START_INDEX - 1 {
                (step_index + STEP0_INDEX) as usize
            } else {
                (EPILOGUE_START_INDEX - 1) as usize
            }],
    {
        let leaf = if step_index + STEP0_INDEX < EPILOGUE_START_INDEX - 1 {
            step_index + STEP0_INDEX
        } else {
            EPILOGUE_START_INDEX - 1
        };
        let mut v = PathIndices::new();
        v.push(leaf);
        assert(path_items(v) =~= seq![leaf]);
        StepPath(v)
    }

    /// A top-level path to the first regular item.
    pub fn step0() -> (r: Self)
        ensures
            r@ == seq![STEP0_INDEX],
    {
        Self::step(0)
    }

    /// The path `other` appended below this path.
    pub fn concat(self, other: Self) -> (r: Self)
        requires
            self@.len() + other@.len() <= usize::MAX,
        ensures
            r@ == self@ + other@,
    {
        let mut new_path = self.0;
        new_path.extend(other.0);
        StepPath(new_path)
    }

    /// The empty path. It addresses no item; it stands for the root scope
    /// and serves as a prefix while building paths.
    pub fn empty() -> (r: Self)
        ensures
            r@ == Seq::<usize>::empty(),
    {
        StepPath(PathIndices::new())
    }
}

} // verus!
