//! State changes as plain values: a state diff is a list of writes, each a
//! key (an account field or a storage slot) and the value written to it.
//! A later write to a key overrides an earlier one, so squashing diffs is
//! concatenating them.

use vstd::prelude::*;

verus! {

/// The value of the last write to `key` in `diff`, if any.
pub open spec fn last_write(diff: Seq<(u64, u64)>, key: u64) -> Option<u64>
    decreases diff.len(),
{
    if diff.len() == 0 {
        None
    } else if diff.last().0 == key {
        Some(diff.last().1)
    } else {
        last_write(diff.drop_last(), key)
    }
}

/// In a concatenation the later diff overrides the earlier one.
pub proof fn lemma_last_write_concat(a: Seq<(u64, u64)>, b: Seq<(u64, u64)>, key: u64)
    ensures
        last_write(a + b, key) == match last_write(b, key) {
            Some(v) => Some(v),
            None => last_write(a, key),
        },
    decreases b.len(),
{
    if b.len() == 0 {
        assert(a + b =~= a);
    } else {
        assert((a + b).drop_last() =~= a + b.drop_last());
        assert((a + b).last() == b.last());
        lemma_last_write_concat(a, b.drop_last(), key);
    }
}

/// The value of the last write to `key` in `diff`.
pub fn find_write(diff: &Vec<(u64, u64)>, key: u64) -> (r: Option<u64>)
    ensures
        r == last_write(diff@, key),
{
    let mut i: usize = diff.len();
    assert(diff@.subrange(0, i as int) =~= diff@);
    while i > 0
        invariant
            i <= diff@.len(),
            forall|k: int| i <= k < diff@.len() ==> (#[trigger] diff@[k]).0 != key,
            last_write(diff@, key) == last_write(diff@.subrange(0, i as int), key),
        decreases i,
    {
        let (k, v) = diff[i - 1];
        let ghost s = diff@.subrange(0, i as int);
        assert(s.last() == diff@[i - 1]);
        assert(s.drop_last() =~= diff@.subrange(0, i - 1));
        if k == key {
            return Some(v);
        }
        i = i - 1;
    }
    assert(diff@.subrange(0, 0).len() == 0);
    None
}

/// Appends the writes of `b` to `a`.
pub fn append_writes(a: &mut Vec<(u64, u64)>, b: &Vec<(u64, u64)>)
    ensures
        final(a)@ == old(a)@ + b@,
{
    let mut i: usize = 0;
    while i < b.len()
        invariant
            i <= b@.len(),
            a@ == old(a)@ + b@.subrange(0, i as int),
        decreases b@.len() - i,
    {
        a.push(b[i]);
        assert(old(a)@ + b@.subrange(0, i + 1) =~= old(a)@ + b@.subrange(0, i as int) + seq![b@[i as int]]);
        i = i + 1;
    }
    assert(b@.subrange(0, b@.len() as int) =~= b@);
}

} // verus!
