//! The pool of infeasible solutions that an exploration falls back to.
use crate::scalar::Scalar;
use vstd::prelude::*;

verus! {

/// An infeasible solution, as a handle of the caller, and the loss it was left with.
#[derive(Debug, Clone, Copy, PartialEq, Eq, Structural)]
pub struct Pooled {
    /// Handle of the solution.
    pub solution: usize,
    /// Its total loss.
    pub loss: Scalar,
}

/// No loss is a NaN, and no loss is followed by a lower one.
pub open spec fn pool_sorted(pool: Seq<Pooled>) -> bool {
    &&& forall|i: int| 0 <= i < pool.len() ==> !(#[trigger] pool[i]).loss.nan()
    &&& forall|i: int, j: int|
        0 <= i < j < pool.len() ==> (#[trigger] pool[i]).loss.value() <= (
        #[trigger] pool[j]).loss.value()
}

/// How many leading entries have a lower loss.
pub open spec fn pool_rank(pool: Seq<Pooled>, loss: Scalar) -> nat
    decreases pool.len(),
{
    if pool.len() == 0 || !pool[0].loss.less(loss) {
        0
    } else {
        1 + pool_rank(pool.skip(1), loss)
    }
}

/// The pool with one more entry, in front of the first one whose loss is not lower.
pub open spec fn pool_with(pool: Seq<Pooled>, entry: Pooled) -> Seq<Pooled> {
    pool.insert(pool_rank(pool, entry.loss) as int, entry)
}

proof fn lemma_pool_rank(pool: Seq<Pooled>, loss: Scalar, n: int)
    requires
        0 <= n <= pool.len(),
        forall|i: int| 0 <= i < n ==> (#[trigger] pool[i]).loss.less(loss),
        n < pool.len() ==> !pool[n].loss.less(loss),
    ensures
        pool_rank(pool, loss) == n,
    decreases n,
{
    if n > 0 {
        assert(pool[0].loss.less(loss));
        assert forall|i: int| 0 <= i < n - 1 implies (#[trigger] pool.skip(1)[i]).loss.less(
            loss,
        ) by {
            assert(pool.skip(1)[i] == pool[i + 1]);
        }
        lemma_pool_rank(pool.skip(1), loss, n - 1);
    }
}

proof fn lemma_rank_splits(pool: Seq<Pooled>, loss: Scalar)
    ensures
        pool_rank(pool, loss) <= pool.len(),
        forall|i: int| 0 <= i < pool_rank(pool, loss) ==> (#[trigger] pool[i]).loss.less(loss),
        pool_rank(pool, loss) < pool.len() ==> !pool[pool_rank(pool, loss) as int].loss.less(loss),
    decreases pool.len(),
{
    if pool.len() > 0 && pool[0].loss.less(loss) {
        lemma_rank_splits(pool.skip(1), loss);
        assert forall|i: int| 0 <= i < pool_rank(pool, loss) implies (
        #[trigger] pool[i]).loss.less(loss) by {
            if i > 0 {
                assert(pool.skip(1)[i - 1] == pool[i]);
            }
        }
    }
}

/// **The pool stays sorted** when an entry is added, and grows by that entry only.
pub proof fn lemma_pool_with(pool: Seq<Pooled>, entry: Pooled)
    requires
        !entry.loss.nan(),
        pool_sorted(pool),
    ensures
        pool_sorted(pool_with(pool, entry)),
        pool_with(pool, entry).len() == pool.len() + 1,
        pool_with(pool, entry).to_multiset() == pool.to_multiset().insert(entry),
{
    lemma_rank_splits(pool, entry.loss);
    let n = pool_rank(pool, entry.loss) as int;
    let after = pool_with(pool, entry);
    assert forall|i: int, j: int| 0 <= i < j < after.len() implies (
    #[trigger] after[i]).loss.value() <= (#[trigger] after[j]).loss.value() by {
        if j > n && i <= n {
            assert(after[j] == pool[j - 1]);
            assert(pool[n].loss.value() <= pool[j - 1].loss.value());
        }
    }
    broadcast use vstd::seq_lib::group_to_multiset_ensures;
    assert(after =~= pool.insert(n, entry));
}

/// Adds an entry to a pool that is sorted by loss, lowest first.
pub fn insert_sorted(pool: &mut Vec<Pooled>, entry: Pooled)
    requires
        !entry.loss.nan(),
        pool_sorted(old(pool)@),
    ensures
        final(pool)@ == pool_with(old(pool)@, entry),
        pool_sorted(final(pool)@),
        final(pool)@.len() == old(pool)@.len() + 1,
{
    let mut n: usize = 0;
    while n < pool.len() && pool[n].loss.lt(entry.loss)
        invariant
            n <= pool@.len(),
            pool@ == old(pool)@,
            forall|i: int| 0 <= i < n ==> (#[trigger] pool@[i]).loss.less(entry.loss),
        decreases pool@.len() - n,
    {
        n = n + 1;
    }
    proof {
        lemma_pool_rank(pool@, entry.loss, n as int);
    }
    proof {
        lemma_pool_with(pool@, entry);
    }
    pool.insert(n, entry);
}

/// **The newest entry stands before its equals**: everything in front of it has a lower loss, and
/// everything behind it none.
pub proof fn lemma_newest_stands_before_its_equals(pool: Seq<Pooled>, entry: Pooled)
    requires
        !entry.loss.nan(),
        pool_sorted(pool),
    ensures
        exists|n: int|
            0 <= n <= pool.len() && #[trigger] pool_with(pool, entry)[n] == entry && pool_with(
                pool,
                entry,
            ) == pool.take(n).push(entry) + pool.skip(n) && (forall|i: int|
                0 <= i < n ==> (#[trigger] pool[i]).loss.less(entry.loss)) && (forall|i: int|
                n <= i < pool.len() ==> !(#[trigger] pool[i]).loss.less(entry.loss)),
{
    lemma_rank_splits(pool, entry.loss);
    let n = pool_rank(pool, entry.loss) as int;
    assert(pool_with(pool, entry)[n] == entry);
    assert(pool_with(pool, entry) =~= pool.take(n).push(entry) + pool.skip(n));
    assert forall|i: int| n <= i < pool.len() implies !(#[trigger] pool[i]).loss.less(entry.loss) by {
        assert(i > n ==> pool[n].loss.value() <= pool[i].loss.value());
    }
}

} // verus!
