//! Bookkeeping for visited-set-guarded graph traversals: a visited vector by
//! state id, and the count of unvisited states, which serves as the
//! termination measure of the traversals.

use vstd::prelude::*;

verus! {

/// Number of `false` entries: the states a traversal has not yet visited.
pub open spec fn count_false(s: Seq<bool>) -> nat
    decreases s.len(),
{
    if s.len() == 0 {
        0
    } else {
        count_false(s.drop_last()) + if s.last() {
            0nat
        } else {
            1nat
        }
    }
}

/// Visiting an unvisited state decreases the count of unvisited states.
pub proof fn lemma_count_false_update(s: Seq<bool>, j: int)
    requires
        0 <= j < s.len(),
        !s[j],
    ensures
        count_false(s.update(j, true)) + 1 == count_false(s),
    decreases s.len(),
{
    if j == s.len() - 1 {
        assert(s.update(j, true).drop_last() =~= s.drop_last());
        assert(s.update(j, true).last());
    } else {
        assert(s.update(j, true).drop_last() =~= s.drop_last().update(j, true));
        assert(s.update(j, true).last() == s.last());
        lemma_count_false_update(s.drop_last(), j);
    }
}

/// A vector of `n` entries, all `false`: no state visited yet.
pub fn falses(n: usize) -> (r: Vec<bool>)
    ensures
        r@.len() == n,
        forall|j: int| 0 <= j < n ==> !(#[trigger] r@[j]),
{
    let mut r: Vec<bool> = Vec::new();
    let mut k: usize = 0;
    while k < n
        invariant
            k <= n,
            r@.len() == k,
            forall|j: int| 0 <= j < k ==> !(#[trigger] r@[j]),
        decreases n - k,
    {
        r.push(false);
        k += 1;
    }
    r
}

} // verus!
