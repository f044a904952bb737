//! Sorting by std.

use vstd::prelude::*;

verus! {

/// Pairs in ascending order, by the first and then by the second number.
pub open spec fn sorted_pairs(pairs: Seq<(u64, usize)>) -> bool {
    forall|i: int, j: int|
        0 <= i < j < pairs.len() ==> {
            let a = #[trigger] pairs[i];
            let b = #[trigger] pairs[j];
            a.0 < b.0 || a.0 == b.0 && a.1 <= b.1
        }
}

/// Calls `sort_unstable` of std's slices on pairs of integers. Pairs are ordered by
/// their first and then by their second number; the result holds the same pairs in
/// ascending order.
#[verifier::external_body]
pub(crate) fn sort_pairs(pairs: &mut Vec<(u64, usize)>)
    ensures
        sorted_pairs(final(pairs)@),
        final(pairs)@.to_multiset() == old(pairs)@.to_multiset(),
{
    pairs.sort_unstable();
}

/// Sorted pairs are the pairs that were there.
pub proof fn lemma_same_pairs(before: Seq<(u64, usize)>, after: Seq<(u64, usize)>)
    requires
        before.to_multiset() == after.to_multiset(),
    ensures
        before.len() == after.len(),
        forall|pair: (u64, usize)| before.contains(pair) <==> after.contains(pair),
{
    broadcast use vstd::seq_lib::group_to_multiset_ensures;
    assert(before.to_multiset().len() == before.len());
    assert(after.to_multiset().len() == after.len());
    assert forall|pair: (u64, usize)| before.contains(pair) <==> after.contains(pair) by {
        assert(before.contains(pair) <==> before.to_multiset().count(pair) > 0);
        assert(after.contains(pair) <==> after.to_multiset().count(pair) > 0);
    }
}

} // verus!
