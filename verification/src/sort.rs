//! Sorting of integer keys.
use vstd::prelude::*;

verus! {

/// Sorts `v` ascending with `slice::sort_unstable`: the result is a
/// permutation of the input in non-decreasing order.
#[verifier::external_body]
pub(crate) fn sort_u64(v: &mut Vec<u64>)
    ensures
        final(v)@.to_multiset() == old(v)@.to_multiset(),
        forall|i: int, j: int| 0 <= i < j < final(v)@.len() ==> final(v)@[i] <= final(v)@[j],
{
    v.sort_unstable();
}

} // verus!
