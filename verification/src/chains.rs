//! Measures of how the entries spread over the buckets.

use vstd::prelude::*;

verus! {

/// The number of buckets that hold at least one entry.
pub open spec fn occupied<V>(buckets: Seq<Vec<(u64, V)>>) -> nat
    decreases buckets.len(),
{
    if buckets.len() == 0 {
        0
    } else {
        occupied(buckets.drop_last()) + (if buckets.last()@.len() > 0 {
            1nat
        } else {
            0nat
        })
    }
}

/// The number of buckets that hold exactly `len` entries.
pub open spec fn chains_of_length<V>(buckets: Seq<Vec<(u64, V)>>, len: nat) -> nat
    decreases buckets.len(),
{
    if buckets.len() == 0 {
        0
    } else {
        chains_of_length(buckets.drop_last(), len) + (if buckets.last()@.len() == len {
            1nat
        } else {
            0nat
        })
    }
}

/// No more buckets have a given length than there are buckets.
pub proof fn lemma_chains_of_length_bound<V>(buckets: Seq<Vec<(u64, V)>>, len: nat)
    ensures
        chains_of_length(buckets, len) <= buckets.len(),
    decreases buckets.len(),
{
    if buckets.len() > 0 {
        lemma_chains_of_length_bound(buckets.drop_last(), len);
    }
}

} // verus!
