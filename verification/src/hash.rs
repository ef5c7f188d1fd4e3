//! Fibonacci hashing of 64-bit keys and the bucket index derived from it.

use vstd::prelude::*;

verus! {

/// The odd multiplier closest to `2^64` divided by the golden ratio.
pub const MULTIPLIER: u64 = 11400714819323198549;

/// The hash of `seed`: the product with the multiplier, reduced modulo `2^64`.
pub open spec fn hash_of(seed: u64) -> u64 {
    ((seed as nat * 11400714819323198549) % 0x1_0000_0000_0000_0000) as u64
}

/// The bucket that `key` belongs to in a table whose bucket count is `mask + 1`.
pub open spec fn bucket_of(key: u64, mask: u64) -> int {
    (hash_of(key) & mask) as int
}

/// Computes the multiplicative hash of `seed`.
pub fn hash_u64(seed: u64) -> (h: u64)
    ensures
        h == hash_of(seed),
{
    MULTIPLIER.wrapping_mul(seed)
}

/// A masked value never exceeds the mask.
pub proof fn lemma_bucket_of_bound(key: u64, mask: u64)
    ensures
        0 <= bucket_of(key, mask) <= mask,
{
    let h = hash_of(key);
    assert(h & mask <= mask) by (bit_vector);
}

} // verus!
