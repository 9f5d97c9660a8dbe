use vstd::prelude::*;

verus! {

// Fixed seeds for the hasher, so that every hash below is a function of the
// hashed value alone, stable across pickers, processes and rebuilds.
pub const HASH_SEED_A: u64 = 0x9e3779b97f4a7c15;
pub const HASH_SEED_B: u64 = 0x6a09e667f3bcc908;
pub const HASH_SEED_C: u64 = 0xbb67ae8584caa73b;
pub const HASH_SEED_D: u64 = 0x3c6ef372fe94f82b;

/// The 64-bit mix of a pre-hashed request key.
pub uninterp spec fn hash64_of(key: u64) -> u64;

/// Relies on ahash's `RandomState::with_seeds` and `hash_one`: with fixed
/// seeds the result is a function of the hashed value alone.
#[verifier::external_body]
pub fn hash64(key: u64) -> (r: u64)
    ensures
        r == hash64_of(key),
{
    ahash::RandomState::with_seeds(HASH_SEED_A, HASH_SEED_B, HASH_SEED_C, HASH_SEED_D).hash_one(
        key,
    )
}

/// The hash of one virtual ring point: a node's stable id paired with the
/// virtual index.
pub uninterp spec fn point_hash_of(id: u64, index: u64) -> u64;

/// Relies on ahash's `RandomState::with_seeds` and `hash_one` on the pair:
/// with fixed seeds the result is a function of the two values alone.
#[verifier::external_body]
pub fn point_hash(id: u64, index: u64) -> (r: u64)
    ensures
        r == point_hash_of(id, index),
{
    ahash::RandomState::with_seeds(HASH_SEED_A, HASH_SEED_B, HASH_SEED_C, HASH_SEED_D).hash_one(
        (id, index),
    )
}

} // verus!
