//! The hash of a key, as the cache's hasher computes it.

use vstd::prelude::*;
use std::collections::hash_map::RandomState;
use std::hash::BuildHasher;
use std::hash::Hash;

verus! {

/// `BuildHasher::hash_one`: the hash of `key` under `build_hasher`.
/// Nothing is said of the value: a hasher may be seeded by chance.
#[verifier::external_body]
pub(crate) fn hash_one<K: Hash, S: BuildHasher>(build_hasher: &S, key: &K) -> u64 {
    build_hasher.hash_one(key)
}

/// `RandomState::new`: a hasher with keys of its own.
#[verifier::external_body]
pub(crate) fn random_state() -> RandomState {
    RandomState::new()
}

} // verus!
