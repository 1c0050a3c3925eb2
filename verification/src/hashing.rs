//! The hash builder: the one capability the selector takes from its caller.

use std::collections::hash_map::RandomState;
use std::hash::{BuildHasher, Hash, Hasher};
use vstd::prelude::*;

verus! {

/// `RandomState::new` of std: a hash builder with freshly drawn keys. Nothing
/// is claimed of it.
#[verifier::external_body]
pub(crate) fn fresh_random_state() -> RandomState {
    RandomState::new()
}

/// `BuildHasher::build_hasher` of std: a new accumulator. Nothing is claimed
/// of it.
#[verifier::external_body]
pub(crate) fn start_hasher<S: BuildHasher>(build: &S) -> S::Hasher {
    build.build_hasher()
}

/// `Hash::hash` of std: feeds `value` into the accumulator. Nothing is
/// claimed of the accumulator afterwards.
#[verifier::external_body]
pub(crate) fn feed<T: Hash, H: Hasher>(value: &T, state: &mut H) {
    value.hash(state)
}

/// `Hasher::finish` of std: the 64-bit digest of what was fed so far. Nothing
/// is claimed of it.
#[verifier::external_body]
pub(crate) fn digest<H: Hasher>(state: &H) -> u64 {
    state.finish()
}

} // verus!
