//! The source of randomness.
use vstd::prelude::*;
use rand::RngCore;

verus! {

/// Draws the next 64 bits from the thread-local generator of the `rand`
/// crate: `rand::thread_rng()` followed by `RngCore::next_u64`. The value
/// depends on the generator's state, so nothing is claimed of it. The
/// generator is seeded from the operating system on first use in a thread.
#[verifier::external_body]
pub(crate) fn random_u64() -> (r: u64) {
    rand::thread_rng().next_u64()
}

} // verus!
