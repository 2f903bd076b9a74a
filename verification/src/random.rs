//! The source of randomness.

use rand::Rng;
use vstd::prelude::*;

verus! {

/// Draws an integer uniformly at random from `[0, bound)`.
///
/// Trusted, not proved: the body calls `rand::Rng::gen_range(0, bound)` on
/// the generator that `rand::thread_rng()` returns. The contract claims only
/// that the value lies below `bound`, which holds of every outcome; nothing
/// is claimed about which value comes back, and two calls may differ.
/// `gen_range` panics on an empty range, so `bound` must be positive.
#[verifier::external_body]
pub(crate) fn random_below(bound: u64) -> (draw: u64)
    requires
        bound > 0,
    ensures
        draw < bound,
{
    rand::thread_rng().gen_range(0, bound)
}

} // verus!
