//! The random source: the thread-local generator of the `rand` crate.
//!
//! Nothing here is proved. The two items state what `rand` documents of its
//! functions; the growth code is verified for whatever numbers come back.

use vstd::prelude::*;

verus! {

/// The handle type of `rand`'s thread-local generator, carried through
/// opaquely.
#[verifier::external_type_specification]
#[verifier::external_body]
pub struct ExThreadRng(rand::rngs::ThreadRng);

/// `rand::rng`: hands out a handle to the thread-local generator. Nothing is
/// claimed of the handle.
pub assume_specification[ rand::rng ]() -> (random: rand::rngs::ThreadRng)
;

/// `rand::Rng::random_range` on the half-open range `0..bound`: an integer
/// of that range. `rand` panics on an empty range, so `bound` must be
/// positive. Which integer comes back is left open.
#[verifier::external_body]
pub(crate) fn random_below(random: &mut rand::rngs::ThreadRng, bound: i32) -> (drawn: i32)
    requires
        bound > 0,
    ensures
        0 <= drawn < bound,
{
    rand::Rng::random_range(random, 0..bound)
}

} // verus!
