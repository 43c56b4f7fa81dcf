//! The random numbers that the game draws.

use vstd::prelude::*;

verus! {

/// Draws a byte with `rand::random`, which takes it from the generator of
/// the calling thread. Nothing is known of the byte before it is drawn, so
/// nothing is stated of it.
#[verifier::external_body]
pub(crate) fn random_u8() -> (draw: u8) {
    rand::random::<u8>()
}

/// Draws a 64-bit number with `rand::random`, which takes it from the
/// generator of the calling thread. Nothing is known of the number before
/// it is drawn, so nothing is stated of it.
#[verifier::external_body]
pub(crate) fn random_u64() -> (draw: u64) {
    rand::random::<u64>()
}

} // verus!
