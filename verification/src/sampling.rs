//! Random draws.
//!
//! The only source of randomness is [`random_bits`]; everything built on it
//! is verified for every value that it may return.

use crate::scalar::{Scalar, ONE_RAW};
use rand::Rng;
use vstd::prelude::*;

verus! {

/// Thirty-two random bits from the thread-local generator of `rand`.
///
/// The body calls `rand::thread_rng().gen::<u32>()`, which returns the
/// generator's next 32-bit word. Nothing is claimed of the value: any `u32`
/// may come back, and two calls may differ.
#[verifier::external_body]
pub(crate) fn random_bits() -> (bits: u32) {
    rand::thread_rng().gen::<u32>()
}

/// A random scalar in `[0, 1)`.
pub fn unit_interval() -> (r: Scalar)
    ensures
        0 <= r@ < ONE_RAW,
{
    Scalar::from_fraction_bits(random_bits())
}

} // verus!
