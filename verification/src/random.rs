//! The random source. The renderer draws every random number from a
//! [`StdRng`] that the caller hands in, so a caller who seeds the generator
//! gets the same picture again.
use crate::fixed::Fixed;
use rand::rngs::StdRng;
use rand::Rng;
use vstd::prelude::*;

verus! {

/// The generator of the `rand` crate, carried through as an opaque value.
#[verifier::external_type_specification]
#[verifier::external_body]
pub struct ExStdRng(StdRng);

/// Draws the next 64 bits: `rand::Rng::gen` at the type `u64`. Nothing is
/// claimed of the bits drawn, nor of the generator afterwards.
#[verifier::external_body]
pub(crate) fn next_bits(rng: &mut StdRng) -> (bits: u64) {
    rng.gen::<u64>()
}

/// A number drawn from `[0, 1)`: what `Fixed::from_bits` makes of the next
/// 64 bits of the generator.
pub fn unit_sample(rng: &mut StdRng) -> (r: Fixed)
    ensures
        r.in_unit_interval(),
{
    Fixed::from_bits(next_bits(rng))
}

} // verus!
