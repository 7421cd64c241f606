//! The random source.
//!
//! The scattering decisions and the tree construction draw from a
//! `rand` generator.  The generator's state is opaque; the wrappers
//! below promise nothing beyond each draw's range, so everything proved
//! about the callers holds for every sequence of draws.
use vstd::prelude::*;

verus! {

#[verifier::external_type_specification]
#[verifier::external_body]
pub struct ExStdRng(rand::rngs::StdRng);

/// Relies on `rand::Rng::gen::<u16>`: one uniform 16-bit draw.
#[verifier::external_body]
pub(crate) fn rand_u16(rng: &mut rand::rngs::StdRng) -> (r: u16) {
    rand::Rng::gen::<u16>(rng)
}

/// Relies on `rand::Rng::gen_range` over `0..3`, which returns a value
/// inside the (non-empty) range.
#[verifier::external_body]
pub(crate) fn rand_axis_index(rng: &mut rand::rngs::StdRng) -> (r: u8)
    ensures
        r < 3,
{
    rand::Rng::gen_range(rng, 0..3u8)
}

} // verus!
