//! The pseudo-random source: the generator type and the calls that draw from it.
//!
//! Nothing is claimed about the numbers drawn. Every function of the library
//! that consumes one is verified for all values it can take.

use vstd::prelude::*;
use rand::rngs::OsRng;
use rand::rngs::StdRng;
use rand::Rng;
use rand::SeedableRng;

verus! {

/// `rand::rngs::StdRng`, carried through the library as an opaque value.
#[verifier::external_type_specification]
#[verifier::external_body]
pub struct ExStdRng(StdRng);

/// Calls `SeedableRng::seed_from_u64` on `StdRng`, which makes a generator
/// from a 64-bit seed. Nothing is claimed of the generator.
#[verifier::external_body]
pub(crate) fn seeded_rng(seed: u64) -> (rng: StdRng) {
    StdRng::seed_from_u64(seed)
}

/// Calls `SeedableRng::from_rng` on `StdRng` with `rand::rngs::OsRng`, which
/// seeds the generator from the operating system, and turns the error that
/// comes back where the system provides no entropy into `None`. Nothing is
/// claimed of the result.
#[verifier::external_body]
pub(crate) fn entropy_rng() -> (rng: Option<StdRng>) {
    StdRng::from_rng(OsRng).ok()
}

/// Calls `Rng::gen::<usize>` on the generator, which advances it. Nothing is
/// claimed of the number.
#[verifier::external_body]
pub(crate) fn draw_usize(rng: &mut StdRng) -> (value: usize) {
    rng.gen::<usize>()
}

/// Calls `Rng::gen::<u32>` on the generator, which advances it. Nothing is
/// claimed of the number.
#[verifier::external_body]
pub(crate) fn draw_u32(rng: &mut StdRng) -> (value: u32) {
    rng.gen::<u32>()
}

} // verus!
