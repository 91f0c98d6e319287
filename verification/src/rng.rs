//! The random number generator of the `rand` crate, as far as the library
//! uses it.

use rand::rngs::{OsRng, SmallRng};
use rand::{RngCore, SeedableRng};
use vstd::prelude::*;

verus! {

/// The small fast generator of the `rand` crate, carried through as it is.
#[verifier::external_type_specification]
#[verifier::external_body]
pub struct ExSmallRng(SmallRng);

/// A generator seeded with `seed`: `SmallRng::seed_from_u64`. Nothing is
/// claimed of the numbers it will give.
#[verifier::external_body]
pub(crate) fn seeded_rng(seed: u64) -> (rng: SmallRng) {
    SmallRng::seed_from_u64(seed)
}

/// A generator seeded by the operating system: `SmallRng::from_rng` on
/// `OsRng`, which fails, without a panic, where the system gives no
/// entropy. Nothing is claimed of when that is.
#[verifier::external_body]
pub(crate) fn entropy_rng() -> (rng: Option<SmallRng>) {
    SmallRng::from_rng(OsRng).ok()
}

/// The generator's next number: `RngCore::next_u32`. It may be any `u32`.
#[verifier::external_body]
pub(crate) fn next_u32(rng: &mut SmallRng) -> (draw: u32) {
    rng.next_u32()
}

} // verus!
