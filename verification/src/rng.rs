//! The random source of the search: a `rand` generator behind three small
//! trusted functions. Nothing is assumed of the numbers drawn except their
//! range, and none of the three can panic.

use rand::Rng;
use rand::SeedableRng;
use rand::rngs::OsRng;
use rand::rngs::StdRng;
use vstd::prelude::*;

verus! {

#[verifier::external_type_specification]
#[verifier::external_body]
pub struct ExStdRng(rand::rngs::StdRng);

/// Calls `StdRng::seed_from_u64`. Nothing is claimed of the generator that
/// comes back.
#[verifier::external_body]
pub(crate) fn seeded_source(seed: u64) -> StdRng {
    StdRng::seed_from_u64(seed)
}

/// Calls `StdRng::from_rng` on `OsRng`, which seeds the generator from the
/// operating system and reports it where the system has no entropy to give:
/// then `None` comes back. Nothing is claimed of when that is, nor of the
/// generator.
#[verifier::external_body]
pub(crate) fn entropy_source() -> Option<StdRng> {
    StdRng::from_rng(OsRng).ok()
}

/// Calls `Rng::gen_range` on `0..bound`. The range must not be empty, since
/// `gen_range` panics on an empty range; the number drawn lies in the range.
#[verifier::external_body]
pub(crate) fn draw_below(source: &mut StdRng, bound: usize) -> (drawn: usize)
    requires
        bound > 0,
    ensures
        drawn < bound,
{
    source.gen_range(0..bound)
}

} // verus!
