//! The random source each worker owns: a small, fast generator seeded from
//! operating-system entropy, and the one operation the walk needs from it, a
//! uniformly random index below a given bound.

use vstd::prelude::*;
use rand::Rng;
use rand::SeedableRng;

verus! {

/// Declares rand's `SmallRng` so it can stand in signatures; its state is
/// opaque here.
#[verifier::external_type_specification]
#[verifier::external_body]
pub struct ExSmallRng(rand::rngs::SmallRng);

/// Relies on rand's `SeedableRng::from_entropy`: builds a generator seeded
/// from operating-system entropy, so each worker's source is independent of
/// every other worker's.
#[verifier::external_body]
pub fn fresh_rng() -> rand::rngs::SmallRng {
    rand::rngs::SmallRng::from_entropy()
}

/// Relies on rand's `Rng::gen_range` over the half-open range `0..len`: it
/// returns a uniformly distributed value of that range, hence an index
/// strictly below `len`, and panics only on an empty range, which the
/// precondition rules out.
#[verifier::external_body]
pub fn pick_index(rng: &mut rand::rngs::SmallRng, len: usize) -> (i: usize)
    requires
        len >= 1,
    ensures
        i < len,
{
    rng.gen_range(0..len)
}

} // verus!
