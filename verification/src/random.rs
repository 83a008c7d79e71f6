use vstd::prelude::*;
use rand::rngs::StdRng;

verus! {

/// `rand::rngs::StdRng`, the generator that the population owns. Nothing is
/// known here of what it holds.
#[verifier::external_type_specification]
#[verifier::external_body]
pub struct ExStdRng(rand::rngs::StdRng);

/// `rand::SeedableRng::seed_from_u64` for `rand::rngs::StdRng`: a generator
/// started from the seed. Nothing is claimed of the generator.
#[verifier::external_body]
pub(crate) fn seeded(seed: u64) -> StdRng {
    rand::SeedableRng::seed_from_u64(seed)
}

/// `rand::Rng::sample` of `rand::distributions::Uniform::new(0, bound)`: an
/// index below `bound`. The bound must be positive, as `Uniform::new` panics
/// on an empty range. Which index comes is left open.
#[verifier::external_body]
pub(crate) fn draw_below(rng: &mut StdRng, bound: usize) -> (p: usize)
    requires
        bound > 0,
    ensures
        p < bound,
{
    rand::Rng::sample(rng, rand::distributions::Uniform::new(0, bound))
}

} // verus!
