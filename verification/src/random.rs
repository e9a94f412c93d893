//! The pseudo-random generator that the perturbation draws from.

use rand::rngs::StdRng;
use rand::{Rng, SeedableRng};
use vstd::prelude::*;

verus! {

/// `rand`'s standard generator. Its state is not modelled.
#[verifier::external_type_specification]
#[verifier::external_body]
pub struct ExStdRng(StdRng);

/// `StdRng::from_seed`: a generator in the state that the seed determines.
/// Nothing is claimed of it.
#[verifier::external_body]
pub(crate) fn seeded(seed: [u8; 32]) -> (rng: StdRng) {
    StdRng::from_seed(seed)
}

/// `Rng::gen_range`: an integer from `low` up to, but not including, `high`.
/// The call needs `low < high`. Which number comes is left open: it depends
/// on the generator's state.
#[verifier::external_body]
pub(crate) fn draw(rng: &mut StdRng, low: i64, high: i64) -> (v: i64)
    requires
        low < high,
    ensures
        low <= v < high,
{
    rng.gen_range(low, high)
}

} // verus!
