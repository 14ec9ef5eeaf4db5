//! The random draws that a simulated game takes from `fastrand`.
use fastrand::Rng;
use vstd::prelude::*;

verus! {

#[verifier::external_type_specification]
#[verifier::external_body]
pub struct ExRng(fastrand::Rng);

/// Relies on `fastrand::Rng::with_seed`: a generator that starts from `seed`.
pub assume_specification[ fastrand::Rng::with_seed ](seed: u64) -> Rng;

/// Relies on `fastrand::Rng::fork`: a new generator seeded from the next output of `rng`.
pub assume_specification[ fastrand::Rng::fork ](rng: &mut Rng) -> Rng;

/// Relies on `fastrand::Rng::usize`: a draw from the range `..bound` lies below `bound` (the call
/// panics only on an empty range).
#[verifier::external_body]
pub(crate) fn draw_below(rng: &mut Rng, bound: usize) -> (r: usize)
    requires
        bound > 0,
    ensures
        r < bound,
{
    rng.usize(..bound)
}

/// Relies on `fastrand::usize`: a draw from the thread-local generator lies below `bound` (the
/// call panics only on an empty range).
#[verifier::external_body]
pub(crate) fn random_below(bound: usize) -> (r: usize)
    requires
        bound > 0,
    ensures
        r < bound,
{
    fastrand::usize(..bound)
}

/// Relies on `fastrand::u64`: any value, drawn from the thread-local generator.
#[verifier::external_body]
pub(crate) fn random_seed() -> u64 {
    fastrand::u64(..)
}

} // verus!
