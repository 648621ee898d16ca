//! The random source that maze generation draws from.
use vstd::prelude::*;
use rand::rngs::StdRng;
use rand::seq::SliceRandom;
use rand::Rng;

verus! {

/// The standard generator of the `rand` crate, held opaquely.
#[verifier::external_type_specification]
#[verifier::external_body]
pub struct ExStdRng(StdRng);

/// Relies on rand's `SliceRandom::shuffle`: the elements are put in a random
/// order in place, none added or lost.
#[verifier::external_body]
pub(crate) fn shuffle_steps(steps: &mut Vec<(isize, isize)>, rng: &mut StdRng)
    ensures
        final(steps)@.to_multiset() == old(steps)@.to_multiset(),
        final(steps)@.len() == old(steps)@.len(),
{
    steps.shuffle(rng);
}

/// Relies on rand's `Rng::gen_range`: a value drawn from `0..n`. The call
/// panics on an empty range, which `requires` leaves out.
#[verifier::external_body]
pub(crate) fn random_below(rng: &mut StdRng, n: usize) -> (r: usize)
    requires
        n > 0,
    ensures
        r < n,
{
    rng.gen_range(0..n)
}

} // verus!
