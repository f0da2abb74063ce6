//! The random source: a seeded generator of the `rand` crate, and the three
//! draws that the search makes from it.
//!
//! Nothing here is proved. Each function below states what the `rand` crate's
//! source shows of every outcome of the call it makes, and no more.

use rand::distributions::Bernoulli;
use rand::distributions::Distribution;
use rand::rngs::StdRng;
use rand::seq::SliceRandom;
use rand::Rng;
use vstd::prelude::*;

verus! {

/// `rand::rngs::StdRng`, the generator that every draw advances. Its state is
/// not modelled: the caller makes it, seeded as the caller likes.
#[verifier::external_type_specification]
#[verifier::external_body]
pub struct ExStdRng(StdRng);

/// `rand::distributions::Bernoulli`, a probability of success that the caller
/// has made from a number between 0 and 1. Its value is not modelled.
#[verifier::external_type_specification]
#[verifier::external_body]
pub struct ExBernoulli(Bernoulli);

/// `Rng::gen_range` on an inclusive range of `u64`. The call panics on an
/// empty range, which `requires` leaves out; what it returns lies in the range.
#[verifier::external_body]
pub(crate) fn uniform_inclusive(rng: &mut StdRng, low: u64, high: u64) -> (r: u64)
    requires
        low <= high,
    ensures
        low <= r <= high,
{
    rng.gen_range(low..=high)
}

/// `Distribution::sample` of a `Bernoulli`: one trial. Either outcome may come.
#[verifier::external_body]
pub(crate) fn bernoulli_trial(rng: &mut StdRng, distribution: &Bernoulli) -> (success: bool) {
    distribution.sample(rng)
}

/// `SliceRandom::shuffle`, which only swaps elements: the values afterwards
/// are the values before, in some order.
#[verifier::external_body]
pub(crate) fn shuffle(rng: &mut StdRng, values: &mut Vec<i32>)
    ensures
        final(values)@.to_multiset() == old(values)@.to_multiset(),
{
    values.shuffle(rng)
}

} // verus!
