//! The calls this library makes into other crates.  Verus takes the
//! contracts in this file on trust: it does not read the code behind them.

use vstd::prelude::*;
use vstd::arithmetic::power::pow;
use rand::distributions::{Distribution, WeightedError, WeightedIndex};
use rand::rngs::ThreadRng;
use rand::Rng;
use crate::sampling::total;

verus! {

/// `num_traits::pow` on `u64`, which raises `base` to the power `exp` by
/// repeated squaring.  Every product it forms is a power of `base` with an
/// exponent of at most `exp`, so nothing overflows when the result fits.
#[verifier::external_body]
pub(crate) fn pow_u64(base: u64, exp: usize) -> (r: u64)
    requires
        pow(base as int, exp as nat) <= u64::MAX,
    ensures
        r == pow(base as int, exp as nat),
{
    num_traits::pow(base, exp)
}

/// The random number generator of the current thread, from `rand`.
#[verifier::external_type_specification]
#[verifier::external_body]
pub struct ExThreadRng(ThreadRng);

/// The reason for which `rand` refuses a list of weights.
#[verifier::external_type_specification]
#[verifier::external_body]
pub struct ExWeightedError(WeightedError);

/// `Rng::gen_range` on the range `0..bound`: a number below `bound`.  The
/// call panics on an empty range, so `bound` is not zero.
#[verifier::external_body]
pub(crate) fn uniform_below(rng: &mut ThreadRng, bound: usize) -> (r: usize)
    requires
        bound > 0,
    ensures
        r < bound,
{
    rng.gen_range(0..bound)
}

/// `Rng::gen_ratio`: `true` with a chance of `numerator` in `denominator`.
/// The call panics if the denominator is zero or less than the numerator.
#[verifier::external_body]
pub(crate) fn chance(rng: &mut ThreadRng, numerator: u32, denominator: u32) -> (r: bool)
    requires
        0 < denominator,
        numerator <= denominator,
{
    rng.gen_ratio(numerator, denominator)
}

/// `WeightedIndex::new` on the weights, then `sample` on what it built.
/// `new` adds the weights up and fails if there is none or if their sum is
/// zero; the sum is required to fit, since `new` adds without a check.
/// `sample` draws a number below the sum and returns the index into whose
/// share it falls, so the index it returns has a weight above zero.
#[verifier::external_body]
pub(crate) fn weighted_index(rng: &mut ThreadRng, weights: &Vec<u64>) -> (r: Result<usize, WeightedError>)
    requires
        total(weights@) <= u64::MAX,
    ensures
        match r {
            Ok(index) => total(weights@) > 0 && index < weights@.len() && weights@[index as int] > 0,
            Err(_) => weights@.len() == 0 || total(weights@) == 0,
        },
{
    match WeightedIndex::new(weights) {
        Ok(distribution) => Ok(distribution.sample(rng)),
        Err(error) => Err(error),
    }
}

} // verus!
