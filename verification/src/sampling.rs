//! Weighted choice among candidates: by chance, or by a number that the
//! caller supplies.

use vstd::prelude::*;
use rand::rngs::ThreadRng;
use crate::external::{uniform_below, weighted_index};

verus! {

/// The sum of the weights.
pub open spec fn total(weights: Seq<u64>) -> int
    decreases weights.len(),
{
    if weights.len() == 0 {
        0
    } else {
        total(weights.drop_last()) + weights.last()
    }
}

/// Whether a weighted choice among `weights` may fall on `index`: an index
/// of weight zero is chosen only if all weights are zero.
pub open spec fn eligible(weights: Seq<u64>, index: int) -> bool {
    &&& 0 <= index < weights.len()
    &&& total(weights) > 0 ==> weights[index] > 0
}

/// Whether `target` falls into the share of `index` when the weights are
/// laid out one after the other from 0 on.
pub open spec fn covers(weights: Seq<u64>, index: int, target: int) -> bool {
    &&& 0 <= index < weights.len()
    &&& total(weights.take(index)) <= target < total(weights.take(index + 1))
}

/// The index that the number `draw` selects among `weights`.  If all
/// weights are zero, the indices take turns: `draw` modulo their number.
/// Otherwise `draw` modulo the sum of the weights falls into the share of
/// exactly one index, and that index is selected.
pub open spec fn pick(weights: Seq<u64>, draw: u64) -> int {
    if total(weights) == 0 {
        draw as int % weights.len() as int
    } else {
        slot(weights, draw as int % total(weights))
    }
}

/// The index into whose share `target` falls.
pub open spec fn slot(weights: Seq<u64>, target: int) -> int {
    choose|index: int| #[trigger] covers(weights, index, target)
}

/// The sum of the first `n + 1` weights is the sum of the first `n` and the
/// weight that follows.
proof fn lemma_total_take(weights: Seq<u64>, n: int)
    requires
        0 <= n < weights.len(),
    ensures
        total(weights.take(n + 1)) == total(weights.take(n)) + weights[n],
        total(weights.take(0)) == 0,
{
    assert(weights.take(n + 1).drop_last() =~= weights.take(n));
}

/// The running sum of the weights never falls.
proof fn lemma_total_monotone(weights: Seq<u64>, i: int, j: int)
    requires
        0 <= i <= j <= weights.len(),
    ensures
        0 <= total(weights.take(i)) <= total(weights.take(j)),
        total(weights.take(weights.len() as int)) == total(weights),
    decreases j - i, i,
{
    assert(weights.take(weights.len() as int) =~= weights);
    if i < j {
        lemma_total_take(weights, j - 1);
        lemma_total_monotone(weights, i, j - 1);
    } else if i > 0 {
        lemma_total_take(weights, i - 1);
        lemma_total_monotone(weights, i - 1, i - 1);
    }
}

/// A target falls into the share of at most one index.
pub proof fn lemma_covers_unique(weights: Seq<u64>, i: int, j: int, target: int)
    requires
        covers(weights, i, target),
        covers(weights, j, target),
    ensures
        i == j,
{
    if i < j {
        lemma_total_monotone(weights, i + 1, j);
    } else if j < i {
        lemma_total_monotone(weights, j + 1, i);
    }
}

/// The index into whose share a target falls has a weight above zero.
proof fn lemma_covers_eligible(weights: Seq<u64>, index: int, target: int)
    requires
        covers(weights, index, target),
    ensures
        eligible(weights, index),
{
    lemma_total_take(weights, index);
}

/// Every index that a weighted choice may fall on is selected by some
/// number: the result.
pub proof fn lemma_pick_reaches(weights: Seq<u64>, index: int) -> (draw: u64)
    requires
        eligible(weights, index),
        total(weights) <= u64::MAX,
        weights.len() <= u64::MAX,
    ensures
        pick(weights, draw) == index,
{
    lemma_total_monotone(weights, index, index + 1);
    lemma_total_monotone(weights, index + 1, weights.len() as int);
    lemma_total_take(weights, index);
    if total(weights) == 0 {
        assert(index % weights.len() as int == index) by (nonlinear_arith)
            requires
                0 <= index < weights.len(),
        ;
        index as u64
    } else {
        let below = total(weights.take(index));
        assert(covers(weights, index, below));
        assert(below % total(weights) == below) by (nonlinear_arith)
            requires
                0 <= below < total(weights),
        ;
        lemma_covers_unique(weights, index, slot(weights, below), below);
        below as u64
    }
}

/// Adds up the weights.
pub fn total_weight(weights: &Vec<u64>) -> (sum: u64)
    requires
        total(weights@) <= u64::MAX,
    ensures
        sum == total(weights@),
{
    let mut sum: u64 = 0;
    let mut i: usize = 0;
    while i < weights.len()
        invariant
            i <= weights@.len(),
            sum == total(weights@.take(i as int)),
            total(weights@) <= u64::MAX,
        decreases weights@.len() - i,
    {
        proof {
            lemma_total_take(weights@, i as int);
            lemma_total_monotone(weights@, i + 1, weights@.len() as int);
        }
        sum = sum + weights[i];
        i = i + 1;
    }
    proof {
        lemma_total_monotone(weights@, 0, 0);
    }
    sum
}

/// Selects an index among `weights` by the number `draw`: the same draw
/// always selects the same index.
pub fn select(weights: &Vec<u64>, draw: u64) -> (index: usize)
    requires
        weights@.len() > 0,
        total(weights@) <= u64::MAX,
    ensures
        index == pick(weights@, draw),
        eligible(weights@, index as int),
{
    let sum = total_weight(weights);
    if sum == 0 {
        let count: u64 = weights.len() as u64;
        return (draw % count) as usize;
    }
    let target: u64 = draw % sum;
    let mut below: u64 = 0;
    let mut i: usize = 0;
    while i < weights.len() - 1
        invariant
            i < weights@.len(),
            sum == total(weights@),
            target == draw as int % total(weights@),
            below == total(weights@.take(i as int)),
            below <= target < total(weights@),
            total(weights@) <= u64::MAX,
        decreases weights@.len() - i,
    {
        proof {
            lemma_total_take(weights@, i as int);
            lemma_total_monotone(weights@, i + 1, weights@.len() as int);
        }
        let above: u64 = below + weights[i];
        if target < above {
            proof {
                let chosen = slot(weights@, target as int);
                assert(covers(weights@, i as int, target as int));
                lemma_covers_unique(weights@, i as int, chosen, target as int);
                lemma_covers_eligible(weights@, i as int, target as int);
            }
            return i;
        }
        below = above;
        i = i + 1;
    }
    proof {
        let chosen = slot(weights@, target as int);
        lemma_total_monotone(weights@, i + 1, weights@.len() as int);
        assert(covers(weights@, i as int, target as int));
        lemma_covers_unique(weights@, i as int, chosen, target as int);
        lemma_covers_eligible(weights@, i as int, target as int);
    }
    i
}

/// Draws an index among `weights` at random, each with a chance in
/// proportion to its weight.  If all weights are zero, every index has the
/// same chance.
pub fn sample(rng: &mut ThreadRng, weights: &Vec<u64>) -> (index: usize)
    requires
        weights@.len() > 0,
        total(weights@) <= u64::MAX,
    ensures
        eligible(weights@, index as int),
{
    match weighted_index(rng, weights) {
        Ok(index) => index,
        Err(_) => uniform_below(rng, weights.len()),
    }
}

} // verus!
