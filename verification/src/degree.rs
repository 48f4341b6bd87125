//! The distribution from which the degrees of check blocks are drawn.
//!
//! The weights are integers. A caller who starts from probabilities scales
//! them to a total of its choice; `2^52` is the grid on which a 64-bit
//! generator resolves a probability.
use crate::rng::{
    distribution_weights, rng_words, total_weight, weighted_draw, weighted_index_clone,
    weighted_index_new, weighted_sample, DegreeDistribution,
};
use crate::types::CodeError;
use rand_xoshiro::Xoshiro256StarStar;
use vstd::prelude::*;

verus! {

/// The degree that a generator in state `words` draws by `weights`, and its
/// state afterwards: one more than the index that the weights select.
pub open spec fn degree_drawn(weights: Seq<u64>, words: Seq<u64>) -> (usize, Seq<u64>) {
    let drawn = weighted_draw(weights, words);
    ((drawn.0 + 1) as usize, drawn.1)
}

impl View for DegreeDistribution {
    type V = Seq<u64>;

    open spec fn view(&self) -> Seq<u64> {
        distribution_weights(*self)
    }
}

impl Clone for DegreeDistribution {
    fn clone(&self) -> (copy: Self)
        ensures
            copy@ == self@,
    {
        weighted_index_clone(self)
    }
}

impl DegreeDistribution {
    /// Makes the sampler that returns index `i` with a chance in proportion
    /// to `weights[i]`. The weights must not be empty, nor all zero, and
    /// their sum must fit in 64 bits.
    pub fn new(weights: &Vec<u64>) -> (made: Result<DegreeDistribution, CodeError>)
        ensures
            made.is_ok() == (weights@.len() > 0 && 0 < total_weight(weights@) <= u64::MAX),
            made.is_ok() ==> made.unwrap()@ == weights@,
            made.is_err() ==> made.unwrap_err() == CodeError::ConfigError,
    {
        let mut total: u64 = 0;
        let mut i: usize = 0;
        while i < weights.len()
            invariant
                i <= weights@.len(),
                total == total_weight(weights@.take(i as int)),
            decreases weights@.len() - i,
        {
            proof {
                assert(weights@.take(i + 1).drop_last() == weights@.take(i as int));
                lemma_total_weight_grows(weights@, i + 1);
            }
            match total.checked_add(weights[i]) {
                Some(sum) => {
                    total = sum;
                },
                None => {
                    return Err(CodeError::ConfigError);
                },
            }
            i += 1;
        }
        proof {
            assert(weights@.take(i as int) == weights@);
        }
        if weights.len() == 0 || total == 0 {
            return Err(CodeError::ConfigError);
        }
        match weighted_index_new(weights) {
            Ok(d) => Ok(d),
            Err(_) => Err(CodeError::ConfigError),
        }
    }

    /// The number of weights: the largest degree that can be drawn.
    pub open spec fn max_degree(&self) -> nat {
        self@.len()
    }

    /// Draws the degree of a check block: between one and the number of
    /// weights, and never one whose weight is zero.
    pub fn sample_degree(&self, rng: &mut Xoshiro256StarStar) -> (degree: usize)
        ensures
            1 <= degree <= self.max_degree(),
            self@[degree - 1] > 0,
            degree == degree_drawn(self@, rng_words(*old(rng))).0,
            rng_words(*final(rng)) == degree_drawn(self@, rng_words(*old(rng))).1,
    {
        1 + weighted_sample(self, rng)
    }
}

/// A prefix of the weights weighs no more than all of them.
pub proof fn lemma_total_weight_grows(weights: Seq<u64>, n: int)
    requires
        0 <= n <= weights.len(),
    ensures
        total_weight(weights.take(n)) <= total_weight(weights),
    decreases weights.len(),
{
    if n < weights.len() {
        lemma_total_weight_grows(weights.drop_last(), n);
        assert(weights.drop_last().take(n) == weights.take(n));
    } else {
        assert(weights.take(n) == weights);
    }
}

} // verus!
