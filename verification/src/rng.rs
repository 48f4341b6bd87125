//! The pseudo-random generator and the samplers drawn from it.
//!
//! Everything in this module is taken on trust from the `rand`, `rand_core`
//! and `rand_xoshiro` crates: the contracts below are believed, not proved.
//! A generator is a deterministic machine, so each contract names the value
//! drawn and the state left behind as functions of the state before. Values
//! are drawn as 64-bit integers, so that a stream reads the same on every
//! machine.
use rand::distributions::{Distribution, Uniform, WeightedError, WeightedIndex};
use rand_core::SeedableRng;
use rand_xoshiro::Xoshiro256StarStar;
use vstd::prelude::*;

verus! {

/// `rand_xoshiro::Xoshiro256StarStar`, the generator: carried through as it
/// is, and spoken of by the state words it holds.
#[verifier::external_type_specification]
#[verifier::external_body]
pub struct ExXoshiro256StarStar(Xoshiro256StarStar);

/// `rand::distributions::WeightedError`, the reason why `WeightedIndex::new`
/// failed: carried through as it is.
#[verifier::external_type_specification]
#[verifier::external_body]
pub struct ExWeightedError(WeightedError);

/// A sampler of indices in proportion to integer weights: `rand`'s
/// `WeightedIndex<u64>`, whose declaration is generic over a trait of that
/// crate and so is held here behind a private field.
#[verifier::external_body]
#[derive(Debug)]
pub struct DegreeDistribution {
    index: WeightedIndex<u64>,
}

/// The state words that a generator holds.
pub uninterp spec fn rng_words(rng: Xoshiro256StarStar) -> Seq<u64>;

/// The state words of the generator that `Xoshiro256StarStar::seed_from_u64`
/// makes from `seed`.
pub uninterp spec fn seeded_words(seed: u64) -> Seq<u64>;

/// What `Uniform::new(0, high)` samples from a generator in state `words`:
/// the value, and the generator's state afterwards.
pub uninterp spec fn uniform_draw(words: Seq<u64>, high: u64) -> (u64, Seq<u64>);

/// The weights that a sampler was made from, in order.
pub uninterp spec fn distribution_weights(d: DegreeDistribution) -> Seq<u64>;

/// What a `WeightedIndex` over `weights` samples from a generator in state
/// `words`: the index, and the generator's state afterwards.
pub uninterp spec fn weighted_draw(weights: Seq<u64>, words: Seq<u64>) -> (usize, Seq<u64>);

/// The sum of all weights.
pub open spec fn total_weight(weights: Seq<u64>) -> int
    decreases weights.len(),
{
    if weights.len() == 0 {
        0
    } else {
        total_weight(weights.drop_last()) + weights.last()
    }
}

/// `Xoshiro256StarStar::seed_from_u64`: the generator depends on the seed
/// alone.
#[verifier::external_body]
pub(crate) fn rng_from_seed(seed: u64) -> (rng: Xoshiro256StarStar)
    ensures
        rng_words(rng) == seeded_words(seed),
{
    Xoshiro256StarStar::seed_from_u64(seed)
}

/// `Uniform::new(0, high)` followed by `Distribution::sample`: the value is
/// below `high`, and it and the generator's next state depend on the
/// generator's state and on `high` alone. `Uniform::new` panics on an empty
/// range, so `high` must not be zero.
#[verifier::external_body]
pub(crate) fn draw_below(rng: &mut Xoshiro256StarStar, high: u64) -> (value: u64)
    requires
        high > 0,
    ensures
        value < high,
        value == uniform_draw(rng_words(*old(rng)), high).0,
        rng_words(*final(rng)) == uniform_draw(rng_words(*old(rng)), high).1,
{
    Uniform::new(0u64, high).sample(rng)
}

/// `WeightedIndex::new`: fails on no weights and on weights that are all
/// zero, and otherwise keeps the weights it was given. It adds the weights
/// up without an overflow check, so their sum must fit in 64 bits.
#[verifier::external_body]
pub(crate) fn weighted_index_new(weights: &Vec<u64>) -> (made: Result<
    DegreeDistribution,
    WeightedError,
>)
    requires
        total_weight(weights@) <= u64::MAX,
    ensures
        made.is_ok() == (weights@.len() > 0 && total_weight(weights@) > 0),
        made.is_ok() ==> distribution_weights(made.unwrap()) == weights@,
{
    match WeightedIndex::new(weights) {
        Ok(index) => Ok(DegreeDistribution { index }),
        Err(e) => Err(e),
    }
}

/// `Distribution::sample` of a `WeightedIndex`: the index is that of one of
/// the weights, and of one that is not zero, since an index is chosen in
/// proportion to its weight. The index and the generator's next state
/// depend on the weights and the generator's state alone. The index is a
/// position in a vector of 64-bit weights, which keeps it below
/// `usize::MAX`.
#[verifier::external_body]
pub(crate) fn weighted_sample(d: &DegreeDistribution, rng: &mut Xoshiro256StarStar) -> (index:
    usize)
    ensures
        index < distribution_weights(*d).len(),
        distribution_weights(*d)[index as int] > 0,
        index < usize::MAX,
        index == weighted_draw(distribution_weights(*d), rng_words(*old(rng))).0,
        rng_words(*final(rng)) == weighted_draw(distribution_weights(*d), rng_words(*old(rng))).1,
{
    d.index.sample(rng)
}

/// `Clone::clone` of a `WeightedIndex`: the copy has the same weights.
#[verifier::external_body]
pub(crate) fn weighted_index_clone(d: &DegreeDistribution) -> (copy: DegreeDistribution)
    ensures
        distribution_weights(copy) == distribution_weights(*d),
{
    DegreeDistribution { index: d.index.clone() }
}

} // verus!
