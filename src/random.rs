use rand::distributions::{Distribution, WeightedIndex};
use rand::rngs::StdRng;
use rand::SeedableRng;
use std::hash::{DefaultHasher, Hash, Hasher};
use vstd::prelude::*;

verus! {

/// rand's `StdRng`, held as an opaque generator state.
#[verifier::external_type_specification]
#[verifier::external_body]
pub struct ExStdRng(StdRng);

/// The sum of a sequence of weights.
pub open spec fn weight_sum(w: Seq<u32>) -> int
    decreases w.len(),
{
    if w.len() == 0 {
        0
    } else {
        weight_sum(w.drop_last()) + w.last()
    }
}

/// The sum is zero exactly when every weight is zero.
pub proof fn lemma_weight_sum_zero(w: Seq<u32>)
    ensures
        (weight_sum(w) == 0) <==> (forall|i: int| 0 <= i < w.len() ==> #[trigger] w[i] == 0),
    decreases w.len(),
{
    if w.len() > 0 {
        lemma_weight_sum_zero(w.drop_last());
        assert forall|i: int| 0 <= i < w.len() - 1 implies #[trigger] w[i] == w.drop_last()[i] by {}
        lemma_weight_sum_nonneg(w.drop_last());
    }
}

pub proof fn lemma_weight_sum_nonneg(w: Seq<u32>)
    ensures
        weight_sum(w) >= 0,
    decreases w.len(),
{
    if w.len() > 0 {
        lemma_weight_sum_nonneg(w.drop_last());
    }
}

/// Relies on rand's `SeedableRng::from_entropy` for `StdRng`: a generator
/// seeded by the operating system (it panics only when the operating system
/// cannot supply random bytes).
#[verifier::external_body]
fn rng_from_entropy() -> StdRng {
    StdRng::from_entropy()
}

/// Relies on rand's `SeedableRng::seed_from_u64` for `StdRng`: a generator
/// whose stream is fixed by `seed`.
#[verifier::external_body]
fn rng_from_u64(seed: u64) -> StdRng {
    StdRng::seed_from_u64(seed)
}

/// Relies on std's `Hash::hash`: feeds `value` into `state`.
#[verifier::external_body]
fn hash_into<S: Hash>(value: &S, state: &mut DefaultHasher) {
    value.hash(state)
}

/// Relies on rand's `WeightedIndex::new` and its `Distribution::sample`:
/// `new` fails exactly when the weights are empty or sum to zero (a `u32`
/// weight is never negative), and a sample is an index below the number of
/// weights whose weight is positive, since it is the first index whose
/// running sum exceeds a value drawn from `0..total`.
#[verifier::external_body]
fn sample_weighted(rng: &mut StdRng, weights: &[u32]) -> (r: Option<usize>)
    requires
        weight_sum(weights@) <= u32::MAX,
    ensures
        r is None <==> weight_sum(weights@) == 0,
        r matches Some(i) ==> i < weights@.len() && weights@[i as int] > 0,
{
    WeightedIndex::new(weights).ok().map(|d| d.sample(rng))
}

/// The source of random choices for a collapse.
pub struct Random {
    rng: StdRng,
}

impl Random {
    /// A source seeded from system entropy; its choices are not reproducible.
    pub fn new() -> (r: Random) {
        Random { rng: rng_from_entropy() }
    }

    /// A reproducible source: the seed is reduced to 64 bits with std's
    /// unkeyed `DefaultHasher`.
    pub fn from_seed<S: Hash>(seed: S) -> (r: Random) {
        let mut hasher = DefaultHasher::new();
        hash_into(&seed, &mut hasher);
        let value = hasher.finish();
        Random { rng: rng_from_u64(value) }
    }

    /// Picks one of `choices`, each with a chance proportional to its weight.
    /// Returns `None` exactly when the weights sum to zero.
    pub fn choose_weighted<T: Copy>(&mut self, weights: &[u32], choices: &[T]) -> (r: Option<T>)
        requires
            weights@.len() == choices@.len(),
            weight_sum(weights@) <= u32::MAX,
        ensures
            r is None <==> weight_sum(weights@) == 0,
            r matches Some(c) ==> exists|i: int|
                0 <= i < choices@.len() && weights@[i] > 0 && choices@[i] == c,
    {
        match sample_weighted(&mut self.rng, weights) {
            Some(i) => Some(choices[i]),
            None => None,
        }
    }
}

} // verus!
