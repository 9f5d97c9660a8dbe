use vstd::prelude::*;

verus! {

/// Relies on rand's `thread_rng` and `Rng::gen_range`: a uniformly drawn
/// index strictly below `len`; the range is non-empty, so the call cannot
/// panic.
#[verifier::external_body]
pub fn random_index(len: usize) -> (r: usize)
    requires
        len > 0,
    ensures
        r < len,
{
    rand::Rng::gen_range(&mut rand::thread_rng(), 0..len)
}

/// Holds rand's `WeightedIndex` distribution over `u64` weights; the value
/// is opaque to the verifier and is spoken of only through
/// `weighted_index_weights`.
#[verifier::external_body]
pub struct WeightedDist {
    dist: rand::distributions::WeightedIndex<u64>,
}

/// The weights a discrete distribution was built over.
pub uninterp spec fn weighted_index_weights(d: WeightedDist) -> Seq<u64>;

/// The sum of a weight sequence.
pub open spec fn sum_weights(s: Seq<u64>) -> int
    decreases s.len(),
{
    if s.len() == 0 {
        0
    } else {
        sum_weights(s.drop_last()) + s.last()
    }
}

/// Relies on rand's `WeightedIndex::new`: it accumulates the weights (the
/// sum is required to fit in `u64`, so that cannot overflow and panic) and
/// returns `Ok` exactly when the total is positive; `u64` weights cannot be
/// negative.
#[verifier::external_body]
pub fn make_weighted_index(weights: &Vec<u64>) -> (r: Option<WeightedDist>)
    requires
        sum_weights(weights@) <= u64::MAX,
    ensures
        r matches Some(d) ==> weighted_index_weights(d) == weights@,
        r is Some <==> sum_weights(weights@) > 0,
{
    rand::distributions::WeightedIndex::new(weights.iter().cloned()).ok().map(
        |dist| WeightedDist { dist },
    )
}

/// Relies on rand's `WeightedIndex::sample`: whatever the randomness, the
/// drawn index lies below the number of weights and its weight is positive.
#[verifier::external_body]
pub fn sample_weighted_index(d: &WeightedDist) -> (r: usize)
    ensures
        r < weighted_index_weights(*d).len(),
        weighted_index_weights(*d)[r as int] > 0,
{
    rand::distributions::Distribution::sample(&d.dist, &mut rand::thread_rng())
}

} // verus!
