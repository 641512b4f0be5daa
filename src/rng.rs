//! Random draws, made by the `rand` and `statrs` crates.
use vstd::prelude::*;
use rand::distributions::Distribution;
use rand::distributions::WeightedIndex;
use rand::Rng;
use statrs::distribution::Poisson;
use crate::text::rate_ok;

verus! {

/// Sum of a sequence of selection weights.
pub open spec fn weight_total(s: Seq<u128>) -> int
    decreases s.len(),
{
    if s.len() == 0 {
        0
    } else {
        weight_total(s.drop_last()) + s.last()
    }
}

/// Relies on rand's `Rng::gen_range` on the thread-local generator: a value
/// drawn uniformly from `0..n` (it panics on an empty range).
#[verifier::external_body]
pub(crate) fn random_below(n: u64) -> (r: u64)
    requires
        n > 0,
    ensures
        r < n,
{
    rand::thread_rng().gen_range(0..n)
}

/// Relies on rand's `WeightedIndex`: `count` independent draws of an index,
/// index `i` with probability `weights[i] / total`, all from the same table.
/// `WeightedIndex::new` fails only on no item or all weights zero (here
/// excluded) and adds up the weights, so the total must fit; a draw is the
/// first index whose cumulative weight exceeds a uniform value below the
/// total, so it never has weight zero.
#[verifier::external_body]
pub(crate) fn weighted_sample(weights: &Vec<u128>, count: u64) -> (r: Vec<usize>)
    requires
        weights.len() > 0,
        0 < weight_total(weights@) <= u128::MAX,
    ensures
        r.len() == count,
        forall|k: int| 0 <= k < r.len() ==> #[trigger] r[k] < weights.len() && weights[r[k] as int] > 0,
{
    let dist = WeightedIndex::new(weights).unwrap();
    dist.sample_iter(rand::thread_rng()).take(count as usize).collect()
}

/// Relies on `str::parse` into a double and statrs's `Poisson::new` and
/// sampling as a rand `Distribution<f64>`: one draw of a step count whose
/// rate is the decimal text `rate`, a whole number, taken as an integer.
/// Such a text parses to a finite double in `(0, 64)`; `new` refuses only
/// NaN and rates not above zero, and a finite rate keeps the sampling loops
/// finite.
#[verifier::external_body]
pub(crate) fn poisson_sample(rate: &Vec<u8>) -> (r: u64)
    requires
        rate_ok(rate@),
{
    let text = std::str::from_utf8(rate).unwrap();
    Poisson::new(text.parse().unwrap()).unwrap().sample(&mut rand::thread_rng()) as u64
}

} // verus!
