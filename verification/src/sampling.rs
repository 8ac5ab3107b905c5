//! The weighted random draw behind successor selection.

use vstd::prelude::*;

verus! {

/// The sum of a list of weights.
pub open spec fn sum_weights(ws: Seq<usize>) -> int
    decreases ws.len(),
{
    if ws.len() == 0 {
        0
    } else {
        sum_weights(ws.drop_last()) + ws.last()
    }
}

/// Relies on `rand::distributions::WeightedIndex::new` and
/// `Distribution::sample` with `rand::thread_rng`: over a non-empty list of
/// positive weights whose sum fits a machine integer, `new` succeeds, and a
/// draw returns an index into the list (with probability proportional to
/// its weight; no more than the index being in range holds of every
/// outcome).
#[verifier::external_body]
pub(crate) fn sample_weighted(weights: &Vec<usize>) -> (r: usize)
    requires
        weights@.len() > 0,
        forall|q: int| 0 <= q < weights@.len() ==> weights@[q] >= 1,
        sum_weights(weights@) <= usize::MAX,
    ensures
        r < weights@.len(),
{
    let dist = rand::distributions::WeightedIndex::new(weights.iter()).unwrap();
    let mut rng = rand::thread_rng();
    rand::prelude::Distribution::sample(&dist, &mut rng)
}

} // verus!
