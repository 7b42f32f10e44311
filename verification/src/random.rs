//! The random source used for seeding, and the two draws made from it.

use rand::distributions::{Distribution, WeightedIndex};
use rand::rngs::StdRng;
use rand::Rng;
use vstd::prelude::*;

verus! {

/// `rand::rngs::StdRng`, the generator every draw in this crate is made from.
/// Nothing is known about its state.
#[verifier::external_type_specification]
#[verifier::external_body]
pub struct ExStdRng(StdRng);

/// Sum of all weights.
pub open spec fn total_weight(weights: Seq<u128>) -> nat
    decreases weights.len(),
{
    if weights.len() == 0 {
        0
    } else {
        total_weight(weights.drop_last()) + weights.last() as nat
    }
}

/// Weights that are each at most `bound` sum to at most `bound` times their number.
pub proof fn lemma_total_weight_bound(weights: Seq<u128>, bound: nat)
    requires
        forall|i: int| 0 <= i < weights.len() ==> #[trigger] weights[i] <= bound,
    ensures
        total_weight(weights) <= bound * weights.len(),
    decreases weights.len(),
{
    if weights.len() > 0 {
        let head = weights.drop_last();
        lemma_total_weight_bound(head, bound);
        assert(bound * head.len() + bound == bound * weights.len()) by (nonlinear_arith)
            requires
                head.len() + 1 == weights.len(),
        ;
    }
}

/// The total is zero exactly when every weight is zero.
pub proof fn lemma_total_weight_zero(weights: Seq<u128>)
    ensures
        total_weight(weights) == 0 <==> forall|i: int|
            0 <= i < weights.len() ==> #[trigger] weights[i] == 0,
    decreases weights.len(),
{
    if weights.len() > 0 {
        let head = weights.drop_last();
        lemma_total_weight_zero(head);
        if total_weight(weights) == 0 {
            assert forall|i: int| 0 <= i < weights.len() implies #[trigger] weights[i] == 0 by {
                if i < head.len() {
                    assert(head[i] == 0);
                }
            }
        } else if forall|i: int| 0 <= i < weights.len() ==> #[trigger] weights[i] == 0 {
            assert forall|i: int| 0 <= i < head.len() implies #[trigger] head[i] == 0 by {
                assert(weights[i] == 0);
            }
            assert(weights[weights.len() - 1] == 0);
        }
    }
}

/// Calls `rand::Rng::gen_range` on `0..n`. The draw panics on an empty
/// range, hence `n > 0`; all that is claimed of the outcome is that it lies
/// in the range.
#[verifier::external_body]
pub(crate) fn uniform_index(rng: &mut StdRng, n: usize) -> (i: usize)
    requires
        n > 0,
    ensures
        i < n,
{
    rng.gen_range(0..n)
}

/// Builds a `rand::distributions::WeightedIndex` over `weights` and samples
/// it once. Construction adds the weights up in `u128`, hence the bound on
/// their total; it fails exactly when there is no weight or all are zero.
/// A sample is an index whose weight is not zero; nothing is claimed about
/// which one.
#[verifier::external_body]
pub(crate) fn weighted_index(rng: &mut StdRng, weights: &Vec<u128>) -> (r: Option<usize>)
    requires
        total_weight(weights@) <= u128::MAX,
    ensures
        r is None <==> total_weight(weights@) == 0,
        r matches Some(i) ==> i < weights@.len() && weights@[i as int] > 0,
{
    match WeightedIndex::new(weights) {
        Ok(distribution) => Some(distribution.sample(rng)),
        Err(_) => None,
    }
}

} // verus!
