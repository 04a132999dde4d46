//! Weighted random choice, drawn from rand's thread-local generator.
use vstd::prelude::*;
use rand::rngs::ThreadRng;
use rand::seq::SliceRandom;

verus! {

#[verifier::external_type_specification]
#[verifier::external_body]
pub struct ExThreadRng(ThreadRng);

/// Relies on rand::thread_rng: a handle on the thread-local generator; nothing
/// is known of the numbers it will give.
pub assume_specification[ rand::thread_rng ]() -> ThreadRng;

/// Relies on `Clone for ThreadRng` (derived in rand): a second handle on the
/// same thread-local generator; nothing is known of the numbers it will give.
pub assume_specification[ <ThreadRng as Clone>::clone ](rng: &ThreadRng) -> ThreadRng;

/// The sum of the weights (second components) of `items`.
pub open spec fn weight_sum(items: Seq<(usize, usize)>) -> nat
    decreases items.len(),
{
    if items.len() == 0 {
        0
    } else {
        weight_sum(items.drop_last()) + items.last().1 as nat
    }
}

/// Relies on rand's `SliceRandom::choose_weighted` over `(key, weight)` pairs,
/// weighted by the second component: it fails (`NoItem`, `AllWeightsZero`)
/// exactly when the weights sum to zero, and otherwise returns a pair whose
/// weight is positive. The running sum of the weights must fit in `usize`.
#[verifier::external_body]
pub(crate) fn choose_weighted_key(rng: &mut ThreadRng, items: &Vec<(usize, usize)>) -> (r: Option<usize>)
    requires
        weight_sum(items@) <= usize::MAX,
    ensures
        r is Some <==> weight_sum(items@) > 0,
        r matches Some(k) ==> exists|i: int|
            0 <= i < items@.len() && #[trigger] items@[i].0 == k && items@[i].1 > 0,
{
    items.choose_weighted(rng, |p| p.1).ok().map(|p| p.0)
}

} // verus!
