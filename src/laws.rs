//! Laws of training that span several calls of `update`.
use vstd::prelude::*;
use crate::chain::MarkovChain;
use crate::model::{window_count, lemma_window_short};

verus! {

/// The number of windows of `k + 1` events, over all the chunks, whose first
/// `k` events are `h` and whose last event is `e`. A window never spans two
/// chunks.
pub open spec fn chunked_count<T>(chunks: Seq<Seq<T>>, k: nat, h: Seq<T>, e: T) -> nat
    decreases chunks.len(),
{
    if chunks.len() == 0 {
        0
    } else {
        chunked_count(chunks.drop_last(), k, h, e) + window_count(chunks.last(), k, h, e)
    }
}

/// Training an untrained chain on chunks, one `update` per chunk, leaves each
/// count equal to the number of matching windows within the chunks.
/// `chains[j + 1]` is the chain after training `chains[j]` on `chunks[j]`.
pub proof fn lemma_chunked_training<T: Copy + Ord>(chains: Seq<MarkovChain<T>>, chunks: Seq<Seq<T>>)
    requires
        chains.len() == chunks.len() + 1,
        chains[0].untrained(),
        forall|j: int| 0 <= j < chunks.len() ==> #[trigger] chains[j + 1].trained_on(&chains[j], chunks[j]),
    ensures
        chains.last().order() == chains[0].order(),
        forall|h: Seq<T>, e: T| #[trigger] chains.last().count(h, e) == chunked_count(chunks, chains[0].order(), h, e),
    decreases chunks.len(),
{
    if chunks.len() > 0 {
        let n = chunks.len() as int;
        let earlier = chains.drop_last();
        assert forall|j: int| 0 <= j < chunks.drop_last().len() implies #[trigger] earlier[j + 1].trained_on(
            &earlier[j],
            chunks.drop_last()[j],
        ) by {
            assert(chains[j + 1].trained_on(&chains[j], chunks[j]));
        }
        lemma_chunked_training(earlier, chunks.drop_last());
        assert(chains[n].trained_on(&chains[n - 1], chunks[n - 1]));
    }
}

/// Two chains with the same counts, each trained on `a` and on `b` but in
/// the opposite order, end with the same counts.
pub proof fn lemma_training_order_irrelevant<T: Copy + Ord>(
    c0: MarkovChain<T>,
    c1: MarkovChain<T>,
    c2: MarkovChain<T>,
    d0: MarkovChain<T>,
    d1: MarkovChain<T>,
    d2: MarkovChain<T>,
    a: Seq<T>,
    b: Seq<T>,
)
    requires
        c0.order() == d0.order(),
        forall|h: Seq<T>, e: T| #[trigger] c0.count(h, e) == d0.count(h, e),
        c1.trained_on(&c0, a),
        c2.trained_on(&c1, b),
        d1.trained_on(&d0, b),
        d2.trained_on(&d1, a),
    ensures
        c2.order() == d2.order(),
        forall|h: Seq<T>, e: T| #[trigger] c2.count(h, e) == d2.count(h, e),
{
    assert forall|h: Seq<T>, e: T| #[trigger] c2.count(h, e) == d2.count(h, e) by {
        assert(c1.count(h, e) == c0.count(h, e) + window_count(a, c0.order(), h, e));
        assert(d1.count(h, e) == d0.count(h, e) + window_count(b, d0.order(), h, e));
        assert(c2.count(h, e) == c1.count(h, e) + window_count(b, c1.order(), h, e));
        assert(d2.count(h, e) == d1.count(h, e) + window_count(a, d1.order(), h, e));
    }
}

/// Training on fewer than `order + 1` events changes no count.
pub proof fn lemma_short_training_learns_nothing<T: Copy + Ord>(
    before: MarkovChain<T>,
    after: MarkovChain<T>,
    events: Seq<T>,
)
    requires
        after.trained_on(&before, events),
        events.len() < before.order() + 1,
    ensures
        forall|h: Seq<T>, e: T| #[trigger] after.count(h, e) == before.count(h, e),
{
    assert forall|h: Seq<T>, e: T| #[trigger] after.count(h, e) == before.count(h, e) by {
        lemma_window_short(events, before.order(), h, e);
    }
}

/// An untrained chain trained only on chunks of fewer than `order + 1`
/// events has observed no history, so `generate_from` gives `None` on every
/// history.
pub proof fn lemma_short_chunks_observe_nothing<T: Copy + Ord>(chains: Seq<MarkovChain<T>>, chunks: Seq<Seq<T>>)
    requires
        chains.len() == chunks.len() + 1,
        chains[0].untrained(),
        forall|j: int| 0 <= j < chunks.len() ==> #[trigger] chains[j + 1].trained_on(&chains[j], chunks[j]),
        forall|j: int| 0 <= j < chunks.len() ==> (#[trigger] chunks[j]).len() < chains[0].order() + 1,
    ensures
        forall|h: Seq<T>| !(#[trigger] chains.last().observed(h)),
{
    lemma_chunked_training(chains, chunks);
    assert forall|h: Seq<T>, e: T| #[trigger] chunked_count(chunks, chains[0].order(), h, e) == 0 by {
        lemma_short_chunks_count_nothing(chunks, chains[0].order(), h, e);
    }
}

/// Chunks of at most `k` events hold no window of `k + 1` events.
proof fn lemma_short_chunks_count_nothing<T>(chunks: Seq<Seq<T>>, k: nat, h: Seq<T>, e: T)
    requires
        forall|j: int| 0 <= j < chunks.len() ==> (#[trigger] chunks[j]).len() < k + 1,
    ensures
        chunked_count(chunks, k, h, e) == 0,
    decreases chunks.len(),
{
    if chunks.len() > 0 {
        assert forall|j: int| 0 <= j < chunks.drop_last().len() implies (#[trigger] chunks.drop_last()[j]).len() < k + 1 by {
            assert(chunks.drop_last()[j] == chunks[j]);
        }
        lemma_short_chunks_count_nothing(chunks.drop_last(), k, h, e);
        lemma_window_short(chunks.last(), k, h, e);
    }
}

} // verus!
