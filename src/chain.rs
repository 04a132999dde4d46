//! The chain itself: training, conditional and stateful sampling.
use vstd::prelude::*;
use vstd::laws_eq::obeys_concrete_eq;
use vstd::pervasive::VecAdditionalExecFns;
use rand::rngs::ThreadRng;
use crate::model::{count_in, total_in, window_count, windows_in, records, Transition, lemma_count_push, lemma_count_update, lemma_entry_le_total, lemma_entry_le_count, lemma_count_has_entry, lemma_window_step, lemma_window_short};
use crate::sampling::{choose_weighted_key, weight_sum};

verus! {

/// Equality of two events, which the type's `==` decides.
fn same_event<T: Copy + Ord>(a: &T, b: &T) -> (r: bool)
    requires
        obeys_concrete_eq::<T>(),
    ensures
        r == (*a == *b),
{
    proof {
        reveal(obeys_concrete_eq);
    }
    *a == *b
}

/// Whether `history` equals the `len` events of `events` from `start` on.
fn history_matches<T: Copy + Ord>(history: &[T], events: &[T], start: usize, len: usize) -> (r: bool)
    requires
        obeys_concrete_eq::<T>(),
        start + len <= events@.len(),
    ensures
        r == (history@ == events@.subrange(start as int, start + len)),
{
    if history.len() != len {
        return false;
    }
    let n = events.len();
    let mut i: usize = 0;
    while i < len
        invariant
            n == events@.len(),
            obeys_concrete_eq::<T>(),
            start + len <= events@.len(),
            history@.len() == len,
            0 <= i <= len,
            forall|j: int| 0 <= j < i ==> history@[j] == events@[start + j],
        decreases len - i,
    {
        if !same_event(&history[i], &events[start + i]) {
            assert(history@[i as int] != events@.subrange(start as int, start + len)[i as int]);
            return false;
        }
        i += 1;
    }
    assert(history@ =~= events@.subrange(start as int, start + len));
    true
}

/// Draws an event that has followed `history` in `transitions`, with
/// probability proportional to its count; `None` where nothing has.
fn draw<T: Copy + Ord>(transitions: &Vec<Transition<T>>, rng: &mut ThreadRng, history: &[T]) -> (r: Option<T>)
    requires
        obeys_concrete_eq::<T>(),
        total_in(transitions@) <= usize::MAX,
        forall|i: int| 0 <= i < transitions@.len() ==> (#[trigger] transitions@[i]).count > 0,
    ensures
        r is None <==> !exists|e: T| count_in(transitions@, history@, e) > 0,
        r matches Some(e) ==> count_in(transitions@, history@, e) > 0,
{
    let ghost s = transitions@;
    let ghost h = history@;
    let n = transitions.len();
    let mut candidates: Vec<(usize, usize)> = Vec::new();
    let mut j: usize = 0;
    while j < n
        invariant
            obeys_concrete_eq::<T>(),
            s == transitions@,
            h == history@,
            n == s.len(),
            total_in(s) <= usize::MAX,
            forall|i: int| 0 <= i < s.len() ==> (#[trigger] s[i]).count > 0,
            0 <= j <= n,
            weight_sum(candidates@) <= total_in(s.subrange(0, j as int)),
            weight_sum(candidates@) > 0 <==> exists|i: int| 0 <= i < j && (#[trigger] s[i]).history@ == h,
            forall|p: int| 0 <= p < candidates@.len() ==> {
                &&& (#[trigger] candidates@[p]).0 < n
                &&& s[candidates@[p].0 as int].history@ == h
                &&& candidates@[p].1 == s[candidates@[p].0 as int].count
            },
        decreases n - j,
    {
        proof {
            assert(s.subrange(0, j + 1).drop_last() =~= s.subrange(0, j as int));
        }
        if history_matches(history, transitions[j].history.as_slice(), 0, transitions[j].history.len()) {
            let ghost before = candidates@;
            candidates.push((j, transitions[j].count));
            proof {
                assert(candidates@.drop_last() =~= before);
                assert(transitions[j as int].history@.subrange(0, transitions[j as int].history@.len() as int)
                    =~= transitions[j as int].history@);
            }
        } else {
            proof {
                assert(transitions[j as int].history@.subrange(0, transitions[j as int].history@.len() as int)
                    =~= transitions[j as int].history@);
            }
        }
        j += 1;
    }
    proof {
        assert(s.subrange(0, n as int) =~= s);
    }
    match choose_weighted_key(rng, &candidates) {
        Some(k) => {
            let e = transitions[k].next;
            proof {
                let p = choose|p: int| 0 <= p < candidates@.len() && #[trigger] candidates@[p].0 == k && candidates@[p].1 > 0;
                lemma_entry_le_count(s, k as int, h, e);
            }
            Some(e)
        },
        None => {
            proof {
                if exists|e: T| count_in(s, h, e) > 0 {
                    let e = choose|e: T| count_in(s, h, e) > 0;
                    lemma_count_has_entry(s, h, e);
                    let i = choose|i: int| 0 <= i < s.len() && records(#[trigger] s[i], h, e);
                }
            }
            None
        },
    }
}

/// An n-th order Markov chain over events of type `T`.
///
/// The counts are held as a list of transitions, one per (history, next
/// event) pair seen, rather than in an ordered map keyed by histories: the
/// ordered-map specifications need a key type whose comparison is known to
/// Verus, which a `Vec` of a generic event type is not.
#[derive(Clone)]
pub struct MarkovChain<T> {
    order: usize,
    transitions: Vec<Transition<T>>,
    memory: Vec<T>,
    rng: ThreadRng,
}

impl<T: Copy + Ord> MarkovChain<T> {
    /// The number of preceding events that make up a history.
    pub closed spec fn order(&self) -> nat {
        self.order as nat
    }

    /// The rolling memory: the default history of `generate`.
    pub closed spec fn memory(&self) -> Seq<T> {
        self.memory@
    }

    /// How often `e` has been seen right after history `h`.
    pub closed spec fn count(&self, h: Seq<T>, e: T) -> nat {
        count_in(self.transitions@, h, e)
    }

    /// The sum of all counts, that is the number of windows trained on.
    pub closed spec fn total(&self) -> nat {
        total_in(self.transitions@)
    }

    /// Whether some event has been seen after history `h`.
    pub open spec fn observed(&self, h: Seq<T>) -> bool {
        exists|e: T| self.count(h, e) > 0
    }

    /// Whether no event has been counted after any history.
    pub open spec fn untrained(&self) -> bool {
        forall|h: Seq<T>, e: T| #[trigger] self.count(h, e) == 0
    }

    /// Whether `self` is `before` trained on `events`: the same order, and each
    /// count grown by the number of windows of `order + 1` events of `events`
    /// that end in that event after that history.
    pub open spec fn trained_on(&self, before: &Self, events: Seq<T>) -> bool {
        &&& self.order() == before.order()
        &&& forall|h: Seq<T>, e: T| #[trigger] self.count(h, e) == before.count(h, e)
            + window_count(events, before.order(), h, e)
    }

    /// Whether two chains hold the same order, memory and counts.
    pub open spec fn same_model(&self, other: &Self) -> bool {
        &&& self.order() == other.order()
        &&& self.memory() == other.memory()
        &&& forall|h: Seq<T>, e: T| #[trigger] self.count(h, e) == other.count(h, e)
    }

    /// The chain's invariant: a positive order, histories of exactly `order`
    /// events, positive counts, a memory that is empty or `order` events long,
    /// and an equality on events that is equality of values.
    pub closed spec fn wf(&self) -> bool {
        &&& self.order > 0
        &&& obeys_concrete_eq::<T>()
        &&& self.memory@.len() == 0 || self.memory@.len() == self.order
        &&& total_in(self.transitions@) <= usize::MAX
        &&& forall|i: int|
            0 <= i < self.transitions@.len() ==> {
                &&& (#[trigger] self.transitions@[i]).history@.len() == self.order
                &&& self.transitions@[i].count > 0
            }
    }

    /// Creates a chain of the given order, with no counts and an empty memory.
    pub fn new(order: usize) -> (r: Self)
        requires
            order > 0,
            obeys_concrete_eq::<T>(),
        ensures
            r.wf(),
            r.order() == order,
            r.memory() == Seq::<T>::empty(),
            r.total() == 0,
            r.untrained(),
    {
        MarkovChain {
            order,
            transitions: Vec::new(),
            memory: Vec::with_capacity(order),
            rng: rand::thread_rng(),
        }
    }

    /// Trains the chain on `events`: each window of `order + 1` consecutive
    /// events counts one more occurrence of its last event after its first
    /// `order` events. The memory then becomes the last `order` events of
    /// `events`; a sequence shorter than that leaves the memory as it was.
    pub fn update(&mut self, events: &[T])
        requires
            old(self).wf(),
            old(self).total() + events@.len() <= usize::MAX,
        ensures
            final(self).wf(),
            final(self).trained_on(old(self), events@),
            final(self).total() == old(self).total() + windows_in(events@.len(), old(self).order()),
            events@.len() >= old(self).order() ==> final(self).memory() == events@.subrange(
                events@.len() - old(self).order(),
                events@.len() as int,
            ),
            events@.len() < old(self).order() ==> final(self).memory() == old(self).memory(),
    {
        let n = events.len();
        let k = self.order;
        if n > k {
            let mut i: usize = 0;
            proof {
                assert forall|h: Seq<T>, e: T| #[trigger] window_count(events@.subrange(0, k as int), k as nat, h, e) == 0 by {
                    lemma_window_short(events@.subrange(0, k as int), k as nat, h, e);
                }
            }
            while i < n - k
                invariant
                    self.wf(),
                    n == events@.len(),
                    k == self.order,
                    k == old(self).order,
                    n > k,
                    self.memory == old(self).memory,
                    0 <= i <= n - k,
                    old(self).total() + n <= usize::MAX,
                    self.total() == old(self).total() + i,
                    forall|h: Seq<T>, e: T| #[trigger] self.count(h, e) == old(self).count(h, e)
                        + window_count(events@.subrange(0, i + k), k as nat, h, e),
                decreases n - k - i,
            {
                let ghost before = *self;
                self.add_transition(events, i);
                proof {
                    assert forall|h: Seq<T>, e: T| #[trigger] self.count(h, e) == old(self).count(h, e)
                        + window_count(events@.subrange(0, i + k + 1), k as nat, h, e) by {
                        lemma_window_step(events@, k as nat, i + k, h, e);
                        assert(before.count(h, e) == old(self).count(h, e)
                            + window_count(events@.subrange(0, i + k), k as nat, h, e));
                    }
                }
                i += 1;
            }
            assert(events@.subrange(0, i + k) =~= events@);
        } else {
            proof {
                assert forall|h: Seq<T>, e: T| #[trigger] window_count(events@, k as nat, h, e) == 0 by {
                    lemma_window_short(events@, k as nat, h, e);
                }
            }
        }
        let ghost trained = *self;
        assert(forall|h: Seq<T>, e: T| #[trigger] trained.count(h, e) == old(self).count(h, e)
            + window_count(events@, k as nat, h, e));
        if n >= k {
            let mut memory: Vec<T> = Vec::with_capacity(k);
            let mut i: usize = n - k;
            while i < n
                invariant
                    n == events@.len(),
                    n >= k,
                    n - k <= i <= n,
                    memory@ == events@.subrange(n - k, i as int),
                decreases n - i,
            {
                memory.push(events[i]);
                i += 1;
                assert(memory@ =~= events@.subrange(n - k, i as int));
            }
            self.memory = memory;
        }
        assert forall|h: Seq<T>, e: T| #[trigger] self.count(h, e) == old(self).count(h, e)
            + window_count(events@, old(self).order(), h, e) by {
            assert(self.transitions@ == trained.transitions@);
            assert(trained.count(h, e) == old(self).count(h, e) + window_count(events@, k as nat, h, e));
        }
    }

    /// Draws an event that has followed `history`, with probability
    /// proportional to how often it did; `None` where `history` was never seen.
    /// Neither the counts nor the memory change.
    pub fn generate_from(&mut self, history: &[T]) -> (r: Option<T>)
        requires
            old(self).wf(),
            history@.len() == old(self).order(),
        ensures
            final(self).wf(),
            final(self).same_model(old(self)),
            final(self).total() == old(self).total(),
            r is None <==> !old(self).observed(history@),
            r matches Some(e) ==> old(self).count(history@, e) > 0,
    {
        let r = draw(&self.transitions, &mut self.rng, history);
        proof {
            if old(self).observed(history@) {
                let e = choose|e: T| old(self).count(history@, e) > 0;
                assert(count_in(self.transitions@, history@, e) > 0);
            }
            if r is Some {
                assert(old(self).count(history@, r->0) > 0);
            }
        }
        r
    }

    /// Draws a next event after the memory, as `generate_from` does. Where one
    /// is drawn and `update_memory` holds, the memory window slides by one:
    /// its oldest event leaves and the drawn event becomes its newest (last).
    /// The memory must be a full history, which it is after any training on
    /// at least `order` events.
    pub fn generate(&mut self, update_memory: bool) -> (r: Option<T>)
        requires
            old(self).wf(),
            old(self).memory().len() == old(self).order(),
        ensures
            final(self).wf(),
            final(self).order() == old(self).order(),
            final(self).total() == old(self).total(),
            forall|h: Seq<T>, e: T| #[trigger] final(self).count(h, e) == old(self).count(h, e),
            r is None <==> !old(self).observed(old(self).memory()),
            r matches Some(e) ==> old(self).count(old(self).memory(), e) > 0,
            r matches Some(e) ==> update_memory ==> {
                &&& final(self).memory() == old(self).memory().drop_first().push(e)
                &&& final(self).memory().len() == old(self).order()
                &&& final(self).memory().last() == e
            },
            !(r is Some && update_memory) ==> final(self).memory() == old(self).memory(),
    {
        let r = draw(&self.transitions, &mut self.rng, self.memory.as_slice());
        proof {
            if old(self).observed(old(self).memory()) {
                let e = choose|e: T| old(self).count(old(self).memory(), e) > 0;
                assert(count_in(self.transitions@, self.memory@, e) > 0);
            }
            if r is Some {
                assert(old(self).count(old(self).memory(), r->0) > 0);
            }
        }
        match r {
            Some(next) => {
                if update_memory {
                    let ghost before = self.memory@;
                    self.memory.remove(0);
                    self.memory.push(next);
                    proof {
                        assert(self.memory@ =~= before.drop_first().push(next));
                    }
                }
                Some(next)
            },
            None => None,
        }
    }

    /// Whether the memory holds a full history of `order` events, as
    /// `generate` needs.
    pub fn has_full_memory(&self) -> (r: bool)
        ensures
            r == (self.memory().len() == self.order()),
    {
        self.memory.len() == self.order
    }

    /// What the invariant tells a caller: the order is positive, the memory
    /// is empty or a full history, and only histories of `order` events have
    /// been counted.
    pub proof fn lemma_well_formed(&self)
        requires
            self.wf(),
        ensures
            self.order() > 0,
            self.memory().len() == 0 || self.memory().len() == self.order(),
            forall|h: Seq<T>, e: T| #[trigger] self.count(h, e) > 0 ==> h.len() == self.order(),
    {
        assert forall|h: Seq<T>, e: T| #[trigger] self.count(h, e) > 0 implies h.len() == self.order() by {
            lemma_count_has_entry(self.transitions@, h, e);
            let i = choose|i: int| 0 <= i < self.transitions@.len() && records(#[trigger] self.transitions@[i], h, e);
        }
    }

    /// A view of the chain that yields generated events one after another.
    pub fn iter(&mut self) -> (r: MarkovChainIter<'_, T>)
        requires
            old(self).wf(),
        ensures
            r.source() == *old(self),
    {
        MarkovChainIter { chain: self }
    }

    /// Counts one more occurrence of the window of `order + 1` events of
    /// `events` that starts at `start`.
    fn add_transition(&mut self, events: &[T], start: usize)
        requires
            old(self).wf(),
            old(self).total() + 1 <= usize::MAX,
            start + old(self).order() < events@.len(),
        ensures
            final(self).wf(),
            final(self).order == old(self).order,
            final(self).memory == old(self).memory,
            final(self).total() == old(self).total() + 1,
            forall|h: Seq<T>, e: T| #[trigger] final(self).count(h, e) == old(self).count(h, e)
                + if events@.subrange(start as int, start + old(self).order()) == h
                && events@[start + old(self).order()] == e {
                1nat
            } else {
                0nat
            },
    {
        let k = self.order;
        let m = events.len();
        assert(m == events@.len());
        let next = events[start + k];
        let n = self.transitions.len();
        let mut j: usize = 0;
        while j < n
            invariant
                n == self.transitions@.len(),
                *self == *old(self),
                self.wf(),
                old(self).total() + 1 <= usize::MAX,
                start + k < events@.len(),
                k == self.order,
                next == events@[start + k],
                0 <= j <= n,
                forall|i: int| 0 <= i < j ==> !records(
                    #[trigger] self.transitions@[i],
                    events@.subrange(start as int, start + k),
                    next,
                ),
            decreases n - j,
        {
            if history_matches(self.transitions[j].history.as_slice(), events, start, k)
                && same_event(&self.transitions[j].next, &next) {
                let ghost s = self.transitions@;
                let mut t = Transition { history: Vec::new(), next, count: 0 };
                self.transitions.set_and_swap(j, &mut t);
                proof {
                    lemma_entry_le_total(s, j as int);
                    assert(t == s[j as int]);
                    assert(total_in(s) + 1 <= usize::MAX);
                }
                t.count = t.count + 1;
                let ghost t2 = t;
                self.transitions.set(j, t);
                proof {
                    assert(self.transitions@ == s.update(j as int, t2));
                    assert forall|h: Seq<T>, e: T| #[trigger] count_in(self.transitions@, h, e)
                        == count_in(s, h, e) + if events@.subrange(start as int, start + k) == h
                        && events@[start + k] == e {
                        1nat
                    } else {
                        0nat
                    } by {
                        lemma_count_update(s, j as int, t2, h, e);
                    }
                    lemma_count_update(s, j as int, t2, Seq::empty(), next);
                }
                return;
            }
            j += 1;
        }
        let mut history: Vec<T> = Vec::with_capacity(k);
        let mut i: usize = 0;
        while i < k
            invariant
                m == events@.len(),
                start + k < events@.len(),
                0 <= i <= k,
                history@ == events@.subrange(start as int, start + i),
            decreases k - i,
        {
            history.push(events[start + i]);
            i += 1;
            assert(history@ =~= events@.subrange(start as int, start + i));
        }
        let ghost s = self.transitions@;
        let t = Transition { history, next, count: 1 };
        self.transitions.push(t);
        proof {
            assert forall|h: Seq<T>, e: T| #[trigger] count_in(self.transitions@, h, e)
                == count_in(s, h, e) + if events@.subrange(start as int, start + k) == h
                && events@[start + k] == e {
                1nat
            } else {
                0nat
            } by {
                lemma_count_push(s, t, h, e);
            }
            lemma_count_push(s, t, Seq::empty(), next);
            assert forall|i: int| 0 <= i < self.transitions@.len() implies {
                &&& (#[trigger] self.transitions@[i]).history@.len() == self.order
                &&& self.transitions@[i].count > 0
            } by {
                if i < s.len() {
                    assert(self.transitions@[i] == s[i]);
                }
            }
        }
    }
}

/// Generated events, one per call of `next`, each advancing the chain's memory.
pub struct MarkovChainIter<'a, T> {
    chain: &'a mut MarkovChain<T>,
}

impl<'a, T: Copy + Ord> MarkovChainIter<'a, T> {
    /// The chain the events are drawn from.
    pub closed spec fn source(&self) -> MarkovChain<T> {
        *self.chain
    }

    /// The next generated event, as `generate(true)` gives it; `None` once the
    /// memory is a history that was never seen. Each event drawn slides the
    /// chain's memory window by one, the event becoming its newest.
    pub fn next(&mut self) -> (r: Option<T>)
        requires
            old(self).source().wf(),
            old(self).source().memory().len() == old(self).source().order(),
        ensures
            final(self).source().wf(),
            final(self).source().order() == old(self).source().order(),
            final(self).source().total() == old(self).source().total(),
            forall|h: Seq<T>, e: T| #[trigger] final(self).source().count(h, e) == old(self).source().count(h, e),
            r is None <==> !old(self).source().observed(old(self).source().memory()),
            r matches Some(e) ==> {
                &&& old(self).source().count(old(self).source().memory(), e) > 0
                &&& final(self).source().memory() == old(self).source().memory().drop_first().push(e)
            },
            r is None ==> final(self).source().memory() == old(self).source().memory(),
    {
        self.chain.generate(true)
    }
}

} // verus!
