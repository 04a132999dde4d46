//! The mathematical model of the chain: transition counts and training windows.
use vstd::prelude::*;

verus! {

/// One learned transition: `next` was seen `count` times right after `history`.
#[derive(Clone)]
pub struct Transition<T> {
    pub history: Vec<T>,
    pub next: T,
    pub count: usize,
}

/// Whether the transition records `e` following history `h`.
pub open spec fn records<T>(t: Transition<T>, h: Seq<T>, e: T) -> bool {
    t.history@ == h && t.next == e
}

/// The sum of the counts of all transitions in `s` that record `e` after `h`.
pub open spec fn count_in<T>(s: Seq<Transition<T>>, h: Seq<T>, e: T) -> nat
    decreases s.len(),
{
    if s.len() == 0 {
        0
    } else {
        count_in(s.drop_last(), h, e) + if records(s.last(), h, e) {
            s.last().count as nat
        } else {
            0
        }
    }
}

/// The sum of the counts of all transitions in `s`.
pub open spec fn total_in<T>(s: Seq<Transition<T>>) -> nat
    decreases s.len(),
{
    if s.len() == 0 {
        0
    } else {
        total_in(s.drop_last()) + s.last().count as nat
    }
}

/// The number of windows of `k + 1` consecutive events in `s` whose first `k`
/// events are `h` and whose last event is `e`.
pub open spec fn window_count<T>(s: Seq<T>, k: nat, h: Seq<T>, e: T) -> nat
    decreases s.len(),
{
    if s.len() <= k {
        0
    } else {
        window_count(s.drop_last(), k, h, e) + if s.subrange(s.len() - 1 - k, s.len() - 1) == h
            && s.last() == e {
            1nat
        } else {
            0nat
        }
    }
}

/// The number of windows of `k + 1` consecutive events in a sequence of length `n`.
pub open spec fn windows_in(n: nat, k: nat) -> nat {
    if n <= k {
        0
    } else {
        (n - k) as nat
    }
}


/// Appending a transition adds its count to the pairs it records.
pub proof fn lemma_count_push<T>(s: Seq<Transition<T>>, t: Transition<T>, h: Seq<T>, e: T)
    ensures
        count_in(s.push(t), h, e) == count_in(s, h, e) + if records(t, h, e) {
            t.count as nat
        } else {
            0
        },
        total_in(s.push(t)) == total_in(s) + t.count,
{
    assert(s.push(t).drop_last() =~= s);
}

/// Replacing a transition by one with the same history and next event
/// changes the counts of that pair, and the total, by the difference of counts.
pub proof fn lemma_count_update<T>(s: Seq<Transition<T>>, j: int, t: Transition<T>, h: Seq<T>, e: T)
    requires
        0 <= j < s.len(),
        t.history@ == s[j].history@,
        t.next == s[j].next,
    ensures
        count_in(s.update(j, t), h, e) + (if records(s[j], h, e) { s[j].count as nat } else { 0 })
            == count_in(s, h, e) + (if records(t, h, e) { t.count as nat } else { 0 }),
        total_in(s.update(j, t)) + s[j].count == total_in(s) + t.count,
    decreases s.len(),
{
    let u = s.update(j, t);
    if j == s.len() - 1 {
        assert(u.drop_last() =~= s.drop_last());
    } else {
        assert(u.drop_last() =~= s.drop_last().update(j, t));
        lemma_count_update(s.drop_last(), j, t, h, e);
    }
}

/// A transition's count is part of the total.
pub proof fn lemma_entry_le_total<T>(s: Seq<Transition<T>>, j: int)
    requires
        0 <= j < s.len(),
    ensures
        s[j].count <= total_in(s),
    decreases s.len(),
{
    if j < s.len() - 1 {
        lemma_entry_le_total(s.drop_last(), j);
    }
}

/// A transition that records a pair contributes its count to that pair.
pub proof fn lemma_entry_le_count<T>(s: Seq<Transition<T>>, j: int, h: Seq<T>, e: T)
    requires
        0 <= j < s.len(),
        records(s[j], h, e),
    ensures
        s[j].count <= count_in(s, h, e),
    decreases s.len(),
{
    if j < s.len() - 1 {
        lemma_entry_le_count(s.drop_last(), j, h, e);
    }
}

/// A pair with a positive count is recorded by some transition.
pub proof fn lemma_count_has_entry<T>(s: Seq<Transition<T>>, h: Seq<T>, e: T)
    requires
        count_in(s, h, e) > 0,
    ensures
        exists|j: int| 0 <= j < s.len() && records(#[trigger] s[j], h, e),
    decreases s.len(),
{
    if !records(s.last(), h, e) {
        lemma_count_has_entry(s.drop_last(), h, e);
        let j = choose|j: int| 0 <= j < s.drop_last().len() && records(#[trigger] s.drop_last()[j], h, e);
        assert(s[j] == s.drop_last()[j]);
    }
}

/// Extending a prefix of `s` by one event adds the window that ends at that event.
pub proof fn lemma_window_step<T>(s: Seq<T>, k: nat, m: int, h: Seq<T>, e: T)
    requires
        k <= m < s.len(),
    ensures
        window_count(s.subrange(0, m + 1), k, h, e) == window_count(s.subrange(0, m), k, h, e)
            + if s.subrange(m - k, m) == h && s[m] == e { 1nat } else { 0nat },
{
    let p = s.subrange(0, m + 1);
    assert(p.drop_last() =~= s.subrange(0, m));
    assert(p.subrange(p.len() - 1 - k, p.len() - 1) =~= s.subrange(m - k, m));
}

/// A prefix of `k` events or fewer holds no window.
pub proof fn lemma_window_short<T>(s: Seq<T>, k: nat, h: Seq<T>, e: T)
    requires
        s.len() <= k,
    ensures
        window_count(s, k, h, e) == 0,
{
}

} // verus!
