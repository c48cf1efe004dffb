//! Accumulator of signed per-timestamp occurrence deltas.
//!
//! A map is kept as the sequence of `(timestamp, delta)` pairs in the order
//! in which they were recorded. Pairs with equal timestamps are never merged:
//! whoever reads a drained sequence aggregates it. What a sequence means is
//! the net count it gives to each timestamp, [`net_count`]; a timestamp whose
//! net count is zero is as good as absent.

use vstd::prelude::*;

verus! {

/// Net occurrence count that the deltas in `entries` give to `time`.
pub open spec fn net_count<T>(entries: Seq<(T, i64)>, time: T) -> int
    decreases entries.len(),
{
    if entries.len() == 0 {
        0
    } else {
        net_count(entries.drop_last(), time) + if entries.last().0 == time {
            entries.last().1 as int
        } else {
            0
        }
    }
}

/// Whether `time` is observable in `entries`: absent and cancelled
/// timestamps are not.
pub open spec fn observable<T>(entries: Seq<(T, i64)>, time: T) -> bool {
    net_count(entries, time) != 0
}

/// A buffer of `(timestamp, delta)` pairs, kept in the order of recording.
pub struct CountMap<T> {
    updates: Vec<(T, i64)>,
}

impl<T> View for CountMap<T> {
    type V = Seq<(T, i64)>;

    closed spec fn view(&self) -> Seq<(T, i64)> {
        self.updates@
    }
}

impl<T> CountMap<T> {
    /// An empty map.
    pub fn new() -> (map: Self)
        ensures
            map@ == Seq::<(T, i64)>::empty(),
    {
        CountMap { updates: Vec::new() }
    }

    /// Number of pairs recorded since the map was last drained.
    pub fn len(&self) -> (n: usize)
        ensures
            n == self@.len(),
    {
        self.updates.len()
    }

    /// Whether nothing was recorded since the map was last drained.
    pub fn is_empty(&self) -> (empty: bool)
        ensures
            empty == (self@.len() == 0),
    {
        self.updates.len() == 0
    }

    /// Records `delta` occurrences at `time`, after everything recorded so far.
    pub fn record(&mut self, time: T, delta: i64)
        ensures
            final(self)@ == old(self)@.push((time, delta)),
    {
        self.updates.push((time, delta));
    }

    /// Hands out every recorded pair, in recording order, and leaves the map
    /// empty.
    pub fn drain(&mut self) -> (drained: Vec<(T, i64)>)
        ensures
            drained@ == old(self)@,
            final(self)@ == Seq::<(T, i64)>::empty(),
    {
        let mut drained: Vec<(T, i64)> = Vec::new();
        drained.append(&mut self.updates);
        assert(Seq::<(T, i64)>::empty() + old(self)@ =~= old(self)@);
        drained
    }

    /// Appends every recorded pair to `out`, in recording order, and leaves
    /// the map empty.
    pub fn drain_into(&mut self, out: &mut Vec<(T, i64)>)
        ensures
            final(out)@ == old(out)@ + old(self)@,
            final(self)@ == Seq::<(T, i64)>::empty(),
    {
        out.append(&mut self.updates);
    }
}

/// The net count of a concatenation is the sum of the net counts of its
/// parts.
pub proof fn lemma_net_count_concat<T>(first: Seq<(T, i64)>, second: Seq<(T, i64)>, time: T)
    ensures
        net_count(first + second, time) == net_count(first, time) + net_count(second, time),
    decreases second.len(),
{
    if second.len() == 0 {
        assert(first + second =~= first);
    } else {
        assert((first + second).drop_last() =~= first + second.drop_last());
        lemma_net_count_concat(first, second.drop_last(), time);
    }
}

/// One more pair adds its delta to the net count of its own timestamp and
/// leaves every other timestamp as it was.
pub proof fn lemma_net_count_push<T>(entries: Seq<(T, i64)>, time: T, delta: i64, at: T)
    ensures
        net_count(entries.push((time, delta)), at) == net_count(entries, at) + if time == at {
            delta as int
        } else {
            0
        },
{
    assert(entries.push((time, delta)).drop_last() =~= entries);
}

/// A pair whose delta is zero may be dropped: the net count of every
/// timestamp stays as it was.
pub proof fn lemma_zero_delta_absent<T>(entries: Seq<(T, i64)>, index: int, at: T)
    requires
        0 <= index < entries.len(),
        entries[index].1 == 0,
    ensures
        net_count(entries.remove(index), at) == net_count(entries, at),
{
    let front = entries.take(index);
    let back = entries.skip(index + 1);
    assert(entries =~= front.push(entries[index]) + back);
    assert(entries.remove(index) =~= front + back);
    lemma_net_count_push(front, entries[index].0, entries[index].1, at);
    lemma_net_count_concat(front.push(entries[index]), back, at);
    lemma_net_count_concat(front, back, at);
}

/// Cancellation: recording `k` and then `-k` at one timestamp leaves the net
/// count of every timestamp as it was before the two records. A timestamp
/// that was not observable before is not observable after.
pub proof fn lemma_cancellation<T>(entries: Seq<(T, i64)>, time: T, k: i64, minus_k: i64, at: T)
    requires
        k + minus_k == 0,
    ensures
        net_count(entries.push((time, k)).push((time, minus_k)), at) == net_count(entries, at),
        observable(entries.push((time, k)).push((time, minus_k)), at) == observable(entries, at),
{
    lemma_net_count_push(entries, time, k, at);
    lemma_net_count_push(entries.push((time, k)), time, minus_k, at);
}

} // verus!
