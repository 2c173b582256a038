//! Delivery in sequence of items that arrive out of order.
//!
//! Workers finish in any order, while what they made has to leave in the order
//! of its indices. The buffer takes each item with its index as it arrives,
//! holds back those that are early, and hands out, at every arrival, the run of
//! items that has become ready: the one with the index that is next in line
//! and those that directly follow it.

use vstd::prelude::*;

verus! {

/// How many entries at the front have an index not above the given one.
pub open spec fn rank<T>(pending: Seq<(usize, T)>, index: usize) -> nat
    decreases pending.len(),
{
    if pending.len() > 0 && pending[0].0 <= index {
        1 + rank(pending.skip(1), index)
    } else {
        0
    }
}

/// The pending entries with one more among them, placed behind those at the
/// front whose index is not above its own.
pub open spec fn enqueue<T>(pending: Seq<(usize, T)>, index: usize, item: T) -> Seq<(usize, T)> {
    pending.insert(rank(pending, index) as int, (index, item))
}

/// How many entries at the front are ready to leave: the first if its index is
/// the expected one, the second if its index is the one after that, and so on.
pub open spec fn ready<T>(pending: Seq<(usize, T)>, expected: nat) -> nat
    decreases pending.len(),
{
    if pending.len() > 0 && pending[0].0 == expected {
        1 + ready(pending.skip(1), expected + 1)
    } else {
        0
    }
}

/// The items of some entries, without their indices.
pub open spec fn items<T>(entries: Seq<(usize, T)>) -> Seq<T> {
    Seq::new(entries.len(), |i: int| entries[i].1)
}

/// What a buffer has come to: the index that is next in line, the entries
/// held back in the order in which they are to leave, and the items handed
/// out so far.
pub struct Delivery<T> {
    pub expected: nat,
    pub pending: Seq<(usize, T)>,
    pub out: Seq<T>,
}

/// What becomes of the index that is next in line and of the entries held
/// back when an item arrives, and the items that leave at its arrival.
pub open spec fn arrive<T>(expected: nat, pending: Seq<(usize, T)>, index: usize, item: T)
    -> Delivery<T> {
    let merged = enqueue(pending, index, item);
    let count = ready(merged, expected);
    Delivery {
        expected: expected + count,
        pending: merged.skip(count as int),
        out: items(merged.take(count as int)),
    }
}

/// What a buffer that starts empty comes to when the given entries arrive one
/// after the other.
pub open spec fn deliver<T>(arrivals: Seq<(usize, T)>) -> Delivery<T>
    decreases arrivals.len(),
{
    if arrivals.len() == 0 {
        Delivery { expected: 0, pending: Seq::empty(), out: Seq::empty() }
    } else {
        let before = deliver(arrivals.drop_last());
        let last = arrivals.last();
        let now = arrive(before.expected, before.pending, last.0, last.1);
        Delivery { expected: now.expected, pending: now.pending, out: before.out + now.out }
    }
}

/// The buffer: the index that is next in line, and the entries that arrived
/// before their turn.
#[derive(Debug)]
pub struct SeqBuffer<T> {
    /// The index that is next in line, unless `exhausted`.
    next: usize,
    /// Whether the item with the largest index that the machine can count has
    /// left, so that no index is next in line.
    exhausted: bool,
    /// The entries held back, the one that is to leave first at the end.
    slots: Vec<(usize, T)>,
}

impl<T> SeqBuffer<T> {
    /// The index of the item that leaves next.
    pub closed spec fn expected(&self) -> nat {
        if self.exhausted {
            (usize::MAX + 1) as nat
        } else {
            self.next as nat
        }
    }

    /// The entries held back, in the order in which they are to leave.
    pub closed spec fn pending(&self) -> Seq<(usize, T)> {
        Seq::new(self.slots@.len(), |i: int| self.slots@[self.slots@.len() - 1 - i])
    }

    /// An empty buffer that expects the item with index 0.
    pub fn new() -> (buffer: Self)
        ensures
            buffer.expected() == 0,
            buffer.pending() == Seq::<(usize, T)>::empty(),
    {
        let buffer = Self { next: 0, exhausted: false, slots: Vec::new() };
        proof {
            assert(buffer.pending() =~= Seq::<(usize, T)>::empty());
        }
        buffer
    }

    /// The number of entries held back.
    pub fn held(&self) -> (count: usize)
        ensures
            count == self.pending().len(),
    {
        self.slots.len()
    }

    /// The index of the item that leaves next, or `None` once the item with
    /// the largest index that the machine can count has left.
    pub fn next_index(&self) -> (next: Option<usize>)
        ensures
            match next {
                Some(index) => self.expected() == index,
                None => self.expected() == usize::MAX + 1,
            },
    {
        if self.exhausted {
            None
        } else {
            Some(self.next)
        }
    }

    /// Takes an item that arrived with its index, and hands out the items that
    /// are ready to leave now, in the order of their indices: the new entry is
    /// put among those held back, and then the entries at the front leave for
    /// as long as the first of them has the index that is next in line.
    pub fn accept(&mut self, index: usize, item: T) -> (out: Vec<T>)
        ensures
            ({
                let now = arrive(old(self).expected(), old(self).pending(), index, item);
                &&& out@ == now.out
                &&& final(self).pending() == now.pending
                &&& final(self).expected() == now.expected
            }),
    {
        let ghost before = self.pending();
        let ghost first = self.expected();
        let ghost merged = enqueue(before, index, item);
        let len = self.slots.len();
        let mut place = len;
        while place > 0 && self.slots[place - 1].0 <= index
            invariant
                place <= len,
                len == self.slots.len(),
                self.pending() == before,
                self.expected() == first,
                forall|i: int| 0 <= i < len - place ==> (#[trigger] before[i]).0 <= index,
            decreases place,
        {
            place -= 1;
        }
        proof {
            lemma_rank(before, index, (len - place) as nat);
        }
        self.slots.insert(place, (index, item));
        proof {
            assert(self.pending() =~= merged);
        }
        let mut out: Vec<T> = Vec::new();
        proof {
            assert(out@ =~= items(merged.take(0)));
            assert(merged.skip(0) =~= merged);
        }
        loop
            invariant
                out.len() <= merged.len(),
                out@ == items(merged.take(out.len() as int)),
                self.pending() == merged.skip(out.len() as int),
                self.expected() == first + out.len(),
                ready(merged, first) == out.len() + ready(self.pending(), self.expected()),
            ensures
                ready(self.pending(), self.expected()) == 0,
            decreases self.slots.len(),
        {
            let held = self.slots.len();
            if self.exhausted || held == 0 || self.slots[held - 1].0 != self.next {
                break ;
            }
            let ghost shown = self.pending();
            let ghost turn = self.expected();
            let ghost done: int = out@.len() as int;
            let entry = self.slots.pop();
            let (_, ready_item) = entry.unwrap();
            out.push(ready_item);
            if self.next == usize::MAX {
                self.exhausted = true;
            } else {
                self.next += 1;
            }
            proof {
                assert(self.pending() =~= shown.skip(1));
                assert(shown.skip(1) =~= merged.skip(done + 1));
                assert(merged.take(done + 1) =~= merged.take(done).push(shown[0]));
                assert(out@ =~= items(merged.take(done + 1)));
                assert(self.expected() == turn + 1);
            }
        }
        out
    }
}

/// The rank is the number of leading entries with an index not above the
/// given one, up to the first entry with a larger index.
pub proof fn lemma_rank<T>(pending: Seq<(usize, T)>, index: usize, count: nat)
    requires
        count <= pending.len(),
        forall|i: int| 0 <= i < count ==> (#[trigger] pending[i]).0 <= index,
        count < pending.len() ==> pending[count as int].0 > index,
    ensures
        rank(pending, index) == count,
    decreases count,
{
    if count > 0 {
        let rest = pending.skip(1);
        assert forall|i: int| 0 <= i < count - 1 implies (#[trigger] rest[i]).0 <= index by {
            assert(rest[i] == pending[i + 1]);
        }
        lemma_rank(rest, index, (count - 1) as nat);
    }
}

} // verus!

verus! {

/// What `rank` counts: the entries before the rank have an index not above
/// the given one, and the entry at the rank, if there is one, has a larger.
pub proof fn lemma_rank_splits<T>(pending: Seq<(usize, T)>, index: usize)
    ensures
        rank(pending, index) <= pending.len(),
        forall|i: int| 0 <= i < rank(pending, index) ==> (#[trigger] pending[i]).0 <= index,
        rank(pending, index) < pending.len() ==> pending[rank(pending, index) as int].0 > index,
    decreases pending.len(),
{
    if pending.len() > 0 && pending[0].0 <= index {
        let rest = pending.skip(1);
        lemma_rank_splits(rest, index);
        assert forall|i: int| 0 <= i < rank(pending, index) implies (#[trigger] pending[i]).0
            <= index by {
            if i > 0 {
                assert(pending[i] == rest[i - 1]);
            }
        }
        if rank(pending, index) < pending.len() {
            assert(pending[rank(pending, index) as int] == rest[rank(rest, index) as int]);
        }
    }
}

/// What `ready` counts: the entries before it have the expected index and
/// those that follow it one by one, and the entry behind them, if there is
/// one, does not have the index that comes next.
pub proof fn lemma_ready_run<T>(pending: Seq<(usize, T)>, expected: nat)
    ensures
        ready(pending, expected) <= pending.len(),
        forall|j: int| 0 <= j < ready(pending, expected) ==> (#[trigger] pending[j]).0 == expected + j,
        ready(pending, expected) < pending.len() ==> pending[ready(pending, expected) as int].0
            != expected + ready(pending, expected),
    decreases pending.len(),
{
    if pending.len() > 0 && pending[0].0 == expected {
        let rest = pending.skip(1);
        lemma_ready_run(rest, expected + 1);
        assert forall|j: int| 0 <= j < ready(pending, expected) implies (#[trigger] pending[j]).0
            == expected + j by {
            if j > 0 {
                assert(pending[j] == rest[j - 1]);
            }
        }
        if ready(pending, expected) < pending.len() {
            assert(pending[ready(pending, expected) as int] == rest[ready(rest, expected + 1) as int]);
        }
    }
}

/// The index of the entry at a place.
pub open spec fn index_at<T>(entries: Seq<(usize, T)>, place: int) -> usize {
    entries[place].0
}

/// Whether the indices go up from each entry to the next.
pub open spec fn strictly_ascending<T>(entries: Seq<(usize, T)>) -> bool {
    forall|i: int, j: int|
        0 <= i < j < entries.len() ==> #[trigger] index_at(entries, i) < #[trigger] index_at(
            entries,
            j,
        )
}

/// Whether every index is above the bound.
pub open spec fn all_above<T>(entries: Seq<(usize, T)>, bound: nat) -> bool {
    forall|p: int| 0 <= p < entries.len() ==> #[trigger] index_at(entries, p) > bound
}

/// Whether an entry with the given index is among the arrivals.
pub open spec fn arrived<T>(arrivals: Seq<(usize, T)>, index: nat) -> bool {
    exists|i: int| 0 <= i < arrivals.len() && #[trigger] index_at(arrivals, i) == index
}

/// Whether no two of the entries have the same index.
pub open spec fn distinct_indices<T>(arrivals: Seq<(usize, T)>) -> bool {
    forall|i: int, j: int|
        0 <= i < j < arrivals.len() ==> #[trigger] index_at(arrivals, i) != #[trigger] index_at(
            arrivals,
            j,
        )
}

/// Whether each arrival is where it belongs: handed out at the place of its
/// index if that is below the expected one, else held back.
pub open spec fn all_placed<T>(arrivals: Seq<(usize, T)>, state: Delivery<T>) -> bool {
    forall|i: int|
        0 <= i < arrivals.len() ==> if #[trigger] index_at(arrivals, i) < state.expected {
            state.out[arrivals[i].0 as int] == arrivals[i].1
        } else {
            state.pending.contains(arrivals[i])
        }
}

/// Whether the entry at a place is one of the arrivals.
pub open spec fn known<T>(arrivals: Seq<(usize, T)>, pending: Seq<(usize, T)>, place: int) -> bool {
    arrivals.contains(pending[place])
}

/// Whether each entry that is held back is one of the arrivals.
pub open spec fn all_known<T>(arrivals: Seq<(usize, T)>, pending: Seq<(usize, T)>) -> bool {
    forall|p: int| 0 <= p < pending.len() ==> #[trigger] known(arrivals, pending, p)
}

/// Whether a delivery is what entries with distinct indices lead to: nothing
/// that is held back is ready, every index below the expected one has
/// arrived and its item stands at its place in what was handed out, and all
/// the other arrivals are held back, in ascending order.
pub open spec fn settled<T>(arrivals: Seq<(usize, T)>, state: Delivery<T>) -> bool {
    &&& state.out.len() == state.expected
    &&& arrivals.len() == state.expected + state.pending.len()
    &&& strictly_ascending(state.pending)
    &&& all_above(state.pending, state.expected)
    &&& all_placed(arrivals, state)
    &&& all_known(arrivals, state.pending)
    &&& forall|k: nat| k < state.expected ==> #[trigger] arrived(arrivals, k)
}

/// Where the entries stand after one more has been put among them, and that
/// they still ascend if they did and the new index is none of theirs.
proof fn lemma_enqueue<T>(pending: Seq<(usize, T)>, index: usize, item: T)
    requires
        strictly_ascending(pending),
        forall|p: int| 0 <= p < pending.len() ==> #[trigger] index_at(pending, p) != index,
    ensures
        ({
            let merged = enqueue(pending, index, item);
            let r = rank(pending, index) as int;
            &&& r <= pending.len()
            &&& merged.len() == pending.len() + 1
            &&& merged[r] == (index, item)
            &&& forall|p: int| 0 <= p < r ==> #[trigger] merged[p] == pending[p]
            &&& forall|p: int| r < p <= pending.len() ==> #[trigger] merged[p] == pending[p - 1]
            &&& strictly_ascending(merged)
        }),
{
    let merged = enqueue(pending, index, item);
    let r = rank(pending, index) as int;
    lemma_rank_splits(pending, index);
    assert forall|i: int, j: int| 0 <= i < j < merged.len() implies #[trigger] index_at(merged, i)
        < #[trigger] index_at(merged, j) by {
        if i == r {
            assert(merged[j] == pending[j - 1]);
            assert(index_at(pending, r) != index);
            assert(pending[r].0 > index);
            if j - 1 > r {
                assert(index_at(pending, r) < index_at(pending, j - 1));
            }
        } else if j == r {
            assert(merged[i] == pending[i]);
            assert(pending[i].0 <= index);
            assert(index_at(pending, i) != index);
        } else if j < r {
            assert(index_at(pending, i) < index_at(pending, j));
        } else if i < r {
            assert(index_at(pending, i) < index_at(pending, j - 1));
        } else {
            assert(index_at(pending, i - 1) < index_at(pending, j - 1));
        }
    }
}

/// What stays behind when the ready entries have left: entries that still
/// ascend, all of them above the index that is then expected.
proof fn lemma_ready_cut<T>(merged: Seq<(usize, T)>, expected: nat)
    requires
        strictly_ascending(merged),
        forall|p: int| 0 <= p < merged.len() ==> #[trigger] index_at(merged, p) >= expected,
    ensures
        ({
            let count = ready(merged, expected) as int;
            &&& count <= merged.len()
            &&& forall|j: int| 0 <= j < count ==> #[trigger] index_at(merged, j) == expected + j
            &&& strictly_ascending(merged.skip(count))
            &&& all_above(merged.skip(count), (expected + count) as nat)
            &&& forall|p: int| count <= p < merged.len() ==> #[trigger] index_at(merged, p) > expected + count
        }),
{
    let count = ready(merged, expected) as int;
    lemma_ready_run(merged, expected);
    let rest = merged.skip(count);
    assert forall|j: int| 0 <= j < count implies #[trigger] index_at(merged, j) == expected + j by {
        assert(merged[j].0 == expected + j);
    }
    assert forall|p: int| count <= p < merged.len() implies #[trigger] index_at(merged, p)
        > expected + count by {
        if count > 0 {
            assert(index_at(merged, count - 1) == expected + count - 1);
            assert(index_at(merged, count - 1) < index_at(merged, p));
        } else {
            assert(index_at(merged, p) >= expected);
        }
        assert(merged[count].0 != expected + count);
        if p > count {
            assert(index_at(merged, count) < index_at(merged, p));
            if count > 0 {
                assert(index_at(merged, count - 1) < index_at(merged, count));
            } else {
                assert(index_at(merged, count) >= expected);
            }
        }
    }
    assert forall|i: int, j: int| 0 <= i < j < rest.len() implies #[trigger] index_at(rest, i)
        < #[trigger] index_at(rest, j) by {
        assert(index_at(merged, count + i) < index_at(merged, count + j));
    }
    assert forall|p: int| 0 <= p < rest.len() implies #[trigger] index_at(rest, p) > expected
        + count by {
        assert(index_at(merged, count + p) > expected + count);
    }
}

/// One more arrival, with an index that none of the earlier ones had, leads
/// from a settled delivery to a settled delivery.
proof fn lemma_arrive_settles<T>(earlier: Seq<(usize, T)>, before: Delivery<T>, index: usize, item: T)
    requires
        settled(earlier, before),
        forall|i: int| 0 <= i < earlier.len() ==> #[trigger] index_at(earlier, i) != index,
    ensures
        ({
            let now = arrive(before.expected, before.pending, index, item);
            settled(
                earlier.push((index, item)),
                Delivery { expected: now.expected, pending: now.pending, out: before.out + now.out },
            )
        }),
{
    let arrivals = earlier.push((index, item));
    let n = earlier.len() as int;
    let e = before.expected;
    let now = arrive(e, before.pending, index, item);
    let after = Delivery { expected: now.expected, pending: now.pending, out: before.out + now.out };
    assert(index >= e) by {
        if index < e {
            assert(arrived(earlier, index as nat));
        }
    }
    assert forall|p: int| 0 <= p < before.pending.len() implies #[trigger] index_at(
        before.pending,
        p,
    ) != index by {
        assert(known(earlier, before.pending, p));
        let i = choose|i: int| 0 <= i < earlier.len() && earlier[i] == before.pending[p];
        assert(index_at(earlier, i) != index);
    }
    let r = rank(before.pending, index) as int;
    let merged = enqueue(before.pending, index, item);
    lemma_enqueue(before.pending, index, item);
    assert forall|p: int| 0 <= p < merged.len() implies #[trigger] index_at(merged, p) >= e by {
        if p < r {
            assert(merged[p] == before.pending[p]);
            assert(index_at(before.pending, p) > e);
        } else if p > r {
            assert(merged[p] == before.pending[p - 1]);
            assert(index_at(before.pending, p - 1) > e);
        }
    }
    let count = ready(merged, e) as int;
    lemma_ready_cut(merged, e);
    assert(after.pending == merged.skip(count));
    assert(after.expected == e + count);
    assert(after.out.len() == after.expected);
    // Every merged entry is an arrival.
    assert forall|m: int| 0 <= m < merged.len() implies arrivals.contains(#[trigger] merged[m]) by {
        if m == r {
            assert(arrivals[n] == merged[m]);
        } else {
            let q = if m < r {
                m
            } else {
                m - 1
            };
            assert(before.pending[q] == merged[m]);
            assert(known(earlier, before.pending, q));
            let i = choose|i: int| 0 <= i < earlier.len() && earlier[i] == before.pending[q];
            assert(arrivals[i] == merged[m]);
        }
    }
    assert(all_known(arrivals, after.pending)) by {
        assert forall|p: int| 0 <= p < after.pending.len() implies #[trigger] known(
            arrivals,
            after.pending,
            p,
        ) by {
            assert(after.pending[p] == merged[count + p]);
        }
    }
    assert forall|k: nat| k < after.expected implies #[trigger] arrived(arrivals, k) by {
        if k < e {
            assert(arrived(earlier, k));
            let i = choose|i: int| 0 <= i < earlier.len() && #[trigger] index_at(earlier, i) == k;
            assert(index_at(arrivals, i) == k);
        } else {
            let m = k - e;
            assert(index_at(merged, m) == k);
            assert(arrivals.contains(merged[m]));
            let i = choose|i: int| 0 <= i < arrivals.len() && arrivals[i] == merged[m];
            assert(index_at(arrivals, i) == k);
        }
    }
    assert(all_placed(arrivals, after)) by {
        assert forall|i: int| 0 <= i < arrivals.len() implies if #[trigger] index_at(arrivals, i)
            < after.expected {
            after.out[arrivals[i].0 as int] == arrivals[i].1
        } else {
            after.pending.contains(arrivals[i])
        } by {
            // Where the arrival stands among the merged entries, if it was
            // not handed out before.
            let x = arrivals[i];
            if i < n && index_at(earlier, i) < e {
                assert(arrivals[i] == earlier[i]);
                assert(before.out[x.0 as int] == x.1);
            } else {
                let m = if i == n {
                    r
                } else {
                    assert(arrivals[i] == earlier[i]);
                    assert(index_at(earlier, i) >= e);
                    assert(before.pending.contains(x));
                    let q = choose|q: int| 0 <= q < before.pending.len() && before.pending[q] == x;
                    if q < r {
                        q
                    } else {
                        q + 1
                    }
                };
                assert(merged[m] == x);
                if m < count {
                    assert(index_at(merged, m) == e + m);
                    assert(items(merged.take(count))[m] == merged[m].1);
                    assert(after.out[e + m] == items(merged.take(count))[m]);
                } else {
                    assert(index_at(merged, m) > e + count);
                    assert(after.pending[m - count] == x);
                }
            }
        }
    }
}

/// Entries with distinct indices, arriving in any order, lead to a settled
/// delivery.
pub proof fn lemma_deliver_settles<T>(arrivals: Seq<(usize, T)>)
    requires
        distinct_indices(arrivals),
    ensures
        settled(arrivals, deliver(arrivals)),
    decreases arrivals.len(),
{
    if arrivals.len() == 0 {
        return ;
    }
    let earlier = arrivals.drop_last();
    let last = arrivals.last();
    let n = earlier.len() as int;
    assert(distinct_indices(earlier)) by {
        assert forall|i: int, j: int| 0 <= i < j < earlier.len() implies #[trigger] index_at(
            earlier,
            i,
        ) != #[trigger] index_at(earlier, j) by {
            assert(index_at(arrivals, i) != index_at(arrivals, j));
        }
    }
    lemma_deliver_settles(earlier);
    assert forall|i: int| 0 <= i < earlier.len() implies #[trigger] index_at(earlier, i)
        != last.0 by {
        assert(index_at(arrivals, i) != index_at(arrivals, n));
    }
    lemma_arrive_settles(earlier, deliver(earlier), last.0, last.1);
    assert(earlier.push((last.0, last.1)) =~= arrivals);
}

/// Entries that ascend strictly and lie above a bound reach at least as far
/// above it as there are entries.
proof fn lemma_ascending_reach<T>(pending: Seq<(usize, T)>, bound: nat)
    requires
        pending.len() > 0,
        strictly_ascending(pending),
        all_above(pending, bound),
    ensures
        pending.last().0 >= bound + pending.len(),
    decreases pending.len(),
{
    if pending.len() > 1 {
        let front = pending.drop_last();
        assert forall|i: int, j: int| 0 <= i < j < front.len() implies #[trigger] index_at(front, i)
            < #[trigger] index_at(front, j) by {
            assert(index_at(pending, i) < index_at(pending, j));
        }
        assert forall|p: int| 0 <= p < front.len() implies #[trigger] index_at(front, p)
            > bound by {
            assert(index_at(pending, p) > bound);
        }
        lemma_ascending_reach(front, bound);
        assert(index_at(pending, pending.len() - 2) < index_at(pending, pending.len() - 1));
    } else {
        assert(index_at(pending, 0) > bound);
    }
}

/// Delivery in sequence. Let the entries carry the indices from 0 up to
/// their number, each of them once, and let them arrive in any order
/// whatever. Then every item is handed out, at the place of its index, and
/// nothing stays behind.
pub proof fn lemma_delivery_in_sequence<T>(arrivals: Seq<(usize, T)>)
    requires
        distinct_indices(arrivals),
        forall|i: int| 0 <= i < arrivals.len() ==> #[trigger] index_at(arrivals, i) < arrivals.len(),
    ensures
        deliver(arrivals).out.len() == arrivals.len(),
        deliver(arrivals).pending.len() == 0,
        deliver(arrivals).expected == arrivals.len(),
        forall|i: int|
            0 <= i < arrivals.len() ==> deliver(arrivals).out[#[trigger] index_at(arrivals, i) as int]
                == arrivals[i].1,
{
    lemma_deliver_settles(arrivals);
    let state = deliver(arrivals);
    if state.pending.len() > 0 {
        lemma_ascending_reach(state.pending, state.expected);
        let top = state.pending.len() - 1;
        assert(known(arrivals, state.pending, top));
        let i = choose|i: int| 0 <= i < arrivals.len() && arrivals[i] == state.pending[top];
        assert(index_at(arrivals, i) < arrivals.len());
        assert(false);
    }
    assert forall|i: int| 0 <= i < arrivals.len() implies state.out[#[trigger] index_at(
        arrivals,
        i,
    ) as int] == arrivals[i].1 by {
        assert(index_at(arrivals, i) < arrivals.len());
    }
}

} // verus!
