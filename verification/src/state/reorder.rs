//! Putting tagged items back into sequence order.
use crate::util::{lemma_mask_is_mod, lemma_next_pow2_bounds, next_pow2, next_power_of_two};
use vstd::arithmetic::power2::{lemma2_to64, lemma2_to64_rest, lemma_pow2_strictly_increases, pow2};
use vstd::prelude::*;

verus! {

/// What a reorder buffer holds: the buffered items by sequence number, and the
/// number that is released next.
#[verifier::ext_equal]
pub struct ReorderModel<T> {
    pub pending: Map<u64, T>,
    pub next: u64,
}

/// The buffered items after `item` was stored under `seq` in a ring of `cap`
/// slots: an item whose number shares the slot is dropped.
pub open spec fn placed<T>(pending: Map<u64, T>, cap: nat, seq: u64, item: T) -> Map<u64, T> {
    Map::new(
        |s: u64|
            s == seq || (pending.dom().contains(s) && s as int % cap as int != seq as int
                % cap as int),
        |s: u64|
            if s == seq {
                item
            } else {
                pending[s]
            },
    )
}

/// How many items in a row, from number `next` on, are buffered.
pub open spec fn run_len<T>(pending: Map<u64, T>, next: u64) -> nat
    decreases u64::MAX - next,
{
    if next < u64::MAX && pending.dom().contains(next) {
        1 + run_len(pending, (next + 1) as u64)
    } else {
        0
    }
}

/// The items of that run, in order.
pub open spec fn run_items<T>(pending: Map<u64, T>, next: u64) -> Seq<T> {
    Seq::new(run_len(pending, next), |i: int| pending[(next + i) as u64])
}

/// What is left once the run from `next` on was released.
pub open spec fn run_released<T>(m: ReorderModel<T>) -> ReorderModel<T> {
    let n = run_len(m.pending, m.next);
    ReorderModel {
        pending: Map::new(
            |s: u64| m.pending.dom().contains(s) && !(m.next <= s < m.next + n),
            |s: u64| m.pending[s],
        ),
        next: (m.next + n) as u64,
    }
}

/// The state right after `item` was stored, before anything is released.
pub open spec fn stored<T>(m: ReorderModel<T>, cap: nat, seq: u64, item: T) -> ReorderModel<T> {
    ReorderModel { pending: placed(m.pending, cap, seq, item), next: m.next }
}

/// The state after `item` arrived under `seq`.
pub open spec fn arrived<T>(m: ReorderModel<T>, cap: nat, seq: u64, item: T) -> ReorderModel<T> {
    run_released(stored(m, cap, seq, item))
}

/// What the arrival of `item` under `seq` releases.
pub open spec fn released<T>(m: ReorderModel<T>, cap: nat, seq: u64, item: T) -> Seq<T> {
    run_items(stored(m, cap, seq, item).pending, m.next)
}

/// `items` are the values of `pending`, by ascending number.
pub open spec fn in_key_order<T>(pending: Map<u64, T>, items: Seq<T>) -> bool {
    exists|keys: Seq<u64>| #[trigger] key_order(pending, items, keys)
}

/// `keys` lists the numbers of `pending` in ascending order, and `items` the
/// values under them.
pub open spec fn key_order<T>(pending: Map<u64, T>, items: Seq<T>, keys: Seq<u64>) -> bool {
    &&& keys.len() == items.len()
    &&& forall|i: int, j: int| 0 <= i < j < keys.len() ==> keys[i] < keys[j]
    &&& forall|i: int| 0 <= i < keys.len() ==> #[trigger] pending.dom().contains(keys[i])
    &&& forall|s: u64| #[trigger] pending.dom().contains(s) ==> keys.contains(s)
    &&& forall|i: int| 0 <= i < keys.len() ==> #[trigger] items[i] == pending[keys[i]]
}

/// A run never reaches past the largest number.
pub proof fn lemma_run_bounds<T>(pending: Map<u64, T>, next: u64)
    ensures
        next + run_len(pending, next) <= u64::MAX,
        forall|s: u64|
            next <= s < next + run_len(pending, next) ==> #[trigger] pending.dom().contains(s),
        next + run_len(pending, next) < u64::MAX ==> !pending.dom().contains(
            (next + run_len(pending, next)) as u64,
        ),
    decreases u64::MAX - next,
{
    if next < u64::MAX && pending.dom().contains(next) {
        lemma_run_bounds(pending, (next + 1) as u64);
    }
}

struct Slot<T> {
    seq: u64,
    item: Option<T>,
}

/// A ring of slots that releases items in the order of their numbers.
///
/// Items arrive tagged with a number; an insertion releases every item of the
/// contiguous run that starts at the next expected number, up to but not
/// including the largest `u64`. Items that arrive early wait in the slot given by the low bits of their number. If more
/// numbers are outstanding than there are slots, two of them share a slot and
/// the older item is dropped.
pub struct ReorderBuffer<T> {
    slots: Vec<Slot<T>>,
    next_expected: u64,
    len: usize,
    mask: usize,
}

impl<T> View for ReorderBuffer<T> {
    type V = ReorderModel<T>;

    closed spec fn view(&self) -> ReorderModel<T> {
        ReorderModel { pending: pending_of(self.slots@), next: self.next_expected }
    }
}

spec fn holds<T>(slots: Seq<Slot<T>>, s: u64) -> bool {
    let i = s as int % slots.len() as int;
    slots[i].item is Some && slots[i].seq == s
}

spec fn pending_of<T>(slots: Seq<Slot<T>>) -> Map<u64, T> {
    Map::new(|s: u64| holds(slots, s), |s: u64| slots[s as int % slots.len() as int].item->0)
}

spec fn held_below<T>(slots: Seq<Slot<T>>, i: nat) -> Set<u64> {
    Set::new(|s: u64| holds(slots, s) && 0 <= s as int % slots.len() as int && s as int % (slots.len() as int) < i)
}

/// The slots hold at most one number each.
proof fn lemma_held_below<T>(slots: Seq<Slot<T>>, i: nat)
    requires
        i <= slots.len(),
    ensures
        held_below(slots, i).finite(),
        held_below(slots, i).len() <= i,
    decreases i,
{
    if i == 0 {
        assert(held_below(slots, 0) =~= Set::empty());
    } else {
        let j = (i - 1) as nat;
        lemma_held_below(slots, j);
        let last = slots[j as int].seq;
        if holds(slots, last) && last as int % slots.len() as int == j {
            assert(held_below(slots, i) =~= held_below(slots, j).insert(last));
        } else {
            assert(held_below(slots, i) =~= held_below(slots, j));
        }
    }
}

proof fn lemma_pending_small<T>(slots: Seq<Slot<T>>)
    requires
        slots.len() > 0,
    ensures
        pending_of(slots).dom().finite(),
        pending_of(slots).dom().len() <= slots.len(),
{
    lemma_held_below(slots, slots.len());
    assert forall|s: u64| 0 <= #[trigger] (s as int % slots.len() as int) < slots.len() by {
        vstd::arithmetic::div_mod::lemma_mod_bound(s as int, slots.len() as int);
    }
    assert(held_below(slots, slots.len()) =~= pending_of(slots).dom());
}

/// A run that ends right before `end` has the length from `next` to `end`.
proof fn lemma_run_exact<T>(pending: Map<u64, T>, next: u64, end: u64)
    requires
        next <= end,
        forall|s: u64| next <= s < end ==> #[trigger] pending.dom().contains(s),
        end < u64::MAX ==> !pending.dom().contains(end),
    ensures
        run_len(pending, next) == end - next,
    decreases end - next,
{
    if next < end {
        lemma_run_exact(pending, (next + 1) as u64, end);
    }
}

impl<T> ReorderBuffer<T> {
    /// The number of slots.
    pub closed spec fn capacity(&self) -> nat {
        self.slots@.len()
    }

    /// The slots agree with their numbers and the count with the slots, and the number
    /// that is released next is not buffered, as it would have been released.
    pub closed spec fn wf(&self) -> bool {
        &&& self.holding()
        &&& self@.next < u64::MAX ==> !self@.pending.dom().contains(self@.next)
    }

    /// The slots agree with their numbers and the count with the slots.
    closed spec fn holding(&self) -> bool {
        &&& 0 < self.slots@.len() <= usize::MAX
        &&& exists|k: nat| self.slots@.len() == #[trigger] pow2(k)
        &&& self.mask == self.slots@.len() - 1
        &&& self.len == self@.pending.dom().len()
        &&& forall|i: int|
            0 <= i < self.slots@.len() && (#[trigger] self.slots@[i]).item is Some
                ==> self.slots@[i].seq as int
                % self.slots@.len() as int == i
    }

    /// A buffer with at least `capacity` slots, and at least one.
    pub fn new(capacity: usize) -> (r: Self)
        requires
            next_pow2(if capacity == 0 { 1 } else { capacity as nat }) <= usize::MAX,
        ensures
            r.wf(),
            r.capacity() == next_pow2(if capacity == 0 { 1 } else { capacity as nat }),
            r@ == (ReorderModel { pending: Map::<u64, T>::empty(), next: 0 }),
    {
        let cap: usize = next_power_of_two(capacity.max(1));
        proof {
            lemma_next_pow2_bounds(if capacity == 0 { 1 } else { capacity as nat });
        }
        let mut slots: Vec<Slot<T>> = Vec::with_capacity(cap);
        for i in 0..cap
            invariant
                slots@.len() == i,
                forall|j: int| 0 <= j < i ==> (#[trigger] slots@[j]).item is None,
        {
            slots.push(Slot { seq: 0, item: None });
        }
        let r = Self { slots, next_expected: 0, len: 0, mask: cap - 1 };
        assert(r@.pending =~= Map::<u64, T>::empty());
        r
    }

    /// The slot of number `seq`.
    fn slot_index(&self, seq: u64) -> (idx: usize)
        requires
            self.holding(),
        ensures
            idx == seq as int % self.slots@.len() as int,
            idx < self.slots@.len(),
    {
        proof {
            let k = choose|k: nat| self.slots@.len() == #[trigger] pow2(k);
            lemma2_to64();
            lemma2_to64_rest();
            if k >= 64 {
                if k > 64 {
                    lemma_pow2_strictly_increases(64, k);
                }
                assert(false);
            }
            lemma_mask_is_mod(seq, self.slots@.len() as u64, k);
        }
        (seq & (self.mask as u64)) as usize
    }

    /// Stores `item` under `seq` and appends to `sink` every item that is now
    /// due, in order.
    pub fn insert_into(&mut self, seq: u64, item: T, sink: &mut Vec<T>)
        requires
            old(self).wf(),
        ensures
            final(self).wf(),
            final(self).capacity() == old(self).capacity(),
            final(self)@ == arrived(old(self)@, old(self).capacity(), seq, item),
            final(sink)@ == old(sink)@ + released(old(self)@, old(self).capacity(), seq, item),
    {
        let idx: usize = self.slot_index(seq);
        let ghost dom = self@.pending.dom();
        let ghost aliased = self.slots@[idx as int];
        proof {
            lemma_pending_small(self.slots@);
            if aliased.item is Some {
                assert(dom.contains(aliased.seq));
            }
        }
        if self.slots[idx].item.is_some() {
            self.len = self.len - 1;
        }
        self.slots[idx] = Slot { seq, item: Some(item) };
        proof {
            lemma_pending_small(self.slots@);
            assert(self@.pending =~= placed(old(self)@.pending, old(self).capacity(), seq, item));
            if aliased.item is Some {
                assert(self@.pending.dom() =~= dom.remove(aliased.seq).insert(seq));
            } else {
                assert(self@.pending.dom() =~= dom.insert(seq));
                assert(!dom.contains(seq));
            }
        }
        self.len = self.len + 1;
        self.flush_ready_into(sink);
    }

    /// Stores `item` under `seq` and returns every item that is now due.
    pub fn insert(&mut self, seq: u64, item: T) -> (ready: Vec<T>)
        requires
            old(self).wf(),
        ensures
            final(self).wf(),
            final(self).capacity() == old(self).capacity(),
            final(self)@ == arrived(old(self)@, old(self).capacity(), seq, item),
            ready@ == released(old(self)@, old(self).capacity(), seq, item),
            ready@.len() > 0 <==> seq == old(self)@.next && seq < u64::MAX,
    {
        let mut ready: Vec<T> = Vec::new();
        self.insert_into(seq, item, &mut ready);
        ready
    }

    fn flush_ready_into(&mut self, sink: &mut Vec<T>)
        requires
            old(self).holding(),
        ensures
            final(self).wf(),
            final(self).capacity() == old(self).capacity(),
            final(self)@ == run_released(old(self)@),
            final(sink)@ == old(sink)@ + run_items(old(self)@.pending, old(self)@.next),
    {
        let ghost start = self@;
        let ghost given = sink@;
        loop
            invariant
                self.holding(),
                self.capacity() == old(self).capacity(),
                start == old(self)@,
                given == old(sink)@,
                start.next <= self.next_expected,
                forall|s: u64|
                    start.next <= s < self.next_expected
                        ==> #[trigger] start.pending.dom().contains(s),
                self@.pending == Map::new(
                    |s: u64|
                        start.pending.dom().contains(s) && !(start.next <= s < self.next_expected),
                    |s: u64| start.pending[s],
                ),
                sink@ == given + Seq::new(
                    (self.next_expected - start.next) as nat,
                    |i: int| start.pending[(start.next + i) as u64],
                ),
            ensures
                self.next_expected < u64::MAX ==> !start.pending.dom().contains(self.next_expected),
            decreases u64::MAX - self.next_expected,
        {
            if self.next_expected == u64::MAX {
                break;
            }
            let idx: usize = self.slot_index(self.next_expected);
            if !self.slots[idx].item.is_some() || self.slots[idx].seq != self.next_expected {
                assert(!self@.pending.dom().contains(self.next_expected));
                break;
            }
            let ghost here = self@.pending;
            assert(here.dom().contains(self.next_expected));
            proof {
                lemma_pending_small(self.slots@);
            }
            assert(here[self.next_expected] == self.slots@[idx as int].item->0);
            assert(here[self.next_expected] == start.pending[self.next_expected]);
            let taken = self.slots[idx].item.take();
            self.len = self.len - 1;
            proof {
                assert(self@.pending =~= here.remove(self.next_expected));
                lemma_pending_small(self.slots@);
            }
            self.next_expected = self.next_expected + 1;
            match taken {
                Some(item) => {
                    sink.push(item);
                    assert(sink@ =~= given + Seq::new(
                        (self.next_expected - start.next) as nat,
                        |i: int| start.pending[(start.next + i) as u64],
                    ));
                },
                None => {},
            }
        }
        proof {
            lemma_run_exact(start.pending, start.next, self.next_expected);
        }
    }

    /// Empties the buffer and returns what it held, by ascending number. The
    /// next expected number stays.
    pub fn flush_remaining(&mut self) -> (rest: Vec<T>)
        requires
            old(self).wf(),
        ensures
            final(self).wf(),
            final(self).capacity() == old(self).capacity(),
            final(self)@.pending == Map::<u64, T>::empty(),
            final(self)@.next == old(self)@.next,
            in_key_order(old(self)@.pending, rest@),
    {
        let ghost p0 = self@.pending;
        let ghost cap = self.slots@.len() as int;
        let n: usize = self.slots.len();
        let mut items: Vec<(u64, T)> = Vec::with_capacity(self.len);
        for i in 0..n
            invariant
                cap == n == self.slots@.len() == old(self).slots@.len(),
                n > 0,
                self.mask == old(self).mask,
                self.next_expected == old(self).next_expected,
                old(self).wf(),
                p0 == old(self)@.pending,
                forall|j: int| 0 <= j < i ==> (#[trigger] self.slots@[j]).item is None,
                forall|j: int| i <= j < n ==> #[trigger] self.slots@[j] == old(self).slots@[j],
                forall|j: int|
                    0 <= j < items@.len() ==> p0.dom().contains((#[trigger] items@[j]).0)
                        && items@[j].1 == p0[items@[j].0] && items@[j].0 as int % cap < i,
                forall|j: int, k: int|
                    0 <= j < k < items@.len()
                        ==> (#[trigger] items@[j]).0 != (#[trigger] items@[k]).0,
                forall|s: u64| #[trigger]
                    p0.dom().contains(s) && s as int % cap < i ==> exists|j: int|
                        0 <= j < items@.len() && (#[trigger] items@[j]).0 == s,
        {
            let ghost before = items@;
            if self.slots[i].item.is_some() {
                let seq: u64 = self.slots[i].seq;
                assert(p0.dom().contains(seq));
                let taken = self.slots[i].item.take();
                match taken {
                    Some(item) => {
                        items.push((seq, item));
                    },
                    None => {},
                }
                assert(items@ == before.push((seq, p0[seq])));
                assert forall|s: u64| #[trigger]
                    p0.dom().contains(s) && s as int % cap < i + 1 implies exists|j: int|
                    0 <= j < items@.len() && (#[trigger] items@[j]).0 == s by {
                    if s as int % cap < i {
                        let j = choose|j: int| 0 <= j < before.len() && (#[trigger] before[j]).0 == s;
                        assert(items@[j].0 == s);
                    } else {
                        assert(s == seq);
                        assert(items@[before.len() as int].0 == s);
                    }
                }
            }
        }
        assert forall|s: u64| #[trigger] p0.dom().contains(s) implies exists|j: int|
            0 <= j < items@.len() && (#[trigger] items@[j]).0 == s by {
            vstd::arithmetic::div_mod::lemma_mod_bound(s as int, cap);
        }
        self.len = 0;
        assert(self@.pending =~= Map::<u64, T>::empty()) by {
            assert forall|s: u64| !holds(self.slots@, s) by {
                vstd::arithmetic::div_mod::lemma_mod_bound(s as int, cap);
            }
        }
        let ghost unsorted = items@;
        sort_by_number(&mut items);
        let ghost sorted = items@;
        proof {
            lemma_sorted_keys(p0, unsorted, sorted);
        }
        let rest = strip_numbers(items);
        proof {
            let keys = Seq::new(sorted.len(), |i: int| sorted[i].0);
            assert(key_order(p0, rest@, keys)) by {
                assert forall|s: u64| #[trigger] p0.dom().contains(s) implies keys.contains(s) by {
                    let j = choose|j: int| 0 <= j < sorted.len() && (#[trigger] sorted[j]).0 == s;
                    assert(keys[j] == s);
                }
            }
        }
        rest
    }

    /// How many items are buffered.
    pub fn len(&self) -> (n: usize)
        requires
            self.wf(),
        ensures
            n == self@.pending.dom().len(),
            n <= self.capacity(),
    {
        proof {
            lemma_pending_small(self.slots@);
        }
        self.len
    }

    /// Whether nothing is buffered.
    pub fn is_empty(&self) -> (b: bool)
        requires
            self.wf(),
        ensures
            b == (self@.pending == Map::<u64, T>::empty()),
    {
        proof {
            lemma_pending_small(self.slots@);
            if self.len == 0 {
                assert(self@.pending.dom() =~= Set::empty());
                assert(self@.pending =~= Map::<u64, T>::empty());
            }
        }
        self.len == 0
    }

    /// The number that is released next.
    pub fn next_expected(&self) -> (next: u64)
        ensures
            next == self@.next,
    {
        self.next_expected
    }

    /// Drops what is buffered and starts over at number zero.
    pub fn reset(&mut self)
        requires
            old(self).wf(),
        ensures
            final(self).wf(),
            final(self).capacity() == old(self).capacity(),
            final(self)@ == (ReorderModel { pending: Map::<u64, T>::empty(), next: 0 }),
    {
        let n: usize = self.slots.len();
        for i in 0..n
            invariant
                n == self.slots@.len() == old(self).slots@.len(),
                old(self).wf(),
                self.mask == old(self).mask,
                forall|j: int| 0 <= j < i ==> (#[trigger] self.slots@[j]).item is None,
        {
            self.slots[i].item = None;
        }
        self.len = 0;
        self.next_expected = 0;
        assert(self@.pending =~= Map::<u64, T>::empty()) by {
            assert forall|s: u64| !holds(self.slots@, s) by {
                vstd::arithmetic::div_mod::lemma_mod_bound(s as int, n as int);
            }
        }
    }
}

/// Sorting pairs with distinct numbers keeps the pairs and makes the numbers
/// strictly ascend.
proof fn lemma_sorted_keys<T>(p0: Map<u64, T>, unsorted: Seq<(u64, T)>, sorted: Seq<(u64, T)>)
    requires
        sorted.to_multiset() == unsorted.to_multiset(),
        forall|i: int, j: int| 0 <= i < j < sorted.len() ==> sorted[i].0 <= sorted[j].0,
        forall|j: int|
            0 <= j < unsorted.len() ==> p0.dom().contains((#[trigger] unsorted[j]).0)
                && unsorted[j].1 == p0[unsorted[j].0],
        forall|j: int, k: int|
            0 <= j < k < unsorted.len()
                ==> (#[trigger] unsorted[j]).0 != (#[trigger] unsorted[k]).0,
        forall|s: u64| #[trigger]
            p0.dom().contains(s) ==> exists|j: int|
                0 <= j < unsorted.len() && (#[trigger] unsorted[j]).0 == s,
    ensures
        forall|i: int, j: int| 0 <= i < j < sorted.len() ==> sorted[i].0 < sorted[j].0,
        forall|j: int|
            0 <= j < sorted.len() ==> p0.dom().contains((#[trigger] sorted[j]).0) && sorted[j].1
                == p0[sorted[j].0],
        forall|s: u64| #[trigger]
            p0.dom().contains(s) ==> exists|j: int|
                0 <= j < sorted.len() && (#[trigger] sorted[j]).0 == s,
{
    broadcast use vstd::seq_lib::group_to_multiset_ensures;

    assert(unsorted.no_duplicates());
    unsorted.lemma_multiset_has_no_duplicates();
    sorted.lemma_multiset_has_no_duplicates_conv();
    assert forall|j: int| 0 <= j < sorted.len() implies unsorted.contains(#[trigger] sorted[j]) by {
        assert(sorted.to_multiset().count(sorted[j]) > 0);
    }
    assert forall|j: int| 0 <= j < unsorted.len() implies sorted.contains(#[trigger] unsorted[j]) by {
        assert(unsorted.to_multiset().count(unsorted[j]) > 0);
    }
    assert forall|i: int, j: int| 0 <= i < j < sorted.len() implies sorted[i].0 < sorted[j].0 by {
        let a = unsorted.index_of(sorted[i]);
        let b = unsorted.index_of(sorted[j]);
        assert(unsorted.contains(sorted[i]) && unsorted.contains(sorted[j]));
        assert(unsorted[a] == sorted[i] && unsorted[b] == sorted[j]);
        assert(sorted[i] != sorted[j]);
    }
    assert forall|s: u64| #[trigger] p0.dom().contains(s) implies exists|j: int|
        0 <= j < sorted.len() && (#[trigger] sorted[j]).0 == s by {
        let j = choose|j: int| 0 <= j < unsorted.len() && (#[trigger] unsorted[j]).0 == s;
        assert(sorted.contains(unsorted[j]));
        let i = sorted.index_of(unsorted[j]);
        assert(sorted[i].0 == s);
    }
}

/// The pairs with number `seq`.
pub open spec fn numbered<T>(seq: u64) -> spec_fn((u64, T)) -> bool {
    |entry: (u64, T)| entry.0 == seq
}

/// `<[(u64, T)]>::sort_by_key` of std, by the first field of each pair: the
/// same pairs stay, their numbers ascend, and pairs with the same number keep their
/// order.
#[verifier::external_body]
fn sort_by_number<T>(items: &mut Vec<(u64, T)>)
    ensures
        final(items)@.to_multiset() == old(items)@.to_multiset(),
        forall|seq: u64|
            final(items)@.filter(#[trigger] numbered(seq)) == old(items)@.filter(numbered(seq)),
        forall|i: int, j: int| 0 <= i < j < final(items)@.len()
            ==> final(items)@[i].0 <= final(items)@[j].0,
{
    items.sort_by_key(|entry| entry.0)
}

/// The second fields, in order.
pub(crate) fn strip_numbers<T>(items: Vec<(u64, T)>) -> (r: Vec<T>)
    ensures
        r@ == Seq::new(items@.len(), |i: int| items@[i].1),
{
    let ghost all = items@;
    let mut r: Vec<T> = Vec::with_capacity(items.len());
    for entry in it: items
        invariant
            it.seq() == all,
            r@ == Seq::new(it.index() as nat, |i: int| all[i].1),
    {
        r.push(entry.1);
    }
    r
}

/// What the arrival of an item does to a buffer of `cap` slots, whatever it holds: the item
/// takes its slot, from which another number is dropped; then everything is released that
/// follows on from the next number due without a gap, in order and as it arrived, and
/// nothing else is touched.
pub proof fn law_an_arrival_releases_what_is_due<T>(
    m: ReorderModel<T>,
    cap: nat,
    seq: u64,
    item: T,
    s: u64,
)
    requires
        cap > 0,
    ensures
        ({
            let out = released(m, cap, seq, item);
            let after = arrived(m, cap, seq, item);
            let value = if s == seq {
                item
            } else {
                m.pending[s]
            };
            let there = s == seq || m.pending.dom().contains(s) && s as int % cap as int
                != seq as int % cap as int;
            &&& after.next == m.next + out.len()
            &&& m.next <= s < after.next ==> there && out[s - m.next] == value
                && !after.pending.dom().contains(s)
            &&& !(m.next <= s < after.next) ==> (after.pending.dom().contains(s) <==> there)
            &&& after.pending.dom().contains(s) ==> after.pending[s] == value
            &&& after.next < u64::MAX ==> !after.pending.dom().contains(after.next)
        }),
{
    let p = stored(m, cap, seq, item).pending;
    lemma_run_bounds(p, m.next);
    let n = run_len(p, m.next);
    if m.next <= s < m.next + n {
        assert(p.dom().contains(s));
        assert(run_items(p, m.next)[s - m.next] == p[s]);
    }
}

/// Values in the order of their numbers: there are as many as numbers, and each stands
/// behind those of all smaller numbers and before those of all larger ones.
pub proof fn law_key_order_is_by_rank<T>(pending: Map<u64, T>, items: Seq<T>, s: u64)
    requires
        in_key_order(pending, items),
        pending.dom().contains(s),
    ensures
        pending.dom().finite(),
        items.len() == pending.dom().len(),
        pending.dom().filter(|t: u64| t < s).len() < items.len(),
        items[pending.dom().filter(|t: u64| t < s).len() as int] == pending[s],
{
    let keys = choose|keys: Seq<u64>| #[trigger] key_order(pending, items, keys);
    assert(keys.no_duplicates());
    assert(keys.to_set() =~= pending.dom()) by {
        assert forall|t: u64| keys.to_set().contains(t) == pending.dom().contains(t) by {
            if keys.to_set().contains(t) {
                let i = choose|i: int| 0 <= i < keys.len() && keys[i] == t;
                assert(pending.dom().contains(keys[i]));
            }
            if pending.dom().contains(t) {
                assert(keys.contains(t));
            }
        }
    }
    keys.unique_seq_to_set();
    assert(keys.contains(s));
    let i = choose|i: int| 0 <= i < keys.len() && keys[i] == s;
    let less = keys.take(i);
    assert(less.no_duplicates());
    assert(less.to_set() =~= pending.dom().filter(|t: u64| t < s)) by {
        assert forall|t: u64|
            less.to_set().contains(t) == pending.dom().filter(|t: u64| t < s).contains(t) by {
            if less.to_set().contains(t) {
                let j = choose|j: int| 0 <= j < less.len() && less[j] == t;
                assert(keys[j] == t);
                assert(pending.dom().contains(keys[j]));
            }
            if pending.dom().contains(t) && t < s {
                assert(keys.contains(t));
                let j = choose|j: int| 0 <= j < keys.len() && keys[j] == t;
                assert(less[j] == t);
            }
        }
    }
    less.unique_seq_to_set();
}

} // verus!
