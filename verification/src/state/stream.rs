//! Collecting tagged arrivals in the order of their numbers.
use crate::handoff::conduit::Inlet;
use crate::state::reorder::{
    ReorderBuffer, ReorderModel, arrived, in_key_order, key_order, lemma_run_bounds, placed, released,
    run_items, run_len, run_released, stored,
};
use crate::util::{lemma_next_pow2_bounds, lemma_next_pow2_monotone, next_pow2, next_power_of_two};
use vstd::prelude::*;

verus! {

/// The fewest slots an ordered collector works with.
pub const MIN_WINDOW: usize = 1024;

/// The most slots an ordered collector works with.
pub const MAX_WINDOW: usize = 1048576;

/// The number of slots for `n` expected items: the next power of two, kept
/// between [`MIN_WINDOW`] and [`MAX_WINDOW`].
pub open spec fn window(n: nat) -> nat {
    if next_pow2(n) < MIN_WINDOW {
        MIN_WINDOW as nat
    } else if next_pow2(n) > MAX_WINDOW {
        MAX_WINDOW as nat
    } else {
        next_pow2(n)
    }
}

/// A buffer that has seen nothing yet.
pub open spec fn fresh<T>() -> ReorderModel<T> {
    ReorderModel { pending: Map::empty(), next: 0 }
}

/// The buffer after `arrivals`, in that order.
pub open spec fn fed<T>(cap: nat, arrivals: Seq<(u64, T)>) -> ReorderModel<T>
    decreases arrivals.len(),
{
    if arrivals.len() == 0 {
        fresh()
    } else {
        arrived(fed(cap, arrivals.drop_last()), cap, arrivals.last().0, arrivals.last().1)
    }
}

/// Everything that `arrivals` released, in order.
pub open spec fn emitted<T>(cap: nat, arrivals: Seq<(u64, T)>) -> Seq<T>
    decreases arrivals.len(),
{
    if arrivals.len() == 0 {
        Seq::empty()
    } else {
        emitted(cap, arrivals.drop_last()) + released(
            fed(cap, arrivals.drop_last()),
            cap,
            arrivals.last().0,
            arrivals.last().1,
        )
    }
}

/// `result` is what an ordered collector with `cap` slots makes of `arrivals`:
/// what they released, followed by what was still buffered, by number.
pub open spec fn ordered_result<T>(cap: nat, arrivals: Seq<(u64, T)>, result: Seq<T>) -> bool {
    let n = emitted(cap, arrivals).len() as int;
    &&& n <= result.len()
    &&& result.take(n) == emitted(cap, arrivals)
    &&& in_key_order(fed(cap, arrivals).pending, result.skip(n))
}

/// Each number occurs once, and none is the largest `u64`.
pub open spec fn distinct_numbers<T>(arrivals: Seq<(u64, T)>) -> bool {
    &&& forall|i: int, j: int|
        0 <= i < j < arrivals.len() ==> (#[trigger] arrivals[i]).0 != (#[trigger] arrivals[j]).0
    &&& forall|i: int| 0 <= i < arrivals.len() ==> (#[trigger] arrivals[i]).0 < u64::MAX
}

/// No item arrives more than `cap` numbers ahead of the next one due.
pub open spec fn within_window<T>(cap: nat, arrivals: Seq<(u64, T)>) -> bool {
    forall|j: int|
        0 <= j < arrivals.len()
            ==> (#[trigger] arrivals[j]).0 < fed(cap, arrivals.take(j)).next + cap
}

/// Whether number `s` is among the arrivals.
pub open spec fn seen<T>(arrivals: Seq<(u64, T)>, s: u64) -> bool {
    exists|j: int| 0 <= j < arrivals.len() && (#[trigger] arrivals[j]).0 == s
}

/// The arrivals by number.
pub open spec fn by_number<T>(arrivals: Seq<(u64, T)>) -> Map<u64, T> {
    Map::new(
        |s: u64| seen(arrivals, s),
        |s: u64| arrivals[choose|j: int| 0 <= j < arrivals.len() && (#[trigger] arrivals[j]).0 == s].1,
    )
}

/// Two numbers less than `cap` apart share a slot only if they are the same.
proof fn lemma_slots_differ(a: int, b: int, cap: int)
    requires
        cap > 0,
        a < b < a + cap,
    ensures
        a % cap != b % cap,
{
    if a % cap == b % cap {
        vstd::arithmetic::div_mod::lemma_mod_equivalence(b, a, cap);
        vstd::arithmetic::div_mod::lemma_small_mod((b - a) as nat, cap as nat);
    }
}

/// What the buffer holds and has released after arrivals within its window.
proof fn lemma_fed<T>(cap: nat, arrivals: Seq<(u64, T)>)
    requires
        cap > 0,
        distinct_numbers(arrivals),
        within_window(cap, arrivals),
    ensures
        forall|s: u64| s < fed(cap, arrivals).next ==> #[trigger] seen(arrivals, s),
        !seen(arrivals, fed(cap, arrivals).next),
        forall|s: u64| #[trigger]
            fed(cap, arrivals).pending.dom().contains(s) <==> seen(arrivals, s) && s >= fed(
                cap,
                arrivals,
            ).next,
        forall|s: u64| #[trigger]
            fed(cap, arrivals).pending.dom().contains(s) ==> s < fed(cap, arrivals).next + cap,
        forall|j: int|
            0 <= j < arrivals.len() && (#[trigger] arrivals[j]).0 >= fed(cap, arrivals).next
                ==> fed(
                cap,
                arrivals,
            ).pending[arrivals[j].0] == arrivals[j].1,
        emitted(cap, arrivals).len() == fed(cap, arrivals).next,
        forall|j: int|
            0 <= j < arrivals.len() && (#[trigger] arrivals[j]).0 < fed(cap, arrivals).next
                ==> emitted(cap, arrivals)[arrivals[j].0 as int] == arrivals[j].1,
    decreases arrivals.len(),
{
    if arrivals.len() > 0 {
        let prev = arrivals.drop_last();
        let (seq, item) = arrivals.last();
        let last = arrivals.len() - 1;
        assert forall|j: int| 0 <= j < prev.len() implies (#[trigger] prev[j]).0 < fed(
            cap,
            prev.take(j),
        ).next + cap by {
            assert(prev[j] == arrivals[j]);
            assert(prev.take(j) =~= arrivals.take(j));
        }
        lemma_fed(cap, prev);
        let m = fed(cap, prev);
        assert(arrivals.take(last) =~= prev);
        assert(arrivals[last].0 == seq);
        assert(seq < m.next + cap);
        assert(!seen(prev, seq)) by {
            if seen(prev, seq) {
                let j = choose|j: int| 0 <= j < prev.len() && (#[trigger] prev[j]).0 == seq;
                assert(arrivals[j].0 == arrivals[last].0);
            }
        }
        assert(seq >= m.next);
        let p = placed(m.pending, cap, seq, item);
        assert forall|s: u64| #[trigger] p.dom().contains(s) <==> s == seq || m.pending.dom().contains(
            s,
        ) by {
            if m.pending.dom().contains(s) && s != seq {
                if s < seq {
                    lemma_slots_differ(s as int, seq as int, cap as int);
                } else {
                    lemma_slots_differ(seq as int, s as int, cap as int);
                }
            }
        }
        assert forall|s: u64| #[trigger] seen(arrivals, s) <==> s == seq || seen(prev, s) by {
            if seen(arrivals, s) {
                let j = choose|j: int| 0 <= j < arrivals.len() && (#[trigger] arrivals[j]).0 == s;
                if j < last {
                    assert(prev[j].0 == s);
                }
            }
            if seen(prev, s) {
                let j = choose|j: int| 0 <= j < prev.len() && (#[trigger] prev[j]).0 == s;
                assert(arrivals[j].0 == s);
            }
        }
        lemma_run_bounds(p, m.next);
        let n = run_len(p, m.next);
        let m2 = fed(cap, arrivals);
        assert(m2.next == m.next + n);
        assert(emitted(cap, arrivals) == emitted(cap, prev) + run_items(p, m.next));
        assert(!seen(arrivals, m2.next)) by {
            if seen(arrivals, m2.next) {
                let j = choose|j: int| 0 <= j < arrivals.len() && (#[trigger] arrivals[j]).0 == m2.next;
                assert(m2.next < u64::MAX);
                assert(p.dom().contains(m2.next));
            }
        }
        assert forall|s: u64| s < m2.next implies #[trigger] seen(arrivals, s) by {
            if s >= m.next {
                assert(p.dom().contains(s));
            }
        }
        assert forall|j: int| 0 <= j < arrivals.len() implies {
            &&& (#[trigger] arrivals[j]).0 >= m2.next ==> m2.pending[arrivals[j].0] == arrivals[j].1
            &&& arrivals[j].0 < m2.next ==> emitted(cap, arrivals)[arrivals[j].0 as int]
                == arrivals[j].1
        } by {
            let s = arrivals[j].0;
            assert(seen(arrivals, s));
            if j < last {
                assert(prev[j] == arrivals[j]);
                assert(seen(prev, s));
            }
            if s >= m.next {
                assert(p.dom().contains(s));
                assert(p[s] == arrivals[j].1);
            }
        }
    }
}

/// What is released in order of number, followed by what is still buffered, by
/// number, is everything by number.
proof fn lemma_released_then_buffered<T>(
    arrivals: Seq<(u64, T)>,
    next: u64,
    pending: Map<u64, T>,
    out: Seq<T>,
    rest: Seq<T>,
)
    requires
        forall|s: u64| s < next ==> #[trigger] seen(arrivals, s),
        forall|s: u64| #[trigger]
            pending.dom().contains(s) <==> seen(arrivals, s) && s >= next,
        forall|j: int|
            0 <= j < arrivals.len() && (#[trigger] arrivals[j]).0 >= next
                ==> pending[arrivals[j].0] == arrivals[j].1,
        out.len() == next,
        forall|j: int|
            0 <= j < arrivals.len() && (#[trigger] arrivals[j]).0 < next
                ==> out[arrivals[j].0 as int] == arrivals[j].1,
        in_key_order(pending, rest),
    ensures
        in_key_order(by_number(arrivals), out + rest),
{
    let n = out.len();
    let result = out + rest;
    let tail = choose|keys: Seq<u64>| #[trigger] key_order(pending, rest, keys);
    let keys = Seq::new(n, |i: int| i as u64) + tail;
    let all = by_number(arrivals);
    assert forall|i: int| 0 <= i < keys.len() implies {
        &&& #[trigger] all.dom().contains(keys[i])
        &&& i >= n ==> next <= keys[i]
        &&& result[i] == all[keys[i]]
    } by {
        let s = keys[i];
        if i < n {
            assert(s == i);
            assert(seen(arrivals, s));
        } else {
            assert(s == tail[i - n]);
            assert(pending.dom().contains(tail[i - n]));
            assert(rest[i - n] == pending[tail[i - n]]);
        }
        let j = choose|j: int| 0 <= j < arrivals.len() && (#[trigger] arrivals[j]).0 == s;
        assert(all[s] == arrivals[j].1);
    }
    assert forall|s: u64| #[trigger] all.dom().contains(s) implies keys.contains(s) by {
        if s < next {
            assert(keys[s as int] == s);
        } else {
            assert(pending.dom().contains(s));
            assert(tail.contains(s));
            let i = tail.index_of(s);
            assert(keys[n + i] == s);
        }
    }
    assert forall|i: int, j: int| 0 <= i < j < keys.len() implies keys[i] < keys[j] by {
        if i >= n {
            assert(keys[i] == tail[i - n] && keys[j] == tail[j - n]);
        } else if j >= n {
            assert(all.dom().contains(keys[j]));
        }
    }
    assert forall|i: int| 0 <= i < keys.len() implies #[trigger] result[i] == all[keys[i]] by {
        assert(all.dom().contains(keys[i]));
    }
    assert(key_order(all, result, keys));
}

/// Arrivals within the window come out by ascending number, whatever order they
/// came in and whichever numbers are missing.
pub proof fn law_arrivals_come_out_sorted<T>(cap: nat, arrivals: Seq<(u64, T)>, result: Seq<T>)
    requires
        cap > 0,
        distinct_numbers(arrivals),
        within_window(cap, arrivals),
        ordered_result(cap, arrivals, result),
    ensures
        in_key_order(by_number(arrivals), result),
{
    lemma_fed(cap, arrivals);
    let m = fed(cap, arrivals);
    let out = emitted(cap, arrivals);
    let rest = result.skip(out.len() as int);
    lemma_released_then_buffered(arrivals, m.next, m.pending, out, rest);
    assert(result =~= result.take(out.len() as int) + rest);
}

/// `arrivals` are the items of `outs`, each under its own position, in any order.
pub open spec fn tagged_in_some_order<T>(arrivals: Seq<(u64, T)>, outs: Seq<T>) -> bool {
    &&& arrivals.len() == outs.len()
    &&& forall|i: int, j: int|
        0 <= i < j < arrivals.len() ==> (#[trigger] arrivals[i]).0 != (#[trigger] arrivals[j]).0
    &&& forall|j: int|
        0 <= j < arrivals.len() ==> (#[trigger] arrivals[j]).0 < outs.len() && arrivals[j].1
            == outs[arrivals[j].0 as int]
}

/// Distinct numbers below `n`, `n` of them, are all the numbers below `n`.
pub proof fn lemma_all_seen<T>(arrivals: Seq<(u64, T)>, outs: Seq<T>, s: u64)
    requires
        tagged_in_some_order(arrivals, outs),
        s < outs.len(),
    ensures
        seen(arrivals, s),
{
    let n = outs.len() as int;
    let numbers = Seq::new(arrivals.len(), |j: int| arrivals[j].0 as int);
    assert forall|i: int, j: int| 0 <= i < numbers.len() && 0 <= j < numbers.len() && i != j implies numbers[i]
        != numbers[j] by {
        assert(arrivals[i].0 != arrivals[j].0);
    }
    assert(numbers.no_duplicates());
    numbers.unique_seq_to_set();
    let range = vstd::set_lib::set_int_range(0, n);
    vstd::set_lib::lemma_int_range(0, n);
    assert(numbers.to_set().subset_of(range)) by {
        assert forall|x: int| #[trigger] numbers.to_set().contains(x) implies range.contains(x) by {
            let i = choose|i: int| 0 <= i < numbers.len() && numbers[i] == x;
            assert(arrivals[i].0 == x);
        }
    }
    vstd::set_lib::lemma_subset_equality(numbers.to_set(), range);
    assert(range.contains(s as int));
    assert(numbers.to_set().contains(s as int));
    let i = choose|i: int| 0 <= i < numbers.len() && numbers[i] == s;
    assert(arrivals[i].0 == s);
}

/// A window of distinct numbers is released wholly: whatever order the items arrive in,
/// once all are in, the buffer has given them out in the order of their tags, and holds
/// nothing.
pub proof fn law_full_window_is_released<T>(cap: nat, arrivals: Seq<(u64, T)>, outs: Seq<T>)
    requires
        tagged_in_some_order(arrivals, outs),
        0 < cap,
        outs.len() <= cap,
        outs.len() < u64::MAX,
    ensures
        fed(cap, arrivals) == (ReorderModel::<T> { pending: Map::empty(), next: outs.len() as u64 }),
        emitted(cap, arrivals) == outs,
{
    assert(distinct_numbers(arrivals));
    assert(within_window(cap, arrivals));
    lemma_fed(cap, arrivals);
    let m = fed(cap, arrivals);
    let n = outs.len();
    if m.next < n {
        lemma_all_seen(arrivals, outs, m.next);
    } else if m.next > n {
        let s = n as u64;
        assert(seen(arrivals, s));
        let j = choose|j: int| 0 <= j < arrivals.len() && (#[trigger] arrivals[j]).0 == s;
    }
    assert(m.next == n);
    assert forall|s: u64| !m.pending.dom().contains(s) by {
        if m.pending.dom().contains(s) {
            assert(seen(arrivals, s));
            let j = choose|j: int| 0 <= j < arrivals.len() && (#[trigger] arrivals[j]).0 == s;
        }
    }
    assert(m.pending =~= Map::empty());
    assert forall|i: int| 0 <= i < n implies #[trigger] emitted(cap, arrivals)[i] == outs[i] by {
        lemma_all_seen(arrivals, outs, i as u64);
        let j = choose|j: int| 0 <= j < arrivals.len() && (#[trigger] arrivals[j]).0 == i as u64;
    }
    assert(emitted(cap, arrivals) =~= outs);
}

/// Input order is restored: whatever order the tagged items arrive in, an
/// ordered collector whose window holds them all returns them in the order of
/// their tags.
pub proof fn law_order_is_restored<T>(cap: nat, arrivals: Seq<(u64, T)>, outs: Seq<T>, result: Seq<T>)
    requires
        tagged_in_some_order(arrivals, outs),
        0 < cap,
        outs.len() <= cap,
        outs.len() < u64::MAX,
        ordered_result(cap, arrivals, result),
    ensures
        result == outs,
{
    law_full_window_is_released(cap, arrivals, outs);
    let m = fed(cap, arrivals);
    let rest = result.skip(outs.len() as int);
    let keys = choose|keys: Seq<u64>| #[trigger] key_order(m.pending, rest, keys);
    if rest.len() > 0 {
        assert(m.pending.dom().contains(keys[0]));
    }
    assert(result =~= result.take(outs.len() as int));
}

/// The items of `outs`, each under its own position, in order.
pub open spec fn tagged<T>(outs: Seq<T>) -> Seq<(u64, T)> {
    Seq::new(outs.len(), |i: int| (i as u64, outs[i]))
}

/// Items that arrive in order are released as they arrive, whatever the window.
pub proof fn law_in_order_passes_through<T>(cap: nat, outs: Seq<T>)
    requires
        cap > 0,
        outs.len() <= u64::MAX,
    ensures
        fed(cap, tagged(outs)) == (ReorderModel::<T> { pending: Map::empty(), next: outs.len() as u64 }),
        emitted(cap, tagged(outs)) == outs,
    decreases outs.len(),
{
    let arrivals = tagged(outs);
    if outs.len() == 0 {
        assert(emitted(cap, arrivals) =~= outs);
    } else {
        let prev = outs.drop_last();
        law_in_order_passes_through(cap, prev);
        assert(arrivals.drop_last() =~= tagged(prev));
        let n = prev.len() as u64;
        let item = outs.last();
        let p = placed(Map::<u64, T>::empty(), cap, n, item);
        assert(run_len(p, (n + 1) as u64) == 0);
        assert(run_len(p, n) == 1);
        assert(run_items(p, n) =~= seq![item]);
        assert(emitted(cap, arrivals) =~= outs);
        assert(fed(cap, arrivals).pending =~= Map::<u64, T>::empty());
    }
}

/// What a collector returns for items that arrive in order is those items.
pub proof fn lemma_ordered_result_in_order<T>(cap: nat, outs: Seq<T>, result: Seq<T>)
    requires
        cap > 0,
        outs.len() <= u64::MAX,
        ordered_result(cap, tagged(outs), result),
    ensures
        result == outs,
{
    law_in_order_passes_through(cap, outs);
    let n = outs.len() as int;
    let rest = result.skip(n);
    let keys = choose|keys: Seq<u64>| #[trigger] key_order(Map::<u64, T>::empty(), rest, keys);
    if rest.len() > 0 {
        assert(Map::<u64, T>::empty().dom().contains(keys[0]));
    }
    assert(result =~= outs);
}

/// The window of a collector always holds up to [`MAX_WINDOW`] expected items.
pub proof fn law_window_holds_expected(n: nat)
    ensures
        0 < window(n) <= MAX_WINDOW,
        n <= MAX_WINDOW ==> n <= window(n),
{
    lemma_next_pow2_bounds(n);
}

/// The number of slots for `n` expected items.
pub fn collect_window(n: usize) -> (cap: usize)
    ensures
        cap == window(n as nat),
        next_pow2(cap as nat) == cap,
{
    proof {
        lemma_window_values();
        lemma_next_pow2_bounds(n as nat);
    }
    if n >= MAX_WINDOW {
        return MAX_WINDOW;
    }
    proof {
        lemma_next_pow2_monotone(n as nat, MAX_WINDOW as nat);
    }
    let cap: usize = next_power_of_two(n);
    proof {
        lemma_pow2_fixed(n as nat);
    }
    cap.max(MIN_WINDOW)
}

/// A power of two is its own next power of two.
proof fn lemma_pow2_fixed(n: nat)
    ensures
        next_pow2(next_pow2(n)) == next_pow2(n),
{
    let k = crate::util::ceil_log2_spec(n);
    let p = next_pow2(n);
    crate::util::lemma_ceil_log2_least(p, k);
    if crate::util::ceil_log2_spec(p) < k {
        let j = crate::util::ceil_log2_spec(p);
        crate::util::lemma_ceil_log2_least(p, j);
        vstd::arithmetic::power2::lemma_pow2_strictly_increases(j, k);
    }
}

proof fn lemma_window_values()
    ensures
        next_pow2(MIN_WINDOW as nat) == MIN_WINDOW,
        next_pow2(MAX_WINDOW as nat) == MAX_WINDOW,
{
    vstd::arithmetic::power2::lemma2_to64();
    crate::util::lemma_ceil_log2_least(MIN_WINDOW as nat, 10);
    crate::util::lemma_ceil_log2_least(MIN_WINDOW as nat, 9);
    crate::util::lemma_ceil_log2_least(MAX_WINDOW as nat, 20);
    crate::util::lemma_ceil_log2_least(MAX_WINDOW as nat, 19);
}

/// Releases `arrivals` in the order of their numbers, with a window sized for
/// `expected_items`.
pub fn collect_ordered<T>(arrivals: Vec<(u64, T)>, expected_items: usize) -> (results: Vec<T>)
    ensures
        ordered_result(window(expected_items as nat), arrivals@, results@),
{
    let mut collector = OrderedCollector::new(expected_items);
    let ghost all = arrivals@;
    assert(all.take(0) =~= Seq::empty());
    for entry in it: arrivals
        invariant
            it.seq() == all,
            collector.wf(),
            collector.slots() == window(expected_items as nat),
            collector@ == all.take(it.index() as int),
    {
        let ghost i = it.index() as int;
        collector.push(entry.0, entry.1);
        assert(all.take(i + 1) =~= all.take(i).push(all[i]));
    }
    assert(all.take(all.len() as int) =~= all);
    collector.finish()
}

/// A collector that is fed one arrival at a time.
pub struct OrderedCollector<T> {
    buffer: ReorderBuffer<T>,
    results: Vec<T>,
    seen: Ghost<Seq<(u64, T)>>,
}

impl<T> View for OrderedCollector<T> {
    type V = Seq<(u64, T)>;

    /// What has arrived, in that order.
    closed spec fn view(&self) -> Seq<(u64, T)> {
        self.seen@
    }
}

impl<T> OrderedCollector<T> {
    /// The number of slots of its window.
    pub closed spec fn slots(&self) -> nat {
        self.buffer.capacity()
    }

    /// The buffer and the results are those of what has arrived.
    pub closed spec fn wf(&self) -> bool {
        &&& self.buffer.wf()
        &&& self.buffer@ == fed(self.slots(), self.seen@)
        &&& self.results@ == emitted(self.slots(), self.seen@)
    }

    /// A collector with a window for `expected_items`.
    pub fn new(expected_items: usize) -> (r: Self)
        ensures
            r.wf(),
            r.slots() == window(expected_items as nat),
            r@ == Seq::<(u64, T)>::empty(),
    {
        let cap: usize = collect_window(expected_items);
        proof {
            law_window_holds_expected(expected_items as nat);
        }
        OrderedCollector { buffer: ReorderBuffer::new(cap), results: Vec::new(), seen: Ghost(Seq::empty()) }
    }

    /// Takes one arrival.
    pub fn push(&mut self, seq: u64, item: T)
        requires
            old(self).wf(),
        ensures
            final(self).wf(),
            final(self).slots() == old(self).slots(),
            final(self)@ == old(self)@.push((seq, item)),
    {
        let ghost next = self.seen@.push((seq, item));
        assert(next.drop_last() =~= self.seen@);
        self.buffer.insert_into(seq, item, &mut self.results);
        self.seen = Ghost(next);
    }

    /// Everything that arrived, in the order of the numbers.
    pub fn finish(self) -> (results: Vec<T>)
        requires
            self.wf(),
        ensures
            ordered_result(self.slots(), self@, results@),
    {
        let mut buffer = self.buffer;
        let mut results = self.results;
        let ghost out = results@;
        let mut rest = buffer.flush_remaining();
        let ghost left = rest@;
        results.append(&mut rest);
        assert(results@.take(out.len() as int) =~= out);
        assert(results@.skip(out.len() as int) =~= left);
        results
    }
}

/// Takes tagged items from `input_rx` until none can come any more, and returns
/// them in the order of their numbers.
///
/// Which items come is up to the senders.
pub fn run_ordered_collect<O: Send + 'static>(
    input_rx: &mut Inlet<(u64, O)>,
    expected_items: usize,
) -> (results: Vec<O>)
    ensures
        old(input_rx).taken().is_prefix_of(final(input_rx).taken()),
        ({
            let arrivals = final(input_rx).taken().skip(old(input_rx).taken().len() as int);
            &&& ordered_result(window(expected_items as nat), arrivals, results@)
            &&& final(input_rx).ended() || arrivals.len() == u64::MAX
        }),
{
    let ghost start = input_rx.taken();
    let mut collector = OrderedCollector::new(expected_items);
    assert(start + collector@ =~= start);
    for round in 0..u64::MAX
        invariant
            start == old(input_rx).taken(),
            input_rx.taken() == start + collector@,
            collector@.len() == round,
            collector.wf(),
            collector.slots() == window(expected_items as nat),
    {
        let ghost arrived = collector@;
        assert((start + arrived).skip(start.len() as int) =~= arrived);
        match input_rx.recv() {
            Ok(entry) => {
                assert(start + arrived.push(entry) =~= (start + arrived).push(entry));
                collector.push(entry.0, entry.1);
            },
            Err(_) => {
                let results = collector.finish();
                return results;
            },
        }
    }
    let ghost arrived = collector@;
    assert((start + arrived).skip(start.len() as int) =~= arrived);
    collector.finish()
}

/// The window is a power of two that is as small as the expected items and the bounds
/// allow.
pub proof fn law_the_window_is_no_larger_than_needed(n: nat)
    ensures
        MIN_WINDOW <= window(n) <= MAX_WINDOW,
        n > MIN_WINDOW ==> window(n) < 2 * n,
        n <= MIN_WINDOW ==> window(n) == MIN_WINDOW,
        n >= MAX_WINDOW ==> window(n) == MAX_WINDOW,
        next_pow2(window(n)) == window(n),
{
    lemma_window_values();
    lemma_next_pow2_bounds(n);
    lemma_pow2_fixed(n);
    if n <= MIN_WINDOW {
        lemma_next_pow2_monotone(n, MIN_WINDOW as nat);
    }
    if n >= MAX_WINDOW {
        lemma_next_pow2_monotone(MAX_WINDOW as nat, n);
    }
}

/// Tagged items are the items, each under its position.
pub proof fn law_a_tag_is_a_position<T>(outs: Seq<T>, i: int)
    requires
        0 <= i < outs.len() <= u64::MAX,
    ensures
        tagged(outs).len() == outs.len(),
        tagged(outs)[i].0 == i,
        tagged(outs)[i].1 == outs[i],
{
}

} // verus!
