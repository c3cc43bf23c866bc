//! Every way in which feeder, workers and collector can take turns.
//!
//! A run over channels is described by the steps its threads take, in the order in
//! which they happen. Whatever that order is, the same results arrive.
use crate::builder::stream_pipeline::{ran, ran_twice, staged};
use crate::state::stream::{
    law_order_is_restored, lemma_all_seen, ordered_result, seen, tagged, tagged_in_some_order,
};
use vstd::multiset::Multiset;
use vstd::prelude::*;

verus! {

/// A step of one of the threads.
pub enum Step<O> {
    /// The feeder sends the next item.
    Feed,
    /// A worker takes the item that was queued first.
    Take,
    /// The worker that holds the given one of the items taken passes on its result.
    Pass { held: nat, out: O },
}

/// Where the items of a run are.
pub ghost struct Run<I, O> {
    /// How many items were fed.
    pub fed: nat,
    /// What waits for a worker.
    pub queued: Seq<(u64, I)>,
    /// What workers hold.
    pub held: Seq<(u64, I)>,
    /// What arrived at the collector, in that order.
    pub arrived: Seq<(u64, O)>,
}

/// Before any step.
pub open spec fn at_start<I, O>() -> Run<I, O> {
    Run { fed: 0, queued: Seq::empty(), held: Seq::empty(), arrived: Seq::empty() }
}

/// Whether `step` can be taken.
pub open spec fn can_step<I, O, F: Fn(I) -> O>(
    stage: F,
    entries: Seq<(u64, I)>,
    run: Run<I, O>,
    step: Step<O>,
) -> bool {
    match step {
        Step::Feed => run.fed < entries.len(),
        Step::Take => run.queued.len() > 0,
        Step::Pass { held, out } => held < run.held.len() && stage.ensures(
            (run.held[held as int].1,),
            out,
        ),
    }
}

/// Where the items are after `step`.
pub open spec fn after_step<I, O>(
    entries: Seq<(u64, I)>,
    run: Run<I, O>,
    step: Step<O>,
) -> Run<I, O> {
    match step {
        Step::Feed => Run {
            fed: run.fed + 1,
            queued: run.queued.push(entries[run.fed as int]),
            ..run
        },
        Step::Take => Run {
            queued: run.queued.remove(0),
            held: run.held.push(run.queued[0]),
            ..run
        },
        Step::Pass { held, out } => Run {
            held: run.held.remove(held as int),
            arrived: run.arrived.push((run.held[held as int].0, out)),
            ..run
        },
    }
}

/// Where the items are after `steps`.
pub open spec fn after_steps<I, O>(entries: Seq<(u64, I)>, steps: Seq<Step<O>>) -> Run<I, O>
    decreases steps.len(),
{
    if steps.len() == 0 {
        at_start()
    } else {
        after_step(entries, after_steps(entries, steps.drop_last()), steps.last())
    }
}

/// Whether the steps can be taken, one after the other.
pub open spec fn schedule<I, O, F: Fn(I) -> O>(
    stage: F,
    entries: Seq<(u64, I)>,
    steps: Seq<Step<O>>,
) -> bool
    decreases steps.len(),
{
    steps.len() == 0 || {
        &&& schedule(stage, entries, steps.drop_last())
        &&& can_step(stage, entries, after_steps(entries, steps.drop_last()), steps.last())
    }
}

/// Whether everything was fed and worked off.
pub open spec fn drained<I, O>(entries: Seq<(u64, I)>, run: Run<I, O>) -> bool {
    run.fed == entries.len() && run.queued.len() == 0 && run.held.len() == 0
}

/// The tags of entries.
spec fn tags<T>(entries: Seq<(u64, T)>) -> Seq<u64> {
    Seq::new(entries.len(), |i: int| entries[i].0)
}

/// Every entry carries the item that its tag stands for.
spec fn carries<I>(items: Seq<I>, entries: Seq<(u64, I)>) -> bool {
    forall|i: int|
        0 <= i < entries.len() ==> (#[trigger] entries[i]).0 < items.len() && entries[i].1
            == items[entries[i].0 as int]
}

/// Every entry that was fed is in one place, under its own tag.
spec fn accounted<I, O, F: Fn(I) -> O>(
    stage: F,
    entries: Seq<(u64, I)>,
    items: Seq<I>,
    run: Run<I, O>,
) -> bool {
    &&& run.fed <= entries.len()
    &&& tags(run.queued).to_multiset().add(tags(run.held).to_multiset()).add(
        tags(run.arrived).to_multiset(),
    ) == tags(entries.take(run.fed as int)).to_multiset()
    &&& carries(items, run.queued)
    &&& carries(items, run.held)
    &&& forall|i: int|
        0 <= i < run.arrived.len() ==> (#[trigger] run.arrived[i]).0 < items.len() && stage.ensures(
            (items[run.arrived[i].0 as int],),
            run.arrived[i].1,
        )
}

proof fn lemma_tags_push<T>(entries: Seq<(u64, T)>, entry: (u64, T))
    ensures
        tags(entries.push(entry)).to_multiset() == tags(entries).to_multiset().insert(entry.0),
{
    broadcast use vstd::seq_lib::group_to_multiset_ensures;

    assert(tags(entries.push(entry)) =~= tags(entries).push(entry.0));
}

proof fn lemma_tags_remove<T>(entries: Seq<(u64, T)>, k: int)
    requires
        0 <= k < entries.len(),
    ensures
        tags(entries.remove(k)).to_multiset() == tags(entries).to_multiset().remove(entries[k].0),
        tags(entries).to_multiset().contains(entries[k].0),
{
    broadcast use vstd::seq_lib::group_to_multiset_ensures;

    assert(tags(entries.remove(k)) =~= tags(entries).remove(k));
    assert(tags(entries)[k] == entries[k].0);
    assert(tags(entries).contains(entries[k].0));
}

proof fn lemma_carries_remove<I>(items: Seq<I>, entries: Seq<(u64, I)>, k: int)
    requires
        carries(items, entries),
        0 <= k < entries.len(),
    ensures
        carries(items, entries.remove(k)),
{
    let rest = entries.remove(k);
    assert forall|i: int| 0 <= i < rest.len() implies (#[trigger] rest[i]).0 < items.len()
        && rest[i].1 == items[rest[i].0 as int] by {
        if i < k {
            assert(rest[i] == entries[i]);
        } else {
            assert(rest[i] == entries[i + 1]);
        }
    }
}

proof fn lemma_accounted<I, O, F: Fn(I) -> O>(
    stage: F,
    entries: Seq<(u64, I)>,
    items: Seq<I>,
    steps: Seq<Step<O>>,
)
    requires
        carries(items, entries),
        schedule(stage, entries, steps),
    ensures
        accounted(stage, entries, items, after_steps(entries, steps)),
    decreases steps.len(),
{
    broadcast use vstd::multiset::group_multiset_axioms;

    let now = after_steps(entries, steps);
    if steps.len() == 0 {
        broadcast use vstd::seq_lib::group_to_multiset_ensures;

        assert(tags(now.queued) =~= Seq::<u64>::empty());
        assert(tags(now.held) =~= Seq::<u64>::empty());
        assert(tags(now.arrived) =~= Seq::<u64>::empty());
        assert(tags(entries.take(0)) =~= Seq::<u64>::empty());
        let none = Seq::<u64>::empty().to_multiset();
        assert(none.len() == 0);
        assert(none =~= Multiset::empty());
        assert(none.add(none).add(none) =~= none);
    } else {
        lemma_accounted(stage, entries, items, steps.drop_last());
        let run = after_steps(entries, steps.drop_last());
        let q = tags(run.queued).to_multiset();
        let h = tags(run.held).to_multiset();
        let a = tags(run.arrived).to_multiset();
        match steps.last() {
            Step::Feed => {
                let k = run.fed as int;
                let entry = entries[k];
                lemma_tags_push(run.queued, entry);
                lemma_tags_push(entries.take(k), entry);
                assert(entries.take(k + 1) =~= entries.take(k).push(entry));
                assert(q.insert(entry.0).add(h).add(a) =~= q.add(h).add(a).insert(entry.0));
            },
            Step::Take => {
                let entry = run.queued[0];
                lemma_tags_push(run.held, entry);
                lemma_tags_remove(run.queued, 0);
                lemma_carries_remove(items, run.queued, 0);
                assert(q.remove(entry.0).add(h.insert(entry.0)).add(a) =~= q.add(h).add(a));
            },
            Step::Pass { held, out } => {
                let k = held as int;
                let entry = run.held[k];
                lemma_tags_push(run.arrived, (entry.0, out));
                lemma_tags_remove(run.held, k);
                lemma_carries_remove(items, run.held, k);
                assert(q.add(h.remove(entry.0)).add(a.insert(entry.0)) =~= q.add(h).add(a));
            },
        }
    }
}

/// The result that arrived under tag `s`.
spec fn result_of<O>(arrived: Seq<(u64, O)>, s: int) -> O {
    arrived[choose|j: int| 0 <= j < arrived.len() && (#[trigger] arrived[j]).0 == s].1
}

/// Whatever order the items are fed in, and whatever order feeder and workers take
/// turns in: once all is worked off, every item has arrived exactly once, under its
/// own tag, as a result of the stage.
pub proof fn law_every_schedule_delivers<I, O, F: Fn(I) -> O>(
    stage: F,
    entries: Seq<(u64, I)>,
    items: Seq<I>,
    steps: Seq<Step<O>>,
) -> (outs: Seq<O>)
    requires
        items.len() <= u64::MAX,
        tagged_in_some_order(entries, items),
        schedule(stage, entries, steps),
        drained(entries, after_steps(entries, steps)),
    ensures
        outs.len() == items.len(),
        staged(stage, items, outs),
        tagged_in_some_order(after_steps(entries, steps).arrived, outs),
{
    broadcast use vstd::multiset::group_multiset_axioms;
    broadcast use vstd::seq_lib::group_to_multiset_ensures;

    lemma_accounted(stage, entries, items, steps);
    let run = after_steps(entries, steps);
    let arrived = run.arrived;
    let n = items.len();
    assert(tags(run.queued) =~= Seq::<u64>::empty());
    assert(tags(run.held) =~= Seq::<u64>::empty());
    assert(entries.take(n as int) =~= entries);
    let all = tags(arrived).to_multiset();
    assert(Multiset::<u64>::empty().add(Multiset::empty()).add(all) =~= all);
    assert(all == tags(entries).to_multiset());
    assert(tags(arrived).len() == n) by {
        assert(all.len() == tags(entries).len());
    }
    assert forall|i: int, j: int| 0 <= i < n && 0 <= j < n && i != j implies #[trigger] tags(
        entries,
    )[i] != #[trigger] tags(entries)[j] by {
        assert(entries[i].0 != entries[j].0);
    }
    assert(tags(entries).no_duplicates());
    tags(entries).lemma_multiset_has_no_duplicates();
    tags(arrived).lemma_multiset_has_no_duplicates_conv();
    assert forall|i: int, j: int| 0 <= i < j < arrived.len() implies (#[trigger] arrived[i]).0 != (
    #[trigger] arrived[j]).0 by {
        assert(tags(arrived)[i] != tags(arrived)[j]);
    }
    assert forall|s: int| 0 <= s < n implies seen(arrived, #[trigger] (s as u64)) by {
        lemma_all_seen(entries, items, s as u64);
        let k = choose|k: int| 0 <= k < entries.len() && (#[trigger] entries[k]).0 == s as u64;
        assert(tags(entries)[k] == s as u64);
        assert(tags(entries).contains(s as u64));
        assert(all.contains(s as u64));
        assert(tags(arrived).contains(s as u64));
        let j = tags(arrived).index_of(s as u64);
        assert(arrived[j].0 == s as u64);
    }
    let outs = Seq::new(n, |s: int| result_of(arrived, s));
    assert forall|j: int| 0 <= j < arrived.len() implies (#[trigger] arrived[j]).0 < n && arrived[j].1
        == outs[arrived[j].0 as int] by {
        let s = arrived[j].0 as int;
        let k = choose|k: int| 0 <= k < arrived.len() && (#[trigger] arrived[k]).0 == s;
        assert(arrived[j].0 == s);
        assert(k == j);
    }
    assert forall|s: int| 0 <= s < n implies stage.ensures((items[s],), #[trigger] outs[s]) by {
        assert(seen(arrived, s as u64));
        let k = choose|k: int| 0 <= k < arrived.len() && (#[trigger] arrived[k]).0 == s as u64;
        assert(arrived[k].0 == s);
        assert(outs[s] == arrived[k].1);
    }
    outs
}

/// Items tagged by position are tagged in some order.
proof fn lemma_tagged_in_order<I>(items: Seq<I>)
    requires
        items.len() <= u64::MAX,
    ensures
        tagged_in_some_order(tagged(items), items),
{
}

/// Ordered output does not depend on the schedule: an ordered collector whose
/// window holds all items returns their results in item order, whatever order
/// feeder and workers take turns in.
pub proof fn law_ordered_output_is_schedule_free<I, O, F: Fn(I) -> O>(
    stage: F,
    items: Seq<I>,
    steps: Seq<Step<O>>,
    cap: nat,
    result: Seq<O>,
)
    requires
        schedule(stage, tagged(items), steps),
        drained(tagged(items), after_steps(tagged(items), steps)),
        0 < cap,
        items.len() <= cap,
        items.len() < u64::MAX,
        ordered_result(cap, after_steps(tagged(items), steps).arrived, result),
    ensures
        result.len() == items.len(),
        staged(stage, items, result),
{
    lemma_tagged_in_order(items);
    let outs = law_every_schedule_delivers(stage, tagged(items), items, steps);
    law_order_is_restored(cap, after_steps(tagged(items), steps).arrived, outs, result);
}

/// Nor does it with two stages: what the second stage is fed is what arrived from
/// the first, in the order in which it did, and the collector still returns the
/// results in item order.
pub proof fn law_two_stages_are_schedule_free<I, M, O, F: Fn(I) -> M, G: Fn(M) -> O>(
    first: F,
    second: G,
    items: Seq<I>,
    steps1: Seq<Step<M>>,
    steps2: Seq<Step<O>>,
    cap: nat,
    result: Seq<O>,
)
    requires
        ({
            let mid = after_steps(tagged(items), steps1).arrived;
            &&& schedule(first, tagged(items), steps1)
            &&& drained(tagged(items), after_steps(tagged(items), steps1))
            &&& schedule(second, mid, steps2)
            &&& drained(mid, after_steps(mid, steps2))
            &&& ordered_result(cap, after_steps(mid, steps2).arrived, result)
        }),
        0 < cap,
        items.len() <= cap,
        items.len() < u64::MAX,
    ensures
        result.len() == items.len(),
        ran_twice(first, second, items, result, true),
{
    lemma_tagged_in_order(items);
    let mid = after_steps(tagged(items), steps1).arrived;
    let mids = law_every_schedule_delivers(first, tagged(items), items, steps1);
    let outs = law_every_schedule_delivers(second, mid, mids, steps2);
    law_order_is_restored(cap, after_steps(mid, steps2).arrived, outs, result);
    assert(ran(second, mids, result, true));
}

/// Unordered output holds the same results whatever the schedule: what arrives is
/// a reordering of the results in item order.
pub proof fn law_unordered_output_is_a_reordering<O>(arrivals: Seq<(u64, O)>, outs: Seq<O>)
    requires
        tagged_in_some_order(arrivals, outs),
        outs.len() <= u64::MAX,
    ensures
        Seq::new(arrivals.len(), |i: int| arrivals[i].1).to_multiset() == outs.to_multiset(),
    decreases outs.len(),
{
    broadcast use vstd::seq_lib::group_to_multiset_ensures;
    broadcast use vstd::multiset::group_multiset_axioms;

    let values = Seq::new(arrivals.len(), |i: int| arrivals[i].1);
    if outs.len() == 0 {
        assert(values =~= outs);
    } else {
        let last = (outs.len() - 1) as nat;
        lemma_all_seen(arrivals, outs, last as u64);
        let k = choose|k: int| 0 <= k < arrivals.len() && (#[trigger] arrivals[k]).0 == last as u64;
        let rest = arrivals.remove(k);
        let prev = outs.drop_last();
        assert forall|j: int| 0 <= j < rest.len() implies (#[trigger] rest[j]).0 < prev.len()
            && rest[j].1 == prev[rest[j].0 as int] by {
            let i = if j < k {
                j
            } else {
                j + 1
            };
            assert(rest[j] == arrivals[i]);
            assert(arrivals[i].0 != arrivals[k].0);
        }
        assert forall|i: int, j: int| 0 <= i < j < rest.len() implies (#[trigger] rest[i]).0 != (
        #[trigger] rest[j]).0 by {
            let a = if i < k {
                i
            } else {
                i + 1
            };
            let b = if j < k {
                j
            } else {
                j + 1
            };
            assert(rest[i] == arrivals[a] && rest[j] == arrivals[b]);
            assert(arrivals[a].0 != arrivals[b].0);
        }
        law_unordered_output_is_a_reordering(rest, prev);
        let kept = Seq::new(rest.len(), |i: int| rest[i].1);
        assert(kept =~= values.remove(k));
        assert(outs =~= prev.push(outs[last as int]));
        assert(values[k] == outs[last as int]);
        assert(values.contains(values[k]));
        assert(values.to_multiset() =~= kept.to_multiset().insert(values[k]));
    }
}

} // verus!
