//! Streaming runs on one thread: feeder, workers and collector take turns over
//! bounded channels.
use crate::builder::steps::{
    Logged, Step, RunLog, advanced, calls, lemma_advanced_alone, lemma_advanced_joins,
    lemma_advanced_since, lemma_only_firsts, lemma_steps_join, looked_first, steps_of,
};
use crate::builder::stream_pipeline::{chained, least, stage_accepts, staged};
use crate::builder::stream_workers::since;
use crate::handoff::channel::{OwnedChannel, TrySendError, capacity_fits};
use crate::state::fence::{
    FenceBarrier, FenceMode, fenced, law_barrier_holds_everything, law_fence_keeps_items,
    lemma_fenced_push,
};
use crate::sync::cancel::{
    kept_stopped, lemma_watched_joins, lemma_watched_nothing, saw_clear, saw_set, watched,
};
use crate::sync::CancellationToken;
use crate::sync::watch::Stops;
use vstd::prelude::*;

verus! {

/// What a record holds is what it held, with what was added.
proof fn lemma_added<T>(before: Seq<T>, after: Seq<T>)
    requires
        before.is_prefix_of(after),
    ensures
        after == before + since(before, after),
{
    assert(after =~= before + since(before, after));
}

/// Results for some items and then for those that follow are results for all.
proof fn lemma_staged_joins<I, O, F: Fn(I) -> O>(
    stage: F,
    items: Seq<I>,
    outs: Seq<O>,
    rest: Seq<I>,
    more: Seq<O>,
)
    requires
        staged(stage, items, outs),
        outs.len() + rest.len() <= items.len(),
        rest == items.subrange(outs.len() as int, (outs.len() + rest.len()) as int),
        staged(stage, rest, more),
    ensures
        staged(stage, items, outs + more),
{
    let all = outs + more;
    assert forall|i: int| 0 <= i < all.len() implies stage.ensures((items[i],), #[trigger] all[i]) by {
        if i >= outs.len() {
            let j = i - outs.len();
            assert(all[i] == more[j]);
            assert(rest[j] == items[i]);
        } else {
            assert(all[i] == outs[i]);
        }
    }
}

/// One turn of the workers: each takes the oldest item there is, works on it and
/// passes the result on, which finds room. Returns how many items were worked on,
/// or nothing where the run was stopped before a worker began with its item.
fn work_turn<I: Send + 'static, O: Send + 'static, F: Fn(I) -> O, C: Stops>(
    input: &mut OwnedChannel<I>,
    output: &mut OwnedChannel<O>,
    workers: usize,
    cancel: &C,
    stage: &Logged<F>,
    log: &mut RunLog,
) -> (moved: Option<usize>)
    requires
        stage_accepts(stage.func(), old(input)@),
        old(output)@.len() + workers <= old(output).limit(),
    ensures
        final(input).limit() == old(input).limit(),
        final(output).limit() == old(output).limit(),
        old(output)@.is_prefix_of(final(output)@),
        staged(stage.func(), old(input)@, since(old(output)@, final(output)@)),
        final(output)@.len() <= old(output)@.len() + workers,
        moved matches Some(n) ==> {
            &&& n == since(old(output)@, final(output)@).len()
            &&& n == least(workers as nat, old(input)@.len())
            &&& final(input)@ == old(input)@.skip(n as int)
        },
        !saw_set(old(log).uses@, final(log).uses@) ==> moved is Some,
        final(log)@ == old(log)@ + steps_of(
            stage.step(),
            since(old(output)@, final(output)@).len(),
        ),
        kept_stopped(cancel.token(), old(log).uses@, final(log).uses@) ==> final(output)@ == old(output)@,
        watched(cancel.token(), old(log).uses@, final(log).uses@),
        looked_first(
            cancel.token(),
            old(log)@,
            old(log).uses@,
            final(log)@,
            final(log).uses@,
        ),
{
    let ghost ins = input@;
    let ghost before = output@;
    let ghost mut outs: Seq<O> = Seq::empty();
    let ghost logged = log@;
    let ghost seen = log.uses@;
    proof {
        assert(before + outs =~= before);
        lemma_steps_join(logged, stage.step(), 0, 0);
        lemma_watched_nothing(cancel.token(), seen);
    }
    for worker in 0..workers
        invariant
            ins == old(input)@,
            before == old(output)@,
            stage_accepts(stage.func(), ins),
            input.limit() == old(input).limit(),
            output.limit() == old(output).limit(),
            before.len() + workers <= output.limit(),
            outs.len() == worker,
            staged(stage.func(), ins, outs),
            input@ == ins.skip(worker as int),
            output@ == before + outs,
            logged == old(log)@,
            log@ == logged + steps_of(stage.step(), outs.len()),
            seen == old(log).uses@,
            watched(cancel.token(), seen, log.uses@),
            looked_first(cancel.token(), old(log)@, old(log).uses@, log@, log.uses@),
            kept_stopped(cancel.token(), seen, log.uses@) ==> outs.len() == 0,
    {
        proof {
            assert(since(before, output@) =~= outs);
            if outs.len() == 0 {
                assert(output@ =~= before);
            }
        }
        match input.try_recv() {
            Ok(item) => {
                let ghost asked = log.uses@;
                let stop: bool = log.look(cancel);
                proof {
                    lemma_watched_joins(cancel.token(), seen, asked, log.uses@);
                }
                if stop {
                    return None;
                }
                assert(item == ins[worker as int]);
                let out = stage.call(item, log);
                let _sent = output.try_send(out);
                proof {
                    assert((before + outs).push(out) =~= before + outs.push(out));
                    lemma_steps_join(logged, stage.step(), outs.len(), 0);
                    outs = outs.push(out);
                    assert(input@ =~= ins.skip(worker + 1));
                }
            },
            Err(_) => {
                return Some(worker);
            },
        }
    }
    proof {
        assert(since(before, output@) =~= outs);
        if outs.len() == 0 {
            assert(output@ =~= before);
        }
    }
    Some(workers)
}

/// The collector's turn: takes everything that arrived.
fn collect_turn<O: Send + 'static>(output: &mut OwnedChannel<O>, results: &mut Vec<O>)
    ensures
        final(output).limit() == old(output).limit(),
        final(output)@ == Seq::<O>::empty(),
        final(results)@ == old(results)@ + old(output)@,
{
    let ghost all = output@;
    let ghost start = results@;
    let ghost mut n: int = 0;
    assert(start + all.take(0) =~= start);
    loop
        invariant_except_break
            0 <= n <= all.len(),
            output@ == all.skip(n),
            results@ == start + all.take(n),
        invariant
            output.limit() == old(output).limit(),
        ensures
            output@ == Seq::<O>::empty(),
            results@ == start + all,
        decreases output@.len(),
    {
        match output.try_recv() {
            Ok(out) => {
                results.push(out);
                proof {
                    assert(output@ =~= all.skip(n + 1));
                    assert((start + all.take(n)).push(out) =~= start + all.take(n + 1));
                    n = n + 1;
                }
            },
            Err(_) => {
                proof {
                    assert(all.take(n) =~= all);
                }
                break ;
            },
        }
    }
}

/// Workers and collector take turns until no item waits any more. Returns whether
/// that is so; else the run was stopped.
fn work_off<I: Send + 'static, O: Send + 'static, F: Fn(I) -> O, C: Stops>(
    input: &mut OwnedChannel<I>,
    output: &mut OwnedChannel<O>,
    results: &mut Vec<O>,
    workers: usize,
    cancel: &C,
    stage: &Logged<F>,
    log: &mut RunLog,
) -> (done: bool)
    requires
        stage_accepts(stage.func(), old(input)@),
        old(output)@ == Seq::<O>::empty(),
        0 < workers <= old(output).limit(),
    ensures
        final(input).limit() == old(input).limit(),
        final(output).limit() == old(output).limit(),
        final(output)@ == Seq::<O>::empty(),
        old(results)@.is_prefix_of(final(results)@),
        staged(stage.func(), old(input)@, since(old(results)@, final(results)@)),
        done ==> final(input)@ == Seq::<I>::empty(),
        done ==> since(old(results)@, final(results)@).len() == old(input)@.len(),
        !saw_set(old(log).uses@, final(log).uses@) ==> done,
        final(log)@ == old(log)@ + steps_of(
            stage.step(),
            since(old(results)@, final(results)@).len(),
        ),
        kept_stopped(cancel.token(), old(log).uses@, final(log).uses@)
            ==> final(results)@ == old(results)@,
        watched(cancel.token(), old(log).uses@, final(log).uses@),
        looked_first(
            cancel.token(),
            old(log)@,
            old(log).uses@,
            final(log)@,
            final(log).uses@,
        ),
{
    let ghost ins = input@;
    let ghost start = results@;
    let ghost mut outs: Seq<O> = Seq::empty();
    let ghost logged = log@;
    let ghost seen = log.uses@;
    proof {
        assert(start + outs =~= start);
        lemma_steps_join(logged, stage.step(), 0, 0);
        lemma_watched_nothing(cancel.token(), seen);
    }
    loop
        invariant
            ins == old(input)@,
            start == old(results)@,
            stage_accepts(stage.func(), ins),
            input.limit() == old(input).limit(),
            output.limit() == old(output).limit(),
            0 < workers <= output.limit(),
            output@ == Seq::<O>::empty(),
            staged(stage.func(), ins, outs),
            input@ == ins.skip(outs.len() as int),
            results@ == start + outs,
            logged == old(log)@,
            log@ == logged + steps_of(stage.step(), outs.len()),
            seen == old(log).uses@,
            watched(cancel.token(), seen, log.uses@),
            looked_first(cancel.token(), old(log)@, old(log).uses@, log@, log.uses@),
            kept_stopped(cancel.token(), seen, log.uses@) ==> outs.len() == 0,
        decreases input@.len(),
    {
        let ghost waiting = input@;
        let ghost seen1 = log.uses@;
        let moved = work_turn(input, output, workers, cancel, stage, log);
        let ghost more = output@;
        collect_turn(output, results);
        proof {
            lemma_watched_joins(cancel.token(), seen, seen1, log.uses@);
            assert(since(Seq::<O>::empty(), more) =~= more);
            lemma_staged_joins(stage.func(), ins, outs, waiting, more);
            assert(results@ =~= start + (outs + more));
            assert(since(start, results@) =~= outs + more);
            lemma_steps_join(logged, stage.step(), outs.len(), more.len());
            if (outs + more).len() == 0 {
                assert(results@ =~= start);
            }
        }
        match moved {
            Some(n) => {
                proof {
                    outs = outs + more;
                    assert(input@ =~= ins.skip(outs.len() as int));
                }
                if n < workers {
                    return true;
                }
            },
            None => {
                return false;
            },
        }
    }
}

/// Puts an item into a channel where there is room.
fn offer<I: Send + 'static>(chan: &mut OwnedChannel<I>, item: I) -> (back: Option<I>)
    ensures
        final(chan).limit() == old(chan).limit(),
        old(chan)@.len() < old(chan).limit() ==> back is None && final(chan)@ == old(chan)@.push(
            item,
        ),
        old(chan)@.len() >= old(chan).limit() ==> back == Some(item) && final(chan)@ == old(chan)@,
{
    match chan.try_send(item) {
        Ok(_) => None,
        Err(TrySendError::Full(back)) => Some(back),
        Err(TrySendError::Closed(back)) => Some(back),
    }
}

/// Sends `items` through one stage: a feeder puts them in, and workers and collector
/// get their turn whenever there is no room, and at the end. The workers stop where
/// `cancel` is signalled, and so does the feeder if `feeding` asks for that. Returns
/// whether the workers went on to the end.
fn send_through<I: Send + 'static, O: Send + 'static, F: Fn(I) -> O, C: Stops>(
    items: Vec<I>,
    feeding: bool,
    input: &mut OwnedChannel<I>,
    output: &mut OwnedChannel<O>,
    results: &mut Vec<O>,
    workers: usize,
    cancel: &C,
    stage: &Logged<F>,
    log: &mut RunLog,
) -> (done: bool)
    requires
        stage_accepts(stage.func(), items@),
        old(input)@ == Seq::<I>::empty(),
        old(output)@ == Seq::<O>::empty(),
        0 < old(input).limit(),
        0 < workers <= old(output).limit(),
    ensures
        final(input).limit() == old(input).limit(),
        final(output).limit() == old(output).limit(),
        final(output)@ == Seq::<O>::empty(),
        old(results)@.is_prefix_of(final(results)@),
        staged(stage.func(), items@, since(old(results)@, final(results)@)),
        done ==> final(input)@ == Seq::<I>::empty(),
        done && (feeding
            ==> !saw_set(old(log).uses@, final(log).uses@)) ==> since(old(results)@, final(results)@).len() == items@.len(),
        !saw_set(old(log).uses@, final(log).uses@) ==> done,
        final(log)@ == old(log)@ + steps_of(
            stage.step(),
            since(old(results)@, final(results)@).len(),
        ),
        kept_stopped(cancel.token(), old(log).uses@, final(log).uses@)
            ==> final(results)@ == old(results)@,
        watched(cancel.token(), old(log).uses@, final(log).uses@),
        looked_first(
            cancel.token(),
            old(log)@,
            old(log).uses@,
            final(log)@,
            final(log).uses@,
        ),
{
    let ghost all = items@;
    let ghost start = results@;
    let ghost mut outs: Seq<O> = Seq::empty();
    let ghost mut fed: int = 0;
    let ghost logged = log@;
    let ghost seen = log.uses@;
    proof {
        assert(start + outs =~= start);
        lemma_steps_join(logged, stage.step(), 0, 0);
        lemma_watched_nothing(cancel.token(), seen);
    }
    for item in it: items
        invariant_except_break
            fed == it.index(),
        invariant
            it.seq() == all,
            all == items@,
            start == old(results)@,
            stage_accepts(stage.func(), all),
            input.limit() == old(input).limit(),
            output.limit() == old(output).limit(),
            0 < input.limit(),
            0 < workers <= output.limit(),
            output@ == Seq::<O>::empty(),
            results@ == start + outs,
            outs.len() <= fed <= all.len(),
            input@ == all.subrange(outs.len() as int, fed),
            staged(stage.func(), all, outs),
            logged == old(log)@,
            log@ == logged + steps_of(stage.step(), outs.len()),
            seen == old(log).uses@,
            watched(cancel.token(), seen, log.uses@),
            looked_first(cancel.token(), old(log)@, old(log).uses@, log@, log.uses@),
            feeding && kept_stopped(cancel.token(), seen, log.uses@) ==> fed == 0,
            kept_stopped(cancel.token(), seen, log.uses@) ==> outs.len() == 0,
        ensures
            (feeding ==> !saw_set(seen, log.uses@)) ==> fed == all.len(),
    {
        if feeding {
            let ghost asked = log.uses@;
            let stop: bool = log.look(cancel);
            proof {
                lemma_watched_joins(cancel.token(), seen, asked, log.uses@);
            }
            if stop {
                break ;
            }
        }
        match offer(input, item) {
            None => {},
            Some(back) => {
                let ghost waiting = input@;
                let ghost before = results@;
                let ghost seen1 = log.uses@;
                let done = work_off(input, output, results, workers, cancel, stage, log);
                proof {
                    lemma_watched_joins(cancel.token(), seen, seen1, log.uses@);
                    let more = since(before, results@);
                    lemma_added(before, results@);
                    lemma_staged_joins(stage.func(), all, outs, waiting, more);
                    assert(results@ =~= start + (outs + more));
                    assert(since(start, results@) =~= outs + more);
                    lemma_steps_join(logged, stage.step(), outs.len(), more.len());
                    if (outs + more).len() == 0 {
                        assert(results@ =~= start);
                    }
                    outs = outs + more;
                }
                if !done {
                    return false;
                }
                let _sent = offer(input, back);
            },
        }
        proof {
            fed = fed + 1;
            assert(input@ =~= all.subrange(outs.len() as int, fed));
        }
    }
    let ghost waiting = input@;
    let ghost before = results@;
    let ghost seen1 = log.uses@;
    let done = work_off(input, output, results, workers, cancel, stage, log);
    proof {
        lemma_watched_joins(cancel.token(), seen, seen1, log.uses@);
        let more = since(before, results@);
        lemma_added(before, results@);
        lemma_staged_joins(stage.func(), all, outs, waiting, more);
        assert(results@ =~= start + (outs + more));
        assert(since(start, results@) =~= outs + more);
        lemma_steps_join(logged, stage.step(), outs.len(), more.len());
        if (outs + more).len() == 0 {
            assert(results@ =~= start);
        }
    }
    done
}

/// A run of one stage: `workers` workers between two channels for `capacity` items.
/// The workers stop where `cancel` is signalled, and so does the feeder if `feeding` asks
/// for that.
pub fn run_one_stage<I: Send + 'static, O: Send + 'static, F: Fn(I) -> O, C: Stops>(
    items: Vec<I>,
    feeding: bool,
    workers: usize,
    capacity: usize,
    cancel: &C,
    stage: &Logged<F>,
    log: &mut RunLog,
) -> (r: Vec<O>)
    requires
        stage_accepts(stage.func(), items@),
        capacity_fits(capacity as nat),
        workers <= capacity,
    ensures
        staged(stage.func(), items@, r@),
        !saw_set(old(log).uses@, final(log).uses@) && workers > 0 ==> r@.len() == items@.len(),
        workers == 0 ==> r@.len() == 0,
        kept_stopped(cancel.token(), old(log).uses@, final(log).uses@) ==> r@.len() == 0,
        final(log)@ == old(log)@ + steps_of(stage.step(), r@.len()),
        watched(cancel.token(), old(log).uses@, final(log).uses@),
        looked_first(
            cancel.token(),
            old(log)@,
            old(log).uses@,
            final(log)@,
            final(log).uses@,
        ),
{
    let mut results: Vec<O> = Vec::new();
    if workers == 0 {
        proof {
            lemma_steps_join(log@, stage.step(), 0, 0);
            lemma_watched_nothing(cancel.token(), log.uses@);
        }
        return results;
    }
    let mut input: OwnedChannel<I> = OwnedChannel::new(capacity);
    let mut output: OwnedChannel<O> = OwnedChannel::new(capacity);
    let _done = send_through(
        items,
        feeding,
        &mut input,
        &mut output,
        &mut results,
        workers,
        cancel,
        stage,
        log,
    );
    assert(since(Seq::<O>::empty(), results@) =~= results@);
    results
}

/// The workers of a first stage and of a second, and the capacity of each channel
/// round them.
pub struct TwoStages {
    pub first: usize,
    pub second: usize,
    pub capacity: usize,
}

impl TwoStages {
    /// Both stages have workers, and a channel has room for a turn of them.
    pub open spec fn fits(&self) -> bool {
        &&& capacity_fits(self.capacity as nat)
        &&& 0 < self.first <= self.capacity
        &&& 0 < self.second <= self.capacity
    }
}

/// What a second stage accepts goes on being accepted while results of the first
/// are added.
proof fn lemma_second_accepts<I, M, O, F: Fn(I) -> M, G: Fn(M) -> O>(
    first: F,
    second: G,
    items: Seq<I>,
    mids: Seq<M>,
)
    requires
        chained(first, second, items),
        staged(first, items, mids),
    ensures
        stage_accepts(second, mids),
{
    assert forall|i: int| 0 <= i < mids.len() implies second.requires((#[trigger] mids[i],)) by {
        assert(first.ensures((items[i],), mids[i]));
    }
}

/// Both stages and the collector take turns until no item waits any more. Returns
/// what the first stage made of the items, and whether nothing waits; else the run
/// was stopped.
fn work_off_both<
    I: Send + 'static,
    M: Send + 'static,
    O: Send + 'static,
    F: Fn(I) -> M,
    G: Fn(M) -> O,
    C: Stops,
>(
    input: &mut OwnedChannel<I>,
    mid: &mut OwnedChannel<M>,
    output: &mut OwnedChannel<O>,
    results: &mut Vec<O>,
    workers: &TwoStages,
    cancel: &C,
    stage1: &Logged<F>,
    stage2: &Logged<G>,
    log: &mut RunLog,
) -> (r: (Ghost<Seq<M>>, bool))
    requires
        chained(stage1.func(), stage2.func(), old(input)@),
        old(mid)@ == Seq::<M>::empty(),
        old(output)@ == Seq::<O>::empty(),
        0 < workers.first <= old(mid).limit(),
        0 < workers.second <= old(output).limit(),
        stage1.step() == Step::First,
        stage2.step() == Step::Second,
    ensures
        final(input).limit() == old(input).limit(),
        final(mid).limit() == old(mid).limit(),
        final(output).limit() == old(output).limit(),
        final(output)@ == Seq::<O>::empty(),
        old(results)@.is_prefix_of(final(results)@),
        staged(stage1.func(), old(input)@, r.0@),
        staged(stage2.func(), r.0@, since(old(results)@, final(results)@)),
        r.1 ==> {
            &&& final(input)@ == Seq::<I>::empty()
            &&& final(mid)@ == Seq::<M>::empty()
            &&& r.0@.len() == old(input)@.len()
            &&& since(old(results)@, final(results)@).len() == r.0@.len()
        },
        !saw_set(old(log).uses@, final(log).uses@) ==> r.1,
        advanced(
            old(log)@,
            final(log)@,
            r.0@.len(),
            since(old(results)@, final(results)@).len(),
        ),
        kept_stopped(cancel.token(), old(log).uses@, final(log).uses@)
            ==> r.0@.len() == 0 && final(results)@ == old(results)@,
        watched(cancel.token(), old(log).uses@, final(log).uses@),
        looked_first(
            cancel.token(),
            old(log)@,
            old(log).uses@,
            final(log)@,
            final(log).uses@,
        ),
{
    let ghost ins = input@;
    let ghost start = results@;
    let ghost mut mids: Seq<M> = Seq::empty();
    let ghost mut outs: Seq<O> = Seq::empty();
    let ghost logged = log@;
    let ghost seen = log.uses@;
    proof {
        assert(start + outs =~= start);
        lemma_watched_nothing(cancel.token(), seen);
    }
    loop
        invariant
            ins == old(input)@,
            start == old(results)@,
            chained(stage1.func(), stage2.func(), ins),
            input.limit() == old(input).limit(),
            mid.limit() == old(mid).limit(),
            output.limit() == old(output).limit(),
            0 < workers.first <= mid.limit(),
            0 < workers.second <= output.limit(),
            mid@ == Seq::<M>::empty(),
            output@ == Seq::<O>::empty(),
            staged(stage1.func(), ins, mids),
            staged(stage2.func(), mids, outs),
            outs.len() == mids.len(),
            input@ == ins.skip(mids.len() as int),
            results@ == start + outs,
            stage1.step() == Step::First,
            stage2.step() == Step::Second,
            logged == old(log)@,
            advanced(logged, log@, mids.len(), outs.len()),
            seen == old(log).uses@,
            watched(cancel.token(), seen, log.uses@),
            looked_first(cancel.token(), old(log)@, old(log).uses@, log@, log.uses@),
            kept_stopped(cancel.token(), seen, log.uses@) ==> mids.len() == 0,
        decreases input@.len(),
    {
        let ghost waiting = input@;
        let ghost before = results@;
        let ghost logged1 = log@;
        let ghost seen1 = log.uses@;
        let moved = work_turn(input, mid, workers.first, cancel, stage1, log);
        let ghost logged2 = log@;
        let ghost seen2 = log.uses@;
        let ghost next = mid@;
        proof {
            assert(since(Seq::<M>::empty(), next) =~= next);
            lemma_staged_joins(stage1.func(), ins, mids, waiting, next);
            lemma_second_accepts(stage1.func(), stage2.func(), ins, mids + next);
            assert forall|i: int| 0 <= i < next.len() implies stage2.func().requires((#[trigger] next[i],)) by {
                assert((mids + next)[mids.len() + i] == next[i]);
            }
        }
        let done = work_off(mid, output, results, workers.second, cancel, stage2, log);
        proof {
            lemma_watched_joins(cancel.token(), seen1, seen2, log.uses@);
            lemma_watched_joins(cancel.token(), seen, seen1, log.uses@);
            let more = since(before, results@);
            lemma_added(before, results@);
            assert(next =~= (mids + next).subrange(outs.len() as int, (mids + next).len() as int));
            assert forall|i: int| 0 <= i < outs.len() implies stage2.func().ensures(
                ((mids + next)[i],),
                #[trigger] outs[i],
            ) by {
                assert((mids + next)[i] == mids[i]);
            }
            lemma_staged_joins(stage2.func(), mids + next, outs, next, more);
            assert(results@ =~= start + (outs + more));
            assert(since(start, results@) =~= outs + more);
            lemma_advanced_alone(logged1, Step::First, next.len());
            lemma_advanced_alone(logged2, Step::Second, more.len());
            lemma_advanced_joins(logged1, logged2, log@, next.len(), 0, 0, more.len());
            lemma_advanced_joins(
                logged,
                logged1,
                log@,
                mids.len(),
                outs.len(),
                next.len(),
                more.len(),
            );
            mids = mids + next;
            outs = outs + more;
            if outs.len() == 0 {
                assert(results@ =~= start);
            }
        }
        match moved {
            Some(n) => {
                assert(input@ =~= ins.skip(mids.len() as int));
                if !done {
                    return (Ghost(mids), false);
                }
                if n < workers.first {
                    return (Ghost(mids), true);
                }
            },
            None => {
                return (Ghost(mids), false);
            },
        }
    }
}

/// `r` are results of `second` for results of `first` for the first items, in order.
pub open spec fn staged_twice<I, M, O, F: Fn(I) -> M, G: Fn(M) -> O>(
    first: F,
    second: G,
    items: Seq<I>,
    r: Seq<O>,
) -> bool {
    exists|mids: Seq<M>| #[trigger] staged(first, items, mids) && staged(second, mids, r)
}

/// Results of two stages for some items and then for those that follow are results
/// for all.
proof fn lemma_both_join<I, M, O, F: Fn(I) -> M, G: Fn(M) -> O>(
    first: F,
    second: G,
    items: Seq<I>,
    mids: Seq<M>,
    outs: Seq<O>,
    rest: Seq<I>,
    more_mids: Seq<M>,
    more: Seq<O>,
)
    requires
        staged(first, items, mids),
        staged(second, mids, outs),
        outs.len() == mids.len(),
        mids.len() + rest.len() <= items.len(),
        rest == items.subrange(mids.len() as int, (mids.len() + rest.len()) as int),
        staged(first, rest, more_mids),
        staged(second, more_mids, more),
    ensures
        staged(first, items, mids + more_mids),
        staged(second, mids + more_mids, outs + more),
{
    lemma_staged_joins(first, items, mids, rest, more_mids);
    let all = mids + more_mids;
    assert(more_mids =~= all.subrange(outs.len() as int, all.len() as int));
    assert forall|i: int| 0 <= i < outs.len() implies second.ensures((all[i],), #[trigger] outs[i]) by {
        assert(all[i] == mids[i]);
    }
    lemma_staged_joins(second, all, outs, more_mids, more);
}

/// A run of two stages over `n` items, of which `came` results came, called each stage
/// once for what reached it: the second as often as results came, and the first at least
/// as often; both for every item unless the run was stopped, and neither where it was
/// from the start.
pub open spec fn ran_on_record(
    cancel: Option<CancellationToken>,
    n: nat,
    came: nat,
    before: RunLog,
    after: RunLog,
) -> bool {
    let steps = since(before@, after@);
    &&& before@.is_prefix_of(after@)
    &&& calls(steps, Step::Second) == came
    &&& came <= calls(steps, Step::First) <= n
    &&& !saw_set(before.uses@, after.uses@) ==> calls(steps, Step::First) == n && came == n
    &&& kept_stopped(cancel, before.uses@, after.uses@) ==> steps.len() == 0
}

/// A run of two stages, with a channel before, between and after them.
pub fn run_two_stages<
    I: Send + 'static,
    M: Send + 'static,
    O: Send + 'static,
    F: Fn(I) -> M,
    G: Fn(M) -> O,
    C: Stops,
>(
    items: Vec<I>,
    workers: &TwoStages,
    cancel: &C,
    stage1: &Logged<F>,
    stage2: &Logged<G>,
    log: &mut RunLog,
) -> (r: Vec<O>)
    requires
        chained(stage1.func(), stage2.func(), items@),
        workers.fits(),
        stage1.step() == Step::First,
        stage2.step() == Step::Second,
    ensures
        staged_twice(stage1.func(), stage2.func(), items@, r@),
        !saw_set(old(log).uses@, final(log).uses@) ==> r@.len() == items@.len(),
        kept_stopped(cancel.token(), old(log).uses@, final(log).uses@) ==> r@.len() == 0,
        ran_on_record(cancel.token(), items@.len(), r@.len(), *old(log), *final(log)),
        watched(cancel.token(), old(log).uses@, final(log).uses@),
        looked_first(
            cancel.token(),
            old(log)@,
            old(log).uses@,
            final(log)@,
            final(log).uses@,
        ),
{
    let ghost all = items@;
    let ghost mut mids: Seq<M> = Seq::empty();
    let ghost mut fed: int = 0;
    let ghost logged = log@;
    let ghost seen = log.uses@;
    let mut results: Vec<O> = Vec::new();
    let mut input: OwnedChannel<I> = OwnedChannel::new(workers.capacity);
    let mut mid: OwnedChannel<M> = OwnedChannel::new(workers.capacity);
    let mut output: OwnedChannel<O> = OwnedChannel::new(workers.capacity);
    for item in it: items
        invariant_except_break
            fed == it.index(),
        invariant
            it.seq() == all,
            all == items@,
            chained(stage1.func(), stage2.func(), all),
            workers.fits(),
            input.limit() == workers.capacity,
            mid.limit() == workers.capacity,
            output.limit() == workers.capacity,
            mid@ == Seq::<M>::empty(),
            output@ == Seq::<O>::empty(),
            mids.len() == results@.len(),
            mids.len() <= fed <= all.len(),
            input@ == all.subrange(mids.len() as int, fed),
            staged(stage1.func(), all, mids),
            staged(stage2.func(), mids, results@),
            stage1.step() == Step::First,
            stage2.step() == Step::Second,
            logged == old(log)@,
            advanced(logged, log@, mids.len(), results@.len()),
            seen == old(log).uses@,
            watched(cancel.token(), seen, log.uses@),
            looked_first(cancel.token(), old(log)@, old(log).uses@, log@, log.uses@),
            kept_stopped(cancel.token(), seen, log.uses@) ==> fed == 0,
        ensures
            !saw_set(seen, log.uses@) ==> fed == all.len(),
    {
        let ghost asked = log.uses@;
        let stop: bool = log.look(cancel);
        proof {
            lemma_watched_joins(cancel.token(), seen, asked, log.uses@);
        }
        if stop {
            break ;
        }
        match offer(&mut input, item) {
            None => {},
            Some(back) => {
                let ghost waiting = input@;
                let ghost outs = results@;
                let ghost logged1 = log@;
                let ghost seen1 = log.uses@;
                let (Ghost(next), done) = work_off_both(
                    &mut input,
                    &mut mid,
                    &mut output,
                    &mut results,
                    workers,
                    cancel,
                    stage1,
                    stage2,
                    log,
                );
                proof {
                    lemma_watched_joins(cancel.token(), seen, seen1, log.uses@);
                    let more = since(outs, results@);
                    lemma_added(outs, results@);
                    lemma_both_join(stage1.func(), stage2.func(), all, mids, outs, waiting, next, more);
                    lemma_advanced_joins(
                        logged,
                        logged1,
                        log@,
                        mids.len(),
                        outs.len(),
                        next.len(),
                        more.len(),
                    );
                    mids = mids + next;
                    lemma_advanced_since(logged, log@, mids.len(), results@.len());
                }
                if !done {
                    return results;
                }
                let _sent = offer(&mut input, back);
            },
        }
        proof {
            fed = fed + 1;
            assert(input@ =~= all.subrange(mids.len() as int, fed));
        }
    }
    let ghost waiting = input@;
    let ghost outs = results@;
    let ghost logged1 = log@;
    let ghost seen1 = log.uses@;
    let (Ghost(next), _done) = work_off_both(
        &mut input,
        &mut mid,
        &mut output,
        &mut results,
        workers,
        cancel,
        stage1,
        stage2,
        log,
    );
    proof {
        lemma_watched_joins(cancel.token(), seen, seen1, log.uses@);
        let more = since(outs, results@);
        lemma_added(outs, results@);
        lemma_both_join(stage1.func(), stage2.func(), all, mids, outs, waiting, next, more);
        assert(staged(stage1.func(), all, mids + next));
        lemma_advanced_joins(
            logged,
            logged1,
            log@,
            mids.len(),
            outs.len(),
            next.len(),
            more.len(),
        );
        lemma_advanced_since(logged, log@, (mids + next).len(), results@.len());
    }
    results
}

/// The channels and the fence behind a first stage, with what has come out at the
/// end.
#[verifier::reject_recursive_types(M)]
#[verifier::reject_recursive_types(O)]
struct FencedEnd<M: Send + 'static, O: Send + 'static> {
    mid: OwnedChannel<M>,
    fence: FenceBarrier<M>,
    fenced: OwnedChannel<M>,
    output: OwnedChannel<O>,
    results: Vec<O>,
}

impl<M: Send + 'static, O: Send + 'static> FencedEnd<M, O> {
    /// The channels are made for `workers`, and nothing waits behind the fence.
    spec fn settled(&self, workers: &TwoStages) -> bool {
        &&& self.mid.limit() == workers.capacity
        &&& self.fenced.limit() == workers.capacity
        &&& self.output.limit() == workers.capacity
        &&& self.fenced@ == Seq::<M>::empty()
        &&& self.output@ == Seq::<O>::empty()
    }

    /// The second stage and the collector pass a released batch on. Returns whether
    /// all of it was.
    fn pass_batch<G: Fn(M) -> O, C: Stops>(
        &mut self,
        batch: Vec<M>,
        workers: &TwoStages,
        cancel: &C,
        stage2: &Logged<G>,
        log: &mut RunLog,
    ) -> (done: bool)
        requires
            workers.fits(),
            old(self).settled(workers),
            stage_accepts(stage2.func(), batch@),
        ensures
            final(self).mid@ == old(self).mid@,
            final(self).fence == old(self).fence,
            old(self).results@.is_prefix_of(final(self).results@),
            staged(stage2.func(), batch@, since(old(self).results@, final(self).results@)),
            done ==> final(self).settled(workers),
            done ==> since(old(self).results@, final(self).results@).len() == batch@.len(),
            !saw_set(old(log).uses@, final(log).uses@) ==> done,
            final(log)@ == old(log)@ + steps_of(
                stage2.step(),
                since(old(self).results@, final(self).results@).len(),
            ),
            kept_stopped(cancel.token(), old(log).uses@, final(log).uses@)
                ==> final(self).results@ == old(self).results@,
            watched(cancel.token(), old(log).uses@, final(log).uses@),
            looked_first(
                cancel.token(),
                old(log)@,
                old(log).uses@,
                final(log)@,
                final(log).uses@,
            ),
    {
        send_through(
            batch,
            false,
            &mut self.fenced,
            &mut self.output,
            &mut self.results,
            workers.second,
            cancel,
            stage2,
            log,
        )
    }

    /// The forwarder's turn: everything that the first stage passed on goes into
    /// the fence, which holds less than a batch, and every batch that is released goes
    /// on. Returns whether the second stage goes on.
    fn forward_turn<G: Fn(M) -> O, C: Stops>(
        &mut self,
        workers: &TwoStages,
        cancel: &C,
        stage2: &Logged<G>,
        log: &mut RunLog,
    ) -> (done: bool)
        requires
            workers.fits(),
            old(self).settled(workers),
            stage_accepts(stage2.func(), old(self).fence@ + old(self).mid@),
            fenced(old(self).fence.batch_size(), old(self).fence@).0.len() == 0,
        ensures
            final(self).fence.batch_size() == old(self).fence.batch_size(),
            old(self).results@.is_prefix_of(final(self).results@),
            ({
                let whole = old(self).fence@ + old(self).mid@;
                let outs = since(old(self).results@, final(self).results@);
                &&& staged(stage2.func(), whole, outs)
                &&& done ==> final(self).settled(workers)
                &&& done ==> final(self).mid@ == Seq::<M>::empty()
                &&& done ==> final(self).fence@ == whole.skip(outs.len() as int)
                &&& done ==> fenced(final(self).fence.batch_size(), final(self).fence@).0.len() == 0
                &&& done ==> passed_fence(old(self).fence.batch_size(), whole, outs.len())
                &&& outs.len() <= fenced(old(self).fence.batch_size(), whole).0.flatten().len()
                &&& old(self).fence.batch_size() is None ==> outs.len() == 0
            }),
            !saw_set(old(log).uses@, final(log).uses@) ==> done,
            final(log)@ == old(log)@ + steps_of(
                stage2.step(),
                since(old(self).results@, final(self).results@).len(),
            ),
            kept_stopped(cancel.token(), old(log).uses@, final(log).uses@)
                ==> final(self).results@ == old(self).results@,
            watched(cancel.token(), old(log).uses@, final(log).uses@),
            looked_first(
                cancel.token(),
                old(log)@,
                old(log).uses@,
                final(log)@,
                final(log).uses@,
            ),
    {
        let ghost size = self.fence.batch_size();
        let ghost held = self.fence@;
        let ghost ins = self.mid@;
        let ghost whole = held + ins;
        let ghost start = self.results@;
        let ghost mut outs: Seq<O> = Seq::empty();
        let ghost mut n: int = 0;
        let ghost logged = log@;
        let ghost seen = log.uses@;
        proof {
            assert(start + outs =~= start);
            lemma_steps_join(logged, stage2.step(), 0, 0);
            lemma_watched_nothing(cancel.token(), seen);
            assert(held =~= whole.subrange(0, held.len() as int));
            assert(whole.take(held.len() as int) =~= held);
            assert(fenced(size, held).0 =~= Seq::empty());
            assert(Seq::<Seq<M>>::empty().flatten() =~= Seq::<M>::empty());
            law_fence_keeps_items(size, held);
            assert(fenced(size, held).1 =~= held);
            assert(whole.take(whole.len() as int) =~= whole);
            if size is None {
                law_barrier_holds_everything(whole);
            }
        }
        loop
            invariant
                size == old(self).fence.batch_size(),
                self.fence.batch_size() == size,
                fenced(size, whole.take(held.len() + n)).0.flatten().len() == outs.len(),
                fenced(size, whole.take(held.len() + n)).1 == self.fence@,
                outs.len() <= fenced(size, whole).0.flatten().len(),
                size is None ==> fenced(size, whole).0.flatten().len() == 0,
                whole.take(whole.len() as int) == whole,
                held == old(self).fence@,
                ins == old(self).mid@,
                whole == held + ins,
                start == old(self).results@,
                workers.fits(),
                self.settled(workers),
                stage_accepts(stage2.func(), whole),
                0 <= n <= ins.len(),
                self.mid@ == ins.skip(n),
                outs.len() <= held.len() + n,
                self.fence@ == whole.subrange(outs.len() as int, held.len() + n),
                self.results@ == start + outs,
                staged(stage2.func(), whole, outs),
                logged == old(log)@,
                log@ == logged + steps_of(stage2.step(), outs.len()),
                seen == old(log).uses@,
                watched(cancel.token(), seen, log.uses@),
                looked_first(cancel.token(), old(log)@, old(log).uses@, log@, log.uses@),
                kept_stopped(cancel.token(), seen, log.uses@) ==> outs.len() == 0,
            decreases self.mid@.len(),
        {
            match self.mid.try_recv() {
                Ok(item) => {
                    proof {
                        assert(item == whole[held.len() + n]);
                        assert(self.mid@ =~= ins.skip(n + 1));
                        assert(self.fence@.push(item) =~= whole.subrange(
                            outs.len() as int,
                            held.len() + n + 1,
                        ));
                        assert(whole.take(held.len() + n + 1) =~= whole.take(held.len() + n).push(
                            item,
                        ));
                        lemma_fenced_push(size, whole.take(held.len() + n), item);
                        lemma_fenced_grows(size, whole, held.len() + n + 1);
                        n = n + 1;
                    }
                    match self.fence.push(item) {
                        Some(batch) => {
                            let ghost all = batch@;
                            let ghost before = self.results@;
                            let ghost seen1 = log.uses@;
                            proof {
                                assert forall|i: int| 0 <= i < all.len() implies stage2.func().requires(
                                    (#[trigger] all[i],),
                                ) by {
                                    assert(all[i] == whole[outs.len() + i]);
                                }
                            }
                            let done = self.pass_batch(batch, workers, cancel, stage2, log);
                            proof {
                                lemma_watched_joins(cancel.token(), seen, seen1, log.uses@);
                                let more = since(before, self.results@);
                                lemma_added(before, self.results@);
                                lemma_staged_joins(stage2.func(), whole, outs, all, more);
                                assert(self.results@ =~= start + (outs + more));
                                assert(since(start, self.results@) =~= outs + more);
                                lemma_steps_join(logged, stage2.step(), outs.len(), more.len());
                                outs = outs + more;
                                if outs.len() == 0 {
                                    assert(self.results@ =~= start);
                                }
                            }
                            if !done {
                                return false;
                            }
                            assert(self.fence@ =~= whole.subrange(
                                outs.len() as int,
                                held.len() + n,
                            ));
                        },
                        None => {},
                    }
                },
                Err(_) => {
                    proof {
                        assert(since(start, self.results@) =~= outs);
                        assert(self.fence@ =~= whole.skip(outs.len() as int));
                        lemma_rest_is_no_batch(size, whole);
                        if outs.len() == 0 {
                            assert(self.results@ =~= start);
                        }
                    }
                    return true;
                },
            }
        }
    }
}

/// Of the items of `whole` that went into a fence, `passed` have left it: those of all
/// the batches that formed.
pub open spec fn passed_fence<M>(size: Option<usize>, whole: Seq<M>, passed: nat) -> bool {
    passed == fenced(size, whole).0.flatten().len()
}

/// A fence has released no less after more items.
proof fn lemma_fenced_grows<M>(size: Option<usize>, items: Seq<M>, n: int)
    requires
        0 <= n <= items.len(),
    ensures
        fenced(size, items.take(n)).0.flatten().len() <= fenced(size, items).0.flatten().len(),
    decreases items.len() - n,
{
    if n == items.len() {
        assert(items.take(n) =~= items);
    } else {
        lemma_fenced_grows(size, items, n + 1);
        lemma_fenced_push(size, items.take(n), items[n]);
        assert(items.take(n + 1) =~= items.take(n).push(items[n]));
    }
}

/// What a fence holds after all that came makes no batch by itself.
proof fn lemma_rest_is_no_batch<M>(size: Option<usize>, items: Seq<M>)
    ensures
        fenced(size, fenced(size, items).1).0.len() == 0,
        fenced(size, fenced(size, items).1).1 == fenced(size, items).1,
    decreases items.len(),
{
    if items.len() > 0 {
        let prev = items.drop_last();
        lemma_rest_is_no_batch(size, prev);
        let held = fenced(size, prev).1;
        let next = held.push(items.last());
        assert(next.drop_last() =~= held);
    }
}

/// How far the stages of a fenced run got.
enum Progress {
    /// Nothing waits before the fence.
    Clear,
    /// The first stage was stopped.
    FirstStopped,
    /// The second stage was stopped.
    SecondStopped,
}

/// The first stage, the forwarder and what is behind the fence take turns until no
/// item waits any more. Returns what the first stage made of the items.
fn work_off_fenced<
    I: Send + 'static,
    M: Send + 'static,
    O: Send + 'static,
    F: Fn(I) -> M,
    G: Fn(M) -> O,
    C: Stops,
>(
    input: &mut OwnedChannel<I>,
    end: &mut FencedEnd<M, O>,
    workers: &TwoStages,
    cancel: &C,
    stage1: &Logged<F>,
    stage2: &Logged<G>,
    log: &mut RunLog,
) -> (r: (Ghost<Seq<M>>, Progress))
    requires
        workers.fits(),
        old(end).settled(workers),
        old(end).mid@ == Seq::<M>::empty(),
        chained(stage1.func(), stage2.func(), old(input)@),
        stage_accepts(stage2.func(), old(end).fence@),
        fenced(old(end).fence.batch_size(), old(end).fence@).0.len() == 0,
        stage1.step() == Step::First,
        stage2.step() == Step::Second,
    ensures
        final(input).limit() == old(input).limit(),
        final(end).fence.batch_size() == old(end).fence.batch_size(),
        r.1 !is SecondStopped ==> fenced(final(end).fence.batch_size(), final(end).fence@).0.len()
            == 0,
        old(end).results@.is_prefix_of(final(end).results@),
        staged(stage1.func(), old(input)@, r.0@),
        ({
            let whole = old(end).fence@ + r.0@;
            let outs = since(old(end).results@, final(end).results@);
            &&& staged(stage2.func(), whole, outs)
            &&& old(end).fence.batch_size() is None ==> outs.len() == 0
            &&& r.1 !is SecondStopped ==> {
                &&& final(end).settled(workers)
                &&& final(end).mid@ == Seq::<M>::empty()
                &&& final(end).fence@ == whole.skip(outs.len() as int)
            }
        }),
        r.1 is Clear ==> r.0@.len() == old(input)@.len() && final(input)@ == Seq::<I>::empty(),
        !saw_set(old(log).uses@, final(log).uses@) ==> r.1 is Clear,
        advanced(
            old(log)@,
            final(log)@,
            r.0@.len(),
            since(old(end).results@, final(end).results@).len(),
        ),
        kept_stopped(cancel.token(), old(log).uses@, final(log).uses@)
            ==> r.0@.len() == 0 && final(end).results@ == old(end).results@,
        watched(cancel.token(), old(log).uses@, final(log).uses@),
        looked_first(
            cancel.token(),
            old(log)@,
            old(log).uses@,
            final(log)@,
            final(log).uses@,
        ),
{
    let ghost ins = input@;
    let ghost held = end.fence@;
    let ghost start = end.results@;
    let ghost mut mids: Seq<M> = Seq::empty();
    let ghost mut outs: Seq<O> = Seq::empty();
    let ghost logged = log@;
    let ghost seen = log.uses@;
    proof {
        lemma_watched_nothing(cancel.token(), seen);
        assert(start + outs =~= start);
        assert(end.fence@ =~= (held + mids).skip(0));
    }
    loop
        invariant
            ins == old(input)@,
            held == old(end).fence@,
            start == old(end).results@,
            workers.fits(),
            end.settled(workers),
            end.mid@ == Seq::<M>::empty(),
            chained(stage1.func(), stage2.func(), ins),
            stage_accepts(stage2.func(), held),
            end.fence.batch_size() == old(end).fence.batch_size(),
            fenced(end.fence.batch_size(), end.fence@).0.len() == 0,
            end.fence.batch_size() is None ==> outs.len() == 0,
            input.limit() == old(input).limit(),
            staged(stage1.func(), ins, mids),
            input@ == ins.skip(mids.len() as int),
            staged(stage2.func(), held + mids, outs),
            end.fence@ == (held + mids).skip(outs.len() as int),
            end.results@ == start + outs,
            stage1.step() == Step::First,
            stage2.step() == Step::Second,
            logged == old(log)@,
            advanced(logged, log@, mids.len(), outs.len()),
            seen == old(log).uses@,
            watched(cancel.token(), seen, log.uses@),
            looked_first(cancel.token(), old(log)@, old(log).uses@, log@, log.uses@),
            kept_stopped(cancel.token(), seen, log.uses@) ==> mids.len() == 0 && outs.len() == 0,
        decreases input@.len(),
    {
        let ghost waiting = input@;
        let ghost before = end.results@;
        let ghost logged1 = log@;
        let ghost seen1 = log.uses@;
        let moved = work_turn(input, &mut end.mid, workers.first, cancel, stage1, log);
        let ghost logged2 = log@;
        let ghost seen2 = log.uses@;
        let ghost next = end.mid@;
        let ghost whole = held + (mids + next);
        proof {
            assert(since(Seq::<M>::empty(), next) =~= next);
            lemma_staged_joins(stage1.func(), ins, mids, waiting, next);
            lemma_second_accepts(stage1.func(), stage2.func(), ins, mids + next);
            assert(end.fence@ + end.mid@ =~= whole.skip(outs.len() as int));
            assert forall|i: int| 0 <= i < whole.skip(outs.len() as int).len() implies stage2.func().requires(
                (#[trigger] whole.skip(outs.len() as int)[i],),
            ) by {
                let k = i + outs.len();
                if k < held.len() {
                    assert(whole[k] == held[k]);
                } else {
                    assert(whole[k] == (mids + next)[k - held.len()]);
                }
            }
            assert forall|i: int| 0 <= i < outs.len() implies stage2.func().ensures(
                (whole[i],),
                #[trigger] outs[i],
            ) by {
                assert(whole[i] == (held + mids)[i]);
            }
        }
        let done = end.forward_turn(workers, cancel, stage2, log);
        proof {
            lemma_watched_joins(cancel.token(), seen1, seen2, log.uses@);
            lemma_watched_joins(cancel.token(), seen, seen1, log.uses@);
            let more = since(before, end.results@);
            let rest = whole.skip(outs.len() as int);
            lemma_added(before, end.results@);
            assert(rest =~= whole.subrange(outs.len() as int, (outs.len() + rest.len()) as int));
            lemma_staged_joins(stage2.func(), whole, outs, rest, more);
            assert(end.results@ =~= start + (outs + more));
            assert(since(start, end.results@) =~= outs + more);
            assert(rest.skip(more.len() as int) =~= whole.skip((outs + more).len() as int));
            lemma_advanced_alone(logged1, Step::First, next.len());
            lemma_advanced_alone(logged2, Step::Second, more.len());
            lemma_advanced_joins(logged1, logged2, log@, next.len(), 0, 0, more.len());
            lemma_advanced_joins(
                logged,
                logged1,
                log@,
                mids.len(),
                outs.len(),
                next.len(),
                more.len(),
            );
            mids = mids + next;
            outs = outs + more;
            if outs.len() == 0 {
                assert(end.results@ =~= start);
            }
        }
        if !done {
            return (Ghost(mids), Progress::SecondStopped);
        }
        match moved {
            Some(n) => {
                assert(input@ =~= ins.skip(mids.len() as int));
                if n < workers.first {
                    return (Ghost(mids), Progress::Clear);
                }
            },
            None => {
                return (Ghost(mids), Progress::FirstStopped);
            },
        }
    }
}

/// Progress of a fenced run, added to what came before it.
proof fn lemma_fenced_join<I, M, O, F: Fn(I) -> M, G: Fn(M) -> O>(
    first: F,
    second: G,
    items: Seq<I>,
    mids: Seq<M>,
    outs: Seq<O>,
    rest: Seq<I>,
    more_mids: Seq<M>,
    more: Seq<O>,
)
    requires
        staged(first, items, mids),
        staged(second, mids, outs),
        mids.len() + rest.len() <= items.len(),
        rest == items.subrange(mids.len() as int, (mids.len() + rest.len()) as int),
        staged(first, rest, more_mids),
        staged(second, mids.skip(outs.len() as int) + more_mids, more),
    ensures
        staged(first, items, mids + more_mids),
        staged(second, mids + more_mids, outs + more),
        (mids.skip(outs.len() as int) + more_mids).skip(more.len() as int) == (mids
            + more_mids).skip((outs + more).len() as int),
{
    lemma_staged_joins(first, items, mids, rest, more_mids);
    let all = mids + more_mids;
    let behind = mids.skip(outs.len() as int) + more_mids;
    assert(behind =~= all.subrange(outs.len() as int, all.len() as int));
    assert forall|i: int| 0 <= i < outs.len() implies second.ensures((all[i],), #[trigger] outs[i]) by {
        assert(all[i] == mids[i]);
    }
    lemma_staged_joins(second, all, outs, behind, more);
    assert(behind.skip(more.len() as int) =~= all.skip((outs + more).len() as int));
}

/// A run of two stages with a fence between them, and a channel before and after
/// each of the three.
pub fn run_fenced_stages<
    I: Send + 'static,
    M: Send + 'static,
    O: Send + 'static,
    F: Fn(I) -> M,
    G: Fn(M) -> O,
    C: Stops,
>(
    items: Vec<I>,
    mode: FenceMode,
    workers: &TwoStages,
    cancel: &C,
    stage1: &Logged<F>,
    stage2: &Logged<G>,
    log: &mut RunLog,
) -> (r: Vec<O>)
    requires
        chained(stage1.func(), stage2.func(), items@),
        workers.fits(),
        stage1.step() == Step::First,
        stage2.step() == Step::Second,
    ensures
        staged_twice(stage1.func(), stage2.func(), items@, r@),
        !saw_set(old(log).uses@, final(log).uses@) ==> r@.len() == items@.len(),
        kept_stopped(cancel.token(), old(log).uses@, final(log).uses@) ==> r@.len() == 0,
        ran_on_record(cancel.token(), items@.len(), r@.len(), *old(log), *final(log)),
        mode is Barrier ==> in_two_phases(since(old(log)@, final(log)@)),
        watched(cancel.token(), old(log).uses@, final(log).uses@),
        looked_first(
            cancel.token(),
            old(log)@,
            old(log).uses@,
            final(log)@,
            final(log).uses@,
        ),
{
    let ghost all = items@;
    let ghost mut mids: Seq<M> = Seq::empty();
    let ghost mut fed: int = 0;
    let ghost logged = log@;
    let ghost seen = log.uses@;
    let mut input: OwnedChannel<I> = OwnedChannel::new(workers.capacity);
    let mut end: FencedEnd<M, O> = FencedEnd {
        mid: OwnedChannel::new(workers.capacity),
        fence: FenceBarrier::new(items.len(), mode.chunk_size()),
        fenced: OwnedChannel::new(workers.capacity),
        output: OwnedChannel::new(workers.capacity),
        results: Vec::new(),
    };
    assert(end.fence@ =~= mids.skip(0));
    for item in it: items
        invariant_except_break
            fed == it.index(),
        invariant
            it.seq() == all,
            all == items@,
            chained(stage1.func(), stage2.func(), all),
            workers.fits(),
            input.limit() == workers.capacity,
            end.settled(workers),
            end.fence.batch_size() == mode.spec_chunk_size(),
            fenced(end.fence.batch_size(), end.fence@).0.len() == 0,
            end.mid@ == Seq::<M>::empty(),
            end.fence@ == mids.skip(end.results@.len() as int),
            mids.len() <= fed <= all.len(),
            input@ == all.subrange(mids.len() as int, fed),
            staged(stage1.func(), all, mids),
            staged(stage2.func(), mids, end.results@),
            stage1.step() == Step::First,
            stage2.step() == Step::Second,
            logged == old(log)@,
            advanced(logged, log@, mids.len(), end.results@.len()),
            mode is Barrier ==> end.results@.len() == 0,
            seen == old(log).uses@,
            watched(cancel.token(), seen, log.uses@),
            looked_first(cancel.token(), old(log)@, old(log).uses@, log@, log.uses@),
            kept_stopped(cancel.token(), seen, log.uses@) ==> fed == 0,
        ensures
            !saw_set(seen, log.uses@) ==> fed == all.len(),
    {
        let ghost asked = log.uses@;
        let stop: bool = log.look(cancel);
        proof {
            lemma_watched_joins(cancel.token(), seen, asked, log.uses@);
        }
        if stop {
            break ;
        }
        match offer(&mut input, item) {
            None => {},
            Some(back) => {
                let ghost waiting = input@;
                let ghost outs = end.results@;
                let ghost logged1 = log@;
                let ghost seen1 = log.uses@;
                proof {
                    lemma_second_accepts(stage1.func(), stage2.func(), all, mids);
                }
                let (Ghost(next), progress) = work_off_fenced(
                    &mut input,
                    &mut end,
                    workers,
                    cancel,
                    stage1,
                    stage2,
                    log,
                );
                proof {
                    lemma_watched_joins(cancel.token(), seen, seen1, log.uses@);
                    let more = since(outs, end.results@);
                    lemma_added(outs, end.results@);
                    lemma_fenced_join(stage1.func(), stage2.func(), all, mids, outs, waiting, next, more);
                    lemma_advanced_joins(
                        logged,
                        logged1,
                        log@,
                        mids.len(),
                        outs.len(),
                        next.len(),
                        more.len(),
                    );
                    mids = mids + next;
                }
                match progress {
                    Progress::Clear => {},
                    Progress::FirstStopped => {
                        proof {
                            lemma_second_accepts(stage1.func(), stage2.func(), all, mids);
                        }
                        let ghost came = end.results@.len();
                        let ghost logged2 = log@;
                        let ghost seen2 = log.uses@;
                        let r = flush_fenced(end, workers, cancel, stage2, log, Ghost(mids));
                        proof {
                            lemma_watched_joins(cancel.token(), seen, seen2, log.uses@);
                            let more = (r@.len() - came) as nat;
                            lemma_recorded(logged, logged2, log@, mids.len(), came, more);
                        }
                        return r;
                    },
                    Progress::SecondStopped => {
                        proof {
                            lemma_steps_join(log@, Step::Second, 0, 0);
                            lemma_recorded(logged, log@, log@, mids.len(), end.results@.len(), 0);
                        }
                        return end.results;
                    },
                }
                let _sent = offer(&mut input, back);
            },
        }
        proof {
            fed = fed + 1;
            assert(input@ =~= all.subrange(mids.len() as int, fed));
        }
    }
    let ghost waiting = input@;
    let ghost outs = end.results@;
    let ghost logged1 = log@;
    let ghost seen1 = log.uses@;
    proof {
        lemma_second_accepts(stage1.func(), stage2.func(), all, mids);
    }
    let (Ghost(next), progress) = work_off_fenced(
        &mut input,
        &mut end,
        workers,
        cancel,
        stage1,
        stage2,
        log,
    );
    proof {
        lemma_watched_joins(cancel.token(), seen, seen1, log.uses@);
        let more = since(outs, end.results@);
        lemma_added(outs, end.results@);
        lemma_fenced_join(stage1.func(), stage2.func(), all, mids, outs, waiting, next, more);
        lemma_advanced_joins(
            logged,
            logged1,
            log@,
            mids.len(),
            outs.len(),
            next.len(),
            more.len(),
        );
        mids = mids + next;
        lemma_second_accepts(stage1.func(), stage2.func(), all, mids);
    }
    match progress {
        Progress::SecondStopped => {
            proof {
                lemma_steps_join(log@, Step::Second, 0, 0);
                lemma_recorded(logged, log@, log@, mids.len(), end.results@.len(), 0);
            }
            end.results
        },
        _ => {
            let ghost came = end.results@.len();
            let ghost logged2 = log@;
            let ghost seen2 = log.uses@;
            let r = flush_fenced(end, workers, cancel, stage2, log, Ghost(mids));
            proof {
                lemma_watched_joins(cancel.token(), seen, seen2, log.uses@);
                let more = (r@.len() - came) as nat;
                lemma_recorded(logged, logged2, log@, mids.len(), came, more);
            }
            r
        },
    }
}

/// No call of the first stage follows a call of the second.
pub open spec fn in_two_phases(steps: Seq<Step>) -> bool {
    forall|i: int, j: int|
        0 <= i < j < steps.len() && #[trigger] steps[i] == Step::Second ==> #[trigger] steps[j]
            == Step::Second
}

/// What is on record once the second stage was called `more` times at the end.
proof fn lemma_recorded(
    before: Seq<Step>,
    mid: Seq<Step>,
    after: Seq<Step>,
    firsts: nat,
    seconds: nat,
    more: nat,
)
    requires
        advanced(before, mid, firsts, seconds),
        after == mid + steps_of(Step::Second, more),
    ensures
        before.is_prefix_of(after),
        since(before, after).len() == firsts + seconds + more,
        calls(since(before, after), Step::First) == firsts,
        calls(since(before, after), Step::Second) == seconds + more,
        seconds == 0 ==> in_two_phases(since(before, after)),
{
    lemma_advanced_alone(mid, Step::Second, more);
    lemma_advanced_joins(before, mid, after, firsts, seconds, 0, more);
    lemma_advanced_since(before, after, firsts, seconds + more);
    if seconds == 0 {
        lemma_only_firsts(before, mid, firsts);
        assert(since(before, after) =~= steps_of(Step::First, firsts) + steps_of(
            Step::Second,
            more,
        ));
    }
}

/// The end of a fenced run: what the fence still holds goes through the second
/// stage. `mids` is all that went into the fence.
fn flush_fenced<M: Send + 'static, O: Send + 'static, G: Fn(M) -> O, C: Stops>(
    end: FencedEnd<M, O>,
    workers: &TwoStages,
    cancel: &C,
    stage2: &Logged<G>,
    log: &mut RunLog,
    Ghost(mids): Ghost<Seq<M>>,
) -> (r: Vec<O>)
    requires
        workers.fits(),
        end.settled(workers),
        end.fence@ == mids.skip(end.results@.len() as int),
        stage_accepts(stage2.func(), mids),
        staged(stage2.func(), mids, end.results@),
    ensures
        staged(stage2.func(), mids, r@),
        !saw_set(old(log).uses@, final(log).uses@) ==> r@.len() == mids.len(),
        kept_stopped(cancel.token(), old(log).uses@, final(log).uses@) ==> r@ == end.results@,
        end.results@.len() <= r@.len(),
        final(log)@ == old(log)@ + steps_of(
            stage2.step(),
            (r@.len() - end.results@.len()) as nat,
        ),
        watched(cancel.token(), old(log).uses@, final(log).uses@),
        looked_first(
            cancel.token(),
            old(log)@,
            old(log).uses@,
            final(log)@,
            final(log).uses@,
        ),
{
    let mut end = end;
    let ghost outs = end.results@;
    let ghost held = end.fence@;
    proof {
        lemma_steps_join(log@, stage2.step(), 0, 0);
        lemma_watched_nothing(cancel.token(), log.uses@);
    }
    match end.fence.flush() {
        Some(rest) => {
            proof {
                assert forall|i: int| 0 <= i < held.len() implies stage2.func().requires((#[trigger] held[i],)) by {
                    assert(held[i] == mids[outs.len() + i]);
                }
            }
            let _done = end.pass_batch(rest, workers, cancel, stage2, log);
            proof {
                let more = since(outs, end.results@);
                lemma_added(outs, end.results@);
                assert(held =~= mids.subrange(outs.len() as int, mids.len() as int));
                lemma_staged_joins(stage2.func(), mids, outs, held, more);
            }
        },
        None => {},
    }
    end.results
}

/// Calls in two phases are calls of the first stage, and others, up to some point, and calls
/// of the second stage alone from there on.
pub proof fn law_two_phases_meet_at_one_point(steps: Seq<Step>)
    ensures
        in_two_phases(steps) <==> exists|k: int|
            #![trigger steps.take(k)]
            0 <= k <= steps.len() && !steps.take(k).contains(Step::Second) && forall|i: int|
                k <= i < steps.len() ==> #[trigger] steps[i] == Step::Second,
{
    if in_two_phases(steps) {
        let k = first_second(steps);
        lemma_first_second(steps);
        assert(!steps.take(k).contains(Step::Second)) by {
            if steps.take(k).contains(Step::Second) {
                let i = choose|i: int| 0 <= i < k && steps.take(k)[i] == Step::Second;
                assert(steps[i] == Step::Second);
            }
        }
    }
    if exists|k: int|
        #![trigger steps.take(k)]
        0 <= k <= steps.len() && !steps.take(k).contains(Step::Second) && forall|i: int|
            k <= i < steps.len() ==> #[trigger] steps[i] == Step::Second {
        let k = choose|k: int|
            #![trigger steps.take(k)]
            0 <= k <= steps.len() && !steps.take(k).contains(Step::Second) && forall|i: int|
                k <= i < steps.len() ==> #[trigger] steps[i] == Step::Second;
        assert forall|i: int, j: int|
            0 <= i < j < steps.len() && #[trigger] steps[i] == Step::Second implies #[trigger] steps[j]
            == Step::Second by {
            if i < k {
                assert(steps.take(k)[i] == Step::Second);
            }
        }
    }
}

/// Where the second stage is called first, or where the calls end.
spec fn first_second(steps: Seq<Step>) -> int
    decreases steps.len(),
{
    if steps.len() == 0 || steps[0] == Step::Second {
        0
    } else {
        1 + first_second(steps.skip(1))
    }
}

proof fn lemma_first_second(steps: Seq<Step>)
    ensures
        0 <= first_second(steps) <= steps.len(),
        forall|i: int| 0 <= i < first_second(steps) ==> #[trigger] steps[i] != Step::Second,
        first_second(steps) < steps.len() ==> steps[first_second(steps)] == Step::Second,
    decreases steps.len(),
{
    if steps.len() > 0 && steps[0] != Step::Second {
        let rest = steps.skip(1);
        lemma_first_second(rest);
        assert forall|i: int| 0 <= i < first_second(steps) implies #[trigger] steps[i]
            != Step::Second by {
            if i > 0 {
                assert(rest[i - 1] == steps[i]);
            }
        }
        if first_second(steps) < steps.len() {
            assert(rest[first_second(rest)] == steps[first_second(steps)]);
        }
    }
}

/// A run of two stages calls the second once for every result, and the first at least as
/// often and at most once for every item: both for every item where no reading found the
/// token set, and neither where every reading did.
pub proof fn law_stages_are_called_once_per_item(
    cancel: Option<CancellationToken>,
    n: nat,
    came: nat,
    before: RunLog,
    after: RunLog,
)
    requires
        ran_on_record(cancel, n, came, before, after),
    ensures
        before@.is_prefix_of(after@),
        calls(after@.skip(before@.len() as int), Step::Second) == came,
        came <= calls(after@.skip(before@.len() as int), Step::First) <= n,
        !saw_set(before.uses@, after.uses@) ==> came == n && calls(
            after@.skip(before@.len() as int),
            Step::First,
        ) == n,
        cancel is Some && !saw_clear(before.uses@, after.uses@) ==> after@ == before@,
{
    if cancel is Some && !saw_clear(before.uses@, after.uses@) {
        assert(after@ =~= before@);
    }
}

} // verus!
