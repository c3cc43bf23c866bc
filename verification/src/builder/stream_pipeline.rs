//! Streaming runs of one or two stages: a feeder, workers and a collector.
use crate::builder::config::PipelineConfig;
use crate::builder::pipeline::joined;
use crate::builder::steps::{
    Logged, RunLog, Step, calls, lemma_steps_join, looked_first, steps_of,
};
use crate::builder::stream_workers::since;
use crate::builder::turns::{
    TwoStages, in_two_phases, ran_on_record, run_fenced_stages, run_one_stage, run_two_stages,
    staged_twice,
};
use crate::handoff::channel::capacity_fits;
use crate::state::fence::FenceMode;
use crate::state::stream::{
    collect_ordered, law_window_holds_expected, lemma_ordered_result_in_order, tagged, window,
};
use crate::sync::cancel::{
    cancelled_for_good, kept_stopped, law_cancelled_for_good_is_never_clear, lemma_seen,
    lemma_watched_nothing, saw_set, signalled, stopped, watched,
};
use crate::sync::flag::FlagUse;
use crate::sync::CancellationToken;
use crate::sync::watch::{Stops, Watch};
use vstd::prelude::*;

verus! {

/// The smaller of two numbers.
pub open spec fn least(a: nat, b: nat) -> nat {
    if a <= b {
        a
    } else {
        b
    }
}

/// The larger of two numbers.
pub open spec fn most(a: nat, b: nat) -> nat {
    if a >= b {
        a
    } else {
        b
    }
}

/// The workers of a run over `n` items: one per item, up to the configured
/// number.
pub fn stream_workers(config: &PipelineConfig, n: usize) -> (workers: usize)
    ensures
        workers == least(config.compute_workers as nat, n as nat),
{
    config.compute_workers.min(n)
}

/// The workers of the first and of the second stage, out of `parallelism`.
pub open spec fn shares(parallelism: nat) -> (nat, nat) {
    (most(parallelism / 2, 1), most((parallelism - parallelism / 2) as nat, 1))
}

/// Half of the workers for each of two stages, but at least one.
pub fn split_workers(parallelism: usize) -> (r: (usize, usize))
    ensures
        (r.0 as nat, r.1 as nat) == shares(parallelism as nat),
{
    let first: usize = (parallelism / 2).max(1);
    let second: usize = parallelism.saturating_sub(first).max(1);
    (first, second)
}

/// The capacity of a channel that `workers` workers read from: what was
/// configured, but at least four items per worker.
pub fn channel_capacity(buffer_size: usize, workers: usize) -> (capacity: usize)
    requires
        workers * 4 <= usize::MAX,
    ensures
        capacity == most(buffer_size as nat, (workers * 4) as nat),
{
    buffer_size.max(workers * 4)
}

/// The room of a channel that `workers` workers read from.
pub open spec fn room_for(config: PipelineConfig, workers: nat) -> nat {
    most(config.buffer_size as nat, workers * 4)
}

/// Whether the channels of a one-stage run over `n` items can be had.
pub open spec fn one_stage_fits(config: PipelineConfig, n: nat) -> bool {
    n == 0 || capacity_fits(room_for(config, least(config.compute_workers as nat, n)))
}

/// Whether the channels of a two-stage run over `n` items can be had.
pub open spec fn two_stages_fit(config: PipelineConfig, n: nat) -> bool {
    let (first, second) = shares(least(config.compute_workers as nat, n));
    n == 0 || capacity_fits(room_for(config, most(first, second)))
}

/// The workers and the channels of a two-stage run over `n` items.
fn plan_two_stages(config: &PipelineConfig, n: usize) -> (r: TwoStages)
    requires
        n > 0,
        two_stages_fit(*config, n as nat),
    ensures
        r.fits(),
        (r.first as nat, r.second as nat) == shares(least(config.compute_workers as nat, n as nat)),
        r.capacity == room_for(*config, most(r.first as nat, r.second as nat)),
{
    let (first, second) = split_workers(stream_workers(config, n));
    let capacity: usize = channel_capacity(config.buffer_size, first.max(second));
    TwoStages { first, second, capacity }
}

/// Both stages of a two-stage run get a worker, and together they take no more
/// than the workers there are, so that neither waits for the other's workers.
pub proof fn law_two_stages_share_workers(parallelism: nat)
    ensures
        shares(parallelism).0 >= 1,
        shares(parallelism).1 >= 1,
        parallelism >= 2 ==> shares(parallelism).0 + shares(parallelism).1 == parallelism,
{
}

/// `outs` are results of `stage` for the first items, in order.
pub open spec fn staged<I, O, F: Fn(I) -> O>(stage: F, items: Seq<I>, outs: Seq<O>) -> bool {
    &&& outs.len() <= items.len()
    &&& forall|i: int| 0 <= i < outs.len() ==> stage.ensures((items[i],), #[trigger] outs[i])
}

/// Whether `stage` may be called on every item.
pub open spec fn stage_accepts<I, O, F: Fn(I) -> O>(stage: F, items: Seq<I>) -> bool {
    forall|i: int| 0 <= i < items.len() ==> stage.requires((#[trigger] items[i],))
}

/// The items with their positions.
fn tag<I>(items: Vec<I>) -> (r: Vec<(u64, I)>)
    ensures
        r@ == tagged(items@),
{
    let ghost all = items@;
    let mut r: Vec<(u64, I)> = Vec::with_capacity(items.len());
    let mut seq: u64 = 0;
    for item in it: items
        invariant
            it.seq() == all,
            all.len() <= usize::MAX,
            seq == it.index(),
            r@ == Seq::new(it.index() as nat, |i: int| (i as u64, all[i])),
    {
        r.push((seq, item));
        seq = seq + 1;
    }
    r
}

/// The values of tagged arrivals, in order.
spec fn values<O>(arrivals: Seq<(u64, O)>) -> Seq<O> {
    Seq::new(arrivals.len(), |i: int| arrivals[i].1)
}

/// Arrivals tagged by position are tagged values.
proof fn lemma_tagged_values<O>(arrivals: Seq<(u64, O)>)
    requires
        arrivals.len() <= u64::MAX,
        forall|i: int| 0 <= i < arrivals.len() ==> (#[trigger] arrivals[i]).0 == i,
    ensures
        arrivals == tagged(values(arrivals)),
{
    assert(arrivals =~= tagged(values(arrivals)));
}

/// Collects arrivals that are tagged by position.
fn collect_tagged<O>(arrivals: Vec<(u64, O)>, n: usize) -> (r: Vec<O>)
    requires
        forall|i: int| 0 <= i < arrivals@.len() ==> (#[trigger] arrivals@[i]).0 == i,
    ensures
        r@ == values(arrivals@),
{
    let ghost all = arrivals@;
    let count: usize = arrivals.len();
    assert(all.len() == count);
    let r = collect_ordered(arrivals, n);
    proof {
        law_window_holds_expected(n as nat);
        lemma_tagged_values(all);
        lemma_ordered_result_in_order(window(n as nat), values(all), r@);
    }
    r
}

/// `r` is what a run of `stage` over `items` returns: the results of the first
/// items, in item order or in any.
pub open spec fn ran<I, O, F: Fn(I) -> O>(stage: F, items: Seq<I>, r: Seq<O>, ordered: bool) -> bool {
    if ordered {
        staged(stage, items, r)
    } else {
        exists|outs: Seq<O>| #[trigger]
            staged(stage, items, outs) && r.to_multiset() == outs.to_multiset() && r.len()
                == outs.len()
    }
}

/// `r` is what a run of two stages over `items` returns.
pub open spec fn ran_twice<I, M, O, F: Fn(I) -> M, G: Fn(M) -> O>(
    first: F,
    second: G,
    items: Seq<I>,
    r: Seq<O>,
    ordered: bool,
) -> bool {
    exists|mids: Seq<M>| #[trigger] staged(first, items, mids) && ran(second, mids, r, ordered)
}

/// Whether the second stage may be called on whatever the first returns.
pub open spec fn chained<I, M, O, F: Fn(I) -> M, G: Fn(M) -> O>(
    first: F,
    second: G,
    items: Seq<I>,
) -> bool {
    &&& stage_accepts(first, items)
    &&& forall|i: int, m: M|
        0 <= i < items.len() && #[trigger] first.ensures((items[i],), m) ==> second.requires((m,))
}

/// Results of two stages in item order are one of the orders.
proof fn lemma_ran_twice<I, M, O, F: Fn(I) -> M, G: Fn(M) -> O>(
    first: F,
    second: G,
    items: Seq<I>,
    r: Seq<O>,
)
    requires
        staged_twice(first, second, items, r),
    ensures
        ran_twice(first, second, items, r, false),
{
    let mids = choose|mids: Seq<M>| #[trigger]
        staged(first, items, mids) && staged(second, mids, r);
    assert(ran(second, mids, r, false));
}

/// A run over nothing returns nothing.
proof fn lemma_nothing_ran<I, M, O, F: Fn(I) -> M, G: Fn(M) -> O>(
    first: F,
    second: G,
    items: Seq<I>,
)
    ensures
        ran_twice(first, second, items, Seq::<O>::empty(), true),
        ran_twice(first, second, items, Seq::<O>::empty(), false),
{
    let mids = Seq::<M>::empty();
    assert(staged(first, items, mids));
    assert(staged(second, mids, Seq::<O>::empty()));
    assert(ran(second, mids, Seq::<O>::empty(), true));
    assert(ran(second, mids, Seq::<O>::empty(), false));
}

/// `both` does what `second` does after `first`.
pub open spec fn composes<I, M, O, F: Fn(I) -> M, G: Fn(M) -> O, H: Fn(I) -> O>(
    first: F,
    second: G,
    both: H,
) -> bool {
    forall|x: I, o: O| #[trigger]
        both.ensures((x,), o) <==> exists|m: M| #[trigger]
            first.ensures((x,), m) && second.ensures((m,), o)
}

/// What `first` made of `x` for `second` to make `o` of it.
spec fn between<I, M, O, F: Fn(I) -> M, G: Fn(M) -> O>(first: F, second: G, x: I, o: O) -> M {
    choose|m: M| #[trigger] first.ensures((x,), m) && second.ensures((m,), o)
}

/// Two stages in item order are one stage that does what both do.
proof fn lemma_composed<I, M, O, F: Fn(I) -> M, G: Fn(M) -> O, H: Fn(I) -> O>(
    first: F,
    second: G,
    both: H,
    items: Seq<I>,
    outs: Seq<O>,
)
    requires
        composes(first, second, both),
    ensures
        staged_twice(first, second, items, outs) <==> staged(both, items, outs),
{
    if staged_twice(first, second, items, outs) {
        let mids = choose|mids: Seq<M>| #[trigger]
            staged(first, items, mids) && staged(second, mids, outs);
        assert forall|i: int| 0 <= i < outs.len() implies both.ensures((items[i],), #[trigger] outs[i]) by {
            assert(first.ensures((items[i],), mids[i]));
        }
    }
    if staged(both, items, outs) {
        let mids = Seq::new(outs.len(), |i: int| between(first, second, items[i], outs[i]));
        assert forall|i: int| 0 <= i < outs.len() implies first.ensures((items[i],), #[trigger] mids[i])
            && second.ensures((mids[i],), outs[i]) by {
            assert(both.ensures((items[i],), outs[i]));
        }
        assert(staged(first, items, mids));
        assert(staged(second, mids, outs));
    }
}

/// A run of two stages returns what a run of one stage returns that does what both do:
/// with order the same results in the same places, without it the same results in any
/// order.
pub proof fn law_two_stages_are_one<I, M, O, F: Fn(I) -> M, G: Fn(M) -> O, H: Fn(I) -> O>(
    first: F,
    second: G,
    both: H,
    items: Seq<I>,
    r: Seq<O>,
    ordered: bool,
)
    requires
        composes(first, second, both),
    ensures
        ran_twice(first, second, items, r, ordered) <==> ran(both, items, r, ordered),
{
    if ordered {
        lemma_composed(first, second, both, items, r);
        if staged_twice(first, second, items, r) {
            let mids = choose|mids: Seq<M>| #[trigger]
                staged(first, items, mids) && staged(second, mids, r);
            assert(ran(second, mids, r, true));
        }
    } else {
        if ran_twice(first, second, items, r, false) {
            let mids = choose|mids: Seq<M>| #[trigger]
                staged(first, items, mids) && ran(second, mids, r, false);
            let outs = choose|outs: Seq<O>| #[trigger]
                staged(second, mids, outs) && r.to_multiset() == outs.to_multiset() && r.len()
                    == outs.len();
            lemma_composed(first, second, both, items, outs);
            assert(staged(both, items, outs));
        }
        if ran(both, items, r, false) {
            let outs = choose|outs: Seq<O>| #[trigger]
                staged(both, items, outs) && r.to_multiset() == outs.to_multiset() && r.len()
                    == outs.len();
            lemma_composed(first, second, both, items, outs);
            let mids = choose|mids: Seq<M>| #[trigger]
                staged(first, items, mids) && staged(second, mids, outs);
            assert(ran(second, mids, r, false));
        }
    }
}

/// Two complete runs of a stage that gives one result per item return the same: with
/// order in the same places, without it in some order.
pub proof fn law_complete_runs_agree<I, O, F: Fn(I) -> O>(
    stage: F,
    items: Seq<I>,
    r: Seq<O>,
    again: Seq<O>,
    ordered: bool,
)
    requires
        forall|i: int, a: O, b: O|
            0 <= i < items.len() && #[trigger] stage.ensures((items[i],), a)
                && #[trigger] stage.ensures((items[i],), b) ==> a == b,
        ran(stage, items, r, ordered),
        ran(stage, items, again, ordered),
        r.len() == items.len(),
        again.len() == items.len(),
    ensures
        ordered ==> r == again,
        r.to_multiset() == again.to_multiset(),
{
    if ordered {
        assert forall|i: int| 0 <= i < r.len() implies r[i] == again[i] by {
            assert(stage.ensures((items[i],), r[i]));
            assert(stage.ensures((items[i],), again[i]));
        }
        assert(r =~= again);
    } else {
        let outs = choose|outs: Seq<O>| #[trigger]
            staged(stage, items, outs) && r.to_multiset() == outs.to_multiset() && r.len()
                == outs.len();
        let others = choose|outs: Seq<O>| #[trigger]
            staged(stage, items, outs) && again.to_multiset() == outs.to_multiset() && again.len()
                == outs.len();
        assert forall|i: int| 0 <= i < outs.len() implies outs[i] == others[i] by {
            assert(stage.ensures((items[i],), outs[i]));
            assert(stage.ensures((items[i],), others[i]));
        }
        assert(outs =~= others);
    }
}

/// A run of two stages over tagged items, with a fence between them or without;
/// the results are collected by tag.
fn run_tagged_stages<
    I: Send + 'static,
    M: Send + 'static,
    O: Send + 'static,
    F: Fn(I) -> M,
    G: Fn(M) -> O,
    C: Stops,
>(
    items: Vec<I>,
    fence: Option<FenceMode>,
    workers: &TwoStages,
    cancel: &C,
    stage1: &F,
    stage2: &G,
    log: &mut RunLog,
) -> (r: Vec<O>)
    requires
        chained(*stage1, *stage2, items@),
        workers.fits(),
    ensures
        ran_twice(*stage1, *stage2, items@, r@, true),
        !saw_set(old(log).uses@, final(log).uses@) ==> r@.len() == items@.len(),
        watched(cancel.token(), old(log).uses@, final(log).uses@),
        looked_first(
            cancel.token(),
            old(log)@,
            old(log).uses@,
            final(log)@,
            final(log).uses@,
        ),
        kept_stopped(cancel.token(), old(log).uses@, final(log).uses@) ==> r@.len() == 0,
        ran_on_record(cancel.token(), items@.len(), r@.len(), *old(log), *final(log)),
        fence == Some(FenceMode::Barrier) ==> in_two_phases(since(old(log)@, final(log)@)),
{
    let n: usize = items.len();
    let ghost all = items@;
    let tagged_items = tag(items);
    let ghost given = tagged_items@;
    let threaded1 = |entry: (u64, I)| -> (r: (u64, M))
        requires
            stage1.requires((entry.1,)),
        ensures
            r.0 == entry.0,
            stage1.ensures((entry.1,), r.1),
        { (entry.0, stage1(entry.1)) };
    let threaded2 = |entry: (u64, M)| -> (r: (u64, O))
        requires
            stage2.requires((entry.1,)),
        ensures
            r.0 == entry.0,
            stage2.ensures((entry.1,), r.1),
        { (entry.0, stage2(entry.1)) };
    proof {
        assert forall|i: int| 0 <= i < given.len() implies threaded1.requires(
            (#[trigger] given[i],),
        ) by {
            assert(stage1.requires((all[i],)));
        }
        assert forall|i: int, m: (u64, M)|
            0 <= i < given.len() && #[trigger] threaded1.ensures(
                (given[i],),
                m,
            ) implies threaded2.requires((m,)) by {
            assert(stage1.ensures((all[i],), m.1));
        }
    }
    let first = Logged::first(threaded1);
    let second = Logged::second(threaded2);
    let arrivals = match fence {
        Some(mode) => run_fenced_stages(
            tagged_items,
            mode,
            workers,
            cancel,
            &first,
            &second,
            log,
        ),
        None => run_two_stages(tagged_items, workers, cancel, &first, &second, log),
    };
    let ghost came = arrivals@;
    proof {
        let mids = choose|mids: Seq<(u64, M)>| #[trigger]
            staged(threaded1, given, mids) && staged(threaded2, mids, came);
        assert forall|i: int| 0 <= i < mids.len() implies stage1.ensures(
            (all[i],),
            #[trigger] values(mids)[i],
        ) && mids[i].0 == i by {
            assert(threaded1.ensures((given[i],), mids[i]));
        }
        assert(staged(*stage1, all, values(mids)));
        assert forall|i: int| 0 <= i < came.len() implies (#[trigger] came[i]).0 == i
            && stage2.ensures((values(mids)[i],), came[i].1) by {
            assert(threaded2.ensures((mids[i],), came[i]));
            assert(values(mids)[i] == mids[i].1);
        }
        assert(staged(*stage2, values(mids), values(came)));
        assert(ran(*stage2, values(mids), values(came), true));
    }
    collect_tagged(arrivals, n)
}

/// `log` is a record of a run of two stages over `n` items with a fence, of which `came`
/// results came: the second stage was called as often, and the first at least as often,
/// both for every item unless the run was stopped; before a barrier was passed, the first
/// was done.
pub open spec fn is_fenced_record(
    cancel: Option<CancellationToken>,
    mode: FenceMode,
    n: nat,
    came: nat,
    log: RunLog,
) -> bool {
    &&& calls(log@, Step::Second) == came
    &&& came <= calls(log@, Step::First) <= n
    &&& !signalled(cancel) ==> calls(log@, Step::First) == n && came == n
    &&& mode is Barrier ==> in_two_phases(log@)
}

/// `log` is a record of a run of one stage over `n` items, of which `came` results came: the
/// stage was called once for each of them, and the token was only read. Where no reading
/// found it set, and there are `workers`, every item has its result; where every one did,
/// none has.
pub open spec fn is_single_record(
    cancel: Option<CancellationToken>,
    n: nat,
    workers: usize,
    came: nat,
    log: RunLog,
) -> bool {
    &&& watched(cancel, Seq::empty(), log.uses@)
    &&& looked_first(cancel, Seq::empty(), Seq::empty(), log@, log.uses@)
    &&& log@ == steps_of(Step::First, came)
    &&& !saw_set(Seq::empty(), log.uses@) && workers > 0 ==> came == n
    &&& kept_stopped(cancel, Seq::empty(), log.uses@) ==> came == 0
}

/// `log` is a record of a run of two stages over `n` items, of which `came` results came:
/// the second stage was called once for each of them, the first at least as often and at
/// most once for each item, and the token was only read. Where no reading found it set,
/// both were called for every item; where every one did, neither was called.
pub open spec fn is_double_record(
    cancel: Option<CancellationToken>,
    n: nat,
    came: nat,
    log: RunLog,
) -> bool {
    &&& watched(cancel, Seq::empty(), log.uses@)
    &&& looked_first(cancel, Seq::empty(), Seq::empty(), log@, log.uses@)
    &&& calls(log@, Step::Second) == came
    &&& came <= calls(log@, Step::First) <= n
    &&& !saw_set(Seq::empty(), log.uses@) ==> calls(log@, Step::First) == n && came == n
    &&& kept_stopped(cancel, Seq::empty(), log.uses@) ==> log@.len() == 0
}

/// A run under a token that was cancelled for good before is kept stopped.
proof fn lemma_stopped_for_good(
    cancel: Option<CancellationToken>,
    before: Seq<FlagUse>,
    after: Seq<FlagUse>,
)
    requires
        watched(cancel, before, after),
    ensures
        cancelled_for_good(cancel, before) ==> kept_stopped(cancel, before, after),
{
    if cancelled_for_good(cancel, before) {
        law_cancelled_for_good_is_never_clear(cancel, before, after);
    }
}

/// A streaming pipeline for one or two stages.
pub struct StreamPipeline {
    config: PipelineConfig,
    cancel: Watch,
}

impl StreamPipeline {
    /// The settings of a run.
    pub closed spec fn settings(&self) -> PipelineConfig {
        self.config
    }

    /// The token that stops a run, where one is attached.
    pub closed spec fn token(&self) -> Option<CancellationToken> {
        self.cancel.token()
    }

    /// A pipeline that runs to the end.
    #[must_use]
    pub fn new(config: PipelineConfig) -> (r: Self)
        ensures
            r.settings() == config,
            r.token() is None,
    {
        StreamPipeline { config, cancel: Watch::nothing() }
    }

    /// Attaches a token that stops a run early.
    #[must_use]
    pub fn with_cancel(self, token: CancellationToken) -> (r: Self)
        ensures
            r.settings() == self.settings(),
            r.token() == Some(token),
        opens_invariants none
    {
        StreamPipeline { config: self.config, cancel: Watch::over(token) }
    }

    /// Runs `stage` over `items`. With `ordered` the results are in item order,
    /// else in any. Every item has its result unless the run was stopped.
    pub fn run<I: Send + 'static, O: Send + 'static, F>(
        &self,
        items: Vec<I>,
        stage: F,
        ordered: bool,
    ) -> (r: Vec<O>) where F: Fn(I) -> O
        requires
            stage_accepts(stage, items@),
            one_stage_fits(self.settings(), items@.len()),
        ensures
            ran(stage, items@, r@, ordered),
            !signalled(self.token()) && self.settings().compute_workers > 0 ==> r@.len()
                == items@.len(),
            self.settings().compute_workers == 0 ==> r@.len() == 0,
            stopped(self.token()) ==> r@.len() == 0,
            exists|log: RunLog| #[trigger]
                is_single_record(
                    self.token(),
                    items@.len(),
                    self.settings().compute_workers,
                    r@.len(),
                    log,
                ),
    {
        let ghost n = items@.len();
        let ghost workers = self.settings().compute_workers;
        let mut log = RunLog::new();
        let r = self.run_on_record(items, stage, ordered, &mut log);
        proof {
            lemma_seen(self.token(), Seq::empty(), log.uses@);
            assert(log@ =~= steps_of(Step::First, r@.len()));
            assert(is_single_record(self.token(), n, workers, r@.len(), log));
        }
        r
    }

    /// A [`StreamPipeline::run`] on record. Every item has its result unless a reading of
    /// the token in the run found it set, and no item has one where every reading did, or
    /// where the token was cancelled for good before. The stage is called once for each
    /// result.
    pub fn run_on_record<I: Send + 'static, O: Send + 'static, F>(
        &self,
        items: Vec<I>,
        stage: F,
        ordered: bool,
        log: &mut RunLog,
    ) -> (r: Vec<O>) where F: Fn(I) -> O
        requires
            stage_accepts(stage, items@),
            one_stage_fits(self.settings(), items@.len()),
        ensures
            ran(stage, items@, r@, ordered),
            watched(self.token(), old(log).uses@, final(log).uses@),
            looked_first(
                self.token(),
                old(log)@,
                old(log).uses@,
                final(log)@,
                final(log).uses@,
            ),
            !saw_set(old(log).uses@, final(log).uses@) && self.settings().compute_workers > 0
                ==> r@.len() == items@.len(),
            self.settings().compute_workers == 0 ==> r@.len() == 0,
            kept_stopped(self.token(), old(log).uses@, final(log).uses@) ==> r@.len() == 0,
            cancelled_for_good(self.token(), old(log).uses@) ==> r@.len() == 0,
            final(log)@ == old(log)@ + steps_of(Step::First, r@.len()),
    {
        let r = if ordered {
            self.run_ordered(items, stage, log)
        } else {
            self.run_unordered(items, stage, log)
        };
        proof {
            lemma_stopped_for_good(self.token(), old(log).uses@, log.uses@);
        }
        r
    }

    fn run_ordered<I: Send + 'static, O: Send + 'static, F>(&self, items: Vec<I>, stage: F, log: &mut RunLog) -> (r: Vec<O>) where
        F: Fn(I) -> O,

        requires
            stage_accepts(stage, items@),
            one_stage_fits(self.settings(), items@.len()),
        ensures
            staged(stage, items@, r@),
            !saw_set(old(log).uses@, final(log).uses@) && self.settings().compute_workers > 0
                ==> r@.len() == items@.len(),
            self.settings().compute_workers == 0 ==> r@.len() == 0,
            watched(self.token(), old(log).uses@, final(log).uses@),
            looked_first(
                self.token(),
                old(log)@,
                old(log).uses@,
                final(log)@,
                final(log).uses@,
            ),
            kept_stopped(self.token(), old(log).uses@, final(log).uses@) ==> r@.len() == 0,
            final(log)@ == old(log)@ + steps_of(Step::First, r@.len()),
    {
        let n: usize = items.len();
        proof {
            lemma_steps_join(log@, Step::First, 0, 0);
            lemma_watched_nothing(self.token(), log.uses@);
        }
        if n == 0 {
            return Vec::new();
        }
        let workers: usize = stream_workers(&self.config, n);
        let capacity: usize = channel_capacity(self.config.buffer_size, workers);
        let ghost all = items@;
        let tagged_items = tag(items);
        let ghost given = tagged_items@;
        let work = &stage;
        let threaded = |entry: (u64, I)| -> (r: (u64, O))
            requires
                work.requires((entry.1,)),
            ensures
                r.0 == entry.0,
                work.ensures((entry.1,), r.1),
            { (entry.0, work(entry.1)) };
        proof {
            assert forall|i: int| 0 <= i < given.len() implies threaded.requires(
                (#[trigger] given[i],),
            ) by {
                assert(stage.requires((all[i],)));
            }
        }
        let arrivals = run_one_stage(
            tagged_items,
            true,
            workers,
            capacity,
            &self.cancel,
            &Logged::first(threaded),
            log,
        );
        let ghost came = arrivals@;
        proof {
            assert forall|i: int| 0 <= i < came.len() implies (#[trigger] came[i]).0 == i
                && stage.ensures((all[i],), came[i].1) by {
                assert(threaded.ensures((given[i],), came[i]));
            }
        }
        collect_tagged(arrivals, n)
    }

    fn run_unordered<I: Send + 'static, O: Send + 'static, F>(&self, items: Vec<I>, stage: F, log: &mut RunLog) -> (r: Vec<O>) where
        F: Fn(I) -> O,

        requires
            stage_accepts(stage, items@),
            one_stage_fits(self.settings(), items@.len()),
        ensures
            ran(stage, items@, r@, false),
            !saw_set(old(log).uses@, final(log).uses@) && self.settings().compute_workers > 0
                ==> r@.len() == items@.len(),
            self.settings().compute_workers == 0 ==> r@.len() == 0,
            watched(self.token(), old(log).uses@, final(log).uses@),
            looked_first(
                self.token(),
                old(log)@,
                old(log).uses@,
                final(log)@,
                final(log).uses@,
            ),
            kept_stopped(self.token(), old(log).uses@, final(log).uses@) ==> r@.len() == 0,
            final(log)@ == old(log)@ + steps_of(Step::First, r@.len()),
    {
        let n: usize = items.len();
        proof {
            lemma_steps_join(log@, Step::First, 0, 0);
            lemma_watched_nothing(self.token(), log.uses@);
        }
        let ghost all = items@;
        if n == 0 {
            let none: Vec<O> = Vec::new();
            assert(staged(stage, all, none@));
            return none;
        }
        let workers: usize = stream_workers(&self.config, n);
        let capacity: usize = channel_capacity(self.config.buffer_size, workers);
        let r = run_one_stage(
            items,
            true,
            workers,
            capacity,
            &self.cancel,
            &Logged::first(stage),
            log,
        );
        assert(staged(stage, all, r@));
        r
    }

    /// Runs `stage1` and then `stage2` over `items`.
    pub fn run_multi_stage<I: Send + 'static, M: Send + 'static, O: Send + 'static, F, G>(
        &self,
        items: Vec<I>,
        stage1: F,
        stage2: G,
        ordered: bool,
    ) -> (r: Vec<O>) where F: Fn(I) -> M, G: Fn(M) -> O
        requires
            chained(stage1, stage2, items@),
            two_stages_fit(self.settings(), items@.len()),
        ensures
            ran_twice(stage1, stage2, items@, r@, ordered),
            !signalled(self.token()) ==> r@.len() == items@.len(),
            stopped(self.token()) ==> r@.len() == 0,
            exists|log: RunLog| #[trigger]
                is_double_record(self.token(), items@.len(), r@.len(), log),
    {
        let ghost n = items@.len();
        let mut log = RunLog::new();
        let r = self.run_multi_stage_on_record(items, stage1, stage2, ordered, &mut log);
        proof {
            lemma_seen(self.token(), Seq::empty(), log.uses@);
            assert(since(Seq::empty(), log@) =~= log@);
            assert(is_double_record(self.token(), n, r@.len(), log));
        }
        r
    }

    /// A [`StreamPipeline::run_multi_stage`] on record. Every item has its result unless a
    /// reading of the token in the run found it set, and no item has one where every
    /// reading did, or where the token was cancelled for good before; then no stage is
    /// called either.
    pub fn run_multi_stage_on_record<I: Send + 'static, M: Send + 'static, O: Send + 'static, F, G>(
        &self,
        items: Vec<I>,
        stage1: F,
        stage2: G,
        ordered: bool,
        log: &mut RunLog,
    ) -> (r: Vec<O>) where F: Fn(I) -> M, G: Fn(M) -> O
        requires
            chained(stage1, stage2, items@),
            two_stages_fit(self.settings(), items@.len()),
        ensures
            ran_twice(stage1, stage2, items@, r@, ordered),
            watched(self.token(), old(log).uses@, final(log).uses@),
            looked_first(
                self.token(),
                old(log)@,
                old(log).uses@,
                final(log)@,
                final(log).uses@,
            ),
            !saw_set(old(log).uses@, final(log).uses@) ==> r@.len() == items@.len(),
            kept_stopped(self.token(), old(log).uses@, final(log).uses@) ==> r@.len() == 0,
            cancelled_for_good(self.token(), old(log).uses@)
                ==> r@.len() == 0 && final(log)@ == old(log)@,
            ran_on_record(self.token(), items@.len(), r@.len(), *old(log), *final(log)),
    {
        let r = if ordered {
            self.run_multi_stage_ordered(items, stage1, stage2, log)
        } else {
            self.run_multi_stage_unordered(items, stage1, stage2, log)
        };
        proof {
            lemma_stopped_for_good(self.token(), old(log).uses@, log.uses@);
            if cancelled_for_good(self.token(), old(log).uses@) {
                assert(log@ =~= old(log)@);
            }
        }
        r
    }

    fn run_multi_stage_ordered<I: Send + 'static, M: Send + 'static, O: Send + 'static, F, G>(
        &self,
        items: Vec<I>,
        stage1: F,
        stage2: G,
        log: &mut RunLog,
    ) -> (r: Vec<O>) where F: Fn(I) -> M, G: Fn(M) -> O
        requires
            chained(stage1, stage2, items@),
            two_stages_fit(self.settings(), items@.len()),
        ensures
            ran_twice(stage1, stage2, items@, r@, true),
            !saw_set(old(log).uses@, final(log).uses@) ==> r@.len() == items@.len(),
            watched(self.token(), old(log).uses@, final(log).uses@),
            looked_first(
                self.token(),
                old(log)@,
                old(log).uses@,
                final(log)@,
                final(log).uses@,
            ),
            kept_stopped(self.token(), old(log).uses@, final(log).uses@) ==> r@.len() == 0,
            ran_on_record(self.token(), items@.len(), r@.len(), *old(log), *final(log)),
    {
        let n: usize = items.len();
        let ghost all = items@;
        if n == 0 {
            let none: Vec<O> = Vec::new();
            proof {
                lemma_nothing_ran(stage1, stage2, all);
                assert(since(log@, log@) =~= Seq::empty());
                lemma_watched_nothing(self.token(), log.uses@);
            }
            return none;
        }
        let workers = plan_two_stages(&self.config, n);
        run_tagged_stages(items, None, &workers, &self.cancel, &stage1, &stage2, log)
    }

    fn run_multi_stage_unordered<I: Send + 'static, M: Send + 'static, O: Send + 'static, F, G>(
        &self,
        items: Vec<I>,
        stage1: F,
        stage2: G,
        log: &mut RunLog,
    ) -> (r: Vec<O>) where F: Fn(I) -> M, G: Fn(M) -> O
        requires
            chained(stage1, stage2, items@),
            two_stages_fit(self.settings(), items@.len()),
        ensures
            ran_twice(stage1, stage2, items@, r@, false),
            !saw_set(old(log).uses@, final(log).uses@) ==> r@.len() == items@.len(),
            watched(self.token(), old(log).uses@, final(log).uses@),
            looked_first(
                self.token(),
                old(log)@,
                old(log).uses@,
                final(log)@,
                final(log).uses@,
            ),
            kept_stopped(self.token(), old(log).uses@, final(log).uses@) ==> r@.len() == 0,
            ran_on_record(self.token(), items@.len(), r@.len(), *old(log), *final(log)),
    {
        let n: usize = items.len();
        let ghost all = items@;
        if n == 0 {
            let none: Vec<O> = Vec::new();
            proof {
                lemma_nothing_ran(stage1, stage2, all);
                assert(since(log@, log@) =~= Seq::empty());
                lemma_watched_nothing(self.token(), log.uses@);
            }
            return none;
        }
        let workers = plan_two_stages(&self.config, n);
        let first = Logged::first(stage1);
        let second = Logged::second(stage2);
        let r = run_two_stages(items, &workers, &self.cancel, &first, &second, log);
        proof {
            lemma_ran_twice(stage1, stage2, all, r@);
        }
        r
    }

    /// Runs `stage1` and then `stage2` over `items`, with a fence between them. Where `mode`
    /// is a barrier, every call of `stage1` comes before any of `stage2`; the record of the
    /// calls is handed out by [`StreamPipeline::run_with_fence_on_record`].
    pub fn run_with_fence<I: Send + 'static, M: Send + 'static, O: Send + 'static, F, G>(
        &self,
        items: Vec<I>,
        stage1: F,
        stage2: G,
        mode: FenceMode,
        ordered: bool,
    ) -> (r: Vec<O>) where F: Fn(I) -> M, G: Fn(M) -> O
        requires
            chained(stage1, stage2, items@),
            two_stages_fit(self.settings(), items@.len()),
        ensures
            ran_twice(stage1, stage2, items@, r@, ordered),
            !signalled(self.token()) ==> r@.len() == items@.len(),
            stopped(self.token()) ==> r@.len() == 0,
            exists|log: RunLog| #[trigger]
                is_fenced_record(self.token(), mode, items@.len(), r@.len(), log)
                    && is_double_record(self.token(), items@.len(), r@.len(), log),
    {
        let ghost n = items@.len();
        let mut log = RunLog::new();
        let r = self.run_with_fence_on_record(items, stage1, stage2, mode, ordered, &mut log);
        proof {
            lemma_seen(self.token(), Seq::empty(), log.uses@);
            assert(since(Seq::empty(), log@) =~= log@);
            assert(is_fenced_record(self.token(), mode, n, r@.len(), log));
        }
        r
    }

    /// A [`StreamPipeline::run_with_fence`] on record. Where `mode` is a barrier, every call
    /// of `stage1` comes before any of `stage2`. The rest is as without a fence.
    pub fn run_with_fence_on_record<I: Send + 'static, M: Send + 'static, O: Send + 'static, F, G>(
        &self,
        items: Vec<I>,
        stage1: F,
        stage2: G,
        mode: FenceMode,
        ordered: bool,
        log: &mut RunLog,
    ) -> (r: Vec<O>) where F: Fn(I) -> M, G: Fn(M) -> O
        requires
            chained(stage1, stage2, items@),
            two_stages_fit(self.settings(), items@.len()),
        ensures
            ran_twice(stage1, stage2, items@, r@, ordered),
            watched(self.token(), old(log).uses@, final(log).uses@),
            looked_first(
                self.token(),
                old(log)@,
                old(log).uses@,
                final(log)@,
                final(log).uses@,
            ),
            !saw_set(old(log).uses@, final(log).uses@) ==> r@.len() == items@.len(),
            kept_stopped(self.token(), old(log).uses@, final(log).uses@) ==> r@.len() == 0,
            cancelled_for_good(self.token(), old(log).uses@)
                ==> r@.len() == 0 && final(log)@ == old(log)@,
            ran_on_record(self.token(), items@.len(), r@.len(), *old(log), *final(log)),
            mode is Barrier ==> in_two_phases(since(old(log)@, final(log)@)),
    {
        let r = if ordered {
            self.run_with_fence_ordered(items, stage1, stage2, mode, log)
        } else {
            self.run_with_fence_unordered(items, stage1, stage2, mode, log)
        };
        proof {
            lemma_stopped_for_good(self.token(), old(log).uses@, log.uses@);
            if cancelled_for_good(self.token(), old(log).uses@) {
                assert(log@ =~= old(log)@);
            }
        }
        r
    }

    fn run_with_fence_ordered<I: Send + 'static, M: Send + 'static, O: Send + 'static, F, G>(
        &self,
        items: Vec<I>,
        stage1: F,
        stage2: G,
        mode: FenceMode,
        log: &mut RunLog,
    ) -> (r: Vec<O>) where F: Fn(I) -> M, G: Fn(M) -> O
        requires
            chained(stage1, stage2, items@),
            two_stages_fit(self.settings(), items@.len()),
        ensures
            ran_twice(stage1, stage2, items@, r@, true),
            !saw_set(old(log).uses@, final(log).uses@) ==> r@.len() == items@.len(),
            watched(self.token(), old(log).uses@, final(log).uses@),
            looked_first(
                self.token(),
                old(log)@,
                old(log).uses@,
                final(log)@,
                final(log).uses@,
            ),
            kept_stopped(self.token(), old(log).uses@, final(log).uses@) ==> r@.len() == 0,
            ran_on_record(self.token(), items@.len(), r@.len(), *old(log), *final(log)),
            mode is Barrier ==> in_two_phases(since(old(log)@, final(log)@)),
    {
        let n: usize = items.len();
        let ghost all = items@;
        if n == 0 {
            let none: Vec<O> = Vec::new();
            proof {
                lemma_nothing_ran(stage1, stage2, all);
                assert(since(log@, log@) =~= Seq::empty());
                lemma_watched_nothing(self.token(), log.uses@);
            }
            return none;
        }
        let workers = plan_two_stages(&self.config, n);
        run_tagged_stages(items, Some(mode), &workers, &self.cancel, &stage1, &stage2, log)
    }

    fn run_with_fence_unordered<I: Send + 'static, M: Send + 'static, O: Send + 'static, F, G>(
        &self,
        items: Vec<I>,
        stage1: F,
        stage2: G,
        mode: FenceMode,
        log: &mut RunLog,
    ) -> (r: Vec<O>) where F: Fn(I) -> M, G: Fn(M) -> O
        requires
            chained(stage1, stage2, items@),
            two_stages_fit(self.settings(), items@.len()),
        ensures
            ran_twice(stage1, stage2, items@, r@, false),
            !saw_set(old(log).uses@, final(log).uses@) ==> r@.len() == items@.len(),
            watched(self.token(), old(log).uses@, final(log).uses@),
            looked_first(
                self.token(),
                old(log)@,
                old(log).uses@,
                final(log)@,
                final(log).uses@,
            ),
            kept_stopped(self.token(), old(log).uses@, final(log).uses@) ==> r@.len() == 0,
            ran_on_record(self.token(), items@.len(), r@.len(), *old(log), *final(log)),
            mode is Barrier ==> in_two_phases(since(old(log)@, final(log)@)),
    {
        let n: usize = items.len();
        let ghost all = items@;
        if n == 0 {
            let none: Vec<O> = Vec::new();
            proof {
                lemma_nothing_ran(stage1, stage2, all);
                assert(since(log@, log@) =~= Seq::empty());
                lemma_watched_nothing(self.token(), log.uses@);
            }
            return none;
        }
        let workers = plan_two_stages(&self.config, n);
        let first = Logged::first(stage1);
        let second = Logged::second(stage2);
        let r = run_fenced_stages(items, mode, &workers, &self.cancel, &first, &second, log);
        proof {
            lemma_ran_twice(stage1, stage2, all, r@);
        }
        r
    }

    /// Expands every item with `outer_stage` and runs `inner_stage` over what it
    /// was expanded to.
    pub fn run_nested<I, N: Send + 'static, O: Send + 'static, F, G>(
        &self,
        items: Vec<I>,
        outer_stage: F,
        inner_stage: G,
        ordered: bool,
    ) -> (r: Vec<O>) where F: Fn(I) -> Vec<N>, G: Fn(N) -> O
        requires
            nests(outer_stage, inner_stage, items@),
            nested_fits(self.settings(), outer_stage, items@),
        ensures
            ran_nested(
                outer_stage,
                inner_stage,
                items@,
                r@,
                ordered,
                !signalled(self.token()) && self.settings().compute_workers > 0,
            ),
            self.settings().compute_workers == 0 ==> r@.len() == 0,
            stopped(self.token()) ==> r@.len() == 0,
            exists|log: RunLog| #[trigger]
                is_single_record(
                    self.token(),
                    r@.len(),
                    self.settings().compute_workers,
                    r@.len(),
                    log,
                ),
    {
        let mut log = RunLog::new();
        let r = self.run_nested_on_record(items, outer_stage, inner_stage, ordered, &mut log);
        proof {
            lemma_seen(self.token(), Seq::empty(), log.uses@);
            assert(log@ =~= steps_of(Step::First, r@.len()));
            let workers = self.settings().compute_workers;
            assert(is_single_record(self.token(), r@.len(), workers, r@.len(), log));
        }
        r
    }

    /// A [`StreamPipeline::run_nested`] on record of the calls of the inner stage. What the
    /// items are expanded to has its results unless a reading of the token in the run
    /// found it set, and nothing has one where every reading did, or where the token was
    /// cancelled for good before.
    pub fn run_nested_on_record<I, N: Send + 'static, O: Send + 'static, F, G>(
        &self,
        items: Vec<I>,
        outer_stage: F,
        inner_stage: G,
        ordered: bool,
        log: &mut RunLog,
    ) -> (r: Vec<O>) where F: Fn(I) -> Vec<N>, G: Fn(N) -> O
        requires
            nests(outer_stage, inner_stage, items@),
            nested_fits(self.settings(), outer_stage, items@),
        ensures
            ran_nested(
                outer_stage,
                inner_stage,
                items@,
                r@,
                ordered,
                !saw_set(old(log).uses@, final(log).uses@) && self.settings().compute_workers > 0,
            ),
            watched(self.token(), old(log).uses@, final(log).uses@),
            looked_first(
                self.token(),
                old(log)@,
                old(log).uses@,
                final(log)@,
                final(log).uses@,
            ),
            self.settings().compute_workers == 0 ==> r@.len() == 0,
            kept_stopped(self.token(), old(log).uses@, final(log).uses@) ==> r@.len() == 0,
            cancelled_for_good(self.token(), old(log).uses@) ==> r@.len() == 0,
            final(log)@ == old(log)@ + steps_of(Step::First, r@.len()),
    {
        let r = if ordered {
            self.run_nested_ordered(items, outer_stage, inner_stage, log)
        } else {
            self.run_nested_unordered(items, outer_stage, inner_stage, log)
        };
        proof {
            lemma_stopped_for_good(self.token(), old(log).uses@, log.uses@);
        }
        r
    }

    fn run_nested_ordered<I, N: Send + 'static, O: Send + 'static, F, G>(
        &self,
        items: Vec<I>,
        outer_stage: F,
        inner_stage: G,
        log: &mut RunLog,
    ) -> (r: Vec<O>) where F: Fn(I) -> Vec<N>, G: Fn(N) -> O
        requires
            nests(outer_stage, inner_stage, items@),
            nested_fits(self.settings(), outer_stage, items@),
        ensures
            ran_nested(
                outer_stage,
                inner_stage,
                items@,
                r@,
                true,
                !saw_set(old(log).uses@, final(log).uses@) && self.settings().compute_workers > 0,
            ),
            self.settings().compute_workers == 0 ==> r@.len() == 0,
            watched(self.token(), old(log).uses@, final(log).uses@),
            looked_first(
                self.token(),
                old(log)@,
                old(log).uses@,
                final(log)@,
                final(log).uses@,
            ),
            kept_stopped(self.token(), old(log).uses@, final(log).uses@) ==> r@.len() == 0,
            final(log)@ == old(log)@ + steps_of(Step::First, r@.len()),
    {
        let ghost all = items@;
        let expanded = expand(items, &outer_stage);
        let ghost parts = choose|parts: Seq<Vec<N>>| #[trigger]
            expanded_by(outer_stage, all, parts) && expanded@ == joined(parts);
        proof {
            lemma_nested_accepts(outer_stage, inner_stage, all, parts);
        }
        let r = self.run_ordered(expanded, inner_stage, log);
        assert(expanded_by(outer_stage, all, parts));
        r
    }

    fn run_nested_unordered<I, N: Send + 'static, O: Send + 'static, F, G>(
        &self,
        items: Vec<I>,
        outer_stage: F,
        inner_stage: G,
        log: &mut RunLog,
    ) -> (r: Vec<O>) where F: Fn(I) -> Vec<N>, G: Fn(N) -> O
        requires
            nests(outer_stage, inner_stage, items@),
            nested_fits(self.settings(), outer_stage, items@),
        ensures
            ran_nested(
                outer_stage,
                inner_stage,
                items@,
                r@,
                false,
                !saw_set(old(log).uses@, final(log).uses@) && self.settings().compute_workers > 0,
            ),
            self.settings().compute_workers == 0 ==> r@.len() == 0,
            watched(self.token(), old(log).uses@, final(log).uses@),
            looked_first(
                self.token(),
                old(log)@,
                old(log).uses@,
                final(log)@,
                final(log).uses@,
            ),
            kept_stopped(self.token(), old(log).uses@, final(log).uses@) ==> r@.len() == 0,
            final(log)@ == old(log)@ + steps_of(Step::First, r@.len()),
    {
        let ghost all = items@;
        let expanded = expand(items, &outer_stage);
        let ghost parts = choose|parts: Seq<Vec<N>>| #[trigger]
            expanded_by(outer_stage, all, parts) && expanded@ == joined(parts);
        proof {
            lemma_nested_accepts(outer_stage, inner_stage, all, parts);
        }
        let r = self.run_unordered(expanded, inner_stage, log);
        assert(expanded_by(outer_stage, all, parts));
        r
    }
}

/// `parts` lists what every item is expanded to.
pub open spec fn expanded_by<I, N, F: Fn(I) -> Vec<N>>(
    outer: F,
    items: Seq<I>,
    parts: Seq<Vec<N>>,
) -> bool {
    &&& parts.len() == items.len()
    &&& forall|i: int| 0 <= i < items.len() ==> outer.ensures((items[i],), #[trigger] parts[i])
}

/// Whether the inner stage may be called on whatever an item is expanded to.
pub open spec fn nests<I, N, O, F: Fn(I) -> Vec<N>, G: Fn(N) -> O>(
    outer: F,
    inner: G,
    items: Seq<I>,
) -> bool {
    &&& stage_accepts(outer, items)
    &&& forall|i: int, part: Vec<N>|
        0 <= i < items.len() && #[trigger] outer.ensures((items[i],), part) ==> stage_accepts(
            inner,
            part@,
        )
}

/// Whether the channels can be had for whatever the items are expanded to.
pub open spec fn nested_fits<I, N, F: Fn(I) -> Vec<N>>(
    config: PipelineConfig,
    outer: F,
    items: Seq<I>,
) -> bool {
    forall|parts: Seq<Vec<N>>| #[trigger]
        expanded_by(outer, items, parts) ==> one_stage_fits(config, joined(parts).len())
}

/// `r` is what a nested run returns: the inner stage's results for the expanded
/// items, all of them where the run is `complete`.
pub open spec fn ran_nested<I, N, O, F: Fn(I) -> Vec<N>, G: Fn(N) -> O>(
    outer: F,
    inner: G,
    items: Seq<I>,
    r: Seq<O>,
    ordered: bool,
    complete: bool,
) -> bool {
    exists|parts: Seq<Vec<N>>| #[trigger]
        expanded_by(outer, items, parts) && ran(inner, joined(parts), r, ordered) && (complete
            ==> r.len() == joined(parts).len())
}

/// Every joined value stems from one of the parts.
proof fn lemma_joined_from<N>(parts: Seq<Vec<N>>, j: int) -> (at: (int, int))
    requires
        0 <= j < joined(parts).len(),
    ensures
        0 <= at.0 < parts.len(),
        0 <= at.1 < parts[at.0]@.len(),
        joined(parts)[j] == parts[at.0]@[at.1],
    decreases parts.len(),
{
    let prev = parts.drop_last();
    if j < joined(prev).len() {
        lemma_joined_from(prev, j)
    } else {
        (parts.len() - 1, j - joined(prev).len())
    }
}

proof fn lemma_nested_accepts<I, N, O, F: Fn(I) -> Vec<N>, G: Fn(N) -> O>(
    outer: F,
    inner: G,
    items: Seq<I>,
    parts: Seq<Vec<N>>,
)
    requires
        nests(outer, inner, items),
        expanded_by(outer, items, parts),
    ensures
        stage_accepts(inner, joined(parts)),
{
    assert forall|j: int| 0 <= j < joined(parts).len() implies inner.requires(
        (#[trigger] joined(parts)[j],),
    ) by {
        let at = lemma_joined_from(parts, j);
        assert(outer.ensures((items[at.0],), parts[at.0]));
        assert(inner.requires((parts[at.0]@[at.1],)));
    }
}

/// Expands every item and joins what they are expanded to.
fn expand<I, N, F>(items: Vec<I>, outer: &F) -> (r: Vec<N>) where F: Fn(I) -> Vec<N>
    requires
        stage_accepts(*outer, items@),
    ensures
        exists|parts: Seq<Vec<N>>| #[trigger]
            expanded_by(*outer, items@, parts) && r@ == joined(parts),
{
    let ghost all = items@;
    let ghost mut parts: Seq<Vec<N>> = Seq::empty();
    let mut r: Vec<N> = Vec::new();
    for item in it: items
        invariant
            it.seq() == all,
            stage_accepts(*outer, all),
            parts.len() == it.index(),
            forall|i: int| 0 <= i < parts.len() ==> outer.ensures((all[i],), #[trigger] parts[i]),
            r@ == joined(parts),
    {
        let mut part = outer(item);
        let ghost before = parts;
        proof {
            parts = parts.push(part);
            assert(parts.drop_last() =~= before);
        }
        r.append(&mut part);
    }
    assert(expanded_by(*outer, all, parts));
    r
}

/// A channel has room for what is configured, and for four items of every worker that reads
/// from it, and for no more than one of these asks for.
pub proof fn law_a_channel_has_room_for_its_workers(config: PipelineConfig, workers: nat)
    ensures
        room_for(config, workers) >= config.buffer_size,
        room_for(config, workers) >= workers * 4,
        room_for(config, workers) == config.buffer_size || room_for(config, workers) == workers * 4,
{
}

/// The smaller and the larger of two numbers are those two numbers.
pub proof fn law_least_and_most_are_the_two(a: nat, b: nat)
    ensures
        least(a, b) <= a && least(a, b) <= b,
        most(a, b) >= a && most(a, b) >= b,
        least(a, b) + most(a, b) == a + b,
{
}

/// The first of two stages has half of the workers, or one less than the second.
pub proof fn law_workers_are_halved(parallelism: nat)
    requires
        parallelism >= 2,
    ensures
        shares(parallelism).0 <= shares(parallelism).1 <= shares(parallelism).0 + 1,
{
}

} // verus!
