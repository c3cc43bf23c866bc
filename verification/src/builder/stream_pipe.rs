//! Streaming pipelines of any number of stages.
use crate::builder::config::PipelineConfig;
use crate::builder::steps::{
    Logged, RunLog, Step, calls, in_stage_order, lemma_next_stage, lemma_next_stage_calls,
    lemma_steps_join, looked_first, steps_of, within_stages,
};
use crate::builder::stream_pipeline::room_for;
use crate::builder::stream_workers::{asked_for_each, cancel_active, since};
use crate::builder::turns::run_one_stage;
use crate::executor::ComputePool;
use crate::handoff::channel::capacity_fits;
use crate::state::fence::{FenceMode, concat_batches, forward_fenced, law_forwarded_items};
use crate::state::stream::{
    collect_ordered, law_window_holds_expected, lemma_ordered_result_in_order, tagged, window,
};
use crate::sync::cancel::{
    cancelled_for_good, kept_stopped, law_cancelled_for_good_is_never_clear, lemma_seen,
    lemma_watched_joins, lemma_watched_nothing, saw_set, signalled, stopped, watched,
};
use crate::sync::CancellationToken;
use crate::sync::flag::new_record;
use crate::sync::watch::{Stops, Watch};
use std::marker::PhantomData;
use vstd::prelude::*;

verus! {

/// The start of a chain, before any stage.
#[derive(Clone, Copy)]
pub struct StreamStart;

/// Applies `f` to every item, on the compute workers.
pub struct SyncStage<Prev, F> {
    pub prev: Prev,
    pub f: F,
}

/// Turns every item into any number of items, on the compute workers.
pub struct ExpandStage<Prev, F> {
    pub prev: Prev,
    pub f: F,
}

/// Applies `f`, whose result is to be awaited, on the async runtime.
pub struct AsyncStage<Prev, F> {
    pub prev: Prev,
    pub f: F,
}

/// Holds items back between two stages.
pub struct FenceLink<Prev> {
    pub prev: Prev,
    pub mode: FenceMode,
}

impl<Prev: Clone, F: Clone> Clone for SyncStage<Prev, F> {
    fn clone(&self) -> (r: Self)
        ensures
            cloned(self.prev, r.prev),
            cloned(self.f, r.f),
    {
        SyncStage { prev: self.prev.clone(), f: self.f.clone() }
    }
}

impl<Prev: Clone, F: Clone> Clone for ExpandStage<Prev, F> {
    fn clone(&self) -> (r: Self)
        ensures
            cloned(self.prev, r.prev),
            cloned(self.f, r.f),
    {
        ExpandStage { prev: self.prev.clone(), f: self.f.clone() }
    }
}

impl<Prev: Clone, F: Clone> Clone for AsyncStage<Prev, F> {
    fn clone(&self) -> (r: Self)
        ensures
            cloned(self.prev, r.prev),
            cloned(self.f, r.f),
    {
        AsyncStage { prev: self.prev.clone(), f: self.f.clone() }
    }
}

impl<Prev: Clone> Clone for FenceLink<Prev> {
    fn clone(&self) -> (r: Self)
        ensures
            cloned(self.prev, r.prev),
            r.mode == self.mode,
    {
        FenceLink { prev: self.prev.clone(), mode: self.mode }
    }
}

/// What a chain is made of.
pub trait StageShape {
    /// How many stages take up compute workers.
    spec fn worker_stage_count(&self) -> nat;

    /// Whether a stage turns one item into several.
    spec fn expands(&self) -> bool;

    /// Whether the stage that reads the input is async; `None` where there is no
    /// stage.
    spec fn async_first(&self) -> Option<bool>;

    /// How many stages take up compute workers.
    fn worker_stages(&self) -> (n: usize)
        requires
            self.worker_stage_count() <= usize::MAX,
        ensures
            n == self.worker_stage_count(),
    ;

    /// Whether a stage turns one item into several.
    fn has_expand(&self) -> (b: bool)
        ensures
            b == self.expands(),
    ;

    /// Whether the stage that reads the input is async; `None` where there is no
    /// stage.
    fn first_consumer_is_async(&self) -> (r: Option<bool>)
        ensures
            r == self.async_first(),
    ;
}

impl StageShape for StreamStart {
    open spec fn worker_stage_count(&self) -> nat {
        0
    }

    open spec fn expands(&self) -> bool {
        false
    }

    open spec fn async_first(&self) -> Option<bool> {
        None
    }

    fn worker_stages(&self) -> usize {
        0
    }

    fn has_expand(&self) -> bool {
        false
    }

    fn first_consumer_is_async(&self) -> Option<bool> {
        None
    }
}

impl<Prev: StageShape, F> StageShape for SyncStage<Prev, F> {
    open spec fn worker_stage_count(&self) -> nat {
        1 + self.prev.worker_stage_count()
    }

    open spec fn expands(&self) -> bool {
        self.prev.expands()
    }

    open spec fn async_first(&self) -> Option<bool> {
        match self.prev.async_first() {
            Some(b) => Some(b),
            None => Some(false),
        }
    }

    fn worker_stages(&self) -> usize {
        1 + self.prev.worker_stages()
    }

    fn has_expand(&self) -> bool {
        self.prev.has_expand()
    }

    fn first_consumer_is_async(&self) -> Option<bool> {
        match self.prev.first_consumer_is_async() {
            Some(b) => Some(b),
            None => Some(false),
        }
    }
}

impl<Prev: StageShape, F> StageShape for ExpandStage<Prev, F> {
    open spec fn worker_stage_count(&self) -> nat {
        1 + self.prev.worker_stage_count()
    }

    open spec fn expands(&self) -> bool {
        true
    }

    open spec fn async_first(&self) -> Option<bool> {
        match self.prev.async_first() {
            Some(b) => Some(b),
            None => Some(false),
        }
    }

    fn worker_stages(&self) -> usize {
        1 + self.prev.worker_stages()
    }

    fn has_expand(&self) -> bool {
        true
    }

    fn first_consumer_is_async(&self) -> Option<bool> {
        match self.prev.first_consumer_is_async() {
            Some(b) => Some(b),
            None => Some(false),
        }
    }
}

impl<Prev: StageShape, F> StageShape for AsyncStage<Prev, F> {
    open spec fn worker_stage_count(&self) -> nat {
        self.prev.worker_stage_count()
    }

    open spec fn expands(&self) -> bool {
        self.prev.expands()
    }

    open spec fn async_first(&self) -> Option<bool> {
        match self.prev.async_first() {
            Some(b) => Some(b),
            None => Some(true),
        }
    }

    fn worker_stages(&self) -> usize {
        self.prev.worker_stages()
    }

    fn has_expand(&self) -> bool {
        self.prev.has_expand()
    }

    fn first_consumer_is_async(&self) -> Option<bool> {
        match self.prev.first_consumer_is_async() {
            Some(b) => Some(b),
            None => Some(true),
        }
    }
}

impl<Prev: StageShape> StageShape for FenceLink<Prev> {
    open spec fn worker_stage_count(&self) -> nat {
        self.prev.worker_stage_count()
    }

    open spec fn expands(&self) -> bool {
        self.prev.expands()
    }

    open spec fn async_first(&self) -> Option<bool> {
        self.prev.async_first()
    }

    fn worker_stages(&self) -> usize {
        self.prev.worker_stages()
    }

    fn has_expand(&self) -> bool {
        self.prev.has_expand()
    }

    fn first_consumer_is_async(&self) -> Option<bool> {
        self.prev.first_consumer_is_async()
    }
}

/// What the stages of one run share.
pub struct StreamCtx<C = Watch> {
    pub config: PipelineConfig,
    /// What the run asks whether it is to stop.
    pub cancel: C,
    pub n: usize,
    /// Workers per stage that takes up compute workers.
    pub per_stage_parallelism: usize,
}

/// Workers per stage: the configured number dealt over the stages that need them.
pub open spec fn stage_share(compute_workers: nat, worker_stages: nat) -> nat {
    let share = compute_workers / (if worker_stages == 0 {
        1
    } else {
        worker_stages
    });
    if share == 0 {
        1
    } else {
        share
    }
}

/// Whether the channels of a run through `worker_stages` stages that take up compute
/// workers can be had.
pub open spec fn stream_fits(config: PipelineConfig, worker_stages: nat) -> bool {
    capacity_fits(room_for(config, stage_share(config.compute_workers as nat, worker_stages)))
}

/// As many of `wanted` as there are items to work on, and at least one.
pub open spec fn some_of(wanted: nat, n: nat) -> nat {
    if wanted == 0 || n == 0 {
        1
    } else if wanted <= n {
        wanted
    } else {
        n
    }
}

/// The workers of all stages together are no more than there are, provided that
/// there is one for each, so that no stage waits for the workers of another.
pub proof fn law_stages_fit_the_pool(compute_workers: nat, worker_stages: nat)
    requires
        1 <= worker_stages <= compute_workers,
    ensures
        stage_share(compute_workers, worker_stages) * worker_stages <= compute_workers,
        stage_share(compute_workers, worker_stages) >= 1,
{
    vstd::arithmetic::div_mod::lemma_fundamental_div_mod(
        compute_workers as int,
        worker_stages as int,
    );
    let q = compute_workers / worker_stages;
    assert(q >= 1) by (nonlinear_arith)
        requires
            q == compute_workers / worker_stages,
            1 <= worker_stages <= compute_workers,
    ;
    assert(worker_stages * q == q * worker_stages) by (nonlinear_arith);
}

impl<C> StreamCtx<C> {
    /// Whether the channels of the run can be had.
    pub open spec fn fits(&self) -> bool {
        &&& self.per_stage_parallelism >= 1
        &&& capacity_fits(room_for(self.config, self.per_stage_parallelism as nat))
    }

    /// The capacity of a channel that `parallelism` workers read from.
    pub fn buffer_size(&self, parallelism: usize) -> (capacity: usize)
        requires
            parallelism * 4 <= usize::MAX,
        ensures
            capacity == room_for(self.config, parallelism as nat),
    {
        self.config.buffer_size.max(parallelism * 4)
    }

    /// The workers of a stage: its share, but no more than there are items, and at
    /// least one.
    pub fn stage_parallelism(&self) -> (workers: usize)
        ensures
            workers == some_of(self.per_stage_parallelism as nat, self.n as nat),
    {
        self.per_stage_parallelism.min(self.n.max(1)).max(1)
    }

    /// The tasks of an async stage: the configured number, but no more than there
    /// are items, and at least one.
    pub fn async_concurrency(&self) -> (tasks: usize)
        ensures
            tasks == some_of(self.config.io_concurrency as nat, self.n as nat),
    {
        self.config.io_concurrency.max(1).min(self.n.max(1))
    }
}

impl<C: Stops> StreamCtx<C> {
    /// The shared settings of a run of `n` items through `worker_stages` stages
    /// that take up compute workers.
    pub fn new(
        config: PipelineConfig,
        cancel: C,
        n: usize,
        worker_stages: usize,
    ) -> (r: Self)
        ensures
            r.config == config,
            r.cancel == cancel,
            r.n == n,
            r.per_stage_parallelism == stage_share(
                config.compute_workers as nat,
                worker_stages as nat,
            ),
    {
        let per_stage_parallelism: usize = (config.compute_workers / worker_stages.max(1)).max(1);
        StreamCtx { config, cancel, n, per_stage_parallelism }
    }

    /// Whether the run is to stop.
    pub fn cancel_active(&self) -> (b: bool)
        ensures
            match self.cancel.token() {
                Some(token) => token.found(b),
                None => !b,
            },
            stopped(self.cancel.token()) ==> b,
        opens_invariants [ new_record() ]
    {
        cancel_active(&self.cancel)
    }
}

/// Whether all items fit into the input channel at once, so that they can be fed
/// before anything is collected.
pub fn feeds_inline(n: usize, buffer: usize) -> (b: bool)
    ensures
        b == (n <= buffer),
{
    n <= buffer
}

/// Every entry of `output` has the tag of the one of `input` in its place, and none
/// is missing where the run was complete.
pub open spec fn same_tags<I, O>(
    input: Seq<(u64, I)>,
    output: Seq<(u64, O)>,
    complete: bool,
) -> bool {
    &&& output.len() <= input.len()
    &&& complete ==> output.len() == input.len()
    &&& forall|i: int| 0 <= i < output.len() ==> (#[trigger] output[i]).0 == input[i].0
}

/// A chain that tagged items can flow through.
pub trait StageSpawn<In: Send + 'static>: StageShape {
    type Out: Send + 'static;

    /// Whether every stage may be called on what reaches it.
    spec fn ready(&self, input: Seq<(u64, In)>) -> bool;

    /// Whether the chain can turn `input` into `output`. Every stage works off its
    /// input in order: all of it where the run is `complete`, else the first part.
    spec fn flows(
        &self,
        input: Seq<(u64, In)>,
        output: Seq<(u64, Self::Out)>,
        complete: bool,
    ) -> bool;

    /// Without expansion every item keeps its tag and its place.
    proof fn keeps_tags(
        &self,
        input: Seq<(u64, In)>,
        output: Seq<(u64, Self::Out)>,
        complete: bool,
    )
        requires
            self.flows(input, output, complete),
        ensures
            !self.expands() ==> same_tags(input, output, complete),
    ;

    /// What a complete run comes to may come of one that was stopped.
    proof fn may_stop(
        &self,
        input: Seq<(u64, In)>,
        output: Seq<(u64, Self::Out)>,
        complete: bool,
    )
        requires
            self.flows(input, output, complete),
        ensures
            self.flows(input, output, false),
    ;

    /// Nothing comes of nothing.
    proof fn needs_input(
        &self,
        input: Seq<(u64, In)>,
        output: Seq<(u64, Self::Out)>,
        complete: bool,
    )
        requires
            self.flows(input, output, complete),
            input.len() == 0,
        ensures
            output.len() == 0,
    ;

    /// Lets the items flow through the chain.
    fn spawn(&self, input: Vec<(u64, In)>, ctx: &StreamCtx<Watch>, log: &mut RunLog) -> (output: Vec<
        (u64, Self::Out),
    >)
        requires
            self.ready(input@),
            ctx.fits(),
        ensures
            watched(ctx.cancel.token(), old(log).uses@, final(log).uses@),
            looked_first(
                ctx.cancel.token(),
                old(log)@,
                old(log).uses@,
                final(log)@,
                final(log).uses@,
            ),
            self.flows(input@, output@, !saw_set(old(log).uses@, final(log).uses@)),
            kept_stopped(ctx.cancel.token(), old(log).uses@, final(log).uses@)
                && self.worker_stage_count() > 0 ==> output@.len() == 0,
            kept_stopped(ctx.cancel.token(), old(log).uses@, final(log).uses@) ==> final(log)@ == old(log)@,
            old(log)@.is_prefix_of(final(log)@),
            in_stage_order(since(old(log)@, final(log)@)),
            within_stages(since(old(log)@, final(log)@), self.worker_stage_count()),
            !self.expands() && self.worker_stage_count() > 0 ==> calls(
                since(old(log)@, final(log)@),
                Step::Nth(self.worker_stage_count()),
            ) == output@.len(),
    ;
}

impl<I: Send + 'static> StageSpawn<I> for StreamStart {
    type Out = I;

    open spec fn ready(&self, input: Seq<(u64, I)>) -> bool {
        true
    }

    open spec fn flows(
        &self,
        input: Seq<(u64, I)>,
        output: Seq<(u64, I)>,
        complete: bool,
    ) -> bool {
        output == input
    }

    proof fn keeps_tags(&self, input: Seq<(u64, I)>, output: Seq<(u64, I)>, complete: bool) {
    }

    proof fn needs_input(&self, input: Seq<(u64, I)>, output: Seq<(u64, I)>, complete: bool) {
    }

    proof fn may_stop(&self, input: Seq<(u64, I)>, output: Seq<(u64, I)>, complete: bool) {
    }

    fn spawn(&self, input: Vec<(u64, I)>, ctx: &StreamCtx<Watch>, log: &mut RunLog) -> Vec<(u64, I)> {
        proof {
            lemma_watched_nothing(ctx.cancel.token(), log.uses@);
            assert(since(log@, log@) =~= Seq::empty());
        }
        input
    }
}

/// `output` are results of `f` for the first entries of `mid`, under their tags.
pub open spec fn mapped_entries<M, O, F: Fn(M) -> O>(
    f: F,
    mid: Seq<(u64, M)>,
    output: Seq<(u64, O)>,
    complete: bool,
) -> bool {
    &&& output.len() <= mid.len()
    &&& complete ==> output.len() == mid.len()
    &&& forall|i: int|
        0 <= i < output.len() ==> (#[trigger] output[i]).0 == mid[i].0 && f.ensures(
            (mid[i].1,),
            output[i].1,
        )
}

impl<Prev, F, In: Send + 'static, M: Send + 'static> StageSpawn<In> for SyncStage<Prev, F> where
    Prev: StageSpawn<In>,
    F: Fn(Prev::Out) -> M,
 {
    type Out = M;

    open spec fn ready(&self, input: Seq<(u64, In)>) -> bool {
        &&& self.prev.ready(input)
        &&& forall|mid: Seq<(u64, Prev::Out)>, complete: bool, i: int|
            #![trigger self.prev.flows(input, mid, complete), mid[i]]
            self.prev.flows(input, mid, complete) && 0 <= i < mid.len() ==> self.f.requires(
                (mid[i].1,),
            )
    }

    open spec fn flows(
        &self,
        input: Seq<(u64, In)>,
        output: Seq<(u64, M)>,
        complete: bool,
    ) -> bool {
        exists|mid: Seq<(u64, Prev::Out)>| #[trigger]
            self.prev.flows(input, mid, complete) && mapped_entries(self.f, mid, output, complete)
    }

    proof fn keeps_tags(&self, input: Seq<(u64, In)>, output: Seq<(u64, M)>, complete: bool) {
        let mid = choose|mid: Seq<(u64, Prev::Out)>| #[trigger]
            self.prev.flows(input, mid, complete) && mapped_entries(self.f, mid, output, complete);
        self.prev.keeps_tags(input, mid, complete);
        if !self.expands() {
            assert forall|i: int| 0 <= i < output.len() implies (#[trigger] output[i]).0
                == input[i].0 by {
                assert(output[i].0 == mid[i].0);
            }
        }
    }

    proof fn needs_input(&self, input: Seq<(u64, In)>, output: Seq<(u64, M)>, complete: bool) {
        let mid = choose|mid: Seq<(u64, Prev::Out)>| #[trigger]
            self.prev.flows(input, mid, complete) && mapped_entries(self.f, mid, output, complete);
        self.prev.needs_input(input, mid, complete);
    }

    proof fn may_stop(&self, input: Seq<(u64, In)>, output: Seq<(u64, M)>, complete: bool) {
        let mid = choose|mid: Seq<(u64, Prev::Out)>| #[trigger]
            self.prev.flows(input, mid, complete) && mapped_entries(self.f, mid, output, complete);
        self.prev.may_stop(input, mid, complete);
        assert(mapped_entries(self.f, mid, output, false));
    }

    fn spawn(&self, input: Vec<(u64, In)>, ctx: &StreamCtx<Watch>, log: &mut RunLog) -> Vec<(u64, M)> {
        let ghost given = input@;
        let ghost seen = log.uses@;
        let mid = self.prev.spawn(input, ctx, log);
        let ghost mids = mid@;
        let ghost seen1 = log.uses@;
        let ghost logged1 = log@;
        let workers: usize = ctx.stage_parallelism();
        let capacity: usize = ctx.buffer_size(workers);
        let f = &self.f;
        let threaded = |entry: (u64, Prev::Out)| -> (r: (u64, M))
            requires
                f.requires((entry.1,)),
            ensures
                r.0 == entry.0,
                f.ensures((entry.1,), r.1),
            { (entry.0, f(entry.1)) };
        proof {
            assert forall|i: int| 0 <= i < mids.len() implies threaded.requires(
                (#[trigger] mids[i],),
            ) by {
                assert(self.prev.flows(given, mids, !saw_set(seen, seen1)));
            }
        }
        let stage = Logged::nth(threaded, Ghost(self.worker_stage_count()));
        let output = run_one_stage(mid, false, workers, capacity, &ctx.cancel, &stage, log);
        proof {
            let run = output@.len();
            lemma_watched_joins(ctx.cancel.token(), seen, seen1, log.uses@);
            lemma_steps_join(logged1, stage.step(), 0, 0);
            lemma_next_stage(old(log)@, logged1, self.prev.worker_stage_count(), run);
            lemma_next_stage_calls(
                since(old(log)@, logged1),
                self.prev.worker_stage_count(),
                run,
            );
            assert(since(old(log)@, log@) =~= since(old(log)@, logged1) + steps_of(
                stage.step(),
                run,
            ));
            let complete = !saw_set(seen, log.uses@);
            self.prev.may_stop(given, mids, !saw_set(seen, seen1));
            let outs = output@;
            assert forall|i: int| 0 <= i < outs.len() implies (#[trigger] outs[i]).0 == mids[i].0
                && self.f.ensures((mids[i].1,), outs[i].1) by {
                assert(threaded.ensures((mids[i],), outs[i]));
            }
            assert(mapped_entries(self.f, mids, outs, complete));
        }
        output
    }
}

/// The parts joined in order, each value under its part's tag.
pub open spec fn tagged_parts<N>(tags: Seq<u64>, parts: Seq<Vec<N>>) -> Seq<(u64, N)>
    decreases parts.len(),
{
    if parts.len() == 0 {
        Seq::empty()
    } else {
        let last = parts.len() - 1;
        tagged_parts(tags, parts.drop_last()) + Seq::new(
            parts[last]@.len(),
            |j: int| (tags[last], parts[last]@[j]),
        )
    }
}

/// The tags of entries.
pub open spec fn tags_of<M>(entries: Seq<(u64, M)>) -> Seq<u64> {
    Seq::new(entries.len(), |i: int| entries[i].0)
}

/// `parts` are what `f` turns the first entries of `mid` into.
pub open spec fn expanded_entries<M, N, F: Fn(M) -> Vec<N>>(
    f: F,
    mid: Seq<(u64, M)>,
    parts: Seq<Vec<N>>,
    complete: bool,
) -> bool {
    &&& parts.len() <= mid.len()
    &&& complete ==> parts.len() == mid.len()
    &&& forall|i: int| 0 <= i < parts.len() ==> f.ensures((mid[i].1,), #[trigger] parts[i])
}

impl<Prev, F, In: Send + 'static, N: Send + 'static> StageSpawn<In> for ExpandStage<Prev, F> where
    Prev: StageSpawn<In>,
    F: Fn(Prev::Out) -> Vec<N>,
 {
    type Out = N;

    open spec fn ready(&self, input: Seq<(u64, In)>) -> bool {
        &&& self.prev.ready(input)
        &&& forall|mid: Seq<(u64, Prev::Out)>, complete: bool, i: int|
            #![trigger self.prev.flows(input, mid, complete), mid[i]]
            self.prev.flows(input, mid, complete) && 0 <= i < mid.len() ==> self.f.requires(
                (mid[i].1,),
            )
    }

    open spec fn flows(
        &self,
        input: Seq<(u64, In)>,
        output: Seq<(u64, N)>,
        complete: bool,
    ) -> bool {
        exists|mid: Seq<(u64, Prev::Out)>, parts: Seq<Vec<N>>|
            #![trigger self.prev.flows(input, mid, complete), expanded_entries(self.f, mid, parts, complete)]
            self.prev.flows(input, mid, complete) && expanded_entries(self.f, mid, parts, complete)
                && output == tagged_parts(tags_of(mid), parts)
    }

    proof fn keeps_tags(&self, input: Seq<(u64, In)>, output: Seq<(u64, N)>, complete: bool) {
    }

    proof fn needs_input(&self, input: Seq<(u64, In)>, output: Seq<(u64, N)>, complete: bool) {
        let (mid, parts) = choose|mid: Seq<(u64, Prev::Out)>, parts: Seq<Vec<N>>|
            #![trigger self.prev.flows(input, mid, complete), expanded_entries(self.f, mid, parts, complete)]
            self.prev.flows(input, mid, complete) && expanded_entries(self.f, mid, parts, complete)
                && output == tagged_parts(tags_of(mid), parts);
        self.prev.needs_input(input, mid, complete);
    }

    proof fn may_stop(&self, input: Seq<(u64, In)>, output: Seq<(u64, N)>, complete: bool) {
        let (mid, parts) = choose|mid: Seq<(u64, Prev::Out)>, parts: Seq<Vec<N>>|
            #![trigger self.prev.flows(input, mid, complete), expanded_entries(self.f, mid, parts, complete)]
            self.prev.flows(input, mid, complete) && expanded_entries(self.f, mid, parts, complete)
                && output == tagged_parts(tags_of(mid), parts);
        self.prev.may_stop(input, mid, complete);
        assert(expanded_entries(self.f, mid, parts, false));
    }

    fn spawn(&self, input: Vec<(u64, In)>, ctx: &StreamCtx<Watch>, log: &mut RunLog) -> Vec<(u64, N)> {
        let ghost given = input@;
        let ghost seen = log.uses@;
        let mid = self.prev.spawn(input, ctx, log);
        let ghost mids = mid@;
        let ghost seen1 = log.uses@;
        let ghost logged1 = log@;
        let workers: usize = ctx.stage_parallelism();
        let capacity: usize = ctx.buffer_size(workers);
        let f = &self.f;
        let threaded = |entry: (u64, Prev::Out)| -> (r: (u64, Vec<N>))
            requires
                f.requires((entry.1,)),
            ensures
                r.0 == entry.0,
                f.ensures((entry.1,), r.1),
            { (entry.0, f(entry.1)) };
        proof {
            assert forall|i: int| 0 <= i < mids.len() implies threaded.requires(
                (#[trigger] mids[i],),
            ) by {
                assert(self.prev.flows(given, mids, !saw_set(seen, seen1)));
            }
        }
        let stage = Logged::nth(threaded, Ghost(self.worker_stage_count()));
        let expanded = run_one_stage(mid, false, workers, capacity, &ctx.cancel, &stage, log);
        let ghost outs = expanded@;
        let ghost parts = values_of(outs);
        let output = spread(expanded);
        proof {
            let run = outs.len();
            lemma_watched_joins(ctx.cancel.token(), seen, seen1, log.uses@);
            lemma_steps_join(logged1, stage.step(), 0, 0);
            lemma_next_stage(old(log)@, logged1, self.prev.worker_stage_count(), run);
            let complete = !saw_set(seen, log.uses@);
            self.prev.may_stop(given, mids, !saw_set(seen, seen1));
            assert forall|i: int| 0 <= i < parts.len() implies self.f.ensures(
                (mids[i].1,),
                #[trigger] parts[i],
            ) && outs[i].0 == mids[i].0 by {
                assert(threaded.ensures((mids[i],), outs[i]));
            }
            assert(expanded_entries(self.f, mids, parts, complete));
            lemma_same_tagged_parts(tags_of(outs), tags_of(mids), parts);
        }
        output
    }
}

/// Tags past the parts do not matter.
proof fn lemma_same_tagged_parts<N>(some: Seq<u64>, more: Seq<u64>, parts: Seq<Vec<N>>)
    requires
        parts.len() <= some.len(),
        parts.len() <= more.len(),
        forall|i: int| 0 <= i < parts.len() ==> some[i] == #[trigger] more[i],
    ensures
        tagged_parts(some, parts) == tagged_parts(more, parts),
    decreases parts.len(),
{
    if parts.len() > 0 {
        lemma_same_tagged_parts(some, more, parts.drop_last());
        let last = parts.len() - 1;
        assert(some[last] == more[last]);
    }
}

/// Joins parts, each of whose values gets the tag of its part.
fn spread<N>(parts: Vec<(u64, Vec<N>)>) -> (r: Vec<(u64, N)>)
    ensures
        r@ == tagged_parts(tags_of(parts@), values_of(parts@)),
{
    let ghost all = parts@;
    let ghost tags = tags_of(all);
    let mut r: Vec<(u64, N)> = Vec::new();
    assert(values_of(all).take(0) =~= Seq::empty());
    for entry in it: parts
        invariant
            it.seq() == all,
            tags == tags_of(all),
            r@ == tagged_parts(tags, values_of(all).take(it.index() as int)),
    {
        let ghost i = it.index() as int;
        let ghost before = r@;
        let (seq, part) = entry;
        let ghost values = part@;
        proof {
            let now = values_of(all).take(i + 1);
            assert(now.drop_last() =~= values_of(all).take(i));
            assert(now[i] == part);
            assert(tags[i] == seq);
        }
        for value in jt: part
            invariant
                jt.seq() == values,
                r@ == before + Seq::new(jt.index() as nat, |j: int| (seq, values[j])),
        {
            r.push((seq, value));
        }
        assert(r@ =~= tagged_parts(tags, values_of(all).take(i + 1)));
    }
    assert(values_of(all).take(all.len() as int) =~= values_of(all));
    r
}

impl<Prev, In: Send + 'static> StageSpawn<In> for FenceLink<Prev> where Prev: StageSpawn<In> {
    type Out = Prev::Out;

    open spec fn ready(&self, input: Seq<(u64, In)>) -> bool {
        self.prev.ready(input)
    }

    open spec fn flows(
        &self,
        input: Seq<(u64, In)>,
        output: Seq<(u64, Prev::Out)>,
        complete: bool,
    ) -> bool {
        exists|mid: Seq<(u64, Prev::Out)>| #[trigger]
            self.prev.flows(input, mid, complete) && output.is_prefix_of(mid) && (complete
                ==> output
                == mid)
    }

    proof fn keeps_tags(
        &self,
        input: Seq<(u64, In)>,
        output: Seq<(u64, Prev::Out)>,
        complete: bool,
    ) {
        let mid = choose|mid: Seq<(u64, Prev::Out)>| #[trigger]
            self.prev.flows(input, mid, complete) && output.is_prefix_of(mid) && (complete
                ==> output
                == mid);
        self.prev.keeps_tags(input, mid, complete);
        if !self.expands() {
            assert forall|i: int| 0 <= i < output.len() implies (#[trigger] output[i]).0
                == input[i].0 by {
                assert(output[i] == mid[i]);
            }
        }
    }

    proof fn needs_input(
        &self,
        input: Seq<(u64, In)>,
        output: Seq<(u64, Prev::Out)>,
        complete: bool,
    ) {
        let mid = choose|mid: Seq<(u64, Prev::Out)>| #[trigger]
            self.prev.flows(input, mid, complete) && output.is_prefix_of(mid) && (complete
                ==> output
                == mid);
        self.prev.needs_input(input, mid, complete);
    }

    proof fn may_stop(
        &self,
        input: Seq<(u64, In)>,
        output: Seq<(u64, Prev::Out)>,
        complete: bool,
    ) {
        let mid = choose|mid: Seq<(u64, Prev::Out)>| #[trigger]
            self.prev.flows(input, mid, complete) && output.is_prefix_of(mid) && (complete
                ==> output
                == mid);
        self.prev.may_stop(input, mid, complete);
    }

    fn spawn(&self, input: Vec<(u64, In)>, ctx: &StreamCtx<Watch>, log: &mut RunLog) -> Vec<(u64, Prev::Out)> {
        let ghost given = input@;
        let mid = self.prev.spawn(input, ctx, log);
        let ghost mids = mid@;
        let output = concat_batches(forward_fenced(mid, self.mode));
        proof {
            law_forwarded_items(self.mode, mids);
            assert(output@ =~= mids);
        }
        output
    }
}

/// The values of tagged entries, in order.
pub open spec fn values_of<O>(entries: Seq<(u64, O)>) -> Seq<O> {
    Seq::new(entries.len(), |i: int| entries[i].1)
}

/// A streaming pipeline from items of type `I` to values of type `O`.
pub struct StreamPipe<S, I, O> {
    items: Vec<I>,
    stages: S,
    config: PipelineConfig,
    cancel: Watch,
    ordered: bool,
    _marker: PhantomData<O>,
}

/// The parts of a streaming pipeline, for whoever runs it elsewhere.
pub struct StreamParts<S, I> {
    pub items: Vec<I>,
    pub stages: S,
    pub config: PipelineConfig,
    /// What tells whether the run is to stop.
    pub cancel: Watch,
    pub ordered: bool,
}

/// Starts a streaming pipeline over `items`.
pub fn stream<I>(items: Vec<I>) -> (p: StreamPipe<StreamStart, I, I>)
    ensures
        p.source() == items@,
        p.chain() == StreamStart,
        p.settings() == PipelineConfig::spec_for_cpus(None),
        p.token() is None,
        !p.is_ordered(),
{
    StreamPipe {
        items,
        stages: StreamStart,
        config: PipelineConfig::default(),
        cancel: Watch::nothing(),
        ordered: false,
        _marker: PhantomData,
    }
}

impl<S, I, O> StreamPipe<S, I, O> {
    /// The items that go in.
    pub closed spec fn source(&self) -> Seq<I> {
        self.items@
    }

    /// The stages.
    pub closed spec fn chain(&self) -> S {
        self.stages
    }

    /// The settings of the run.
    pub closed spec fn settings(&self) -> PipelineConfig {
        self.config
    }

    /// The token that stops the run, where one is attached.
    pub closed spec fn token(&self) -> Option<CancellationToken> {
        self.cancel.token()
    }

    /// Whether the output is to be in input order.
    pub closed spec fn is_ordered(&self) -> bool {
        self.ordered
    }

    /// Replaces the settings.
    #[must_use]
    pub fn with_config(self, config: PipelineConfig) -> (r: Self)
        ensures
            r.source() == self.source(),
            r.chain() == self.chain(),
            r.settings() == config,
            r.token() == self.token(),
            r.is_ordered() == self.is_ordered(),
    {
        StreamPipe { config, ..self }
    }

    /// Attaches a token that stops the run early.
    #[must_use]
    pub fn with_cancel(self, token: CancellationToken) -> (r: Self)
        ensures
            r.source() == self.source(),
            r.chain() == self.chain(),
            r.settings() == self.settings(),
            r.token() == Some(token),
            r.is_ordered() == self.is_ordered(),
        opens_invariants none
    {
        StreamPipe { cancel: Watch::over(token), ..self }
    }

    /// Asks for output in input order.
    #[must_use]
    pub fn ordered(self) -> (r: Self)
        ensures
            r.source() == self.source(),
            r.chain() == self.chain(),
            r.settings() == self.settings(),
            r.token() == self.token(),
            r.is_ordered(),
    {
        StreamPipe { ordered: true, ..self }
    }

    /// Runs on `pool`: the workers are split over the stages by its size.
    #[must_use]
    pub fn with_compute_pool(self, pool: ComputePool) -> (r: Self)
        ensures
            r.source() == self.source(),
            r.chain() == self.chain(),
            r.settings() == (PipelineConfig {
                compute_workers: pool.workers() as usize,
                ..self.settings()
            }),
            r.token() == self.token(),
            r.is_ordered() == self.is_ordered(),
    {
        let config = self.config.with_compute_workers(pool.num_workers());
        StreamPipe { config, ..self }
    }

    /// Appends a stage that applies `f`.
    pub fn stage<N, F>(self, f: F) -> (r: StreamPipe<SyncStage<S, F>, I, N>) where F: Fn(O) -> N
        ensures
            r.source() == self.source(),
            r.chain() == (SyncStage { prev: self.chain(), f }),
            r.settings() == self.settings(),
            r.token() == self.token(),
            r.is_ordered() == self.is_ordered(),
    {
        StreamPipe {
            items: self.items,
            stages: SyncStage { prev: self.stages, f },
            config: self.config,
            cancel: self.cancel,
            ordered: self.ordered,
            _marker: PhantomData,
        }
    }

    /// Appends a stage that turns every item into any number of items.
    pub fn expand<N, F>(self, f: F) -> (r: StreamPipe<ExpandStage<S, F>, I, N>) where
        F: Fn(O) -> Vec<N>,

        ensures
            r.source() == self.source(),
            r.chain() == (ExpandStage { prev: self.chain(), f }),
            r.settings() == self.settings(),
            r.token() == self.token(),
            r.is_ordered() == self.is_ordered(),
    {
        StreamPipe {
            items: self.items,
            stages: ExpandStage { prev: self.stages, f },
            config: self.config,
            cancel: self.cancel,
            ordered: self.ordered,
            _marker: PhantomData,
        }
    }

    /// Appends a fence.
    pub fn fence(self, mode: FenceMode) -> (r: StreamPipe<FenceLink<S>, I, O>)
        ensures
            r.source() == self.source(),
            r.chain() == (FenceLink { prev: self.chain(), mode }),
            r.settings() == self.settings(),
            r.token() == self.token(),
            r.is_ordered() == self.is_ordered(),
    {
        StreamPipe {
            items: self.items,
            stages: FenceLink { prev: self.stages, mode },
            config: self.config,
            cancel: self.cancel,
            ordered: self.ordered,
            _marker: PhantomData,
        }
    }

    /// Appends a stage whose results are awaited. Such a pipeline is taken apart
    /// with [`StreamPipe::into_parts`] and run where there is an async runtime.
    pub fn stage_async<N, F>(self, f: F) -> (r: StreamPipe<AsyncStage<S, F>, I, N>)
        ensures
            r.source() == self.source(),
            r.chain() == (AsyncStage { prev: self.chain(), f }),
            r.settings() == self.settings(),
            r.token() == self.token(),
            r.is_ordered() == self.is_ordered(),
    {
        StreamPipe {
            items: self.items,
            stages: AsyncStage { prev: self.stages, f },
            config: self.config,
            cancel: self.cancel,
            ordered: self.ordered,
            _marker: PhantomData,
        }
    }

    /// Takes the pipeline apart.
    pub fn into_parts(self) -> (parts: StreamParts<S, I>)
        ensures
            parts.items@ == self.source(),
            parts.stages == self.chain(),
            parts.config == self.settings(),
            parts.cancel.token() == self.token(),
            parts.ordered == self.is_ordered(),
        opens_invariants none
    {
        StreamParts {
            items: self.items,
            stages: self.stages,
            config: self.config,
            cancel: self.cancel,
            ordered: self.ordered,
        }
    }
}

/// `r` is what a run of the chain over `items` returns: the values that came out,
/// in input order or in any, for all items where the run is `complete`, else for
/// the first ones.
pub open spec fn streamed<I: Send + 'static, S: StageSpawn<I>>(
    stages: S,
    items: Seq<I>,
    r: Seq<S::Out>,
    ordered: bool,
    complete: bool,
) -> bool {
    exists|fed: nat, output: Seq<(u64, S::Out)>|
        #![trigger stages.flows(tagged(items.take(fed as int)), output, complete)]
        fed <= items.len() && (complete ==> fed == items.len()) && stages.flows(
            tagged(items.take(fed as int)),
            output,
            complete,
        ) && (if ordered {
            r == values_of(output)
        } else {
            r.to_multiset() == values_of(output).to_multiset() && r.len() == output.len()
        })
}

/// `log` is a record of a run of `count` stages over `n` items, of which `came` results came:
/// every stage was done before one behind it began, and the token was only read. Where no
/// stage expands, the last one was called once for each result, and every item has its
/// result unless a reading found the token set. No stage was called, and nothing came, where
/// every reading did.
pub open spec fn is_stream_record(
    cancel: Option<CancellationToken>,
    n: nat,
    count: nat,
    expands: bool,
    came: nat,
    log: RunLog,
) -> bool {
    &&& watched(cancel, Seq::empty(), log.uses@)
    &&& looked_first(cancel, Seq::empty(), Seq::empty(), log@, log.uses@)
    &&& in_stage_order(log@)
    &&& within_stages(log@, count)
    &&& !expands && count > 0 ==> calls(log@, Step::Nth(count)) == came
    &&& !expands && !saw_set(Seq::empty(), log.uses@) ==> came == n
    &&& kept_stopped(cancel, Seq::empty(), log.uses@) ==> came == 0 && log@.len() == 0
}

/// Without expansion a complete run returns as many values as it was given items.
proof fn lemma_streamed_len<I: Send + 'static, S: StageSpawn<I>>(
    stages: S,
    items: Seq<I>,
    r: Seq<S::Out>,
    ordered: bool,
    complete: bool,
)
    requires
        streamed(stages, items, r, ordered, complete),
        !stages.expands(),
    ensures
        r.len() <= items.len(),
        complete ==> r.len() == items.len(),
{
    let (fed, output) = choose|fed: nat, output: Seq<(u64, S::Out)>|
        #![trigger stages.flows(tagged(items.take(fed as int)), output, complete)]
        fed <= items.len() && (complete ==> fed == items.len()) && stages.flows(
            tagged(items.take(fed as int)),
            output,
            complete,
        ) && (if ordered {
            r == values_of(output)
        } else {
            r.to_multiset() == values_of(output).to_multiset() && r.len() == output.len()
        });
    stages.keeps_tags(tagged(items.take(fed as int)), output, complete);
}

impl<S, I: Send + 'static, O: Send + 'static> StreamPipe<S, I, O> where
    S: StageSpawn<I, Out = O>,
 {
    /// Runs the pipeline. Output in input order and stages that expand do not go
    /// together.
    pub fn run(self) -> (r: Vec<O>)
        requires
            self.source().len() == 0 || !(self.is_ordered() && self.chain().expands()),
            self.chain().worker_stage_count() <= usize::MAX,
            self.source().len() == 0 || stream_fits(
                self.settings(),
                self.chain().worker_stage_count(),
            ),
            forall|k: int|
                0 <= k <= self.source().len() ==> self.chain().ready(
                    tagged(#[trigger] self.source().take(k)),
                ),
        ensures
            self.source().len() == 0 ==> r@.len() == 0,
            self.source().len() > 0 ==> streamed(
                self.chain(),
                self.source(),
                r@,
                self.is_ordered(),
                !signalled(self.token()),
            ),
            stopped(self.token()) ==> r@.len() == 0,
            exists|log: RunLog| #[trigger]
                is_stream_record(
                    self.token(),
                    self.source().len(),
                    self.chain().worker_stage_count(),
                    self.chain().expands(),
                    r@.len(),
                    log,
                ),
    {
        let ghost this = self;
        let mut log = RunLog::new();
        let r = self.run_on_record(&mut log);
        proof {
            lemma_seen(this.token(), Seq::empty(), log.uses@);
            let n = this.source().len();
            let count = this.chain().worker_stage_count();
            let expands = this.chain().expands();
            assert(since(Seq::empty(), log@) =~= log@);
            if n > 0 && !expands {
                lemma_streamed_len(
                    this.chain(),
                    this.source(),
                    r@,
                    this.is_ordered(),
                    !saw_set(Seq::empty(), log.uses@),
                );
            }
            assert(is_stream_record(this.token(), n, count, expands, r@.len(), log));
            if this.source().len() > 0 {
                let complete = !saw_set(Seq::empty(), log.uses@);
                lemma_streamed_less(
                    this.chain(),
                    this.source(),
                    r@,
                    this.is_ordered(),
                    complete,
                    !signalled(this.token()),
                );
            }
        }
        r
    }

    /// A [`StreamPipe::run`] on record. It is complete unless a reading of the token in the
    /// run found it set. Nothing comes out, and no stage is called, where every reading
    /// did, or where the token was cancelled for good before. Every stage is done before
    /// one behind it begins, whether there is a fence between them or not. Where no stage
    /// expands, what comes out is one result for every call of the last one.
    pub fn run_on_record(self, log: &mut RunLog) -> (r: Vec<O>)
        requires
            self.source().len() == 0 || !(self.is_ordered() && self.chain().expands()),
            self.chain().worker_stage_count() <= usize::MAX,
            self.source().len() == 0 || stream_fits(
                self.settings(),
                self.chain().worker_stage_count(),
            ),
            forall|k: int|
                0 <= k <= self.source().len() ==> self.chain().ready(
                    tagged(#[trigger] self.source().take(k)),
                ),
        ensures
            self.source().len() == 0 ==> r@.len() == 0,
            self.source().len() > 0 ==> streamed(
                self.chain(),
                self.source(),
                r@,
                self.is_ordered(),
                !saw_set(old(log).uses@, final(log).uses@),
            ),
            watched(self.token(), old(log).uses@, final(log).uses@),
            looked_first(
                self.token(),
                old(log)@,
                old(log).uses@,
                final(log)@,
                final(log).uses@,
            ),
            kept_stopped(self.token(), old(log).uses@, final(log).uses@) ==> r@.len() == 0
                && final(log)@ == old(log)@,
            cancelled_for_good(self.token(), old(log).uses@)
                ==> r@.len() == 0 && final(log)@ == old(log)@,
            old(log)@.is_prefix_of(final(log)@),
            in_stage_order(since(old(log)@, final(log)@)),
            within_stages(since(old(log)@, final(log)@), self.chain().worker_stage_count()),
            !self.chain().expands() && self.chain().worker_stage_count() > 0 ==> calls(
                since(old(log)@, final(log)@),
                Step::Nth(self.chain().worker_stage_count()),
            ) == r@.len(),
    {
        let ghost seen = log.uses@;
        let n: usize = self.items.len();
        if n == 0 {
            proof {
                lemma_watched_nothing(self.token(), seen);
                assert(since(log@, log@) =~= Seq::empty());
            }
            return Vec::new();
        }
        let ghost this = self;
        let ghost all = this.source();
        let ordered: bool = self.ordered;
        let stages = self.stages;
        let worker_stages: usize = stages.worker_stages();
        let ctx = StreamCtx::new(self.config, self.cancel, n, worker_stages);
        let input = feed_items(self.items, &ctx, log);
        let ghost fed = input@.len();
        let ghost seen1 = log.uses@;
        proof {
            let given = this.source().take(fed as int);
            assert(this.chain().ready(tagged(given)));
        }
        let output = stages.spawn(input, &ctx, log);
        let ghost out = output@;
        proof {
            lemma_watched_joins(ctx.cancel.token(), seen, seen1, log.uses@);
            let flowed = !saw_set(seen1, log.uses@);
            let complete = !saw_set(seen, log.uses@);
            let given = tagged(all.take(fed as int));
            stages.may_stop(given, out, flowed);
            assert(stages.flows(given, out, complete));
            if complete {
                assert(all.take(fed as int) =~= all);
            }
            if ordered {
                stages.keeps_tags(given, out, flowed);
            }
            if fed == 0 {
                stages.needs_input(given, out, flowed);
            }
            if cancelled_for_good(ctx.cancel.token(), seen) {
                law_cancelled_for_good_is_never_clear(ctx.cancel.token(), seen, log.uses@);
            }
        }
        collect_sync(output, ordered, n)
    }
}

/// What a complete run returns may be returned by one that was stopped.
proof fn lemma_streamed_less<I: Send + 'static, S: StageSpawn<I>>(
    stages: S,
    items: Seq<I>,
    r: Seq<S::Out>,
    ordered: bool,
    complete: bool,
    less: bool,
)
    requires
        streamed(stages, items, r, ordered, complete),
        less ==> complete,
    ensures
        streamed(stages, items, r, ordered, less),
{
    let (fed, output) = choose|fed: nat, output: Seq<(u64, S::Out)>|
        #![trigger stages.flows(tagged(items.take(fed as int)), output, complete)]
        fed <= items.len() && (complete ==> fed == items.len()) && stages.flows(
            tagged(items.take(fed as int)),
            output,
            complete,
        ) && (if ordered {
            r == values_of(output)
        } else {
            r.to_multiset() == values_of(output).to_multiset() && r.len() == output.len()
        });
    stages.may_stop(tagged(items.take(fed as int)), output, complete);
    assert(stages.flows(tagged(items.take(fed as int)), output, less));
}

/// The items that are fed before the run is stopped, with their positions.
fn feed_items<I>(items: Vec<I>, ctx: &StreamCtx<Watch>, log: &mut RunLog) -> (r: Vec<(u64, I)>)
    ensures
        r@.len() <= items@.len(),
        r@ == tagged(items@.take(r@.len() as int)),
        watched(ctx.cancel.token(), old(log).uses@, final(log).uses@),
        looked_first(
            ctx.cancel.token(),
            old(log)@,
            old(log).uses@,
            final(log)@,
            final(log).uses@,
        ),
        final(log)@ == old(log)@,
        !saw_set(old(log).uses@, final(log).uses@) ==> r@.len() == items@.len(),
        kept_stopped(ctx.cancel.token(), old(log).uses@, final(log).uses@) ==> r@.len() == 0,
        asked_for_each(ctx.cancel.token(), old(log).uses@, final(log).uses@, r@.len(), items@.len()),
{
    let ghost all = items@;
    let ghost seen = log.uses@;
    let total: usize = items.len();
    let mut r: Vec<(u64, I)> = Vec::with_capacity(items.len());
    let mut seq: u64 = 0;
    proof {
        assert(r@ =~= tagged(all.take(0)));
        lemma_watched_nothing(ctx.cancel.token(), seen);
    }
    for item in it: items
        invariant
            it.seq() == all,
            all.len() == total,
            seq == it.index(),
            r@.len() == it.index(),
            r@ == tagged(all.take(it.index() as int)),
            seen == old(log).uses@,
            log@ == old(log)@,
            watched(ctx.cancel.token(), seen, log.uses@),
            !saw_set(seen, log.uses@),
            kept_stopped(ctx.cancel.token(), seen, log.uses@) ==> r@.len() == 0,
            ctx.cancel.token() is Some ==> log.uses@.len() == seen.len() + r@.len(),
    {
        let ghost asked = log.uses@;
        let stop: bool = log.look(&ctx.cancel);
        proof {
            lemma_watched_joins(ctx.cancel.token(), seen, asked, log.uses@);
        }
        if stop {
            return r;
        }
        let ghost i = it.index() as int;
        r.push((seq, item));
        seq = seq + 1;
        assert(r@ =~= tagged(all.take(i + 1)));
    }
    r
}

/// Collects what came out of the last stage.
fn collect_sync<T>(output: Vec<(u64, T)>, ordered: bool, n: usize) -> (r: Vec<T>)
    requires
        ordered ==> forall|i: int| 0 <= i < output@.len() ==> (#[trigger] output@[i]).0 == i,
    ensures
        r@ == values_of(output@),
{
    let ghost all = output@;
    let count: usize = output.len();
    assert(all.len() == count);
    if ordered {
        let r = collect_ordered(output, n);
        proof {
            law_window_holds_expected(n as nat);
            assert(all =~= tagged(values_of(all)));
            lemma_ordered_result_in_order(window(n as nat), values_of(all), r@);
        }
        r
    } else {
        crate::state::reorder::strip_numbers(output)
    }
}

} // verus!
