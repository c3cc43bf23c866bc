//! Fused pipelines that own their input.
use crate::builder::config::{PipelineConfig, Workload};
use crate::builder::engine::{
    FusedOp, FusedSink, FusedTryOp, RangeOp, RangeTryOp, SinkOp, par_for_each, par_index_collect, par_index_try_collect, passes,
};
use crate::builder::plan::{prefers_serial, split_depth, workload_oversplit};
use crate::builder::stage::{
    Filter, FusedStage, FusedTryStage, Identity, InfallibleChain, MapErr, StageMarker, SyncMap, TryMap,
    accepts_all, collects, fails_at, feeds, kept, law_collect_splits, law_try_collect_splits,
    lemma_first_failure, lemma_kept_values, outcomes, result_view, succeeds, try_accepts_all, try_collects, try_outcomes,
};
use crate::pool::registry::worker_count;
use std::marker::PhantomData;
use vstd::prelude::*;

verus! {

/// Applies the chain to the items one after the other.
pub fn serial_collect<S, T>(items: Vec<T>, stages: &S) -> (r: Vec<S::Output>) where
    S: FusedStage<T>,

    requires
        accepts_all(*stages, items@),
    ensures
        collects(*stages, items@, r@),
{
    let ghost all = items@;
    let ghost mut outs: Seq<Option<S::Output>> = Seq::empty();
    let mut r: Vec<S::Output> = Vec::new();
    for item in it: items
        invariant
            it.seq() == all,
            accepts_all(*stages, all),
            outcomes(*stages, all.take(it.index() as int), outs),
            r@ == kept(outs),
    {
        let ghost i = it.index() as int;
        let out = stages.apply(item);
        let ghost before = outs;
        proof {
            outs = outs.push(out);
            assert(outs.drop_last() =~= before);
            assert forall|j: int| 0 <= j < i + 1 implies stages.outcome(
                all.take(i + 1)[j],
                #[trigger] outs[j],
            ) by {
                if j < i {
                    assert(all.take(i)[j] == all[j]);
                    assert(outs[j] == before[j]);
                }
            }
        }
        match out {
            Some(o) => {
                r.push(o);
            },
            None => {},
        }
    }
    assert(all.take(all.len() as int) =~= all);
    r
}

/// Applies the chain by halves, down to `splits_left` levels, and joins what
/// they return in order.
pub fn join_fused_collect<S, T>(items: Vec<T>, stages: &S, splits_left: usize) -> (r: Vec<
    S::Output,
>) where S: FusedStage<T>
    requires
        accepts_all(*stages, items@),
    ensures
        collects(*stages, items@, r@),
    decreases splits_left,
{
    if splits_left == 0 || items.len() <= 1 {
        return serial_collect(items, stages);
    }
    let ghost all = items@;
    let mid: usize = items.len() / 2;
    let mut left = items;
    let right = left.split_off(mid);
    let ghost halves = (left@, right@);
    assert(halves.0 + halves.1 =~= all);
    assert(accepts_all(*stages, halves.0)) by {
        assert forall|i: int| 0 <= i < halves.0.len() implies stages.accepts(
            #[trigger] halves.0[i],
        ) by {
            assert(halves.0[i] == all[i]);
        }
    }
    assert(accepts_all(*stages, halves.1)) by {
        assert forall|i: int| 0 <= i < halves.1.len() implies stages.accepts(
            #[trigger] halves.1[i],
        ) by {
            assert(halves.1[i] == all[mid + i]);
        }
    }
    let mut result = join_fused_collect(left, stages, splits_left - 1);
    let mut rest = join_fused_collect(right, stages, splits_left - 1);
    proof {
        law_collect_splits(*stages, halves.0, halves.1, result@, rest@);
    }
    result.append(&mut rest);
    result
}

/// Applies a fallible chain to the items up to the first that fails.
pub fn serial_try_collect<S, T>(items: Vec<T>, stages: &S) -> (r: Result<
    Vec<S::Output>,
    S::Error,
>) where S: FusedTryStage<T>
    requires
        try_accepts_all(*stages, items@),
    ensures
        try_collects(*stages, items@, result_view(r)),
{
    let ghost all = items@;
    let ghost mut outs: Seq<Option<S::Output>> = Seq::empty();
    let mut r: Vec<S::Output> = Vec::new();
    for item in it: items
        invariant
            it.seq() == all,
            try_accepts_all(*stages, all),
            try_outcomes(*stages, all.take(it.index() as int), outs),
            r@ == kept(outs),
    {
        let ghost i = it.index() as int;
        match stages.try_apply(item) {
            Ok(out) => {
                let ghost before = outs;
                proof {
                    outs = outs.push(out);
                    assert(outs.drop_last() =~= before);
                    assert forall|j: int| 0 <= j < i + 1 implies stages.try_outcome(
                        all.take(i + 1)[j],
                        Ok(#[trigger] outs[j]),
                    ) by {
                        if j < i {
                            assert(all.take(i)[j] == all[j]);
                            assert(outs[j] == before[j]);
                        }
                    }
                }
                match out {
                    Some(o) => {
                        r.push(o);
                    },
                    None => {},
                }
            },
            Err(e) => {
                proof {
                    lemma_first_failure(*stages, all, i, e);
                }
                return Err(e);
            },
        }
    }
    assert(all.take(all.len() as int) =~= all);
    Ok(r)
}

/// Applies a fallible chain by halves, down to `splits_left` levels. Both
/// halves are always worked through; the error of the left one comes first.
pub fn join_fused_try_collect<S, T>(items: Vec<T>, stages: &S, splits_left: usize) -> (r: Result<
    Vec<S::Output>,
    S::Error,
>) where S: FusedTryStage<T>
    requires
        try_accepts_all(*stages, items@),
    ensures
        try_collects(*stages, items@, result_view(r)),
    decreases splits_left,
{
    if splits_left == 0 || items.len() <= 1 {
        return serial_try_collect(items, stages);
    }
    let ghost all = items@;
    let mid: usize = items.len() / 2;
    let mut left = items;
    let right = left.split_off(mid);
    let ghost halves = (left@, right@);
    assert(halves.0 + halves.1 =~= all);
    assert(try_accepts_all(*stages, halves.0)) by {
        assert forall|i: int| 0 <= i < halves.0.len() implies stages.try_accepts(
            #[trigger] halves.0[i],
        ) by {
            assert(halves.0[i] == all[i]);
        }
    }
    assert(try_accepts_all(*stages, halves.1)) by {
        assert forall|i: int| 0 <= i < halves.1.len() implies stages.try_accepts(
            #[trigger] halves.1[i],
        ) by {
            assert(halves.1[i] == all[mid + i]);
        }
    }
    let left_r = join_fused_try_collect(left, stages, splits_left - 1);
    let right_r = join_fused_try_collect(right, stages, splits_left - 1);
    proof {
        law_try_collect_splits(
            *stages,
            halves.0,
            halves.1,
            result_view(left_r),
            result_view(right_r),
        );
    }
    match (left_r, right_r) {
        (Ok(mut l), Ok(mut r)) => {
            l.append(&mut r);
            Ok(l)
        },
        (Err(e), _) => Err(e),
        (_, Err(e)) => Err(e),
    }
}

/// Runs a chain over `items` with the split of `num_threads` workers.
pub fn fused_collect_scoped<S, T>(
    items: Vec<T>,
    stages: S,
    workload: Workload,
    compute_workers: usize,
) -> (r: Vec<S::Output>) where S: FusedStage<T>
    requires
        accepts_all(stages, items@),
    ensures
        collects(stages, items@, r@),
{
    let n: usize = items.len();
    let num_threads: usize = worker_count(compute_workers);
    if prefers_serial(n, num_threads) {
        return serial_collect(items, &stages);
    }
    let oversplit: usize = workload_oversplit(n, num_threads, workload);
    assert(num_threads * oversplit <= 65535 * 8) by (nonlinear_arith)
        requires
            num_threads <= 65535,
            oversplit <= 8,
    ;
    let splits: usize = split_depth(n, num_threads, oversplit);
    if S::MAY_FILTER {
        join_fused_collect(items, &stages, splits)
    } else {
        let ghost all = items@;
        let op = FusedOp(stages);
        let r = par_index_collect(items, &op, splits, num_threads);
        proof {
            lemma_collects_values(op.0, all, r@);
        }
        r
    }
}

/// Results in their items' places are a collection of the chain.
proof fn lemma_collects_values<T, S: FusedStage<T>>(stages: S, items: Seq<T>, r: Seq<S::Output>)
    requires
        r.len() == items.len(),
        forall|i: int| 0 <= i < items.len() ==> stages.outcome(items[i], Some(#[trigger] r[i])),
    ensures
        collects(stages, items, r),
{
    let outs = Seq::new(r.len(), |i: int| Some(r[i]));
    lemma_kept_values(r);
    assert forall|i: int| 0 <= i < items.len() implies stages.outcome(
        items[i],
        #[trigger] outs[i],
    ) by {
        assert(outs[i] == Some(r[i]));
    }
    assert(outcomes(stages, items, outs));
}

/// Runs a chain over `items` and hands what it lets through to `f`.
pub fn fused_for_each_scoped<S, T, F>(
    items: Vec<T>,
    stages: S,
    f: F,
    workload: Workload,
    compute_workers: usize,
) where S: FusedStage<T>, F: Fn(S::Output)
    requires
        accepts_all(stages, items@),
        forall|i: int, o: S::Output|
            0 <= i < items@.len() && #[trigger] stages.outcome(items@[i], Some(o)) ==> f.requires(
                (o,),
            ),
    ensures
        feeds(stages, items@, f),
{
    let n: usize = items.len();
    let ghost all = items@;
    let num_threads: usize = worker_count(compute_workers);
    let op = FusedSink(stages, f);
    proof {
        assert forall|i: int| 0 <= i < all.len() implies op.sinks(#[trigger] all[i]) by {}
    }
    if prefers_serial(n, num_threads) {
        par_for_each(items, &op, 0);
    } else {
        let oversplit: usize = workload_oversplit(n, num_threads, workload);
        assert(num_threads * oversplit <= 65535 * 8) by (nonlinear_arith)
            requires
                num_threads <= 65535,
                oversplit <= 8,
        ;
        let splits: usize = split_depth(n, num_threads, oversplit);
        par_for_each(items, &op, splits);
    }
    proof {
        lemma_feeds(op.0, all, op.1);
    }
}

/// What the chain made of `item` when it was handed on to `f`.
spec fn handed_on<T, S: FusedStage<T>, F: Fn(S::Output)>(stages: S, f: F, item: T) -> Option<
    S::Output,
> {
    choose|out: Option<S::Output>| #[trigger]
        stages.outcome(item, out) && (out matches Some(o) ==> f.ensures((o,), ()))
}

/// Every kept value is among the outcomes.
proof fn lemma_kept_from<O>(outs: Seq<Option<O>>, i: int) -> (j: int)
    requires
        0 <= i < kept(outs).len(),
    ensures
        0 <= j < outs.len(),
        outs[j] == Some(kept(outs)[i]),
    decreases outs.len(),
{
    let prev = outs.drop_last();
    if outs.last() is Some && i == kept(prev).len() {
        outs.len() - 1
    } else {
        lemma_kept_from(prev, i)
    }
}

proof fn lemma_feeds<T, S: FusedStage<T>, F: Fn(S::Output)>(stages: S, items: Seq<T>, f: F)
    requires
        forall|i: int| 0 <= i < items.len() ==> FusedSink(stages, f).consumed(#[trigger] items[i]),
    ensures
        feeds(stages, items, f),
{
    let outs = Seq::new(items.len(), |i: int| handed_on(stages, f, items[i]));
    assert forall|i: int| 0 <= i < items.len() implies {
        &&& stages.outcome(items[i], #[trigger] outs[i])
        &&& outs[i] matches Some(o) ==> f.ensures((o,), ())
    } by {
        assert(FusedSink(stages, f).consumed(items[i]));
        let out = choose|out: Option<S::Output>| #[trigger]
            stages.outcome(items[i], out) && (out matches Some(o) ==> f.ensures((o,), ()));
        assert(stages.outcome(items[i], out));
    }
    assert(outcomes(stages, items, outs));
    assert forall|i: int| 0 <= i < kept(outs).len() implies f.ensures((#[trigger] kept(outs)[i],), ()) by {
        let j = lemma_kept_from(outs, i);
        assert(outs[j] == Some(kept(outs)[i]));
    }
}

/// Starts a pipeline over `items`.
pub fn pipe<I>(items: Vec<I>) -> (p: Pipe<Identity, I, I>)
    ensures
        p.source() == items@,
        p.chain() == Identity,
        p.settings() == PipelineConfig::spec_for_cpus(None),
{
    Pipe { items, stages: Identity, config: PipelineConfig::default(), _marker: PhantomData }
}

/// A fused pipeline from items of type `I` to values of type `O`.
pub struct Pipe<S, I, O> {
    items: Vec<I>,
    stages: S,
    config: PipelineConfig,
    _marker: PhantomData<O>,
}

impl<S, I, O> Pipe<S, I, O> {
    /// The items that go in.
    pub closed spec fn source(&self) -> Seq<I> {
        self.items@
    }

    /// The stages that are applied to each of them.
    pub closed spec fn chain(&self) -> S {
        self.stages
    }

    /// The settings of the run.
    pub closed spec fn settings(&self) -> PipelineConfig {
        self.config
    }

    /// Replaces the settings.
    #[must_use]
    pub fn with_config(self, config: PipelineConfig) -> (r: Self)
        ensures
            r.source() == self.source(),
            r.chain() == self.chain(),
            r.settings() == config,
    {
        Pipe { config, ..self }
    }

    /// Replaces the expected spread of item costs.
    #[must_use]
    pub fn with_workload(self, workload: Workload) -> (r: Self)
        ensures
            r.source() == self.source(),
            r.chain() == self.chain(),
            r.settings() == (PipelineConfig { workload, ..self.settings() }),
    {
        let config = self.config.with_workload(workload);
        Pipe { config, ..self }
    }

    /// Appends a stage that applies `f`.
    pub fn map<N, F>(self, f: F) -> (r: Pipe<SyncMap<S, F>, I, N>) where
        S: StageMarker<I, Output = O>,
        F: Fn(O) -> N,

        ensures
            r.source() == self.source(),
            r.chain() == (SyncMap { prev: self.chain(), f }),
            r.settings() == self.settings(),
    {
        Pipe {
            items: self.items,
            stages: SyncMap { prev: self.stages, f },
            config: self.config,
            _marker: PhantomData,
        }
    }

    /// Appends a stage that keeps the values for which `f` holds.
    pub fn filter<F>(self, f: F) -> (r: Pipe<Filter<S, F>, I, O>) where
        S: StageMarker<I, Output = O>,
        F: Fn(&O) -> bool,

        ensures
            r.source() == self.source(),
            r.chain() == (Filter { prev: self.chain(), f }),
            r.settings() == self.settings(),
    {
        Pipe {
            items: self.items,
            stages: Filter { prev: self.stages, f },
            config: self.config,
            _marker: PhantomData,
        }
    }

    /// Appends a stage that may fail, from which on the pipeline is fallible.
    pub fn try_map<N, E, F>(self, f: F) -> (r: TryPipe<TryMap<InfallibleChain<S, E>, F>, I, N, E>) where
        S: StageMarker<I, Output = O>,
        F: Fn(O) -> Result<N, E>,

        ensures
            r.source() == self.source(),
            r.chain().prev.0 == self.chain(),
            r.chain().f == f,
            r.settings() == self.settings(),
    {
        TryPipe {
            items: self.items,
            stages: TryMap { prev: InfallibleChain(self.stages, PhantomData), f },
            config: self.config,
            _marker: PhantomData,
        }
    }
}

impl<S, I, O> Pipe<S, I, O> where S: FusedStage<I, Output = O> {
    /// Runs the pipeline and returns what the chain lets through, in item order.
    pub fn collect(self) -> (r: Vec<O>)
        requires
            accepts_all(self.chain(), self.source()),
        ensures
            collects(self.chain(), self.source(), r@),
    {
        fused_collect_scoped(
            self.items,
            self.stages,
            self.config.workload,
            self.config.compute_workers,
        )
    }

    /// Runs the pipeline and hands what the chain lets through to `f`.
    pub fn for_each<F>(self, f: F) where F: Fn(O)
        requires
            accepts_all(self.chain(), self.source()),
            forall|i: int, o: O|
                0 <= i < self.source().len() && #[trigger] self.chain().outcome(
                    self.source()[i],
                    Some(o),
                ) ==> f.requires((o,)),
        ensures
            feeds(self.chain(), self.source(), f),
    {
        fused_for_each_scoped(
            self.items,
            self.stages,
            f,
            self.config.workload,
            self.config.compute_workers,
        );
    }
}

/// A fallible fused pipeline from items of type `I` to values of type `O`, with
/// errors of type `E`.
pub struct TryPipe<S, I, O, E> {
    items: Vec<I>,
    stages: S,
    config: PipelineConfig,
    _marker: PhantomData<(O, E)>,
}

impl<S, I, O, E> TryPipe<S, I, O, E> {
    /// The items that go in.
    pub closed spec fn source(&self) -> Seq<I> {
        self.items@
    }

    /// The stages that are applied to each of them.
    pub closed spec fn chain(&self) -> S {
        self.stages
    }

    /// The settings of the run.
    pub closed spec fn settings(&self) -> PipelineConfig {
        self.config
    }

    /// Replaces the settings.
    #[must_use]
    pub fn with_config(self, config: PipelineConfig) -> (r: Self)
        ensures
            r.source() == self.source(),
            r.chain() == self.chain(),
            r.settings() == config,
    {
        TryPipe { config, ..self }
    }

    /// Replaces the expected spread of item costs.
    #[must_use]
    pub fn with_workload(self, workload: Workload) -> (r: Self)
        ensures
            r.source() == self.source(),
            r.chain() == self.chain(),
            r.settings() == (PipelineConfig { workload, ..self.settings() }),
    {
        let config = self.config.with_workload(workload);
        TryPipe { config, ..self }
    }

    /// Appends a stage that applies `f`.
    pub fn map<N, F>(self, f: F) -> (r: TryPipe<SyncMap<S, F>, I, N, E>) where
        S: StageMarker<I, Output = O>,
        F: Fn(O) -> N,

        ensures
            r.source() == self.source(),
            r.chain() == (SyncMap { prev: self.chain(), f }),
            r.settings() == self.settings(),
    {
        TryPipe {
            items: self.items,
            stages: SyncMap { prev: self.stages, f },
            config: self.config,
            _marker: PhantomData,
        }
    }

    /// Appends a stage that keeps the values for which `f` holds.
    pub fn filter<F>(self, f: F) -> (r: TryPipe<Filter<S, F>, I, O, E>) where
        S: StageMarker<I, Output = O>,
        F: Fn(&O) -> bool,

        ensures
            r.source() == self.source(),
            r.chain() == (Filter { prev: self.chain(), f }),
            r.settings() == self.settings(),
    {
        TryPipe {
            items: self.items,
            stages: Filter { prev: self.stages, f },
            config: self.config,
            _marker: PhantomData,
        }
    }

    /// Appends a further stage that may fail.
    pub fn try_map<N, F>(self, f: F) -> (r: TryPipe<TryMap<S, F>, I, N, E>) where
        S: StageMarker<I, Output = O> + FusedTryStage<I, Error = E>,
        F: Fn(O) -> Result<N, E>,

        ensures
            r.source() == self.source(),
            r.chain() == (TryMap { prev: self.chain(), f }),
            r.settings() == self.settings(),
    {
        TryPipe {
            items: self.items,
            stages: TryMap { prev: self.stages, f },
            config: self.config,
            _marker: PhantomData,
        }
    }

    /// Converts the errors of the stages so far with `f`.
    pub fn map_err<E2, F>(self, f: F) -> (r: TryPipe<MapErr<S, F>, I, O, E2>) where F: Fn(E) -> E2
        ensures
            r.source() == self.source(),
            r.chain() == (MapErr { prev: self.chain(), f }),
            r.settings() == self.settings(),
    {
        TryPipe {
            items: self.items,
            stages: MapErr { prev: self.stages, f },
            config: self.config,
            _marker: PhantomData,
        }
    }
}

impl<S, I, O, E> TryPipe<S, I, O, E> where S: FusedTryStage<I, Output = O, Error = E> {
    /// Runs the pipeline: all that the chain lets through in item order, or the
    /// error of the first item that fails.
    pub fn try_collect(self) -> (r: Result<Vec<O>, E>)
        requires
            try_accepts_all(self.chain(), self.source()),
        ensures
            try_collects(self.chain(), self.source(), result_view(r)),
    {
        let items = self.items;
        let stages = self.stages;
        let n: usize = items.len();
        let num_threads: usize = worker_count(self.config.compute_workers);
        if prefers_serial(n, num_threads) {
            return serial_try_collect(items, &stages);
        }
        let oversplit: usize = workload_oversplit(n, num_threads, self.config.workload);
        assert(num_threads * oversplit <= 65535 * 8) by (nonlinear_arith)
            requires
                num_threads <= 65535,
                oversplit <= 8,
        ;
        let splits: usize = split_depth(n, num_threads, oversplit);
        if S::MAY_FILTER {
            join_fused_try_collect(items, &stages, splits)
        } else {
            let ghost all = items@;
            let op = FusedTryOp(stages);
            let r = par_index_try_collect(items, &op, splits);
            proof {
                if r is Ok {
                    lemma_succeeds_values(op.0, all, r->Ok_0@);
                } else {
                    lemma_fails(op.0, all, r->Err_0);
                }
            }
            r
        }
    }
}

proof fn lemma_succeeds_values<T, S: FusedTryStage<T>>(
    stages: S,
    items: Seq<T>,
    values: Seq<S::Output>,
)
    requires
        values.len() == items.len(),
        forall|i: int|
            0 <= i < items.len() ==> FusedTryOp(stages).try_yields(
                items[i],
                Ok(#[trigger] values[i]),
            ),
    ensures
        succeeds(stages, items, values),
{
    let outs = Seq::new(values.len(), |i: int| Some(values[i]));
    lemma_kept_values(values);
    assert forall|i: int| 0 <= i < items.len() implies stages.try_outcome(
        items[i],
        Ok(#[trigger] outs[i]),
    ) by {
        assert(outs[i] == Some(values[i]));
    }
    assert(try_outcomes(stages, items, outs));
}

/// A value the operation can turn `item` into.
spec fn passed_value<T, S: FusedTryStage<T>>(stages: S, item: T) -> S::Output {
    choose|out: S::Output| #[trigger] FusedTryOp(stages).try_yields(item, Ok(out))
}

proof fn lemma_fails<T, S: FusedTryStage<T>>(stages: S, items: Seq<T>, e: S::Error)
    requires
        exists|k: int|
            0 <= k < items.len() && FusedTryOp(stages).try_yields(#[trigger] items[k], Err(e))
                && forall|j: int| 0 <= j < k ==> passes(FusedTryOp(stages), #[trigger] items[j]),
    ensures
        try_collects(stages, items, Err(e)),
{
    let k = choose|k: int|
        0 <= k < items.len() && FusedTryOp(stages).try_yields(#[trigger] items[k], Err(e))
            && forall|j: int| 0 <= j < k ==> passes(FusedTryOp(stages), #[trigger] items[j]);
    let outs = Seq::new(k as nat, |j: int| Some(passed_value(stages, items[j])));
    assert forall|j: int| 0 <= j < k implies stages.try_outcome(
        items.take(k)[j],
        Ok(#[trigger] outs[j]),
    ) by {
        assert(passes(FusedTryOp(stages), items[j]));
        assert(FusedTryOp(stages).try_yields(items[j], Ok(passed_value(stages, items[j]))));
    }
    assert(try_outcomes(stages, items.take(k), outs));
    lemma_first_failure(stages, items, k, e);
}

} // verus!
