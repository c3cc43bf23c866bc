//! Pipelines whose stages may borrow from the stack frame that runs them.
use crate::builder::config::{PipelineConfig, Workload};
use crate::builder::pipe::{fused_collect_scoped, fused_for_each_scoped};
use crate::builder::stage::{Filter, FusedStage, Identity, StageMarker, SyncMap};
use crate::executor::ComputePool;
use std::marker::PhantomData;
use vstd::prelude::*;

verus! {

/// Runs `f` with a scope whose pipelines may borrow what outlives `'env`.
pub fn scope<'env, F, R>(f: F) -> (r: R) where F: FnOnce(&PipelineScope<'env>) -> R
    requires
        forall|s: &PipelineScope<'env>| f.requires((s,)),
    ensures
        exists|s: &PipelineScope<'env>| f.ensures((s,), r),
{
    let scope = PipelineScope { _marker: PhantomData };
    f(&scope)
}

/// A scope: `'env` bounds what the stages of its pipelines borrow.
pub struct PipelineScope<'env> {
    _marker: PhantomData<&'env ()>,
}

impl<'env> PipelineScope<'env> {
    /// Starts a pipeline over `items`.
    #[must_use]
    pub fn pipe<I>(&self, items: Vec<I>) -> (p: ScopedPipe<'env, Identity, I, I>)
        ensures
            p.source() == items@,
            p.chain() == Identity,
            p.settings() == PipelineConfig::spec_for_cpus(None),
            p.pool() is None,
            p.factor() is None,
    {
        ScopedPipe {
            items,
            stages: Identity,
            config: PipelineConfig::default(),
            compute_pool: None,
            oversubscribe: None,
            _marker: PhantomData,
        }
    }
}

/// A fused pipeline from items of type `I` to values of type `O` whose stages
/// may borrow what outlives `'env`.
pub struct ScopedPipe<'env, S, I, O> {
    items: Vec<I>,
    stages: S,
    config: PipelineConfig,
    compute_pool: Option<ComputePool>,
    oversubscribe: Option<usize>,
    _marker: PhantomData<(&'env (), O)>,
}

impl<'env, S, I, O> ScopedPipe<'env, S, I, O> {
    /// The items that go in.
    pub closed spec fn source(&self) -> Seq<I> {
        self.items@
    }

    /// The stages that are applied to each of them.
    pub closed spec fn chain(&self) -> S {
        self.stages
    }

    /// The settings of the run.
    pub closed spec fn settings(&self) -> PipelineConfig {
        self.config
    }

    /// The pool that was attached, if any.
    pub closed spec fn pool(&self) -> Option<ComputePool> {
        self.compute_pool
    }

    /// The factor by which the workers are multiplied, if one was set.
    pub closed spec fn factor(&self) -> Option<usize> {
        self.oversubscribe
    }

    /// Replaces the settings.
    #[must_use]
    pub fn with_config(self, config: PipelineConfig) -> (r: Self)
        ensures
            r.source() == self.source(),
            r.chain() == self.chain(),
            r.settings() == config,
            r.pool() == self.pool(),
            r.factor() == self.factor(),
    {
        ScopedPipe { config, ..self }
    }

    /// Replaces the expected spread of item costs.
    #[must_use]
    pub fn with_workload(self, workload: Workload) -> (r: Self)
        ensures
            r.source() == self.source(),
            r.chain() == self.chain(),
            r.settings() == (PipelineConfig { workload, ..self.settings() }),
            r.pool() == self.pool(),
            r.factor() == self.factor(),
    {
        let config = self.config.with_workload(workload);
        ScopedPipe { config, ..self }
    }

    /// Runs on `pool`.
    #[must_use]
    pub fn with_compute_pool(self, pool: ComputePool) -> (r: Self)
        ensures
            r.source() == self.source(),
            r.chain() == self.chain(),
            r.settings() == self.settings(),
            r.pool() == Some(pool),
            r.factor() == self.factor(),
    {
        ScopedPipe { compute_pool: Some(pool), ..self }
    }

    /// Runs on `factor` times as many workers; 0 counts as 1.
    #[must_use]
    pub fn with_oversubscribe(self, factor: usize) -> (r: Self)
        ensures
            r.source() == self.source(),
            r.chain() == self.chain(),
            r.settings() == self.settings(),
            r.pool() == self.pool(),
            r.factor() == Some(if factor == 0 {
                1usize
            } else {
                factor
            }),
    {
        ScopedPipe { oversubscribe: Some(factor.max(1)), ..self }
    }

    /// The workers that the run is split for: those of the attached pool, else
    /// the configured ones, multiplied by the factor where one was set.
    pub fn exec_workers(&self) -> (n: usize)
        ensures
            n == exec_workers_of(self.pool(), self.factor(), self.settings().compute_workers),
    {
        match &self.compute_pool {
            Some(pool) => pool.num_workers(),
            None => match self.oversubscribe {
                Some(factor) => match factor.checked_mul(self.config.compute_workers) {
                    Some(n) => n,
                    None => usize::MAX,
                },
                None => self.config.compute_workers,
            },
        }
    }

    /// Appends a stage that applies `f`.
    pub fn map<N, F>(self, f: F) -> (r: ScopedPipe<'env, SyncMap<S, F>, I, N>) where
        S: StageMarker<I, Output = O>,
        F: Fn(O) -> N + 'env,

        ensures
            r.source() == self.source(),
            r.chain() == (SyncMap { prev: self.chain(), f }),
            r.settings() == self.settings(),
            r.pool() == self.pool(),
            r.factor() == self.factor(),
    {
        ScopedPipe {
            items: self.items,
            stages: SyncMap { prev: self.stages, f },
            config: self.config,
            compute_pool: self.compute_pool,
            oversubscribe: self.oversubscribe,
            _marker: PhantomData,
        }
    }

    /// Appends a stage that keeps the values for which `f` holds.
    pub fn filter<F>(self, f: F) -> (r: ScopedPipe<'env, Filter<S, F>, I, O>) where
        S: StageMarker<I, Output = O>,
        F: Fn(&O) -> bool + 'env,

        ensures
            r.source() == self.source(),
            r.chain() == (Filter { prev: self.chain(), f }),
            r.settings() == self.settings(),
            r.pool() == self.pool(),
            r.factor() == self.factor(),
    {
        ScopedPipe {
            items: self.items,
            stages: Filter { prev: self.stages, f },
            config: self.config,
            compute_pool: self.compute_pool,
            oversubscribe: self.oversubscribe,
            _marker: PhantomData,
        }
    }
}

/// The workers that a run with these settings is split for.
pub open spec fn exec_workers_of(
    pool: Option<ComputePool>,
    factor: Option<usize>,
    compute_workers: usize,
) -> nat {
    match pool {
        Some(pool) => pool.workers(),
        None => match factor {
            Some(factor) => if factor * compute_workers > usize::MAX {
                usize::MAX as nat
            } else {
                (factor * compute_workers) as nat
            },
            None => compute_workers as nat,
        },
    }
}

impl<'env, S, I, O> ScopedPipe<'env, S, I, O> where S: FusedStage<I, Output = O> {
    /// Runs the pipeline and returns what the chain lets through, in item order.
    pub fn collect(self) -> (r: Vec<O>)
        requires
            crate::builder::stage::accepts_all(self.chain(), self.source()),
        ensures
            crate::builder::stage::collects(self.chain(), self.source(), r@),
    {
        let workers: usize = self.exec_workers();
        fused_collect_scoped(self.items, self.stages, self.config.workload, workers)
    }

    /// Runs the pipeline and hands what the chain lets through to `f`.
    pub fn for_each<F>(self, f: F) where F: Fn(O)
        requires
            crate::builder::stage::accepts_all(self.chain(), self.source()),
            forall|i: int, o: O|
                0 <= i < self.source().len() && #[trigger] self.chain().outcome(
                    self.source()[i],
                    Some(o),
                ) ==> f.requires((o,)),
        ensures
            crate::builder::stage::feeds(self.chain(), self.source(), f),
    {
        let workers: usize = self.exec_workers();
        fused_for_each_scoped(self.items, self.stages, f, self.config.workload, workers);
    }
}

/// A run in a scope is split for the workers of the pool that is attached. Without a pool it
/// is split for those that are configured, as many times over as the factor says, as far as
/// that can be counted.
pub proof fn law_a_pool_settles_the_workers(
    pool: ComputePool,
    factor: usize,
    compute_workers: usize,
)
    ensures
        exec_workers_of(Some(pool), None, compute_workers) == pool.workers(),
        exec_workers_of(Some(pool), Some(factor), compute_workers) == pool.workers(),
        exec_workers_of(None, None, compute_workers) == compute_workers,
        factor * compute_workers <= usize::MAX ==> exec_workers_of(
            None,
            Some(factor),
            compute_workers,
        ) == factor * compute_workers,
        factor * compute_workers > usize::MAX ==> exec_workers_of(
            None,
            Some(factor),
            compute_workers,
        ) == usize::MAX,
{
}

} // verus!
