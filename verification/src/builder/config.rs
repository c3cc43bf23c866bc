//! Settings of a pipeline run.
use vstd::prelude::*;

verus! {

/// How the cost of items is spread within one fused run. It picks how finely
/// the fork/join tree is split; streaming runs do not consult it.
#[derive(Debug, Clone, Copy, PartialEq, Eq, Structural)]
pub enum Workload {
    /// Items cost about the same. Small batches are split once per worker,
    /// large ones four times.
    Balanced,
    /// A few items are far slower than the rest: always split eight times per
    /// worker, so that an idle worker can take over what a slow one left.
    Unbalanced,
}

impl Default for Workload {
    fn default() -> (r: Self)
        ensures
            r == Workload::Balanced,
    {
        Workload::Balanced
    }
}

/// Top-level settings of a pipeline run.
#[derive(Debug, Clone, Copy, PartialEq, Eq, Structural)]
pub struct PipelineConfig {
    /// Threads for CPU-bound work.
    pub compute_workers: usize,
    /// Threads behind the async runtime.
    pub async_workers: usize,
    /// Capacity of each channel between stages, in items.
    pub buffer_size: usize,
    /// Async tasks in flight per async stage.
    pub io_concurrency: usize,
    /// The expected spread of item costs.
    pub workload: Workload,
}

/// Worker count where the number of cores is not known.
pub const FALLBACK_CPUS: usize = 4;

/// Channel capacity where none was asked for.
pub const DEFAULT_BUFFER_SIZE: usize = 256;

/// Async tasks in flight where no number was asked for.
pub const DEFAULT_IO_CONCURRENCY: usize = 128;

impl Default for PipelineConfig {
    /// The settings for an unknown number of cores.
    fn default() -> (r: Self)
        ensures
            r == PipelineConfig::spec_for_cpus(None),
    {
        PipelineConfig::for_cpus(None)
    }
}

impl PipelineConfig {
    /// The settings for a machine with `cpus` cores, where that is known.
    pub open spec fn spec_for_cpus(cpus: Option<usize>) -> PipelineConfig {
        let n = match cpus {
            Some(n) => n,
            None => FALLBACK_CPUS,
        };
        PipelineConfig {
            compute_workers: n,
            async_workers: n,
            buffer_size: DEFAULT_BUFFER_SIZE,
            io_concurrency: DEFAULT_IO_CONCURRENCY,
            workload: Workload::Balanced,
        }
    }

    /// The settings for a machine with `cpus` cores, where that is known.
    pub fn for_cpus(cpus: Option<usize>) -> (r: Self)
        ensures
            r == PipelineConfig::spec_for_cpus(cpus),
    {
        let n: usize = match cpus {
            Some(n) => n,
            None => FALLBACK_CPUS,
        };
        PipelineConfig {
            compute_workers: n,
            async_workers: n,
            buffer_size: DEFAULT_BUFFER_SIZE,
            io_concurrency: DEFAULT_IO_CONCURRENCY,
            workload: Workload::Balanced,
        }
    }

    /// Sets the number of CPU-bound workers.
    #[must_use]
    pub fn with_compute_workers(self, n: usize) -> (r: Self)
        ensures
            r == (PipelineConfig { compute_workers: n, ..self }),
    {
        PipelineConfig { compute_workers: n, ..self }
    }

    /// Sets the number of async worker threads.
    #[must_use]
    pub fn with_async_workers(self, n: usize) -> (r: Self)
        ensures
            r == (PipelineConfig { async_workers: n, ..self }),
    {
        PipelineConfig { async_workers: n, ..self }
    }

    /// Sets the channel capacity.
    #[must_use]
    pub fn with_buffer_size(self, n: usize) -> (r: Self)
        ensures
            r == (PipelineConfig { buffer_size: n, ..self }),
    {
        PipelineConfig { buffer_size: n, ..self }
    }

    /// Sets how many async tasks are in flight per stage.
    #[must_use]
    pub fn with_io_concurrency(self, n: usize) -> (r: Self)
        ensures
            r == (PipelineConfig { io_concurrency: n, ..self }),
    {
        PipelineConfig { io_concurrency: n, ..self }
    }

    /// Sets the expected spread of item costs.
    #[must_use]
    pub fn with_workload(self, workload: Workload) -> (r: Self)
        ensures
            r == (PipelineConfig { workload, ..self }),
    {
        PipelineConfig { workload, ..self }
    }
}

/// The settings for a machine follow its cores, in the workers and in nothing else; one
/// whose cores are not known is taken to have the usual number.
pub proof fn law_workers_follow_the_cores(n: usize)
    ensures
        PipelineConfig::spec_for_cpus(Some(n)).compute_workers == n,
        PipelineConfig::spec_for_cpus(Some(n)).async_workers == n,
        PipelineConfig::spec_for_cpus(Some(n)) == (PipelineConfig {
            compute_workers: n,
            async_workers: n,
            ..PipelineConfig::spec_for_cpus(None)
        }),
        PipelineConfig::spec_for_cpus(None) == PipelineConfig::spec_for_cpus(Some(FALLBACK_CPUS)),
{
}

} // verus!
