//! Settings of a scheduler.
use crate::builder::config::FALLBACK_CPUS;
use crate::handoff::BatchConfig;
use vstd::prelude::*;

verus! {

/// Slots of each hand-off ring where no number was asked for.
pub const DEFAULT_RING_CAPACITY: usize = 1024;

/// The sizes a scheduler is built with.
pub struct SchedulerConfig {
    /// Threads for CPU-bound work.
    pub compute_workers: usize,
    /// Threads behind the async runtime.
    pub async_workers: usize,
    /// When a batch is handed over.
    pub batch_config: BatchConfig,
    /// Slots of each hand-off ring.
    pub ring_capacity: usize,
}

impl SchedulerConfig {
    /// The settings for a machine with `cpus` cores, where that is known.
    pub fn for_cpus(cpus: Option<usize>) -> (r: Self)
        ensures
            r.compute_workers == (match cpus {
                Some(n) => n,
                None => FALLBACK_CPUS,
            }),
            r.async_workers == r.compute_workers,
            r.batch_config == (BatchConfig { max_batch_size: 64, max_wait_micros: 100 }),
            r.ring_capacity == DEFAULT_RING_CAPACITY,
    {
        let n: usize = match cpus {
            Some(n) => n,
            None => FALLBACK_CPUS,
        };
        SchedulerConfig {
            compute_workers: n,
            async_workers: n,
            batch_config: BatchConfig::default(),
            ring_capacity: DEFAULT_RING_CAPACITY,
        }
    }
}

impl Default for SchedulerConfig {
    /// The settings for an unknown number of cores.
    fn default() -> (r: Self)
        ensures
            r.compute_workers == FALLBACK_CPUS,
            r.async_workers == FALLBACK_CPUS,
            r.batch_config == (BatchConfig { max_batch_size: 64, max_wait_micros: 100 }),
            r.ring_capacity == DEFAULT_RING_CAPACITY,
    {
        SchedulerConfig::for_cpus(None)
    }
}

} // verus!
