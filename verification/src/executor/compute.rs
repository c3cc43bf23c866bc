//! A pool of compute workers, as the caller of a job sees it.
use crate::pool::registry::{pool_size, worker_count};
use vstd::prelude::*;

verus! {

/// A pool of a fixed number of workers.
///
/// Jobs handed to this pool are run by the thread that hands them in, one after
/// the other, before the call returns: what each of them promises then holds.
#[derive(Debug, Clone, Copy)]
pub struct ComputePool {
    workers: usize,
}

impl ComputePool {
    /// How many workers the pool has.
    pub closed spec fn workers(&self) -> nat {
        self.workers as nat
    }

    /// A pool of `num_workers` workers: at least one, and no more than the
    /// counters of sleeping workers can hold.
    #[must_use]
    pub fn new(num_workers: usize) -> (pool: Self)
        ensures
            pool.workers() == pool_size(num_workers as nat),
    {
        ComputePool { workers: worker_count(num_workers) }
    }

    /// How many workers the pool has.
    pub fn num_workers(&self) -> (n: usize)
        ensures
            n == self.workers(),
    {
        self.workers
    }

    /// Runs one job.
    pub fn submit<F>(&self, job: F) where F: FnOnce()
        requires
            job.requires(()),
        ensures
            job.ensures((), ()),
    {
        job();
    }

    /// Runs every job of a batch.
    pub fn submit_batch<F>(&self, jobs: Vec<F>) where F: FnOnce()
        requires
            forall|i: int| 0 <= i < jobs@.len() ==> (#[trigger] jobs@[i]).requires(()),
        ensures
            forall|i: int| 0 <= i < jobs@.len() ==> (#[trigger] jobs@[i]).ensures((), ()),
    {
        let ghost all = jobs@;
        for job in it: jobs
            invariant
                it.seq() == all,
                forall|i: int| 0 <= i < all.len() ==> (#[trigger] all[i]).requires(()),
                forall|i: int| 0 <= i < it.index() ==> (#[trigger] all[i]).ensures((), ()),
        {
            assert(job == all[it.index() as int]);
            self.submit(job);
        }
    }

    /// Fork and join: runs both, and returns both results.
    pub fn join<A, B, RA, RB>(&self, a: A, b: B) -> (r: (RA, RB)) where
        A: FnOnce() -> RA,
        B: FnOnce() -> RB,

        requires
            a.requires(()),
            b.requires(()),
        ensures
            a.ensures((), r.0),
            b.ensures((), r.1),
    {
        let ra = a();
        let rb = b();
        (ra, rb)
    }
}

} // verus!
