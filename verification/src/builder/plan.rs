//! How a fused run is split over workers.
use crate::builder::config::Workload;
use crate::util::{
    ceil_log2, ceil_log2_spec, chunk_count, chunk_start, lemma_ceil_log2_least, lemma_chunk_ends,
    lemma_chunk_order, lemma_chunk_step,
};
use vstd::arithmetic::power2::pow2;
use vstd::prelude::*;

verus! {

/// Items per worker up to which a balanced run is split once per worker.
pub const LOW_OVERSPLIT_ITEMS_PER_THREAD: usize = 1024;

/// Tasks per worker of a large balanced run.
pub const BALANCED_OVERSPLIT: usize = 4;

/// Tasks per worker of an unbalanced run.
pub const UNBALANCED_OVERSPLIT: usize = 8;

/// Whether a run is better done on the calling thread alone.
pub fn prefers_serial(n: usize, num_threads: usize) -> (b: bool)
    ensures
        b == (n <= 1 || num_threads <= 1),
{
    n <= 1 || num_threads <= 1
}

/// The levels of splitting that give about `oversplit` tasks per worker, but no
/// more than there are items to split.
pub open spec fn depth_for(n: nat, num_threads: nat, oversplit: nat) -> nat {
    let by_threads = ceil_log2_spec(num_threads * oversplit);
    let by_len = ceil_log2_spec(n);
    let least = if by_threads <= by_len {
        by_threads
    } else {
        by_len
    };
    if least == 0 {
        1
    } else {
        least
    }
}

/// The levels of splitting that give about `oversplit` tasks per worker.
pub fn split_depth(n: usize, num_threads: usize, oversplit: usize) -> (depth: usize)
    requires
        num_threads * oversplit <= usize::MAX,
    ensures
        depth == depth_for(n as nat, num_threads as nat, oversplit as nat),
{
    let desired_tasks: usize = (num_threads * oversplit).max(1);
    let by_threads: usize = ceil_log2(desired_tasks);
    let by_len: usize = ceil_log2(n.max(1));
    by_threads.min(by_len).max(1)
}

/// Full splitting to the chosen depth makes a task for every worker and
/// oversplit, or for every item where there are fewer.
pub proof fn law_split_depth_fills_workers(n: nat, num_threads: nat, oversplit: nat)
    ensures
        pow2(depth_for(n, num_threads, oversplit)) >= num_threads * oversplit || pow2(
            depth_for(n, num_threads, oversplit),
        ) >= n,
{
    let depth = depth_for(n, num_threads, oversplit);
    lemma_ceil_log2_least(num_threads * oversplit, depth);
    lemma_ceil_log2_least(n, depth);
}

/// Tasks per worker for `n` items.
pub open spec fn oversplit_for(n: nat, num_threads: nat, workload: Workload) -> nat {
    match workload {
        Workload::Balanced => if n / (if num_threads == 0 {
            1
        } else {
            num_threads
        }) <= LOW_OVERSPLIT_ITEMS_PER_THREAD {
            1
        } else {
            BALANCED_OVERSPLIT as nat
        },
        Workload::Unbalanced => UNBALANCED_OVERSPLIT as nat,
    }
}

/// Tasks per worker for `n` items.
pub fn workload_oversplit(n: usize, num_threads: usize, workload: Workload) -> (r: usize)
    ensures
        r == oversplit_for(n as nat, num_threads as nat, workload),
        1 <= r <= UNBALANCED_OVERSPLIT,
{
    match workload {
        Workload::Balanced => {
            if n / num_threads.max(1) <= LOW_OVERSPLIT_ITEMS_PER_THREAD {
                1
            } else {
                BALANCED_OVERSPLIT
            }
        },
        Workload::Unbalanced => UNBALANCED_OVERSPLIT,
    }
}

/// A contiguous range of items handed to one worker, and the levels of
/// splitting left within it.
#[derive(Debug, Clone, Copy, PartialEq, Eq, Structural)]
pub struct ChunkRange {
    pub start: usize,
    pub end: usize,
    pub splits: usize,
}

/// The levels of splitting left within each of `k` top-level chunks.
pub open spec fn splits_within(splits: nat, k: nat) -> nat {
    if splits >= ceil_log2_spec(k) {
        (splits - ceil_log2_spec(k)) as nat
    } else {
        0
    }
}

/// `plan` deals `n` items evenly over its ranges, in order.
pub open spec fn is_hybrid_plan(plan: Seq<ChunkRange>, n: nat, splits: nat) -> bool {
    forall|i: int|
        0 <= i < plan.len() ==> {
            &&& (#[trigger] plan[i]).start == chunk_start(n, plan.len(), i as nat)
            &&& plan[i].end == chunk_start(n, plan.len(), (i + 1) as nat)
            &&& plan[i].splits == splits_within(splits, plan.len())
        }
}

/// One range per worker, or per item where there are fewer, so that every
/// worker has something to do from the start; the tree within each range is
/// shallower by as many levels as the ranges replace.
pub fn hybrid_plan(n: usize, num_threads: usize, splits: usize) -> (plan: Vec<ChunkRange>)
    requires
        n > 0,
    ensures
        plan@.len() == chunk_count(n as nat, num_threads as nat),
        is_hybrid_plan(plan@, n as nat, splits as nat),
{
    let num_chunks: usize = num_threads.min(n).max(1);
    let chunk_log2: usize = ceil_log2(num_chunks);
    let chunk_splits: usize = splits.saturating_sub(chunk_log2);
    let chunk: usize = n / num_chunks;
    let rem: usize = n % num_chunks;
    let mut plan: Vec<ChunkRange> = Vec::with_capacity(num_chunks);
    let mut start: usize = 0;
    proof {
        lemma_chunk_ends(n as nat, num_chunks as nat);
    }
    for i in 0..num_chunks
        invariant
            0 < num_chunks,
            chunk == n / num_chunks,
            rem == n % num_chunks,
            chunk_splits == splits_within(splits as nat, num_chunks as nat),
            start == chunk_start(n as nat, num_chunks as nat, i as nat),
            plan@.len() == i,
            forall|j: int|
                0 <= j < i ==> {
                    &&& (#[trigger] plan@[j]).start == chunk_start(
                        n as nat,
                        num_chunks as nat,
                        j as nat,
                    )
                    &&& plan@[j].end == chunk_start(n as nat, num_chunks as nat, (j + 1) as nat)
                    &&& plan@[j].splits == chunk_splits
                },
    {
        proof {
            lemma_chunk_step(n as nat, num_chunks as nat, i as nat);
            lemma_chunk_order(n as nat, num_chunks as nat, (i + 1) as nat, num_chunks as nat);
        }
        let size: usize = if i < rem {
            chunk + 1
        } else {
            chunk
        };
        let end: usize = start + size;
        plan.push(ChunkRange { start, end, splits: chunk_splits });
        start = end;
    }
    plan
}

/// The ranges of a plan follow each other without gap or overlap and cover all
/// items.
pub proof fn law_plan_partitions(plan: Seq<ChunkRange>, n: nat, splits: nat)
    requires
        plan.len() > 0,
        is_hybrid_plan(plan, n, splits),
    ensures
        plan[0].start == 0,
        plan[plan.len() - 1].end == n,
        forall|i: int, j: int|
            0 <= i < plan.len() && j == i + 1 && j < plan.len() ==> (#[trigger] plan[i]).end == (
            #[trigger] plan[j]).start,
        forall|i: int| 0 <= i < plan.len() ==> (#[trigger] plan[i]).start <= plan[i].end <= n,
{
    lemma_chunk_ends(n, plan.len());
    assert forall|i: int| 0 <= i < plan.len() implies (#[trigger] plan[i]).start <= plan[i].end
        <= n by {
        lemma_chunk_order(n, plan.len(), i as nat, (i + 1) as nat);
    }
}

/// Splitting goes no deeper than it has to: one level less would leave fewer tasks than
/// workers and oversplit ask for, and fewer than items.
pub proof fn law_split_depth_is_the_least(n: nat, num_threads: nat, oversplit: nat)
    ensures
        depth_for(n, num_threads, oversplit) >= 1,
        depth_for(n, num_threads, oversplit) > 1 ==> pow2(
            (depth_for(n, num_threads, oversplit) - 1) as nat,
        ) < num_threads * oversplit && pow2(
            (depth_for(n, num_threads, oversplit) - 1) as nat,
        ) < n,
{
    let d = depth_for(n, num_threads, oversplit);
    if d > 1 {
        lemma_ceil_log2_least(num_threads * oversplit, (d - 1) as nat);
        lemma_ceil_log2_least(n, (d - 1) as nat);
    }
}

/// An unbalanced workload is cut finer than a balanced one, and a balanced one only where
/// every worker has many items.
pub proof fn law_unbalanced_work_is_cut_finer(n: nat, num_threads: nat)
    ensures
        1 <= oversplit_for(n, num_threads, Workload::Balanced) < oversplit_for(
            n,
            num_threads,
            Workload::Unbalanced,
        ),
        num_threads > 0 && n <= num_threads * LOW_OVERSPLIT_ITEMS_PER_THREAD ==> oversplit_for(
            n,
            num_threads,
            Workload::Balanced,
        ) == 1,
        num_threads > 0 && n >= num_threads * (LOW_OVERSPLIT_ITEMS_PER_THREAD + 1)
            ==> oversplit_for(n, num_threads, Workload::Balanced) > 1,
{
    if num_threads > 0 {
        let low = LOW_OVERSPLIT_ITEMS_PER_THREAD as nat;
        if n <= num_threads * low {
            assert(n / num_threads <= low) by (nonlinear_arith)
                requires
                    n <= num_threads * low,
                    num_threads > 0,
            ;
        }
        if n >= num_threads * (low + 1) {
            assert(n / num_threads >= low + 1) by (nonlinear_arith)
                requires
                    n >= num_threads * (low + 1),
                    num_threads > 0,
            ;
        }
    }
}

/// The ranges of a plan and the splitting within each come to the depth that was asked
/// for, or the ranges alone do.
pub proof fn law_ranges_replace_levels(splits: nat, k: nat)
    ensures
        splits_within(splits, k) + ceil_log2_spec(k) == splits || splits_within(splits, k) == 0
            && ceil_log2_spec(k) > splits,
{
}

} // verus!
