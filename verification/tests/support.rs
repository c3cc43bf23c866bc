//! Chunks, plans, settings and graphs.
use youpipe::builder::config::{DEFAULT_BUFFER_SIZE, DEFAULT_IO_CONCURRENCY, FALLBACK_CPUS};
use youpipe::builder::plan::{hybrid_plan, prefers_serial, split_depth, workload_oversplit};
use youpipe::executor::scheduler::SchedulerConfig;
use youpipe::graph::{NodeKind, PipelineEdge, PipelineNode, StageKind};
use youpipe::util::{ceil_log2, next_power_of_two, split_chunks};
use youpipe::{PipelineConfig, Workload};

#[test]
fn test_split_even() {
    let chunks = split_chunks(vec![1, 2, 3, 4], 2);
    assert_eq!(chunks, vec![vec![1, 2], vec![3, 4]]);
}

#[test]
fn test_split_uneven() {
    let chunks = split_chunks(vec![1, 2, 3, 4, 5], 2);
    assert_eq!(chunks, vec![vec![1, 2, 3], vec![4, 5]]);
}

#[test]
fn test_split_empty() {
    let chunks: Vec<Vec<i32>> = split_chunks(vec![], 4);
    assert!(chunks.is_empty());
}

#[test]
fn test_split_more_chunks_than_items() {
    let chunks = split_chunks(vec![1, 2], 5);
    assert_eq!(chunks, vec![vec![1], vec![2]]);
}

#[test]
fn chunks_join_to_the_items() {
    for n in 0..40 {
        for parts in 1..9 {
            let items: Vec<usize> = (0..n).collect();
            let chunks = split_chunks(items.clone(), parts);
            assert_eq!(chunks.concat(), items);
        }
    }
}

#[test]
fn powers_of_two() {
    assert_eq!(ceil_log2(0), 0);
    assert_eq!(ceil_log2(1), 0);
    assert_eq!(ceil_log2(2), 1);
    assert_eq!(ceil_log2(5), 3);
    assert_eq!(ceil_log2(1024), 10);
    assert_eq!(next_power_of_two(0), 1);
    assert_eq!(next_power_of_two(5), 8);
    assert_eq!(next_power_of_two(64), 64);
}

#[test]
fn settings_are_set_one_by_one() {
    let config = PipelineConfig::default();
    assert_eq!(config.compute_workers, FALLBACK_CPUS);
    assert_eq!(config.buffer_size, DEFAULT_BUFFER_SIZE);
    assert_eq!(config.io_concurrency, DEFAULT_IO_CONCURRENCY);
    assert_eq!(config.workload, Workload::default());
    let config = PipelineConfig::for_cpus(Some(12))
        .with_async_workers(3)
        .with_buffer_size(9)
        .with_io_concurrency(5)
        .with_workload(Workload::Unbalanced);
    assert_eq!(config.compute_workers, 12);
    assert_eq!(config.async_workers, 3);
    assert_eq!(config.buffer_size, 9);
    assert_eq!(config.io_concurrency, 5);
    assert_eq!(config.with_compute_workers(2).compute_workers, 2);
    assert_eq!(config.workload, Workload::Unbalanced);
}

#[test]
fn scheduler_settings() {
    let config = SchedulerConfig::default();
    assert_eq!(config.compute_workers, FALLBACK_CPUS);
    assert_eq!(config.ring_capacity, 1024);
    assert_eq!(config.batch_config.max_batch_size, 64);
    let config = SchedulerConfig::for_cpus(Some(7));
    assert_eq!((config.compute_workers, config.async_workers), (7, 7));
}

#[test]
fn small_batches_are_not_split() {
    assert!(prefers_serial(0, 8));
    assert!(!prefers_serial(100_000, 8));
    assert_eq!(workload_oversplit(100_000, 8, Workload::Unbalanced), 8);
    assert!(split_depth(100_000, 8, 4) >= 5);
}

#[test]
fn a_plan_covers_every_item_once() {
    for n in [0usize, 1, 7, 1000, 4097] {
        let plan = hybrid_plan(n, 6, 3);
        let mut next = 0;
        for range in &plan {
            assert_eq!(range.start, next);
            next = range.end;
        }
        assert_eq!(next, n);
    }
}

#[test]
fn edges_and_nodes() {
    let edge = PipelineEdge::new(8, true);
    assert_eq!((edge.buffer_size, edge.ordered), (8, true));
    assert_eq!(PipelineEdge::default_unordered(), PipelineEdge::new(256, false));
    assert_eq!(PipelineEdge::default_ordered(), PipelineEdge::new(256, true));

    let node: PipelineNode<fn(i32) -> i32, ()> = PipelineNode::sync(|x| x + 1);
    let node = node.with_parallelism(4).with_name("plus one");
    assert_eq!((node.stage_kind, node.parallelism, node.name), (StageKind::Sync, 4, "plus one"));
    assert!(matches!(node.kind, NodeKind::Sync(f) if f(1) == 2));

    let node: PipelineNode<(), u8> = PipelineNode::async_stage(9);
    assert_eq!((node.stage_kind, node.parallelism, node.name), (StageKind::Async, 0, ""));
    assert!(matches!(node.kind, NodeKind::Async(9)));

    let fence: PipelineNode<(), ()> = PipelineNode::fence(Some(16));
    assert_eq!((fence.stage_kind, fence.parallelism, fence.name), (StageKind::Sync, 1, "fence"));
    assert!(matches!(fence.kind, NodeKind::Fence { chunk_size: Some(16) }));
}
