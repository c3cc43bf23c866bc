//! Streaming pipelines: stages with channels between them.
use std::cell::RefCell;
use youpipe::handoff::{Inlet, Outlet};
use youpipe::builder::stream_workers::{
    collect_channel, expand_worker, feed_channel, feed_inline, forward_fenced_channel, stage_worker,
};
use youpipe::builder::stream_pipe::StreamCtx;
use youpipe::builder::stream_pipeline::{channel_capacity, split_workers, stream_workers};
use youpipe::builder::steps::RunLog;
use youpipe::prelude::IterExt;
use youpipe::sync::flag::UseLog;
use youpipe::{
    CancellationToken, ComputePool, FenceMode, PipelineConfig, StreamPipeline, channel, stream,
};

#[test]
fn test_stream_single_stage_unordered() {
    let config = PipelineConfig::default();
    let sp = StreamPipeline::new(config);
    let items: Vec<i32> = (0..100).collect();
    let mut result = sp.run(items, |x: i32| x * 2, false);
    result.sort_unstable();
    assert_eq!(result, (0..100).map(|x| x * 2).collect::<Vec<_>>());
}

#[test]
fn test_stream_single_stage_ordered() {
    let config = PipelineConfig::default();
    let sp = StreamPipeline::new(config);
    let items: Vec<i32> = (0..100).collect();
    let result = sp.run(items, |x: i32| x * 2, true);
    assert_eq!(result, (0..100).map(|x| x * 2).collect::<Vec<_>>());
}

#[test]
fn typed_test_stream_multi_stage() {
    let config = PipelineConfig::default();
    let sp = StreamPipeline::new(config);
    let items: Vec<i32> = (0..100).collect();
    let mut result = sp.run_multi_stage(items, |x: i32| x + 1, |x: i32| x * 3, false);
    result.sort_unstable();
    assert_eq!(result, (0..100).map(|x| (x + 1) * 3).collect::<Vec<_>>());
}

#[test]
fn test_stream_no_cancel() {
    let config = PipelineConfig::default();
    let sp = StreamPipeline::new(config);
    let items: Vec<i32> = (0..50).collect();
    let result = sp.run(items, |x: i32| x * 2, false);
    assert_eq!(result.len(), 50);
}

#[test]
fn test_stream_nested() {
    let config = PipelineConfig::default();
    let sp = StreamPipeline::new(config);
    let items: Vec<i32> = (0..5).collect();
    let mut result = sp.run_nested(items, |x: i32| vec![x, x + 100], |x: i32| x * 2, false);
    result.sort_unstable();
    let mut expected: Vec<i32> = (0..5).flat_map(|x| vec![x * 2, (x + 100) * 2]).collect();
    expected.sort_unstable();
    assert_eq!(result, expected);
}

#[test]
fn test_stream_cancel_unordered() {
    let token = CancellationToken::new();
    let config = PipelineConfig::default();
    let sp = StreamPipeline::new(config).with_cancel(token.clone());
    let items: Vec<i32> = (0..1000).collect();
    token.cancel();
    let result = sp.run(items, |x: i32| -> i32 { x * 2 }, false);
    assert!(result.len() < 1000);
}

#[test]
fn test_stream_cancel_all_variants() {
    let mk = || {
        let token = CancellationToken::new();
        let sp = StreamPipeline::new(PipelineConfig::default()).with_cancel(token.clone());
        (token, sp)
    };
    let items: Vec<i32> = (0..1000).collect();

    let (token, sp) = mk();
    token.cancel();
    let r = sp.run_multi_stage(items.clone(), |x: i32| x, |x: i32| x, false);
    assert!(r.len() < 1000, "multi_stage cancel failed: {}", r.len());

    let (token, sp) = mk();
    token.cancel();
    let r = sp.run_with_fence(items.clone(), |x: i32| x, |x: i32| x, FenceMode::Chunked(32), false);
    assert!(r.len() < 1000, "with_fence cancel failed: {}", r.len());

    let (token, sp) = mk();
    token.cancel();
    let r = sp.run_nested(items, |x: i32| vec![x, x + 1], |x: i32| x, false);
    assert!(r.len() < 2000, "nested cancel failed: {}", r.len());
}

#[test]
fn test_stream_single_ordered() {
    let items: Vec<i32> = (0..100).collect();
    let result = stream(items).stage(|x: i32| x * 2 + 1).ordered().run();
    let expected: Vec<i32> = (0..100).map(|x| x * 2 + 1).collect();
    assert_eq!(result, expected);
}

#[test]
fn test_stream_single_unordered() {
    let items: Vec<i32> = (0..100).collect();
    let mut result = stream(items).stage(|x: i32| x * 2 + 1).run();
    result.sort_unstable();
    let expected: Vec<i32> = (0..100).map(|x| x * 2 + 1).collect();
    assert_eq!(result, expected);
}

#[test]
fn pipeline_integration_test_stream_multi_stage() {
    let items: Vec<i32> = (0..200).collect();
    let mut result = stream(items)
        .stage(|x: i32| x + 10)
        .stage(|x: i32| x * 2)
        .run();
    result.sort_unstable();
    let expected: Vec<i32> = (0..200).map(|x| (x + 10) * 2).collect();
    assert_eq!(result, expected);
}

#[test]
fn test_stream_with_fence_chunked() {
    let items: Vec<i32> = (0..100).collect();
    let mut result = stream(items)
        .stage(|x: i32| x + 1)
        .fence(FenceMode::Chunked(25))
        .stage(|x: i32| x * 5)
        .run();
    result.sort_unstable();
    let expected: Vec<i32> = (0..100).map(|x| (x + 1) * 5).collect();
    assert_eq!(result, expected);
}

#[test]
fn test_stream_with_fence_full_barrier() {
    let items: Vec<i32> = (0..50).collect();
    let result = stream(items)
        .stage(|x: i32| x + 1)
        .fence(FenceMode::Barrier)
        .stage(|x: i32| x * 2)
        .ordered()
        .run();
    let expected: Vec<i32> = (0..50).map(|x| (x + 1) * 2).collect();
    assert_eq!(result, expected);
}

#[test]
fn test_stream_fence_large_input_no_deadlock() {
    let n: usize = 5_000;

    let items: Vec<i32> = (0..n as i32).collect();
    let mut r = stream(items)
        .stage(|x: i32| x + 1)
        .fence(FenceMode::Chunked(64))
        .stage(|x: i32| x * 3)
        .run();
    r.sort_unstable();
    let expected: Vec<i32> = (0..n as i32).map(|x| (x + 1) * 3).collect();
    assert_eq!(r, expected);

    let items: Vec<i32> = (0..n as i32).collect();
    let r = stream(items)
        .stage(|x: i32| x + 1)
        .fence(FenceMode::Barrier)
        .stage(|x: i32| x * 3)
        .ordered()
        .run();
    assert_eq!(r, expected);
}

#[test]
fn test_stream_expand() {
    let items: Vec<i32> = (0..10).collect();
    let mut result = stream(items)
        .expand(|x: i32| vec![x, x * 10])
        .stage(|x: i32| x + 1)
        .run();
    result.sort_unstable();
    let mut expected: Vec<i32> = (0..10).flat_map(|x| vec![x + 1, x * 10 + 1]).collect();
    expected.sort_unstable();
    assert_eq!(result, expected);
}

#[test]
fn test_prelude_stream_matches_free_function() {
    let items: Vec<i32> = (0..50).collect();
    let mut free = stream(items.clone()).stage(|x: i32| x + 1).run();
    free.sort_unstable();
    let mut method = items.stream().stage(|x: i32| x + 1).run();
    method.sort_unstable();
    assert_eq!(free, method);
}

#[test]
fn test_fence_cancellation_aborts_early() {
    let token = CancellationToken::new();
    let items: Vec<u32> = (0..10_000).collect();
    let canceller = token.clone();
    let slow = move |x: u32| -> u32 {
        if x == 20 {
            canceller.cancel();
        }
        x + 1
    };

    let result = stream(items)
        .with_cancel(token)
        .stage(slow)
        .fence(FenceMode::Barrier)
        .stage(|x: u32| x * 2)
        .run();

    assert!(result.len() < 10_000, "expected early abort, got {}", result.len());
}

#[test]
fn nested_runs_restore_the_order_of_what_was_expanded() {
    let sp = StreamPipeline::new(PipelineConfig::default());
    let result = sp.run_nested((0..500).collect(), |x: i32| vec![2 * x, 2 * x + 1], |x: i32| x + 7, true);
    assert_eq!(result, (7..1007).collect::<Vec<i32>>());
}

#[test]
fn a_fence_between_two_stages_loses_nothing() {
    let sp = StreamPipeline::new(PipelineConfig::default().with_compute_workers(5));
    for mode in [FenceMode::Barrier, FenceMode::Chunked(7), FenceMode::Chunked(1)] {
        let r = sp.run_with_fence((0..300).collect(), |x: i32| x + 1, |x: i32| x * 2, mode, true);
        assert_eq!(r, (0..300).map(|x| (x + 1) * 2).collect::<Vec<i32>>());
        let mut r = sp.run_with_fence((0..300).collect(), |x: i32| x + 1, |x: i32| x * 2, mode, false);
        r.sort_unstable();
        assert_eq!(r, (0..300).map(|x| (x + 1) * 2).collect::<Vec<i32>>());
    }
}

#[test]
fn two_stages_in_order() {
    let sp = StreamPipeline::new(PipelineConfig::default());
    let r = sp.run_multi_stage((0..100).collect(), |x: i32| x + 1, |x: i32| x * 3, true);
    assert_eq!(r, (0..100).map(|x| (x + 1) * 3).collect::<Vec<_>>());
}

#[test]
fn a_compute_pool_sizes_the_stages() {
    let r = stream((0..100u64).collect())
        .with_compute_pool(ComputePool::new(128))
        .with_config(PipelineConfig::default())
        .stage(|x: u64| x + 1)
        .ordered()
        .run();
    assert_eq!(r, (1..101).collect::<Vec<u64>>());
}

#[test]
fn workers_are_shared_between_the_stages() {
    let config = PipelineConfig::default().with_compute_workers(8).with_buffer_size(16);
    assert_eq!(stream_workers(&config, 3), 3);
    assert_eq!(stream_workers(&config, 100), 8);
    assert_eq!(split_workers(8), (4, 4));
    assert_eq!(split_workers(7), (3, 4));
    assert_eq!(channel_capacity(16, 8), 32);
    assert_eq!(channel_capacity(256, 8), 256);
    let ctx = StreamCtx::new(config, None, 1000, 3);
    assert_eq!(ctx.stage_parallelism(), 2);
    assert_eq!(ctx.buffer_size(2), 16);
    assert_eq!(ctx.buffer_size(5), 20);
    assert!(!ctx.cancel_active());
}

#[test]
fn stages_joined_by_channels_deliver_every_item() {
    let (feed_tx, feed_rx) = channel::<(u64, i32)>(64);
    let (mid_tx, mid_rx) = channel::<(u64, i32)>(64);
    let (out_tx, out_rx) = channel::<(u64, i32)>(64);
    feed_channel((0..10).collect(), &mut Outlet::new(&feed_tx), &None, &mut UseLog::new());
    drop(feed_tx);
    stage_worker(&mut Inlet::new(&feed_rx), &mut Outlet::new(&mid_tx), &None, &mut UseLog::new(), &|x: i32| x * x);
    drop(mid_tx);
    stage_worker(&mut Inlet::new(&mid_rx), &mut Outlet::new(&out_tx), &None, &mut UseLog::new(), &|x: i32| x + 1);
    drop(out_tx);
    let values = collect_channel(&mut Inlet::new(&out_rx));
    assert_eq!(values, (0..10).map(|x| x * x + 1).collect::<Vec<i32>>());
}

#[test]
fn expanding_and_fencing_workers_pass_everything_on() {
    let (feed_tx, feed_rx) = channel::<(u64, i32)>(64);
    let (mid_tx, mid_rx) = channel::<(u64, i32)>(64);
    let (out_tx, out_rx) = channel::<(u64, i32)>(64);
    feed_channel((0..5).collect(), &mut Outlet::new(&feed_tx), &None, &mut UseLog::new());
    drop(feed_tx);
    let mut feed_in = Inlet::new(&feed_rx);
    expand_worker(&mut feed_in, &mut Outlet::new(&mid_tx), &None, &mut UseLog::new(), &|x: i32| vec![x, -x]);
    drop(mid_tx);
    let mut mid_in = Inlet::new(&mid_rx);
    forward_fenced_channel(&mut mid_in, &mut Outlet::new(&out_tx), FenceMode::Chunked(3), &None, &mut UseLog::new());
    drop(out_tx);
    let values = collect_channel(&mut Inlet::new(&out_rx));
    assert_eq!(values, vec![0, 0, 1, -1, 2, -2, 3, -3, 4, -4]);
}

#[test]
fn a_cancelled_worker_takes_no_item() {
    let token = CancellationToken::new();
    token.cancel();
    let (feed_tx, feed_rx) = channel::<(u64, i32)>(64);
    let (out_tx, out_rx) = channel::<(u64, i32)>(64);
    feed_channel((0..5).collect(), &mut Outlet::new(&feed_tx), &None, &mut UseLog::new());
    drop(feed_tx);
    let calls = RefCell::new(0);
    let mut feed_in = Inlet::new(&feed_rx);
    stage_worker(&mut feed_in, &mut Outlet::new(&out_tx), &Some(token), &mut UseLog::new(), &|x: i32| {
        *calls.borrow_mut() += 1;
        x
    });
    drop(out_tx);
    let values = collect_channel(&mut Inlet::new(&out_rx));
    assert!(values.is_empty());
    assert_eq!(*calls.borrow(), 0);
}

#[test]
fn items_that_fit_are_fed_at_once() {
    let mut chan = feed_inline(vec!["a", "b", "c"], 3, &None, &mut UseLog::new());
    assert_eq!(chan.try_recv(), Ok((0, "a")));
    assert_eq!(chan.try_recv(), Ok((1, "b")));
    assert_eq!(chan.try_recv(), Ok((2, "c")));
    assert!(chan.try_recv().is_err());
    let token = CancellationToken::new();
    token.cancel();
    assert!(feed_inline(vec![1, 2], 8, &Some(token), &mut UseLog::new()).try_recv().is_err());
}

#[test]
fn channels_with_little_room_lose_nothing() {
    let config = PipelineConfig::default().with_compute_workers(3).with_buffer_size(1);
    let sp = StreamPipeline::new(config);
    let items: Vec<i32> = (0..100).collect();
    let expected: Vec<i32> = (0..100).map(|x| (x + 1) * 2).collect();
    assert_eq!(sp.run(items.clone(), |x: i32| (x + 1) * 2, true), expected);
    assert_eq!(sp.run_multi_stage(items.clone(), |x: i32| x + 1, |x: i32| x * 2, true), expected);
    for mode in [FenceMode::Barrier, FenceMode::Chunked(9), FenceMode::Chunked(40)] {
        let r = sp.run_with_fence(items.clone(), |x: i32| x + 1, |x: i32| x * 2, mode, true);
        assert_eq!(r, expected);
    }
    let r = stream(items)
        .with_config(config)
        .stage(|x: i32| x + 1)
        .fence(FenceMode::Chunked(4))
        .stage(|x: i32| x * 2)
        .ordered()
        .run();
    assert_eq!(r, expected);
}

#[test]
fn what_was_worked_on_before_the_stop_is_kept() {
    let config = PipelineConfig::default().with_compute_workers(1).with_buffer_size(4);
    let token = CancellationToken::new();
    let stop = token.clone();
    let sp = StreamPipeline::new(config).with_cancel(token.clone());
    let stage = move |x: i32| {
        if x == 10 {
            stop.cancel();
        }
        x
    };
    let r = sp.run((0..100).collect(), &stage, true);
    assert_eq!(r, (0..=10).collect::<Vec<i32>>());
    token.reset();
    let r = sp.run_multi_stage((0..100).collect(), |x: i32| x + 1, &stage, false);
    assert_eq!(r, (1..=10).collect::<Vec<i32>>());
    token.reset();
    let r = sp.run_with_fence((0..100).collect(), &stage, |x: i32| x, FenceMode::Barrier, true);
    assert!(r.is_empty());
}

#[test]
fn without_workers_one_stage_does_nothing() {
    let sp = StreamPipeline::new(PipelineConfig::default().with_compute_workers(0));
    assert!(sp.run(vec![1, 2, 3], |x: i32| x, true).is_empty());
    assert!(sp.run_nested(vec![1, 2, 3], |x: i32| vec![x, x], |x: i32| x, false).is_empty());
    assert_eq!(sp.run_multi_stage(vec![1, 2, 3], |x: i32| x, |x: i32| x, true), vec![1, 2, 3]);
}

#[test]
fn a_token_that_is_never_set_loses_nothing() {
    let sp = StreamPipeline::new(PipelineConfig::default()).with_cancel(CancellationToken::new());
    let items: Vec<i32> = (0..200).collect();
    let expected: Vec<i32> = items.iter().map(|x| (x + 1) * 2).collect();
    assert_eq!(sp.run(items.clone(), |x: i32| (x + 1) * 2, true), expected);
    assert_eq!(sp.run_multi_stage(items.clone(), |x: i32| x + 1, |x: i32| x * 2, true), expected);
    for mode in [FenceMode::Barrier, FenceMode::Chunked(7), FenceMode::Chunked(0)] {
        let r = sp.run_with_fence(items.clone(), |x: i32| x + 1, |x: i32| x * 2, mode, true);
        assert_eq!(r, expected);
    }
    let mut r = sp.run_nested(items.clone(), |x: i32| vec![x + 1], |x: i32| x * 2, false);
    r.sort_unstable();
    assert_eq!(r, expected);
    let r = stream(items)
        .with_cancel(CancellationToken::new())
        .stage(|x: i32| x + 1)
        .fence(FenceMode::Chunked(5))
        .stage(|x: i32| x * 2)
        .ordered()
        .run();
    assert_eq!(r, expected);
}

#[test]
fn a_cancelled_token_empties_every_run_and_calls_no_stage() {
    let token = CancellationToken::new();
    let clone = token.clone();
    clone.cancel();
    let sp = StreamPipeline::new(PipelineConfig::default()).with_cancel(token.clone());
    let called = RefCell::new(0usize);
    let stage = |x: i32| {
        *called.borrow_mut() += 1;
        x
    };
    for ordered in [false, true] {
        for n in [1, 10, 2000] {
            let items: Vec<i32> = (0..n).collect();
            assert!(sp.run(items.clone(), &stage, ordered).is_empty());
            assert!(sp.run_multi_stage(items.clone(), &stage, &stage, ordered).is_empty());
            for mode in [FenceMode::Barrier, FenceMode::Chunked(3)] {
                assert!(sp.run_with_fence(items.clone(), &stage, &stage, mode, ordered).is_empty());
            }
            assert!(sp.run_nested(items.clone(), |x: i32| vec![x, x], &stage, ordered).is_empty());
            let r = stream(items).with_cancel(token.clone()).stage(&stage).stage(&stage).run();
            assert!(r.is_empty());
        }
    }
    assert_eq!(*called.borrow(), 0);
}

#[test]
fn a_barrier_ends_the_first_stage_before_the_second_begins() {
    let sp = StreamPipeline::new(PipelineConfig::default());
    for ordered in [false, true] {
        let log = RefCell::new(Vec::new());
        let first = |x: i32| {
            log.borrow_mut().push(1);
            x + 1
        };
        let second = |x: i32| {
            log.borrow_mut().push(2);
            x * 2
        };
        let n = 3000;
        let r = sp.run_with_fence((0..n).collect(), &first, &second, FenceMode::Barrier, ordered);
        assert_eq!(r.len(), n as usize);
        let log = log.into_inner();
        assert_eq!(log.len(), 2 * n as usize);
        assert!(log[..n as usize].iter().all(|step| *step == 1));
        assert!(log[n as usize..].iter().all(|step| *step == 2));
    }
}

#[test]
fn two_stages_are_one_that_does_what_both_do() {
    let sp = StreamPipeline::new(PipelineConfig::default());
    let items: Vec<i32> = (0..500).collect();
    let two = sp.run_multi_stage(items.clone(), |x: i32| x + 3, |x: i32| x * 5, true);
    let one = sp.run(items.clone(), |x: i32| (x + 3) * 5, true);
    assert_eq!(two, one);
    assert_eq!(two[7], 50);
    let mut any = sp.run_multi_stage(items, |x: i32| x + 3, |x: i32| x * 5, false);
    any.sort_unstable();
    assert_eq!(any, one);
}

#[test]
fn a_token_that_was_read_before_it_was_cancelled_still_stops_a_run() {
    let token = CancellationToken::new();
    let mut log = RunLog::new();
    assert!(!token.is_cancelled_on_record(&mut log.uses));
    token.clone().cancel_on_record(&mut log.uses);
    let sp = StreamPipeline::new(PipelineConfig::default()).with_cancel(token.clone());
    let called = RefCell::new(0);
    let stage = |x: i32| {
        *called.borrow_mut() += 1;
        x
    };
    let items: Vec<i32> = (0..300).collect();
    assert!(sp.run_on_record(items.clone(), &stage, true, &mut log).is_empty());
    assert!(sp.run_multi_stage_on_record(items.clone(), &stage, &stage, false, &mut log).is_empty());
    let mode = FenceMode::Barrier;
    assert!(sp.run_with_fence_on_record(items.clone(), &stage, &stage, mode, true, &mut log).is_empty());
    assert!(sp.run_nested_on_record(items.clone(), |x: i32| vec![x], &stage, false, &mut log).is_empty());
    assert!(stream(items).with_cancel(token).stage(&stage).run_on_record(&mut log).is_empty());
    assert_eq!(*called.borrow(), 0);
}
