//! Reordering, fences and cancellation.
use youpipe::handoff::{Inlet, Outlet, channel};
use youpipe::state::fence::{concat_batches, forward_fenced};
use youpipe::state::stream::{
    OrderedCollector, collect_ordered, collect_window, run_ordered_collect,
};
use youpipe::sync::flag::UseLog;
use youpipe::{CancellationToken, FenceBarrier, FenceMode, ReorderBuffer};

#[test]
fn test_fence_chunked() {
    let mut fence = FenceBarrier::<i32>::new(100, Some(3));
    assert!(fence.push(1).is_none());
    assert!(fence.push(2).is_none());
    let batch = fence.push(3);
    assert_eq!(batch, Some(vec![1, 2, 3]));
    assert!(fence.push(4).is_none());
    let remaining = fence.flush();
    assert_eq!(remaining, Some(vec![4]));
}

#[test]
fn test_fence_no_chunk() {
    let mut fence = FenceBarrier::<i32>::new(100, None);
    for i in 0..10 {
        assert!(fence.push(i).is_none());
    }
    let remaining = fence.flush();
    assert_eq!(remaining, Some((0..10).collect::<Vec<_>>()));
}

#[test]
fn test_in_order() {
    let mut buf = ReorderBuffer::<i32>::new(16);
    assert_eq!(buf.insert(0, 10), vec![10]);
    assert_eq!(buf.insert(1, 20), vec![20]);
    assert_eq!(buf.insert(2, 30), vec![30]);
}

#[test]
fn test_out_of_order() {
    let mut buf = ReorderBuffer::<i32>::new(16);
    assert!(buf.insert(2, 30).is_empty());
    assert_eq!(buf.insert(0, 10), vec![10]);
    assert_eq!(buf.insert(1, 20), vec![20, 30]);
}

#[test]
fn test_gap() {
    let mut buf = ReorderBuffer::<i32>::new(16);
    assert_eq!(buf.insert(0, 10), vec![10]);
    assert!(buf.insert(3, 40).is_empty());
    assert!(buf.insert(5, 60).is_empty());
    assert_eq!(buf.insert(1, 20), vec![20]);
    assert!(buf.insert(4, 50).is_empty());
}

#[test]
fn test_flush_remaining() {
    let mut buf = ReorderBuffer::<i32>::new(16);
    buf.insert(0, 10);
    buf.insert(3, 40);
    buf.insert(1, 20);
    buf.insert(5, 50);
    let remaining = buf.flush_remaining();
    assert_eq!(remaining, vec![40, 50]);
}

#[test]
fn test_capacity_overflow() {
    let mut buf = ReorderBuffer::<i32>::new(2);
    assert!(buf.insert(5, 50).is_empty());
    assert!(buf.insert(3, 30).is_empty());
    assert!(buf.insert(1, 10).is_empty());
    assert!(buf.len() <= 2);
}

#[test]
fn test_cancel_basic() {
    let token = CancellationToken::new();
    assert!(!token.is_cancelled());
    token.cancel();
    assert!(token.is_cancelled());
}

#[test]
fn test_cancel_clone() {
    let t1 = CancellationToken::new();
    let t2 = t1.clone();
    t1.cancel();
    assert!(t2.is_cancelled());
}

#[test]
fn test_cancel_reset() {
    let token = CancellationToken::new();
    token.cancel();
    assert!(token.is_cancelled());
    token.reset();
    assert!(!token.is_cancelled());
}

#[test]
fn a_default_token_is_not_cancelled() {
    assert!(!CancellationToken::default().is_cancelled());
}

#[test]
fn a_reorder_buffer_can_be_reused() {
    let mut buf = ReorderBuffer::<i32>::new(4);
    let mut sink = vec![-1];
    buf.insert_into(1, 20, &mut sink);
    assert_eq!(buf.len(), 1);
    assert!(!buf.is_empty());
    buf.insert_into(0, 10, &mut sink);
    assert_eq!(sink, vec![-1, 10, 20]);
    assert!(buf.is_empty());
    assert_eq!(buf.next_expected(), 2);
    buf.insert_into(3, 40, &mut sink);
    buf.reset();
    assert_eq!((buf.len(), buf.next_expected()), (0, 0));
    assert_eq!(buf.insert(0, 7), vec![7]);
}

#[test]
fn a_fence_fills_up() {
    let mut fence = FenceBarrier::<u8>::new(2, None);
    assert!(fence.is_empty());
    assert!(!fence.is_full());
    fence.push(1);
    fence.push(2);
    assert!(fence.is_full());
    assert_eq!(fence.len(), 2);
    assert_eq!(fence.flush(), Some(vec![1, 2]));
    assert_eq!(fence.flush(), None);
}

#[test]
fn batches_have_the_chunk_size() {
    let batches = forward_fenced((0..7).collect::<Vec<u8>>(), FenceMode::Chunked(3));
    assert_eq!(batches, vec![vec![0, 1, 2], vec![3, 4, 5], vec![6]]);
    assert_eq!(concat_batches(batches), (0..7).collect::<Vec<u8>>());
    let held = forward_fenced((0..7).collect::<Vec<u8>>(), FenceMode::Barrier);
    assert_eq!(held, vec![(0..7).collect::<Vec<u8>>()]);
    assert!(forward_fenced(Vec::<u8>::new(), FenceMode::Barrier).is_empty());
    assert_eq!(FenceMode::Chunked(3).chunk_size(), Some(3));
    assert_eq!(FenceMode::Barrier.chunk_size(), None);
}

#[test]
fn the_window_is_a_power_of_two_within_bounds() {
    assert_eq!(collect_window(0), 1 << 10);
    assert_eq!(collect_window(1024), 1 << 10);
    assert_eq!(collect_window(1025), 1 << 11);
    assert_eq!(collect_window(1 << 20), 1 << 20);
    assert_eq!(collect_window(usize::MAX), 1 << 20);
}

#[test]
fn any_order_of_arrival_is_restored() {
    let n = 2000u64;
    let mut arrivals: Vec<(u64, u64)> = (0..n).map(|i| (i, i * i)).collect();
    arrivals.reverse();
    assert_eq!(collect_ordered(arrivals, n as usize), (0..n).map(|i| i * i).collect::<Vec<_>>());
    let shuffled: Vec<(u64, u64)> = (0..n).map(|i| (i * 7 % n, i * 7 % n)).collect();
    assert_eq!(collect_ordered(shuffled, n as usize), (0..n).collect::<Vec<_>>());
    assert!(collect_ordered(Vec::<(u64, u8)>::new(), 0).is_empty());
}

#[test]
fn missing_numbers_do_not_hold_the_rest_back_for_ever() {
    let mut collector = OrderedCollector::new(10);
    for seq in [8u64, 0, 3, 5] {
        collector.push(seq, seq);
    }
    assert_eq!(collector.finish(), vec![0, 3, 5, 8]);
}

#[test]
fn an_ordered_collector_drains_a_channel() {
    let (tx, rx) = channel::<(u64, &'static str)>(8);
    let mut out = Outlet::new(&tx);
    for entry in [(2, "c"), (0, "a"), (3, "d"), (1, "b")] {
        out.send(entry).unwrap();
    }
    drop(tx);
    assert_eq!(run_ordered_collect(&mut Inlet::new(&rx), 4), vec!["a", "b", "c", "d"]);
}

#[test]
fn a_full_window_is_released_without_a_flush() {
    for order in [[0u64, 1, 2, 3], [3, 2, 1, 0], [2, 0, 3, 1]] {
        let mut buf = ReorderBuffer::<u64>::new(3);
        let mut out = Vec::new();
        for seq in order {
            buf.insert_into(seq, seq * 10, &mut out);
        }
        assert_eq!(out, vec![0, 10, 20, 30]);
        assert!(buf.is_empty());
        assert_eq!(buf.next_expected(), 4);
        assert!(buf.flush_remaining().is_empty());
    }
}

#[test]
fn a_chunk_size_of_zero_passes_items_singly() {
    assert_eq!(forward_fenced(vec![1, 2, 3], FenceMode::Chunked(0)), vec![vec![1], vec![2], vec![3]]);
}

#[test]
fn a_reading_finds_the_last_step_on_every_clone() {
    let token = CancellationToken::new();
    let early = token.clone();
    let other = CancellationToken::new();
    assert!(!early.is_cancelled());
    early.cancel();
    assert!(token.is_cancelled() && early.is_cancelled() && token.is_cancelled());
    assert!(!other.is_cancelled());
    token.reset();
    let late = early.clone();
    assert!(!early.is_cancelled() && !late.is_cancelled());
    token.reset();
    assert!(!late.is_cancelled());
    late.cancel();
    assert!(token.is_cancelled());
}

#[test]
fn calls_on_record_find_the_last_step() {
    let token = CancellationToken::new();
    let clone = token.clone();
    let mut uses = UseLog::new();
    token.cancel_on_record(&mut uses);
    assert!(clone.is_cancelled_on_record(&mut uses));
    clone.reset_on_record(&mut uses);
    assert!(!token.is_cancelled_on_record(&mut uses));
}

#[test]
fn only_the_next_number_releases_items() {
    let mut buf = ReorderBuffer::<u64>::new(4);
    assert!(buf.insert(1, 10).is_empty());
    assert_eq!(buf.insert(0, 0), vec![0, 10]);
    assert!(buf.insert(0, 7).is_empty());
    assert_eq!(buf.insert(2, 20), vec![20]);
}
