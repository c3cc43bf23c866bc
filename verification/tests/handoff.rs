//! Rings, batchers, channels and wait groups.
use youpipe::handoff::{
    BatchConfig, Batcher, ChannelError, Inlet, Outlet, OwnedChannel, RecvItem, RingBuffer, SendItem,
    SharedBatcher, SharedRingBuffer, TryRecvError, TrySendError, WaitGroup, channel,
    is_channel_capacity, mpsc_channel,
};
use youpipe::sync::turn_log::TurnLog;

#[test]
fn test_batcher_basic() {
    let mut batcher = Batcher::<i32>::new(64, BatchConfig::default());
    for i in 0..10 {
        assert!(batcher.push(i).is_ok());
    }
    assert_eq!(batcher.pending_count(), 10);
    let mut dest = Vec::new();
    let count = batcher.drain(&mut dest);
    assert_eq!(count, 10);
    assert_eq!(dest, (0..10).collect::<Vec<_>>());
    assert_eq!(batcher.pending_count(), 0);
}

#[test]
fn test_batcher_batch_limit() {
    let config = BatchConfig::new(3, 100);
    let mut batcher = Batcher::<i32>::new(64, config);
    for i in 0..10 {
        assert!(batcher.push(i).is_ok());
    }
    let mut dest = Vec::new();
    let count = batcher.drain(&mut dest);
    assert_eq!(count, 3);
    assert_eq!(dest, vec![0, 1, 2]);
    let mut dest2 = Vec::new();
    let count2 = batcher.drain(&mut dest2);
    assert_eq!(count2, 3);
}

#[test]
fn test_shared_batcher() {
    let b1 = SharedBatcher::<i32>::new(64, BatchConfig::default());
    let b2 = b1.clone();
    assert!(b1.push(1).is_ok());
    let mut dest = Vec::new();
    b2.drain(&mut dest);
    assert_eq!(dest, vec![1]);
}

#[test]
fn test_spsc_basic() {
    let mut buf = RingBuffer::<i32>::new(4);
    assert!(buf.push(1).is_ok());
    assert!(buf.push(2).is_ok());
    assert!(buf.push(3).is_ok());
    assert!(buf.push(4).is_ok());
    assert!(buf.push(5).is_err());
    assert_eq!(buf.pop(), Some(1));
    assert_eq!(buf.pop(), Some(2));
    assert_eq!(buf.pop(), Some(3));
    assert_eq!(buf.pop(), Some(4));
    assert_eq!(buf.pop(), None);
}

#[test]
fn test_push_pop_interleaved() {
    let mut buf = RingBuffer::<i32>::new(8);
    for i in 0..100 {
        assert!(buf.push(i).is_ok());
        assert_eq!(buf.pop(), Some(i));
    }
}

#[test]
fn test_batch_operations() {
    let mut buf = RingBuffer::<i32>::new(16);
    let items: Vec<i32> = (0..10).collect();
    let pushed = buf.push_batch(&items);
    assert_eq!(pushed, 10);
    let mut dest = Vec::new();
    let popped = buf.pop_batch(&mut dest, 20);
    assert_eq!(popped, 10);
    assert_eq!(dest, items);
}

#[test]
fn test_batch_partial() {
    let mut buf = RingBuffer::<i32>::new(4);
    assert!(buf.push(1).is_ok());
    assert!(buf.push(2).is_ok());
    let items: Vec<i32> = (10..20).collect();
    let pushed = buf.push_batch(&items);
    assert_eq!(pushed, 2);
    let mut dest = Vec::new();
    assert_eq!(buf.pop_batch(&mut dest, 3), 3);
    assert_eq!(dest, vec![1, 2, 10]);
}

#[test]
fn test_shared_ring_buffer() {
    let buf = SharedRingBuffer::<i32>::new(8);
    let buf2 = buf.clone();
    assert!(buf.push(42).is_ok());
    assert_eq!(buf2.pop(), Some(42));
}

#[test]
fn test_channel_basic() {
    let (tx, rx) = channel::<i32>(4);
    tx.send(42).unwrap();
    tx.send(7).unwrap();
    assert_eq!(rx.recv().unwrap(), 42);
    assert_eq!(rx.recv().unwrap(), 7);
}

#[test]
fn test_channel_bounded() {
    let (tx, rx) = channel::<i32>(2);
    tx.try_send(1).unwrap();
    tx.try_send(2).unwrap();
    assert!(matches!(tx.try_send(3), Err(TrySendError::Full(3))));
    rx.recv().unwrap();
    tx.try_send(3).unwrap();
    assert_eq!(rx.recv().unwrap(), 2);
    assert_eq!(rx.recv().unwrap(), 3);
}

#[test]
fn test_channel_close_on_drop() {
    let (tx, rx) = channel::<i32>(4);
    tx.send(1).unwrap();
    tx.send(2).unwrap();
    drop(tx);
    assert_eq!(rx.recv().unwrap(), 1);
    assert_eq!(rx.recv().unwrap(), 2);
    assert!(matches!(rx.recv(), Err(ChannelError::Closed)));
}

#[test]
fn test_channel_mpmc() {
    let (tx, rx) = channel::<i32>(16);
    let tx2 = tx.clone();
    let rx2 = rx.clone();
    tx.send(1).unwrap();
    tx2.send(2).unwrap();
    tx.send(3).unwrap();
    tx2.send(4).unwrap();
    let mut all = vec![
        rx.recv().unwrap(),
        rx.recv().unwrap(),
        rx2.recv().unwrap(),
        rx2.recv().unwrap(),
    ];
    all.sort_unstable();
    assert_eq!(all, vec![1, 2, 3, 4]);
}

#[test]
fn a_closed_channel_gives_items_back() {
    let (tx, rx) = channel::<i32>(2);
    assert!(matches!(rx.try_recv(), Err(TryRecvError::Empty)));
    drop(rx);
    assert!(matches!(tx.try_send(9), Err(TrySendError::Closed(9))));
    assert!(matches!(tx.send(9), Err(ChannelError::Closed)));
    let (tx, rx) = channel::<i32>(2);
    tx.try_send(5).unwrap();
    drop(tx);
    assert_eq!(rx.try_recv().unwrap(), 5);
    assert!(matches!(rx.try_recv(), Err(TryRecvError::Closed)));
}

fn send_all<S: SendItem<u8>>(tx: &S, items: &[u8]) -> bool {
    items.iter().all(|item| tx.send(*item).is_ok())
}

fn recv_all<R: RecvItem<u8>>(rx: &R) -> Vec<u8> {
    let mut all = Vec::new();
    while let Ok(item) = rx.recv() {
        all.push(item);
    }
    all
}

#[test]
fn many_senders_and_one_receiver() {
    let (tx, rx) = mpsc_channel::<u8>(8);
    let other = tx.clone();
    assert!(matches!(rx.try_recv(), Err(TryRecvError::Empty)));
    assert!(send_all(&tx, &[1, 2]));
    assert!(send_all(&other, &[3]));
    assert_eq!(rx.try_recv().unwrap(), 1);
    drop(tx);
    drop(other);
    assert_eq!(recv_all(&rx), vec![2, 3]);
    assert!(matches!(rx.try_recv(), Err(TryRecvError::Closed)));
    let (tx, rx) = mpsc_channel::<u8>(1);
    drop(rx);
    assert!(matches!(tx.send(1), Err(ChannelError::Closed)));
}

#[test]
fn both_kinds_of_channel_are_used_alike() {
    let (tx, rx) = channel::<u8>(8);
    assert!(send_all(&tx, &[4, 5, 6]));
    drop(tx);
    assert_eq!(recv_all(&rx), vec![4, 5, 6]);
}

#[test]
fn inlets_and_outlets_pass_items_through() {
    let (tx, rx) = channel::<u8>(8);
    let mut out = Outlet::new(&tx);
    out.send(1).unwrap();
    out.send(2).unwrap();
    let mut input = Inlet::new(&rx);
    assert_eq!(input.recv().unwrap(), 1);
    assert_eq!(input.try_recv().unwrap(), 2);
    assert!(matches!(input.try_recv(), Err(TryRecvError::Empty)));
    drop(tx);
    assert!(matches!(input.try_recv(), Err(TryRecvError::Closed)));
    assert!(matches!(input.recv(), Err(ChannelError::Closed)));
    let (tx, rx) = channel::<u8>(8);
    drop(rx);
    assert!(matches!(Outlet::new(&tx).send(1), Err(ChannelError::Closed)));
}

#[test]
fn a_ring_reports_its_room() {
    let mut buf = RingBuffer::<u8>::new(4);
    assert!(buf.is_empty());
    assert_eq!((buf.capacity(), buf.len(), buf.remaining()), (4, 0, 4));
    assert_eq!(buf.push_batch(&[1, 2, 3]), 3);
    assert_eq!((buf.capacity(), buf.len(), buf.remaining()), (4, 3, 1));
    assert!(!buf.is_empty());
    assert_eq!(buf.push_batch(&[4, 5]), 1);
    assert_eq!(buf.push(6), Err(6));
    let mut dest = vec![0];
    assert_eq!(buf.pop_batch(&mut dest, 0), 0);
    assert_eq!(buf.pop_batch(&mut dest, 9), 4);
    assert_eq!(dest, vec![0, 1, 2, 3, 4]);
}

#[test]
fn a_shared_ring_reports_its_room() {
    let buf = SharedRingBuffer::<u8>::new(4);
    assert!(buf.is_empty());
    assert_eq!(buf.push_batch(&[1, 2, 3]), 3);
    assert_eq!((buf.capacity(), buf.len(), buf.remaining()), (4, 3, 1));
    let mut dest = Vec::new();
    assert_eq!(buf.pop_batch(&mut dest, 2), 2);
    assert_eq!(dest, vec![1, 2]);
    assert_eq!(buf.len(), 1);
}

#[test]
fn a_full_batcher_gives_items_back() {
    let mut batcher = Batcher::<u8>::new(2, BatchConfig::new(8, 50));
    assert!(batcher.is_empty());
    assert_eq!(batcher.push_batch(&[1, 2, 3]), 2);
    assert_eq!(batcher.push(4), Err(4));
    assert_eq!(batcher.config().max_batch_size, 8);
    assert_eq!(batcher.config().max_wait_micros, 50);
    let mut dest = Vec::new();
    assert_eq!(batcher.drain(&mut dest), 2);
    assert_eq!(dest, vec![1, 2]);
    assert_eq!(batcher.drain(&mut dest), 0);
}

#[test]
fn a_shared_batcher_counts_what_waits() {
    let batcher = SharedBatcher::<u8>::new(4, BatchConfig::new(2, 50));
    assert!(batcher.is_empty());
    assert_eq!(batcher.push_batch(&[1, 2, 3, 4, 5]), 4);
    assert_eq!(batcher.push(6), Err(6));
    assert_eq!(batcher.pending_count(), 4);
    let mut dest = Vec::new();
    assert_eq!(batcher.drain(&mut dest), 2);
    assert_eq!(batcher.pending_count(), 2);
    assert_eq!(dest, vec![1, 2]);
}

#[test]
fn a_wait_group_releases_at_zero() {
    let mut wg = WaitGroup::new();
    assert!(wg.wait());
    wg.add(2);
    assert!(!wg.wait());
    assert!(!wg.done());
    assert!(!wg.wait());
    assert!(wg.done());
    assert!(wg.wait());
    assert!(WaitGroup::default().wait());
}

#[test]
fn an_owned_channel_is_first_in_first_out() {
    for capacity in [0usize, 1, 2, 5] {
        let room = capacity.max(1);
        let mut chan = OwnedChannel::new(capacity);
        for lap in 0..4 {
            for i in 0..room {
                assert_eq!(chan.try_send(lap * 10 + i), Ok(()));
            }
            assert_eq!(chan.try_send(99), Err(TrySendError::Full(99)));
            for i in 0..room {
                assert_eq!(chan.try_recv(), Ok(lap * 10 + i));
            }
            assert_eq!(chan.try_recv(), Err(TryRecvError::Empty));
        }
        chan.try_send(7).unwrap();
        let (tx, rx) = chan.split();
        drop(tx);
        assert_eq!(rx.recv(), Ok(7));
        assert_eq!(rx.recv(), Err(ChannelError::Closed));
    }
}

#[test]
fn capacities_that_fit() {
    assert!(is_channel_capacity(0));
    assert!(is_channel_capacity(1 << 20));
    assert!(!is_channel_capacity(usize::MAX));
}

#[test]
fn clones_of_a_shared_ring_take_turns_with_one_queue() {
    let ring = SharedRingBuffer::<i32>::new(4);
    let other = ring.clone();
    assert!(ring.is_empty());
    assert_eq!(ring.push(1), Ok(()));
    assert_eq!(other.push_batch(&[2, 3, 4, 5, 6]), 3);
    assert_eq!(ring.push(7), Err(7));
    assert_eq!((ring.len(), other.remaining(), ring.capacity()), (4, 0, 4));
    let mut dest = vec![0];
    assert_eq!(ring.pop_batch(&mut dest, 3), 3);
    assert_eq!(dest, vec![0, 1, 2, 3]);
    assert_eq!(other.pop(), Some(4));
    assert_eq!(ring.pop(), None);
    assert_eq!(ring.pop_batch(&mut dest, 3), 0);
}

#[test]
fn clones_of_a_shared_batcher_take_turns_with_one_queue() {
    let batcher = SharedBatcher::<i32>::new(4, BatchConfig::new(3, 100));
    let other = batcher.clone();
    assert_eq!(batcher.push_batch(&[1, 2]), 2);
    assert_eq!(other.push(3), Ok(()));
    assert_eq!(other.push_batch(&[4, 5]), 1);
    assert_eq!(batcher.push(6), Err(6));
    assert_eq!(batcher.pending_count(), 4);
    let mut dest = Vec::new();
    assert_eq!(other.drain(&mut dest), 3);
    assert_eq!(batcher.drain(&mut dest), 1);
    assert_eq!(dest, vec![1, 2, 3, 4]);
    assert!(other.is_empty());
}

#[test]
fn what_does_not_fit_is_handed_back() {
    let mut ring = RingBuffer::<i32>::new(4);
    assert_eq!(ring.push(1), Ok(()));
    assert_eq!(ring.take_in(vec![2, 3, 4, 5, 6]), (3, vec![5, 6]));
    assert_eq!(ring.pop(), Some(1));
    assert_eq!(ring.take_in(vec![7]), (1, vec![]));
    let mut batcher = Batcher::<i32>::new(2, BatchConfig::default());
    assert_eq!(batcher.take_in(vec![1, 2, 3]), (2, vec![3]));
    assert_eq!(batcher.pending_count(), 2);
}

#[test]
fn a_batch_is_single_pushes_up_to_the_first_refusal() {
    for held in 0..4 {
        let items: Vec<i32> = (10..13).collect();
        let mut batched = Batcher::<i32>::new(4, BatchConfig::default());
        let mut singly = Batcher::<i32>::new(4, BatchConfig::default());
        for x in 0..held {
            assert!(batched.push(x).is_ok());
            assert!(singly.push(x).is_ok());
        }
        let count = batched.push_batch(&items);
        let mut pushes = 0;
        for &x in &items {
            if singly.push(x).is_err() {
                break;
            }
            pushes += 1;
        }
        assert_eq!(count, pushes);
        let (mut left, mut right) = (Vec::new(), Vec::new());
        assert_eq!(batched.drain(&mut left), singly.drain(&mut right));
        assert_eq!(left, right);
    }
}

#[test]
fn a_wait_group_knows_what_it_can_count() {
    let mut wg = WaitGroup::new();
    assert!(wg.has_room_for(usize::MAX));
    wg.add(2);
    assert!(wg.has_room_for(usize::MAX - 2));
    assert!(!wg.has_room_for(usize::MAX - 1));
}

#[test]
fn a_shared_ring_keeps_the_order() {
    let ring = SharedRingBuffer::<i32>::new(4);
    assert_eq!(ring.push(1), Ok(()));
    assert_eq!(ring.push(2), Ok(()));
    assert_eq!(ring.push_batch(&[10, 11, 12, 13]), 2);
    assert_eq!(ring.push(5), Err(5));
    assert_eq!(ring.remaining(), 0);
    let mut dest = vec![0];
    assert_eq!(ring.pop_batch(&mut dest, 3), 3);
    assert_eq!(dest, vec![0, 1, 2, 10]);
    assert_eq!(ring.pop(), Some(11));
    assert_eq!(ring.pop(), None);
}

#[test]
fn a_shared_batcher_drains_in_order() {
    let config = BatchConfig::new(3, 100);
    let batcher = SharedBatcher::<i32>::new(8, config);
    let clone = batcher.clone();
    assert_eq!(batcher.push(1), Ok(()));
    assert_eq!(clone.push_batch(&[2, 3, 4, 5]), 4);
    let mut dest = Vec::new();
    assert_eq!(batcher.drain(&mut dest), 3);
    assert_eq!(dest, vec![1, 2, 3]);
    assert_eq!(clone.drain(&mut dest), 2);
    assert_eq!(dest, vec![1, 2, 3, 4, 5]);
    assert!(batcher.is_empty());
}

#[test]
fn turns_on_record_do_what_plain_calls_do() {
    let ring = SharedRingBuffer::<i32>::new(2);
    let mut log = TurnLog::new();
    assert_eq!(ring.push_on_record(1, &mut log), Ok(()));
    assert_eq!(ring.push_batch_on_record(&[2, 3], &mut log), 1);
    assert_eq!(ring.pop_on_record(&mut log), Some(1));
    let mut dest = Vec::new();
    assert_eq!(ring.pop_batch_on_record(&mut dest, 5, &mut log), 1);
    assert_eq!(dest, vec![2]);
    let batcher = SharedBatcher::<i32>::new(2, BatchConfig::default());
    assert_eq!(batcher.push_on_record(4, &mut log), Ok(()));
    assert_eq!(batcher.drain_on_record(&mut dest, &mut log), 1);
    assert_eq!(dest, vec![2, 4]);
}
