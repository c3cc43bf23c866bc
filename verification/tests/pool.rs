//! The pool: who sleeps, who is woken, and where jobs wait.
use std::cell::RefCell;
use std::sync::atomic::{AtomicUsize, Ordering};
use std::sync::{Arc, mpsc};
use youpipe::ComputePool;
use youpipe::handoff::WaitGroup;
use youpipe::pool::latch::{CoreLatch, CountLatch, LatchState, LockLatch, OnceLatch, SpinLatch, Wake};
use youpipe::pool::registry::{
    JoinAction, Posted, Registry, Source, TerminateCount, XorShift64Star, join_step, victims,
    worker_count,
};
use youpipe::pool::sleep::{
    AtomicCounters, IdleAction, JobsEventCounter, Sleep, SleepOutcome, THREADS_MAX,
};
use youpipe::pool::sleep_mask::{SleepMask, split_index};
use youpipe::pool::worker::{Search, WaitAction, WaitLoop};

#[test]
fn set_clear_single_word() {
    let mut mask = SleepMask::new(50);
    mask.set(0);
    mask.set(49);
    let woken = mask.wake_scan(2, |i| {
        assert!(i == 0 || i == 49);
        true
    });
    assert_eq!(woken, 2);
}

#[test]
fn set_clear_cross_word_boundary() {
    let mut mask = SleepMask::new(128);
    mask.set(63);
    mask.set(64);
    mask.set(127);

    let visited = RefCell::new(Vec::new());
    let woken = mask.wake_scan(3, |i| {
        visited.borrow_mut().push(i);
        true
    });
    assert_eq!(woken, 3);
    let visited = visited.into_inner();
    assert!(visited.contains(&63));
    assert!(visited.contains(&64));
    assert!(visited.contains(&127));

    mask.clear(63);
    mask.clear(64);
    mask.clear(127);
    let woken2 = mask.wake_scan(3, |_| true);
    assert_eq!(woken2, 0);
}

#[test]
fn stale_bit_triggers_rescan() {
    let mut mask = SleepMask::new(130);
    mask.set(5);
    mask.set(70);

    let woken_indices = RefCell::new(Vec::new());
    let woken = mask.wake_scan(2, |i| {
        if i == 5 {
            false
        } else {
            woken_indices.borrow_mut().push(i);
            true
        }
    });
    assert_eq!(woken, 1);
    assert_eq!(woken_indices.into_inner(), [70]);
}

#[test]
fn wake_scan_stops_at_target() {
    let mut mask = SleepMask::new(200);
    for i in 0..10 {
        mask.set(i);
    }
    let woken = mask.wake_scan(3, |_| true);
    assert_eq!(woken, 3);
}

#[test]
fn empty_mask_wakes_none() {
    let mut mask = SleepMask::new(64);
    let woken = mask.wake_scan(5, |_| true);
    assert_eq!(woken, 0);
}

#[test]
fn cross_word_bits_are_distinct() {
    let mut mask = SleepMask::new(130);
    mask.set(64);
    assert_eq!(mask.word(0), 0);
    assert_eq!(mask.word(1), 1);
    mask.set(0);
    assert_eq!(mask.word(0), 1);

    let woken = mask.wake_scan(1, |i| {
        if i == 0 {
            false
        } else {
            assert_eq!(i, 64);
            true
        }
    });
    assert_eq!(woken, 1);
}

#[test]
fn test_pool_basic() {
    let pool = ComputePool::new(2);
    let (tx, rx) = mpsc::channel();
    pool.submit(move || {
        tx.send(42i32).unwrap();
    });
    assert_eq!(
        rx.recv_timeout(std::time::Duration::from_secs(5)).unwrap(),
        42
    );
}

#[test]
fn test_pool_multiple() {
    let pool = Arc::new(ComputePool::new(4));
    let (tx, rx) = mpsc::channel();
    for i in 0..10 {
        let tx = tx.clone();
        let p = pool.clone();
        p.submit(move || {
            tx.send(i).unwrap();
        });
    }
    drop(tx);
    let results: Vec<i32> = rx.iter().collect();
    assert_eq!(results.len(), 10);
}

#[test]
fn test_pool_work_stealing() {
    let pool = Arc::new(ComputePool::new(4));
    let (tx, rx) = mpsc::channel();
    let total = 1000;
    for i in 0..total {
        let tx = tx.clone();
        let p = pool.clone();
        p.submit(move || {
            let mut sum = 0u64;
            for j in 0..1000 {
                sum = sum.wrapping_add(j);
            }
            tx.send((i, sum)).unwrap();
        });
    }
    drop(tx);
    let results: Vec<_> = rx.iter().collect();
    assert_eq!(results.len(), total);
}

#[test]
fn test_join_basic() {
    let pool = Arc::new(ComputePool::new(4));
    let (tx, rx) = mpsc::channel::<(i32, i32)>();
    let pool_ref = pool.clone();
    pool.submit(move || {
        let (a, b) = pool_ref.join(|| 1 + 1, || 2 + 2);
        tx.send((a, b)).unwrap();
    });
    let result = rx.recv_timeout(std::time::Duration::from_secs(5)).unwrap();
    assert_eq!(result, (2, 4));
}

fn recursive_sum(pool: Arc<ComputePool>, start: i32, end: i32) -> i32 {
    if end - start <= 8 {
        return (start..end).sum();
    }
    let mid = start + (end - start) / 2;
    let p1 = pool.clone();
    let p2 = pool.clone();
    let (left, right) = pool.join(
        move || recursive_sum(p1, start, mid),
        move || recursive_sum(p2, mid, end),
    );
    left + right
}

#[test]
fn test_join_recursive() {
    let pool = Arc::new(ComputePool::new(4));
    let (tx, rx) = mpsc::channel::<i32>();
    let pool_ref = pool.clone();
    pool.submit(move || {
        let sum = recursive_sum(pool_ref, 0, 64);
        tx.send(sum).unwrap();
    });
    let result = rx.recv_timeout(std::time::Duration::from_secs(5)).unwrap();
    let expected: i32 = (0..64).sum();
    assert_eq!(result, expected);
}

#[test]
fn test_join_external_thread() {
    let pool = ComputePool::new(4);
    let (a, b) = pool.join(|| 10 + 20, || 30 + 40);
    assert_eq!(a, 30);
    assert_eq!(b, 70);
}

#[test]
fn test_compute_pool_basic() {
    let pool = youpipe::ComputePool::new(4);
    let (tx, rx) = mpsc::channel();
    for i in 0..10 {
        let tx = tx.clone();
        pool.submit(move || {
            tx.send(i).unwrap();
        });
    }
    drop(tx);
    let results: Vec<i32> = rx.iter().collect();
    assert_eq!(results.len(), 10);
}

#[test]
fn test_compute_pool_shared() {
    let pool = Arc::new(youpipe::ComputePool::new(4));
    let (tx, rx) = mpsc::channel();
    for i in 0..100 {
        let tx = tx.clone();
        let p = pool.clone();
        p.submit(move || {
            let mut sum = 0u64;
            for j in 0..1000 {
                sum = sum.wrapping_add(j);
            }
            tx.send((i, sum)).unwrap();
        });
    }
    drop(tx);
    let results: Vec<(i32, u64)> = rx.iter().collect();
    assert_eq!(results.len(), 100);
}

#[test]
fn test_compute_pool_many_small_tasks() {
    let pool = Arc::new(youpipe::ComputePool::new(4));
    let counter = Arc::new(AtomicUsize::new(0));
    let wg = RefCell::new(WaitGroup::new());
    let total = 10000;
    wg.borrow_mut().add(total);
    for _ in 0..total {
        let counter = counter.clone();
        pool.submit(|| {
            counter.fetch_add(1, Ordering::Relaxed);
            wg.borrow_mut().done();
        });
    }
    assert!(wg.borrow().wait());
    assert_eq!(counter.load(Ordering::Relaxed), total);
}

#[test]
fn a_pool_has_at_least_one_worker_and_no_more_than_the_counters_hold() {
    assert_eq!(ComputePool::new(0).num_workers(), 1);
    assert_eq!(ComputePool::new(7).num_workers(), 7);
    assert_eq!(ComputePool::new(100_000).num_workers(), THREADS_MAX);
    assert_eq!(worker_count(0), 1);
    assert_eq!(worker_count(100_000), THREADS_MAX);
}

#[test]
fn a_batch_runs_in_order() {
    let seen = RefCell::new(Vec::new());
    let jobs: Vec<_> = (0..5)
        .map(|i| {
            let seen = &seen;
            move || seen.borrow_mut().push(i)
        })
        .collect();
    ComputePool::new(2).submit_batch(jobs);
    assert_eq!(seen.into_inner(), vec![0, 1, 2, 3, 4]);
}

#[test]
fn bits_and_words() {
    assert_eq!(split_index(0), (0, 1));
    assert_eq!(split_index(63), (0, 1 << 63));
    assert_eq!(split_index(64), (1, 1));
    assert_eq!(split_index(130), (2, 4));
    let mut mask = SleepMask::new(THREADS_MAX);
    assert_eq!(mask.lowest(), None);
    mask.set(510);
    mask.set(77);
    assert_eq!(mask.lowest(), Some(77));
    assert_eq!(mask.scan_woken(9, |i| i > 100), vec![510]);
    assert_eq!(mask.lowest(), Some(510));
    assert_eq!((mask.lowest_from(510), mask.lowest_from(511)), (Some(510), None));
}

#[test]
fn a_scan_of_sleepers_leaves_the_mask_alone() {
    let mut mask = SleepMask::new(130);
    for i in [3, 63, 64, 129] {
        mask.set(i);
    }
    assert_eq!(mask.wake_scan(0, |_| true), 0);
    assert_eq!(mask.scan_woken(3, |_| true), vec![3, 63, 64]);
    assert_eq!(mask.scan_woken(9, |_| true), vec![3, 63, 64, 129]);
    assert_eq!((mask.word(0), mask.word(1), mask.word(2)), (1 << 63 | 8, 1, 2));
}

#[test]
fn a_stale_mark_starts_the_scan_over() {
    let mut mask = SleepMask::new(64);
    mask.set(1);
    mask.set(2);
    let asked = RefCell::new(Vec::new());
    let woken = mask.wake_scan(5, |i| {
        asked.borrow_mut().push(i);
        i == 1
    });
    assert_eq!(asked.into_inner(), vec![1, 2, 1]);
    assert_eq!(woken, 2);
    assert_eq!(mask.word(0), 2);
}

#[test]
fn counters_share_one_word() {
    let mut counters = AtomicCounters::new();
    counters.add_inactive_thread();
    counters.add_inactive_thread();
    counters.add_inactive_thread();
    let seen = counters.load();
    assert!(counters.try_add_sleeping_thread(seen));
    assert!(!counters.try_add_sleeping_thread(seen));
    let now = counters.load();
    assert_eq!(now.inactive_threads(), 3);
    assert_eq!(now.sleeping_threads(), 1);
    assert_eq!(now.awake_but_idle_threads(), 2);
    assert_eq!(now.jobs_counter(), JobsEventCounter(0));
    let bumped = counters.increment_jobs_event_counter_if(|jec| jec.is_sleepy() || jec.is_active());
    assert_eq!(bumped.jobs_counter(), JobsEventCounter(1));
    assert_eq!(counters.sub_inactive_thread(), 1);
    counters.sub_sleeping_thread();
    assert_eq!(counters.load().inactive_threads(), 2);
    assert_eq!(counters.load().sleeping_threads(), 0);
}

fn put_to_sleep(sleep: &mut Sleep, worker: usize) -> CoreLatch {
    let mut latch = CoreLatch::new();
    let mut idle = sleep.start_looking(worker);
    let mut last = IdleAction::Spin;
    for _ in 0..10_000 {
        last = sleep.no_work_found(&mut idle, &mut latch, || false);
        if last == IdleAction::Slept(SleepOutcome::Block) {
            break;
        }
    }
    assert_eq!(last, IdleAction::Slept(SleepOutcome::Block));
    latch
}

#[test]
fn an_idle_worker_spins_then_yields_then_sleeps_and_is_woken_by_a_job() {
    let mut sleep = Sleep::new(4);
    put_to_sleep(&mut sleep, 2);
    assert!(sleep.is_blocked(2));
    assert_eq!(sleep.new_jobs(1, true), vec![2]);
    assert!(!sleep.is_blocked(2));
    assert!(sleep.new_jobs(5, false).is_empty());
}

#[test]
fn posted_jobs_keep_a_sleepy_worker_awake() {
    let mut sleep = Sleep::new(2);
    let mut latch = CoreLatch::new();
    let mut idle = sleep.start_looking(0);
    while idle.jobs_counter == JobsEventCounter(u64::MAX) {
        sleep.no_work_found(&mut idle, &mut latch, || false);
    }
    assert!(sleep.new_jobs(1, true).is_empty());
    let action = sleep.no_work_found(&mut idle, &mut latch, || false);
    assert_eq!(action, IdleAction::Slept(SleepOutcome::JobsPosted));
    assert!(!sleep.is_blocked(0));
}

#[test]
fn an_injected_job_or_a_set_latch_keeps_a_worker_awake() {
    let mut sleep = Sleep::new(2);
    let mut latch = CoreLatch::new();
    let mut idle = sleep.start_looking(1);
    while idle.jobs_counter == JobsEventCounter(u64::MAX) {
        sleep.no_work_found(&mut idle, &mut latch, || true);
    }
    let outcome = sleep.sleep(&mut idle, &mut latch, || true);
    assert_eq!(outcome, SleepOutcome::InjectedJob);
    assert!(!latch.set());
    assert_eq!(sleep.sleep(&mut idle, &mut latch, || false), SleepOutcome::NotSleepy);
    let mut sleepy = CoreLatch::new();
    assert!(sleepy.get_sleepy());
    sleepy.set();
    assert_eq!(sleep.commit_sleep(&mut idle, &mut sleepy, || false), SleepOutcome::LatchSet);
}

#[test]
fn found_work_wakes_two_more() {
    let mut sleep = Sleep::new(8);
    for worker in 1..5 {
        put_to_sleep(&mut sleep, worker);
    }
    sleep.start_looking(0);
    assert_eq!(sleep.work_found(0), vec![1, 2]);
    assert_eq!(sleep.wake_any_threads(9), vec![3, 4]);
}

#[test]
fn a_set_latch_wakes_its_worker() {
    let mut sleep = Sleep::new(3);
    let mut latch = put_to_sleep(&mut sleep, 1);
    assert!(latch.set());
    assert!(sleep.notify_worker_latch_is_set(1));
    assert!(!sleep.notify_worker_latch_is_set(1));
    let mut idle = youpipe::pool::sleep::IdleState {
        worker_index: 1,
        rounds: 9,
        jobs_counter: JobsEventCounter(3),
    };
    sleep.after_block(&mut idle, &mut latch);
    assert_eq!(idle.rounds, 0);
    assert!(latch.probe());
}

#[test]
fn a_latch_reports_a_sleeper() {
    let mut latch = CoreLatch::new();
    assert!(!latch.fall_asleep());
    assert!(latch.get_sleepy());
    assert!(!latch.get_sleepy());
    assert!(latch.fall_asleep());
    assert!(latch.set());
    assert!(latch.probe());
    latch.wake_up();
    assert!(latch.probe());
    assert!(!latch.get_sleepy());

    let mut spin = SpinLatch::new(6);
    assert!(!spin.probe());
    assert!(spin.core.get_sleepy() && spin.core.fall_asleep());
    assert_eq!(spin.set(), Some(6));
    assert!(spin.probe());
    assert_eq!(spin.set(), None);

    let mut gate = LockLatch::new();
    assert!(!gate.wait());
    gate.set();
    assert!(gate.wait());
    assert!(gate.wait_and_reset());
    assert!(!gate.wait_and_reset());
}

#[test]
fn a_counting_latch_is_set_by_the_last_count() {
    let mut blocking = CountLatch::with_count(2, None);
    blocking.increment();
    assert_eq!(blocking.set(), Wake::Nobody);
    assert_eq!(blocking.set(), Wake::Nobody);
    assert!(!blocking.wait());
    assert_eq!(blocking.set(), Wake::Blocked);
    assert!(blocking.wait());
    let mut stealing = CountLatch::new(Some(4));
    assert_eq!(stealing.set(), Wake::Nobody);
    assert!(stealing.wait());
}

#[test]
fn the_last_holder_ends_the_workers() {
    let mut latches = vec![OnceLatch::new(), OnceLatch::new(), OnceLatch::new()];
    assert!(latches[1].core.get_sleepy() && latches[1].core.fall_asleep());
    let mut count = TerminateCount::new();
    count.increment_terminate_count();
    assert!(count.terminate(&mut latches).is_empty());
    assert!(!latches[0].core.probe());
    assert_eq!(count.terminate(&mut latches), vec![1]);
    assert!(latches.iter().all(|latch| latch.core.probe()));
    assert_ne!(LatchState::Signalled, LatchState::Unset);
}

#[test]
fn the_generator_follows_its_formula() {
    assert!(XorShift64Star::from_seed(0).is_none());
    let mut rng = XorShift64Star::from_seed(1).unwrap();
    assert_eq!(rng.next(), 5180492295206395165);
    let mut again = XorShift64Star::from_seed(1).unwrap();
    assert_eq!(again.next_usize(10), 5);
}

#[test]
fn everyone_else_is_tried_once() {
    assert_eq!(victims(5, 3, 1), vec![3, 4, 0, 2]);
    assert_eq!(victims(1, 0, 0), Vec::<usize>::new());
    assert_eq!(victims(3, 0, 7), vec![0, 1, 2]);
}

#[test]
fn jobs_are_found_locally_then_in_the_shared_queue_then_elsewhere() {
    let (registry, mut workers) = Registry::new(2, 99);
    assert_eq!(registry.num_threads(), 2);
    let mut second = workers.pop().unwrap();
    let mut first = workers.pop().unwrap();
    assert_eq!((first.index(), second.index()), (0, 1));
    let (was_empty, _) = registry.inject(10);
    assert!(was_empty);
    assert!(registry.has_injected_job());
    assert!(matches!(first.push(&registry, 20), Posted::Local { queue_was_empty: true }));
    assert!(matches!(first.push(&registry, 21), Posted::Local { queue_was_empty: false }));
    assert!(!first.local_deque_is_empty());
    assert_eq!(first.find_work(&registry), Some((21, Source::Local)));
    assert_eq!(second.find_work(&registry), Some((10, Source::Injected)));
    assert_eq!(second.find_work(&registry), Some((20, Source::Stolen(0))));
    assert_eq!(first.find_work(&registry), None);
    assert_eq!(first.take_local_job(), None);
    assert!(!registry.has_injected_job());
}

#[test]
fn a_full_queue_spills_into_the_shared_one() {
    let (registry, mut workers) = Registry::new(1, 5);
    let mut only = workers.pop().unwrap();
    let mut injected = 0;
    for job in 0..300 {
        if let Posted::Injected { .. } = only.push(&registry, job) {
            injected += 1;
        }
    }
    assert_eq!(injected, 300 - 256);
    let (was_empty, receipts) = registry.inject_batch(vec![1000, 1001]);
    assert!(!was_empty);
    assert_eq!(receipts.len(), 2);
    let mut seen = Vec::new();
    while let Some((job, _)) = only.find_work(&registry) {
        seen.push(job);
    }
    seen.sort_unstable();
    assert_eq!(seen, (0..300).chain([1000, 1001]).collect::<Vec<usize>>());
    assert_eq!(only.steal(&registry), None);
}

#[test]
fn a_forked_job_is_taken_back_or_waited_for() {
    assert_eq!(join_step(7, true, Some(7)), JoinAction::TakeResult);
    assert_eq!(join_step(7, false, Some(7)), JoinAction::RunInline);
    assert_eq!(join_step(7, false, Some(8)), JoinAction::Execute(8));
    assert_eq!(join_step(7, false, None), JoinAction::WaitAndSteal);
}

#[test]
fn a_waiting_worker_looks_spins_yields_sleeps_and_is_woken() {
    let mut sleep = Sleep::new(2);
    let mut latch = CoreLatch::new();
    let mut waiting = WaitLoop::new(1);
    assert_eq!(waiting.search(&latch), Search::Local);
    assert!(waiting.stop_looking(&mut sleep).is_empty());
    assert_eq!(waiting.nothing_found(&mut sleep, &mut latch, || false), WaitAction::LookAgain);
    assert_eq!(waiting.search(&latch), Search::Everywhere);
    let mut seen = Vec::new();
    loop {
        let action = waiting.nothing_found(&mut sleep, &mut latch, || false);
        if seen.last() != Some(&action) {
            seen.push(action);
        }
        if action == WaitAction::Block {
            break;
        }
    }
    assert_eq!(seen, vec![WaitAction::Spin, WaitAction::Yield, WaitAction::Block]);
    assert!(sleep.is_blocked(1));
    assert!(latch.set());
    assert!(sleep.notify_worker_latch_is_set(1));
    waiting.resume(&sleep, &mut latch);
    assert_eq!(waiting.search(&latch), Search::Stop);
    assert!(waiting.stop_looking(&mut sleep).is_empty());
    assert_eq!(waiting.nothing_found(&mut sleep, &mut latch, || true), WaitAction::LookAgain);
}

#[test]
fn a_worker_that_found_a_job_wakes_others() {
    let mut sleep = Sleep::new(5);
    for worker in 1..4 {
        put_to_sleep(&mut sleep, worker);
    }
    let mut latch = CoreLatch::new();
    let mut waiting = WaitLoop::new(0);
    waiting.nothing_found(&mut sleep, &mut latch, || false);
    assert_eq!(waiting.stop_looking(&mut sleep), vec![1, 2]);
    assert!(sleep.is_blocked(3));
}

#[test]
fn a_worker_takes_its_own_jobs_back_last_one_first() {
    let (registry, mut workers) = Registry::new(2, 7);
    let mut second = workers.pop().unwrap();
    let mut first = workers.pop().unwrap();
    for job in [10, 11, 12, 13] {
        assert!(matches!(first.push(&registry, job), Posted::Local { .. }));
    }
    assert_eq!(first.take_local_job(), Some(13));
    assert_eq!(second.steal(&registry), Some((10, 0)));
    assert_eq!(first.take_local_job(), Some(12));
    assert_eq!(first.take_local_job(), Some(11));
    assert!(first.local_deque_is_empty());
    assert_eq!(first.take_local_job(), None);
}

#[test]
fn a_pool_of_many_threads_has_as_many() {
    assert_eq!(ComputePool::new(512).num_workers(), 512);
    assert_eq!(THREADS_MAX, 65535);
    let mut mask = SleepMask::new(THREADS_MAX);
    mask.set(65534);
    assert_eq!(mask.lowest(), Some(65534));
}

#[test]
fn stolen_jobs_come_from_the_bottom() {
    let (registry, mut workers) = Registry::new(2, 7);
    let mut thief = workers.pop().unwrap();
    let mut victim = workers.pop().unwrap();
    for job in [5, 6, 7] {
        assert!(matches!(victim.push(&registry, job), Posted::Local { .. }));
    }
    assert_eq!(thief.steal(&registry), Some((5, 0)));
    assert_eq!(victim.take_local_job(), Some(7));
    assert_eq!(thief.steal(&registry), Some((6, 0)));
    assert_eq!(thief.steal(&registry), None);
}
