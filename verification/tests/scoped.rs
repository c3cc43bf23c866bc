//! Pipelines that borrow from the frame that runs them.
use std::sync::atomic::{AtomicBool, AtomicI32, AtomicI64, AtomicU64, AtomicUsize, Ordering};
use std::sync::{Arc, Mutex};
use youpipe::{ComputePool, PipelineConfig, Workload, scope};

#[test]
fn pipeline_scope_test_scope_basic() {
    let multiplier = 3i32;
    let result = scope(|s| {
        s.pipe(vec![1, 2, 3, 4, 5])
            .map(|x: i32| x * multiplier)
            .collect()
    });
    assert_eq!(result, vec![3, 6, 9, 12, 15]);
}

#[test]
fn test_scope_par_map_via_collect() {
    let offset = 100i32;
    let result = scope(|s| s.pipe((0..1000).collect()).map(|x: i32| x + offset).collect());
    let expected: Vec<i32> = (100..1100).collect();
    assert_eq!(result, expected);
}

#[test]
fn test_scope_chained_map_filter() {
    let factor = 7i32;
    let result = scope(|s| {
        s.pipe((0..30).collect())
            .map(|x: i32| x * factor)
            .filter(|x: &i32| *x % 2 == 0)
            .map(|x: i32| x + 1)
            .collect()
    });
    let expected: Vec<i32> = (0..30)
        .map(|x| x * 7)
        .filter(|x| x % 2 == 0)
        .map(|x| x + 1)
        .collect();
    assert_eq!(result, expected);
}

#[test]
fn pipeline_scope_test_scope_truly_non_static_borrow() {
    let cached: Vec<String> = (0..5).map(|i| format!("val{i}^2={}", i * i)).collect();
    let expected: Vec<usize> = cached.iter().map(String::len).collect();
    let result: Vec<usize> = scope(|s| {
        s.pipe((0..cached.len()).collect())
            .map(|i: usize| cached[i].len())
            .collect()
    });
    assert_eq!(result, expected);
}

#[test]
fn pipeline_scope_test_scope_empty() {
    let result = scope(|s| {
        let items: Vec<i32> = vec![];
        s.pipe(items).map(|x: i32| x * 2).collect()
    });
    assert!(result.is_empty());
}

#[test]
fn test_scope_type_changing_map() {
    let suffix = "!".to_string();
    let result: Vec<String> = scope(|s| {
        s.pipe((0..3).collect())
            .map(|x: i32| x * 2)
            .map(|x: i32| format!("{x}{suffix}"))
            .collect()
    });
    assert_eq!(result, vec!["0!", "2!", "4!"]);
}

#[test]
fn pipeline_scope_test_scope_shared_lookup_across_pipelines() {
    let table: Vec<u64> = (0..1000u64)
        .map(|i| i.wrapping_mul(2_654_435_761))
        .collect();
    let total = scope(|s| {
        let lookup_hits: usize = s
            .pipe((0..table.len()).collect())
            .map(|i: usize| usize::from(table[i] % 2 == 0))
            .collect()
            .into_iter()
            .sum();
        let sum: u64 = s
            .pipe((0..table.len()).collect())
            .map(|i: usize| table[i])
            .collect()
            .into_iter()
            .sum();
        (lookup_hits, sum)
    });
    let expected_total: u64 = (0..1000u64).map(|i| i.wrapping_mul(2_654_435_761)).sum();
    let expected_hits: usize = (0..1000u64)
        .map(|i| i.wrapping_mul(2_654_435_761))
        .filter(|v| v % 2 == 0)
        .count();
    assert_eq!(total.0, expected_hits);
    assert_eq!(total.1, expected_total);
}

#[test]
fn test_scope_with_compute_pool() {
    let multiplier = 7i32;
    let pool = ComputePool::new(4);
    let result = scope(|s| {
        s.pipe((0..1000).collect())
            .with_compute_pool(pool)
            .map(|x: i32| x * multiplier)
            .collect()
    });
    let expected: Vec<i32> = (0..1000).map(|x| x * 7).collect();
    assert_eq!(result, expected);
}

#[test]
fn test_scope_with_compute_pool_for_each() {
    let table: Vec<i32> = (0..500).collect();
    let pool = ComputePool::new(4);
    let sum = Arc::new(AtomicI64::new(0));
    let s = sum.clone();
    scope(|scope| {
        scope
            .pipe(table.iter().collect())
            .with_compute_pool(pool)
            .for_each(move |v: &i32| {
                s.fetch_add(i64::from(*v), Ordering::Relaxed);
            });
    });
    let expected: i64 = (0..500i64).sum();
    assert_eq!(sum.load(Ordering::Relaxed), expected);
}

#[test]
fn test_scope_with_oversubscribe() {
    let multiplier = 5i32;
    let result = scope(|s| {
        s.pipe((0..1000).collect())
            .with_oversubscribe(2)
            .map(|x: i32| x * multiplier)
            .collect()
    });
    let expected: Vec<i32> = (0..1000).map(|x| x * 5).collect();
    assert_eq!(result, expected);
}

#[test]
fn test_scope_non_static() {
    let factor = 7i32;
    let result = scope(|s| s.pipe((0..20).collect()).map(|x: i32| x * factor).collect());
    let expected: Vec<i32> = (0..20).map(|x| x * 7).collect();
    assert_eq!(result, expected);
}

#[test]
fn test_scope_par_map() {
    let offset = 100i32;
    let result = scope(|s| s.pipe((0..50).collect()).map(|x: i32| x + offset).collect());
    assert_eq!(result, (100..150).collect::<Vec<_>>());
}

#[test]
fn scope_integration_test_scope_basic() {
    let multiplier = 3i32;
    let result = youpipe::scope(|s| {
        s.pipe(vec![1, 2, 3, 4, 5])
            .map(|x: i32| x * multiplier)
            .collect()
    });
    assert_eq!(result, vec![3, 6, 9, 12, 15]);
}

#[test]
fn test_scope_par_via_collect() {
    let offset = 100i32;
    let result = youpipe::scope(|s| s.pipe((0..50i32).collect()).map(|x: i32| x + offset).collect());
    let expected: Vec<i32> = (100..150).collect();
    assert_eq!(result, expected);
}

#[test]
fn test_scope_chained_map() {
    let a = 10i32;
    let b = 5i32;
    let result = youpipe::scope(|s| {
        s.pipe((0..10i32).collect())
            .map(|x: i32| x * a)
            .map(|x: i32| x + b)
            .collect()
    });
    let expected: Vec<i32> = (0..10).map(|x| x * 10 + 5).collect();
    assert_eq!(result, expected);
}

#[test]
fn scope_integration_test_scope_empty() {
    let result = youpipe::scope(|s| s.pipe(Vec::<i32>::new()).map(|x: i32| x * 2).collect());
    assert!(result.is_empty());
}

#[test]
fn test_scope_mutate_external() {
    let data: Vec<i32> = vec![10, 20, 30];
    let doubled: Vec<i32> =
        youpipe::scope(|s| s.pipe((0..3i32).collect()).map(|i: i32| data[i as usize] * 2).collect());
    assert_eq!(doubled, vec![20, 40, 60]);
}

#[test]
fn test_scope_large() {
    let factor = 2u64;
    let result = youpipe::scope(|s| s.pipe((0..1000u64).collect()).map(|x: u64| x * factor).collect());
    let mut r = result;
    r.sort_unstable();
    assert_eq!(r.len(), 1000);
    assert_eq!(r[0], 0);
    assert_eq!(r[999], 1998);
}

#[test]
fn scope_integration_test_scope_truly_non_static_borrow() {
    let cached: Vec<String> = (0..5).map(|i| format!("val{i}^2={}", i * i)).collect();
    let expected: Vec<usize> = cached.iter().map(String::len).collect();
    let result: Vec<usize> = youpipe::scope(|s| {
        s.pipe((0..cached.len()).collect())
            .map(|i: usize| cached[i].len())
            .collect()
    });
    assert_eq!(result, expected);
}

#[test]
fn scope_integration_test_scope_shared_lookup_across_pipelines() {
    let table: Vec<u64> = (0..1000)
        .map(|i| (i as u64).wrapping_mul(2654435761))
        .collect();
    let (hits, sum) = youpipe::scope(|s| {
        let hits: usize = s
            .pipe((0..table.len()).collect())
            .map(|i: usize| if table[i] % 2 == 0 { 1usize } else { 0 })
            .collect()
            .into_iter()
            .sum();
        let sum: u64 = s
            .pipe((0..table.len()).collect())
            .map(|i: usize| table[i])
            .collect()
            .into_iter()
            .sum();
        (hits, sum)
    });
    let expected_sum: u64 = (0..1000).map(|i| (i as u64).wrapping_mul(2654435761)).sum();
    let expected_hits: usize = (0..1000)
        .map(|i| (i as u64).wrapping_mul(2654435761))
        .filter(|v| v % 2 == 0)
        .count();
    assert_eq!(hits, expected_hits);
    assert_eq!(sum, expected_sum);
}

#[test]
fn test_scope_for_each_borrows_local() {
    let table: Vec<i32> = (0..50).collect();
    let sum = Arc::new(AtomicI32::new(0));
    let s = sum.clone();
    youpipe::scope(|scope| {
        scope.pipe((0..table.len()).collect()).for_each(|i: usize| {
            s.fetch_add(table[i], Ordering::Relaxed);
        });
    });
    assert_eq!(sum.load(Ordering::Relaxed), (0..50).sum::<i32>());
}

#[test]
fn test_scope_for_each_chained() {
    let factor = 3i32;
    let offset = 100i32;
    let collected = Arc::new(Mutex::new(Vec::new()));
    let c = collected.clone();
    youpipe::scope(|scope| {
        scope
            .pipe((0..20i32).collect())
            .map(|x: i32| x * factor)
            .map(|x: i32| x + offset)
            .for_each(move |x: i32| c.lock().unwrap().push(x));
    });
    let mut got = Arc::try_unwrap(collected).unwrap().into_inner().unwrap();
    got.sort_unstable();
    assert_eq!(got, (0..20).map(|x| x * 3 + 100).collect::<Vec<_>>());
}

#[test]
fn test_scope_for_each_filter() {
    let counter = Arc::new(AtomicUsize::new(0));
    let c = counter.clone();
    youpipe::scope(|scope| {
        scope
            .pipe((0..1000i32).collect())
            .filter(|x: &i32| x % 5 == 0)
            .for_each(move |_| {
                c.fetch_add(1, Ordering::Relaxed);
            });
    });
    assert_eq!(
        counter.load(Ordering::Relaxed),
        (0..1000).filter(|x| x % 5 == 0).count()
    );
}

#[test]
fn test_scope_for_each_empty() {
    let called = AtomicBool::new(false);
    youpipe::scope(|scope| {
        scope
            .pipe(Vec::<i32>::new())
            .for_each(|_: i32| called.store(true, Ordering::Relaxed));
    });
    assert!(!called.load(Ordering::Relaxed));
}

#[test]
fn test_scope_for_each_parallel_large() {
    let n: u64 = 80_000;
    let counter = Arc::new(AtomicUsize::new(0));
    let c = counter.clone();
    youpipe::scope(|scope| {
        scope.pipe((0..n).collect()).for_each(move |_: u64| {
            c.fetch_add(1, Ordering::Relaxed);
        });
    });
    assert_eq!(counter.load(Ordering::Relaxed), n as usize);
}

#[test]
fn test_scope_pipe_borrows_slice() {
    let files: Vec<String> = (0..50).map(|i| format!("row-{i}")).collect();
    let total_len = Arc::new(AtomicUsize::new(0));
    let t = total_len.clone();
    youpipe::scope(|scope| {
        scope.pipe(files.iter().collect()).for_each(move |s: &String| {
            t.fetch_add(s.len(), Ordering::Relaxed);
        });
    });
    assert_eq!(
        total_len.load(Ordering::Relaxed),
        files.iter().map(String::len).sum::<usize>()
    );
}

#[test]
fn test_scope_pipe_borrow_chained_map_filter() {
    let data: Vec<i32> = (0..100).collect();
    let collected = Arc::new(Mutex::new(Vec::new()));
    let c = collected.clone();
    youpipe::scope(|scope| {
        scope
            .pipe(data.iter().collect())
            .filter(|x: &&i32| **x % 3 == 0)
            .map(|x: &i32| *x * 10)
            .for_each(move |x: i32| c.lock().unwrap().push(x));
    });
    let mut got = Arc::try_unwrap(collected).unwrap().into_inner().unwrap();
    got.sort_unstable();
    assert_eq!(
        got,
        (0..100)
            .filter(|x| x % 3 == 0)
            .map(|x| x * 10)
            .collect::<Vec<_>>()
    );
}

#[test]
fn test_scope_pipe_borrow_parallel_large() {
    let data: Vec<u64> = (0..100_000).collect();
    let sum = Arc::new(AtomicU64::new(0));
    let s = sum.clone();
    youpipe::scope(|scope| {
        scope.pipe(data.iter().collect()).for_each(move |v: &u64| {
            s.fetch_add(*v, Ordering::Relaxed);
        });
    });
    assert_eq!(sum.load(Ordering::Relaxed), (0..100_000u64).sum::<u64>());
}

#[test]
fn test_scope_pipe_borrow_empty() {
    let data: Vec<i32> = vec![];
    let called = AtomicBool::new(false);
    youpipe::scope(|scope| {
        scope
            .pipe(data.iter().collect())
            .for_each(|_: &i32| called.store(true, Ordering::Relaxed));
    });
    assert!(!called.load(Ordering::Relaxed));
}

#[test]
fn test_scope_pipe_borrow_no_clone_of_non_copy() {
    let data: Vec<String> = (0..10).map(|i| format!("v{i}")).collect();
    let data_ptrs: Vec<usize> = data.iter().map(|s| s.as_ptr() as usize).collect();

    let observed = Arc::new(Mutex::new(Vec::new()));
    let o = observed.clone();
    youpipe::scope(|scope| {
        scope.pipe(data.iter().collect()).for_each(move |s: &String| {
            o.lock().unwrap().push(s.as_ptr() as usize);
        });
    });

    let mut got = Arc::try_unwrap(observed).unwrap().into_inner().unwrap();
    got.sort_unstable();
    let mut want = data_ptrs.clone();
    want.sort_unstable();
    assert_eq!(got, want, "pipe(&slice) must borrow — addresses must match");
}

#[test]
fn the_workers_of_a_scoped_run() {
    scope(|s| {
        let config = PipelineConfig::default().with_compute_workers(6);
        let plain = s.pipe(vec![1u8]).with_config(config).with_workload(Workload::Unbalanced);
        assert_eq!(plain.exec_workers(), 6);
        let doubled = s.pipe(vec![1u8]).with_config(config).with_oversubscribe(2);
        assert_eq!(doubled.exec_workers(), 12);
        let zero = s.pipe(vec![1u8]).with_config(config).with_oversubscribe(0);
        assert_eq!(zero.exec_workers(), 6);
        let huge = s.pipe(vec![1u8]).with_config(config).with_oversubscribe(usize::MAX);
        assert_eq!(huge.exec_workers(), usize::MAX);
        let attached = s.pipe(vec![1u8]).with_oversubscribe(3).with_compute_pool(ComputePool::new(0));
        assert_eq!(attached.exec_workers(), 1);
    });
}
