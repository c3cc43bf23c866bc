//! Fused pipelines: chains of stages that run as one.
use std::cell::RefCell;
use std::sync::Arc;
use std::sync::atomic::{AtomicUsize, Ordering};
use youpipe::prelude::IterExt;
use youpipe::{
    Pipeline, PipelineConfig, Workload, par_chunks_map, par_map, par_map_with_workload, pipe,
    try_par_map,
};

fn cpu_heavy(x: u64) -> u64 {
    let mut r = x;
    for _ in 0..200 {
        r = r.wrapping_mul(31).wrapping_add(17);
    }
    r
}

#[test]
fn test_fused_sync_collect() {
    let items: Vec<i32> = (0..100).collect();
    let result = Pipeline::new()
        .map(|x: i32| x * 2)
        .map(|x: i32| x + 1)
        .collect(items);
    let expected: Vec<i32> = (0..100).map(|x| x * 2 + 1).collect();
    let mut r = result;
    r.sort_unstable();
    assert_eq!(r, expected);
}

#[test]
fn test_fused_filter() {
    let items: Vec<i32> = (0..20).collect();
    let result = Pipeline::new()
        .filter(|x: &i32| x % 2 == 0)
        .map(|x: i32| x * 10)
        .collect(items);
    let mut r = result;
    r.sort_unstable();
    assert_eq!(r, vec![0, 20, 40, 60, 80, 100, 120, 140, 160, 180]);
}

#[test]
fn test_empty_input() {
    let items: Vec<i32> = vec![];
    let result = Pipeline::new().map(|x: i32| x * 2).collect(items);
    assert!(result.is_empty());
}

#[test]
fn test_par_map() {
    let items: Vec<i32> = (0..100).collect();
    let result = par_map(items, |x: i32| x * 3);
    let mut r = result;
    r.sort_unstable();
    assert_eq!(r, (0..100).map(|x: i32| x * 3).collect::<Vec<_>>());
}

#[test]
fn test_par_map_large() {
    let n: usize = 200_000;
    let items: Vec<u64> = (0..n).map(|x| x as u64).collect();
    let result = par_map(items.clone(), |x: u64| x.wrapping_mul(3).wrapping_add(1));
    assert_eq!(result.len(), n);
    for (i, r) in result.iter().enumerate() {
        assert_eq!(*r, (i as u64).wrapping_mul(3).wrapping_add(1));
    }
}

#[derive(Debug)]
struct Tracker(Arc<AtomicUsize>);

impl PartialEq for Tracker {
    fn eq(&self, other: &Self) -> bool {
        Arc::ptr_eq(&self.0, &other.0)
    }
}

impl Drop for Tracker {
    fn drop(&mut self) {
        self.0.fetch_add(1, Ordering::SeqCst);
    }
}

#[test]
fn test_par_map_drop_type() {
    let counter = Arc::new(AtomicUsize::new(0));
    let items: Vec<Tracker> = (0..5000).map(|_| Tracker(counter.clone())).collect();
    let arcs: Vec<Arc<AtomicUsize>> = par_map(items, |t: Tracker| {
        let c = t.0.clone();
        drop(t);
        c
    })
    .into_iter()
    .collect();
    assert_eq!(arcs.len(), 5000);
    assert_eq!(counter.load(Ordering::SeqCst), 5000);
    drop(arcs);
    assert_eq!(counter.load(Ordering::SeqCst), 5000);
}

#[test]
fn test_try_par_map_ok() {
    let items: Vec<i32> = (0..100).collect();
    let result = try_par_map(items, |x: i32| -> Result<i32, &str> { Ok(x * 3) });
    let mut r = result.unwrap();
    r.sort_unstable();
    assert_eq!(r, (0..100).map(|x: i32| x * 3).collect::<Vec<_>>());
}

#[test]
fn test_try_par_map_err() {
    let items: Vec<i32> = (0..100).collect();
    let result = try_par_map(items, |x: i32| -> Result<i32, String> {
        if x == 50 {
            Err(format!("bad: {x}"))
        } else {
            Ok(x * 2)
        }
    });
    assert!(result.is_err());
    assert_eq!(result.unwrap_err(), "bad: 50");
}

#[test]
fn test_try_par_map_empty() {
    let items: Vec<i32> = vec![];
    let result = try_par_map(items, |x: i32| -> Result<i32, &str> { Ok(x) });
    assert_eq!(result.unwrap(), Vec::<i32>::new());
}

#[test]
fn test_par_map_correctness() {
    let items: Vec<u64> = (0..1000).collect();
    let result = pipe(items.clone()).map(|x: u64| cpu_heavy(x)).collect();
    let expected: Vec<u64> = items.iter().map(|&x| cpu_heavy(x)).collect();
    assert_eq!(result.len(), expected.len());
    let mut r = result;
    r.sort_unstable();
    let mut e = expected;
    e.sort_unstable();
    assert_eq!(r, e);
}

#[test]
fn test_par_map_empty() {
    let result = pipe(Vec::<u64>::new()).map(|x: u64| x + 1).collect();
    assert!(result.is_empty());
}

#[test]
fn test_par_map_single() {
    let result = pipe(vec![42u64]).map(|x: u64| x + 1).collect();
    assert_eq!(result, vec![43]);
}

#[test]
fn test_pipeline_fusion_3_stages() {
    let items: Vec<i32> = (0..500).collect();
    let result = pipe(items)
        .map(|x: i32| x + 1)
        .map(|x: i32| x * 3)
        .map(|x: i32| x - 7)
        .collect();
    let expected: Vec<i32> = (0..500).map(|x| (x + 1) * 3 - 7).collect();
    let mut r = result;
    r.sort_unstable();
    let mut e = expected;
    e.sort_unstable();
    assert_eq!(r, e);
}

#[test]
fn test_pipeline_filter_map() {
    let items: Vec<i32> = (0..100).collect();
    let result = pipe(items)
        .filter(|x: &i32| x % 3 == 0)
        .map(|x: i32| x * 10)
        .collect();
    let expected: Vec<i32> = (0..100).filter(|x| x % 3 == 0).map(|x| x * 10).collect();
    let mut r = result;
    r.sort_unstable();
    assert_eq!(r, expected);
}

#[test]
fn test_try_map_ok() {
    let result = pipe((0..100).collect())
        .try_map(|x: i32| -> Result<i32, &str> { Ok(x * 3) })
        .try_collect()
        .unwrap();
    let mut r = result;
    r.sort_unstable();
    assert_eq!(r, (0..100).map(|x| x * 3).collect::<Vec<_>>());
}

#[test]
fn test_try_map_err_short_circuits() {
    let result = pipe((0..100).collect())
        .try_map(|x: i32| -> Result<i32, String> {
            if x == 50 {
                Err(format!("bad: {x}"))
            } else {
                Ok(x * 2)
            }
        })
        .try_collect();
    assert!(result.is_err());
    assert_eq!(result.unwrap_err(), "bad: 50");
}

#[test]
fn test_try_map_then_map() {
    let r: Result<Vec<String>, &str> = pipe((0..5).collect())
        .try_map(|x: i32| -> Result<i32, &str> { Ok(x * 2) })
        .map(|x: i32| x.to_string())
        .try_collect();
    assert_eq!(r.unwrap(), vec!["0", "2", "4", "6", "8"]);
}

#[test]
fn test_try_map_parallel_large() {
    let n = 50_000;
    let result = pipe((0..n).collect())
        .try_map(|x: i32| -> Result<i32, &str> { Ok(x.wrapping_mul(3)) })
        .map(|x: i32| x + 1)
        .try_collect()
        .unwrap();
    assert_eq!(result.len(), n as usize);
    assert_eq!(result[0], 1);
    assert_eq!(result[n as usize - 1], (n - 1) * 3 + 1);
}

#[test]
fn test_try_map_parallel_error_short_circuits() {
    let n = 50_000;
    let result = pipe((0..n).collect())
        .try_map(|x: i32| -> Result<i32, String> {
            if x == 30_000 {
                Err("mid-batch error".into())
            } else {
                Ok(x * 2)
            }
        })
        .try_collect();
    assert!(result.is_err());
    assert_eq!(result.unwrap_err(), "mid-batch error");
}

#[test]
fn test_par_map_counts_items() {
    let counter = Arc::new(AtomicUsize::new(0));
    let items: Vec<u64> = (0..1000).collect();
    let c = counter.clone();
    let result = pipe(items)
        .map(move |x: u64| {
            c.fetch_add(1, Ordering::Relaxed);
            cpu_heavy(x)
        })
        .collect();
    assert_eq!(result.len(), 1000);
    assert_eq!(counter.load(Ordering::Relaxed), 1000);
}

#[test]
fn test_large_dataset() {
    let items: Vec<u64> = (0..100_000).collect();
    let result = pipe(items).map(|x: u64| x.wrapping_add(1)).collect();
    assert_eq!(result.len(), 100_000);
    let mut r = result;
    r.sort_unstable();
    assert_eq!(r[0], 1);
    assert_eq!(r[99999], 100_000);
}

#[test]
fn test_pipe_accepts_arbitrary_iterator() {
    let r1: Vec<i32> = pipe((0..10).collect()).map(|x: i32| x * 2).collect();
    assert_eq!(r1, (0..10).map(|x| x * 2).collect::<Vec<_>>());

    let r2: Vec<i32> = pipe([1, 2, 3].iter().collect()).map(|x: &i32| *x + 1).collect();
    assert_eq!(r2, vec![2, 3, 4]);
}

#[test]
fn test_pipe_with_workload_unbalanced() {
    let r = pipe((0..1000).collect())
        .map(|x: i32| x.wrapping_mul(3))
        .with_workload(Workload::Unbalanced)
        .collect();
    let mut sorted = r;
    sorted.sort_unstable();
    assert_eq!(sorted, (0..1000).map(|x| x * 3).collect::<Vec<_>>());
}

#[test]
fn test_prelude_pipe_matches_free_function() {
    let items: Vec<i32> = (0..100).collect();
    let free: Vec<i32> = pipe(items.clone()).map(|x: i32| x * 2).collect();
    let method: Vec<i32> = items.pipe().map(|x: i32| x * 2).collect();
    assert_eq!(free, method);
    assert_eq!(free, (0..100).map(|x| x * 2).collect::<Vec<_>>());
}

#[test]
fn test_prelude_iterext_on_various_sources() {
    let v: Vec<i32> = vec![1, 2, 3].pipe().map(|x: i32| x + 1).collect();
    assert_eq!(v, vec![2, 3, 4]);

    let copied: Vec<i32> = [1, 2, 3].iter().copied().collect();
    let s: Vec<i32> = copied.pipe().map(|x: i32| x * 10).collect();
    assert_eq!(s, vec![10, 20, 30]);

    let r: Vec<i32> = vec![1, 2, 3].stream().stage(|x: i32| x - 1).ordered().run();
    assert_eq!(r, vec![0, 1, 2]);
}

#[test]
fn collect_keeps_the_order_of_the_items() {
    let result = pipe((0..10_000u32).collect())
        .with_config(PipelineConfig::default().with_compute_workers(3))
        .map(|x: u32| x / 3)
        .filter(|x: &u32| x % 7 != 0)
        .map(|x: u32| x + 1)
        .collect();
    let expected: Vec<u32> = (0..10_000).map(|x| x / 3).filter(|x| x % 7 != 0).map(|x| x + 1).collect();
    assert_eq!(result, expected);
}

#[test]
fn every_worker_count_gives_the_same_result() {
    for workers in [0, 1, 2, 5, 16, 511, 5000] {
        for workload in [Workload::Balanced, Workload::Unbalanced] {
            let config = PipelineConfig::default()
                .with_compute_workers(workers)
                .with_workload(workload);
            let kept = pipe((0..3000u32).collect())
                .with_config(config)
                .filter(|x: &u32| x % 2 == 1)
                .map(|x: u32| x * 2)
                .collect();
            assert_eq!(kept, (0..1500).map(|x| (2 * x + 1) * 2).collect::<Vec<u32>>());
        }
    }
}

#[test]
fn the_error_of_the_first_failing_item_comes_back() {
    let result = pipe((0..40_000).collect())
        .with_workload(Workload::Unbalanced)
        .try_map(|x: i32| -> Result<i32, i32> { if x % 9_999 == 9_998 { Err(x) } else { Ok(x) } })
        .try_collect();
    assert_eq!(result, Err(9_998));
}

#[test]
fn a_filter_in_a_fallible_chain_drops_items_silently() {
    let result = pipe((0..20_000).collect())
        .try_map(|x: i32| -> Result<i32, String> { Ok(x) })
        .filter(|x: &i32| x % 1000 == 0)
        .try_map(|x: i32| -> Result<i32, String> { if x == 17 { Err("17".into()) } else { Ok(x + 1) } })
        .try_collect();
    assert_eq!(result, Ok((0..20).map(|x| x * 1000 + 1).collect()));
}

#[test]
fn map_err_converts_the_errors_before_it() {
    let result = pipe(vec![1u8, 2, 3])
        .try_map(|x: u8| -> Result<u8, u8> { if x == 2 { Err(x) } else { Ok(x) } })
        .map_err(|e: u8| format!("item {e}"))
        .with_config(PipelineConfig::default())
        .try_collect();
    assert_eq!(result, Err("item 2".to_string()));
}

#[test]
fn for_each_sees_what_passes_the_filter() {
    let seen = RefCell::new(Vec::new());
    pipe((0..2000).collect())
        .filter(|x: &i32| x % 100 == 0)
        .map(|x: i32| x / 100)
        .for_each(|x: i32| seen.borrow_mut().push(x));
    let mut seen = seen.into_inner();
    seen.sort_unstable();
    assert_eq!(seen, (0..20).collect::<Vec<i32>>());
}

#[test]
fn fences_and_ordering_do_not_change_a_fused_result() {
    let items: Vec<i32> = (0..50).collect();
    let fenced = Pipeline::new().map(|x: i32| x + 1).fence().collect(items.clone());
    let chunked = Pipeline::new().map(|x: i32| x + 1).fence_chunked(8).collect(items.clone());
    let ordered = Pipeline::default()
        .with_config(PipelineConfig::default().with_compute_workers(2))
        .map(|x: i32| x + 1)
        .ordered()
        .collect(items);
    let expected: Vec<i32> = (1..51).collect();
    assert_eq!(fenced, expected);
    assert_eq!(chunked, expected);
    assert_eq!(ordered, expected);
}

#[test]
fn chunks_are_mapped_in_order() {
    let sums = par_chunks_map((1..=10).collect(), 4, |chunk: &[i32]| {
        vec![chunk.iter().sum::<i32>(), chunk.len() as i32]
    });
    assert_eq!(sums, vec![10, 4, 26, 4, 19, 2]);
    let none = par_chunks_map(vec![1, 2, 3], 0, |chunk: &[i32]| chunk.to_vec());
    assert!(none.is_empty());
    let large = par_chunks_map((0..20_000u32).collect(), 7, |chunk: &[u32]| chunk.to_vec());
    assert_eq!(large, (0..20_000).collect::<Vec<u32>>());
}

#[test]
fn a_workload_does_not_change_a_map() {
    let r = par_map_with_workload((0..5000u64).collect(), |x: u64| x * x, Workload::Unbalanced);
    assert_eq!(r, (0..5000u64).map(|x| x * x).collect::<Vec<_>>());
}

#[test]
fn a_large_fallible_map_reports_the_first_error() {
    let ok = try_par_map((0..30_000i64).collect(), |x: i64| -> Result<i64, i64> { Ok(-x) });
    assert_eq!(ok.unwrap().last(), Some(&-29_999));
    let err = try_par_map((0..30_000i64).collect(), |x: i64| -> Result<i64, i64> {
        if x >= 12_345 { Err(x) } else { Ok(x) }
    });
    assert_eq!(err, Err(12_345));
}

#[test]
fn a_fused_chain_equals_its_stages_one_by_one() {
    let items: Vec<u32> = (0..5000).collect();
    let fused = pipe(items.clone())
        .map(|x: u32| x * 3)
        .filter(|x: &u32| x % 2 == 0)
        .map(|x: u32| x / 2)
        .collect();
    let tripled = pipe(items).map(|x: u32| x * 3).collect();
    let even = pipe(tripled).filter(|x: &u32| x % 2 == 0).collect();
    let halved = pipe(even).map(|x: u32| x / 2).collect();
    assert_eq!(fused, halved);
    assert_eq!(fused[..4], [0, 3, 6, 9]);
}

#[test]
fn map_err_in_the_chain_is_map_err_of_the_result() {
    let odd = |x: i32| -> Result<i32, i32> { if x % 7 == 6 { Err(x) } else { Ok(x + 1) } };
    for n in [3, 20] {
        let inside = pipe((0..n).collect()).try_map(odd).map_err(|e: i32| e.to_string()).try_collect();
        let outside = pipe((0..n).collect()).try_map(odd).try_collect().map_err(|e: i32| e.to_string());
        assert_eq!(inside, outside);
        assert_eq!(inside.is_err(), n == 20);
    }
}

#[test]
fn later_errors_are_left_alone() {
    let run = |items: Vec<i32>| {
        pipe(items)
            .try_map(|x: i32| -> Result<i32, i32> { if x == 1 { Err(x) } else { Ok(x) } })
            .map_err(|e: i32| format!("early {e}"))
            .try_map(|x: i32| -> Result<i32, String> { if x == 2 { Err("late".into()) } else { Ok(x) } })
            .try_collect()
    };
    assert_eq!(run(vec![0, 1, 2]), Err("early 1".to_string()));
    assert_eq!(run(vec![0, 2, 1]), Err("late".to_string()));
    assert_eq!(run(vec![0, 3]), Ok(vec![0, 3]));
}

#[test]
fn a_fallible_map_and_filter_act_on_the_whole_result() {
    let half = |x: i32| -> Result<i32, String> { if x < 0 { Err("neg".into()) } else { Ok(x / 2) } };
    let items = vec![8, 6, 4, 2];
    let all = pipe(items.clone()).try_map(half).try_collect().unwrap();
    let mapped = pipe(items.clone()).try_map(half).map(|x: i32| x * 10).try_collect();
    assert_eq!(mapped, Ok(all.iter().map(|x| x * 10).collect()));
    let sifted = pipe(items).try_map(half).filter(|x: &i32| x % 2 == 0).try_collect();
    assert_eq!(sifted, Ok(all.into_iter().filter(|x| x % 2 == 0).collect()));
    let failing = pipe(vec![8, -1]).try_map(half).map(|x: i32| x * 10).filter(|x: &i32| *x > 0).try_collect();
    assert_eq!(failing, Err("neg".to_string()));
}
