use ultra_latency::benchmark::{is_sub_millisecond, LatencyBenchmark, SUB_MILLISECOND_NS};

fn bench_with(samples: &[u64]) -> LatencyBenchmark {
    let mut b = LatencyBenchmark::new();
    for (i, s) in samples.iter().enumerate() {
        b.record_iteration(i, Some(*s));
    }
    b
}

#[test]
fn new_benchmark_is_empty_and_has_no_statistics() {
    let b = LatencyBenchmark::new();
    assert!(b.samples().is_empty());
    assert!(b.statistics().is_none());
}

#[test]
fn record_iteration_keeps_successes_and_pauses_every_hundred() {
    let mut b = LatencyBenchmark::new();
    assert!(b.record_iteration(0, Some(10)));
    assert!(!b.record_iteration(1, None));
    assert!(!b.record_iteration(99, Some(20)));
    assert!(b.record_iteration(100, None));
    assert!(b.record_iteration(200, Some(30)));
    assert_eq!(b.samples(), &vec![10, 20, 30]);
}

#[test]
fn statistics_of_small_set() {
    let st = bench_with(&[5, 1, 3, 2, 4]).statistics().unwrap();
    assert_eq!(st.samples, 5);
    assert_eq!(st.min, 1);
    assert_eq!(st.max, 5);
    assert_eq!(st.median, 3);
    assert_eq!(st.p99, 5);
    assert_eq!(st.p999, 5);
    assert_eq!(st.avg, 3);
    assert_eq!(st.under_1ms, 5);
    assert!(st.target_met());
}

#[test]
fn statistics_of_single_sample() {
    let st = bench_with(&[2_500_000]).statistics().unwrap();
    assert_eq!((st.min, st.max, st.median, st.p99, st.p999), (2_500_000, 2_500_000, 2_500_000, 2_500_000, 2_500_000));
    assert_eq!(st.avg, 2_500_000);
    assert_eq!(st.under_1ms, 0);
    assert!(!st.target_met());
}

#[test]
fn statistics_percentile_ranks_on_thousand_samples() {
    let samples: Vec<u64> = (1..=1000u64).rev().map(|x| x * 1000).collect();
    let st = bench_with(&samples).statistics().unwrap();
    assert_eq!(st.samples, 1000);
    assert_eq!(st.min, 1000);
    assert_eq!(st.max, 1_000_000);
    assert_eq!(st.median, 501_000);
    assert_eq!(st.p99, 991_000);
    assert_eq!(st.p999, 1_000_000);
    assert_eq!(st.avg, 500_500);
    assert_eq!(st.under_1ms, 999);
}

#[test]
fn statistics_average_is_floored() {
    let st = bench_with(&[1, 2]).statistics().unwrap();
    assert_eq!(st.avg, 1);
    assert_eq!(st.median, 2);
    let st = bench_with(&[u64::MAX, u64::MAX, 1]).statistics().unwrap();
    assert_eq!(st.avg, ((u64::MAX as u128) * 2 + 1) / 3);
}

#[test]
fn statistics_with_duplicates() {
    let st = bench_with(&[7, 7, 7, 3, 3]).statistics().unwrap();
    assert_eq!((st.min, st.median, st.max), (3, 7, 7));
    assert_eq!(st.avg, 5);
}

#[test]
fn sub_millisecond_boundary() {
    assert!(is_sub_millisecond(SUB_MILLISECOND_NS - 1));
    assert!(!is_sub_millisecond(SUB_MILLISECOND_NS));
    let st = bench_with(&[999_999, 1_000_000, 1_000_001]).statistics().unwrap();
    assert_eq!(st.under_1ms, 1);
    assert!(st.target_met());
}

#[test]
fn statistics_do_not_reorder_samples() {
    let b = bench_with(&[9, 1, 5]);
    let _ = b.statistics();
    assert_eq!(b.samples(), &vec![9, 1, 5]);
}
