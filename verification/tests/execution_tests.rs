use ultra_latency::execution::{market_data_key, PerformanceMetrics};

#[test]
fn default_metrics_are_zero() {
    let m = PerformanceMetrics::default();
    assert_eq!(
        (m.total_orders, m.avg_latency_ns, m.min_latency_ns, m.max_latency_ns, m.successful_orders),
        (0, 0, 0, 0, 0)
    );
    assert_eq!(m.total_latency_ns, 0);
    assert!(m.can_update());
}

#[test]
fn metrics_track_count_min_max_and_running_average() {
    let mut m = PerformanceMetrics::default();
    m.update_performance_metrics(100);
    assert_eq!((m.total_orders, m.avg_latency_ns, m.min_latency_ns, m.max_latency_ns), (1, 100, 100, 100));
    m.update_performance_metrics(50);
    assert_eq!((m.total_orders, m.avg_latency_ns, m.min_latency_ns, m.max_latency_ns), (2, 75, 50, 100));
    m.update_performance_metrics(200);
    assert_eq!((m.total_orders, m.avg_latency_ns, m.min_latency_ns, m.max_latency_ns), (3, 116, 50, 200));
    assert_eq!(m.successful_orders, 3);
    assert_eq!(m.total_latency_ns, 350);
}

#[test]
fn average_is_the_mean_of_all_latencies() {
    let mut m = PerformanceMetrics::default();
    m.update_performance_metrics(3);
    m.update_performance_metrics(4);
    m.update_performance_metrics(5);
    assert_eq!((m.total_orders, m.avg_latency_ns, m.min_latency_ns, m.max_latency_ns), (3, 4, 3, 5));
    let mut big = PerformanceMetrics::default();
    big.update_performance_metrics(u64::MAX);
    big.update_performance_metrics(u64::MAX);
    big.update_performance_metrics(1);
    assert_eq!(big.total_latency_ns, 2 * (u64::MAX as u128) + 1);
    assert_eq!(big.avg_latency_ns as u128, (2 * (u64::MAX as u128) + 1) / 3);
}

#[test]
fn can_update_rejects_exhausted_counters() {
    let mut m = PerformanceMetrics::default();
    m.total_orders = u64::MAX;
    m.successful_orders = u64::MAX;
    assert!(!m.can_update());
    let mut bad = PerformanceMetrics::default();
    bad.total_latency_ns = 1;
    assert!(!bad.can_update());
}

#[test]
fn zero_minimum_means_unset() {
    let mut m = PerformanceMetrics::default();
    m.update_performance_metrics(0);
    assert_eq!(m.min_latency_ns, 0);
    m.update_performance_metrics(10);
    assert_eq!(m.min_latency_ns, 10);
    assert_eq!(m.max_latency_ns, 10);
    assert_eq!(m.avg_latency_ns, 5);
}

#[test]
fn metrics_stay_consistent_over_many_updates() {
    let mut m = PerformanceMetrics::default();
    for l in [300u64, 20, 4000, 1, 77, 77, 999] {
        m.update_performance_metrics(l);
        assert!(m.min_latency_ns <= m.avg_latency_ns);
        assert!(m.avg_latency_ns <= m.max_latency_ns);
        assert!(m.min_latency_ns <= l && l <= m.max_latency_ns);
    }
    assert_eq!((m.min_latency_ns, m.max_latency_ns, m.total_orders), (1, 4000, 7));
}

#[test]
fn market_data_key_joins_exchange_and_symbol() {
    assert_eq!(market_data_key("binance", "BTC/USDT"), "binance:BTC/USDT");
    assert_eq!(market_data_key("", ""), ":");
}

#[test]
fn trailing_zero_latencies_give_zero_minimum() {
    let mut m = PerformanceMetrics::default();
    m.update_performance_metrics(5);
    m.update_performance_metrics(0);
    assert_eq!((m.min_latency_ns, m.avg_latency_ns, m.max_latency_ns), (0, 2, 5));
    let mut single = PerformanceMetrics::default();
    single.update_performance_metrics(0);
    assert_eq!((single.min_latency_ns, single.avg_latency_ns, single.max_latency_ns), (0, 0, 0));
}
