use ultra_latency::pool::UltraLowLatencyConnectionPool;

#[test]
fn round_robin_cycles_through_connections() {
    let mut pool = UltraLowLatencyConnectionPool::new(vec!['a', 'b', 'c']);
    assert_eq!(pool.len(), 3);
    let picks: Vec<usize> = (0..7).map(|_| pool.select_connection()).collect();
    assert_eq!(picks, vec![0, 1, 2, 0, 1, 2, 0]);
}

#[test]
fn single_connection_is_always_chosen() {
    let mut pool = UltraLowLatencyConnectionPool::new(vec![10u32]);
    for _ in 0..5 {
        assert_eq!(pool.select_connection(), 0);
    }
}

#[test]
fn every_connection_is_chosen_once_per_round() {
    let mut pool = UltraLowLatencyConnectionPool::new(vec![0u8; 16]);
    for _ in 0..3 {
        let mut counts = [0usize; 16];
        for _ in 0..16 {
            counts[pool.select_connection()] += 1;
        }
        assert_eq!(counts, [1usize; 16]);
    }
}

#[test]
fn connection_mut_updates_only_that_connection() {
    let mut pool = UltraLowLatencyConnectionPool::new(vec![1, 2, 3]);
    let idx = pool.select_connection();
    *pool.connection_mut(idx) += 100;
    assert_eq!(*pool.connection_mut(0), 101);
    assert_eq!(*pool.connection_mut(1), 2);
    assert_eq!(*pool.connection_mut(2), 3);
    assert_eq!(pool.select_connection(), 1);
}

#[test]
fn empty_pool_has_no_connections() {
    let pool: UltraLowLatencyConnectionPool<u8> = UltraLowLatencyConnectionPool::new(Vec::new());
    assert_eq!(pool.len(), 0);
}

#[test]
fn selections_are_balanced_over_any_run() {
    let mut pool = UltraLowLatencyConnectionPool::new(vec![(); 3]);
    let mut counts = [0usize; 3];
    for _ in 0..10 {
        counts[pool.select_connection()] += 1;
    }
    assert_eq!(counts, [4, 3, 3]);
    for _ in 0..5 {
        counts[pool.select_connection()] += 1;
    }
    assert_eq!(counts, [5, 5, 5]);
}
