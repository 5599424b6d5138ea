use ultra_latency::batch::{push_received, BatchOrderProcessor, MAX_BATCH, ORDER_QUEUE_SIZE};
use ultra_latency::order::UltraFastOrder;

fn order(n: u32) -> UltraFastOrder {
    UltraFastOrder::new_buy_limit("BTCUSDT", 100000, 5000000000000, 0, n)
}

fn nonces(batch: &[UltraFastOrder]) -> Vec<u32> {
    batch.iter().map(|o| o.nonce).collect()
}

#[test]
fn new_processor_keeps_pool_and_starts_empty() {
    let processor = BatchOrderProcessor::new("pool");
    assert_eq!(*processor.pool(), "pool");
    let mut batch = Vec::new();
    assert!(processor.collect_batch(&mut batch));
    assert!(batch.is_empty());
}

#[test]
fn collect_batch_takes_orders_in_submission_order() {
    let processor = BatchOrderProcessor::new(());
    for n in 0..5 {
        assert!(processor.submit_order(order(n)));
    }
    let mut batch = Vec::new();
    processor.collect_batch(&mut batch);
    assert_eq!(nonces(&batch), vec![0, 1, 2, 3, 4]);
}

#[test]
fn collect_batch_stops_at_max_batch() {
    let processor = BatchOrderProcessor::new(());
    for n in 0..40 {
        assert!(processor.submit_order(order(n)));
    }
    let mut batch = Vec::new();
    assert!(!processor.collect_batch(&mut batch));
    assert_eq!(batch.len(), MAX_BATCH);
    assert_eq!(nonces(&batch), (0..32).collect::<Vec<u32>>());
    batch.clear();
    assert!(processor.collect_batch(&mut batch));
    assert_eq!(nonces(&batch), (32..40).collect::<Vec<u32>>());
}

#[test]
fn collect_batch_keeps_existing_prefix() {
    let processor = BatchOrderProcessor::new(());
    processor.submit_order(order(7));
    let mut batch = vec![order(1), order(2)];
    processor.collect_batch(&mut batch);
    assert_eq!(nonces(&batch), vec![1, 2, 7]);
}

#[test]
fn full_batch_takes_at_most_one_more() {
    let processor = BatchOrderProcessor::new(());
    for n in 0..3 {
        processor.submit_order(order(n));
    }
    let mut batch: Vec<UltraFastOrder> = (100..140).map(order).collect();
    assert!(!processor.collect_batch(&mut batch));
    assert_eq!(batch.len(), 41);
    assert_eq!(batch[40].nonce, 0);
}

#[test]
fn submit_fails_when_queue_is_full() {
    let processor = BatchOrderProcessor::new(());
    let o = order(0);
    for _ in 0..ORDER_QUEUE_SIZE {
        assert!(processor.submit_order(o));
    }
    assert!(!processor.submit_order(o));
    let mut batch = Vec::new();
    processor.collect_batch(&mut batch);
    assert!(processor.submit_order(o));
}

#[test]
fn push_received_appends_and_says_whether_to_continue() {
    let mut batch = Vec::new();
    assert!(push_received(&mut batch, Some(order(1))));
    assert!(!push_received(&mut batch, None));
    assert_eq!(nonces(&batch), vec![1]);
    let mut full: Vec<UltraFastOrder> = (0..31).map(order).collect();
    assert!(!push_received(&mut full, Some(order(99))));
    assert_eq!(full.len(), MAX_BATCH);
    assert_eq!(full[31].nonce, 99);
}
