use ultra_latency::order::{
    generate_nonce, UltraFastOrder, CHECKSUM_OFFSET, MAX_SYMBOL_LEN, ORDER_TYPE_LIMIT,
    ORDER_WIRE_SIZE, SIDE_BUY,
};

fn sample_order() -> UltraFastOrder {
    let mut symbol = [0u8; 12];
    symbol[..7].copy_from_slice(b"BTCUSDT");
    UltraFastOrder {
        symbol,
        side: 0,
        order_type: 0,
        quantity: 100000,
        price: 5000000000000,
        timestamp_ns: 1700000000123456789,
        nonce: 42,
        checksum: 0,
    }
}

fn sample_bytes() -> Vec<u8> {
    vec![
        66, 84, 67, 85, 83, 68, 84, 0, 0, 0, 0, 0, 0, 0, 160, 134, 1, 0, 0, 0, 0, 0, 0, 80, 57, 39,
        140, 4, 0, 0, 21, 205, 133, 61, 254, 156, 151, 23, 42, 0, 0, 0, 0, 0, 0, 0,
    ]
}

#[test]
fn as_bytes_is_packed_little_endian_layout() {
    let bytes = sample_order().as_bytes();
    assert_eq!(bytes.len(), ORDER_WIRE_SIZE);
    assert_eq!(bytes, sample_bytes());
}

#[test]
fn as_bytes_of_extreme_fields() {
    let mut symbol = [0u8; 12];
    symbol[..11].copy_from_slice(b"ETHUSDTPERP");
    let order = UltraFastOrder {
        symbol,
        side: 1,
        order_type: 1,
        quantity: u64::MAX,
        price: 123,
        timestamp_ns: 0,
        nonce: 0xFFFF_FFFF,
        checksum: 0xDEAD_BEEF,
    };
    let expected: Vec<u8> = vec![
        69, 84, 72, 85, 83, 68, 84, 80, 69, 82, 80, 0, 1, 1, 255, 255, 255, 255, 255, 255, 255,
        255, 123, 0, 0, 0, 0, 0, 0, 0, 0, 0, 0, 0, 0, 0, 0, 0, 255, 255, 255, 255, 239, 190, 173,
        222,
    ];
    assert_eq!(order.as_bytes(), expected);
    assert_eq!(order.calculate_checksum(), 0x1ca8_2971);
}

#[test]
fn checksum_is_crc32_of_bytes_before_checksum() {
    assert_eq!(sample_order().calculate_checksum(), 0x3965_A615);
    assert_eq!(CHECKSUM_OFFSET, 42);
}

#[test]
fn checksum_ignores_checksum_field() {
    let a = sample_order();
    let mut b = sample_order();
    b.checksum = 0x1234_5678;
    assert_eq!(a.calculate_checksum(), b.calculate_checksum());
}

#[test]
fn checksum_detects_every_single_byte_change() {
    let a = sample_order();
    let base = a.calculate_checksum();
    // The high half of the nonce (encoded bytes 40 and 41) is covered too.
    let mut b = sample_order();
    b.nonce = a.nonce | 0x0001_0000;
    assert_ne!(base, b.calculate_checksum());
    let mut c = sample_order();
    c.nonce = a.nonce | 0x0100_0000;
    assert_ne!(base, c.calculate_checksum());
    for i in 0..12 {
        for delta in [1u8, 0x80, 0xFF] {
            let mut d = sample_order();
            d.symbol[i] ^= delta;
            assert_ne!(base, d.calculate_checksum());
        }
    }
    let mut e = sample_order();
    e.side = 1;
    assert_ne!(base, e.calculate_checksum());
    let mut f = sample_order();
    f.timestamp_ns ^= 0xFF << 56;
    assert_ne!(base, f.calculate_checksum());
}

#[test]
fn new_buy_limit_sets_fields_and_checksum() {
    let order =
        UltraFastOrder::new_buy_limit("BTCUSDT", 100000, 5000000000000, 1700000000123456789, 42);
    assert_eq!(order.side, SIDE_BUY);
    assert_eq!(order.order_type, ORDER_TYPE_LIMIT);
    let q = order.quantity;
    let p = order.price;
    let t = order.timestamp_ns;
    let n = order.nonce;
    assert_eq!((q, p, t, n), (100000, 5000000000000, 1700000000123456789, 42));
    assert_eq!(order.checksum, 0x3965_A615);
    let mut expected = sample_bytes();
    expected[42..46].copy_from_slice(&0x3965_A615u32.to_le_bytes());
    assert_eq!(order.as_bytes(), expected);
}

#[test]
fn new_buy_limit_truncates_long_symbol() {
    let order = UltraFastOrder::new_buy_limit("ABCDEFGHIJKLMNOP", 1, 2, 3, 4);
    assert_eq!(&order.symbol[..MAX_SYMBOL_LEN], b"ABCDEFGHIJK");
    assert_eq!(order.symbol[11], 0);
    assert_eq!(order.checksum, order.calculate_checksum());
}

#[test]
fn new_buy_limit_with_empty_symbol() {
    let order = UltraFastOrder::new_buy_limit("", 0, 0, 0, 0);
    assert_eq!(order.symbol, [0u8; 12]);
    assert_eq!(order.checksum, 0xE46F_28FB);
}

#[test]
fn generate_nonce_counts_and_wraps() {
    let mut counter: u64 = 5;
    assert_eq!(generate_nonce(&mut counter), 5);
    assert_eq!(generate_nonce(&mut counter), 6);
    assert_eq!(counter, 7);

    let mut high: u64 = (1u64 << 32) + 7;
    assert_eq!(generate_nonce(&mut high), 7);

    let mut last: u64 = u64::MAX;
    assert_eq!(generate_nonce(&mut last), 0xFFFF_FFFF);
    assert_eq!(last, 0);
    assert_eq!(generate_nonce(&mut last), 0);
}

#[test]
fn successive_nonces_are_distinct() {
    let mut counter: u64 = u64::MAX - 500;
    let mut seen = std::collections::HashSet::new();
    for _ in 0..1000 {
        assert!(seen.insert(generate_nonce(&mut counter)));
    }
}

#[test]
fn distinct_orders_have_distinct_bytes() {
    let a = sample_order();
    let mut b = sample_order();
    b.side = 1;
    assert_ne!(a.as_bytes(), b.as_bytes());
    let mut c = sample_order();
    c.checksum = 1;
    assert_ne!(a.as_bytes(), c.as_bytes());
    assert_eq!(a.as_bytes(), sample_order().as_bytes());
}
