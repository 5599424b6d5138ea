//! The fixed-size binary order and its wire encoding.

use vstd::prelude::*;
use vstd::string::StringSliceAdditionalSpecFns;
use vstd::arithmetic::div_mod::{lemma_add_mod_noop, lemma_mod_equivalence, lemma_mod_mod, lemma_small_mod};
use vstd::bytes::{spec_u32_to_le_bytes, spec_u64_to_le_bytes, u32_to_le_bytes, u64_to_le_bytes};

verus! {

/// Number of bytes of an encoded order (the packed in-memory layout).
pub const ORDER_WIRE_SIZE: usize = 46;

/// Number of bytes reserved for the symbol, zero padded.
pub const SYMBOL_CAPACITY: usize = 12;

/// Longest symbol that is copied into an order; the last symbol byte
/// always stays zero.
pub const MAX_SYMBOL_LEN: usize = 11;

/// Side code of a buy order.
pub const SIDE_BUY: u8 = 0;

/// Order type code of a limit order.
pub const ORDER_TYPE_LIMIT: u8 = 0;

/// An order laid out as a packed record: symbol, side, order type,
/// quantity and price in units of 1e-8, timestamp in nanoseconds,
/// a nonce and a checksum.
#[derive(Clone, Copy)]
pub struct UltraFastOrder {
    pub symbol: [u8; 12],
    pub side: u8,
    pub order_type: u8,
    pub quantity: u64,
    pub price: u64,
    pub timestamp_ns: u64,
    pub nonce: u32,
    pub checksum: u32,
}

/// The wire bytes of an order: the fields in declaration order, without
/// padding, integers little endian.
pub open spec fn spec_encode(o: UltraFastOrder) -> Seq<u8> {
    o.symbol@
        + seq![o.side, o.order_type]
        + spec_u64_to_le_bytes(o.quantity)
        + spec_u64_to_le_bytes(o.price)
        + spec_u64_to_le_bytes(o.timestamp_ns)
        + spec_u32_to_le_bytes(o.nonce)
        + spec_u32_to_le_bytes(o.checksum)
}

/// Every order encodes to exactly `ORDER_WIRE_SIZE` bytes.
pub proof fn lemma_encode_len(o: UltraFastOrder)
    ensures
        spec_encode(o).len() == ORDER_WIRE_SIZE,
{
    vstd::bytes::lemma_auto_spec_u64_to_from_le_bytes();
    vstd::bytes::lemma_auto_spec_u32_to_from_le_bytes();
}

/// Distinct orders have distinct wire bytes: the encoding determines
/// every field.
pub proof fn lemma_encode_injective(a: UltraFastOrder, b: UltraFastOrder)
    requires
        spec_encode(a) == spec_encode(b),
    ensures
        a == b,
{
    broadcast use vstd::array::axiom_array_ext_equal;
    vstd::bytes::lemma_auto_spec_u64_to_from_le_bytes();
    vstd::bytes::lemma_auto_spec_u32_to_from_le_bytes();
    let ea = spec_encode(a);
    let eb = spec_encode(b);
    lemma_encode_len(a);
    assert(ea.subrange(0, 12) =~= a.symbol@);
    assert(eb.subrange(0, 12) =~= b.symbol@);
    assert(ea.subrange(14, 22) =~= spec_u64_to_le_bytes(a.quantity));
    assert(eb.subrange(14, 22) =~= spec_u64_to_le_bytes(b.quantity));
    assert(ea.subrange(22, 30) =~= spec_u64_to_le_bytes(a.price));
    assert(eb.subrange(22, 30) =~= spec_u64_to_le_bytes(b.price));
    assert(ea.subrange(30, 38) =~= spec_u64_to_le_bytes(a.timestamp_ns));
    assert(eb.subrange(30, 38) =~= spec_u64_to_le_bytes(b.timestamp_ns));
    assert(ea.subrange(38, 42) =~= spec_u32_to_le_bytes(a.nonce));
    assert(eb.subrange(38, 42) =~= spec_u32_to_le_bytes(b.nonce));
    assert(ea.subrange(42, 46) =~= spec_u32_to_le_bytes(a.checksum));
    assert(eb.subrange(42, 46) =~= spec_u32_to_le_bytes(b.checksum));
    assert(a.symbol =~= b.symbol);
    assert(ea[12] == a.side && eb[12] == b.side);
    assert(ea[13] == a.order_type && eb[13] == b.order_type);
}

impl UltraFastOrder {
    /// The order's wire bytes. Integers are always encoded little endian,
    /// whatever the byte order of the machine, so the bytes are the
    /// packed in-memory layout on little-endian machines only.
    pub fn as_bytes(&self) -> (bytes: Vec<u8>)
        ensures
            bytes@ == spec_encode(*self),
            bytes@.len() == ORDER_WIRE_SIZE,
    {
        proof { lemma_encode_len(*self); }
        let mut out: Vec<u8> = Vec::with_capacity(ORDER_WIRE_SIZE);
        let mut i: usize = 0;
        while i < SYMBOL_CAPACITY
            invariant
                0 <= i <= SYMBOL_CAPACITY,
                out@ == self.symbol@.subrange(0, i as int),
            decreases SYMBOL_CAPACITY - i,
        {
            out.push(self.symbol[i]);
            i = i + 1;
        }
        out.push(self.side);
        out.push(self.order_type);
        let mut q = u64_to_le_bytes(self.quantity);
        out.append(&mut q);
        let mut p = u64_to_le_bytes(self.price);
        out.append(&mut p);
        let mut t = u64_to_le_bytes(self.timestamp_ns);
        out.append(&mut t);
        let mut n = u32_to_le_bytes(self.nonce);
        out.append(&mut n);
        let mut c = u32_to_le_bytes(self.checksum);
        out.append(&mut c);
        assert(out@ =~= spec_encode(*self));
        out
    }
}


/// Reflected CRC-32 (IEEE 802.3) polynomial.
pub const CRC32_IEEE_POLY: u32 = 0xEDB8_8320;

/// Number of encoded bytes that precede the checksum field; the checksum
/// covers exactly these bytes.
pub const CHECKSUM_OFFSET: usize = 42;

/// One bit step of the reflected CRC-32 (IEEE): the message bit enters at
/// the low end of the register.
pub open spec fn crc32_ieee_shift(c: u32, bit: u32) -> u32 {
    let x = c ^ bit;
    if x & 1 == 1 {
        (x >> 1) ^ CRC32_IEEE_POLY
    } else {
        x >> 1
    }
}

/// The CRC-32 (IEEE) register after one byte, least significant bit first.
pub open spec fn crc32_ieee_byte(c: u32, byte: u8) -> u32 {
    let c0 = crc32_ieee_shift(c, (byte & 1) as u32);
    let c1 = crc32_ieee_shift(c0, ((byte >> 1u8) & 1) as u32);
    let c2 = crc32_ieee_shift(c1, ((byte >> 2u8) & 1) as u32);
    let c3 = crc32_ieee_shift(c2, ((byte >> 3u8) & 1) as u32);
    let c4 = crc32_ieee_shift(c3, ((byte >> 4u8) & 1) as u32);
    let c5 = crc32_ieee_shift(c4, ((byte >> 5u8) & 1) as u32);
    let c6 = crc32_ieee_shift(c5, ((byte >> 6u8) & 1) as u32);
    crc32_ieee_shift(c6, ((byte >> 7u8) & 1) as u32)
}

/// The CRC-32 (IEEE) register after the first `n` bytes of `b`, starting
/// from `init`.
pub open spec fn crc32_ieee_register(init: u32, b: Seq<u8>, n: nat) -> u32
    decreases n,
{
    if n == 0 {
        init
    } else {
        crc32_ieee_byte(crc32_ieee_register(init, b, (n - 1) as nat), b[n - 1])
    }
}

/// The standard CRC-32 (IEEE 802.3, as in zlib) of `b`: all-ones initial
/// register, final inversion.
pub open spec fn spec_crc32_ieee(b: Seq<u8>) -> u32 {
    crc32_ieee_register(0xFFFF_FFFF, b, b.len()) ^ 0xFFFF_FFFF
}

/// The checksum of an order: the standard CRC-32 of the encoded bytes that
/// precede the checksum field.
pub open spec fn spec_checksum(o: UltraFastOrder) -> u32 {
    spec_crc32_ieee(spec_encode(o).subrange(0, CHECKSUM_OFFSET as int))
}

proof fn lemma_crc32_shift_linear(c1: u32, c2: u32, b1: u32, b2: u32)
    requires
        b1 <= 1,
        b2 <= 1,
    ensures
        crc32_ieee_shift(c1, b1) ^ crc32_ieee_shift(c2, b2) == crc32_ieee_shift(c1 ^ c2, b1 ^ b2),
{
    assert(crc32_ieee_shift(c1, b1) ^ crc32_ieee_shift(c2, b2) == crc32_ieee_shift(c1 ^ c2, b1 ^ b2))
        by (bit_vector)
        requires
            b1 <= 1,
            b2 <= 1,
    ;
}

proof fn lemma_bit_xor(d1: u8, d2: u8, k: u8)
    requires
        k < 8,
    ensures
        ((d1 >> k) & 1) as u32 <= 1,
        ((d2 >> k) & 1) as u32 <= 1,
        ((d1 >> k) & 1) as u32 ^ ((d2 >> k) & 1) as u32 == (((d1 ^ d2) >> k) & 1) as u32,
{
    assert(((d1 >> k) & 1) as u32 <= 1 && ((d2 >> k) & 1) as u32 <= 1
        && ((d1 >> k) & 1) as u32 ^ ((d2 >> k) & 1) as u32 == (((d1 ^ d2) >> k) & 1) as u32)
        by (bit_vector);
}

proof fn lemma_crc32_prefix_linear(c1: u32, c2: u32, d1: u8, d2: u8, k: nat)
    requires
        k <= 8,
    ensures
        crc32_ieee_byte_prefix(c1, d1, k) ^ crc32_ieee_byte_prefix(c2, d2, k)
            == crc32_ieee_byte_prefix(c1 ^ c2, d1 ^ d2, k),
    decreases k,
{
    if k > 0 {
        let j = (k - 1) as u8;
        lemma_crc32_prefix_linear(c1, c2, d1, d2, (k - 1) as nat);
        lemma_bit_xor(d1, d2, j);
        lemma_crc32_shift_linear(
            crc32_ieee_byte_prefix(c1, d1, (k - 1) as nat),
            crc32_ieee_byte_prefix(c2, d2, (k - 1) as nat),
            ((d1 >> j) & 1) as u32,
            ((d2 >> j) & 1) as u32,
        );
    }
}

proof fn lemma_crc32_byte_linear(c1: u32, c2: u32, d1: u8, d2: u8)
    ensures
        crc32_ieee_byte(c1, d1) ^ crc32_ieee_byte(c2, d2) == crc32_ieee_byte(c1 ^ c2, d1 ^ d2),
{
    lemma_crc32_prefix_linear(c1, c2, d1, d2, 8);
    lemma_byte_prefix_full(c1, d1);
    lemma_byte_prefix_full(c2, d2);
    lemma_byte_prefix_full(c1 ^ c2, d1 ^ d2);
}

/// The register after the lowest `k` bits of `byte`.
spec fn crc32_ieee_byte_prefix(c: u32, byte: u8, k: nat) -> u32
    decreases k,
{
    if k == 0 {
        c
    } else {
        crc32_ieee_shift(crc32_ieee_byte_prefix(c, byte, (k - 1) as nat), ((byte >> ((k - 1) as u8)) & 1) as u32)
    }
}

proof fn lemma_byte_prefix_full(c: u32, byte: u8)
    ensures
        crc32_ieee_byte_prefix(c, byte, 8) == crc32_ieee_byte(c, byte),
{
    reveal_with_fuel(crc32_ieee_byte_prefix, 9);
    assert((byte >> 0u8) & 1 == byte & 1) by (bit_vector);
}

proof fn lemma_crc32_byte_nonzero(c: u32, d: u8)
    ensures
        d != 0 ==> crc32_ieee_byte(0, d) != 0,
        c != 0 ==> crc32_ieee_byte(c, 0) != 0,
        crc32_ieee_byte(0, 0) == 0,
{
    assert(d != 0 ==> crc32_ieee_byte(0, d) != 0) by (bit_vector);
    assert(c != 0 ==> crc32_ieee_byte(c, 0) != 0) by (bit_vector);
    assert(crc32_ieee_byte(0, 0) == 0) by (bit_vector);
}

/// Byte-wise exclusive or of two sequences of equal length.
pub open spec fn xor_bytes(x: Seq<u8>, y: Seq<u8>) -> Seq<u8> {
    Seq::new(x.len(), |i: int| x[i] ^ y[i])
}

proof fn lemma_register_xor(x: Seq<u8>, y: Seq<u8>, n: nat)
    requires
        x.len() == y.len(),
        n <= x.len(),
    ensures
        crc32_ieee_register(0xFFFF_FFFF, x, n) ^ crc32_ieee_register(0xFFFF_FFFF, y, n)
            == crc32_ieee_register(0, xor_bytes(x, y), n),
    decreases n,
{
    if n == 0 {
        assert(0xFFFF_FFFFu32 ^ 0xFFFF_FFFFu32 == 0u32) by (bit_vector);
    } else {
        lemma_register_xor(x, y, (n - 1) as nat);
        lemma_crc32_byte_linear(
            crc32_ieee_register(0xFFFF_FFFF, x, (n - 1) as nat),
            crc32_ieee_register(0xFFFF_FFFF, y, (n - 1) as nat),
            x[n - 1],
            y[n - 1],
        );
    }
}

proof fn lemma_register_single_byte(e: Seq<u8>, p: int, n: nat)
    requires
        0 <= p < e.len(),
        n <= e.len(),
        e[p] != 0,
        forall|i: int| 0 <= i < e.len() && i != p ==> e[i] == 0,
    ensures
        n <= p ==> crc32_ieee_register(0, e, n) == 0,
        n > p ==> crc32_ieee_register(0, e, n) != 0,
    decreases n,
{
    if n > 0 {
        lemma_register_single_byte(e, p, (n - 1) as nat);
        lemma_crc32_byte_nonzero(crc32_ieee_register(0, e, (n - 1) as nat), e[n - 1]);
    }
}

/// The CRC-32 detects every single-byte change: two byte sequences of the
/// same length that differ in exactly one position have different CRC-32s.
pub proof fn lemma_crc32_detects_byte_change(x: Seq<u8>, y: Seq<u8>, p: int)
    requires
        x.len() == y.len(),
        0 <= p < x.len(),
        x[p] != y[p],
        forall|i: int| 0 <= i < x.len() && i != p ==> x[i] == y[i],
    ensures
        spec_crc32_ieee(x) != spec_crc32_ieee(y),
{
    let e = xor_bytes(x, y);
    assert forall|i: int| 0 <= i < e.len() && i != p implies e[i] == 0 by {
        let v = x[i];
        assert(v ^ v == 0) by (bit_vector);
    }
    let xp = x[p];
    let yp = y[p];
    assert(xp != yp ==> xp ^ yp != 0) by (bit_vector);
    lemma_register_single_byte(e, p, e.len());
    lemma_register_xor(x, y, x.len());
    let a = crc32_ieee_register(0xFFFF_FFFF, x, x.len());
    let b = crc32_ieee_register(0xFFFF_FFFF, y, y.len());
    assert(a ^ b != 0 ==> a ^ 0xFFFF_FFFF != b ^ 0xFFFF_FFFF) by (bit_vector);
}

/// `crc32fast::hash`, which computes the standard CRC-32 (IEEE, the zlib
/// checksum) of the buffer. The contract claims that result, bit for bit.
#[verifier::external_body]
fn crc32fast_hash(data: &[u8]) -> (crc: u32)
    ensures
        crc == spec_crc32_ieee(data@),
{
    crc32fast::hash(data)
}

impl UltraFastOrder {
    /// The CRC-32 checksum of the order: over every encoded byte before
    /// the checksum field.
    pub fn calculate_checksum(&self) -> (crc: u32)
        ensures
            crc == spec_checksum(*self),
    {
        let mut bytes = self.as_bytes();
        bytes.truncate(CHECKSUM_OFFSET);
        assert(bytes@ =~= spec_encode(*self).subrange(0, CHECKSUM_OFFSET as int));
        crc32fast_hash(bytes.as_slice())
    }
}

/// The order checksum detects every single-byte change: two orders whose
/// encodings differ in exactly one of the bytes before the checksum field
/// (one byte of the symbol, side, order type, quantity, price, timestamp or
/// nonce) have different checksums.
pub proof fn lemma_checksum_detects_byte_change(a: UltraFastOrder, b: UltraFastOrder, p: int)
    requires
        0 <= p < CHECKSUM_OFFSET,
        spec_encode(a)[p] != spec_encode(b)[p],
        forall|i: int| 0 <= i < CHECKSUM_OFFSET && i != p ==> spec_encode(a)[i] == spec_encode(b)[i],
    ensures
        spec_checksum(a) != spec_checksum(b),
{
    lemma_encode_len(a);
    lemma_encode_len(b);
    let x = spec_encode(a).subrange(0, CHECKSUM_OFFSET as int);
    let y = spec_encode(b).subrange(0, CHECKSUM_OFFSET as int);
    lemma_crc32_detects_byte_change(x, y, p);
}

/// The symbol field made from the symbol's bytes: at most the first
/// `MAX_SYMBOL_LEN` bytes, then zeros.
pub open spec fn spec_symbol_field(b: Seq<u8>) -> Seq<u8> {
    Seq::new(
        SYMBOL_CAPACITY as nat,
        |i: int| if i < b.len() && i < MAX_SYMBOL_LEN { b[i] } else { 0u8 },
    )
}

/// The symbol field holds the symbol's bytes verbatim up to
/// `MAX_SYMBOL_LEN` of them, whatever they are, and zeros after them, so
/// it always ends in a zero byte.
pub proof fn lemma_symbol_field_copies(b: Seq<u8>)
    ensures
        spec_symbol_field(b).len() == SYMBOL_CAPACITY,
        forall|i: int| 0 <= i < b.len() && i < MAX_SYMBOL_LEN
            ==> spec_symbol_field(b)[i] == #[trigger] b[i],
        forall|i: int| 0 <= i < SYMBOL_CAPACITY && (i >= b.len() || i >= MAX_SYMBOL_LEN)
            ==> #[trigger] spec_symbol_field(b)[i] == 0u8,
        spec_symbol_field(b)[SYMBOL_CAPACITY - 1] == 0u8,
{
}

impl UltraFastOrder {
    /// A buy limit order for `symbol` (truncated to `MAX_SYMBOL_LEN`
    /// bytes), with quantity and price in units of 1e-8, stamped with
    /// `timestamp_ns` and `nonce`, and its checksum set.
    pub fn new_buy_limit(
        symbol: &str,
        quantity: u64,
        price: u64,
        timestamp_ns: u64,
        nonce: u32,
    ) -> (order: UltraFastOrder)
        ensures
            order.symbol@ == spec_symbol_field(symbol.spec_bytes()),
            forall|i: int| 0 <= i < symbol.spec_bytes().len() && i < MAX_SYMBOL_LEN
                ==> order.symbol@[i] == #[trigger] symbol.spec_bytes()[i],
            forall|i: int| 0 <= i < SYMBOL_CAPACITY && (i >= symbol.spec_bytes().len() || i >= MAX_SYMBOL_LEN)
                ==> #[trigger] order.symbol@[i] == 0u8,
            order.side == SIDE_BUY,
            order.order_type == ORDER_TYPE_LIMIT,
            order.quantity == quantity,
            order.price == price,
            order.timestamp_ns == timestamp_ns,
            order.nonce == nonce,
            order.checksum == spec_checksum(order),
    {
        let bytes = symbol.as_bytes();
        let len: usize = if bytes.len() < MAX_SYMBOL_LEN { bytes.len() } else { MAX_SYMBOL_LEN };
        let mut sym: [u8; 12] = [0u8; 12];
        let mut i: usize = 0;
        while i < len
            invariant
                0 <= i <= len,
                len <= MAX_SYMBOL_LEN,
                len <= bytes@.len(),
                len == bytes@.len() || len == MAX_SYMBOL_LEN,
                sym@.len() == SYMBOL_CAPACITY,
                forall|k: int| 0 <= k < i ==> sym@[k] == bytes@[k],
                forall|k: int| i <= k < SYMBOL_CAPACITY ==> sym@[k] == 0u8,
            decreases len - i,
        {
            sym[i] = bytes[i];
            i = i + 1;
        }
        assert(sym@ =~= spec_symbol_field(bytes@));
        let mut order = UltraFastOrder {
            symbol: sym,
            side: SIDE_BUY,
            order_type: ORDER_TYPE_LIMIT,
            quantity,
            price,
            timestamp_ns,
            nonce,
            checksum: 0,
        };
        let crc = order.calculate_checksum();
        proof { lemma_checksum_ignores_checksum_field(order, crc); }
        order.checksum = crc;
        order
    }
}

/// The order with its checksum field replaced.
pub open spec fn with_checksum(o: UltraFastOrder, checksum: u32) -> UltraFastOrder {
    UltraFastOrder { checksum, ..o }
}

/// The checksum does not depend on the checksum field: it covers only the
/// bytes that precede that field, so sealing an order keeps it valid.
pub proof fn lemma_checksum_ignores_checksum_field(o: UltraFastOrder, checksum: u32)
    ensures
        spec_checksum(with_checksum(o, checksum)) == spec_checksum(o),
{
    let p = with_checksum(o, checksum);
    lemma_encode_len(o);
    lemma_encode_len(p);
    let a = spec_encode(o);
    let b = spec_encode(p);
    assert forall|i: int| 0 <= i < CHECKSUM_OFFSET implies a[i] == b[i] by {
        vstd::bytes::lemma_auto_spec_u64_to_from_le_bytes();
        vstd::bytes::lemma_auto_spec_u32_to_from_le_bytes();
    }
    assert(a.subrange(0, CHECKSUM_OFFSET as int) =~= b.subrange(0, CHECKSUM_OFFSET as int));
}


/// The nonce drawn from counter value `counter`: its low 32 bits.
pub open spec fn nonce_of(counter: u64) -> u32 {
    (counter % 0x1_0000_0000) as u32
}

/// The nonce counter after `k` draws from `start`, wrapping like an
/// atomic fetch-add.
pub open spec fn counter_after(start: u64, k: nat) -> u64 {
    ((start + k) % 0x1_0000_0000_0000_0000) as u64
}

/// Draws the next order nonce: the low 32 bits of the counter, which then
/// advances by one, wrapping on overflow.
pub fn generate_nonce(counter: &mut u64) -> (nonce: u32)
    ensures
        nonce == nonce_of(*old(counter)),
        *final(counter) == counter_after(*old(counter), 1),
{
    let c: u64 = *counter;
    *counter = c.wrapping_add(1);
    assert((c as u32) as u64 == c % 0x1_0000_0000u64) by (bit_vector);
    c as u32
}


/// Successive draws from one counter: the `j`-th draw gives
/// `(start + j) mod 2^32`, the `j`-th and the `k`-th draw give distinct
/// nonces whenever fewer than 2^32 draws lie between them, and each draw
/// advances the counter by exactly one step.
pub proof fn lemma_nonces_unique(start: u64, j: nat, k: nat)
    requires
        j < k < j + 0x1_0000_0000,
    ensures
        nonce_of(counter_after(start, j)) as int == (start + j) % 0x1_0000_0000,
        nonce_of(counter_after(start, j)) != nonce_of(counter_after(start, k)),
        counter_after(counter_after(start, j), 1) == counter_after(start, j + 1),
{
    let m: int = 0x1_0000_0000;
    let a: int = start + j;
    let b: int = start + k;
    assert(m * m == 0x1_0000_0000_0000_0000int);
    lemma_mod_mod(a, m, m);
    lemma_mod_mod(b, m, m);
    lemma_small_mod((b - a) as nat, m as nat);
    lemma_mod_equivalence(b, a, m);
    lemma_add_mod_noop(a, 1, m * m);
    lemma_small_mod(1, (m * m) as nat);
}

} // verus!
