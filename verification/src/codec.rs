//! The persisted layout: big-endian integers and recency records as bytes.
//!
//! The usage counter is stored as eight big-endian bytes. A recency record is
//! stored under its token, sixteen big-endian bytes, as the key it was written
//! for followed by the size as eight big-endian bytes.

use vstd::prelude::*;
use crate::bytes::bytes_to_vec;

verus! {

/// 256 to the power `n`.
pub open spec fn pow256(n: nat) -> nat
    decreases n,
{
    if n == 0 {
        1
    } else {
        256 * pow256((n - 1) as nat)
    }
}

/// The number that a byte string stands for, most significant byte first.
pub open spec fn be_value(bytes: Seq<u8>) -> nat
    decreases bytes.len(),
{
    if bytes.len() == 0 {
        0
    } else {
        be_value(bytes.drop_last()) * 256 + bytes.last() as nat
    }
}

/// The `width` least significant bytes of `value`, most significant first.
pub open spec fn be_bytes(value: nat, width: nat) -> Seq<u8>
    decreases width,
{
    if width == 0 {
        Seq::empty()
    } else {
        be_bytes(value / 256, (width - 1) as nat).push((value % 256) as u8)
    }
}

/// The key that a stored recency record was written for.
pub open spec fn record_key(record: Seq<u8>) -> Seq<u8> {
    record.take(record.len() - 8)
}

/// The size that a stored recency record holds.
pub open spec fn record_size(record: Seq<u8>) -> nat {
    be_value(record.skip(record.len() - 8))
}

/// The stored form of a recency record.
pub open spec fn record_bytes(key: Seq<u8>, size: nat) -> Seq<u8> {
    key + be_bytes(size, 8)
}

/// Powers of 256 grow with the exponent.
pub proof fn lemma_pow256_grows(a: nat, b: nat)
    requires
        a <= b,
    ensures
        0 < pow256(a) <= pow256(b),
    decreases b,
{
    if b == 0 {
    } else if a == b {
        lemma_pow256_grows((a - 1) as nat, (b - 1) as nat);
    } else {
        lemma_pow256_grows(a, (b - 1) as nat);
    }
}

/// Sixteen bytes hold the numbers below 2 to the power 128, eight bytes those
/// below 2 to the power 64.
pub proof fn lemma_pow256_widths()
    ensures
        pow256(8) == 0x1_0000_0000_0000_0000,
        pow256(16) == 0x1_0000_0000_0000_0000_0000_0000_0000_0000,
{
    reveal_with_fuel(pow256, 9);
    assert(pow256(8) == 0x1_0000_0000_0000_0000);
    assert(pow256(16) == pow256(8) * pow256(8)) by {
        reveal_with_fuel(pow256, 9);
    }
}

/// A byte string of `n` bytes stands for a number below 256 to the power `n`.
pub proof fn lemma_be_value_bound(bytes: Seq<u8>)
    ensures
        be_value(bytes) < pow256(bytes.len()),
    decreases bytes.len(),
{
    if bytes.len() > 0 {
        lemma_be_value_bound(bytes.drop_last());
    }
}

/// The bytes of a number are as many as asked for.
pub proof fn lemma_be_bytes_len(value: nat, width: nat)
    ensures
        be_bytes(value, width).len() == width,
    decreases width,
{
    if width > 0 {
        lemma_be_bytes_len(value / 256, (width - 1) as nat);
    }
}

/// Reading back the bytes of a number that fits in them gives the number.
pub proof fn lemma_be_round_trip(value: nat, width: nat)
    requires
        value < pow256(width),
    ensures
        be_value(be_bytes(value, width)) == value,
    decreases width,
{
    if width > 0 {
        let front = be_bytes(value / 256, (width - 1) as nat);
        lemma_be_round_trip(value / 256, (width - 1) as nat);
        assert(be_bytes(value, width).drop_last() =~= front);
    }
}

/// Writing the number that a byte string stands for gives the byte string.
pub proof fn lemma_be_bytes_of_value(bytes: Seq<u8>)
    ensures
        be_bytes(be_value(bytes), bytes.len()) == bytes,
    decreases bytes.len(),
{
    if bytes.len() > 0 {
        lemma_be_bytes_of_value(bytes.drop_last());
        assert(bytes.drop_last().push(bytes.last()) =~= bytes);
    } else {
        assert(bytes =~= Seq::<u8>::empty());
    }
}

/// A stored recency record gives back the key and the size it was made of.
pub proof fn lemma_record_round_trip(key: Seq<u8>, size: nat)
    requires
        size < pow256(8),
    ensures
        record_bytes(key, size).len() == key.len() + 8,
        record_key(record_bytes(key, size)) == key,
        record_size(record_bytes(key, size)) == size,
{
    lemma_be_bytes_len(size, 8);
    lemma_be_round_trip(size, 8);
    let stored = record_bytes(key, size);
    assert(stored.take(stored.len() - 8) =~= key);
    assert(stored.skip(stored.len() - 8) =~= be_bytes(size, 8));
}

/// Whether `a` comes before `b` in the order of byte strings, as a store that
/// sorts its keys compares two of one length: up to some position they agree,
/// and there `a` has the smaller byte.
pub open spec fn bytes_before(a: Seq<u8>, b: Seq<u8>) -> bool {
    exists|i: int|
        0 <= i < a.len() && i < b.len() && #[trigger] a.take(i) == b.take(i) && a[i] < b[i]
}

/// Of two byte strings of one length, the one that stands for the smaller
/// number comes first.
pub proof fn lemma_be_value_ordered(a: Seq<u8>, b: Seq<u8>)
    requires
        a.len() == b.len(),
        be_value(a) < be_value(b),
    ensures
        bytes_before(a, b),
    decreases a.len(),
{
    if a.len() > 0 {
        let front_a = a.drop_last();
        let front_b = b.drop_last();
        let n = a.len() - 1;
        if be_value(front_a) < be_value(front_b) {
            lemma_be_value_ordered(front_a, front_b);
            let i = choose|i: int|
                0 <= i < front_a.len() && i < front_b.len() && #[trigger] front_a.take(i)
                    == front_b.take(i) && front_a[i] < front_b[i];
            assert(a.take(i) =~= front_a.take(i));
            assert(b.take(i) =~= front_b.take(i));
        } else {
            assert(be_value(front_a) == be_value(front_b));
            lemma_be_bytes_of_value(front_a);
            lemma_be_bytes_of_value(front_b);
            assert(a.take(n) =~= front_a);
            assert(b.take(n) =~= front_b);
            assert(a[n] < b[n]);
        }
    }
}

/// Stored tokens sort as the tokens do: the bytes of the smaller of two tokens
/// come first, so the first record of the stored index is the oldest write.
pub proof fn lemma_stored_tokens_ordered(older: nat, newer: nat)
    requires
        older < newer < pow256(16),
    ensures
        bytes_before(be_bytes(older, 16), be_bytes(newer, 16)),
{
    lemma_be_bytes_len(older, 16);
    lemma_be_bytes_len(newer, 16);
    lemma_be_round_trip(older, 16);
    lemma_be_round_trip(newer, 16);
    lemma_be_value_ordered(be_bytes(older, 16), be_bytes(newer, 16));
}

fn decode_be(bytes: &[u8], width: usize) -> (value: u128)
    requires
        width <= 16,
        width <= bytes@.len(),
    ensures
        value == be_value(bytes@.take(width as int)),
{
    let mut value: u128 = 0;
    let mut i: usize = 0;
    proof {
        assert(bytes@.take(0) =~= Seq::<u8>::empty());
    }
    while i < width
        invariant
            i <= width <= 16,
            width <= bytes@.len(),
            value == be_value(bytes@.take(i as int)),
            value < pow256(i as nat),
        decreases width - i,
    {
        proof {
            lemma_pow256_grows((i + 1) as nat, 16);
            lemma_pow256_widths();
            assert(bytes@.take(i + 1).drop_last() =~= bytes@.take(i as int));
        }
        value = value * 256 + bytes[i] as u128;
        i += 1;
    }
    value
}

fn encode_be(value: u128, width: usize) -> (bytes: Vec<u8>)
    ensures
        bytes@ == be_bytes(value as nat, width as nat),
    decreases width,
{
    if width == 0 {
        Vec::new()
    } else {
        let mut bytes = encode_be(value / 256, width - 1);
        bytes.push((value % 256) as u8);
        bytes
    }
}

/// Reads the usage counter: the number that the first eight bytes stand for.
pub fn ivec_to_u64(ivec: &[u8]) -> (value: u64)
    requires
        ivec@.len() >= 8,
    ensures
        value == be_value(ivec@.take(8)),
{
    proof {
        lemma_be_value_bound(ivec@.take(8));
        lemma_pow256_widths();
    }
    decode_be(ivec, 8) as u64
}

/// The stored form of the usage counter: eight bytes, most significant first.
pub fn u64_to_ivec(value: u64) -> (ivec: Vec<u8>)
    ensures
        ivec@ == be_bytes(value as nat, 8),
        ivec@.len() == 8,
        be_value(ivec@) == value,
{
    proof {
        lemma_be_bytes_len(value as nat, 8);
        lemma_pow256_widths();
        lemma_be_round_trip(value as nat, 8);
    }
    encode_be(value as u128, 8)
}

/// Reads a recency token: the number that the first sixteen bytes stand for.
pub fn decode_token(stored: &[u8]) -> (token: u128)
    requires
        stored@.len() >= 16,
    ensures
        token == be_value(stored@.take(16)),
{
    decode_be(stored, 16)
}

/// The stored form of a recency token: sixteen bytes, most significant first.
pub fn encode_token(token: u128) -> (stored: Vec<u8>)
    ensures
        stored@ == be_bytes(token as nat, 16),
        stored@.len() == 16,
        be_value(stored@) == token,
{
    proof {
        lemma_be_bytes_len(token as nat, 16);
        lemma_pow256_widths();
        lemma_be_round_trip(token as nat, 16);
    }
    encode_be(token, 16)
}

/// The stored form of a recency record: the key, then the size as eight bytes.
pub fn encode_record(key: &[u8], size: u64) -> (stored: Vec<u8>)
    ensures
        stored@ == record_bytes(key@, size as nat),
{
    let mut stored = bytes_to_vec(key);
    let mut tail = u64_to_ivec(size);
    stored.append(&mut tail);
    stored
}

/// Reads a stored recency record: all but the last eight bytes are the key, the
/// last eight are the size.
pub fn decode_record(stored: &[u8]) -> (record: (Vec<u8>, u64))
    requires
        stored@.len() >= 8,
    ensures
        record.0@ == record_key(stored@),
        record.1 == record_size(stored@),
{
    let split = stored.len() - 8;
    let key = bytes_to_vec(vstd::slice::slice_subrange(stored, 0, split));
    let tail = vstd::slice::slice_subrange(stored, split, stored.len());
    proof {
        assert(stored@.subrange(0, split as int) =~= stored@.take(split as int));
        assert(tail@ =~= stored@.skip(split as int));
        assert(tail@.take(8) =~= tail@);
    }
    let size = ivec_to_u64(tail);
    (key, size)
}

} // verus!
