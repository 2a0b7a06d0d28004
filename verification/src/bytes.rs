//! Little-endian fields, byte splices and the rolling checksums of exFAT.

use vstd::prelude::*;

verus! {

/// The 16-bit little-endian field that starts at byte `at`.
pub open spec fn u16_at(bytes: Seq<u8>, at: int) -> u16 {
    (bytes[at] + 0x100 * bytes[at + 1]) as u16
}

/// The 32-bit little-endian field that starts at byte `at`.
pub open spec fn u32_at(bytes: Seq<u8>, at: int) -> u32 {
    (bytes[at] + 0x100 * bytes[at + 1] + 0x1_0000 * bytes[at + 2] + 0x100_0000 * bytes[at
        + 3]) as u32
}

/// The 64-bit little-endian field that starts at byte `at`.
pub open spec fn u64_at(bytes: Seq<u8>, at: int) -> u64 {
    (u32_at(bytes, at) + 0x1_0000_0000 * u32_at(bytes, at + 4)) as u64
}

/// The two little-endian bytes of `value`.
pub open spec fn le16(value: u16) -> Seq<u8> {
    seq![(value % 0x100) as u8, (value / 0x100) as u8]
}

/// The four little-endian bytes of `value`.
pub open spec fn le32(value: u32) -> Seq<u8> {
    seq![
        (value % 0x100) as u8,
        (value / 0x100 % 0x100) as u8,
        (value / 0x1_0000 % 0x100) as u8,
        (value / 0x100_0000) as u8,
    ]
}

/// The eight little-endian bytes of `value`.
pub open spec fn le64(value: u64) -> Seq<u8> {
    le32((value % 0x1_0000_0000) as u32) + le32((value / 0x1_0000_0000) as u32)
}

/// `bytes` with `patch` written over it from byte `at` on.
pub open spec fn splice(bytes: Seq<u8>, at: int, patch: Seq<u8>) -> Seq<u8> {
    Seq::new(
        bytes.len(),
        |i: int|
            if at <= i < at + patch.len() {
                patch[i - at]
            } else {
                bytes[i]
            },
    )
}

/// `count` copies of `byte`.
pub open spec fn filled(count: nat, byte: u8) -> Seq<u8> {
    Seq::new(count, |i: int| byte)
}

/// A 16-bit field reads back what its little-endian bytes were made of.
pub proof fn lemma_le16_reads_back(bytes: Seq<u8>, at: int, value: u16)
    requires
        0 <= at,
        at + 2 <= bytes.len(),
        bytes.subrange(at, at + 2) == le16(value),
    ensures
        u16_at(bytes, at) == value,
{
    assert(bytes[at] == bytes.subrange(at, at + 2)[0]);
    assert(bytes[at + 1] == bytes.subrange(at, at + 2)[1]);
}

/// A 32-bit field reads back what its little-endian bytes were made of.
pub proof fn lemma_le32_reads_back(bytes: Seq<u8>, at: int, value: u32)
    requires
        0 <= at,
        at + 4 <= bytes.len(),
        bytes.subrange(at, at + 4) == le32(value),
    ensures
        u32_at(bytes, at) == value,
{
    let field = bytes.subrange(at, at + 4);
    assert(bytes[at] == field[0]);
    assert(bytes[at + 1] == field[1]);
    assert(bytes[at + 2] == field[2]);
    assert(bytes[at + 3] == field[3]);
}

/// A 64-bit field reads back what its little-endian bytes were made of.
pub proof fn lemma_le64_reads_back(bytes: Seq<u8>, at: int, value: u64)
    requires
        0 <= at,
        at + 8 <= bytes.len(),
        bytes.subrange(at, at + 8) == le64(value),
    ensures
        u64_at(bytes, at) == value,
{
    let field = bytes.subrange(at, at + 8);
    assert(bytes.subrange(at, at + 4) =~= field.subrange(0, 4));
    assert(bytes.subrange(at + 4, at + 8) =~= field.subrange(4, 8));
    assert(field.subrange(0, 4) =~= le32((value % 0x1_0000_0000) as u32));
    assert(field.subrange(4, 8) =~= le32((value / 0x1_0000_0000) as u32));
    lemma_le32_reads_back(bytes, at, (value % 0x1_0000_0000) as u32);
    lemma_le32_reads_back(bytes, at + 4, (value / 0x1_0000_0000) as u32);
}

/// Read a 16-bit little-endian field.
pub fn le_u16(bytes: &[u8], at: usize) -> (value: u16)
    requires
        at + 2 <= bytes.len(),
    ensures
        value == u16_at(bytes@, at as int),
{
    bytes[at] as u16 + 0x100 * (bytes[at + 1] as u16)
}

/// Read a 32-bit little-endian field.
pub fn le_u32(bytes: &[u8], at: usize) -> (value: u32)
    requires
        at + 4 <= bytes.len(),
    ensures
        value == u32_at(bytes@, at as int),
{
    bytes[at] as u32 + 0x100 * (bytes[at + 1] as u32) + 0x1_0000 * (bytes[at + 2] as u32)
        + 0x100_0000 * (bytes[at + 3] as u32)
}

/// Read a 64-bit little-endian field.
pub fn le_u64(bytes: &[u8], at: usize) -> (value: u64)
    requires
        at + 8 <= bytes.len(),
    ensures
        value == u64_at(bytes@, at as int),
{
    le_u32(bytes, at) as u64 + 0x1_0000_0000 * (le_u32(bytes, at + 4) as u64)
}

/// Write a 16-bit little-endian field.
pub fn put_u16(bytes: &mut [u8], at: usize, value: u16)
    requires
        at + 2 <= old(bytes).len(),
    ensures
        final(bytes)@ == splice(old(bytes)@, at as int, le16(value)),
{
    bytes[at] = (value % 0x100) as u8;
    bytes[at + 1] = (value / 0x100) as u8;
    assert(bytes@ =~= splice(old(bytes)@, at as int, le16(value)));
}

/// Write a 32-bit little-endian field.
pub fn put_u32(bytes: &mut [u8], at: usize, value: u32)
    requires
        at + 4 <= old(bytes).len(),
    ensures
        final(bytes)@ == splice(old(bytes)@, at as int, le32(value)),
{
    bytes[at] = (value % 0x100) as u8;
    bytes[at + 1] = (value / 0x100 % 0x100) as u8;
    bytes[at + 2] = (value / 0x1_0000 % 0x100) as u8;
    bytes[at + 3] = (value / 0x100_0000) as u8;
    assert(bytes@ =~= splice(old(bytes)@, at as int, le32(value)));
}

/// Write a 64-bit little-endian field.
pub fn put_u64(bytes: &mut [u8], at: usize, value: u64)
    requires
        at + 8 <= old(bytes).len(),
    ensures
        final(bytes)@ == splice(old(bytes)@, at as int, le64(value)),
{
    put_u32(bytes, at, (value % 0x1_0000_0000) as u32);
    put_u32(bytes, at + 4, (value / 0x1_0000_0000) as u32);
    assert(bytes@ =~= splice(old(bytes)@, at as int, le64(value)));
}

/// Write one byte.
pub fn put_u8(bytes: &mut [u8], at: usize, value: u8)
    requires
        at < old(bytes).len(),
    ensures
        final(bytes)@ == splice(old(bytes)@, at as int, seq![value]),
{
    bytes[at] = value;
    assert(bytes@ =~= splice(old(bytes)@, at as int, seq![value]));
}

/// Set the bytes from `from` up to `to` to `value`.
pub fn fill(bytes: &mut [u8], from: usize, to: usize, value: u8)
    requires
        from <= to <= old(bytes).len(),
    ensures
        final(bytes)@ == splice(old(bytes)@, from as int, filled((to - from) as nat, value)),
{
    let mut i: usize = from;
    while i < to
        invariant
            from <= i <= to <= bytes.len(),
            bytes@ == splice(old(bytes)@, from as int, filled((i - from) as nat, value)),
        decreases to - i,
    {
        bytes[i] = value;
        i = i + 1;
        assert(bytes@ =~= splice(old(bytes)@, from as int, filled((i - from) as nat, value)));
    }
    assert(bytes@ =~= splice(old(bytes)@, from as int, filled((to - from) as nat, value)));
}

/// Copy `count` bytes of `source`, from byte `from` on, to byte `at`.
pub fn copy_bytes(bytes: &mut [u8], at: usize, source: &[u8], from: usize, count: usize)
    requires
        at + count <= old(bytes).len(),
        from + count <= source.len(),
    ensures
        final(bytes)@ == splice(
            old(bytes)@,
            at as int,
            source@.subrange(from as int, from + count),
        ),
{
    let mut i: usize = 0;
    while i < count
        invariant
            i <= count,
            at + count <= bytes.len(),
            from + count <= source.len(),
            bytes@ == splice(old(bytes)@, at as int, source@.subrange(from as int, from + i)),
        decreases count - i,
    {
        bytes[at + i] = source[from + i];
        i = i + 1;
        assert(bytes@ =~= splice(old(bytes)@, at as int, source@.subrange(from as int, from + i)));
    }
    assert(bytes@ =~= splice(old(bytes)@, at as int, source@.subrange(from as int, from + count)));
}

/// One step of the 16-bit rolling checksum: rotate right by one bit, then add
/// the byte, modulo 2^16.
pub open spec fn rolled16(sum: u16, byte: u8) -> u16 {
    ((sum / 2 + (sum % 2) * 0x8000 + byte) % 0x1_0000) as u16
}

/// One step of the 32-bit rolling checksum: rotate right by one bit, then add
/// the byte, modulo 2^32.
pub open spec fn rolled32(sum: u32, byte: u8) -> u32 {
    ((sum / 2 + (sum % 2) * 0x8000_0000 + byte) % 0x1_0000_0000) as u32
}

/// The 16-bit checksum `sum` extended by every byte of `bytes`.
pub open spec fn sum16(sum: u16, bytes: Seq<u8>) -> u16
    decreases bytes.len(),
{
    if bytes.len() == 0 {
        sum
    } else {
        rolled16(sum16(sum, bytes.drop_last()), bytes.last())
    }
}

/// The 32-bit checksum `sum` extended by every byte of `bytes`.
pub open spec fn sum32(sum: u32, bytes: Seq<u8>) -> u32
    decreases bytes.len(),
{
    if bytes.len() == 0 {
        sum
    } else {
        rolled32(sum32(sum, bytes.drop_last()), bytes.last())
    }
}

/// Extending a 16-bit checksum by two runs of bytes, one after the other, is
/// extending it by both at once.
pub proof fn lemma_sum16_concat(sum: u16, head: Seq<u8>, tail: Seq<u8>)
    ensures
        sum16(sum, head + tail) == sum16(sum16(sum, head), tail),
    decreases tail.len(),
{
    if tail.len() == 0 {
        assert(head + tail =~= head);
    } else {
        assert((head + tail).drop_last() =~= head + tail.drop_last());
        lemma_sum16_concat(sum, head, tail.drop_last());
    }
}

/// Extend a 16-bit rolling checksum by one byte.
pub fn roll16(sum: u16, byte: u8) -> (next: u16)
    ensures
        next == rolled16(sum, byte),
{
    let rotated: u16 = sum / 2 + (sum % 2) * 0x8000;
    rotated.wrapping_add(byte as u16)
}

/// Extend a 32-bit rolling checksum by one byte.
pub fn roll32(sum: u32, byte: u8) -> (next: u32)
    ensures
        next == rolled32(sum, byte),
{
    let rotated: u32 = sum / 2 + (sum % 2) * 0x8000_0000;
    rotated.wrapping_add(byte as u32)
}

/// Extend a 16-bit rolling checksum by the bytes from `from` up to `to`.
pub fn roll16_range(sum: u16, bytes: &[u8], from: usize, to: usize) -> (total: u16)
    requires
        from <= to <= bytes.len(),
    ensures
        total == sum16(sum, bytes@.subrange(from as int, to as int)),
{
    let mut total: u16 = sum;
    let mut i: usize = from;
    assert(bytes@.subrange(from as int, from as int) =~= Seq::<u8>::empty());
    while i < to
        invariant
            from <= i <= to <= bytes.len(),
            total == sum16(sum, bytes@.subrange(from as int, i as int)),
        decreases to - i,
    {
        assert(bytes@.subrange(from as int, i + 1).drop_last() =~= bytes@.subrange(
            from as int,
            i as int,
        ));
        total = roll16(total, bytes[i]);
        i = i + 1;
    }
    total
}

/// Extend a 32-bit rolling checksum by the first `count` bytes.
pub fn roll32_bytes(sum: u32, bytes: &[u8], count: usize) -> (total: u32)
    requires
        count <= bytes.len(),
    ensures
        total == sum32(sum, bytes@.take(count as int)),
{
    let mut total: u32 = sum;
    let mut i: usize = 0;
    assert(bytes@.take(0) =~= Seq::<u8>::empty());
    while i < count
        invariant
            i <= count <= bytes.len(),
            total == sum32(sum, bytes@.take(i as int)),
        decreases count - i,
    {
        assert(bytes@.take(i + 1).drop_last() =~= bytes@.take(i as int));
        total = roll32(total, bytes[i]);
        i = i + 1;
    }
    total
}

} // verus!
