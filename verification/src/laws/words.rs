//! Words are stored low byte first, and checksums roll over bytes in order.

use crate::bytes;
use vstd::prelude::*;

verus! {

/// A word is read low byte first: each further byte counts 256 times the one
/// before it.
pub proof fn law_words_are_little_endian(data: Seq<u8>, at: int)
    requires
        0 <= at,
        at + 8 <= data.len(),
    ensures
        bytes::u16_at(data, at) == data[at] + 256 * data[at + 1],
        bytes::u32_at(data, at) == data[at] + 256 * (data[at + 1] + 256 * (data[at + 2] + 256
            * data[at + 3])),
        bytes::u64_at(data, at) == data[at] + 256 * (data[at + 1] + 256 * (data[at + 2] + 256 * (
        data[at + 3] + 256 * (data[at + 4] + 256 * (data[at + 5] + 256 * (data[at + 6] + 256
            * data[at + 7])))))),
{
}

/// A word is written low byte first, and reading what was written gives the
/// word back.
pub proof fn law_words_are_written_little_endian(short: u16, word: u32, long: u64)
    ensures
        bytes::le16(short).len() == 2,
        bytes::le32(word).len() == 4,
        bytes::le64(long).len() == 8,
        bytes::le16(short)[0] + 256 * bytes::le16(short)[1] == short,
        bytes::u16_at(bytes::le16(short), 0) == short,
        bytes::u32_at(bytes::le32(word), 0) == word,
        bytes::u64_at(bytes::le64(long), 0) == long,
        bytes::le32(word)[0] + 256 * (bytes::le32(word)[1] + 256 * (bytes::le32(word)[2] + 256
            * bytes::le32(word)[3])) == word,
{
    assert(bytes::le16(short).subrange(0, 2) =~= bytes::le16(short));
    assert(bytes::le32(word).subrange(0, 4) =~= bytes::le32(word));
    assert(bytes::le64(long).subrange(0, 8) =~= bytes::le64(long));
    bytes::lemma_le16_reads_back(bytes::le16(short), 0, short);
    bytes::lemma_le32_reads_back(bytes::le32(word), 0, word);
    bytes::lemma_le64_reads_back(bytes::le64(long), 0, long);
}

/// A checksum of no bytes is where it started, and each further byte turns it
/// right by one bit, the lowest bit becoming the highest, and is added to it.
pub proof fn law_checksums_turn_and_add(short: u16, word: u32, data: Seq<u8>, byte: u8)
    ensures
        bytes::sum16(short, Seq::empty()) == short,
        bytes::sum32(word, Seq::empty()) == word,
        bytes::sum16(short, data.push(byte)) == (bytes::sum16(short, data) as int / 2 + 0x8000 * (
        bytes::sum16(short, data) as int % 2) + byte) % 0x1_0000,
        bytes::sum32(word, data.push(byte)) == (bytes::sum32(word, data) as int / 2 + 0x8000_0000
            * (bytes::sum32(word, data) as int % 2) + byte) % 0x1_0000_0000,
{
    assert(data.push(byte).drop_last() =~= data);
}

/// Extending a 32-bit checksum by two runs of bytes, one after the other, is
/// extending it by both at once.
pub proof fn lemma_sum32_concat(sum: u32, head: Seq<u8>, tail: Seq<u8>)
    ensures
        bytes::sum32(sum, head + tail) == bytes::sum32(bytes::sum32(sum, head), tail),
    decreases tail.len(),
{
    if tail.len() == 0 {
        assert(head + tail =~= head);
    } else {
        assert((head + tail).drop_last() =~= head + tail.drop_last());
        lemma_sum32_concat(sum, head, tail.drop_last());
    }
}

/// Different checksums stay different when the same bytes are added.
pub proof fn lemma_sums_stay_apart(a: u32, b: u32, data: Seq<u8>)
    requires
        a != b,
    ensures
        bytes::sum32(a, data) != bytes::sum32(b, data),
    decreases data.len(),
{
    if data.len() > 0 {
        lemma_sums_stay_apart(a, b, data.drop_last());
        let x = bytes::sum32(a, data.drop_last());
        let y = bytes::sum32(b, data.drop_last());
        let p = x as int / 2 + 0x8000_0000 * (x as int % 2);
        let q = y as int / 2 + 0x8000_0000 * (y as int % 2);
        assert(p != q && 0 <= p < 0x1_0000_0000 && 0 <= q < 0x1_0000_0000);
        assert((p + data.last()) % 0x1_0000_0000 != (q + data.last()) % 0x1_0000_0000);
    }
}

/// Different 16-bit checksums stay different when the same bytes are added.
pub proof fn lemma_short_sums_stay_apart(a: u16, b: u16, data: Seq<u8>)
    requires
        a != b,
    ensures
        bytes::sum16(a, data) != bytes::sum16(b, data),
    decreases data.len(),
{
    if data.len() > 0 {
        lemma_short_sums_stay_apart(a, b, data.drop_last());
        let x = bytes::sum16(a, data.drop_last());
        let y = bytes::sum16(b, data.drop_last());
        let p = x as int / 2 + 0x8000 * (x as int % 2);
        let q = y as int / 2 + 0x8000 * (y as int % 2);
        assert(p != q && 0 <= p < 0x1_0000 && 0 <= q < 0x1_0000);
        assert((p + data.last()) % 0x1_0000 != (q + data.last()) % 0x1_0000);
    }
}

/// Different bytes, added to one checksum, give different ones.
proof fn lemma_addends_count(p: int, a: u8, b: u8, limit: int)
    requires
        0 <= p < limit,
        a != b,
        limit > 256,
    ensures
        (p + a) % limit != (p + b) % limit,
{
    let x = if p + a < limit {
        p + a
    } else {
        p + a - limit
    };
    let y = if p + b < limit {
        p + b
    } else {
        p + b - limit
    };
    vstd::arithmetic::div_mod::lemma_fundamental_div_mod_converse(
        p + a,
        limit,
        if p + a < limit {
            0
        } else {
            1
        },
        x,
    );
    vstd::arithmetic::div_mod::lemma_fundamental_div_mod_converse(
        p + b,
        limit,
        if p + b < limit {
            0
        } else {
            1
        },
        y,
    );
}

/// Checksums that differ in the last byte differ.
proof fn lemma_last_byte_counts(short: u16, word: u32, head: Seq<u8>, a: u8, b: u8)
    requires
        a != b,
    ensures
        bytes::sum16(short, head.push(a)) != bytes::sum16(short, head.push(b)),
        bytes::sum32(word, head.push(a)) != bytes::sum32(word, head.push(b)),
{
    law_checksums_turn_and_add(short, word, head, a);
    law_checksums_turn_and_add(short, word, head, b);
    let x = bytes::sum16(short, head) as int;
    let y = bytes::sum32(word, head) as int;
    let p = x / 2 + 0x8000 * (x % 2);
    let q = y / 2 + 0x8000_0000 * (y % 2);
    assert(0 <= p < 0x1_0000 && 0 <= q < 0x1_0000_0000);
    lemma_addends_count(p, a, b, 0x1_0000);
    lemma_addends_count(q, a, b, 0x1_0000_0000);
}

/// One changed byte changes the checksum, wherever it stands.
pub proof fn law_changed_byte_changes_the_checksum(
    short: u16,
    word: u32,
    data: Seq<u8>,
    at: int,
    byte: u8,
)
    requires
        0 <= at < data.len(),
        data[at] != byte,
    ensures
        bytes::sum16(short, data.update(at, byte)) != bytes::sum16(short, data),
        bytes::sum32(word, data.update(at, byte)) != bytes::sum32(word, data),
{
    let head = data.take(at);
    let tail = data.skip(at + 1);
    let other = data.update(at, byte);
    assert(data =~= head.push(data[at]) + tail);
    assert(other =~= head.push(byte) + tail);
    lemma_last_byte_counts(short, word, head, data[at], byte);
    assert(bytes::sum16(short, other) != bytes::sum16(short, data)) by {
        bytes::lemma_sum16_concat(short, head.push(data[at]), tail);
        bytes::lemma_sum16_concat(short, head.push(byte), tail);
        lemma_short_sums_stay_apart(
            bytes::sum16(short, head.push(data[at])),
            bytes::sum16(short, head.push(byte)),
            tail,
        );
    }
    assert(bytes::sum32(word, other) != bytes::sum32(word, data)) by {
        lemma_sum32_concat(word, head.push(data[at]), tail);
        lemma_sum32_concat(word, head.push(byte), tail);
        lemma_sums_stay_apart(
            bytes::sum32(word, head.push(data[at])),
            bytes::sum32(word, head.push(byte)),
            tail,
        );
    }
}

} // verus!
