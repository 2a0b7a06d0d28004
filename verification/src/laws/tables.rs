//! GUID partition tables and the CRC-32 that guards them.

use crate::bytes;
use crate::device::Media;
use crate::error::Error;
use crate::mount::crc;
use crate::mount::partition;
use crate::mount::partition::EntryTable;
use vstd::prelude::*;

verus! {

/// Whether a CRC-32 register goes from `a` to `b` in one bit: it is shifted
/// right, and where the bit that falls out is set the reversed polynomial
/// `0xedb8_8320` is taken off.
pub open spec fn shifts_to(a: u32, b: u32) -> bool {
    b == if a % 2 == 1 {
        (a / 2) as u32 ^ 0xedb8_8320
    } else {
        (a / 2) as u32
    }
}

/// One bit of a CRC-32.
proof fn lemma_shift(a: u32)
    ensures
        shifts_to(a, crc::crc_bit(a)),
{
    assert((a & 1 != 0) <==> (a % 2 == 1)) by (bit_vector);
    assert(a >> 1 == a / 2) by (bit_vector);
}

/// The CRC-32 register takes a byte by adding it, without carries, to the low
/// end and going on by eight bits; it starts with all bits set, and the CRC-32
/// is its complement.
pub proof fn law_crc_takes_eight_bits_a_byte(state: u32, data: Seq<u8>, byte: u8, r: Seq<u32>)
    requires
        r.len() == 9,
        r[0] == crc::crc_register(state, data) ^ (byte as u32),
        forall|i: int| 0 <= i < 8 ==> shifts_to(#[trigger] r[i], r[i + 1]),
    ensures
        crc::crc_register(state, Seq::empty()) == state,
        crc::crc_register(state, data.push(byte)) == r[8],
        crc::crc_of(data) == crc::crc_register(0xffff_ffff, data) ^ 0xffff_ffff,
{
    assert(data.push(byte).drop_last() =~= data);
    lemma_eight_bits(r, 8);
}

/// The register after some bits.
proof fn lemma_eight_bits(r: Seq<u32>, n: nat)
    requires
        r.len() == 9,
        n <= 8,
        forall|i: int| 0 <= i < 8 ==> shifts_to(#[trigger] r[i], r[i + 1]),
    ensures
        crc::crc_bits(r[0], n) == r[n as int],
    decreases n,
{
    if n > 0 {
        lemma_eight_bits(r, (n - 1) as nat);
        lemma_shift(r[n - 1]);
        assert(shifts_to(r[n - 1], r[n - 1 + 1]));
    }
}

/// The register over two runs of bytes.
proof fn lemma_register_concat(state: u32, head: Seq<u8>, tail: Seq<u8>)
    ensures
        crc::crc_register(state, head + tail) == crc::crc_register(
            crc::crc_register(state, head),
            tail,
        ),
    decreases tail.len(),
{
    if tail.len() == 0 {
        assert(head + tail =~= head);
    } else {
        assert((head + tail).drop_last() =~= head + tail.drop_last());
        lemma_register_concat(state, head, tail.drop_last());
    }
}

/// One bit keeps registers apart.
proof fn lemma_bit_apart(a: u32, b: u32)
    requires
        a != b,
    ensures
        crc::crc_bit(a) != crc::crc_bit(b),
{
    assert((if a & 1 != 0 {
        (a >> 1) ^ 0xedb8_8320
    } else {
        a >> 1
    }) != (if b & 1 != 0 {
        (b >> 1) ^ 0xedb8_8320
    } else {
        b >> 1
    })) by (bit_vector)
        requires
            a != b,
    ;
}

/// Bits keep registers apart.
proof fn lemma_bits_apart(a: u32, b: u32, n: nat)
    requires
        a != b,
    ensures
        crc::crc_bits(a, n) != crc::crc_bits(b, n),
    decreases n,
{
    if n > 0 {
        lemma_bits_apart(a, b, (n - 1) as nat);
        lemma_bit_apart(crc::crc_bits(a, (n - 1) as nat), crc::crc_bits(b, (n - 1) as nat));
    }
}

/// Bytes keep registers apart.
proof fn lemma_registers_apart(a: u32, b: u32, data: Seq<u8>)
    requires
        a != b,
    ensures
        crc::crc_register(a, data) != crc::crc_register(b, data),
    decreases data.len(),
{
    if data.len() > 0 {
        lemma_registers_apart(a, b, data.drop_last());
        let x = crc::crc_register(a, data.drop_last());
        let y = crc::crc_register(b, data.drop_last());
        let z = data.last() as u32;
        assert(x ^ z != y ^ z) by (bit_vector)
            requires
                x != y,
        ;
        lemma_bits_apart(x ^ z, y ^ z, 8);
    }
}

/// One changed byte changes the CRC-32, wherever it stands.
pub proof fn law_changed_byte_changes_the_crc(data: Seq<u8>, at: int, byte: u8)
    requires
        0 <= at < data.len(),
        data[at] != byte,
    ensures
        crc::crc_of(data.update(at, byte)) != crc::crc_of(data),
{
    let start = 0xffff_ffffu32;
    let head = data.take(at);
    let tail = data.skip(at + 1);
    let other = data.update(at, byte);
    assert(data =~= head.push(data[at]) + tail);
    assert(other =~= head.push(byte) + tail);
    assert(head.push(data[at]).drop_last() =~= head);
    assert(head.push(byte).drop_last() =~= head);
    let x = crc::crc_register(start, head);
    let a = data[at];
    assert(x ^ (a as u32) != x ^ (byte as u32)) by (bit_vector)
        requires
            a != byte,
    ;
    lemma_bits_apart(x ^ (a as u32), x ^ (byte as u32), 8);
    lemma_register_concat(start, head.push(a), tail);
    lemma_register_concat(start, head.push(byte), tail);
    lemma_registers_apart(
        crc::crc_register(start, head.push(a)),
        crc::crc_register(start, head.push(byte)),
        tail,
    );
    let p = crc::crc_register(start, data);
    let q = crc::crc_register(start, other);
    assert(p ^ 0xffff_ffff != q ^ 0xffff_ffff) by (bit_vector)
        requires
            p != q,
    ;
}

/// The bytes of the entries of a GUID partition table, one sector after another
/// from `lba` on.
pub open spec fn entry_bytes(media: Media, lba: u64, count: nat, size: nat) -> Seq<u8> {
    Seq::new(count, |i: int| media[(lba + i / (size as int)) as u64][i % (size as int)])
}

/// The register after the first sectors of a table.
proof fn lemma_table_register(table: EntryTable, media: Media, size: nat, k: nat)
    requires
        size > 0,
        k * size < table.bytes + size,
        forall|i: int| 0 <= i < k ==> #[trigger] media[(table.lba + i) as u64].len() == size,
    ensures
        table.register(media, size, k) == crc::crc_register(
            0xffff_ffff,
            entry_bytes(media, table.lba, table.bytes, size).take(
                if k * size < table.bytes {
                    k * size as int
                } else {
                    table.bytes as int
                },
            ),
        ),
    decreases k,
{
    let all = entry_bytes(media, table.lba, table.bytes, size);
    if k == 0 {
        assert(0 * size == 0) by (nonlinear_arith);
        assert(all.take(0) =~= Seq::empty());
    } else {
        let p = (k - 1) as nat;
        assert(k * size == p * size + size) by (nonlinear_arith)
            requires
                k == p + 1,
        ;
        lemma_table_register(table, media, size, p);
        let sector = media[(table.lba + p) as u64];
        assert(sector.len() == size);
        let used = table.usable(size, p as int);
        let head = all.take(p * size as int);
        let whole = all.take(p * size + used);
        assert(p * size < table.bytes);
        assert forall|i: int| p * size <= i < p * size + used implies #[trigger] all[i]
            == sector[i - p * size] by {
            vstd::arithmetic::div_mod::lemma_fundamental_div_mod_converse(
                i,
                size as int,
                p as int,
                i - p * size,
            );
        }
        assert(whole =~= head + sector.take(used));
        lemma_register_concat(0xffff_ffff, head, sector.take(used));
    }
}

/// What the header sector of a GUID partition table must hold: the signature,
/// a size from 92 up to a sector, the CRC-32 of that many bytes with its own
/// four taken for zeros, between 1 and 16384 entries of at least 128 bytes in
/// eights that fit a sector, and a place for them on the device.
pub open spec fn is_header(header: Seq<u8>, size: nat, total: u64) -> bool {
    let length = bytes::u32_at(header, 12) as int;
    let lba = bytes::u64_at(header, 72) as int;
    let count = bytes::u32_at(header, 80) as int;
    let each = bytes::u32_at(header, 84) as int;
    &&& header[0] == 0x45 && header[1] == 0x46 && header[2] == 0x49 && header[3] == 0x20
    &&& header[4] == 0x50 && header[5] == 0x41 && header[6] == 0x52 && header[7] == 0x54
    &&& 92 <= length <= size
    &&& bytes::u32_at(header, 16) == crc::crc_of(
        header.take(16) + seq![0u8, 0u8, 0u8, 0u8] + header.subrange(20, length),
    )
    &&& 1 <= count <= 16384
    &&& 128 <= each <= size
    &&& each % 8 == 0
    &&& lba > 0
    &&& lba + (count * each + size - 1) / (size as int) <= total
}

/// Whether the sixteen bytes from `at` on say that an entry is of a basic data
/// partition.
pub open spec fn is_data_entry(sector: Seq<u8>, at: int) -> bool {
    sector.subrange(at, at + 16) == seq![
        0xa2u8,
        0xa0u8,
        0xd0u8,
        0xebu8,
        0xe5u8,
        0xb9u8,
        0x33u8,
        0x44u8,
        0x87u8,
        0xc0u8,
        0x68u8,
        0xb6u8,
        0xb7u8,
        0x26u8,
        0x99u8,
        0xc7u8,
    ]
}

/// Two ways to say that an entry is of a basic data partition.
proof fn lemma_data_entry(sector: Seq<u8>, at: int)
    requires
        0 <= at,
        at + 16 <= sector.len(),
    ensures
        is_data_entry(sector, at) <==> partition::is_basic_data(sector, at),
{
    let part = sector.subrange(at, at + 16);
    let guid = seq![
        0xa2u8,
        0xa0u8,
        0xd0u8,
        0xebu8,
        0xe5u8,
        0xb9u8,
        0x33u8,
        0x44u8,
        0x87u8,
        0xc0u8,
        0x68u8,
        0xb6u8,
        0xb7u8,
        0x26u8,
        0x99u8,
        0xc7u8,
    ];
    if partition::is_basic_data(sector, at) {
        assert(part =~= guid);
    }
    if part == guid {
        assert(part[0] == 0xa2 && part[1] == 0xa0 && part[2] == 0xd0 && part[3] == 0xeb);
        assert(part[4] == 0xe5 && part[5] == 0xb9 && part[6] == 0x33 && part[7] == 0x44);
        assert(part[8] == 0x87 && part[9] == 0xc0 && part[10] == 0x68 && part[11] == 0xb6);
        assert(part[12] == 0xb7 && part[13] == 0x26 && part[14] == 0x99 && part[15] == 0xc7);
    }
}

/// Whether entry number `e` of sector number `k` is one of the table and is of a
/// basic data partition.
pub open spec fn is_choice(table: EntryTable, media: Media, size: nat, k: int, e: int) -> bool {
    &&& 0 <= k
    &&& 0 <= e
    &&& (e + 1) * table.entry_size <= size
    &&& k * size + e * table.entry_size < table.bytes
    &&& is_data_entry(media[(table.lba + k) as u64], e * table.entry_size)
}

/// The first basic data partition among the entries of a sector from number `e`
/// on.
proof fn lemma_in_sector(table: EntryTable, media: Media, size: nat, k: int, e: int)
    requires
        table.entry_size >= 128,
        media[(table.lba + k) as u64].len() == size,
        0 <= k,
        0 <= e,
        e * table.entry_size <= size,
    ensures
        match table.in_sector(
            media[(table.lba + k) as u64],
            size,
            k,
            (e * table.entry_size) as nat,
        ) {
            Some((first, last)) => exists|x: int|
                {
                    &&& e <= x
                    &&& #[trigger] is_choice(table, media, size, k, x)
                    &&& forall|y: int| e <= y < x ==> !#[trigger] is_choice(table, media, size, k, y)
                    &&& first == bytes::u64_at(
                        media[(table.lba + k) as u64],
                        x * table.entry_size + 32,
                    )
                    &&& last == bytes::u64_at(
                        media[(table.lba + k) as u64],
                        x * table.entry_size + 40,
                    )
                },
            None => forall|y: int| e <= y ==> !#[trigger] is_choice(table, media, size, k, y),
        },
    decreases size - e * table.entry_size,
{
    let data = media[(table.lba + k) as u64];
    let each = table.entry_size as int;
    let at = e * each;
    assert((e + 1) * each == at + each) by (nonlinear_arith)
        requires
            at == e * each,
    ;
    assert(at >= 0) by (nonlinear_arith)
        requires
            at == e * each,
            e >= 0,
            each >= 0,
    ;
    if at + each > size || k * size + at >= table.bytes {
        assert forall|y: int| e <= y implies !#[trigger] is_choice(table, media, size, k, y) by {
            assert((y + 1) * each >= (e + 1) * each && y * each >= e * each) by (nonlinear_arith)
                requires
                    y >= e,
                    each >= 0,
            ;
        }
    } else {
        lemma_data_entry(data, at);
        if partition::is_basic_data(data, at) {
            assert(is_choice(table, media, size, k, e));
        } else {
            lemma_in_sector(table, media, size, k, e + 1);
            let found = table.in_sector(data, size, k, (at + each) as nat);
            assert(table.in_sector(data, size, k, at as nat) == found);
            assert(!is_choice(table, media, size, k, e));
            match found {
                Some((first, last)) => {
                    let x = choose|x: int|
                        {
                            &&& e + 1 <= x
                            &&& #[trigger] is_choice(table, media, size, k, x)
                            &&& forall|y: int|
                                e + 1 <= y < x ==> !#[trigger] is_choice(table, media, size, k, y)
                            &&& first == bytes::u64_at(data, x * table.entry_size + 32)
                            &&& last == bytes::u64_at(data, x * table.entry_size + 40)
                        };
                    assert(is_choice(table, media, size, k, x));
                },
                None => {},
            }
        }
    }
}

/// The first basic data partition among the entries of the first sectors.
proof fn lemma_candidate(table: EntryTable, media: Media, size: nat, n: nat)
    requires
        128 <= table.entry_size,
        forall|i: int| 0 <= i < n ==> #[trigger] media[(table.lba + i) as u64].len() == size,
    ensures
        match table.candidate(media, size, n) {
            Some((first, last)) => exists|k: int, x: int|
                {
                    &&& 0 <= k < n
                    &&& #[trigger] is_choice(table, media, size, k, x)
                    &&& forall|j: int, y: int|
                        j < k || (j == k && y < x) ==> !#[trigger] is_choice(
                            table,
                            media,
                            size,
                            j,
                            y,
                        )
                    &&& first == bytes::u64_at(
                        media[(table.lba + k) as u64],
                        x * table.entry_size + 32,
                    )
                    &&& last == bytes::u64_at(
                        media[(table.lba + k) as u64],
                        x * table.entry_size + 40,
                    )
                },
            None => forall|j: int, y: int|
                j < n ==> !#[trigger] is_choice(table, media, size, j, y),
        },
    decreases n,
{
    if n > 0 {
        let p = (n - 1) as nat;
        lemma_candidate(table, media, size, p);
        assert((table.lba + p) as u64 == (table.lba + n - 1) as u64);
        if table.candidate(media, size, p) is None {
            assert(media[(table.lba + p) as u64].len() == size);
            assert(0 * table.entry_size == 0);
            lemma_in_sector(table, media, size, p as int, 0);
            match table.candidate(media, size, n) {
                Some((first, last)) => {
                    let x = choose|x: int|
                        {
                            &&& 0 <= x
                            &&& #[trigger] is_choice(table, media, size, p as int, x)
                            &&& forall|y: int|
                                0 <= y < x ==> !#[trigger] is_choice(table, media, size, p as int, y)
                            &&& first == bytes::u64_at(
                                media[(table.lba + p) as u64],
                                x * table.entry_size + 32,
                            )
                            &&& last == bytes::u64_at(
                                media[(table.lba + p) as u64],
                                x * table.entry_size + 40,
                            )
                        };
                    assert(is_choice(table, media, size, p as int, x));
                },
                None => {},
            }
        }
    }
}

/// What a GUID partition table says of the exFAT partition: it counts where its
/// header is one and both CRC-32s are right, and then the first entry of a basic
/// data partition names the partition, by its first sector at byte 32 and its
/// last at byte 40, which must be sectors of the device behind the first.
pub proof fn law_guid_table_is_judged<E>(media: Media, size: nat, total: u64)
    requires
        512 <= size <= 4096,
        forall|lba: u64| lba < total ==> #[trigger] media[lba].len() == size,
        total >= 2,
    ensures
        ({
            let header = media[1];
            let table = EntryTable {
                lba: bytes::u64_at(header, 72),
                entry_size: bytes::u32_at(header, 84) as nat,
                bytes: (bytes::u32_at(header, 80) * bytes::u32_at(header, 84)) as nat,
                crc: bytes::u32_at(header, 88),
            };
            let sound = is_header(header, size, total) && bytes::u32_at(header, 88) == crc::crc_of(
                entry_bytes(media, table.lba, table.bytes, size),
            );
            match partition::gpt_result::<E>(media, size, total) {
                Ok(found) => sound && found.sector_count > 0 && found.first_lba > 0
                    && found.first_lba + found.sector_count <= total && exists|k: int, x: int|
                    {
                        &&& #[trigger] is_choice(table, media, size, k, x)
                        &&& forall|j: int, y: int|
                            j < k || (j == k && y < x) ==> !#[trigger] is_choice(
                                table,
                                media,
                                size,
                                j,
                                y,
                            )
                        &&& found.first_lba == bytes::u64_at(
                            media[(table.lba + k) as u64],
                            x * table.entry_size + 32,
                        )
                        &&& found.first_lba + found.sector_count - 1 == bytes::u64_at(
                            media[(table.lba + k) as u64],
                            x * table.entry_size + 40,
                        )
                    },
                Err(error) => if !sound {
                    error == Error::<E>::InvalidGpt
                } else if forall|j: int, y: int| !#[trigger] is_choice(table, media, size, j, y) {
                    error == Error::<E>::PartitionNotFound
                } else {
                    error == Error::<E>::InvalidGpt && exists|k: int, x: int|
                        {
                            let first = bytes::u64_at(
                                media[(table.lba + k) as u64],
                                x * table.entry_size + 32,
                            );
                            let last = bytes::u64_at(
                                media[(table.lba + k) as u64],
                                x * table.entry_size + 40,
                            );
                            &&& #[trigger] is_choice(table, media, size, k, x)
                            &&& forall|j: int, y: int|
                                j < k || (j == k && y < x) ==> !#[trigger] is_choice(
                                    table,
                                    media,
                                    size,
                                    j,
                                    y,
                                )
                            &&& first == 0 || last < first || last >= total
                        }
                },
            }
        }),
{
    let header = media[1];
    assert(header.len() == size);
    let count = bytes::u32_at(header, 80) as int;
    let each = bytes::u32_at(header, 84) as int;
    assert(count * each >= 0) by (nonlinear_arith)
        requires
            count >= 0,
            each >= 0,
    ;
    let table = EntryTable {
        lba: bytes::u64_at(header, 72),
        entry_size: each as nat,
        bytes: (count * each) as nat,
        crc: bytes::u32_at(header, 88),
    };
    lemma_header(header, size, total);
    if partition::gpt_header(header, size, total) is Some {
        let n = table.sectors(size);
        lemma_sector_total(table, size);
        assert forall|i: int| 0 <= i < n implies #[trigger] media[(table.lba + i) as u64].len()
            == size by {}
        lemma_table_register(table, media, size, n);
        let all = entry_bytes(media, table.lba, table.bytes, size);
        assert(all.take(table.bytes as int) =~= all);
        lemma_candidate(table, media, size, n);
        assert forall|j: int, y: int| j >= n implies !#[trigger] is_choice(
            table,
            media,
            size,
            j,
            y,
        ) by {
            assert(j * size >= n * size && y * each >= 0 || y < 0) by (nonlinear_arith)
                requires
                    j >= n,
                    each >= 0,
                    size >= 0,
            ;
        }
    }
}

/// The sectors of a table are enough for its bytes, and none is idle.
proof fn lemma_sector_total(table: EntryTable, size: nat)
    requires
        size > 0,
    ensures
        table.sectors(size) * size >= table.bytes,
        table.sectors(size) * size < table.bytes + size,
{
    let n = table.sectors(size) as int;
    vstd::arithmetic::div_mod::lemma_fundamental_div_mod(table.bytes + size - 1, size as int);
    assert(n * size == size * n) by (nonlinear_arith);
}

/// Two ways to say what a header sector must hold.
proof fn lemma_header(header: Seq<u8>, size: nat, total: u64)
    requires
        header.len() == size,
        512 <= size <= 4096,
    ensures
        is_header(header, size, total) <==> partition::gpt_header(header, size, total) is Some,
{
    let length = bytes::u32_at(header, 12) as int;
    if 92 <= length <= size {
        assert(bytes::splice(header, 16, bytes::filled(4, 0)).take(length) =~= header.take(16)
            + seq![0u8, 0u8, 0u8, 0u8] + header.subrange(20, length));
    }
    let count = bytes::u32_at(header, 80) as int;
    let each = bytes::u32_at(header, 84) as int;
    assert(count * each >= 0) by (nonlinear_arith)
        requires
            count >= 0,
            each >= 0,
    ;
}

} // verus!
