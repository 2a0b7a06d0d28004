//! The bytes of an entry set, one by one.

use crate::bytes;
use crate::device::Media;
use crate::directory::codec;
use crate::directory::entry;
use crate::directory::entry::EntryModel;
use crate::directory::slots::{EntryLocator, Slot};
use crate::error::Error;
use crate::fs::file::FileModel;
use crate::fs::metadata;
use crate::fs::metadata::SetModel;
use crate::fs::names;
use crate::laws::decoding;
use crate::laws::entries;
use crate::laws::folding;
use crate::laws::sets;
use crate::laws::writing;
use crate::laws::yielding;
use crate::mount::Volume;
use vstd::prelude::*;

verus! {

/// The bytes of the first `n` slots of `x`, one slot after the other.
pub open spec fn joined(x: Seq<Slot>, n: nat) -> Seq<u8> {
    Seq::new(32 * n, |i: int| x[i / 32].raw[i % 32])
}

/// The checksum of a set is that of all its bytes in order, but for bytes 2 and
/// 3, which hold the checksum itself.
pub proof fn law_set_checksum_covers_every_byte(x: Seq<Slot>, n: nat)
    requires
        1 <= n <= x.len(),
        forall|i: int| 0 <= i < n ==> (#[trigger] x[i]).raw.len() == 32,
    ensures
        sets::run_sum(x, n) == bytes::sum16(0, joined(x, n).take(2) + joined(x, n).skip(4)),
    decreases n,
{
    let all = joined(x, n);
    let raw = x[n - 1].raw;
    assert(raw.len() == 32);
    if n == 1 {
        reveal_with_fuel(sets::run_sum, 2);
        assert(all =~= raw);
    } else {
        let p = (n - 1) as nat;
        let before = joined(x, p);
        law_set_checksum_covers_every_byte(x, p);
        assert forall|i: int| 32 * p <= i < 32 * n implies #[trigger] all[i] == raw[i - 32 * p] by {
            assert(i / 32 == p && i % 32 == i - 32 * p);
        }
        assert(all =~= before + raw);
        assert(all.take(2) + all.skip(4) =~= before.take(2) + before.skip(4) + raw);
        bytes::lemma_sum16_concat(0, before.take(2) + before.skip(4), raw);
    }
}

/// Whether the slots `x` are a complete entry set, by its bytes: a primary entry
/// that counts the others, a stream extension, as many name entries as the
/// length of the name asks for, and the checksum of it all.
pub open spec fn is_complete(x: Seq<Slot>) -> bool {
    let n = x.len();
    &&& 3 <= n <= 19
    &&& forall|i: int| 0 <= i < n ==> (#[trigger] x[i]).raw.len() == 32
    &&& x[0].raw[0] == 0x85
    &&& x[0].raw[1] == n - 1
    &&& x[1].raw[0] == 0xc0
    &&& forall|i: int| 2 <= i < n ==> (#[trigger] x[i]).raw[0] == 0xc1
    &&& 1 <= x[1].raw[3]
    &&& 15 * (n - 3) < x[1].raw[3] <= 15 * (n - 2)
    &&& bytes::u64_at(x[1].raw, 8) <= bytes::u64_at(x[1].raw, 24)
    &&& bytes::u64_at(x[1].raw, 24) == 0 || bytes::u32_at(x[1].raw, 20) >= 2
    &&& x[1].raw[1] == 1 || x[1].raw[1] == 3 || (x[1].raw[1] == 0 && bytes::u64_at(x[1].raw, 24)
        == 0 && bytes::u32_at(x[1].raw, 20) == 0)
    &&& bytes::u16_at(x[0].raw, 2) == bytes::sum16(0, joined(x, n).take(2) + joined(x, n).skip(4))
}

/// A set is complete by its bytes where it is complete for a decoder.
pub proof fn lemma_complete(x: Seq<Slot>)
    ensures
        is_complete(x) <==> sets::is_set(x),
{
    if sets::is_shaped(x) {
        law_set_checksum_covers_every_byte(x, x.len());
    } else if is_complete(x) {
        assert(sets::is_shaped(x));
    }
}

/// Whether `found` is what the bytes of the set `x` say, field by field: in the
/// primary entry the attributes at byte 4, the times of creation, modification
/// and access at bytes 8, 12 and 16, their hundredths at bytes 20 and 21 and
/// their offsets from UTC at bytes 22, 23 and 24; in the stream extension the
/// flags at byte 1, the length of the name at byte 3, the visible length at
/// byte 8, the first cluster at byte 20 and the allocated length at byte 24;
/// and fifteen units of the name from byte 2 on in each name entry.
pub open spec fn is_recorded(x: Seq<Slot>, found: EntryModel) -> bool {
    let primary = x[0].raw;
    let stream = x[1].raw;
    &&& found.is_directory == (primary[4] / 16 % 2 == 1)
    &&& found.created.date_time == bytes::u32_at(primary, 8)
    &&& found.modified.date_time == bytes::u32_at(primary, 12)
    &&& found.accessed.date_time == bytes::u32_at(primary, 16)
    &&& found.created.ten_millis == primary[20]
    &&& found.modified.ten_millis == primary[21]
    &&& found.accessed.ten_millis == 0
    &&& found.created.utc_offset == primary[22]
    &&& found.modified.utc_offset == primary[23]
    &&& found.accessed.utc_offset == primary[24]
    &&& found.no_fat_chain == (stream[1] / 2 % 2 == 1)
    &&& found.valid_length == bytes::u64_at(stream, 8)
    &&& found.first_cluster == bytes::u32_at(stream, 20)
    &&& found.data_length == bytes::u64_at(stream, 24)
    &&& found.name.len() == stream[3]
    &&& forall|j: int|
        0 <= j < found.name.len() ==> #[trigger] found.name[j] == bytes::u16_at(
            x[2 + j / 15].raw,
            2 + 2 * (j % 15),
        )
    &&& found.primary == x[0].at
    &&& found.stream == x[1].at
    &&& found.locs.len() == x.len()
    &&& forall|i: int| 0 <= i < x.len() ==> #[trigger] found.locs[i] == x[i].at
}

/// An entry that a directory yields is what the bytes of a complete set say: the
/// set ends with the slot that yields it, and each field of the entry is read
/// from its own place in the set.
pub proof fn law_yielded_fields_are_recorded(slots: Seq<Slot>, k: nat, found: EntryModel) -> (p: int)
    requires
        k < slots.len(),
        decoding::clean(entry::idle_decoder(), slots, k + 1),
        entries::reply(entry::idle_decoder(), slots, k) == Some(Some(found)),
        forall|i: int| 0 <= i < slots.len() ==> (#[trigger] slots[i]).raw.len() == 32,
    ensures
        0 <= p <= k,
        is_complete(slots.subrange(p, k as int + 1)),
        is_recorded(slots.subrange(p, k as int + 1), found),
        found.created.date_time == bytes::u32_at(slots[p].raw, 8),
        found.modified.date_time == bytes::u32_at(slots[p].raw, 12),
        found.accessed.date_time == bytes::u32_at(slots[p].raw, 16),
        found.created.ten_millis == slots[p].raw[20],
        found.modified.ten_millis == slots[p].raw[21],
        found.accessed.ten_millis == 0,
        found.created.utc_offset == slots[p].raw[22],
        found.modified.utc_offset == slots[p].raw[23],
        found.accessed.utc_offset == slots[p].raw[24],
{
    let p = yielding::law_yielded_entry_is_a_set(slots, k, found);
    let x = slots.subrange(p, k as int + 1);
    lemma_complete(x);
    lemma_recorded(x, found);
    p
}

/// What a set describes is what its bytes say.
pub proof fn lemma_recorded(x: Seq<Slot>, found: EntryModel)
    requires
        sets::is_set(x),
        yielding::is_described_by(x, found),
    ensures
        is_recorded(x, found),
{
    assert forall|j: int| 0 <= j < found.name.len() implies #[trigger] found.name[j]
        == bytes::u16_at(x[2 + j / 15].raw, 2 + 2 * (j % 15)) by {
        assert(found.name[j] == yielding::name_unit(x, j));
    }
}

/// A set that is complete by its bytes is yielded, with its last entry, and what
/// is yielded is what the bytes say.
pub proof fn law_complete_set_is_yielded(x: Seq<Slot>)
    requires
        is_complete(x),
    ensures
        forall|k: nat|
            k < x.len() - 1 ==> #[trigger] entries::reply(entry::idle_decoder(), x, k) == Some(
                None::<EntryModel>,
            ),
        match entries::reply(entry::idle_decoder(), x, (x.len() - 1) as nat) {
            Some(Some(found)) => is_recorded(x, found),
            _ => false,
        },
{
    let idle = entry::idle_decoder();
    lemma_complete(x);
    assert forall|k: nat| k < x.len() - 1 implies #[trigger] entries::reply(idle, x, k) == Some(
        None::<EntryModel>,
    ) by {
        sets::lemma_set_states(x, idle, k + 1);
    }
    sets::lemma_set_states(x, idle, x.len());
    sets::lemma_decoded(x, x.len());
    yielding::lemma_set_described(x);
    lemma_recorded(x, sets::entry_of(x));
}

/// Each byte of a new primary entry.
proof fn lemma_primary_bytes(s: SetModel, sum: u16)
    requires
        1 <= s.name.len() <= 255,
    ensures
        ({
            let raw = bytes::splice(metadata::primary_entry(s), 2, bytes::le16(sum));
            &&& raw.len() == 32
            &&& raw[0] == 0x85
            &&& 15 * raw[1] - 29 <= s.name.len() <= 15 * raw[1] - 15
            &&& bytes::u16_at(raw, 2) == sum
            &&& bytes::u16_at(raw, 4) == s.attributes
            &&& bytes::u32_at(raw, 8) == s.created.date_time
            &&& bytes::u32_at(raw, 12) == s.modified.date_time
            &&& bytes::u32_at(raw, 16) == s.accessed.date_time
            &&& raw[20] == s.created.ten_millis
            &&& raw[21] == s.modified.ten_millis
            &&& raw[22] == s.created.utc_offset
            &&& raw[23] == s.modified.utc_offset
            &&& raw[24] == s.accessed.utc_offset
            &&& raw[6] == 0 && raw[7] == 0
            &&& forall|i: int| 25 <= i < 32 ==> #[trigger] raw[i] == 0
        }),
{
    let raw = bytes::splice(metadata::primary_entry(s), 2, bytes::le16(sum));
    assert(raw.subrange(2, 4) =~= bytes::le16(sum));
    bytes::lemma_le16_reads_back(raw, 2, sum);
    assert(raw.subrange(4, 6) =~= bytes::le16(s.attributes));
    bytes::lemma_le16_reads_back(raw, 4, s.attributes);
    assert(raw.subrange(8, 12) =~= bytes::le32(s.created.date_time));
    bytes::lemma_le32_reads_back(raw, 8, s.created.date_time);
    assert(raw.subrange(12, 16) =~= bytes::le32(s.modified.date_time));
    bytes::lemma_le32_reads_back(raw, 12, s.modified.date_time);
    assert(raw.subrange(16, 20) =~= bytes::le32(s.accessed.date_time));
    bytes::lemma_le32_reads_back(raw, 16, s.accessed.date_time);
}

/// Each byte of a new stream extension.
proof fn lemma_stream_bytes(s: SetModel, hash: u16)
    requires
        1 <= s.name.len() <= 255,
    ensures
        ({
            let raw = metadata::stream_entry(s, hash);
            &&& raw.len() == 32
            &&& raw[0] == 0xc0
            &&& raw[1] == if s.no_fat_chain {
                3u8
            } else {
                1u8
            }
            &&& raw[2] == 0
            &&& raw[3] == s.name.len()
            &&& bytes::u16_at(raw, 4) == hash
            &&& raw[6] == 0 && raw[7] == 0
            &&& bytes::u64_at(raw, 8) == s.valid_length
            &&& raw[16] == 0 && raw[17] == 0 && raw[18] == 0 && raw[19] == 0
            &&& bytes::u32_at(raw, 20) == s.first_cluster
            &&& bytes::u64_at(raw, 24) == s.data_length
        }),
{
    let raw = metadata::stream_entry(s, hash);
    assert(raw.subrange(4, 6) =~= bytes::le16(hash));
    bytes::lemma_le16_reads_back(raw, 4, hash);
    assert(raw.subrange(8, 16) =~= bytes::le64(s.valid_length));
    bytes::lemma_le64_reads_back(raw, 8, s.valid_length);
    assert(raw.subrange(20, 24) =~= bytes::le32(s.first_cluster));
    bytes::lemma_le32_reads_back(raw, 20, s.first_cluster);
    assert(raw.subrange(24, 32) =~= bytes::le64(s.data_length));
    bytes::lemma_le64_reads_back(raw, 24, s.data_length);
}

/// The bytes that a written set leaves on the media, each at its own place: those
/// of the primary entry, of the stream extension with the hash of the name, and
/// of the name entries, with zeros behind the last unit. The checksum is that of
/// all the bytes but its own two.
pub proof fn law_written_set_byte_by_byte<E>(
    v: Volume,
    m: Media,
    free: u32,
    locs: Seq<EntryLocator>,
    s: SetModel,
    hash: u16,
)
    requires
        writing::are_apart(v.geometry, m, locs),
        1 <= s.name.len() <= 255,
        15 * (locs.len() - 3) < s.name.len() <= 15 * (locs.len() - 2),
        s.valid_length <= s.data_length,
        s.data_length == 0 || s.first_cluster >= 2,
        names::name_hash(v, m, s.name) == Some(hash),
    ensures
        ({
            let m2 = metadata::write_set_plan::<E>(v, m, free, locs, s).leaves(m);
            let x = writing::held(m2, locs);
            let primary = m2[locs[0].lba].subrange(locs[0].offset as int, locs[0].offset + 32);
            let stream = m2[locs[1].lba].subrange(locs[1].offset as int, locs[1].offset + 32);
            &&& primary[0] == 0x85
            &&& primary[1] == locs.len() - 1
            &&& bytes::u16_at(primary, 2) == bytes::sum16(
                0,
                joined(x, x.len()).take(2) + joined(x, x.len()).skip(4),
            )
            &&& bytes::u16_at(primary, 4) == s.attributes
            &&& bytes::u32_at(primary, 8) == s.created.date_time
            &&& bytes::u32_at(primary, 12) == s.modified.date_time
            &&& bytes::u32_at(primary, 16) == s.accessed.date_time
            &&& primary[20] == s.created.ten_millis
            &&& primary[21] == s.modified.ten_millis
            &&& primary[22] == s.created.utc_offset
            &&& primary[23] == s.modified.utc_offset
            &&& primary[24] == s.accessed.utc_offset
            &&& primary[6] == 0 && primary[7] == 0
            &&& forall|i: int| 25 <= i < 32 ==> #[trigger] primary[i] == 0
            &&& stream[0] == 0xc0
            &&& stream[1] == if s.no_fat_chain {
                3u8
            } else {
                1u8
            }
            &&& stream[2] == 0
            &&& stream[3] == s.name.len()
            &&& bytes::u16_at(stream, 4) == hash
            &&& stream[6] == 0 && stream[7] == 0
            &&& bytes::u64_at(stream, 8) == s.valid_length
            &&& stream[16] == 0 && stream[17] == 0 && stream[18] == 0 && stream[19] == 0
            &&& bytes::u32_at(stream, 20) == s.first_cluster
            &&& bytes::u64_at(stream, 24) == s.data_length
        }),
{
    let n = locs.len();
    writing::lemma_set_written::<E>(v, m, free, locs, s, hash);
    let m2 = metadata::write_set_plan::<E>(v, m, free, locs, s).leaves(m);
    let x = writing::held(m2, locs);
    assert(x == entries::set_slots(s, hash, locs));
    assert(x[0].raw == entries::sealed_entry(s, hash, n, 0));
    assert(x[1].raw == entries::sealed_entry(s, hash, n, 1));
    assert(x[0].raw == m2[locs[0].lba].subrange(locs[0].offset as int, locs[0].offset + 32));
    assert(x[1].raw == m2[locs[1].lba].subrange(locs[1].offset as int, locs[1].offset + 32));
    lemma_primary_bytes(s, metadata::new_sum(s, hash, n));
    lemma_stream_bytes(s, hash);
    assert forall|i: int| 0 <= i < n implies (#[trigger] x[i]).raw.len() == 32 by {
        entries::lemma_entry_size(s, hash, i);
        assert(x[i].raw == entries::sealed_entry(s, hash, n, i));
    }
    lemma_new_sum(s, hash, locs, n);
    law_set_checksum_covers_every_byte(x, n);
}

/// The checksum of a new set is that of its sealed entries.
proof fn lemma_new_sum(s: SetModel, hash: u16, locs: Seq<EntryLocator>, n: nat)
    requires
        n <= locs.len(),
        locs.len() == entries::entry_count(s),
        entries::is_writable(s),
    ensures
        sets::run_sum(entries::set_slots(s, hash, locs), n) == metadata::new_sum(s, hash, n),
    decreases n,
{
    let x = entries::set_slots(s, hash, locs);
    if n > 0 {
        lemma_new_sum(s, hash, locs, (n - 1) as nat);
        assert(x[n - 1].raw == entries::sealed_entry(s, hash, locs.len(), n - 1));
        if n == 1 {
            let sum = bytes::le16(metadata::new_sum(s, hash, locs.len()));
            metadata::lemma_entry_len(s, hash, 0);
            entries::law_checksum_leaves_itself_out(0, metadata::primary_entry(s), sum);
        }
    }
}

/// The name entries that a written set leaves on the media: entry number `k`
/// holds the fifteen units from number `15 * (k - 2)` on, low byte first, and
/// zeros where the name has ended.
pub proof fn law_written_name_unit_by_unit<E>(
    v: Volume,
    m: Media,
    free: u32,
    locs: Seq<EntryLocator>,
    s: SetModel,
    hash: u16,
    k: int,
    i: int,
)
    requires
        writing::are_apart(v.geometry, m, locs),
        1 <= s.name.len() <= 255,
        15 * (locs.len() - 3) < s.name.len() <= 15 * (locs.len() - 2),
        s.valid_length <= s.data_length,
        s.data_length == 0 || s.first_cluster >= 2,
        names::name_hash(v, m, s.name) == Some(hash),
        2 <= k < locs.len(),
        0 <= i < 15,
    ensures
        ({
            let m2 = metadata::write_set_plan::<E>(v, m, free, locs, s).leaves(m);
            let raw = m2[locs[k].lba].subrange(locs[k].offset as int, locs[k].offset + 32);
            let unit = 15 * (k - 2) + i;
            &&& raw[0] == 0xc1
            &&& raw[1] == 0
            &&& bytes::u16_at(raw, 2 + 2 * i) == if unit < s.name.len() {
                s.name[unit]
            } else {
                0
            }
        }),
{
    let n = locs.len();
    writing::lemma_set_written::<E>(v, m, free, locs, s, hash);
    let m2 = metadata::write_set_plan::<E>(v, m, free, locs, s).leaves(m);
    let x = writing::held(m2, locs);
    assert(x == entries::set_slots(s, hash, locs));
    assert(x[k].raw == entries::sealed_entry(s, hash, n, k));
    assert(x[k].raw == metadata::name_entry(s.name, 15 * (k - 2)));
    let raw = x[k].raw;
    assert((2 * i) / 2 == i && (2 * i + 1) / 2 == i);
    assert((2 + 2 * i) % 2 == 0 && (2 + 2 * i + 1) % 2 == 1);
    assert(raw[2 + 2 * i] == metadata::name_entry_byte(s.name, 15 * (k - 2), 2 + 2 * i));
    assert(raw[2 + 2 * i + 1] == metadata::name_entry_byte(s.name, 15 * (k - 2), 2 + 2 * i + 1));
}

/// What recording a file's lengths leaves of its stream extension: the flags, the
/// visible length, the first cluster and the allocated length of the handle, each
/// at its own place, and every other byte as it was.
pub proof fn law_recorded_stream_byte_by_byte(sector: Seq<u8>, at: int, f: FileModel)
    requires
        0 <= at,
        at + 32 <= sector.len(),
    ensures
        ({
            let new = metadata::stream_patched(sector, at, f);
            &&& new.len() == sector.len()
            &&& new[at + 1] == if f.no_fat_chain {
                3u8
            } else {
                1u8
            }
            &&& bytes::u64_at(new, at + 8) == f.valid_length
            &&& bytes::u32_at(new, at + 20) == f.first_cluster
            &&& bytes::u64_at(new, at + 24) == f.data_length
            &&& forall|i: int|
                0 <= i < sector.len() && i != at + 1 && !(at + 8 <= i < at + 16) && !(at + 20 <= i
                    < at + 32) ==> #[trigger] new[i] == sector[i]
        }),
{
    let new = metadata::stream_patched(sector, at, f);
    assert(new.subrange(at + 8, at + 16) =~= bytes::le64(f.valid_length));
    bytes::lemma_le64_reads_back(new, at + 8, f.valid_length);
    assert(new.subrange(at + 20, at + 24) =~= bytes::le32(f.first_cluster));
    bytes::lemma_le32_reads_back(new, at + 20, f.first_cluster);
    assert(new.subrange(at + 24, at + 32) =~= bytes::le64(f.data_length));
    bytes::lemma_le64_reads_back(new, at + 24, f.data_length);
}

/// An entry-set checksum takes every byte of an entry in order, but for bytes 2
/// and 3 of a primary entry.
pub proof fn law_checksum_step_takes_every_byte(sum: u16, data: Seq<u8>, primary: bool)
    requires
        data.len() >= 4,
    ensures
        codec::entry_sum(sum, data, false) == bytes::sum16(sum, data),
        codec::entry_sum(sum, data, true) == bytes::sum16(
            bytes::sum16(sum, seq![data[0], data[1]]),
            data.skip(4),
        ),
{
    assert(data.take(2) =~= seq![data[0], data[1]]);
    bytes::lemma_sum16_concat(sum, data.take(2), data.skip(4));
}

/// A set is written only where the slots are as many as its name needs, between 3
/// and 19, and all of them lie within sectors; else nothing of it may be written.
pub proof fn law_misfit_set_is_refused<E>(
    v: Volume,
    m: Media,
    free: u32,
    locs: Seq<EntryLocator>,
    s: SetModel,
)
    requires
        s.name.len() <= 255,
        !(3 <= locs.len() <= 19) || !(15 * (locs.len() - 3) < s.name.len() <= 15 * (locs.len()
            - 2)) || names::name_hash(v, m, s.name) is None,
    ensures
        metadata::write_set_plan::<E>(v, m, free, locs, s).result == Err::<(), Error<E>>(
            Error::Corrupt,
        ),
        metadata::write_set_plan::<E>(v, m, free, locs, s).writes.len() == 0,
{
}

/// The hash that a written set records at byte 4 of its stream extension is the
/// 16-bit checksum of the whole upper-case name, two bytes for every unit, the low
/// one first.
pub proof fn law_recorded_hash_covers_the_name<E>(
    v: Volume,
    m: Media,
    free: u32,
    locs: Seq<EntryLocator>,
    s: SetModel,
    data: Seq<u8>,
)
    requires
        writing::are_apart(v.geometry, m, locs),
        1 <= s.name.len() <= 255,
        15 * (locs.len() - 3) < s.name.len() <= 15 * (locs.len() - 2),
        s.valid_length <= s.data_length,
        s.data_length == 0 || s.first_cluster >= 2,
        data.len() == 2 * s.name.len(),
        forall|i: int|
            0 <= i < s.name.len() ==> match names::upcase(v, m, #[trigger] s.name[i]) {
                Some(unit) => data[2 * i] + 256 * data[2 * i + 1] == unit,
                None => false,
            },
    ensures
        ({
            let m2 = metadata::write_set_plan::<E>(v, m, free, locs, s).leaves(m);
            let stream = m2[locs[1].lba].subrange(locs[1].offset as int, locs[1].offset + 32);
            bytes::u16_at(stream, 4) == bytes::sum16(0, data)
        }),
{
    folding::law_hash_covers_every_byte(v, m, s.name, data);
    law_written_set_byte_by_byte::<E>(v, m, free, locs, s, bytes::sum16(0, data));
}

} // verus!
