//! What is left on the media of an entry set that was changed or retired.

use crate::bytes;
use crate::device;
use crate::device::{Media, SectorWrite};
use crate::directory::entry::{DirectoryModel, EntryModel};
use crate::directory::slots::{EntryLocator, Slot};
use crate::error::Error;
use crate::fs::file::FileModel;
use crate::fs::metadata;
use crate::fs::names;
use crate::fs::rename;
use crate::fs::space;
use crate::geometry::Geometry;
use crate::laws::entries;
use crate::laws::fields;
use crate::laws::sets;
use crate::laws::writing;
use crate::mount::Volume;
use vstd::prelude::*;

verus! {

/// Clearing the highest bit of a byte.
proof fn lemma_cleared(byte: u8)
    ensures
        byte & 0x7f == if byte >= 128 {
            byte - 128
        } else {
            byte as int
        },
{
    assert(byte & 0x7f == byte % 128) by (bit_vector);
}

/// The 32 bytes of a slot.
pub open spec fn slot_bytes(m: Media, at: EntryLocator) -> Seq<u8> {
    m[at.lba].subrange(at.offset as int, at.offset + 32)
}

/// Retiring entries from number `i` on.
proof fn lemma_retired<E>(v: Volume, m: Media, free: u32, locs: Seq<EntryLocator>, i: int)
    requires
        writing::are_apart(v.geometry, m, locs),
        0 <= i <= locs.len(),
    ensures
        ({
            let plan = metadata::retire_plan::<E>(v, m, free, locs, i);
            let m2 = plan.leaves(m);
            &&& plan.result == Ok::<(), Error<E>>(())
            &&& plan.free == free
            &&& writing::differs_within(m, m2, locs)
            &&& forall|k: int|
                0 <= k < locs.len() ==> slot_bytes(m2, #[trigger] locs[k]) == if k < i {
                    slot_bytes(m, locs[k])
                } else {
                    slot_bytes(m, locs[k]).update(0, slot_bytes(m, locs[k])[0] & 0x7f)
                }
        }),
    decreases locs.len() - i,
{
    let g = v.geometry;
    let plan = metadata::retire_plan::<E>(v, m, free, locs, i);
    if i == locs.len() {
        assert(plan.leaves(m) == m);
    } else {
        let at = locs[i];
        let sector = m[at.lba];
        let part = seq![sector[at.offset as int] & 0x7f];
        let data = sector.update(at.offset as int, sector[at.offset as int] & 0x7f);
        assert(data =~= bytes::splice(sector, at.offset + 0, part));
        let clear = metadata::sector_plan::<E>(free, at.lba, data);
        let m1 = clear.leaves(m);
        device::lemma_applied_one(m, SectorWrite { lba: at.lba, data });
        writing::lemma_slot_written(g, m, locs, i, 0, part);
        lemma_retired::<E>(v, m1, free, locs, i + 1);
        let rest = metadata::retire_plan::<E>(v, m1, free, locs, i + 1);
        assert(plan == clear.and(rest));
        device::lemma_applied_concat(m, clear.writes, rest.writes);
        let m2 = plan.leaves(m);
        writing::lemma_differs_on(m, m1, m2, locs);
        assert forall|k: int| 0 <= k < locs.len() implies slot_bytes(m2, #[trigger] locs[k])
            == if k < i {
            slot_bytes(m, locs[k])
        } else {
            slot_bytes(m, locs[k]).update(0, slot_bytes(m, locs[k])[0] & 0x7f)
        } by {
            let old_bytes = slot_bytes(m, locs[k]);
            if k != i {
                assert(metadata::entry_at(m1, locs[k]) == metadata::entry_at(m, locs[k]));
            } else {
                assert(slot_bytes(m1, at) =~= old_bytes.update(0, old_bytes[0] & 0x7f));
            }
        }
    }
}

/// Retiring an entry set clears the highest bit of the first byte of each of its
/// entries, and no other bit on the volume.
pub proof fn law_retiring_clears_one_bit<E>(
    v: Volume,
    m: Media,
    free: u32,
    locs: Seq<EntryLocator>,
    k: int,
    i: int,
)
    requires
        writing::are_apart(v.geometry, m, locs),
        0 <= k < locs.len(),
        0 <= i < 32,
    ensures
        ({
            let plan = metadata::retire_plan::<E>(v, m, free, locs, 0);
            let m2 = plan.leaves(m);
            let before = m[locs[k].lba][locs[k].offset + i];
            let after = m2[locs[k].lba][locs[k].offset + i];
            &&& plan.result == Ok::<(), Error<E>>(())
            &&& plan.free == free
            &&& writing::differs_within(m, m2, locs)
            &&& after == if i == 0 && before >= 128 {
                before - 128
            } else {
                before as int
            }
        }),
{
    lemma_retired::<E>(v, m, free, locs, 0);
    let m2 = metadata::retire_plan::<E>(v, m, free, locs, 0).leaves(m);
    let at = locs[k];
    assert(metadata::fits(v.geometry, at) && m[at.lba].len() == v.geometry.bytes_per_sector);
    assert(m2[at.lba].len() == m[at.lba].len());
    assert(slot_bytes(m2, at)[i] == m2[at.lba][at.offset + i]);
    assert(slot_bytes(m, at)[i] == m[at.lba][at.offset + i]);
    lemma_cleared(slot_bytes(m, at)[0]);
}

/// The checksum of the entries at `locs` is that of the slots there.
proof fn lemma_held_sum(g: Geometry, m: Media, locs: Seq<EntryLocator>, n: nat)
    requires
        writing::are_apart(g, m, locs),
        n <= locs.len(),
    ensures
        metadata::set_sum(g, m, locs, n) == Some(sets::run_sum(writing::held(m, locs), n)),
    decreases n,
{
    if n > 0 {
        lemma_held_sum(g, m, locs, (n - 1) as nat);
        assert(metadata::fits(g, locs[n - 1]));
        assert(writing::held(m, locs)[n - 1].raw == metadata::entry_at(m, locs[n - 1]));
    }
}

/// The checksum of a set does not depend on the bytes that record it.
proof fn lemma_sum_of_sealed(x: Seq<Slot>, y: Seq<Slot>, sum: u16, n: nat)
    requires
        1 <= n <= x.len(),
        y.len() == x.len(),
        x[0].raw.len() == 32,
        y[0].raw == bytes::splice(x[0].raw, 2, bytes::le16(sum)),
        forall|k: int| 1 <= k < x.len() ==> (#[trigger] y[k]).raw == x[k].raw,
    ensures
        sets::run_sum(y, n) == sets::run_sum(x, n),
    decreases n,
{
    if n == 1 {
        reveal_with_fuel(sets::run_sum, 2);
        entries::law_checksum_leaves_itself_out(0, x[0].raw, bytes::le16(sum));
    } else {
        lemma_sum_of_sealed(x, y, sum, (n - 1) as nat);
        assert(y[n - 1].raw == x[n - 1].raw);
    }
}

/// Whether the first slot of a set records the checksum of all the bytes of the
/// set but its own two.
pub open spec fn is_sealed(m: Media, locs: Seq<EntryLocator>) -> bool {
    let all = fields::joined(writing::held(m, locs), locs.len());
    bytes::u16_at(slot_bytes(m, locs[0]), 2) == bytes::sum16(0, all.take(2) + all.skip(4))
}

/// Recording the checksum of a set.
proof fn lemma_seal<E>(v: Volume, m: Media, free: u32, locs: Seq<EntryLocator>)
    requires
        writing::are_apart(v.geometry, m, locs),
        locs.len() >= 1,
    ensures
        ({
            let plan = metadata::checksum_plan::<E>(v, m, free, locs[0], locs);
            let m2 = plan.leaves(m);
            &&& plan.result == Ok::<(), Error<E>>(())
            &&& plan.free == free
            &&& writing::differs_within(m, m2, locs)
            &&& is_sealed(m2, locs)
            &&& forall|i: int|
                0 <= i < 32 && i != 2 && i != 3 ==> #[trigger] slot_bytes(m2, locs[0])[i]
                    == slot_bytes(m, locs[0])[i]
            &&& forall|k: int|
                1 <= k < locs.len() ==> slot_bytes(m2, #[trigger] locs[k]) == slot_bytes(
                    m,
                    locs[k],
                )
        }),
{
    let g = v.geometry;
    let n = locs.len();
    let x = writing::held(m, locs);
    let sum = sets::run_sum(x, n);
    lemma_held_sum(g, m, locs, n);
    let at = locs[0];
    assert(metadata::fits(g, at) && m[at.lba].len() == g.bytes_per_sector);
    let part = bytes::le16(sum);
    let data = bytes::splice(m[at.lba], at.offset + 2, part);
    device::lemma_applied_one(m, SectorWrite { lba: at.lba, data });
    writing::lemma_slot_written(g, m, locs, 0, 2, part);
    let plan = metadata::checksum_plan::<E>(v, m, free, at, locs);
    let m2 = plan.leaves(m);
    assert(m2 == m.insert(at.lba, data));
    let y = writing::held(m2, locs);
    assert forall|k: int| 1 <= k < n implies (#[trigger] y[k]).raw == x[k].raw by {
        assert(metadata::entry_at(m2, locs[k]) == metadata::entry_at(m, locs[k]));
    }
    let raw = metadata::entry_at(m2, at);
    assert(x[0].raw == metadata::entry_at(m, at) && y[0].raw == raw);
    lemma_sum_of_sealed(x, y, sum, n);
    assert forall|i: int| 0 <= i < n implies (#[trigger] y[i]).raw.len() == 32 by {
        assert(metadata::fits(g, locs[i]) && m[locs[i].lba].len() == g.bytes_per_sector);
        assert(m2[locs[i].lba].len() == m[locs[i].lba].len());
    }
    fields::law_set_checksum_covers_every_byte(y, n);
    assert(raw.subrange(2, 4) =~= part);
    bytes::lemma_le16_reads_back(raw, 2, sum);
    assert forall|k: int| 1 <= k < n implies slot_bytes(m2, #[trigger] locs[k]) == slot_bytes(
        m,
        locs[k],
    ) by {
        assert(metadata::entry_at(m2, locs[k]) == metadata::entry_at(m, locs[k]));
    }
}

/// Recording a file's lengths and clusters leaves on the media, in the file's
/// stream extension, the flags at byte 1, the visible length at byte 8, the first
/// cluster at byte 20 and the allocated length at byte 24, and in its primary
/// entry the checksum of the whole set. Every other byte of the set stays as it
/// was, as does everything else.
pub proof fn law_recorded_set_byte_by_byte<E>(v: Volume, m: Media, free: u32, f: FileModel, i: int)
    requires
        writing::are_apart(v.geometry, m, f.locs),
        f.locs.len() >= 2,
        f.primary == f.locs[0],
        f.stream == f.locs[1],
        0 <= i < 32,
    ensures
        ({
            let plan = metadata::update_plan::<E>(v, m, free, f);
            let m2 = plan.leaves(m);
            let old_stream = slot_bytes(m, f.stream);
            let stream = slot_bytes(m2, f.stream);
            &&& plan.result == Ok::<(), Error<E>>(())
            &&& plan.free == free
            &&& stream[1] == if f.no_fat_chain {
                3u8
            } else {
                1u8
            }
            &&& bytes::u64_at(stream, 8) == f.valid_length
            &&& bytes::u32_at(stream, 20) == f.first_cluster
            &&& bytes::u64_at(stream, 24) == f.data_length
            &&& i == 0 || 2 <= i < 8 || 16 <= i < 20 ==> stream[i] == old_stream[i]
            &&& is_sealed(m2, f.locs)
            &&& i != 2 && i != 3 ==> slot_bytes(m2, f.primary)[i] == slot_bytes(m, f.primary)[i]
            &&& forall|k: int|
                2 <= k < f.locs.len() ==> slot_bytes(m2, #[trigger] f.locs[k]) == slot_bytes(
                    m,
                    f.locs[k],
                )
            &&& writing::differs_within(m, m2, f.locs)
        }),
{
    let g = v.geometry;
    let at = f.stream;
    assert(metadata::fits(g, f.locs[1]) && m[at.lba].len() == g.bytes_per_sector);
    let raw = metadata::entry_at(m, at);
    let new = metadata::stream_patched(raw, 0, f);
    let data = metadata::stream_patched(m[at.lba], at.offset as int, f);
    fields::law_recorded_stream_byte_by_byte(raw, 0, f);
    assert(data =~= bytes::splice(m[at.lba], at.offset + 0, new));
    device::lemma_applied_one(m, SectorWrite { lba: at.lba, data });
    let patch = metadata::sector_plan::<E>(free, at.lba, data);
    let m1 = patch.leaves(m);
    writing::lemma_slot_written(g, m, f.locs, 1, 0, new);
    assert(metadata::entry_at(m1, at) =~= new);
    lemma_seal::<E>(v, m1, free, f.locs);
    let seal = metadata::checksum_plan::<E>(v, m1, free, f.primary, f.locs);
    device::lemma_applied_concat(m, patch.writes, seal.writes);
    let m2 = seal.leaves(m1);
    writing::lemma_differs_on(m, m1, m2, f.locs);
    assert(metadata::entry_at(m1, f.locs[0]) == metadata::entry_at(m, f.locs[0]));
    assert(slot_bytes(m2, f.locs[1]) == slot_bytes(m1, f.locs[1]));
    assert forall|k: int| 2 <= k < f.locs.len() implies slot_bytes(m2, #[trigger] f.locs[k])
        == slot_bytes(m, f.locs[k]) by {
        assert(metadata::entry_at(m1, f.locs[k]) == metadata::entry_at(m, f.locs[k]));
        assert(slot_bytes(m2, f.locs[k]) == slot_bytes(m1, f.locs[k]));
    }
}

/// Writing a name into the name entries from number `i` on.
proof fn lemma_named<E>(v: Volume, m: Media, free: u32, locs: Seq<EntryLocator>, name: Seq<u16>, i: int)
    requires
        writing::are_apart(v.geometry, m, locs),
        2 <= i <= locs.len(),
    ensures
        ({
            let plan = rename::names_plan::<E>(v, m, free, locs, name, i);
            let m2 = plan.leaves(m);
            &&& plan.result == Ok::<(), Error<E>>(())
            &&& plan.free == free
            &&& writing::differs_within(m, m2, locs)
            &&& writing::are_apart(v.geometry, m2, locs)
            &&& forall|k: int|
                0 <= k < i ==> slot_bytes(m2, #[trigger] locs[k]) == slot_bytes(m, locs[k])
            &&& forall|k: int|
                i <= k < locs.len() ==> slot_bytes(m2, #[trigger] locs[k])
                    == metadata::name_entry(name, 15 * (k - 2)).update(
                    1,
                    slot_bytes(m, locs[k])[1],
                )
        }),
    decreases locs.len() - i,
{
    let g = v.geometry;
    let plan = rename::names_plan::<E>(v, m, free, locs, name, i);
    if i == locs.len() {
        assert(plan.leaves(m) == m);
    } else {
        let at = locs[i];
        let sector = m[at.lba];
        assert(metadata::fits(g, at) && sector.len() == g.bytes_per_sector);
        let raw = metadata::entry_at(m, at);
        let new = metadata::name_entry(name, 15 * (i - 2)).update(1, raw[1]);
        let data = rename::named(sector, at.offset as int, name, 15 * (i - 2));
        assert(data =~= bytes::splice(sector, at.offset + 0, new));
        let write = metadata::sector_plan::<E>(free, at.lba, data);
        let m1 = write.leaves(m);
        device::lemma_applied_one(m, SectorWrite { lba: at.lba, data });
        writing::lemma_slot_written(g, m, locs, i, 0, new);
        assert(metadata::entry_at(m1, at) =~= new);
        lemma_named::<E>(v, m1, free, locs, name, i + 1);
        let rest = rename::names_plan::<E>(v, m1, free, locs, name, i + 1);
        assert(plan == write.and(rest));
        device::lemma_applied_concat(m, write.writes, rest.writes);
        let m2 = plan.leaves(m);
        writing::lemma_differs_on(m, m1, m2, locs);
        assert forall|k: int| 0 <= k < i implies slot_bytes(m2, #[trigger] locs[k]) == slot_bytes(
            m,
            locs[k],
        ) by {
            assert(slot_bytes(m2, locs[k]) == slot_bytes(m1, locs[k]));
            assert(metadata::entry_at(m1, locs[k]) == metadata::entry_at(m, locs[k]));
        }
        assert forall|k: int| i <= k < locs.len() implies slot_bytes(m2, #[trigger] locs[k])
            == metadata::name_entry(name, 15 * (k - 2)).update(1, slot_bytes(m, locs[k])[1]) by {
            if k == i {
                assert(slot_bytes(m2, locs[k]) == slot_bytes(m1, locs[k]));
            } else {
                assert(metadata::entry_at(m1, locs[k]) == metadata::entry_at(m, locs[k]));
            }
        }
    }
}

/// Renaming in place leaves on the media, in the stream extension, the length of
/// the new name at byte 3 and its hash at byte 4, in the name entries the units of
/// the new name with zeros behind it, and in the primary entry the checksum of
/// the whole set. The other bytes of primary entry and stream extension, and the
/// flags of the name entries, stay as they were, as does everything else.
pub proof fn law_renamed_set_byte_by_byte<E>(
    v: Volume,
    m: Media,
    free: u32,
    found: EntryModel,
    name: Seq<u16>,
    hash: u16,
    k: int,
    i: int,
)
    requires
        writing::are_apart(v.geometry, m, found.locs),
        found.locs.len() >= 3,
        found.primary == found.locs[0],
        found.stream == found.locs[1],
        name.len() <= 255,
        names::name_hash(v, m, name) == Some(hash),
        2 <= k < found.locs.len(),
        0 <= i < 32,
    ensures
        ({
            let plan = rename::rename_in_place_plan::<E>(v, m, free, found, name);
            let m2 = plan.leaves(m);
            let primary = slot_bytes(m2, found.locs[0]);
            let stream = slot_bytes(m2, found.locs[1]);
            let entry = slot_bytes(m2, found.locs[k]);
            let unit = 15 * (k - 2) + (i - 2) / 2;
            &&& plan.result == Ok::<(), Error<E>>(())
            &&& plan.free == free
            &&& stream[3] == name.len()
            &&& bytes::u16_at(stream, 4) == hash
            &&& !(3 <= i < 6) ==> stream[i] == slot_bytes(m, found.locs[1])[i]
            &&& is_sealed(m2, found.locs)
            &&& i != 2 && i != 3 ==> primary[i] == slot_bytes(m, found.locs[0])[i]
            &&& entry[0] == 0xc1
            &&& entry[1] == slot_bytes(m, found.locs[k])[1]
            &&& i >= 2 ==> entry[i] == if unit >= name.len() {
                0
            } else if i % 2 == 0 {
                name[unit] as int % 256
            } else {
                name[unit] as int / 256
            }
            &&& writing::differs_within(m, m2, found.locs)
        }),
{
    let g = v.geometry;
    let locs = found.locs;
    let at = locs[1];
    assert(metadata::fits(g, at) && m[at.lba].len() == g.bytes_per_sector);
    let raw = metadata::entry_at(m, at);
    let new = rename::announced(raw, 0, name, hash);
    let data = rename::announced(m[at.lba], at.offset as int, name, hash);
    assert(data =~= bytes::splice(m[at.lba], at.offset + 0, new));
    assert(new.subrange(4, 6) =~= bytes::le16(hash));
    bytes::lemma_le16_reads_back(new, 4, hash);
    device::lemma_applied_one(m, SectorWrite { lba: at.lba, data });
    let announce = metadata::sector_plan::<E>(free, at.lba, data);
    let m1 = announce.leaves(m);
    writing::lemma_slot_written(g, m, locs, 1, 0, new);
    assert(metadata::entry_at(m1, at) =~= new);
    lemma_named::<E>(v, m1, free, locs, name, 2);
    let write = rename::names_plan::<E>(v, m1, free, locs, name, 2);
    let m2 = write.leaves(m1);
    lemma_seal::<E>(v, m2, free, locs);
    let seal = metadata::checksum_plan::<E>(v, m2, free, locs[0], locs);
    let m3 = seal.leaves(m2);
    let plan = rename::rename_in_place_plan::<E>(v, m, free, found, name);
    device::lemma_applied_concat(m1, write.writes, seal.writes);
    device::lemma_applied_concat(m, announce.writes, write.writes + seal.writes);
    assert(plan == announce.and(write.and(seal)));
    assert(plan.leaves(m) == m3);
    writing::lemma_differs_on(m, m1, m2, locs);
    writing::lemma_differs_on(m, m2, m3, locs);
    assert(slot_bytes(m3, locs[1]) == slot_bytes(m2, locs[1]));
    assert(slot_bytes(m2, locs[1]) == slot_bytes(m1, locs[1]));
    assert(slot_bytes(m3, locs[k]) == slot_bytes(m2, locs[k]));
    assert(metadata::entry_at(m1, locs[k]) == metadata::entry_at(m, locs[k]));
    assert(slot_bytes(m2, locs[0]) == slot_bytes(m1, locs[0]));
    assert(metadata::entry_at(m1, locs[0]) == metadata::entry_at(m, locs[0]));
    if i >= 2 {
        assert(metadata::name_entry(name, 15 * (k - 2))[i] == metadata::name_entry_byte(
            name,
            15 * (k - 2),
            i,
        ));
    }
}

/// The entry set that takes the place of a renamed one describes the same file or
/// directory, with its clusters, lengths and times.
pub proof fn law_replacement_describes_the_same(found: EntryModel, name: Seq<u16>)
    ensures
        ({
            let s = rename::renamed_set(found, name);
            &&& s.name == name
            &&& s.attributes == if found.is_directory {
                16u16
            } else {
                0u16
            }
            &&& s.first_cluster == found.first_cluster
            &&& s.valid_length == found.valid_length
            &&& s.data_length == found.data_length
            &&& s.no_fat_chain == found.no_fat_chain
            &&& s.created == found.created
            &&& s.modified == found.modified
            &&& s.accessed == found.accessed
        }),
{
}

/// A directory that grew by one cluster records it: in its own stream extension,
/// which marks it as linked, both lengths are greater by the bytes of a cluster,
/// and the first cluster is the same.
pub proof fn law_grown_directory_byte_by_byte<E>(
    v: Volume,
    m: Media,
    free: u32,
    d: DirectoryModel,
)
    requires
        d.data_length > 0,
        d.data_length + v.geometry.bytes_per_sector * v.geometry.sectors_per_cluster <= u64::MAX,
        d.locs.len() >= 2,
        d.primary == Some(d.locs[0]),
        d.stream == Some(d.locs[1]),
        writing::are_apart(v.geometry, m, d.locs),
    ensures
        ({
            let plan = space::record_plan::<E>(v, m, free, d);
            let m2 = plan.leaves(m);
            let stream = slot_bytes(m2, d.locs[1]);
            let length = d.data_length + v.geometry.bytes_per_sector
                * v.geometry.sectors_per_cluster;
            &&& plan.result == Ok::<(), Error<E>>(())
            &&& plan.free == free
            &&& stream[1] == 1
            &&& bytes::u64_at(stream, 8) == length
            &&& bytes::u32_at(stream, 20) == d.first_cluster
            &&& bytes::u64_at(stream, 24) == length
            &&& is_sealed(m2, d.locs)
            &&& writing::differs_within(m, m2, d.locs)
        }),
{
    let f = space::as_file(space::longer(v.geometry, d));
    assert(0 <= v.geometry.bytes_per_sector * v.geometry.sectors_per_cluster) by (nonlinear_arith)
        requires
            0 <= v.geometry.bytes_per_sector,
            0 <= v.geometry.sectors_per_cluster,
    ;
    law_recorded_set_byte_by_byte::<E>(v, m, free, f, 0);
}

/// Where a slot of a set would straddle two sectors, or a set has no stream
/// extension, the set is damaged: nothing of it is recorded.
pub proof fn law_straddling_sets_are_refused<E>(v: Volume, m: Media, free: u32, f: FileModel)
    requires
        f.locs.len() < 2 || f.stream.offset + 32 > v.geometry.bytes_per_sector,
    ensures
        metadata::update_plan::<E>(v, m, free, f).result == Err::<(), Error<E>>(Error::Corrupt),
        metadata::update_plan::<E>(v, m, free, f).writes.len() == 0,
        metadata::update_plan::<E>(v, m, free, f).free == free,
{
}

} // verus!
