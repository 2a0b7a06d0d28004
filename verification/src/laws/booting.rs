//! What mounting reads of a boot region, byte by byte.

use crate::bytes;
use crate::device::{BlockDevice, Media};
use crate::error::Error;
use crate::fs::mount;
use crate::fs::state::FileSystem;
use crate::geometry::{Geometry, Partition};
use crate::laws::words;
use crate::mount::boot;
use crate::mount::partition;
use crate::mount::system;
use crate::mount::volume;
use vstd::arithmetic::power2;
use vstd::prelude::*;

verus! {

/// A volume that mounts has the geometry that its boot sector records, each
/// field at its own place: the first sector of the partition holds the FAT's
/// offset at byte 80, its length at byte 84, the offset of the clusters at byte
/// 88, their number at byte 92, the root directory's first cluster at byte 96,
/// and the logarithms of the sector and cluster size at bytes 108 and 109.
pub proof fn law_mounted_geometry_is_recorded<E>(
    media: Media,
    sector_size: usize,
    total: u64,
    scratch_len: nat,
)
    requires
        volume::mount_result::<E>(media, sector_size, total, scratch_len) is Ok,
    ensures
        ({
            let g = volume::mount_result::<E>(media, sector_size, total, scratch_len)->Ok_0.geometry;
            let sector = media[g.partition.first_lba];
            &&& volume::partition_result::<E>(media, sector_size as nat, total) == Ok::<
                Partition,
                Error<E>,
            >(g.partition)
            &&& g.partition.first_lba + g.partition.sector_count <= total
            &&& g.fat_offset == bytes::u32_at(sector, 80)
            &&& g.fat_length == bytes::u32_at(sector, 84)
            &&& g.cluster_heap_offset == bytes::u32_at(sector, 88)
            &&& g.cluster_count == bytes::u32_at(sector, 92)
            &&& g.root_cluster == bytes::u32_at(sector, 96)
            &&& g.bytes_per_sector == power2::pow2(sector[108] as nat)
            &&& g.bytes_per_sector == sector_size
            &&& g.sectors_per_cluster == power2::pow2(sector[109] as nat)
            &&& g.cluster_heap_offset + g.cluster_count * g.sectors_per_cluster <= bytes::u64_at(
                sector,
                72,
            ) <= g.partition.sector_count
            &&& 2 <= g.root_cluster < g.cluster_count + 2
        }),
{
    let p = volume::partition_result::<E>(media, sector_size as nat, total)->Ok_0;
    let sector = media[p.first_lba];
    boot::lemma_shifts(sector[108], sector[109]);
}

/// Whether a sector names itself the boot sector of an exFAT volume: the name
/// from byte 3 on and the mark in the last two of its first 512 bytes.
pub open spec fn is_named(sector: Seq<u8>) -> bool {
    &&& sector.len() >= 512
    &&& sector[3] == 0x45 && sector[4] == 0x58 && sector[5] == 0x46 && sector[6] == 0x41
    &&& sector[7] == 0x54 && sector[8] == 0x20 && sector[9] == 0x20 && sector[10] == 0x20
    &&& sector[510] == 0x55
    &&& sector[511] == 0xaa
}

/// Which boot sectors are accepted, and the error that each other one is
/// answered: a sector without the name, one with a sector size that is not
/// supported, one with another sector size than the device, one with clusters
/// of more than 32 MiB, and one whose fields contradict each other.
pub proof fn law_boot_sector_is_judged<E>(partition: Partition, sector: Seq<u8>, size: nat)
    ensures
        ({
            let result = boot::boot_result::<E>(partition, sector, size);
            let s = sector[108] as int;
            let c = sector[109] as int;
            let clusters = bytes::u32_at(sector, 92);
            let root = bytes::u32_at(sector, 96);
            let length = bytes::u64_at(sector, 72);
            let consistent = {
                &&& bytes::u32_at(sector, 80) > 0
                &&& bytes::u32_at(sector, 84) > 0
                &&& clusters > 0
                &&& 2 <= root < clusters + 2 && root < u32::MAX
                &&& 0 < length <= partition.sector_count
                &&& bytes::u32_at(sector, 88) + clusters * power2::pow2(c as nat) <= length
            };
            let fits = s == 9 && size == 512 || s == 10 && size == 1024 || s == 11 && size == 2048
                || s == 12 && size == 4096;
            &&& result is Ok <==> is_named(sector) && fits && s + c <= 25 && consistent
            &&& result == Err::<Geometry, Error<E>>(Error::InvalidBootSector) <==> !is_named(sector) || (9
                <= s <= 12 && !fits)
            &&& result == Err::<Geometry, Error<E>>(Error::UnsupportedSectorSize) <==> is_named(sector)
                && !(9 <= s <= 12)
            &&& result == Err::<Geometry, Error<E>>(Error::UnsupportedClusterSize) <==> is_named(sector)
                && fits && s + c > 25
            &&& result == Err::<Geometry, Error<E>>(Error::Corrupt) <==> is_named(sector) && fits && s + c
                <= 25 && !consistent
        }),
{
    power2::lemma2_to64();
    if sector.len() >= 512 {
        if 9 <= sector[108] <= 12 && sector[108] + sector[109] <= 25 {
            boot::lemma_shifts(sector[108], sector[109]);
        }
    }
    let s = sector[108];
    let fits = s == 9 && size == 512 || s == 10 && size == 1024 || s == 11 && size == 2048 || s
        == 12 && size == 4096;
    assert(9 <= s <= 12 ==> (fits <==> power2::pow2(s as nat) == size));
}

/// The bytes that the boot checksum covers: those of the first `k` sectors, one
/// sector after the other, but for bytes 106, 107 and 112 of the first.
pub open spec fn covered(media: Media, first: u64, k: nat) -> Seq<u8>
    decreases k,
{
    if k == 0 {
        Seq::empty()
    } else {
        let sector = media[(first + k - 1) as u64];
        covered(media, first, (k - 1) as nat) + if k == 1 {
            sector.take(106) + sector.subrange(108, 112) + sector.skip(113)
        } else {
            sector
        }
    }
}

/// The checksum of a run of bytes without a volatile one.
proof fn lemma_plain_run(sum: u32, sector: Seq<u8>, k: int, from: nat, n: nat)
    requires
        from <= n <= sector.len(),
        forall|i: int| from <= i < n ==> !#[trigger] boot::is_volatile(k, i),
    ensures
        boot::boot_sector_sum(sum, sector, k, n) == bytes::sum32(
            boot::boot_sector_sum(sum, sector, k, from),
            sector.subrange(from as int, n as int),
        ),
    decreases n,
{
    let part = sector.subrange(from as int, n as int);
    if from < n {
        lemma_plain_run(sum, sector, k, from, (n - 1) as nat);
        assert(!boot::is_volatile(k, n - 1));
        assert(part.drop_last() =~= sector.subrange(from as int, n - 1));
    } else {
        assert(part =~= Seq::empty());
    }
}

/// The checksum of the first boot sector.
proof fn lemma_first_sector(sum: u32, sector: Seq<u8>)
    requires
        sector.len() >= 512,
    ensures
        boot::boot_sector_sum(sum, sector, 0, sector.len()) == bytes::sum32(
            sum,
            sector.take(106) + sector.subrange(108, 112) + sector.skip(113),
        ),
{
    let head = sector.take(106);
    let middle = sector.subrange(108, 112);
    let tail = sector.skip(113);
    lemma_plain_run(sum, sector, 0, 0, 106);
    assert(sector.subrange(0, 106) =~= head);
    assert(boot::boot_sector_sum(sum, sector, 0, 107) == boot::boot_sector_sum(sum, sector, 0, 106));
    assert(boot::boot_sector_sum(sum, sector, 0, 108) == boot::boot_sector_sum(sum, sector, 0, 107));
    lemma_plain_run(sum, sector, 0, 108, 112);
    assert(boot::boot_sector_sum(sum, sector, 0, 113) == boot::boot_sector_sum(sum, sector, 0, 112));
    lemma_plain_run(sum, sector, 0, 113, sector.len());
    assert(sector.subrange(113, sector.len() as int) =~= tail);
    words::lemma_sum32_concat(sum, head, middle);
    words::lemma_sum32_concat(sum, head + middle, tail);
}

/// The boot checksum is that of the bytes it covers.
pub proof fn lemma_boot_sum(media: Media, first: u64, size: nat, k: nat)
    requires
        512 <= size,
        first + k <= u64::MAX,
        forall|i: int| 0 <= i < k ==> #[trigger] media[(first + i) as u64].len() == size,
    ensures
        boot::boot_sum(media, first, size, k) == bytes::sum32(0, covered(media, first, k)),
    decreases k,
{
    if k > 0 {
        lemma_boot_sum(media, first, size, (k - 1) as nat);
        let sector = media[(first + (k - 1)) as u64];
        assert(sector.len() == size);
        let before = covered(media, first, (k - 1) as nat);
        let sum = boot::boot_sum(media, first, size, (k - 1) as nat);
        if k == 1 {
            lemma_first_sector(sum, sector);
            words::lemma_sum32_concat(
                0,
                before,
                sector.take(106) + sector.subrange(108, 112) + sector.skip(113),
            );
        } else {
            lemma_plain_run(sum, sector, k - 1, 0, size);
            assert(sector.subrange(0, size as int) =~= sector);
            words::lemma_sum32_concat(0, before, sector);
        }
    }
}

/// A boot region is accepted where it takes at least twelve sectors and the
/// twelfth holds, in every word, the checksum of the eleven before it, in which
/// only the volume flags and the percentage in use are left out.
pub proof fn law_boot_region_is_checked(media: Media, partition: Partition, size: nat)
    requires
        512 <= size,
        partition.first_lba + 12 <= u64::MAX,
        forall|i: int|
            0 <= i < 12 ==> #[trigger] media[(partition.first_lba + i) as u64].len() == size,
    ensures
        boot::boot_region_ok(media, partition, size) <==> partition.sector_count >= 12 && forall|
            i: int,
        |
            0 <= i < size / 4 ==> #[trigger] bytes::u32_at(
                media[(partition.first_lba + 11) as u64],
                4 * i,
            ) == bytes::sum32(0, covered(media, partition.first_lba, 11)),
{
    lemma_boot_sum(media, partition.first_lba, size, 11);
}

/// What is covered after one sector was changed.
proof fn lemma_covered_elsewhere(media: Media, first: u64, k: nat, at: u64, sector: Seq<u8>)
    requires
        first + k <= u64::MAX,
        at >= first + k,
    ensures
        covered(media.insert(at, sector), first, k) == covered(media, first, k),
    decreases k,
{
    if k > 0 {
        lemma_covered_elsewhere(media, first, (k - 1) as nat, at, sector);
    }
}

/// Changing one covered byte of a sector changes the sum of what is covered.
proof fn lemma_covered_change(media: Media, first: u64, size: nat, k: nat, j: int, i: int, byte: u8)
    requires
        512 <= size,
        first + k <= u64::MAX,
        0 <= j < k,
        0 <= i < size,
        !(j == 0 && (i == 106 || i == 107 || i == 112)),
        media[(first + j) as u64].len() == size,
        media[(first + j) as u64][i] != byte,
    ensures
        ({
            let at = (first + j) as u64;
            let other = media.insert(at, media[at].update(i, byte));
            bytes::sum32(0, covered(other, first, k)) != bytes::sum32(0, covered(media, first, k))
        }),
    decreases k,
{
    let at = (first + j) as u64;
    let sector = media[at];
    let changed = sector.update(i, byte);
    let other = media.insert(at, changed);
    let last = media[(first + k - 1) as u64];
    let before = covered(media, first, (k - 1) as nat);
    if j < k - 1 {
        lemma_covered_change(media, first, size, (k - 1) as nat, j, i, byte);
        let a = covered(other, first, (k - 1) as nat);
        let part = if k == 1 {
            last.take(106) + last.subrange(108, 112) + last.skip(113)
        } else {
            last
        };
        words::lemma_sum32_concat(0, a, part);
        words::lemma_sum32_concat(0, before, part);
        words::lemma_sums_stay_apart(bytes::sum32(0, a), bytes::sum32(0, before), part);
    } else {
        lemma_covered_elsewhere(media, first, (k - 1) as nat, at, changed);
        if k == 1 {
            let part = sector.take(106) + sector.subrange(108, 112) + sector.skip(113);
            let place = if i < 106 {
                i
            } else if i < 112 {
                i - 2
            } else {
                i - 3
            };
            assert(changed.take(106) + changed.subrange(108, 112) + changed.skip(113)
                =~= part.update(place, byte));
            assert(part[place] == sector[i]);
            words::law_changed_byte_changes_the_checksum(0, 0, part, place, byte);
            assert(before =~= Seq::empty());
            assert(before + part =~= part);
            assert(before + part.update(place, byte) =~= part.update(place, byte));
        } else {
            words::law_changed_byte_changes_the_checksum(
                0,
                bytes::sum32(0, before),
                sector,
                i,
                byte,
            );
            words::lemma_sum32_concat(0, before, sector);
            words::lemma_sum32_concat(0, before, changed);
        }
    }
}

/// One changed byte of a boot region makes it unacceptable, whichever byte of
/// the first eleven sectors it is, but for the three of the first sector that
/// change while the volume is in use: those make no difference.
pub proof fn law_damaged_boot_region_is_refused(
    media: Media,
    partition: Partition,
    size: nat,
    j: int,
    i: int,
    byte: u8,
)
    requires
        512 <= size,
        partition.first_lba + 12 <= u64::MAX,
        forall|n: int|
            0 <= n < 12 ==> #[trigger] media[(partition.first_lba + n) as u64].len() == size,
        boot::boot_region_ok(media, partition, size),
        0 <= j < 11,
        0 <= i < size,
        media[(partition.first_lba + j) as u64][i] != byte,
    ensures
        ({
            let at = (partition.first_lba + j) as u64;
            let other = media.insert(at, media[at].update(i, byte));
            boot::boot_region_ok(other, partition, size) <==> j == 0 && (i == 106 || i == 107 || i
                == 112)
        }),
{
    let first = partition.first_lba;
    let at = (first + j) as u64;
    let other = media.insert(at, media[at].update(i, byte));
    assert(media[(first + j) as u64].len() == size);
    assert forall|n: int| 0 <= n < 12 implies #[trigger] other[(first + n) as u64].len() == size by {
        assert(media[(first + n) as u64].len() == size);
    }
    assert(other[(first + 11) as u64] == media[(first + 11) as u64]);
    law_boot_region_is_checked(media, partition, size);
    law_boot_region_is_checked(other, partition, size);
    let sum = bytes::sum32(0, covered(media, first, 11));
    assert(bytes::u32_at(media[(first + 11) as u64], 4 * 0int) == sum);
    if j == 0 && (i == 106 || i == 107 || i == 112) {
        lemma_covered_same(media, first, 11, media[at].update(i, byte));
    } else {
        lemma_covered_change(media, first, size, 11, j, i, byte);
        assert(bytes::u32_at(other[(first + 11) as u64], 4 * 0int) == sum);
    }
}

/// What is covered does not depend on the bytes that are left out.
proof fn lemma_covered_same(media: Media, first: u64, k: nat, sector: Seq<u8>)
    requires
        first + k <= u64::MAX,
        media[first].len() >= 512,
        sector.len() == media[first].len(),
        forall|i: int|
            0 <= i < sector.len() && i != 106 && i != 107 && i != 112 ==> sector[i]
                == media[first][i],
    ensures
        covered(media.insert(first, sector), first, k) == covered(media, first, k),
    decreases k,
{
    let other = media.insert(first, sector);
    if k > 0 {
        lemma_covered_same(media, first, (k - 1) as nat, sector);
        if k == 1 {
            let old_sector = media[first];
            assert(sector.take(106) =~= old_sector.take(106));
            assert(sector.subrange(108, 112) =~= old_sector.subrange(108, 112));
            assert(sector.skip(113) =~= old_sector.skip(113));
            assert((first + k - 1) as u64 == first);
        }
    }
}

/// Whether entry number `i` of a partition table sector is an exFAT partition
/// that is not empty.
pub open spec fn is_candidate(sector: Seq<u8>, i: int) -> bool {
    &&& sector[450 + 16 * i] == 0x07
    &&& bytes::u32_at(sector, 454 + 16 * i) != 0
    &&& bytes::u32_at(sector, 458 + 16 * i) != 0
}

/// A partition table sector names the first of its four entries that is a
/// partition of type 7 with a start and a length other than zero, with the start
/// and the length that the entry holds.
pub proof fn law_partition_is_the_first_candidate<E>(sector: Seq<u8>)
    ensures
        match partition::mbr_result::<E>(sector) {
            Ok(found) => {
                &&& sector.len() >= 512 && sector[510] == 0x55 && sector[511] == 0xaa
                &&& exists|i: int|
                    {
                        &&& 0 <= i < 4
                        &&& #[trigger] is_candidate(sector, i)
                        &&& forall|j: int| 0 <= j < i ==> !#[trigger] is_candidate(sector, j)
                        &&& found.first_lba == bytes::u32_at(sector, 454 + 16 * i)
                        &&& found.sector_count == bytes::u32_at(sector, 458 + 16 * i)
                    }
            },
            Err(error) => if sector.len() >= 512 && sector[510] == 0x55 && sector[511] == 0xaa {
                &&& error == Error::<E>::PartitionNotFound
                &&& forall|j: int| 0 <= j < 4 ==> !#[trigger] is_candidate(sector, j)
            } else {
                error == Error::<E>::InvalidPartitionTable
            },
        },
{
    reveal_with_fuel(partition::mbr_first_entry, 5);
    let a = is_candidate(sector, 0);
    let b = is_candidate(sector, 1);
    let c = is_candidate(sector, 2);
    let d = is_candidate(sector, 3);
    assert(a <==> partition::mbr_entry(sector, 0) is Some);
    assert(b <==> partition::mbr_entry(sector, 1) is Some);
    assert(c <==> partition::mbr_entry(sector, 2) is Some);
    assert(d <==> partition::mbr_entry(sector, 3) is Some);
    if a {
        assert(is_candidate(sector, 0));
    } else if b {
        assert(is_candidate(sector, 1));
    } else if c {
        assert(is_candidate(sector, 2));
    } else if d {
        assert(is_candidate(sector, 3));
    }
}

/// The GUID partition table is used where, and only where, one of the four
/// entries of the first sector has the protective type.
pub proof fn law_protective_entry_leads_to_the_guid_table<E>(media: Media, size: nat, total: u64)
    ensures
        volume::partition_result::<E>(media, size, total) == if media[0].len() >= 512 && (
        media[0][450] == 0xee || media[0][466] == 0xee || media[0][482] == 0xee || media[0][498]
            == 0xee) {
            if total < 2 {
                Err(Error::InvalidGpt)
            } else {
                partition::gpt_result::<E>(media, size, total)
            }
        } else {
            partition::mbr_result::<E>(media[0])
        },
{
    assert(partition::mbr_entry_start(0) == 446);
    assert(partition::mbr_entry_start(1) == 462);
    assert(partition::mbr_entry_start(2) == 478);
    assert(partition::mbr_entry_start(3) == 494);
}

/// A device that mounts has sectors of 512, 1024, 2048 or 4096 bytes, and every
/// other one is refused before it is read, as is scratch storage that does not
/// hold a sector.
pub proof fn law_sector_sizes<E>(media: Media, sector_size: usize, total: u64, scratch_len: nat)
    ensures
        ({
            let result = volume::mount_result::<E>(media, sector_size, total, scratch_len);
            let supported = sector_size == 512 || sector_size == 1024 || sector_size == 2048
                || sector_size == 4096;
            &&& !supported ==> result is Err && result->Err_0 == Error::<E>::UnsupportedSectorSize
            &&& supported && scratch_len < sector_size ==> result is Err && result->Err_0 == Error::<
                E,
            >::InvalidSectorSize
            &&& result is Ok ==> supported && scratch_len >= sector_size
        }),
{
}

/// What mounting answers, step by step: the partition must lie on the device, its
/// boot region must agree with its checksum, its boot sector must be accepted,
/// the root directory must hold an allocation bitmap and an UpCase table, and the
/// table must agree with its checksum. The first of these that fails gives the
/// error, and a volume that passes them all has just what they found.
pub proof fn law_mounting_step_by_step<E>(
    media: Media,
    sector_size: usize,
    total: u64,
    scratch_len: nat,
    found: Partition,
)
    requires
        sector_size == 512 || sector_size == 1024 || sector_size == 2048 || sector_size == 4096,
        scratch_len >= sector_size,
        volume::partition_result::<E>(media, sector_size as nat, total) == Ok::<
            Partition,
            Error<E>,
        >(found),
    ensures
        ({
            let size = sector_size as nat;
            let result = volume::mount_result::<E>(media, sector_size, total, scratch_len);
            if found.first_lba >= total || found.first_lba + found.sector_count > total {
                result is Err && result->Err_0 == Error::<E>::InvalidPartitionTable
            } else if !boot::boot_region_ok(media, found, size) {
                result is Err && result->Err_0 == Error::<E>::InvalidBootSector
            } else {
                match boot::boot_result::<E>(found, media[found.first_lba], size) {
                    Err(error) => result is Err && result->Err_0 == error,
                    Ok(g) => match system::root_system(g, media) {
                        None => result is Err && result->Err_0 == Error::<E>::Corrupt,
                        Some((bitmap, table, label)) => if system::upcase_valid(g, media, table) {
                            &&& result is Ok
                            &&& result->Ok_0.geometry == g
                            &&& result->Ok_0.bitmap == bitmap
                            &&& result->Ok_0.upcase == table
                            &&& result->Ok_0.label == label
                        } else {
                            result is Err && result->Err_0 == Error::<E>::Corrupt
                        },
                    },
                }
            }
        }),
{
}

/// A device whose partition tables name no partition does not mount, and the
/// error is theirs.
pub proof fn law_mounting_needs_a_partition<E>(
    media: Media,
    sector_size: usize,
    total: u64,
    scratch_len: nat,
)
    requires
        sector_size == 512 || sector_size == 1024 || sector_size == 2048 || sector_size == 4096,
        scratch_len >= sector_size,
        volume::partition_result::<E>(media, sector_size as nat, total) is Err,
    ensures
        volume::mount_result::<E>(media, sector_size, total, scratch_len) is Err,
        volume::mount_result::<E>(media, sector_size, total, scratch_len)->Err_0
            == volume::partition_result::<E>(media, sector_size as nat, total)->Err_0,
{
}

/// A filesystem that was mounted works with the geometry that the boot sector on
/// its device records.
pub proof fn law_mounted_filesystem_has_the_recorded_geometry<D: BlockDevice>(
    device: D,
    scratch_len: nat,
    fs: FileSystem<D>,
)
    requires
        mount::is_mounted(device, scratch_len, fs),
    ensures
        ({
            let g = fs.volume.geometry;
            let sector = device.media()[g.partition.first_lba];
            &&& g.fat_offset == bytes::u32_at(sector, 80)
            &&& g.fat_length == bytes::u32_at(sector, 84)
            &&& g.cluster_heap_offset == bytes::u32_at(sector, 88)
            &&& g.cluster_count == bytes::u32_at(sector, 92)
            &&& g.root_cluster == bytes::u32_at(sector, 96)
            &&& g.bytes_per_sector == power2::pow2(sector[108] as nat)
            &&& g.bytes_per_sector == device.sector_bytes()
            &&& g.sectors_per_cluster == power2::pow2(sector[109] as nat)
            &&& fs.device.media() == device.media()
        }),
{
    law_mounted_geometry_is_recorded::<D::Error>(
        device.media(),
        device.sector_bytes(),
        device.sector_total(),
        scratch_len,
    );
}

} // verus!
