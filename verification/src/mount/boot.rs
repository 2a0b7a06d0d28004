//! The boot region: its checksum and the geometry that it records.

use crate::bytes;
use crate::device;
use crate::device::{BlockDevice, Media, Scratch};
use crate::error::Error;
use crate::geometry::{Geometry, Partition, MAX_DEVICE_SECTORS};
use vstd::arithmetic::power2;
use vstd::prelude::*;

verus! {

/// The sector size of a device, where it is one that exFAT can have.
pub open spec fn sector_size_result<E>(size: usize) -> Result<usize, Error<E>> {
    if size == 512 || size == 1024 || size == 2048 || size == 4096 {
        Ok(size)
    } else {
        Err(Error::UnsupportedSectorSize)
    }
}

/// Check that exFAT supports a sector size.
pub fn checked_sector_size<E>(size: usize) -> (result: Result<usize, Error<E>>)
    ensures
        result == sector_size_result::<E>(size),
{
    if size == 512 || size == 1024 || size == 2048 || size == 4096 {
        Ok(size)
    } else {
        Err(Error::UnsupportedSectorSize)
    }
}

/// Whether byte `i` of boot sector number `k` is left out of the checksum: the
/// volume flags and the percentage in use change while the volume is mounted.
pub open spec fn is_volatile(k: int, i: int) -> bool {
    k == 0 && (i == 106 || i == 107 || i == 112)
}

/// The checksum `sum` extended by the first `n` bytes of boot sector number
/// `k`.
pub open spec fn boot_sector_sum(sum: u32, sector: Seq<u8>, k: int, n: nat) -> u32
    decreases n,
{
    if n == 0 {
        sum
    } else {
        let before = boot_sector_sum(sum, sector, k, (n - 1) as nat);
        if is_volatile(k, n - 1) {
            before
        } else {
            bytes::rolled32(before, sector[n - 1])
        }
    }
}

/// The checksum of the first `k` sectors of the boot region at `first`.
pub open spec fn boot_sum(media: Media, first: u64, size: nat, k: nat) -> u32
    decreases k,
{
    if k == 0 {
        0
    } else {
        boot_sector_sum(
            boot_sum(media, first, size, (k - 1) as nat),
            media[(first + k - 1) as u64],
            k - 1,
            size,
        )
    }
}

/// Whether every word of the sector is `sum`.
pub open spec fn holds_sum(sector: Seq<u8>, sum: u32, size: nat) -> bool {
    forall|i: int| 0 <= i < size / 4 ==> #[trigger] bytes::u32_at(sector, 4 * i) == sum
}

/// Whether the partition holds a boot region that agrees with its checksum.
pub open spec fn boot_region_ok(media: Media, partition: Partition, size: nat) -> bool {
    &&& partition.sector_count >= 12
    &&& holds_sum(
        media[(partition.first_lba + 11) as u64],
        boot_sum(media, partition.first_lba, size, 11),
        size,
    )
}

/// Extend a boot checksum by one sector.
pub fn roll_boot_sector(sum: u32, sector: &[u8], k: u64) -> (total: u32)
    ensures
        total == boot_sector_sum(sum, sector@, k as int, sector@.len()),
{
    let mut total: u32 = sum;
    let mut i: usize = 0;
    while i < sector.len()
        invariant
            i <= sector.len(),
            total == boot_sector_sum(sum, sector@, k as int, i as nat),
        decreases sector.len() - i,
    {
        if !(k == 0 && (i == 106 || i == 107 || i == 112)) {
            total = bytes::roll32(total, sector[i]);
        }
        i = i + 1;
    }
    total
}

/// Check the boot region of a partition against its checksum sector.
pub fn validate_boot_checksum<D: BlockDevice>(
    device: &mut D,
    partition: Partition,
    scratch: &mut Scratch<'_>,
    sector_size: usize,
) -> (result: Result<(), Error<D::Error>>)
    requires
        old(device).sector_bytes() == sector_size,
        512 <= sector_size <= 4096,
        sector_size <= old(scratch)@.len(),
        partition.first_lba + partition.sector_count <= u64::MAX,
    ensures
        final(scratch)@.len() == old(scratch)@.len(),
        device::answers(
            *old(device),
            *final(device),
            result,
            if boot_region_ok(old(device).media(), partition, sector_size as nat) {
                Ok(())
            } else {
                Err(Error::InvalidBootSector)
            },
        ),
{
    if partition.sector_count < 12 {
        return Err(Error::InvalidBootSector);
    }
    let ghost media = device.media();
    let mut checksum: u32 = 0;
    let mut k: u64 = 0;
    while k < 11
        invariant
            k <= 11,
            sector_size <= scratch@.len(),
            scratch@.len() == old(scratch)@.len(),
            device.sector_bytes() == sector_size,
            partition.first_lba + partition.sector_count <= u64::MAX,
            partition.sector_count >= 12,
            device::same_shape(*old(device), *device),
            media == old(device).media(),
            device.media() == media,
            device.failures() == old(device).failures(),
            device.stable() == old(device).stable(),
            checksum == boot_sum(media, partition.first_lba, sector_size as nat, k as nat),
        decreases 11 - k,
    {
        match device::load(device, partition.first_lba + k, scratch, sector_size) {
            Ok(()) => {},
            Err(error) => return Err(error),
        }
        checksum = roll_boot_sector(checksum, scratch.head(sector_size), k);
        k = k + 1;
    }
    match device::load(device, partition.first_lba + 11, scratch, sector_size) {
        Ok(()) => {},
        Err(error) => return Err(error),
    }
    let sector = scratch.head(sector_size);
    let mut i: usize = 0;
    while i < sector_size / 4
        invariant
            i <= sector_size / 4,
            sector@.len() == sector_size,
            sector.len() == sector_size,
            sector_size <= 4096,
            sector@ == media[(partition.first_lba + 11) as u64],
            partition.sector_count >= 12,
            checksum == boot_sum(media, partition.first_lba, sector_size as nat, 11),
            scratch@.len() == old(scratch)@.len(),
            device::same_shape(*old(device), *device),
            media == old(device).media(),
            device.media() == media,
            device.failures() == old(device).failures(),
            device.stable() == old(device).stable(),
            forall|j: int| 0 <= j < i ==> #[trigger] bytes::u32_at(sector@, 4 * j) == checksum,
        decreases sector_size / 4 - i,
    {
        if bytes::le_u32(sector, 4 * i) != checksum {
            assert(!holds_sum(sector@, checksum, sector_size as nat)) by {
                assert(bytes::u32_at(sector@, 4 * (i as int)) != checksum);
            }
            return Err(Error::InvalidBootSector);
        }
        i = i + 1;
    }
    Ok(())
}

/// Whether the sector carries the marks of an exFAT boot sector.
pub open spec fn is_exfat_boot(boot: Seq<u8>) -> bool {
    &&& boot.len() >= 512
    &&& boot[3] == 0x45 && boot[4] == 0x58 && boot[5] == 0x46 && boot[6] == 0x41
    &&& boot[7] == 0x54 && boot[8] == 0x20 && boot[9] == 0x20 && boot[10] == 0x20
    &&& boot[510] == 0x55 && boot[511] == 0xaa
}

/// The geometry fields of a boot sector.
pub open spec fn boot_geometry(partition: Partition, boot: Seq<u8>) -> Geometry {
    Geometry {
        partition,
        bytes_per_sector: power2::pow2(boot[108] as nat) as u16,
        sectors_per_cluster: power2::pow2(boot[109] as nat) as u32,
        fat_offset: bytes::u32_at(boot, 80),
        fat_length: bytes::u32_at(boot, 84),
        cluster_heap_offset: bytes::u32_at(boot, 88),
        cluster_count: bytes::u32_at(boot, 92),
        root_cluster: bytes::u32_at(boot, 96),
    }
}

/// What a boot sector says of the volume.
pub open spec fn boot_result<E>(partition: Partition, boot: Seq<u8>, size: nat) -> Result<
    Geometry,
    Error<E>,
> {
    let g = boot_geometry(partition, boot);
    let length = bytes::u64_at(boot, 72);
    if !is_exfat_boot(boot) {
        Err(Error::InvalidBootSector)
    } else if !(9 <= boot[108] <= 12) {
        Err(Error::UnsupportedSectorSize)
    } else if power2::pow2(boot[108] as nat) != size {
        Err(Error::InvalidBootSector)
    } else if boot[108] + boot[109] > 25 {
        Err(Error::UnsupportedClusterSize)
    } else if g.fat_offset == 0 || g.fat_length == 0 || g.cluster_count == 0 || !g.in_heap(
        g.root_cluster,
    ) || length == 0 || g.cluster_heap_offset + g.cluster_count * g.sectors_per_cluster > length
        || length > partition.sector_count {
        Err(Error::Corrupt)
    } else {
        Ok(g)
    }
}

/// The powers of two that a boot sector can name.
pub proof fn lemma_shifts(sector_shift: u8, cluster_shift: u8)
    requires
        9 <= sector_shift <= 12,
        sector_shift + cluster_shift <= 25,
    ensures
        power2::pow2(9) == 512,
        power2::pow2(10) == 1024,
        power2::pow2(11) == 2048,
        power2::pow2(12) == 4096,
        1 <= power2::pow2(cluster_shift as nat) <= 0x1_0000,
        power2::pow2(sector_shift as nat) * power2::pow2(cluster_shift as nat) <= 0x200_0000,
{
    power2::lemma2_to64();
    power2::lemma_pow2_adds(sector_shift as nat, cluster_shift as nat);
    power2::lemma_pow2_pos(cluster_shift as nat);
    if sector_shift + cluster_shift < 25 {
        power2::lemma_pow2_strictly_increases((sector_shift + cluster_shift) as nat, 25);
    }
    if cluster_shift < 16 {
        power2::lemma_pow2_strictly_increases(cluster_shift as nat, 16);
    }
}

/// The geometry of an accepted boot sector is a usable one.
pub proof fn lemma_boot_geometry<E>(partition: Partition, boot: Seq<u8>, size: nat)
    requires
        boot_result::<E>(partition, boot, size) is Ok,
        partition.first_lba + partition.sector_count <= MAX_DEVICE_SECTORS,
    ensures
        boot_result::<E>(partition, boot, size)->Ok_0.wf(),
        boot_result::<E>(partition, boot, size)->Ok_0.bytes_per_sector == size,
        boot_result::<E>(partition, boot, size)->Ok_0.partition == partition,
{
    lemma_shifts(boot[108], boot[109]);
}

/// Read the geometry of a volume from its boot sector.
pub fn parse_boot<E>(
    partition: Partition,
    boot: &[u8],
    device_sector_size: usize,
) -> (result: Result<Geometry, Error<E>>)
    ensures
        result == boot_result::<E>(partition, boot@, device_sector_size as nat),
{
    if boot.len() < 512 || !(boot[3] == 0x45 && boot[4] == 0x58 && boot[5] == 0x46 && boot[6]
        == 0x41 && boot[7] == 0x54 && boot[8] == 0x20 && boot[9] == 0x20 && boot[10] == 0x20)
        || boot[510] != 0x55 || boot[511] != 0xaa {
        return Err(Error::InvalidBootSector);
    }
    let sector_shift: u8 = boot[108];
    let cluster_shift: u8 = boot[109];
    if sector_shift < 9 || sector_shift > 12 {
        return Err(Error::UnsupportedSectorSize);
    }
    let bytes_per_sector: u16 = 1u16 << sector_shift;
    proof {
        lemma_shifts(sector_shift, 0);
        vstd::bits::lemma_u16_shl_is_mul(1, sector_shift as u16);
    }
    if bytes_per_sector as usize != device_sector_size {
        return Err(Error::InvalidBootSector);
    }
    if cluster_shift > 25 || sector_shift as u16 + cluster_shift as u16 > 25 {
        return Err(Error::UnsupportedClusterSize);
    }
    let sectors_per_cluster: u32 = 1u32 << cluster_shift;
    proof {
        lemma_shifts(sector_shift, cluster_shift);
        vstd::bits::lemma_u32_shl_is_mul(1, cluster_shift as u32);
    }
    let geometry = Geometry {
        partition,
        bytes_per_sector,
        sectors_per_cluster,
        fat_offset: bytes::le_u32(boot, 80),
        fat_length: bytes::le_u32(boot, 84),
        cluster_heap_offset: bytes::le_u32(boot, 88),
        cluster_count: bytes::le_u32(boot, 92),
        root_cluster: bytes::le_u32(boot, 96),
    };
    assert(geometry == boot_geometry(partition, boot@));
    let volume_length: u64 = bytes::le_u64(boot, 72);
    if geometry.fat_offset == 0 || geometry.fat_length == 0 || geometry.cluster_count == 0
        || !geometry.contains_cluster(geometry.root_cluster) {
        return Err(Error::Corrupt);
    }
    proof {
        assert(0 <= geometry.cluster_count * geometry.sectors_per_cluster <= 0xffff_ffff * 0x1_0000)
            by (nonlinear_arith)
            requires
                0 <= geometry.cluster_count <= 0xffff_ffff,
                0 <= geometry.sectors_per_cluster <= 0x1_0000,
        ;
    }
    let heap_end: u64 = geometry.cluster_heap_offset as u64 + geometry.cluster_count as u64
        * geometry.sectors_per_cluster as u64;
    if volume_length == 0 || heap_end > volume_length || volume_length > partition.sector_count {
        return Err(Error::Corrupt);
    }
    Ok(geometry)
}

} // verus!
