//! What a freshly formatted device holds.

use crate::bytes;
use crate::device::SectorWrite;
use crate::error::Error;
use crate::fs::names;
use crate::mount::boot;
use vstd::prelude::*;

verus! {

/// Sectors of the boot region and its backup, and where the FAT starts behind
/// them.
pub const FAT_OFFSET: u32 = 24;

/// FAT value that ends a chain.
pub const END_OF_CHAIN: u32 = 0xffff_ffff;

/// Bytes of an uncompressed UpCase table.
pub const UPCASE_BYTES: u64 = 131_072;

/// How a fresh volume is laid out.
#[derive(Clone, Copy, Debug, Eq, PartialEq)]
pub struct VolumeLayout {
    /// Sectors of the partition.
    pub sectors: u64,
    /// Sectors of a cluster.
    pub per_cluster: u32,
    /// Sectors of the FAT.
    pub fat: u32,
    /// Sectors before the cluster heap.
    pub heap: u32,
    /// Clusters of the heap.
    pub clusters: u32,
}

/// The smallest number of parts of `size` that hold `count`.
pub open spec fn parts(count: int, size: int) -> int {
    (count + size - 1) / size
}

/// Sectors of a cluster on a partition with this many sectors.
pub open spec fn cluster_sectors_for(sectors: u64) -> u32 {
    if sectors >= 1_048_576 {
        64
    } else if sectors >= 131_072 {
        16
    } else {
        1
    }
}

/// Clusters of a heap behind a FAT of `fat` sectors.
pub open spec fn heap_clusters(sectors: u64, per_cluster: u32, fat: int) -> int {
    (sectors - FAT_OFFSET - fat) / per_cluster as int
}

/// Sectors of the FAT for this many clusters.
pub open spec fn fat_sectors(clusters: int) -> int {
    parts((clusters + 2) * 4, 512)
}

/// The layout whose FAT has just the size that its heap needs, sought from a
/// FAT of `fat` sectors on with `tries` tries left.
pub open spec fn layout_from(sectors: u64, per_cluster: u32, fat: int, tries: nat) -> Option<
    VolumeLayout,
>
    decreases tries,
{
    if tries == 0 || FAT_OFFSET + fat > sectors {
        None
    } else {
        let clusters = heap_clusters(sectors, per_cluster, fat);
        let needed = fat_sectors(clusters);
        if needed == fat {
            Some(
                VolumeLayout {
                    sectors,
                    per_cluster,
                    fat: fat as u32,
                    heap: (FAT_OFFSET + fat) as u32,
                    clusters: clusters as u32,
                },
            )
        } else {
            layout_from(sectors, per_cluster, needed, (tries - 1) as nat)
        }
    }
}

impl VolumeLayout {
    /// Bytes of a cluster.
    pub open spec fn cluster_bytes(self) -> int {
        512 * self.per_cluster
    }

    /// Bytes of the allocation bitmap.
    pub open spec fn bitmap_bytes(self) -> int {
        parts(self.clusters as int, 8)
    }

    /// Clusters of the allocation bitmap, which starts at cluster 3.
    pub open spec fn bitmap_clusters(self) -> int {
        parts(self.bitmap_bytes(), self.cluster_bytes())
    }

    /// Clusters of the UpCase table.
    pub open spec fn upcase_clusters(self) -> int {
        parts(UPCASE_BYTES as int, self.cluster_bytes())
    }

    /// First cluster of the UpCase table.
    pub open spec fn upcase_cluster(self) -> int {
        3 + self.bitmap_clusters()
    }

    /// Clusters in use on the fresh volume: root directory, bitmap, table.
    pub open spec fn reserved(self) -> int {
        1 + self.bitmap_clusters() + self.upcase_clusters()
    }

    /// First sector of a cluster.
    pub open spec fn lba(self, cluster: int) -> int {
        1 + self.heap + (cluster - 2) * self.per_cluster
    }

    /// Whether the reserved clusters fit the heap.
    pub open spec fn fits(self) -> bool {
        self.upcase_cluster() + self.upcase_clusters() <= self.clusters + 2
    }

    /// The FAT value of `cluster`.
    pub open spec fn fat_value(self, cluster: int) -> u32 {
        if cluster == 0 {
            0xffff_fff8
        } else if cluster == 1 || cluster == 2 {
            END_OF_CHAIN
        } else if 3 <= cluster < self.upcase_cluster() {
            if cluster + 1 < self.upcase_cluster() {
                (cluster + 1) as u32
            } else {
                END_OF_CHAIN
            }
        } else if self.upcase_cluster() <= cluster < self.upcase_cluster()
            + self.upcase_clusters() {
            if cluster + 1 < self.upcase_cluster() + self.upcase_clusters() {
                (cluster + 1) as u32
            } else {
                END_OF_CHAIN
            }
        } else {
            0
        }
    }
}

/// The MBR with one partition behind it.
pub open spec fn mbr_image(l: VolumeLayout) -> Seq<u8> {
    let blank = bytes::filled(512, 0);
    let typed = bytes::splice(blank, 450, seq![7u8]);
    let placed = bytes::splice(typed, 454, bytes::le32(1));
    let sized = bytes::splice(placed, 458, bytes::le32(l.sectors as u32));
    bytes::splice(sized, 510, seq![0x55u8, 0xaau8])
}

/// Base-two logarithm of a cluster's sectors.
pub open spec fn cluster_shift(per_cluster: u32) -> u8 {
    if per_cluster == 64 {
        6
    } else if per_cluster == 16 {
        4
    } else {
        0
    }
}

/// The first 120 bytes of the boot sector: jump, marks and geometry.
pub open spec fn boot_fields(l: VolumeLayout) -> Seq<u8> {
    seq![0xebu8, 0x76u8, 0x90u8] + seq![
        0x45u8,
        0x58u8,
        0x46u8,
        0x41u8,
        0x54u8,
        0x20u8,
        0x20u8,
        0x20u8,
    ] + bytes::filled(53, 0) + bytes::le64(1) + bytes::le64(l.sectors) + bytes::le32(FAT_OFFSET)
        + bytes::le32(l.fat) + bytes::le32(l.heap) + bytes::le32(l.clusters) + bytes::le32(2)
        + bytes::le32(0x5445_5359) + bytes::le16(0x0100) + seq![
        0u8,
        0u8,
        9u8,
        cluster_shift(l.per_cluster),
        1u8,
        0x80u8,
    ] + bytes::filled(8, 0)
}

/// Sector number `k` of the boot region. Unused boot code is filled with halt
/// instructions, extended boot sectors carry their own signature, and the OEM
/// and reserved sectors stay blank.
pub open spec fn boot_image(l: VolumeLayout, k: int) -> Seq<u8> {
    if k == 0 {
        boot_fields(l) + bytes::filled(390, 0xf4) + seq![0x55u8, 0xaau8]
    } else if k <= 8 {
        bytes::filled(510, 0) + seq![0x55u8, 0xaau8]
    } else {
        bytes::filled(512, 0)
    }
}

/// The checksum of the first `k` sectors of the boot region.
pub open spec fn boot_image_sum(l: VolumeLayout, k: nat) -> u32
    decreases k,
{
    if k == 0 {
        0
    } else {
        boot::boot_sector_sum(
            boot_image_sum(l, (k - 1) as nat),
            boot_image(l, k - 1),
            k - 1,
            512,
        )
    }
}

/// A sector full of copies of a checksum.
pub open spec fn checksum_image(sum: u32) -> Seq<u8> {
    Seq::new(512, |i: int| bytes::le32(sum)[i % 4])
}

/// Sector number `k` of the FAT.
pub open spec fn fat_image(l: VolumeLayout, k: int) -> Seq<u8> {
    Seq::new(512, |i: int| bytes::le32(l.fat_value(128 * k + i / 4))[i % 4])
}

/// A byte whose lowest `n` bits are set.
pub open spec fn low_bits(n: int) -> u8 {
    if n <= 0 {
        0
    } else if n >= 8 {
        0xff
    } else {
        ((1u8 << (n as u8)) - 1) as u8
    }
}

/// Sector number `k` of the allocation bitmap.
pub open spec fn bitmap_image(l: VolumeLayout, k: int) -> Seq<u8> {
    Seq::new(512, |i: int| low_bits(l.reserved() - 8 * (512 * k + i)))
}

/// Byte `i` of an UpCase table that changes ASCII letters only.
pub open spec fn upcase_byte(i: int) -> u8 {
    let unit = names::ascii_upcase((i / 2) as u16);
    if i % 2 == 0 {
        (unit % 0x100) as u8
    } else {
        (unit / 0x100) as u8
    }
}

/// The bytes of an UpCase table that changes ASCII letters only.
pub open spec fn upcase_bytes() -> Seq<u8> {
    Seq::new(UPCASE_BYTES as nat, |i: int| upcase_byte(i))
}

/// Sector number `k` of the UpCase table.
pub open spec fn upcase_image(k: int) -> Seq<u8> {
    Seq::new(512, |i: int| upcase_byte(512 * k + i))
}

/// The first sector of the root directory: bitmap entry and table entry.
pub open spec fn root_image(l: VolumeLayout) -> Seq<u8> {
    seq![0x81u8] + bytes::filled(19, 0) + bytes::le32(3) + bytes::le64(l.bitmap_bytes() as u64)
        + seq![0x82u8] + bytes::filled(3, 0) + bytes::le32(bytes::sum32(0, upcase_bytes()))
        + bytes::filled(12, 0) + bytes::le32(l.upcase_cluster() as u32) + bytes::le64(
        UPCASE_BYTES,
    ) + bytes::filled(448, 0)
}

/// What sector `lba` of a freshly formatted device holds, where the formatter
/// writes it.
pub open spec fn image(l: VolumeLayout, lba: int) -> Seq<u8> {
    if lba == 0 {
        mbr_image(l)
    } else if lba <= 11 {
        boot_image(l, lba - 1)
    } else if lba == 12 || lba == 24 {
        checksum_image(boot_image_sum(l, 11))
    } else if lba <= 23 {
        boot_image(l, lba - 13)
    } else if lba < 25 + l.fat {
        fat_image(l, lba - 25)
    } else if lba == l.lba(2) {
        root_image(l)
    } else if lba < l.lba(3) {
        bytes::filled(512, 0)
    } else if lba < l.lba(l.upcase_cluster()) {
        bitmap_image(l, lba - l.lba(3))
    } else {
        upcase_image(lba - l.lba(l.upcase_cluster()))
    }
}

/// The writes of `count` adjacent sectors from `lba` on.
pub open spec fn image_run(l: VolumeLayout, lba: int, count: int) -> Seq<SectorWrite> {
    Seq::new(
        count as nat,
        |i: int| SectorWrite { lba: (lba + i) as u64, data: image(l, lba + i) },
    )
}

/// The writes of a format, in order: partition table, boot region and its
/// backup, FAT, allocation bitmap, UpCase table, and the root directory last.
pub open spec fn format_writes(l: VolumeLayout) -> Seq<SectorWrite> {
    image_run(l, 0, 25 + l.fat) + image_run(l, l.lba(3), parts(l.bitmap_bytes(), 512)) + image_run(
        l,
        l.lba(l.upcase_cluster()),
        256,
    ) + image_run(l, l.lba(2) + 1, l.per_cluster - 1) + image_run(l, l.lba(2), 1)
}

/// How a device with `total` sectors is laid out, or the reason why not.
pub open spec fn format_layout<E>(sector_size: usize, total: u64, scratch_len: nat) -> Result<
    VolumeLayout,
    Error<E>,
> {
    if sector_size != 512 {
        Err(Error::UnsupportedSectorSize)
    } else if scratch_len < 512 {
        Err(Error::InvalidSectorSize)
    } else if total <= 536 || total - 1 > u32::MAX {
        Err(Error::InvalidPartitionTable)
    } else {
        let sectors = (total - 1) as u64;
        match layout_from(sectors, cluster_sectors_for(sectors), 1, 8) {
            Some(l) => if l.fits() {
                Ok(l)
            } else {
                Err(Error::Corrupt)
            },
            None => Err(Error::Corrupt),
        }
    }
}

/// The writes of a format of this device: none where it is refused.
pub open spec fn format_run<E>(sector_size: usize, total: u64, scratch_len: nat) -> Seq<
    SectorWrite,
> {
    match format_layout::<E>(sector_size, total, scratch_len) {
        Ok(l) => format_writes(l),
        Err(_) => Seq::empty(),
    }
}

/// What a format of this device answers.
pub open spec fn format_result<E>(sector_size: usize, total: u64, scratch_len: nat) -> Result<
    (),
    Error<E>,
> {
    match format_layout::<E>(sector_size, total, scratch_len) {
        Ok(_) => Ok(()),
        Err(error) => Err(error),
    }
}

/// What holds of every layout that the formatter uses.
pub open spec fn is_layout(l: VolumeLayout) -> bool {
    &&& 536 <= l.sectors <= u32::MAX
    &&& l.per_cluster == cluster_sectors_for(l.sectors)
    &&& l.fat == fat_sectors(l.clusters as int)
    &&& l.heap == FAT_OFFSET + l.fat
    &&& l.clusters == heap_clusters(l.sectors, l.per_cluster, l.fat as int)
    &&& l.heap <= l.sectors
}

/// A layout that was found is one that the formatter uses.
pub proof fn lemma_layout(sectors: u64, per_cluster: u32, fat: int, tries: nat)
    requires
        536 <= sectors <= u32::MAX,
        per_cluster == cluster_sectors_for(sectors),
        0 <= fat,
    ensures
        layout_from(sectors, per_cluster, fat, tries) matches Some(l) ==> is_layout(l)
            && l.sectors == sectors && l.per_cluster == per_cluster,
    decreases tries,
{
    if tries > 0 && FAT_OFFSET + fat <= sectors {
        let clusters = heap_clusters(sectors, per_cluster, fat);
        lemma_heap_clusters(sectors, per_cluster, fat);
        lemma_layout(sectors, per_cluster, fat_sectors(clusters), (tries - 1) as nat);
    }
}

/// A heap has no more clusters than the partition has sectors.
pub proof fn lemma_heap_clusters(sectors: u64, per_cluster: u32, fat: int)
    requires
        sectors <= u32::MAX,
        per_cluster == cluster_sectors_for(sectors),
        0 <= fat,
        FAT_OFFSET + fat <= sectors,
    ensures
        0 <= heap_clusters(sectors, per_cluster, fat) <= sectors - FAT_OFFSET - fat,
        0 <= fat_sectors(heap_clusters(sectors, per_cluster, fat)) <= 0x400_0000,
        heap_clusters(sectors, per_cluster, fat) <= 0x400_0000,
{
    let rest = sectors - FAT_OFFSET - fat;
    if per_cluster == 64 {
        assert(rest / 64 <= 0x400_0000);
    } else if per_cluster == 16 {
        assert(rest / 16 <= 0x400_0000);
    }
}

/// How large the parts of a layout are. They are all small, and the reserved
/// clusters are marked within the first sector of the bitmap.
pub proof fn lemma_sizes(l: VolumeLayout)
    requires
        is_layout(l),
    ensures
        l.per_cluster == 1 || l.per_cluster == 16 || l.per_cluster == 64,
        1 <= l.bitmap_bytes() <= 0x80_0000,
        1 <= l.bitmap_clusters() <= 0x100,
        4 <= l.upcase_clusters() <= 0x100,
        l.reserved() <= 0x201,
        1 <= l.fat <= 0x8_0001,
        l.clusters <= 0x400_0000,
        l.bitmap_bytes() <= l.bitmap_clusters() * l.cluster_bytes(),
        l.upcase_clusters() * l.cluster_bytes() == UPCASE_BYTES,
        parts(l.bitmap_bytes(), 512) <= l.bitmap_clusters() * l.per_cluster,
        l.upcase_clusters() * l.per_cluster == 256,
{
    lemma_heap_clusters(l.sectors, l.per_cluster, l.fat as int);
    let rest = l.sectors - FAT_OFFSET - l.fat;
    let bytes = l.bitmap_bytes();
    let table = UPCASE_BYTES as int;
    if l.per_cluster == 64 {
        assert(l.clusters == rest / 64);
        assert(l.bitmap_clusters() == parts(bytes, 32768));
        assert(l.upcase_clusters() == parts(table, 32768));
        assert(l.bitmap_clusters() * l.cluster_bytes() == l.bitmap_clusters() * 32768);
        assert(l.bitmap_clusters() * l.per_cluster == l.bitmap_clusters() * 64);
        assert(l.upcase_clusters() == 4);
    } else if l.per_cluster == 16 {
        assert(l.clusters == rest / 16);
        assert(l.bitmap_clusters() == parts(bytes, 8192));
        assert(l.upcase_clusters() == parts(table, 8192));
        assert(l.bitmap_clusters() * l.cluster_bytes() == l.bitmap_clusters() * 8192);
        assert(l.bitmap_clusters() * l.per_cluster == l.bitmap_clusters() * 16);
        assert(l.upcase_clusters() == 16);
    } else {
        assert(l.clusters == rest / 1);
        assert(rest / 1 == rest);
        assert(l.bitmap_clusters() == parts(bytes, 512));
        assert(l.upcase_clusters() == parts(table, 512));
        assert(l.bitmap_clusters() * l.cluster_bytes() == l.bitmap_clusters() * 512);
        assert(l.bitmap_clusters() * l.per_cluster == l.bitmap_clusters() * 1);
        assert(l.upcase_clusters() == 256);
    }
}

/// Where the parts of a volume lie: one behind the other.
pub proof fn lemma_places(l: VolumeLayout)
    requires
        is_layout(l),
    ensures
        l.lba(2) == 25 + l.fat,
        l.lba(3) == l.lba(2) + l.per_cluster,
        l.lba(l.upcase_cluster()) == l.lba(3) + l.bitmap_clusters() * l.per_cluster,
        l.lba(l.upcase_cluster()) + 256 <= 0x1_0000_0000,
        l.lba(3) + parts(l.bitmap_bytes(), 512) <= l.lba(l.upcase_cluster()),
{
    lemma_sizes(l);
    let per = l.per_cluster as int;
    let count = l.bitmap_clusters();
    assert((2 - 2) * per == 0);
    assert((3 - 2) * per == per);
    assert((count + 1) * per == count * per + per) by (nonlinear_arith);
    assert(0 <= count * per <= 0x100 * 64) by (nonlinear_arith)
        requires
            0 <= count <= 0x100,
            0 <= per <= 64,
    ;
}

} // verus!
