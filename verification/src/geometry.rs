//! Partition extents, volume geometry and the system tables' locations.

use vstd::prelude::*;

verus! {

/// Largest number of sectors of a device on which every sector number that a
/// volume's metadata can name still fits in 64 bits.
pub const MAX_DEVICE_SECTORS: u64 = 0xffff_fffe_0000_0000;

/// First FAT value that marks the end of a cluster chain.
pub const CHAIN_END: u32 = 0xffff_fff8;

/// A discovered exFAT partition extent.
#[derive(Clone, Copy, Debug, Eq, PartialEq)]
pub struct Partition {
    /// First sector of the partition.
    pub first_lba: u64,
    /// Number of sectors in the partition.
    pub sector_count: u64,
}

/// Location and byte length of the active allocation bitmap.
#[derive(Clone, Copy, Debug, Eq, PartialEq)]
pub struct AllocationBitmap {
    /// First cluster of the bitmap's FAT chain.
    pub first_cluster: u32,
    /// Logical bitmap length in bytes.
    pub byte_length: u64,
}

impl AllocationBitmap {
    /// The bitmap byte and the bit within it that stand for `cluster`.
    pub open spec fn position(self, cluster: u32) -> Option<(u64, u8)> {
        if cluster >= 2 && (cluster - 2) / 8 < self.byte_length {
            Some((((cluster - 2) / 8) as u64, ((cluster - 2) % 8) as u8))
        } else {
            None
        }
    }

    /// Return the bitmap byte offset and bit for an exFAT cluster number.
    pub fn position_for(&self, cluster: u32) -> (position: Option<(u64, u8)>)
        ensures
            position == self.position(cluster),
    {
        if cluster < 2 {
            return None;
        }
        let bit: u32 = cluster - 2;
        let byte: u64 = (bit / 8) as u64;
        if byte < self.byte_length {
            Some((byte, (bit % 8) as u8))
        } else {
            None
        }
    }
}

/// Location and checksum of the volume UpCase table.
#[derive(Clone, Copy, Debug, Eq, PartialEq)]
pub struct UpCaseTable {
    /// ExFAT UpCase table checksum.
    pub checksum: u32,
    /// First cluster of the table's FAT chain.
    pub first_cluster: u32,
    /// Logical table length in bytes.
    pub byte_length: u64,
}

/// Parsed boot-sector geometry required for sector and cluster addressing.
#[derive(Clone, Copy, Debug, Eq, PartialEq)]
pub struct Geometry {
    /// Owning partition extent.
    pub partition: Partition,
    /// Logical sector size.
    pub bytes_per_sector: u16,
    /// Logical sectors in each cluster.
    pub sectors_per_cluster: u32,
    /// FAT start, relative to partition start.
    pub fat_offset: u32,
    /// FAT length in sectors.
    pub fat_length: u32,
    /// Cluster heap start, relative to partition start.
    pub cluster_heap_offset: u32,
    /// Number of allocatable clusters.
    pub cluster_count: u32,
    /// Root directory's first cluster.
    pub root_cluster: u32,
}

impl Geometry {
    /// Cluster size in bytes.
    pub open spec fn cluster_bytes(self) -> int {
        self.bytes_per_sector * self.sectors_per_cluster
    }

    /// First number past the valid cluster numbers.
    pub open spec fn cluster_limit(self) -> int {
        if self.cluster_count + 2 <= u32::MAX {
            self.cluster_count + 2
        } else {
            u32::MAX as int
        }
    }

    /// Whether `cluster` is the number of a cluster of the heap.
    pub open spec fn in_heap(self, cluster: u32) -> bool {
        2 <= cluster < self.cluster_limit()
    }

    /// First sector of cluster number `cluster`, wherever that is.
    pub open spec fn heap_lba(self, cluster: int) -> int {
        self.partition.first_lba + self.cluster_heap_offset + (cluster - 2)
            * self.sectors_per_cluster
    }

    /// First sector of `cluster`, where it is a cluster of the heap.
    pub open spec fn lba_of(self, cluster: u32) -> Option<u64> {
        if self.in_heap(cluster) {
            Some(self.heap_lba(cluster as int) as u64)
        } else {
            None
        }
    }

    /// The FAT sector that holds the entry of `cluster`.
    pub open spec fn fat_lba(self, cluster: u32) -> u64 {
        (self.partition.first_lba + self.fat_offset + cluster * 4 / self.bytes_per_sector as int)
            as u64
    }

    /// The byte of its FAT sector at which the entry of `cluster` starts.
    pub open spec fn fat_byte(self, cluster: u32) -> int {
        cluster * 4 % self.bytes_per_sector as int
    }

    /// Whether the entry of `cluster` lies within the FAT.
    pub open spec fn fat_holds(self, cluster: u32) -> bool {
        cluster * 4 / (self.bytes_per_sector as int) < self.fat_length
    }

    /// What the boot sector of a mountable volume guarantees.
    pub open spec fn wf(self) -> bool {
        &&& self.bytes_per_sector == 512 || self.bytes_per_sector == 1024
            || self.bytes_per_sector == 2048 || self.bytes_per_sector == 4096
        &&& 1 <= self.sectors_per_cluster
        &&& self.cluster_bytes() <= 0x200_0000
        &&& self.fat_offset != 0
        &&& self.fat_length != 0
        &&& self.cluster_count != 0
        &&& self.in_heap(self.root_cluster)
        &&& self.cluster_heap_offset + self.cluster_count * self.sectors_per_cluster
            <= self.partition.sector_count
        &&& self.partition.first_lba + self.partition.sector_count <= MAX_DEVICE_SECTORS
    }

    /// Cluster size in bytes.
    pub fn bytes_per_cluster(&self) -> (bytes: u32)
        requires
            self.cluster_bytes() <= u32::MAX,
        ensures
            bytes == self.cluster_bytes(),
    {
        proof {
            assert(0 <= self.bytes_per_sector * self.sectors_per_cluster) by (nonlinear_arith)
                requires
                    0 <= self.bytes_per_sector,
                    0 <= self.sectors_per_cluster,
            ;
        }
        self.bytes_per_sector as u32 * self.sectors_per_cluster
    }

    /// Whether `cluster` is the number of a cluster of the heap.
    pub fn contains_cluster(&self, cluster: u32) -> (inside: bool)
        ensures
            inside == self.in_heap(cluster),
    {
        2 <= cluster && cluster < self.cluster_count.saturating_add(2)
    }

    /// Translate a valid exFAT cluster number to its first sector.
    pub fn cluster_lba(&self, cluster: u32) -> (lba: Option<u64>)
        requires
            self.in_heap(cluster) ==> self.heap_lba(cluster as int) <= u64::MAX,
        ensures
            lba == self.lba_of(cluster),
    {
        if !self.contains_cluster(cluster) {
            return None;
        }
        let index: u64 = (cluster - 2) as u64;
        let spc: u64 = self.sectors_per_cluster as u64;
        proof {
            assert(0 <= index * spc <= 0xffff_ffff * 0xffff_ffff) by (nonlinear_arith)
                requires
                    0 <= index <= 0xffff_ffff,
                    0 <= spc <= 0xffff_ffff,
            ;
        }
        Some(self.partition.first_lba + self.cluster_heap_offset as u64 + index * spc)
    }

    /// A cluster of the heap lies within the volume's partition.
    pub proof fn lemma_heap_bounds(self, cluster: u32)
        requires
            self.wf(),
            self.in_heap(cluster),
        ensures
            self.partition.first_lba + self.cluster_heap_offset <= self.heap_lba(cluster as int),
            self.heap_lba(cluster as int) + self.sectors_per_cluster <= self.partition.first_lba
                + self.partition.sector_count,
            self.heap_lba(cluster as int) + self.sectors_per_cluster <= MAX_DEVICE_SECTORS,
    {
        let spc = self.sectors_per_cluster as int;
        let index = cluster - 2;
        assert(0 <= index * spc && index * spc + spc <= self.cluster_count * spc)
            by (nonlinear_arith)
            requires
                0 <= index,
                index + 1 <= self.cluster_count,
                1 <= spc,
        ;
    }

    /// A FAT entry does not straddle two sectors, and its sector number fits
    /// in 64 bits.
    pub proof fn lemma_fat_byte(self, cluster: u32)
        requires
            self.wf(),
        ensures
            0 <= self.fat_byte(cluster),
            self.fat_byte(cluster) + 4 <= self.bytes_per_sector,
            self.fat_byte(cluster) % 4 == 0,
            self.partition.first_lba + self.fat_offset + cluster * 4
                / self.bytes_per_sector as int <= u64::MAX,
    {
        let byte = cluster * 4;
        if self.bytes_per_sector == 512 {
            assert(byte % 512 % 4 == 0 && byte % 512 <= 508 && byte / 512 <= 0x1_0000_0000);
        } else if self.bytes_per_sector == 1024 {
            assert(byte % 1024 % 4 == 0 && byte % 1024 <= 1020 && byte / 1024 <= 0x1_0000_0000);
        } else if self.bytes_per_sector == 2048 {
            assert(byte % 2048 % 4 == 0 && byte % 2048 <= 2044 && byte / 2048 <= 0x1_0000_0000);
        } else {
            assert(byte % 4096 % 4 == 0 && byte % 4096 <= 4092 && byte / 4096 <= 0x1_0000_0000);
        }
    }

    /// The FAT sector that holds the table byte `byte`, where the FAT is that
    /// long.
    pub fn fat_lba_for_byte(&self, byte: u64) -> (lba: Option<u64>)
        requires
            self.wf(),
        ensures
            lba == if byte / (self.bytes_per_sector as u64) < self.fat_length {
                Some(
                    (self.partition.first_lba + self.fat_offset + byte
                        / self.bytes_per_sector as u64) as u64,
                )
            } else {
                None::<u64>
            },
    {
        let sector: u64 = byte / self.bytes_per_sector as u64;
        if sector < self.fat_length as u64 {
            Some(self.partition.first_lba + self.fat_offset as u64 + sector)
        } else {
            None
        }
    }
}

} // verus!
