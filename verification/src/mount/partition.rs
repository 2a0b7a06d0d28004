//! Finding the exFAT partition through an MBR or a GUID partition table.

use crate::bytes;
use crate::device;
use crate::device::{BlockDevice, Media, Scratch};
use crate::error::Error;
use crate::geometry::Partition;
use crate::mount::crc;
use vstd::prelude::*;

verus! {

/// Byte of the MBR sector at which entry number `i` starts.
pub open spec fn mbr_entry_start(i: int) -> int {
    446 + 16 * i
}

/// The partition that MBR entry number `i` describes, where it is a usable
/// one of the exFAT type.
pub open spec fn mbr_entry(sector: Seq<u8>, i: int) -> Option<Partition> {
    let at = mbr_entry_start(i);
    let first = bytes::u32_at(sector, at + 8);
    let count = bytes::u32_at(sector, at + 12);
    if sector[at + 4] == 0x07 && first != 0 && count != 0 {
        Some(Partition { first_lba: first as u64, sector_count: count as u64 })
    } else {
        None
    }
}

/// The first usable entry among those from number `i` on.
pub open spec fn mbr_first_entry(sector: Seq<u8>, i: int) -> Option<Partition>
    decreases 4 - i,
{
    if i >= 4 {
        None
    } else {
        match mbr_entry(sector, i) {
            Some(partition) => Some(partition),
            None => mbr_first_entry(sector, i + 1),
        }
    }
}

/// What an MBR sector says of the exFAT partition.
pub open spec fn mbr_result<E>(sector: Seq<u8>) -> Result<Partition, Error<E>> {
    if sector.len() < 512 || sector[510] != 0x55 || sector[511] != 0xaa {
        Err(Error::InvalidPartitionTable)
    } else {
        match mbr_first_entry(sector, 0) {
            Some(partition) => Ok(partition),
            None => Err(Error::PartitionNotFound),
        }
    }
}

/// Whether the sector is the MBR that protects a GUID partition table.
pub open spec fn is_protective(sector: Seq<u8>) -> bool {
    &&& sector.len() >= 512
    &&& exists|i: int| 0 <= i < 4 && sector[#[trigger] mbr_entry_start(i) + 4] == 0xee
}

/// Find the exFAT partition in an MBR sector.
pub fn mbr_partition<E>(sector: &[u8]) -> (result: Result<Partition, Error<E>>)
    ensures
        result == mbr_result::<E>(sector@),
{
    if sector.len() < 512 || sector[510] != 0x55 || sector[511] != 0xaa {
        return Err(Error::InvalidPartitionTable);
    }
    let mut i: usize = 0;
    while i < 4
        invariant
            i <= 4,
            sector.len() >= 512,
            mbr_first_entry(sector@, 0) == mbr_first_entry(sector@, i as int),
            sector@[510] == 0x55,
            sector@[511] == 0xaa,
        decreases 4 - i,
    {
        let at: usize = 446 + 16 * i;
        if sector[at + 4] == 0x07 {
            let first: u32 = bytes::le_u32(sector, at + 8);
            let count: u32 = bytes::le_u32(sector, at + 12);
            if first != 0 && count != 0 {
                return Ok(Partition { first_lba: first as u64, sector_count: count as u64 });
            }
        }
        i = i + 1;
    }
    Err(Error::PartitionNotFound)
}

/// Whether a sector is a protective MBR.
pub fn has_protective_mbr(sector: &[u8]) -> (protective: bool)
    ensures
        protective == is_protective(sector@),
{
    if sector.len() < 512 {
        return false;
    }
    let mut i: usize = 0;
    while i < 4
        invariant
            i <= 4,
            sector.len() >= 512,
            forall|k: int| 0 <= k < i ==> sector@[#[trigger] mbr_entry_start(k) + 4] != 0xee,
        decreases 4 - i,
    {
        if sector[446 + 16 * i + 4] == 0xee {
            assert(sector@[mbr_entry_start(i as int) + 4] == 0xee);
            return true;
        }
        i = i + 1;
    }
    false
}

/// Whether the bytes from `at` on are the type GUID of a basic data
/// partition.
pub open spec fn is_basic_data(data: Seq<u8>, at: int) -> bool {
    &&& data[at] == 0xa2 && data[at + 1] == 0xa0 && data[at + 2] == 0xd0 && data[at + 3] == 0xeb
    &&& data[at + 4] == 0xe5 && data[at + 5] == 0xb9 && data[at + 6] == 0x33 && data[at + 7] == 0x44
    &&& data[at + 8] == 0x87 && data[at + 9] == 0xc0 && data[at + 10] == 0x68 && data[at + 11]
        == 0xb6
    &&& data[at + 12] == 0xb7 && data[at + 13] == 0x26 && data[at + 14] == 0x99 && data[at + 15]
        == 0xc7
}

/// Where the entries of a GUID partition table lie.
pub struct EntryTable {
    /// First sector of the entries.
    pub lba: u64,
    /// Bytes of one entry.
    pub entry_size: nat,
    /// Bytes of all entries.
    pub bytes: nat,
    /// CRC-32 that the header records of them.
    pub crc: u32,
}

impl EntryTable {
    /// Sectors that the entries take.
    pub open spec fn sectors(self, size: nat) -> nat {
        ((self.bytes + size - 1) as nat) / size
    }

    /// Bytes of entries in sector number `k` of the table.
    pub open spec fn usable(self, size: nat, k: int) -> int {
        if self.bytes - k * size < size {
            self.bytes - k * size
        } else {
            size as int
        }
    }

    /// The CRC register after the first `k` sectors of the table.
    pub open spec fn register(self, media: Media, size: nat, k: nat) -> u32
        decreases k,
    {
        if k == 0 {
            0xffff_ffff
        } else {
            crc::crc_register(
                self.register(media, size, (k - 1) as nat),
                media[(self.lba + k - 1) as u64].take(self.usable(size, k - 1)),
            )
        }
    }

    /// First and last sector of the first basic data partition among the
    /// entries that start in `data`, which is sector number `k` of the table,
    /// at byte `offset` or later.
    pub open spec fn in_sector(self, data: Seq<u8>, size: nat, k: int, offset: nat) -> Option<
        (u64, u64),
    >
        decreases size - offset,
    {
        if self.entry_size == 0 || offset + self.entry_size > size || k * size + offset
            >= self.bytes {
            None
        } else if is_basic_data(data, offset as int) {
            Some(
                (
                    bytes::u64_at(data, offset as int + 32),
                    bytes::u64_at(data, offset as int + 40),
                ),
            )
        } else {
            self.in_sector(data, size, k, offset + self.entry_size)
        }
    }

    /// First and last sector of the first basic data partition among the
    /// entries in the first `k` sectors of the table.
    pub open spec fn candidate(self, media: Media, size: nat, k: nat) -> Option<(u64, u64)>
        decreases k,
    {
        if k == 0 {
            None
        } else {
            match self.candidate(media, size, (k - 1) as nat) {
                Some(found) => Some(found),
                None => self.in_sector(media[(self.lba + k - 1) as u64], size, k - 1, 0),
            }
        }
    }

    /// Later sectors do not replace a partition that was found.
    pub proof fn lemma_candidate_stays(self, media: Media, size: nat, k: nat, n: nat)
        requires
            k <= n,
            self.candidate(media, size, k) is Some,
        ensures
            self.candidate(media, size, n) == self.candidate(media, size, k),
        decreases n,
    {
        if k < n {
            self.lemma_candidate_stays(media, size, k, (n - 1) as nat);
        }
    }
}

/// The header fields that a header sector must have, and the table that they
/// describe.
pub open spec fn gpt_header(header: Seq<u8>, size: nat, total: u64) -> Option<EntryTable> {
    let header_size = bytes::u32_at(header, 12);
    let count = bytes::u32_at(header, 80);
    let entry_size = bytes::u32_at(header, 84);
    let table = EntryTable {
        lba: bytes::u64_at(header, 72),
        entry_size: entry_size as nat,
        bytes: (count * entry_size) as nat,
        crc: bytes::u32_at(header, 88),
    };
    if {
        &&& is_gpt_signature(header)
        &&& 92 <= header_size <= size
        &&& crc::crc_of(bytes::splice(header, 16, bytes::filled(4, 0)).take(header_size as int))
            == bytes::u32_at(header, 16)
        &&& 1 <= count <= 16384
        &&& 128 <= entry_size <= size
        &&& entry_size % 8 == 0
        &&& table.lba != 0
        &&& table.lba + table.sectors(size) <= total
    } {
        Some(table)
    } else {
        None
    }
}

/// Whether the sector starts with the signature of a GUID partition table.
pub open spec fn is_gpt_signature(header: Seq<u8>) -> bool {
    &&& header[0] == 0x45 && header[1] == 0x46 && header[2] == 0x49 && header[3] == 0x20
    &&& header[4] == 0x50 && header[5] == 0x41 && header[6] == 0x52 && header[7] == 0x54
}

/// Whether the sectors from `first` to `last` can be a partition of a device
/// with `total` sectors.
pub open spec fn is_extent(first: u64, last: u64, total: u64) -> bool {
    0 < first <= last < total
}

/// What a GUID partition table says of the exFAT partition.
pub open spec fn gpt_result<E>(media: Media, size: nat, total: u64) -> Result<
    Partition,
    Error<E>,
> {
    match gpt_header(media[1], size, total) {
        None => Err(Error::InvalidGpt),
        Some(table) => {
            let count = table.sectors(size);
            let candidate = table.candidate(media, size, count);
            if table.register(media, size, count) ^ 0xffff_ffff != table.crc {
                Err(Error::InvalidGpt)
            } else {
                match candidate {
                    None => Err(Error::PartitionNotFound),
                    Some((first, last)) => if is_extent(first, last, total) {
                        Ok(
                            Partition {
                                first_lba: first,
                                sector_count: (last - first + 1) as u64,
                            },
                        )
                    } else {
                        Err(Error::InvalidGpt)
                    },
                }
            }
        },
    }
}

/// Whether the bytes from `at` on are the type GUID of a basic data
/// partition.
fn has_basic_data_guid(data: &[u8], at: usize) -> (found: bool)
    requires
        at + 16 <= data.len(),
    ensures
        found == is_basic_data(data@, at as int),
{
    data[at] == 0xa2 && data[at + 1] == 0xa0 && data[at + 2] == 0xd0 && data[at + 3] == 0xeb
        && data[at + 4] == 0xe5 && data[at + 5] == 0xb9 && data[at + 6] == 0x33 && data[at + 7]
        == 0x44 && data[at + 8] == 0x87 && data[at + 9] == 0xc0 && data[at + 10] == 0x68 && data[at
        + 11] == 0xb6 && data[at + 12] == 0xb7 && data[at + 13] == 0x26 && data[at + 14] == 0x99
        && data[at + 15] == 0xc7
}

/// Find the first basic data partition among the entries of one sector.
fn candidate_in_sector(
    data: &[u8],
    entry_size: usize,
    table_bytes: u64,
    base: u64,
    Ghost(table): Ghost<EntryTable>,
    Ghost(k): Ghost<int>,
) -> (found: Option<(u64, u64)>)
    requires
        data.len() <= 4096,
        128 <= entry_size <= data.len(),
        table.entry_size == entry_size,
        table.bytes == table_bytes,
        base == k * data@.len(),
        base < table_bytes <= 0x400_0000,
    ensures
        found == table.in_sector(data@, data@.len(), k, 0),
{
    let mut offset: usize = 0;
    while offset + entry_size <= data.len() && base + (offset as u64) < table_bytes
        invariant
            data.len() <= 4096,
            128 <= entry_size <= data.len(),
            offset <= data.len(),
            table.entry_size == entry_size,
            table.bytes == table_bytes,
            base == k * data@.len(),
            base < table_bytes <= 0x400_0000,
            table.in_sector(data@, data@.len(), k, 0) == table.in_sector(
                data@,
                data@.len(),
                k,
                offset as nat,
            ),
        decreases data.len() - offset,
    {
        if has_basic_data_guid(data, offset) {
            return Some((bytes::le_u64(data, offset + 32), bytes::le_u64(data, offset + 40)));
        }
        offset = offset + entry_size;
    }
    None
}

/// Find the exFAT partition in a GUID partition table.
pub fn gpt_partition<D: BlockDevice>(
    device: &mut D,
    scratch: &mut Scratch<'_>,
    sector_size: usize,
) -> (result: Result<Partition, Error<D::Error>>)
    requires
        old(device).sector_bytes() == sector_size,
        512 <= sector_size <= 4096,
        sector_size <= old(scratch)@.len(),
    ensures
        final(scratch)@.len() == old(scratch)@.len(),
        device::answers(
            *old(device),
            *final(device),
            result,
            if old(device).sector_total() < 2 {
                Err(Error::InvalidGpt)
            } else {
                gpt_result::<D::Error>(
                    old(device).media(),
                    sector_size as nat,
                    old(device).sector_total(),
                )
            },
        ),
{
    let total: u64 = device.sector_count();
    if total < 2 {
        return Err(Error::InvalidGpt);
    }
    match device::load(device, 1, scratch, sector_size) {
        Ok(()) => {},
        Err(error) => return Err(error),
    }
    let ghost media = device.media();
    let ghost sector = media[1];
    let ghost size = sector_size as nat;
    let header = scratch.head(sector_size);
    if !(header[0] == 0x45 && header[1] == 0x46 && header[2] == 0x49 && header[3] == 0x20
        && header[4] == 0x50 && header[5] == 0x41 && header[6] == 0x52 && header[7] == 0x54) {
        return Err(Error::InvalidGpt);
    }
    let header_size: u32 = bytes::le_u32(header, 12);
    if header_size < 92 || header_size as usize > sector_size {
        return Err(Error::InvalidGpt);
    }
    let header_crc: u32 = bytes::le_u32(header, 16);
    let entries_lba: u64 = bytes::le_u64(header, 72);
    let entry_count: u32 = bytes::le_u32(header, 80);
    let entry_bytes: u32 = bytes::le_u32(header, 84);
    let entries_crc: u32 = bytes::le_u32(header, 88);
    bytes::fill(scratch.sector(sector_size), 16, 20, 0);
    let header = scratch.head(sector_size);
    assert(header@ =~= bytes::splice(sector, 16, bytes::filled(4, 0)));
    if crc::crc32(header, header_size as usize) != header_crc {
        return Err(Error::InvalidGpt);
    }
    if entry_count == 0 || entry_count > 16_384 || entry_bytes < 128 || entry_bytes as usize
        > sector_size || entry_bytes % 8 != 0 {
        return Err(Error::InvalidGpt);
    }
    proof {
        assert(128 <= entry_count * entry_bytes <= 16384 * 4096) by (nonlinear_arith)
            requires
                1 <= entry_count <= 16384,
                128 <= entry_bytes <= 4096,
        ;
    }
    let table_bytes: u64 = entry_count as u64 * entry_bytes as u64;
    let table_sectors: u64 = (table_bytes + (sector_size as u64 - 1)) / sector_size as u64;
    let ghost table = EntryTable {
        lba: entries_lba,
        entry_size: entry_bytes as nat,
        bytes: table_bytes as nat,
        crc: entries_crc,
    };
    assert(table_sectors == table.sectors(size));
    proof {
        vstd::arithmetic::div_mod::lemma_fundamental_div_mod(
            table_bytes + sector_size - 1,
            sector_size as int,
        );
        vstd::arithmetic::div_mod::lemma_div_is_ordered_by_denominator(
            table_bytes + sector_size - 1,
            1,
            sector_size as int,
        );
        assert(table_sectors <= 0x800_0000);
    }
    if entries_lba == 0 || entries_lba > total || table_sectors > total - entries_lba {
        return Err(Error::InvalidGpt);
    }
    assert(gpt_header(sector, size, total) == Some(table));
    let mut register: u32 = 0xffff_ffff;
    let mut candidate: Option<(u64, u64)> = None;
    let mut k: u64 = 0;
    while k < table_sectors
        invariant
            k <= table_sectors,
            512 <= sector_size <= 4096,
            sector_size == size,
            sector_size <= scratch@.len(),
            scratch@.len() == old(scratch)@.len(),
            device.sector_bytes() == sector_size,
            128 <= entry_bytes <= sector_size,
            128 <= table_bytes <= 0x400_0000,
            total == device.sector_total(),
            entries_lba + table_sectors <= total,
            table_sectors == table.sectors(size),
            table_sectors * sector_size < table_bytes + sector_size,
            table.lba == entries_lba,
            table.entry_size == entry_bytes,
            table.bytes == table_bytes,
            table.crc == entries_crc,
            media == device.media(),
            device::same_shape(*old(device), *device),
            device.media() == old(device).media(),
            device.failures() == old(device).failures(),
            device.stable() == old(device).stable(),
            total >= 2,
            gpt_header(media[1], size, total) == Some(table),
            register == table.register(media, size, k as nat),
            candidate == table.candidate(media, size, k as nat),
            candidate matches Some((first, last)) ==> is_extent(first, last, total),
        decreases table_sectors - k,
    {
        match device::load(device, entries_lba + k, scratch, sector_size) {
            Ok(()) => {},
            Err(error) => return Err(error),
        }
        proof {
            crate::arith::lemma_scaled(k + 1, table_sectors as int, sector_size as int);
            assert((k + 1) * sector_size == k * sector_size + sector_size) by (nonlinear_arith);
            crate::arith::lemma_scaled(0, k as int, sector_size as int);
        }
        let data = scratch.head(sector_size);
        let base: u64 = k * sector_size as u64;
        let usable: u64 = if table_bytes - base < sector_size as u64 {
            table_bytes - base
        } else {
            sector_size as u64
        };
        register = crc::crc32_step(register, data, usable as usize);
        if candidate.is_none() {
            candidate = candidate_in_sector(
                data,
                entry_bytes as usize,
                table_bytes,
                base,
                Ghost(table),
                Ghost(k as int),
            );
            if let Some((first, last)) = candidate {
                if first == 0 || last < first || last >= total {
                    proof {
                        table.lemma_candidate_stays(
                            media,
                            size,
                            (k + 1) as nat,
                            table_sectors as nat,
                        );
                    }
                    return Err(Error::InvalidGpt);
                }
            }
        }
        k = k + 1;
    }
    if register ^ 0xffff_ffff != entries_crc {
        return Err(Error::InvalidGpt);
    }
    match candidate {
        None => Err(Error::PartitionNotFound),
        Some((first, last)) => Ok(
            Partition { first_lba: first, sector_count: last - first + 1 },
        ),
    }
}

} // verus!
