//! Mounting: from a device to the metadata of the volume on it.

use crate::device;
use crate::device::{BlockDevice, Media, Scratch};
use crate::error::Error;
use crate::geometry::{AllocationBitmap, Geometry, Partition, UpCaseTable, MAX_DEVICE_SECTORS};
use crate::mount::boot;
use crate::mount::partition;
use crate::mount::system;
use crate::mount::system::VolumeLabel;
use vstd::prelude::*;

verus! {

/// Read-only metadata discovered while mounting an exFAT volume.
#[derive(Clone, Copy, Debug, Eq, PartialEq)]
pub struct Volume {
    /// Parsed boot-sector geometry.
    pub geometry: Geometry,
    /// Active allocation-bitmap location.
    pub bitmap: AllocationBitmap,
    /// UpCase-table location and checksum.
    pub upcase: UpCaseTable,
    /// Volume label stored in the root directory.
    pub label: VolumeLabel,
}

/// The metadata of a volume, with the label as a sequence.
pub struct VolumeModel {
    /// Parsed boot-sector geometry.
    pub geometry: Geometry,
    /// Active allocation-bitmap location.
    pub bitmap: AllocationBitmap,
    /// UpCase-table location and checksum.
    pub upcase: UpCaseTable,
    /// Units of the volume label.
    pub label: Seq<u16>,
}

/// The partition that a device's partition tables name.
pub open spec fn partition_result<E>(media: Media, size: nat, total: u64) -> Result<
    Partition,
    Error<E>,
> {
    if partition::is_protective(media[0]) {
        if total < 2 {
            Err(Error::InvalidGpt)
        } else {
            partition::gpt_result(media, size, total)
        }
    } else {
        partition::mbr_result(media[0])
    }
}

/// What the partition holds: an exFAT volume, or the reason why not.
pub open spec fn volume_result<E>(media: Media, partition: Partition, size: nat, total: u64) -> Result<
    VolumeModel,
    Error<E>,
> {
    if partition.first_lba >= total || partition.sector_count > total - partition.first_lba {
        Err(Error::InvalidPartitionTable)
    } else if !boot::boot_region_ok(media, partition, size) {
        Err(Error::InvalidBootSector)
    } else {
        match boot::boot_result::<E>(partition, media[partition.first_lba], size) {
            Err(error) => Err(error),
            Ok(geometry) => match system::root_system(geometry, media) {
                None => Err(Error::Corrupt),
                Some((bitmap, upcase, label)) => if system::upcase_valid(geometry, media, upcase) {
                    Ok(VolumeModel { geometry, bitmap, upcase, label })
                } else {
                    Err(Error::Corrupt)
                },
            },
        }
    }
}

/// What mounting a device answers.
pub open spec fn mount_result<E>(
    media: Media,
    sector_size: usize,
    total: u64,
    scratch_len: nat,
) -> Result<VolumeModel, Error<E>> {
    match boot::sector_size_result::<E>(sector_size) {
        Err(error) => Err(error),
        Ok(size) => if scratch_len < size {
            Err(Error::InvalidSectorSize)
        } else {
            match partition_result::<E>(media, size as nat, total) {
                Err(error) => Err(error),
                Ok(partition) => volume_result(media, partition, size as nat, total),
            }
        },
    }
}

/// Whether no sector can be read: exFAT does not support the sector size, or the
/// scratch storage does not hold a sector.
pub open spec fn is_unreadable(size: usize, scratch_len: nat) -> bool {
    boot::sector_size_result::<()>(size) is Err || scratch_len < size
}

/// The error that mounting answers where no sector can be read.
pub open spec fn unreadable_error<E>(size: usize) -> Error<E> {
    match boot::sector_size_result::<E>(size) {
        Err(error) => error,
        Ok(_) => Error::InvalidSectorSize,
    }
}

/// A mounted volume by its model, or the error.
pub open spec fn volume_view<E>(result: Result<Volume, Error<E>>) -> Result<
    VolumeModel,
    Error<E>,
> {
    match result {
        Ok(volume) => Ok(volume@),
        Err(error) => Err(error),
    }
}

impl Volume {
    /// The volume's metadata, with the label as a sequence.
    pub open spec fn view(&self) -> VolumeModel {
        VolumeModel {
            geometry: self.geometry,
            bitmap: self.bitmap,
            upcase: self.upcase,
            label: self.label@,
        }
    }

    /// What every mounted volume has.
    pub open spec fn wf(self) -> bool {
        self.geometry.wf() && self.label.wf()
    }

    /// Parsed boot-sector geometry.
    pub fn geometry(&self) -> (geometry: Geometry)
        ensures
            geometry == self.geometry,
    {
        self.geometry
    }

    /// Active allocation-bitmap location.
    pub fn allocation_bitmap(&self) -> (bitmap: AllocationBitmap)
        ensures
            bitmap == self.bitmap,
    {
        self.bitmap
    }

    /// UpCase-table location and checksum.
    pub fn upcase_table(&self) -> (table: UpCaseTable)
        ensures
            table == self.upcase,
    {
        self.upcase
    }

    /// Volume label stored in the root directory; empty where there is none.
    pub fn label(&self) -> (label: VolumeLabel)
        ensures
            label == self.label,
    {
        self.label
    }

    /// Validate and discover an exFAT volume on `device`.
    pub fn mount<D: BlockDevice>(device: &mut D, scratch: &mut Scratch<'_>) -> (result: Result<
        Self,
        Error<D::Error>,
    >)
        requires
            old(device).sector_total() <= MAX_DEVICE_SECTORS,
        ensures
            final(scratch)@.len() == old(scratch)@.len(),
            device::answers(
                *old(device),
                *final(device),
                volume_view(result),
                mount_result(
                    old(device).media(),
                    old(device).sector_bytes(),
                    old(device).sector_total(),
                    old(scratch)@.len(),
                ),
            ),
            result matches Ok(volume) ==> {
                &&& volume.wf()
                &&& volume.geometry.bytes_per_sector == old(device).sector_bytes()
                &&& old(scratch)@.len() >= volume.geometry.bytes_per_sector
            },
            is_unreadable(old(device).sector_bytes(), old(scratch)@.len()) ==> {
                &&& result == Err::<Self, Error<D::Error>>(
                    unreadable_error(old(device).sector_bytes()),
                )
                &&& *final(device) == *old(device)
            },
    {
        let ghost media = device.media();
        let size: usize = match boot::checked_sector_size(device.sector_size()) {
            Ok(size) => size,
            Err(error) => return Err(error),
        };
        if scratch.len() < size {
            return Err(Error::InvalidSectorSize);
        }
        match device::load(device, 0, scratch, size) {
            Ok(()) => {},
            Err(error) => return Err(error),
        }
        let total: u64 = device.sector_count();
        let found = if partition::has_protective_mbr(scratch.head(size)) {
            partition::gpt_partition(device, scratch, size)
        } else {
            partition::mbr_partition(scratch.head(size))
        };
        let partition = match found {
            Ok(partition) => partition,
            Err(error) => return Err(error),
        };
        if partition.first_lba >= total || partition.sector_count > total - partition.first_lba {
            return Err(Error::InvalidPartitionTable);
        }
        match boot::validate_boot_checksum(device, partition, scratch, size) {
            Ok(()) => {},
            Err(error) => return Err(error),
        }
        match device::load(device, partition.first_lba, scratch, size) {
            Ok(()) => {},
            Err(error) => return Err(error),
        }
        let geometry = match boot::parse_boot(partition, scratch.head(size), size) {
            Ok(geometry) => geometry,
            Err(error) => return Err(error),
        };
        proof {
            boot::lemma_boot_geometry::<D::Error>(
                partition,
                media[partition.first_lba],
                size as nat,
            );
        }
        let (bitmap, upcase, label) = match system::discover_root_system_entries(
            device,
            geometry,
            scratch,
        ) {
            Ok(found) => found,
            Err(error) => return Err(error),
        };
        match system::validate_upcase_table(device, geometry, upcase, scratch) {
            Ok(()) => {},
            Err(error) => return Err(error),
        }
        Ok(Volume { geometry, bitmap, upcase, label })
    }
}

} // verus!
