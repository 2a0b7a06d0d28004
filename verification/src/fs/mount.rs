//! Filesystem construction and block-device ownership accessors.

use crate::device;
use crate::device::{BlockDevice, Media, Scratch};
use crate::error::Error;
use crate::fs::allocation;
use crate::fs::state::FileSystem;
use crate::geometry::{Geometry, MAX_DEVICE_SECTORS};
use crate::mount::system::VolumeLabel;
use crate::mount::volume;
use crate::mount::volume::{Volume, VolumeModel};
use vstd::prelude::*;

verus! {

/// A volume with this metadata.
pub open spec fn volume_of(model: VolumeModel) -> Volume {
    Volume {
        geometry: model.geometry,
        bitmap: model.bitmap,
        upcase: model.upcase,
        label: choose|label: VolumeLabel| label@ == model.label,
    }
}

/// What mounting a filesystem finds: the volume's metadata and its number of
/// free clusters.
pub open spec fn mount_result<E>(
    media: Media,
    sector_size: usize,
    total: u64,
    scratch_len: nat,
) -> Result<(VolumeModel, u32), Error<E>> {
    match volume::mount_result::<E>(media, sector_size, total, scratch_len) {
        Err(error) => Err(error),
        Ok(model) => {
            let count = model.geometry.cluster_count;
            match allocation::used_count(volume_of(model), media, count as nat) {
                None => Err(Error::Corrupt),
                Some(used) => Ok((model, (count - used) as u32)),
            }
        },
    }
}

/// Whether `fs` is `device` with the filesystem that mounting it finds.
pub open spec fn is_mounted<D: BlockDevice>(device: D, scratch_len: nat, fs: FileSystem<D>) -> bool {
    &&& fs.wf()
    &&& device::same_shape(device, fs.device)
    &&& fs.media() == device.media()
    &&& fs.device.stable() == device.stable()
    &&& fs.device.failures() == device.failures()
    &&& mount_result::<D::Error>(
        device.media(),
        device.sector_bytes(),
        device.sector_total(),
        scratch_len,
    ) == Ok::<(VolumeModel, u32), Error<D::Error>>((fs.volume@, fs.free_clusters))
    &&& scratch_len >= fs.volume.geometry.bytes_per_sector
}

/// Whether `returned` is `device` once mounting it has failed with `error`:
/// either its medium holds no filesystem that can be mounted, or `error` is the
/// one that the device has reported meanwhile. Where no sector can be read, the
/// device is as it was.
pub open spec fn is_returned<D: BlockDevice>(
    device: D,
    scratch_len: nat,
    returned: D,
    error: Error<D::Error>,
) -> bool {
    &&& device::answers(
        device,
        returned,
        Err(error),
        mount_result::<D::Error>(
            device.media(),
            device.sector_bytes(),
            device.sector_total(),
            scratch_len,
        ),
    )
    &&& volume::is_unreadable(device.sector_bytes(), scratch_len) ==> {
        &&& error == volume::unreadable_error::<D::Error>(device.sector_bytes())
        &&& returned == device
    }
}

/// Whether `result` is an answer to mounting `device`.
pub open spec fn is_answered<D: BlockDevice>(
    device: D,
    scratch_len: nat,
    result: Result<FileSystem<D>, Error<D::Error>>,
) -> bool {
    match result {
        Ok(fs) => is_mounted(device, scratch_len, fs),
        Err(error) => exists|returned: D| #[trigger]
            is_returned(device, scratch_len, returned, error),
    }
}

/// An answer without the device that a failure returns.
pub open spec fn without_device<D: BlockDevice>(
    result: Result<FileSystem<D>, (D, Error<D::Error>)>,
) -> Result<FileSystem<D>, Error<D::Error>> {
    match result {
        Ok(fs) => Ok(fs),
        Err((_, error)) => Err(error),
    }
}

/// How the label is stored has no part in the count of used clusters.
pub proof fn lemma_same_count(v: Volume, media: Media, n: nat)
    ensures
        allocation::used_count(v, media, n) == allocation::used_count(volume_of(v@), media, n),
    decreases n,
{
    if n > 0 {
        lemma_same_count(v, media, (n - 1) as nat);
    }
}

impl<D: BlockDevice> FileSystem<D> {
    /// Mount `device`, retaining it as this filesystem's exclusive backend.
    pub fn mount(device: D, scratch: &mut Scratch<'_>) -> (result: Result<Self, Error<D::Error>>)
        requires
            device.sector_total() <= MAX_DEVICE_SECTORS,
        ensures
            final(scratch)@.len() == old(scratch)@.len(),
            is_answered(device, old(scratch)@.len(), result),
    {
        match FileSystem::mount_recoverable(device, scratch) {
            Ok(fs) => Ok(fs),
            Err((_, error)) => Err(error),
        }
    }

    /// Mount `device`, returning it on failure so removable media can be
    /// retried after a transient boot-sector read failure.
    pub fn mount_recoverable(device: D, scratch: &mut Scratch<'_>) -> (result: Result<
        Self,
        (D, Error<D::Error>),
    >)
        requires
            device.sector_total() <= MAX_DEVICE_SECTORS,
        ensures
            final(scratch)@.len() == old(scratch)@.len(),
            match result {
                Ok(fs) => is_mounted(device, old(scratch)@.len(), fs),
                Err((returned, error)) => is_returned(
                    device,
                    old(scratch)@.len(),
                    returned,
                    error,
                ),
            },
            is_answered(device, old(scratch)@.len(), without_device(result)),
    {
        let ghost original = device;
        let mut device = device;
        let volume = match Volume::mount(&mut device, scratch) {
            Ok(volume) => volume,
            Err(error) => {
                assert(is_returned(original, old(scratch)@.len(), device, error));
                return Err((device, error));
            },
        };
        let mut fs = FileSystem { device, volume, free_clusters: 0 };
        let ghost before = fs;
        proof {
            lemma_same_count(fs.volume, fs.media(), fs.volume.geometry.cluster_count as nat);
            allocation::lemma_used_bound(
                fs.volume,
                fs.media(),
                fs.volume.geometry.cluster_count as nat,
            );
        }
        match fs.refresh_free_clusters(scratch) {
            Ok(()) => Ok(fs),
            Err(error) => {
                assert(is_returned(original, old(scratch)@.len(), fs.device, error));
                Err((fs.device, error))
            },
        }
    }

    /// Parsed geometry of the mounted volume.
    pub fn geometry(&self) -> (geometry: Geometry)
        ensures
            geometry == self.volume.geometry,
    {
        self.volume.geometry
    }

    /// Borrow the underlying block device.
    pub fn device(&self) -> (device: &D)
        ensures
            *device == self.device,
    {
        &self.device
    }

    /// Mutably borrow the underlying block device.
    pub fn device_mut(&mut self) -> (device: &mut D)
        ensures
            *device == old(self).device,
            *final(self) == (FileSystem { device: *final(device), ..*old(self) }),
    {
        &mut self.device
    }

    /// Consume the filesystem and return its block device.
    pub fn into_device(self) -> (device: D)
        ensures
            device == self.device,
    {
        self.device
    }
}

} // verus!
