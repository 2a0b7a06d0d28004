//! An allocation-free exFAT filesystem with verified contracts.

pub mod arith;
pub mod bytes;
pub mod device;
pub mod directory;
pub mod error;
pub mod format;
pub mod fs;
pub mod geometry;
pub mod laws;
pub mod mount;

pub use device::{BlockDevice, Scratch};
pub use directory::{Directory, DirectoryEntry, EntryLocator, ExfatTimestamp, Workspace};
pub use error::Error;
pub use format::format_exfat;
pub use fs::{File, FileSystem};
pub use geometry::{AllocationBitmap, Geometry, Partition, UpCaseTable};
pub use mount::{Volume, VolumeLabel};
