//! Volume mounting and media discovery.

pub mod boot;
pub mod crc;
pub mod partition;
pub mod system;
pub mod volume;

pub use system::VolumeLabel;
pub use volume::Volume;
