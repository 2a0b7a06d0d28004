//! Directories: entry slots and the entry sets that they make up.

pub mod codec;
pub mod entry;
pub mod slots;

pub use entry::{Directory, DirectoryEntry, EntrySet, ExfatTimestamp, Workspace};
pub use slots::EntryLocator;
