//! Detached, allocation-free file handles.

use crate::directory::entry::{DirectoryEntry, EntryModel};
use crate::directory::slots::EntryLocator;
use crate::geometry::Geometry;
use vstd::prelude::*;

verus! {

/// Fixed-size detached handle for a regular exFAT file.
///
/// It does not borrow the filesystem; use it only with the filesystem that
/// opened or created it and serialize all access through that filesystem.
#[derive(Clone, Copy, Debug, Eq, PartialEq)]
pub struct File {
    /// Primary entry of the file's entry set.
    pub primary: EntryLocator,
    /// Stream extension of the file's entry set.
    pub stream: EntryLocator,
    /// Storage for the locators of the file's entry set.
    pub entry_locs: [EntryLocator; 19],
    /// Number of locators in use.
    pub entry_count: u8,
    /// First cluster of the stream.
    pub first_cluster: u32,
    /// Allocated stream length in bytes.
    pub data_length: u64,
    /// Logical file length visible to readers.
    pub valid_length: u64,
    /// Current sequential read/write position.
    pub position: u64,
    /// Whether the stream uses contiguous clusters.
    pub no_fat_chain: bool,
    /// Number of the last cluster resolved through a FAT chain. Sequential I/O
    /// can continue from here instead of walking from the first cluster each
    /// time.
    pub cached_cluster_index: Option<u64>,
    /// That cluster.
    pub cached_cluster: u32,
}

/// A file handle, with the locators as a sequence.
#[verifier::ext_equal]
pub struct FileModel {
    /// Primary entry of the file's entry set.
    pub primary: EntryLocator,
    /// Stream extension of the file's entry set.
    pub stream: EntryLocator,
    /// Locators of the file's entry set.
    pub locs: Seq<EntryLocator>,
    /// First cluster of the stream.
    pub first_cluster: u32,
    /// Allocated stream length in bytes.
    pub data_length: u64,
    /// Logical file length visible to readers.
    pub valid_length: u64,
    /// Current sequential read/write position.
    pub position: u64,
    /// Whether the stream uses contiguous clusters.
    pub no_fat_chain: bool,
    /// Number and cluster of the last resolved part of a FAT chain.
    pub cache: Option<(u64, u32)>,
}

impl FileModel {
    /// Whether the cached cluster does not lie past the position, so that
    /// sequential access can go on from it.
    pub open spec fn cache_behind(self, g: Geometry) -> bool {
        self.cache matches Some((index, _)) ==> index * g.cluster_bytes() <= self.position
    }
}

/// The handle of a file that was just opened.
pub open spec fn opened(entry: EntryModel) -> FileModel {
    FileModel {
        primary: entry.primary,
        stream: entry.stream,
        locs: entry.locs,
        first_cluster: entry.first_cluster,
        data_length: entry.data_length,
        valid_length: entry.valid_length,
        position: 0,
        no_fat_chain: entry.no_fat_chain,
        cache: None,
    }
}

impl File {
    /// The handle, with the locators as a sequence.
    pub open spec fn view(&self) -> FileModel {
        FileModel {
            primary: self.primary,
            stream: self.stream,
            locs: self.entry_locs@.take(self.entry_count as int),
            first_cluster: self.first_cluster,
            data_length: self.data_length,
            valid_length: self.valid_length,
            position: self.position,
            no_fat_chain: self.no_fat_chain,
            cache: match self.cached_cluster_index {
                Some(index) => Some((index, self.cached_cluster)),
                None => None,
            },
        }
    }

    /// Whether the locators in use fit the storage.
    pub open spec fn wf(self) -> bool {
        self.entry_count <= 19
    }

    /// The handle of a file that is described by `entry`.
    pub fn opened(entry: &DirectoryEntry) -> (file: Self)
        requires
            entry.wf(),
        ensures
            file.wf(),
            file@ == opened(entry@),
    {
        File {
            primary: entry.primary,
            stream: entry.stream,
            entry_locs: entry.entry_locs,
            entry_count: entry.entry_count,
            first_cluster: entry.first_cluster,
            data_length: entry.data_length,
            valid_length: entry.valid_length,
            position: 0,
            no_fat_chain: entry.no_fat_chain,
            cached_cluster_index: None,
            cached_cluster: 0,
        }
    }

    /// Logical file length visible to readers. Allocation may be larger than
    /// this value because exFAT records a cluster-rounded data length.
    pub fn len(&self) -> (len: u64)
        ensures
            len == self@.valid_length,
    {
        self.valid_length
    }

    /// Current sequential read/write position.
    pub fn position(&self) -> (position: u64)
        ensures
            position == self@.position,
    {
        self.position
    }

    /// Whether the visible file length is zero.
    pub fn is_empty(&self) -> (empty: bool)
        ensures
            empty == (self@.valid_length == 0),
    {
        self.valid_length == 0
    }
}

} // verus!
