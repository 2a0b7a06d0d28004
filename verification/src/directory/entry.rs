//! Parsed exFAT file-directory entry sets and directory extents.

use crate::bytes;
use crate::directory::codec;
use crate::directory::slots::EntryLocator;
use crate::error;
use crate::error::Error;
use crate::geometry::Geometry;
use vstd::prelude::*;

verus! {

/// Timestamp payload stored by an exFAT primary directory entry.
///
/// `date_time` packs the FAT date (high 16 bits) and time (low 16 bits).
/// `ten_millis` refines creation/modification time in 10 ms units; access
/// timestamps normally leave it zero. `utc_offset` is the signed 15-minute
/// offset encoded by exFAT, or `0x80` when the writer did not provide one.
#[derive(Clone, Copy, Debug, Eq, PartialEq)]
pub struct ExfatTimestamp {
    /// FAT-packed local date/time: date in high 16 bits, time in low 16 bits.
    pub date_time: u32,
    /// Additional 10-millisecond units for create/modify timestamps.
    pub ten_millis: u8,
    /// Signed 15-minute UTC offset, or `0x80` when unspecified.
    pub utc_offset: u8,
}

/// The timestamp of an entry set that was created without a clock.
pub open spec fn no_time() -> ExfatTimestamp {
    ExfatTimestamp { date_time: 0, ten_millis: 0, utc_offset: 0 }
}

impl Default for ExfatTimestamp {
    fn default() -> (time: Self)
        ensures
            time == no_time(),
    {
        ExfatTimestamp { date_time: 0, ten_millis: 0, utc_offset: 0 }
    }
}

/// A directory extent. `data_length == 0` denotes the root chain, which ends
/// at its first unused entry rather than a stream length.
#[derive(Clone, Copy, Debug, Eq, PartialEq)]
pub struct Directory {
    /// First cluster of the directory stream.
    pub first_cluster: u32,
    /// Allocated byte length; zero denotes the special root chain.
    pub data_length: u64,
    /// Whether clusters are physically contiguous rather than FAT linked.
    pub no_fat_chain: bool,
    /// Primary entry of the directory's own entry set.
    pub primary: Option<EntryLocator>,
    /// Stream extension of the directory's own entry set.
    pub stream: Option<EntryLocator>,
    /// Storage for the locators of the directory's own entry set.
    pub entry_locs: [EntryLocator; 19],
    /// Number of locators in use.
    pub entry_count: u8,
}

/// A directory extent, with the locators as a sequence.
#[verifier::ext_equal]
pub struct DirectoryModel {
    /// First cluster of the directory stream.
    pub first_cluster: u32,
    /// Allocated byte length; zero denotes the special root chain.
    pub data_length: u64,
    /// Whether clusters are physically contiguous rather than FAT linked.
    pub no_fat_chain: bool,
    /// Primary entry of the directory's own entry set.
    pub primary: Option<EntryLocator>,
    /// Stream extension of the directory's own entry set.
    pub stream: Option<EntryLocator>,
    /// Locators of the directory's own entry set.
    pub locs: Seq<EntryLocator>,
}

/// The root directory's extent.
pub open spec fn root_model(g: Geometry) -> DirectoryModel {
    DirectoryModel {
        first_cluster: g.root_cluster,
        data_length: 0,
        no_fat_chain: false,
        primary: None,
        stream: None,
        locs: Seq::empty(),
    }
}

impl Directory {
    /// The extent, with the locators as a sequence.
    pub open spec fn view(&self) -> DirectoryModel {
        DirectoryModel {
            first_cluster: self.first_cluster,
            data_length: self.data_length,
            no_fat_chain: self.no_fat_chain,
            primary: self.primary,
            stream: self.stream,
            locs: self.entry_locs@.take(self.entry_count as int),
        }
    }

    /// Whether the locators in use fit the storage.
    pub open spec fn wf(self) -> bool {
        self.entry_count <= 19
    }

    /// The root directory of a volume.
    pub fn root(geometry: Geometry) -> (root: Self)
        ensures
            root.wf(),
            root@ == root_model(geometry),
    {
        let root = Directory {
            first_cluster: geometry.root_cluster,
            data_length: 0,
            no_fat_chain: false,
            primary: None,
            stream: None,
            entry_locs: [EntryLocator { lba: 0, offset: 0 };19],
            entry_count: 0,
        };
        assert(root@ =~= root_model(geometry));
        root
    }
}

/// An exFAT file or directory decoded from a complete entry set.
#[derive(Clone, Copy, Debug, Eq, PartialEq)]
pub struct DirectoryEntry {
    /// Whether this entry describes a directory.
    pub is_directory: bool,
    /// First cluster of the stream.
    pub first_cluster: u32,
    /// Allocated stream length in bytes.
    pub data_length: u64,
    /// Logical file length visible to readers.
    pub valid_length: u64,
    /// Whether the stream uses contiguous clusters.
    pub no_fat_chain: bool,
    /// Creation timestamp as recorded by the exFAT primary entry.
    pub created: ExfatTimestamp,
    /// Last modification timestamp as recorded by the exFAT primary entry.
    pub modified: ExfatTimestamp,
    /// Last access date/time as recorded by the exFAT primary entry.
    pub accessed: ExfatTimestamp,
    /// Storage for the name's units.
    pub name: [u16; 255],
    /// Number of name units in use.
    pub name_len: u8,
    /// Primary entry.
    pub primary: EntryLocator,
    /// Stream extension.
    pub stream: EntryLocator,
    /// Storage for the locators of the entry set.
    pub entry_locs: [EntryLocator; 19],
    /// Number of locators in use.
    pub entry_count: u8,
}

/// A decoded entry set, with name and locators as sequences.
#[verifier::ext_equal]
pub struct EntryModel {
    /// Whether this entry describes a directory.
    pub is_directory: bool,
    /// First cluster of the stream.
    pub first_cluster: u32,
    /// Allocated stream length in bytes.
    pub data_length: u64,
    /// Logical file length visible to readers.
    pub valid_length: u64,
    /// Whether the stream uses contiguous clusters.
    pub no_fat_chain: bool,
    /// Creation timestamp.
    pub created: ExfatTimestamp,
    /// Last modification timestamp.
    pub modified: ExfatTimestamp,
    /// Last access timestamp.
    pub accessed: ExfatTimestamp,
    /// Name units.
    pub name: Seq<u16>,
    /// Primary entry.
    pub primary: EntryLocator,
    /// Stream extension.
    pub stream: EntryLocator,
    /// Locators of the whole entry set, in order.
    pub locs: Seq<EntryLocator>,
}

impl EntryModel {
    /// The extent of a directory's entries; `None` for a file.
    pub open spec fn directory(self) -> Option<DirectoryModel> {
        if self.is_directory {
            Some(
                DirectoryModel {
                    first_cluster: self.first_cluster,
                    data_length: self.data_length,
                    no_fat_chain: self.no_fat_chain,
                    primary: Some(self.primary),
                    stream: Some(self.stream),
                    locs: self.locs,
                },
            )
        } else {
            None
        }
    }
}

impl DirectoryEntry {
    /// The entry, with name and locators as sequences.
    pub open spec fn view(&self) -> EntryModel {
        EntryModel {
            is_directory: self.is_directory,
            first_cluster: self.first_cluster,
            data_length: self.data_length,
            valid_length: self.valid_length,
            no_fat_chain: self.no_fat_chain,
            created: self.created,
            modified: self.modified,
            accessed: self.accessed,
            name: self.name@.take(self.name_len as int),
            primary: self.primary,
            stream: self.stream,
            locs: self.entry_locs@.take(self.entry_count as int),
        }
    }

    /// Whether the locators in use fit the storage.
    pub open spec fn wf(self) -> bool {
        self.entry_count <= 19
    }

    /// Filename as its on-volume UTF-16 code units.
    pub fn name_utf16(&self) -> (units: &[u16])
        ensures
            units@ == self@.name,
    {
        vstd::slice::slice_subrange(self.name.as_slice(), 0, self.name_len as usize)
    }

    /// Return the directory extent when this entry is a directory.
    pub fn directory(&self) -> (extent: Option<Directory>)
        requires
            self.wf(),
        ensures
            match extent {
                Some(directory) => {
                    &&& directory.wf()
                    &&& self@.directory() == Some(directory@)
                    &&& directory.entry_locs == self.entry_locs
                    &&& directory.entry_count == self.entry_count
                },
                None => self@.directory() is None,
            },
    {
        if self.is_directory {
            Some(
                Directory {
                    first_cluster: self.first_cluster,
                    data_length: self.data_length,
                    no_fat_chain: self.no_fat_chain,
                    primary: Some(self.primary),
                    stream: Some(self.stream),
                    entry_locs: self.entry_locs,
                    entry_count: self.entry_count,
                },
            )
        } else {
            None
        }
    }
}

/// The state of an entry-set decoder.
#[verifier::ext_equal]
pub struct DecoderModel {
    /// Secondary entries of the current set that are still to come.
    pub left: nat,
    /// Whether the stream extension was seen.
    pub stream_seen: bool,
    /// Name units that the stream extension announced.
    pub name_len: nat,
    /// Name units that the name entries so far had room for.
    pub written: nat,
    /// Checksum that the primary entry recorded.
    pub expected: u16,
    /// Checksum of the entries so far.
    pub sum: u16,
    /// Whether the rest of the set is passed over.
    pub ignored: bool,
    /// What the set described so far.
    pub entry: EntryModel,
}

/// What a decoder answers to one entry: `None` where the set is malformed,
/// otherwise the file or directory whose set the entry completed, if any.
pub type Decoded = Option<Option<EntryModel>>;

/// The name units of a name entry.
pub open spec fn name_units(raw: Seq<u8>) -> Seq<u16> {
    Seq::new(15, |i: int| bytes::u16_at(raw, 2 + 2 * i))
}

/// Whether the stream extension's flags and fields fit together. A stream
/// without an allocation may leave the flags clear.
pub open spec fn stream_ok(raw: Seq<u8>) -> bool {
    let flags = raw[1];
    let valid_length = bytes::u64_at(raw, 8);
    let first_cluster = bytes::u32_at(raw, 20);
    let data_length = bytes::u64_at(raw, 24);
    &&& flags == 1 || flags == 3 || (flags == 0 && data_length == 0 && first_cluster == 0)
    &&& raw[3] != 0
    &&& valid_length <= data_length
    &&& data_length == 0 || first_cluster >= 2
}

impl DecoderModel {
    /// A decoder before its first entry.
    pub open spec fn idle(self) -> bool {
        self.left == 0
    }

    /// The state after a primary entry.
    pub open spec fn primary(raw: Seq<u8>, at: EntryLocator) -> Self {
        DecoderModel {
            left: raw[1] as nat,
            stream_seen: false,
            name_len: 0,
            written: 0,
            expected: bytes::u16_at(raw, 2),
            sum: codec::entry_sum(0, raw, true),
            ignored: raw[1] > 18,
            entry: EntryModel {
                is_directory: raw[4] / 0x10 % 2 == 1,
                first_cluster: 0,
                data_length: 0,
                valid_length: 0,
                no_fat_chain: false,
                created: ExfatTimestamp {
                    date_time: bytes::u32_at(raw, 8),
                    ten_millis: raw[20],
                    utc_offset: raw[22],
                },
                modified: ExfatTimestamp {
                    date_time: bytes::u32_at(raw, 12),
                    ten_millis: raw[21],
                    utc_offset: raw[23],
                },
                accessed: ExfatTimestamp {
                    date_time: bytes::u32_at(raw, 16),
                    ten_millis: 0,
                    utc_offset: raw[24],
                },
                name: Seq::empty(),
                primary: at,
                stream: at,
                locs: seq![at],
            },
        }
    }

    /// The state after a stream extension, which is still to be counted.
    pub open spec fn stream(self, raw: Seq<u8>, at: EntryLocator) -> Self {
        DecoderModel {
            stream_seen: true,
            name_len: raw[3] as nat,
            sum: codec::entry_sum(self.sum, raw, false),
            entry: EntryModel {
                first_cluster: bytes::u32_at(raw, 20),
                data_length: bytes::u64_at(raw, 24),
                valid_length: bytes::u64_at(raw, 8),
                no_fat_chain: raw[1] / 2 % 2 == 1,
                stream: at,
                locs: self.entry.locs.push(at),
                ..self.entry
            },
            ..self
        }
    }

    /// The state after a name entry, which is still to be counted.
    pub open spec fn name(self, raw: Seq<u8>, at: EntryLocator) -> Self {
        let room = self.name_len - self.written;
        DecoderModel {
            written: self.written + 15,
            sum: codec::entry_sum(self.sum, raw, false),
            entry: EntryModel {
                name: self.entry.name + name_units(raw).take(
                    if room < 15 {
                        room
                    } else {
                        15
                    },
                ),
                locs: self.entry.locs.push(at),
                ..self.entry
            },
            ..self
        }
    }

    /// The state once one more secondary entry has been counted.
    pub open spec fn counted(self) -> Self {
        DecoderModel { left: (self.left - 1) as nat, ..self }
    }

    /// What a complete set is.
    pub open spec fn complete(self) -> Decoded {
        if self.stream_seen && self.written >= self.name_len && self.sum == self.expected {
            Some(Some(self.entry))
        } else {
            None
        }
    }

    /// What the decoder answers once an entry has been counted.
    pub open spec fn outcome(self) -> Decoded {
        if self.left == 0 {
            self.complete()
        } else {
            Some(None)
        }
    }

    /// The state after one entry, and the answer to it.
    ///
    /// A primary entry within a set is malformed. Secondary entries outside a
    /// set are passed over, and so is the rest of a set that is too long or
    /// that holds an entry of another kind.
    #[verifier::opaque]
    pub open spec fn push(self, raw: Seq<u8>, at: EntryLocator) -> (Self, Decoded) {
        if raw[0] == 0x85 {
            if self.left != 0 || raw[1] < 2 {
                (self, None)
            } else {
                (DecoderModel::primary(raw, at), Some(None))
            }
        } else if self.left == 0 {
            (self, Some(None))
        } else if self.ignored {
            (DecoderModel { ignored: self.left != 1, ..self.counted() }, Some(None))
        } else if raw[0] == 0xc0 && !self.stream_seen && self.entry.locs.len() == 1 {
            if stream_ok(raw) {
                let next = self.stream(raw, at).counted();
                (next, next.outcome())
            } else {
                (self.stream(raw, at), None)
            }
        } else if raw[0] == 0xc1 && self.stream_seen && self.written < self.name_len {
            if self.entry.locs.len() >= 19 {
                (self, None)
            } else {
                let next = self.name(raw, at).counted();
                (next, next.outcome())
            }
        } else {
            (DecoderModel { ignored: true, ..self.counted() }, Some(None))
        }
    }
}

/// What a decoder answers, with the entry by its model.
pub open spec fn decoded_view<E>(result: Result<Option<DirectoryEntry>, Error<E>>) -> Result<
    Option<EntryModel>,
    Error<E>,
> {
    match result {
        Ok(Some(entry)) => Ok(Some(entry@)),
        Ok(None) => Ok(None),
        Err(error) => Err(error),
    }
}

/// Incremental decoder of directory entry sets.
pub struct EntrySet {
    /// Secondary entries of the current set that are still to come.
    pub secondary_left: u8,
    /// Whether the stream extension was seen.
    pub stream_seen: bool,
    /// Name units that the name entries so far had room for.
    pub name_written: u8,
    /// Checksum that the primary entry recorded.
    pub expected_checksum: u16,
    /// Checksum of the entries so far.
    pub checksum: u16,
    /// An unrecognized-but-valid entry set is consumed without yielding a
    /// file. This keeps a later ordinary file in the same directory visible.
    pub ignored: bool,
    /// What the set described so far.
    pub entry: DirectoryEntry,
}

/// The smaller of two numbers.
pub open spec fn smaller(a: int, b: int) -> int {
    if a < b {
        a
    } else {
        b
    }
}

impl EntrySet {
    /// The decoder's state.
    pub open spec fn view(&self) -> DecoderModel {
        DecoderModel {
            left: self.secondary_left as nat,
            stream_seen: self.stream_seen,
            name_len: self.entry.name_len as nat,
            written: self.name_written as nat,
            expected: self.expected_checksum,
            sum: self.checksum,
            ignored: self.ignored,
            entry: EntryModel {
                name: self.entry.name@.take(
                    smaller(self.name_written as int, self.entry.name_len as int),
                ),
                ..self.entry@
            },
        }
    }

    /// Whether the locators in use fit the storage and name entries came
    /// whole.
    pub open spec fn wf(self) -> bool {
        &&& self.entry.wf()
        &&& self.name_written % 15 == 0
        &&& !self.stream_seen ==> self.name_written == 0
    }

    /// A decoder that has seen nothing.
    pub fn new() -> (set: Self)
        ensures
            set.wf(),
            set@.idle(),
            set@ == idle_decoder(),
    {
        let at = EntryLocator { lba: 0, offset: 0 };
        let time = ExfatTimestamp { date_time: 0, ten_millis: 0, utc_offset: 0x80 };
        let set = EntrySet {
            secondary_left: 0,
            stream_seen: false,
            name_written: 0,
            expected_checksum: 0,
            checksum: 0,
            ignored: false,
            entry: DirectoryEntry {
                is_directory: false,
                first_cluster: 0,
                data_length: 0,
                valid_length: 0,
                no_fat_chain: false,
                created: time,
                modified: time,
                accessed: time,
                name: [0;255],
                name_len: 0,
                primary: at,
                stream: at,
                entry_locs: [at;19],
                entry_count: 0,
            },
        };
        assert(set@ =~= idle_decoder());
        set
    }

    /// Take one 32-byte entry into account. Answers the file or directory
    /// whose entry set it completes.
    pub fn push<E>(&mut self, raw: &[u8], locator: EntryLocator) -> (result: Result<
        Option<DirectoryEntry>,
        Error<E>,
    >)
        requires
            raw.len() == 32,
            old(self).wf(),
        ensures
            final(self).wf(),
            final(self)@ == old(self)@.push(raw@, locator).0,
            decoded_view(result) == error::or_corrupt::<Option<EntryModel>, E>(
                old(self)@.push(raw@, locator).1,
            ),
            result matches Ok(Some(entry)) ==> entry.wf(),
    {
        let ghost before = self@;
        proof {
            reveal(DecoderModel::push);
        }
        if raw[0] == 0x85 {
            // A new primary before the previous set completed makes both sets
            // malformed; never silently discard the first one.
            if self.secondary_left != 0 || raw[1] < 2 {
                return Err(Error::Corrupt);
            }
            self.begin(raw, locator);
            return Ok(None);
        }
        if self.secondary_left == 0 {
            return Ok(None);
        }
        if self.ignored {
            self.secondary_left = self.secondary_left - 1;
            if self.secondary_left == 0 {
                self.ignored = false;
            }
            assert(self@ =~= before.push(raw@, locator).0);
            return Ok(None);
        }
        if raw[0] == 0xc0 && !self.stream_seen && self.entry.entry_count == 1 {
            if !self.take_stream(raw, locator) {
                return Err(Error::Corrupt);
            }
            self.secondary_left = self.secondary_left - 1;
            assert(self@ =~= before.stream(raw@, locator).counted());
            return self.finish();
        }
        if raw[0] == 0xc1 && self.stream_seen && self.name_written < self.entry.name_len {
            if self.entry.entry_count >= 19 {
                return Err(Error::Corrupt);
            }
            self.take_name(raw, locator);
            self.secondary_left = self.secondary_left - 1;
            assert(self@ =~= before.name(raw@, locator).counted());
            return self.finish();
        }
        // An unknown critical secondary must make the set unrecognized; an
        // unknown benign secondary may be ignored. Either way, do not expose
        // a partially understood file to a mutating API. Consume the rest of
        // the set and resume the directory scanner at the next primary entry.
        self.ignored = true;
        self.secondary_left = self.secondary_left - 1;
        assert(self@ =~= before.push(raw@, locator).0);
        Ok(None)
    }

    /// Start a set with its primary entry.
    fn begin(&mut self, raw: &[u8], locator: EntryLocator)
        requires
            raw.len() == 32,
        ensures
            final(self).wf(),
            final(self)@ == DecoderModel::primary(raw@, locator),
    {
        let mut entry_locs = [EntryLocator { lba: 0, offset: 0 };19];
        entry_locs[0] = locator;
        self.secondary_left = raw[1];
        self.stream_seen = false;
        self.name_written = 0;
        self.expected_checksum = bytes::le_u16(raw, 2);
        self.checksum = codec::entry_set_checksum_step(0, raw, true);
        self.ignored = raw[1] > 18;
        self.entry = DirectoryEntry {
            is_directory: raw[4] / 0x10 % 2 == 1,
            first_cluster: 0,
            data_length: 0,
            valid_length: 0,
            no_fat_chain: false,
            created: ExfatTimestamp {
                date_time: bytes::le_u32(raw, 8),
                ten_millis: raw[20],
                utc_offset: raw[22],
            },
            modified: ExfatTimestamp {
                date_time: bytes::le_u32(raw, 12),
                ten_millis: raw[21],
                utc_offset: raw[23],
            },
            accessed: ExfatTimestamp {
                date_time: bytes::le_u32(raw, 16),
                ten_millis: 0,
                utc_offset: raw[24],
            },
            name: [0;255],
            name_len: 0,
            primary: locator,
            stream: locator,
            entry_locs,
            entry_count: 1,
        };
        assert(self@ =~= DecoderModel::primary(raw@, locator));
    }

    /// Remember where the next entry of the set lies.
    fn take_locator(&mut self, locator: EntryLocator)
        requires
            old(self).entry.entry_count < 19,
        ensures
            final(self).entry.entry_count == old(self).entry.entry_count + 1,
            final(self).entry.entry_locs@ == old(self).entry.entry_locs@.update(
                old(self).entry.entry_count as int,
                locator,
            ),
            *final(self) == (EntrySet {
                entry: DirectoryEntry {
                    entry_locs: final(self).entry.entry_locs,
                    entry_count: final(self).entry.entry_count,
                    ..old(self).entry
                },
                ..*old(self)
            }),
    {
        self.entry.entry_locs[self.entry.entry_count as usize] = locator;
        self.entry.entry_count = self.entry.entry_count + 1;
    }

    /// Take a stream extension into account; answers whether it is a valid
    /// one.
    fn take_stream(&mut self, raw: &[u8], locator: EntryLocator) -> (ok: bool)
        requires
            raw.len() == 32,
            old(self).wf(),
            old(self).entry.entry_count == 1,
            !old(self).stream_seen,
        ensures
            final(self).wf(),
            final(self).secondary_left == old(self).secondary_left,
            final(self)@ == old(self)@.stream(raw@, locator),
            ok == stream_ok(raw@),
    {
        let ghost before = self@;
        self.take_locator(locator);
        self.checksum = codec::entry_set_checksum_step(self.checksum, raw, false);
        self.stream_seen = true;
        self.entry.stream = locator;
        self.entry.no_fat_chain = raw[1] / 2 % 2 == 1;
        self.entry.name_len = raw[3];
        self.entry.valid_length = bytes::le_u64(raw, 8);
        self.entry.data_length = bytes::le_u64(raw, 24);
        self.entry.first_cluster = bytes::le_u32(raw, 20);
        assert(self@.entry.locs =~= before.entry.locs.push(locator));
        assert(self@ =~= before.stream(raw@, locator));
        let flags: u8 = raw[1];
        (flags == 1 || flags == 3 || (flags == 0 && self.entry.data_length == 0
            && self.entry.first_cluster == 0)) && self.entry.name_len != 0
            && self.entry.valid_length <= self.entry.data_length && (self.entry.data_length == 0
            || self.entry.first_cluster >= 2)
    }

    /// Take a name entry into account.
    fn take_name(&mut self, raw: &[u8], locator: EntryLocator)
        requires
            raw.len() == 32,
            old(self).wf(),
            old(self).entry.entry_count < 19,
            old(self).name_written < old(self).entry.name_len,
            old(self).stream_seen,
        ensures
            final(self).wf(),
            final(self).secondary_left == old(self).secondary_left,
            final(self)@ == old(self)@.name(raw@, locator),
    {
        let ghost before = self@;
        self.take_locator(locator);
        self.checksum = codec::entry_set_checksum_step(self.checksum, raw, false);
        let start: usize = self.name_written as usize;
        let len: usize = self.entry.name_len as usize;
        let room: usize = if len - start < 15 {
            len - start
        } else {
            15
        };
        let ghost base = *self;
        let mut i: usize = 0;
        while i < room
            invariant
                i <= room <= 15,
                raw.len() == 32,
                start + room <= len <= 255,
                *self == (EntrySet {
                    entry: DirectoryEntry { name: self.entry.name, ..base.entry },
                    ..base
                }),
                forall|k: int| 0 <= k < start ==> self.entry.name@[k] == base.entry.name@[k],
                forall|k: int|
                    start <= k < start + i ==> self.entry.name@[k] == name_units(raw@)[k - start],
            decreases room - i,
        {
            self.entry.name[start + i] = bytes::le_u16(raw, 2 + 2 * i);
            i = i + 1;
        }
        self.name_written = self.name_written + 15;
        proof {
            let added = name_units(raw@).take(room as int);
            assert(self@.entry.name =~= before.entry.name + added) by {
                assert forall|k: int| 0 <= k < start + room implies self@.entry.name[k] == (
                before.entry.name + added)[k] by {
                    if k >= start {
                        assert(self.entry.name@[k] == name_units(raw@)[k - start]);
                    }
                }
            }
            assert(self@.entry.locs =~= before.entry.locs.push(locator));
            assert(self@ =~= before.name(raw@, locator));
        }
    }

    /// Answer the set's file or directory if the set is complete.
    fn finish<E>(&self) -> (result: Result<Option<DirectoryEntry>, Error<E>>)
        requires
            self.wf(),
        ensures
            decoded_view(result) == error::or_corrupt::<Option<EntryModel>, E>(self@.outcome()),
            result matches Ok(Some(entry)) ==> entry.wf(),
    {
        if self.secondary_left != 0 {
            return Ok(None);
        }
        if !self.stream_seen || self.name_written < self.entry.name_len || self.checksum
            != self.expected_checksum {
            return Err(Error::Corrupt);
        }
        assert(self.entry@ =~= self@.entry);
        Ok(Some(self.entry))
    }
}

/// The state of a decoder that has seen nothing.
pub open spec fn idle_decoder() -> DecoderModel {
    let at = EntryLocator { lba: 0, offset: 0 };
    let time = ExfatTimestamp { date_time: 0, ten_millis: 0, utc_offset: 0x80 };
    DecoderModel {
        left: 0,
        stream_seen: false,
        name_len: 0,
        written: 0,
        expected: 0,
        sum: 0,
        ignored: false,
        entry: EntryModel {
            is_directory: false,
            first_cluster: 0,
            data_length: 0,
            valid_length: 0,
            no_fat_chain: false,
            created: time,
            modified: time,
            accessed: time,
            name: Seq::empty(),
            primary: at,
            stream: at,
            locs: Seq::empty(),
        },
    }
}

/// Caller-owned reusable storage for path and directory-entry operations.
///
/// This contains every fixed-size buffer used while decoding an entry set.
/// Keeping it separate from [`crate::Scratch`] lets an embedded SD worker put
/// the object in static memory instead of silently reserving over a kilobyte
/// in each filesystem call frame.
pub struct Workspace {
    /// UTF-16 form of the path component that is being looked up.
    pub utf16: [u16; 255],
    /// Decoder for the directory that is being searched.
    pub entry_set: EntrySet,
    /// Locators of the directory slots that are being gathered.
    pub locators: [EntryLocator; 19],
}

/// Whether a workspace is as it was made: the decoder idle, every buffer zeroed.
pub open spec fn is_blank(workspace: Workspace) -> bool {
    &&& workspace.entry_set@ == idle_decoder()
    &&& forall|i: int| 0 <= i < 255 ==> workspace.utf16@[i] == 0
    &&& forall|i: int|
        0 <= i < 19 ==> #[trigger] workspace.locators@[i] == (EntryLocator { lba: 0, offset: 0 })
}

impl Workspace {
    /// What every workspace has.
    pub open spec fn wf(self) -> bool {
        self.entry_set.wf()
    }

    /// Construct an empty reusable workspace.
    pub fn new() -> (workspace: Self)
        ensures
            workspace.wf(),
            is_blank(workspace),
    {
        let nowhere = EntryLocator { lba: 0, offset: 0 };
        let mut locators: [EntryLocator; 19] = [nowhere;19];
        let mut i: usize = 0;
        while i < 19
            invariant
                i <= 19,
                forall|k: int| 0 <= k < i ==> #[trigger] locators@[k] == nowhere,
            decreases 19 - i,
        {
            locators[i] = nowhere;
            i = i + 1;
        }
        Workspace { utf16: [0;255], entry_set: EntrySet::new(), locators }
    }
}

impl Default for Workspace {
    fn default() -> (workspace: Self)
        ensures
            workspace.wf(),
            is_blank(workspace),
    {
        Workspace::new()
    }
}

} // verus!
