//! Writing directory entry sets: stream updates, checksums, new sets and the
//! retirement of old ones.

use crate::bytes;
use crate::device::{BlockDevice, Media, Scratch, SectorWrite};
use crate::directory::codec;
use crate::directory::entry::{DirectoryEntry, ExfatTimestamp};
use crate::directory::slots::EntryLocator;
use crate::error;
use crate::error::Error;
use crate::fs::file::{File, FileModel};
use crate::fs::names;
use crate::fs::state;
use crate::fs::state::{FileSystem, Plan};
use crate::geometry::Geometry;
use crate::mount::Volume;
use vstd::prelude::*;

verus! {

/// Whether an entry at this locator lies within its sector.
pub open spec fn fits(g: Geometry, at: EntryLocator) -> bool {
    at.offset + 32 <= g.bytes_per_sector
}

/// The 32 bytes of the entry at a locator.
pub open spec fn entry_at(media: Media, at: EntryLocator) -> Seq<u8> {
    media[at.lba].subrange(at.offset as int, at.offset + 32)
}

/// What writing `data` to sector `lba` does.
pub open spec fn sector_plan<E>(free: u32, lba: u64, data: Seq<u8>) -> Plan<(), E> {
    Plan::write(free, SectorWrite { lba, data }, Ok(()))
}

/// The checksum of the entries at the first `n` of `locs`: `None` where one of
/// them straddles two sectors.
pub open spec fn set_sum(g: Geometry, media: Media, locs: Seq<EntryLocator>, n: nat) -> Option<u16>
    decreases n,
{
    if n == 0 {
        Some(0)
    } else {
        match set_sum(g, media, locs, (n - 1) as nat) {
            Some(sum) => if fits(g, locs[n - 1]) {
                Some(codec::entry_sum(sum, entry_at(media, locs[n - 1]), n == 1))
            } else {
                None
            },
            None => None,
        }
    }
}

/// What recording the checksum of the set at `locs` in its primary entry does.
pub open spec fn checksum_plan<E>(
    v: Volume,
    media: Media,
    free: u32,
    primary: EntryLocator,
    locs: Seq<EntryLocator>,
) -> Plan<(), E> {
    match set_sum(v.geometry, media, locs, locs.len()) {
        Some(sum) => if fits(v.geometry, primary) {
            sector_plan(
                free,
                primary.lba,
                bytes::splice(media[primary.lba], primary.offset + 2, bytes::le16(sum)),
            )
        } else {
            Plan::answer(free, Err(Error::Corrupt))
        },
        None => Plan::answer(free, Err(Error::Corrupt)),
    }
}

/// A sector once the stream extension at byte `at` describes the file `f`.
pub open spec fn stream_patched(sector: Seq<u8>, at: int, f: FileModel) -> Seq<u8> {
    let flags: u8 = if f.no_fat_chain {
        3
    } else {
        1
    };
    bytes::splice(
        bytes::splice(
            bytes::splice(
                bytes::splice(sector, at + 1, seq![flags]),
                at + 8,
                bytes::le64(f.valid_length),
            ),
            at + 20,
            bytes::le32(f.first_cluster),
        ),
        at + 24,
        bytes::le64(f.data_length),
    )
}

/// What recording a file's lengths and clusters in its entry set does: first
/// the stream extension, then the checksum.
pub open spec fn update_plan<E>(v: Volume, media: Media, free: u32, f: FileModel) -> Plan<(), E> {
    if f.locs.len() < 2 || !fits(v.geometry, f.stream) {
        Plan::answer(free, Err(Error::Corrupt))
    } else {
        let patch = sector_plan::<E>(
            free,
            f.stream.lba,
            stream_patched(media[f.stream.lba], f.stream.offset as int, f),
        );
        patch.and(checksum_plan(v, patch.leaves(media), free, f.primary, f.locs))
    }
}

/// What clearing the in-use bits of the entries at `locs`, from number `i` on,
/// does.
pub open spec fn retire_plan<E>(v: Volume, media: Media, free: u32, locs: Seq<EntryLocator>, i: int) -> Plan<
    (),
    E,
>
    decreases locs.len() - i,
{
    if i >= locs.len() {
        Plan::answer(free, Ok(()))
    } else if !fits(v.geometry, locs[i]) {
        Plan::answer(free, Err(Error::Corrupt))
    } else {
        let sector = media[locs[i].lba];
        let at = locs[i].offset as int;
        let clear = sector_plan::<E>(free, locs[i].lba, sector.update(at, sector[at] & 0x7f));
        clear.and(retire_plan(v, clear.leaves(media), free, locs, i + 1))
    }
}

/// What a new entry set describes.
pub struct SetModel {
    /// Name units.
    pub name: Seq<u16>,
    /// Attribute bits.
    pub attributes: u16,
    /// First cluster of the stream.
    pub first_cluster: u32,
    /// Logical length of the stream.
    pub valid_length: u64,
    /// Allocated length of the stream.
    pub data_length: u64,
    /// Whether the stream uses contiguous clusters.
    pub no_fat_chain: bool,
    /// Creation timestamp.
    pub created: ExfatTimestamp,
    /// Last modification timestamp.
    pub modified: ExfatTimestamp,
    /// Last access timestamp.
    pub accessed: ExfatTimestamp,
}

/// Number of name entries that a name of `units` units takes.
pub open spec fn name_entries(units: int) -> int {
    (units + 14) / 15
}

/// A primary entry, with the checksum still to come.
pub open spec fn primary_entry(s: SetModel) -> Seq<u8> {
    seq![0x85u8, (name_entries(s.name.len() as int) + 1) as u8, 0u8, 0u8]
        + bytes::le16(s.attributes) + seq![0u8, 0u8] + bytes::le32(s.created.date_time)
        + bytes::le32(s.modified.date_time) + bytes::le32(s.accessed.date_time)
        + seq![
        s.created.ten_millis,
        s.modified.ten_millis,
        s.created.utc_offset,
        s.modified.utc_offset,
        s.accessed.utc_offset,
    ] + bytes::filled(7, 0)
}

/// A stream extension.
pub open spec fn stream_entry(s: SetModel, hash: u16) -> Seq<u8> {
    let flags: u8 = if s.no_fat_chain {
        3
    } else {
        1
    };
    seq![0xc0u8, flags, 0u8, s.name.len() as u8] + bytes::le16(hash) + seq![0u8, 0u8]
        + bytes::le64(s.valid_length) + bytes::filled(4, 0) + bytes::le32(s.first_cluster)
        + bytes::le64(s.data_length)
}

/// Byte `i` of the name entry that starts at unit `begin`: two bytes for each
/// unit, and zeros behind the name.
pub open spec fn name_entry_byte(name: Seq<u16>, begin: int, i: int) -> u8 {
    let unit = begin + (i - 2) / 2;
    if i == 0 {
        0xc1
    } else if i == 1 || unit >= name.len() {
        0
    } else if i % 2 == 0 {
        (name[unit] % 0x100) as u8
    } else {
        (name[unit] / 0x100) as u8
    }
}

/// A name entry.
pub open spec fn name_entry(name: Seq<u16>, begin: int) -> Seq<u8> {
    Seq::new(32, |i: int| name_entry_byte(name, begin, i))
}

/// Entry number `i` of a new set.
pub open spec fn set_entry(s: SetModel, hash: u16, i: int) -> Seq<u8> {
    if i == 0 {
        primary_entry(s)
    } else if i == 1 {
        stream_entry(s, hash)
    } else {
        name_entry(s.name, 15 * (i - 2))
    }
}

/// The checksum of the first `n` entries of a new set.
pub open spec fn new_sum(s: SetModel, hash: u16, n: nat) -> u16
    decreases n,
{
    if n == 0 {
        0
    } else {
        codec::entry_sum(
            new_sum(s, hash, (n - 1) as nat),
            set_entry(s, hash, n - 1),
            n == 1,
        )
    }
}

/// What writing the entries of a new set, from number `i` on, does.
pub open spec fn entries_plan<E>(
    v: Volume,
    media: Media,
    free: u32,
    locs: Seq<EntryLocator>,
    s: SetModel,
    hash: u16,
    i: int,
) -> Plan<(), E>
    decreases locs.len() - i,
{
    if i >= locs.len() {
        Plan::answer(free, Ok(()))
    } else if !fits(v.geometry, locs[i]) {
        Plan::answer(free, Err(Error::Corrupt))
    } else {
        let write = sector_plan::<E>(
            free,
            locs[i].lba,
            bytes::splice(
                media[locs[i].lba],
                locs[i].offset as int,
                set_entry(s, hash, i),
            ),
        );
        write.and(entries_plan(v, write.leaves(media), free, locs, s, hash, i + 1))
    }
}

/// What writing a new entry set does: its entries in order, and the checksum
/// last.
pub open spec fn write_set_plan<E>(
    v: Volume,
    media: Media,
    free: u32,
    locs: Seq<EntryLocator>,
    s: SetModel,
) -> Plan<(), E> {
    if !(3 <= locs.len() <= 19) || name_entries(s.name.len() as int) + 2 != locs.len() {
        Plan::answer(free, Err(Error::Corrupt))
    } else {
        match names::name_hash(v, media, s.name) {
            None => Plan::answer(free, Err(Error::Corrupt)),
            Some(hash) => {
                let entries = entries_plan::<E>(v, media, free, locs, s, hash, 0);
                let written = entries.leaves(media);
                let at = locs[0];
                entries.and(
                    sector_plan(
                        free,
                        at.lba,
                        bytes::splice(
                            written[at.lba],
                            at.offset + 2,
                            bytes::le16(new_sum(s, hash, locs.len())),
                        ),
                    ),
                )
            },
        }
    }
}

/// What a new entry set describes.
pub struct NewEntrySet<'a> {
    /// Name units.
    pub name: &'a [u16],
    /// Attribute bits.
    pub attributes: u16,
    /// First cluster of the stream.
    pub first_cluster: u32,
    /// Logical length of the stream.
    pub valid_length: u64,
    /// Allocated length of the stream.
    pub data_length: u64,
    /// Whether the stream uses contiguous clusters.
    pub no_fat_chain: bool,
    /// Creation timestamp.
    pub created: ExfatTimestamp,
    /// Last modification timestamp.
    pub modified: ExfatTimestamp,
    /// Last access timestamp.
    pub accessed: ExfatTimestamp,
}

impl<'a> NewEntrySet<'a> {
    /// What the set describes, with the name as a sequence.
    pub open spec fn view(&self) -> SetModel {
        SetModel {
            name: self.name@,
            attributes: self.attributes,
            first_cluster: self.first_cluster,
            valid_length: self.valid_length,
            data_length: self.data_length,
            no_fat_chain: self.no_fat_chain,
            created: self.created,
            modified: self.modified,
            accessed: self.accessed,
        }
    }

    /// Write the primary entry at byte `at`.
    fn encode_primary(&self, sector: &mut [u8], at: usize)
        requires
            at + 32 <= old(sector).len(),
            self.name.len() <= 255,
        ensures
            final(sector)@ == bytes::splice(old(sector)@, at as int, primary_entry(self@)),
    {
        bytes::fill(sector, at, at + 32, 0);
        sector[at] = 0x85;
        sector[at + 1] = ((self.name.len() + 14) / 15 + 1) as u8;
        bytes::put_u16(sector, at + 4, self.attributes);
        bytes::put_u32(sector, at + 8, self.created.date_time);
        bytes::put_u32(sector, at + 12, self.modified.date_time);
        bytes::put_u32(sector, at + 16, self.accessed.date_time);
        sector[at + 20] = self.created.ten_millis;
        sector[at + 21] = self.modified.ten_millis;
        sector[at + 22] = self.created.utc_offset;
        sector[at + 23] = self.modified.utc_offset;
        sector[at + 24] = self.accessed.utc_offset;
        assert(sector@ =~= bytes::splice(old(sector)@, at as int, primary_entry(self@)));
    }

    /// Write the stream extension at byte `at`.
    fn encode_stream(&self, sector: &mut [u8], at: usize, hash: u16)
        requires
            at + 32 <= old(sector).len(),
            self.name.len() <= 255,
        ensures
            final(sector)@ == bytes::splice(old(sector)@, at as int, stream_entry(self@, hash)),
    {
        bytes::fill(sector, at, at + 32, 0);
        sector[at] = 0xc0;
        sector[at + 1] = if self.no_fat_chain {
            3
        } else {
            1
        };
        sector[at + 3] = self.name.len() as u8;
        bytes::put_u16(sector, at + 4, hash);
        bytes::put_u64(sector, at + 8, self.valid_length);
        bytes::put_u32(sector, at + 20, self.first_cluster);
        bytes::put_u64(sector, at + 24, self.data_length);
        assert(sector@ =~= bytes::splice(old(sector)@, at as int, stream_entry(self@, hash)));
    }

    /// Write entry number `index` of the set at byte `at`.
    fn encode(&self, sector: &mut [u8], at: usize, index: usize, hash: u16)
        requires
            at + 32 <= old(sector).len(),
            self.name.len() <= 255,
            index < 19,
        ensures
            final(sector)@ == bytes::splice(
                old(sector)@,
                at as int,
                set_entry(self@, hash, index as int),
            ),
    {
        if index == 0 {
            self.encode_primary(sector, at);
        } else if index == 1 {
            self.encode_stream(sector, at, hash);
        } else {
            bytes::fill(sector, at, at + 32, 0);
            sector[at] = 0xc1;
            encode_units(sector, at, self.name, (index - 2) * 15);
            assert(sector@ =~= bytes::splice(
                old(sector)@,
                at as int,
                set_entry(self@, hash, index as int),
            ));
        }
    }
}

/// Write the name units from `begin` on into the name entry at byte `at`.
pub fn encode_units(sector: &mut [u8], at: usize, name: &[u16], begin: usize)
    requires
        at + 32 <= old(sector).len(),
        name.len() <= 255,
        begin <= 255,
    ensures
        final(sector)@.len() == old(sector)@.len(),
        forall|i: int|
            0 <= i < final(sector)@.len() && !(at + 2 <= i < at + 32 && begin + (i - at - 2) / 2
                < name@.len()) ==> #[trigger] final(sector)@[i] == old(sector)@[i],
        forall|i: int|
            at + 2 <= i < at + 32 && begin + (i - at - 2) / 2 < name@.len()
                ==> #[trigger] final(sector)@[i] == name_entry_byte(name@, begin as int, i - at),
{
    let mut unit: usize = 0;
    while unit < 15 && begin + unit < name.len()
        invariant
            unit <= 15,
            at + 32 <= sector.len(),
            sector@.len() == old(sector)@.len(),
            name.len() <= 255,
            begin <= 255,
            forall|i: int|
                0 <= i < sector@.len() && !(at + 2 <= i < at + 2 + 2 * unit && begin + (i - at - 2)
                    / 2 < name@.len()) ==> #[trigger] sector@[i] == old(sector)@[i],
            forall|i: int|
                at + 2 <= i < at + 2 + 2 * unit && begin + (i - at - 2) / 2 < name@.len()
                    ==> #[trigger] sector@[i] == name_entry_byte(name@, begin as int, i - at),
        decreases 15 - unit,
    {
        bytes::put_u16(sector, at + 2 + 2 * unit, name[begin + unit]);
        unit = unit + 1;
    }
}

impl<D: BlockDevice> FileSystem<D> {
    /// Write the entries of a new set and answer their checksum.
    fn write_entries(
        &mut self,
        locs: &[EntryLocator; 19],
        count: usize,
        contents: &NewEntrySet<'_>,
        hash: u16,
        scratch: &mut Scratch<'_>,
    ) -> (result: Result<u16, Error<D::Error>>)
        requires
            old(self).wf(),
            count <= 19,
            contents.name.len() <= 255,
            old(scratch)@.len() >= old(self).volume.geometry.bytes_per_sector,
        ensures
            final(self).wf(),
            final(scratch)@.len() == old(scratch)@.len(),
            state::performs(
                *old(self),
                *final(self),
                sum_dropped(result),
                entries_plan(
                    old(self).volume,
                    old(self).media(),
                    old(self).free_clusters,
                    locs@.take(count as int),
                    contents@,
                    hash,
                    0,
                ),
            ),
            result matches Ok(sum) ==> sum == new_sum(contents@, hash, count as nat),
    {
        let size: usize = self.volume.geometry.bytes_per_sector as usize;
        let ghost before = *self;
        let ghost v = self.volume;
        let ghost free = self.free_clusters;
        let ghost all = locs@.take(count as int);
        let ghost s = contents@;
        let ghost plan = entries_plan::<D::Error>(v, self.media(), free, all, s, hash, 0);
        let ghost mut done = Plan::<(), D::Error>::answer(free, Ok(()));
        proof {
            state::lemma_answer(before, before, Ok::<(), Error<D::Error>>(()), Ok(()));
            assert(done.and(plan) =~= plan);
        }
        let mut sum: u16 = 0;
        let mut i: usize = 0;
        while i < count
            invariant
                i <= count <= 19,
                all == locs@.take(count as int),
                s == contents@,
                contents.name.len() <= 255,
                self.wf(),
                before == *old(self),
                v == before.volume,
                v == self.volume,
                free == before.free_clusters,
                self.free_clusters == free,
                size == v.geometry.bytes_per_sector,
                scratch@.len() == old(scratch)@.len(),
                scratch@.len() >= size,
                done.result == Ok::<(), Error<D::Error>>(()),
                state::performs(before, *self, Ok(()), done),
                plan == entries_plan::<D::Error>(v, before.media(), free, all, s, hash, 0),
                plan == done.and(
                    entries_plan::<D::Error>(v, self.media(), free, all, s, hash, i as int),
                ),
                sum == new_sum(s, hash, i as nat),
            decreases count - i,
        {
            let at = locs[i];
            assert(at == all[i as int]);
            let offset: usize = at.offset as usize;
            let ghost s0 = *self;
            let ghost media = self.media();
            let ghost rest = entries_plan::<D::Error>(v, media, free, all, s, hash, i as int);
            if offset + 32 > size {
                proof {
                    state::lemma_read_within(
                        before,
                        s0,
                        s0,
                        done,
                        Ok(()),
                        Err::<(), Error<D::Error>>(Error::Corrupt),
                        Err::<(), Error<D::Error>>(Error::Corrupt),
                        rest,
                    );
                }
                return Err(Error::Corrupt);
            }
            let read = self.fetch(at.lba, scratch);
            let ghost s1 = *self;
            proof {
                state::lemma_read_within(before, s0, s1, done, Ok(()), Ok(()), read, rest);
            }
            match read {
                Ok(()) => {},
                Err(error) => return Err(error),
            }
            contents.encode(scratch.sector(size), offset, i, hash);
            let ghost data = bytes::splice(
                media[at.lba],
                offset as int,
                set_entry(s, hash, i as int),
            );
            assert(scratch@.take(size as int) =~= data);
            let raw = vstd::slice::slice_subrange(scratch.head(size), offset, offset + 32);
            proof {
                lemma_entry_len(s, hash, i as int);
            }
            assert(raw@ =~= set_entry(s, hash, i as int));
            sum = codec::entry_set_checksum_step(sum, raw, i == 0);
            let stored = self.put(at.lba, scratch);
            proof {
                let write = sector_plan::<D::Error>(free, at.lba, data);
                let after = entries_plan::<D::Error>(
                    v,
                    write.leaves(media),
                    free,
                    all,
                    s,
                    hash,
                    i + 1,
                );
                state::lemma_step(before, s1, *self, done, Ok(()), write, stored, after);
                done = done.and(write);
            }
            match stored {
                Ok(()) => {},
                Err(error) => return Err(error),
            }
            i = i + 1;
        }
        assert(done =~= plan);
        Ok(sum)
    }

    /// Write a new entry set.
    pub fn write_entry_set(
        &mut self,
        locs: &[EntryLocator; 19],
        count: usize,
        contents: &NewEntrySet<'_>,
        scratch: &mut Scratch<'_>,
    ) -> (result: Result<(), Error<D::Error>>)
        requires
            old(self).wf(),
            count <= 19,
            contents.name.len() <= 255,
            old(scratch)@.len() >= old(self).volume.geometry.bytes_per_sector,
        ensures
            final(self).wf(),
            final(scratch)@.len() == old(scratch)@.len(),
            state::performs(
                *old(self),
                *final(self),
                result,
                write_set_plan(
                    old(self).volume,
                    old(self).media(),
                    old(self).free_clusters,
                    locs@.take(count as int),
                    contents@,
                ),
            ),
    {
        let size: usize = self.volume.geometry.bytes_per_sector as usize;
        let ghost before = *self;
        let ghost v = self.volume;
        let ghost media = self.media();
        let ghost free = self.free_clusters;
        let ghost all = locs@.take(count as int);
        let ghost s = contents@;
        let ghost plan = write_set_plan::<D::Error>(v, media, free, all, s);
        let ghost idle = Plan::<(), D::Error>::answer(free, Ok(()));
        proof {
            state::lemma_answer(before, before, Ok::<(), Error<D::Error>>(()), Ok(()));
            state::lemma_answer(
                before,
                before,
                Err::<(), Error<D::Error>>(Error::Corrupt),
                Err(Error::Corrupt),
            );
            assert(idle.and(plan) =~= plan);
        }
        if count < 3 || (contents.name.len() + 14) / 15 + 2 != count {
            return Err(Error::Corrupt);
        }
        let hashed = self.upcase_name_hash(contents.name, scratch);
        let ghost s1 = *self;
        proof {
            state::lemma_read_within(
                before,
                before,
                s1,
                idle,
                Ok(()),
                error::or_corrupt(names::name_hash(v, media, s.name)),
                hashed,
                plan,
            );
        }
        let hash: u16 = match hashed {
            Ok(hash) => hash,
            Err(error) => return Err(error),
        };
        let ghost entries = entries_plan::<D::Error>(v, media, free, all, s, hash, 0);
        let ghost written = entries.leaves(media);
        let ghost at = all[0];
        let ghost seal = sector_plan::<D::Error>(
            free,
            at.lba,
            bytes::splice(
                written[at.lba],
                at.offset + 2,
                bytes::le16(new_sum(s, hash, count as nat)),
            ),
        );
        let summed = self.write_entries(locs, count, contents, hash, scratch);
        let ghost s2 = *self;
        proof {
            state::lemma_first_step(s1, s2, entries, sum_dropped(summed), seal);
            if summed is Ok {
                lemma_entries_free::<D::Error>(v, media, free, all, s, hash, 0);
            }
        }
        let sum: u16 = match summed {
            Ok(sum) => sum,
            Err(error) => return Err(error),
        };
        let primary = locs[0];
        let offset: usize = primary.offset as usize;
        let read = self.fetch(primary.lba, scratch);
        let ghost s3 = *self;
        proof {
            state::lemma_read_within(
                s1,
                s2,
                s3,
                entries,
                Ok(()),
                Ok(()),
                read,
                seal,
            );
        }
        match read {
            Ok(()) => {},
            Err(error) => return Err(error),
        }
        bytes::put_u16(scratch.sector(size), offset + 2, sum);
        assert(scratch@.take(size as int) =~= bytes::splice(
            written[at.lba],
            at.offset + 2,
            bytes::le16(sum),
        ));
        let sealed = self.put(primary.lba, scratch);
        proof {
            state::lemma_and_succeeds(s1, s3, *self, Ok(()), entries, sealed, seal);
        }
        sealed
    }

    /// Compute the checksum of an entry set on the media.
    fn read_set_checksum(
        &mut self,
        locs: &[EntryLocator; 19],
        count: usize,
        scratch: &mut Scratch<'_>,
    ) -> (result: Result<u16, Error<D::Error>>)
        requires
            old(self).wf(),
            count <= 19,
            old(scratch)@.len() >= old(self).volume.geometry.bytes_per_sector,
        ensures
            final(self).wf(),
            final(scratch)@.len() == old(scratch)@.len(),
            state::answers(
                *old(self),
                *final(self),
                result,
                error::or_corrupt(
                    set_sum(
                        old(self).volume.geometry,
                        old(self).media(),
                        locs@.take(count as int),
                        count as nat,
                    ),
                ),
            ),
    {
        let g = self.volume.geometry;
        let size: usize = g.bytes_per_sector as usize;
        let ghost media = self.media();
        let ghost all = locs@.take(count as int);
        let mut sum: u16 = 0;
        let mut i: usize = 0;
        while i < count
            invariant
                i <= count <= 19,
                self.wf(),
                g == self.volume.geometry,
                g == old(self).volume.geometry,
                size == g.bytes_per_sector,
                media == old(self).media(),
                state::answers(*old(self), *self, Ok::<(), Error<D::Error>>(()), Ok(())),
                scratch@.len() == old(scratch)@.len(),
                scratch@.len() >= size,
                all == locs@.take(count as int),
                set_sum(g, media, all, i as nat) == Some(sum),
            decreases count - i,
        {
            let at = locs[i];
            assert(at == all[i as int]);
            let offset: usize = at.offset as usize;
            if offset + 32 > size {
                proof {
                    lemma_no_sum(g, media, all, (i + 1) as nat, count as nat);
                }
                return Err(Error::Corrupt);
            }
            match self.fetch(at.lba, scratch) {
                Ok(()) => {},
                Err(error) => return Err(error),
            }
            let raw = vstd::slice::slice_subrange(scratch.head(size), offset, offset + 32);
            assert(raw@ =~= entry_at(media, at));
            sum = codec::entry_set_checksum_step(sum, raw, i == 0);
            i = i + 1;
        }
        Ok(sum)
    }

    /// Record the checksum of an entry set in its primary entry.
    pub fn write_set_checksum(
        &mut self,
        primary: EntryLocator,
        locs: &[EntryLocator; 19],
        count: usize,
        scratch: &mut Scratch<'_>,
    ) -> (result: Result<(), Error<D::Error>>)
        requires
            old(self).wf(),
            count <= 19,
            old(scratch)@.len() >= old(self).volume.geometry.bytes_per_sector,
        ensures
            final(self).wf(),
            final(scratch)@.len() == old(scratch)@.len(),
            state::performs(
                *old(self),
                *final(self),
                result,
                checksum_plan(
                    old(self).volume,
                    old(self).media(),
                    old(self).free_clusters,
                    primary,
                    locs@.take(count as int),
                ),
            ),
    {
        let size: usize = self.volume.geometry.bytes_per_sector as usize;
        let ghost before = *self;
        let ghost media = self.media();
        let ghost all = locs@.take(count as int);
        let ghost plan = checksum_plan::<D::Error>(
            self.volume,
            media,
            self.free_clusters,
            primary,
            all,
        );
        let ghost idle = Plan::<(), D::Error>::answer(self.free_clusters, Ok(()));
        proof {
            state::lemma_answer(before, before, Ok::<(), Error<D::Error>>(()), Ok(()));
            assert(idle.and(plan) =~= plan);
        }
        let summed = self.read_set_checksum(locs, count, scratch);
        let ghost s1 = *self;
        proof {
            state::lemma_read_within(
                before,
                before,
                s1,
                idle,
                Ok(()),
                error::or_corrupt(set_sum(before.volume.geometry, media, all, count as nat)),
                summed,
                plan,
            );
        }
        let sum: u16 = match summed {
            Ok(sum) => sum,
            Err(error) => return Err(error),
        };
        let offset: usize = primary.offset as usize;
        if offset + 32 > size {
            return Err(Error::Corrupt);
        }
        let read = self.fetch(primary.lba, scratch);
        let ghost s2 = *self;
        proof {
            state::lemma_read_within(before, s1, s2, idle, Ok(()), Ok(()), read, plan);
        }
        match read {
            Ok(()) => {},
            Err(error) => return Err(error),
        }
        bytes::put_u16(scratch.sector(size), offset + 2, sum);
        assert(scratch@.take(size as int) =~= bytes::splice(
            media[primary.lba],
            primary.offset + 2,
            bytes::le16(sum),
        ));
        self.put(primary.lba, scratch)
    }

    /// Record a file's lengths and clusters in its entry set.
    ///
    /// The stream extension can be in a different sector (and, for a
    /// FAT-chained directory, even a different cluster) from the primary
    /// entry. Each locator is therefore updated and read independently using
    /// the caller-owned sector scratch.
    pub fn update_stream(&mut self, file: &File, scratch: &mut Scratch<'_>) -> (result: Result<
        (),
        Error<D::Error>,
    >)
        requires
            old(self).wf(),
            file.wf(),
            old(scratch)@.len() >= old(self).volume.geometry.bytes_per_sector,
        ensures
            final(self).wf(),
            final(scratch)@.len() == old(scratch)@.len(),
            state::performs(
                *old(self),
                *final(self),
                result,
                update_plan(
                    old(self).volume,
                    old(self).media(),
                    old(self).free_clusters,
                    file@,
                ),
            ),
    {
        let size: usize = self.volume.geometry.bytes_per_sector as usize;
        let ghost before = *self;
        let ghost v = self.volume;
        let ghost media = self.media();
        let ghost free = self.free_clusters;
        let ghost plan = update_plan::<D::Error>(v, media, free, file@);
        let ghost idle = Plan::<(), D::Error>::answer(free, Ok(()));
        proof {
            state::lemma_answer(before, before, Ok::<(), Error<D::Error>>(()), Ok(()));
            assert(idle.and(plan) =~= plan);
        }
        if file.entry_count < 2 {
            return Err(Error::Corrupt);
        }
        let read = self.fetch(file.stream.lba, scratch);
        let ghost s1 = *self;
        proof {
            state::lemma_read_within(before, before, s1, idle, Ok(()), Ok(()), read, plan);
        }
        match read {
            Ok(()) => {},
            Err(error) => return Err(error),
        }
        let at: usize = file.stream.offset as usize;
        if at + 32 > size {
            return Err(Error::Corrupt);
        }
        let flags: u8 = if file.no_fat_chain {
            3
        } else {
            1
        };
        bytes::put_u8(scratch.sector(size), at + 1, flags);
        bytes::put_u64(scratch.sector(size), at + 8, file.valid_length);
        bytes::put_u32(scratch.sector(size), at + 20, file.first_cluster);
        bytes::put_u64(scratch.sector(size), at + 24, file.data_length);
        assert(scratch@.take(size as int) =~= stream_patched(
            media[file.stream.lba],
            at as int,
            file@,
        ));
        let patched = self.put(file.stream.lba, scratch);
        let ghost patch = sector_plan::<D::Error>(
            free,
            file.stream.lba,
            stream_patched(media[file.stream.lba], at as int, file@),
        );
        let ghost rest = checksum_plan::<D::Error>(
            v,
            patch.leaves(media),
            free,
            file.primary,
            file@.locs,
        );
        let ghost s2 = *self;
        proof {
            state::lemma_first_step(s1, s2, patch, patched, rest);
        }
        match patched {
            Ok(()) => {},
            Err(error) => return Err(error),
        }
        let summed = self.write_set_checksum(
            file.primary,
            &file.entry_locs,
            file.entry_count as usize,
            scratch,
        );
        proof {
            state::lemma_and_succeeds(s1, s2, *self, patched, patch, summed, rest);
        }
        summed
    }

    /// Clear the in-use bits of an entry set. That is the exFAT deletion
    /// marker: the remainder is preserved for media recovery tools while the
    /// slots become immediately reusable.
    pub fn retire_entry_set(&mut self, entry: &DirectoryEntry, scratch: &mut Scratch<'_>) -> (
    result: Result<(), Error<D::Error>>)
        requires
            old(self).wf(),
            entry.wf(),
            old(scratch)@.len() >= old(self).volume.geometry.bytes_per_sector,
        ensures
            final(self).wf(),
            final(scratch)@.len() == old(scratch)@.len(),
            state::performs(
                *old(self),
                *final(self),
                result,
                retire_plan(
                    old(self).volume,
                    old(self).media(),
                    old(self).free_clusters,
                    entry@.locs,
                    0,
                ),
            ),
    {
        let size: usize = self.volume.geometry.bytes_per_sector as usize;
        let count: usize = entry.entry_count as usize;
        let ghost before = *self;
        let ghost v = self.volume;
        let ghost free = self.free_clusters;
        let ghost locs = entry@.locs;
        let ghost plan = retire_plan::<D::Error>(v, self.media(), free, locs, 0);
        let ghost mut done = Plan::<(), D::Error>::answer(free, Ok(()));
        proof {
            state::lemma_answer(before, before, Ok::<(), Error<D::Error>>(()), Ok(()));
            assert(done.and(plan) =~= plan);
        }
        let mut i: usize = 0;
        while i < count
            invariant
                i <= count <= 19,
                count == entry.entry_count,
                locs == entry@.locs,
                locs.len() == count,
                self.wf(),
                before == *old(self),
                v == before.volume,
                v == self.volume,
                free == before.free_clusters,
                self.free_clusters == free,
                size == v.geometry.bytes_per_sector,
                scratch@.len() == old(scratch)@.len(),
                scratch@.len() >= size,
                done.result == Ok::<(), Error<D::Error>>(()),
                state::performs(before, *self, Ok(()), done),
                plan == retire_plan::<D::Error>(v, before.media(), free, locs, 0),
                plan == done.and(
                    retire_plan::<D::Error>(v, self.media(), free, locs, i as int),
                ),
            decreases count - i,
        {
            let at = entry.entry_locs[i];
            assert(at == locs[i as int]);
            let offset: usize = at.offset as usize;
            let ghost s0 = *self;
            let ghost media = self.media();
            let ghost rest = retire_plan::<D::Error>(v, media, free, locs, i as int);
            if offset + 32 > size {
                proof {
                    state::lemma_read_within(
                        before,
                        s0,
                        s0,
                        done,
                        Ok(()),
                        Err::<(), Error<D::Error>>(Error::Corrupt),
                        Err::<(), Error<D::Error>>(Error::Corrupt),
                        rest,
                    );
                }
                return Err(Error::Corrupt);
            }
            let read = self.fetch(at.lba, scratch);
            let ghost s1 = *self;
            proof {
                state::lemma_read_within(before, s0, s1, done, Ok(()), Ok(()), read, rest);
            }
            match read {
                Ok(()) => {},
                Err(error) => return Err(error),
            }
            let value: u8 = scratch.head(size)[offset];
            bytes::put_u8(scratch.sector(size), offset, value & 0x7f);
            assert(scratch@.take(size as int) =~= media[at.lba].update(
                offset as int,
                value & 0x7f,
            ));
            let cleared = self.put(at.lba, scratch);
            proof {
                let clear = sector_plan::<D::Error>(
                    free,
                    at.lba,
                    media[at.lba].update(offset as int, value & 0x7f),
                );
                let after = retire_plan::<D::Error>(v, clear.leaves(media), free, locs, i + 1);
                state::lemma_step(before, s1, *self, done, Ok(()), clear, cleared, after);
                done = done.and(clear);
            }
            match cleared {
                Ok(()) => {},
                Err(error) => return Err(error),
            }
            i = i + 1;
        }
        assert(done =~= plan);
        Ok(())
    }
}

/// An answer without the checksum in it.
pub open spec fn sum_dropped<E>(result: Result<u16, Error<E>>) -> Result<(), Error<E>> {
    match result {
        Ok(_) => Ok(()),
        Err(error) => Err(error),
    }
}

/// Every entry of a set has 32 bytes.
pub proof fn lemma_entry_len(s: SetModel, hash: u16, i: int)
    ensures
        set_entry(s, hash, i).len() == 32,
{
}

/// Entries that were all written leave the free-cluster count alone, and the
/// first of them fits its sector.
proof fn lemma_entries_free<E>(
    v: Volume,
    media: Media,
    free: u32,
    locs: Seq<EntryLocator>,
    s: SetModel,
    hash: u16,
    i: int,
)
    requires
        0 <= i,
        entries_plan::<E>(v, media, free, locs, s, hash, i).result is Ok,
    ensures
        entries_plan::<E>(v, media, free, locs, s, hash, i).free == free,
        i < locs.len() ==> fits(v.geometry, locs[i]),
    decreases locs.len() - i,
{
    if i < locs.len() {
        let write = sector_plan::<E>(
            free,
            locs[i].lba,
            bytes::splice(
                media[locs[i].lba],
                locs[i].offset as int,
                set_entry(s, hash, i),
            ),
        );
        lemma_entries_free::<E>(v, write.leaves(media), free, locs, s, hash, i + 1);
    }
}

/// A set whose beginning has no checksum has none.
proof fn lemma_no_sum(g: Geometry, media: Media, locs: Seq<EntryLocator>, k: nat, n: nat)
    requires
        k <= n,
        set_sum(g, media, locs, k) is None,
    ensures
        set_sum(g, media, locs, n) is None,
    decreases n,
{
    if k < n {
        lemma_no_sum(g, media, locs, k, (n - 1) as nat);
    }
}

} // verus!
