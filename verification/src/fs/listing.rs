//! Listing directories and searching them by name.

use crate::device::{BlockDevice, Media, Scratch};
use crate::directory::entry;
use crate::directory::entry::{
    DecoderModel, Directory, DirectoryEntry, DirectoryModel, EntryModel, EntrySet, Workspace,
};
use crate::directory::slots::Slot;
use crate::error;
use crate::error::Error;
use crate::fs::names;
use crate::fs::state;
use crate::fs::state::FileSystem;
use crate::fs::walk;
use crate::fs::walk::{Cursor, End, Pending, Step};
use crate::geometry::Geometry;
use crate::mount::Volume;
use vstd::prelude::*;

verus! {

/// The files and directories that a directory lists.
#[verifier::ext_equal]
pub struct Listing {
    /// They, in order.
    pub entries: Seq<EntryModel>,
    /// Whether the directory is sound behind them.
    pub sound: bool,
}

/// The entry sets that `slots` complete for a decoder in state `decoder`. The
/// listing ends at the first slot that was never used, and at the first
/// malformed set.
pub open spec fn listing_from(slots: Seq<Slot>, end: End, decoder: DecoderModel) -> Listing
    decreases slots.len(),
{
    if slots.len() == 0 {
        Listing { entries: Seq::empty(), sound: end != End::Corrupt }
    } else if slots[0].raw[0] == 0 {
        Listing { entries: Seq::empty(), sound: true }
    } else {
        let (next, decoded) = decoder.push(slots[0].raw, slots[0].at);
        let rest = listing_from(slots.drop_first(), end, next);
        match decoded {
            None => Listing { entries: Seq::empty(), sound: false },
            Some(None) => rest,
            Some(Some(found)) => Listing { entries: seq![found] + rest.entries, sound: rest.sound },
        }
    }
}

/// What a directory lists.
pub open spec fn listing(g: Geometry, media: Media, d: DirectoryModel) -> Listing {
    let all = walk::directory_slots(g, media, d);
    listing_from(all.slots, all.end, entry::idle_decoder())
}

/// The first file or directory of a listing: `None` where the directory is
/// damaged before one is found.
pub open spec fn first_of(list: Listing) -> Option<Option<EntryModel>> {
    if list.entries.len() > 0 {
        Some(Some(list.entries[0]))
    } else if list.sound {
        Some(None)
    } else {
        None
    }
}

/// The first entry from number `i` on that has the name `name`, up to case.
pub open spec fn find_from(v: Volume, media: Media, list: Listing, name: Seq<u16>, i: int) -> Option<
    Option<EntryModel>,
>
    decreases list.entries.len() - i,
{
    if i >= list.entries.len() {
        if list.sound {
            Some(None)
        } else {
            None
        }
    } else {
        match names::same_name(v, media, list.entries[i].name, name) {
            None => None,
            Some(true) => Some(Some(list.entries[i])),
            Some(false) => find_from(v, media, list, name, i + 1),
        }
    }
}

/// The entry of `d` that has the name `name`, up to case: `None` where the
/// directory or the UpCase table is damaged before it is found.
pub open spec fn child(v: Volume, media: Media, d: DirectoryModel, name: Seq<u16>) -> Option<
    Option<EntryModel>,
> {
    find_from(v, media, listing(v.geometry, media, d), name, 0)
}

/// What searching a directory answers.
pub open spec fn child_result<E>(
    v: Volume,
    media: Media,
    d: DirectoryModel,
    name: Seq<u16>,
    scratch_len: nat,
) -> Result<Option<EntryModel>, Error<E>> {
    if scratch_len < v.geometry.bytes_per_sector {
        Err(Error::InvalidSectorSize)
    } else {
        error::or_corrupt(child(v, media, d, name))
    }
}

/// Whether `visitor` was shown the entries `visited`, which start the listing,
/// answered `replies`, and asked for more each time but perhaps the last.
pub open spec fn shown<F: FnMut(&DirectoryEntry) -> bool>(
    visitor: F,
    list: Listing,
    visited: Seq<DirectoryEntry>,
    replies: Seq<bool>,
) -> bool {
    &&& visited.len() == replies.len()
    &&& visited.len() <= list.entries.len()
    &&& forall|i: int|
        0 <= i < visited.len() ==> {
            &&& (#[trigger] visited[i])@ == list.entries[i]
            &&& call_ensures(visitor, (&visited[i],), replies[i])
        }
    &&& forall|i: int| 0 <= i < replies.len() - 1 ==> #[trigger] replies[i]
}

/// What showing a listing to a visitor answers: success where the visitor
/// asked for no more, and otherwise what the whole listing amounts to.
pub open spec fn shown_result<E>(list: Listing, replies: Seq<bool>) -> Result<(), Error<E>> {
    if replies.len() > 0 && !replies.last() {
        Ok(())
    } else if list.sound {
        Ok(())
    } else {
        Err(Error::Corrupt)
    }
}

impl<D: BlockDevice> FileSystem<D> {
    /// Decode slots up to the next complete entry set.
    pub fn next_entry(
        &mut self,
        cursor: &mut Cursor,
        decoder: &mut EntrySet,
        scratch: &mut Scratch<'_>,
    ) -> (result: Result<Option<DirectoryEntry>, Error<D::Error>>)
        requires
            old(self).wf(),
            old(scratch)@.len() >= old(self).volume.geometry.bytes_per_sector,
            old(cursor).wf(old(self).volume.geometry),
            old(cursor).ready(
                old(self).media(),
                old(scratch)@,
                old(self).volume.geometry.bytes_per_sector as int,
            ),
            old(decoder).wf(),
        ensures
            final(self).wf(),
            final(scratch)@.len() == old(scratch)@.len(),
            final(cursor).wf(old(self).volume.geometry),
            final(decoder).wf(),
            state::answers(
                *old(self),
                *final(self),
                entry::decoded_view(result),
                error::or_corrupt(
                    first_of(
                        coming(
                            old(cursor).pending(old(self).volume.geometry, old(self).media()),
                            old(decoder)@,
                        ),
                    ),
                ),
            ),
            result matches Ok(Some(found)) ==> {
                let before = coming(
                    old(cursor).pending(old(self).volume.geometry, old(self).media()),
                    old(decoder)@,
                );
                let after = coming(
                    final(cursor).pending(old(self).volume.geometry, old(self).media()),
                    final(decoder)@,
                );
                &&& found.wf()
                &&& after.entries == before.entries.skip(1)
                &&& after.sound == before.sound
                &&& final(cursor).ready(
                    old(self).media(),
                    final(scratch)@,
                    old(self).volume.geometry.bytes_per_sector as int,
                )
            },
    {
        let g = self.volume.geometry;
        let size: usize = g.bytes_per_sector as usize;
        let ghost media = self.media();
        let ghost list = coming(cursor.pending(g, media), decoder@);
        loop
            invariant
                self.wf(),
                g == self.volume.geometry,
                g == old(self).volume.geometry,
                size == g.bytes_per_sector,
                media == old(self).media(),
                state::answers(*old(self), *self, Ok::<(), Error<D::Error>>(()), Ok(())),
                scratch@.len() == old(scratch)@.len(),
                scratch@.len() >= size,
                cursor.wf(g),
                cursor.ready(media, scratch@, size as int),
                decoder.wf(),
                coming(cursor.pending(g, media), decoder@) == list,
                list == coming(
                    old(cursor).pending(g, old(self).media()),
                    old(decoder)@,
                ),
            decreases cursor.pending(g, media).slots.len(),
        {
            let ghost before = cursor.pending(g, media);
            let at = match self.next_slot(cursor, scratch) {
                Ok(Step::Slot(at)) => at,
                Ok(Step::End(End::Corrupt)) => return Err(Error::Corrupt),
                Ok(Step::End(_)) => return Ok(None),
                Err(error) => return Err(error),
            };
            let offset: usize = at.offset as usize;
            let raw = vstd::slice::slice_subrange(scratch.head(size), offset, offset + 32);
            assert(raw@ =~= before.slots[0].raw);
            if raw[0] == 0 {
                return Ok(None);
            }
            match decoder.push(raw, at) {
                Ok(Some(found)) => {
                    assert(coming(cursor.pending(g, media), decoder@).entries
                        =~= list.entries.skip(1));
                    return Ok(Some(found));
                },
                Ok(None) => {},
                Err(error) => return Err(error),
            }
        }
    }

    /// Find the entry with the name that the workspace holds.
    pub fn find_child(
        &mut self,
        directory: &Directory,
        wanted_len: usize,
        scratch: &mut Scratch<'_>,
        workspace: &mut Workspace,
    ) -> (result: Result<Option<DirectoryEntry>, Error<D::Error>>)
        requires
            old(self).wf(),
            old(workspace).wf(),
            wanted_len <= 255,
        ensures
            final(self).wf(),
            final(workspace).wf(),
            final(workspace).utf16 == old(workspace).utf16,
            final(scratch)@.len() == old(scratch)@.len(),
            state::answers(
                *old(self),
                *final(self),
                entry::decoded_view(result),
                child_result(
                    old(self).volume,
                    old(self).media(),
                    directory@,
                    old(workspace).utf16@.take(wanted_len as int),
                    old(scratch)@.len(),
                ),
            ),
            result matches Ok(Some(found)) ==> found.wf(),
            old(scratch)@.len() < old(self).volume.geometry.bytes_per_sector ==> {
                &&& result == Err::<Option<DirectoryEntry>, Error<D::Error>>(
                    Error::InvalidSectorSize,
                )
                &&& *final(self) == *old(self)
            },
    {
        let g = self.volume.geometry;
        let size: usize = g.bytes_per_sector as usize;
        if scratch.len() < size {
            return Err(Error::InvalidSectorSize);
        }
        let ghost v = self.volume;
        let ghost media = self.media();
        let ghost name = workspace.utf16@.take(wanted_len as int);
        let ghost list = listing(g, media, directory@);
        let ghost mut seen: int = 0;
        workspace.entry_set = EntrySet::new();
        let mut cursor = Cursor::start(directory, g);
        assert(list.entries.skip(0) =~= list.entries);
        assert(cursor.pending(g, media) == walk::directory_slots(g, media, directory@));
        loop
            invariant
                self.wf(),
                g == self.volume.geometry,
                size == g.bytes_per_sector,
                v == old(self).volume,
                g == v.geometry,
                media == old(self).media(),
                state::answers(*old(self), *self, Ok::<(), Error<D::Error>>(()), Ok(())),
                scratch@.len() == old(scratch)@.len(),
                scratch@.len() >= size,
                cursor.wf(g),
                cursor.ready(media, scratch@, size as int),
                workspace.wf(),
                workspace.utf16 == old(workspace).utf16,
                wanted_len <= 255,
                name == workspace.utf16@.take(wanted_len as int),
                list == listing(g, media, directory@),
                0 <= seen <= list.entries.len(),
                coming(cursor.pending(g, media), workspace.entry_set@) == (Listing {
                    entries: list.entries.skip(seen),
                    sound: list.sound,
                }),
                child(v, media, directory@, name) == find_from(v, media, list, name, seen),
            decreases list.entries.len() - seen,
        {
            let found = match self.next_entry(&mut cursor, &mut workspace.entry_set, scratch) {
                Ok(Some(found)) => found,
                Ok(None) => return Ok(None),
                Err(error) => return Err(error),
            };
            assert(list.entries.skip(seen)[0] == list.entries[seen]);
            assert(list.entries.skip(seen).skip(1) =~= list.entries.skip(seen + 1));
            let wanted = vstd::slice::slice_subrange(workspace.utf16.as_slice(), 0, wanted_len);
            match self.names_match(found.name_utf16(), wanted, scratch) {
                Ok(true) => return Ok(Some(found)),
                Ok(false) => {},
                Err(error) => return Err(error),
            }
            // The UpCase lookup used the one caller-owned sector scratch, so
            // the directory sector is read again before its next entry.
            cursor.loaded = false;
            proof {
                seen = seen + 1;
            }
        }
    }

    /// Find the first file or directory that a directory lists.
    pub fn first_directory_entry(&mut self, directory: &Directory, scratch: &mut Scratch<'_>) -> (
    result: Result<Option<DirectoryEntry>, Error<D::Error>>)
        requires
            old(self).wf(),
            old(scratch)@.len() >= old(self).volume.geometry.bytes_per_sector,
        ensures
            final(self).wf(),
            final(scratch)@.len() == old(scratch)@.len(),
            state::answers(
                *old(self),
                *final(self),
                entry::decoded_view(result),
                error::or_corrupt(
                    first_of(
                        listing(old(self).volume.geometry, old(self).media(), directory@),
                    ),
                ),
            ),
            result matches Ok(Some(found)) ==> found.wf(),
    {
        let g = self.volume.geometry;
        let mut decoder = EntrySet::new();
        let mut cursor = Cursor::start(directory, g);
        assert(cursor.pending(g, self.media()) == walk::directory_slots(
            g,
            self.media(),
            directory@,
        ));
        self.next_entry(&mut cursor, &mut decoder, scratch)
    }

    /// Visit each allocated entry in the root directory. Directory clusters
    /// are read one sector at a time, including on media whose cluster size is
    /// much larger than available RAM.
    pub fn read_root<F>(&mut self, scratch: &mut Scratch<'_>, visitor: F) -> (result: Result<
        (),
        Error<D::Error>,
    >) where F: FnMut(&DirectoryEntry) -> bool
        requires
            old(self).wf(),
            forall|found: &DirectoryEntry| #[trigger] call_requires(visitor, (found,)),
        ensures
            final(self).wf(),
            final(scratch)@.len() == old(scratch)@.len(),
            state::answers(*old(self), *final(self), result, result),
            read_shows(
                old(self).volume.geometry,
                old(self).media(),
                entry::root_model(old(self).volume.geometry),
                visitor,
                old(scratch)@.len(),
                result,
            ),
            old(scratch)@.len() < old(self).volume.geometry.bytes_per_sector ==> *final(self)
                == *old(self),
    {
        let root = Directory::root(self.volume.geometry);
        self.read_directory(root, scratch, visitor)
    }

    /// Stream complete allocated entry sets in `directory` to `visitor`.
    ///
    /// Returning `false` from the visitor stops iteration successfully.
    pub fn read_directory<F>(
        &mut self,
        directory: Directory,
        scratch: &mut Scratch<'_>,
        visitor: F,
    ) -> (result: Result<(), Error<D::Error>>) where F: FnMut(&DirectoryEntry) -> bool
        requires
            old(self).wf(),
            forall|found: &DirectoryEntry| #[trigger] call_requires(visitor, (found,)),
        ensures
            final(self).wf(),
            final(scratch)@.len() == old(scratch)@.len(),
            state::answers(*old(self), *final(self), result, result),
            read_shows(
                old(self).volume.geometry,
                old(self).media(),
                directory@,
                visitor,
                old(scratch)@.len(),
                result,
            ),
            old(scratch)@.len() < old(self).volume.geometry.bytes_per_sector ==> *final(self)
                == *old(self),
    {
        let g = self.volume.geometry;
        let size: usize = g.bytes_per_sector as usize;
        if scratch.len() < size {
            return Err(Error::InvalidSectorSize);
        }
        let mut ask = visitor;
        let ghost media = self.media();
        let ghost list = listing(g, media, directory@);
        let ghost mut visited = Seq::<DirectoryEntry>::empty();
        let ghost mut replies = Seq::<bool>::empty();
        let mut decoder = EntrySet::new();
        let mut cursor = Cursor::start(&directory, g);
        assert(list.entries.skip(0) =~= list.entries);
        assert(cursor.pending(g, media) == walk::directory_slots(g, media, directory@));
        loop
            invariant
                self.wf(),
                g == self.volume.geometry,
                g == old(self).volume.geometry,
                size == g.bytes_per_sector,
                media == old(self).media(),
                state::answers(*old(self), *self, Ok::<(), Error<D::Error>>(()), Ok(())),
                scratch@.len() == old(scratch)@.len(),
                scratch@.len() >= size,
                cursor.wf(g),
                cursor.ready(media, scratch@, size as int),
                decoder.wf(),
                list == listing(g, media, directory@),
                ask == visitor,
                forall|found: &DirectoryEntry| #[trigger] call_requires(visitor, (found,)),
                shown(visitor, list, visited, replies),
                forall|i: int| 0 <= i < replies.len() ==> #[trigger] replies[i],
                coming(cursor.pending(g, media), decoder@) == (Listing {
                    entries: list.entries.skip(visited.len() as int),
                    sound: list.sound,
                }),
            decreases list.entries.len() - visited.len(),
        {
            let ghost seen = visited.len() as int;
            let found = match self.next_entry(&mut cursor, &mut decoder, scratch) {
                Ok(Some(found)) => found,
                Ok(None) => {
                    assert(shown(visitor, list, visited, replies));
                    return Ok(());
                },
                Err(error) => {
                    assert(shown(visitor, list, visited, replies));
                    return Err(error);
                },
            };
            assert(list.entries.skip(seen)[0] == list.entries[seen]);
            assert(list.entries.skip(seen).skip(1) =~= list.entries.skip(seen + 1));
            let more: bool = ask(&found);
            proof {
                visited = visited.push(found);
                replies = replies.push(more);
                assert(shown(visitor, list, visited, replies));
            }
            if !more {
                return Ok(());
            }
        }
    }
}

/// What the slots that are still to come list.
pub open spec fn coming(pending: Pending, decoder: DecoderModel) -> Listing {
    listing_from(pending.slots, pending.end, decoder)
}

/// Whether `result` is what showing the directory `d` to `visitor` comes to.
/// The listing is shown from its start, up to the first answer `false`.
pub open spec fn read_shows<F: FnMut(&DirectoryEntry) -> bool, E>(
    g: Geometry,
    media: Media,
    d: DirectoryModel,
    visitor: F,
    scratch_len: nat,
    result: Result<(), Error<E>>,
) -> bool {
    let list = listing(g, media, d);
    if scratch_len < g.bytes_per_sector {
        result == Err::<(), Error<E>>(Error::InvalidSectorSize)
    } else {
        exists|visited: Seq<DirectoryEntry>, replies: Seq<bool>|
            {
                &&& #[trigger] shown(visitor, list, visited, replies)
                &&& match result {
                    Err(Error::Device(_)) => true,
                    _ => {
                        &&& result == shown_result::<E>(list, replies)
                        &&& visited.len() == list.entries.len() || (replies.len() > 0
                            && !replies.last())
                    },
                }
            }
    }
}

} // verus!
