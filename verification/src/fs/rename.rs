//! Renaming files and directories within their directory.

use crate::bytes;
use crate::device::{BlockDevice, Media, Scratch};
use crate::directory::codec;
use crate::directory::entry;
use crate::directory::entry::{DirectoryEntry, EntryModel, Workspace};
use crate::directory::slots::EntryLocator;
use crate::error;
use crate::error::Error;
use crate::fs::create;
use crate::fs::lookup;
use crate::fs::metadata;
use crate::fs::metadata::{NewEntrySet, SetModel};
use crate::fs::names;
use crate::fs::paths;
use crate::fs::space;
use crate::fs::state;
use crate::fs::state::{FileSystem, Plan};
use crate::mount::Volume;
use vstd::prelude::*;
use vstd::string::StrSliceExecFns;

verus! {

/// A sector once the stream extension at byte `at` announces the name `name`
/// with this hash.
pub open spec fn announced(sector: Seq<u8>, at: int, name: Seq<u16>, hash: u16) -> Seq<u8> {
    bytes::splice(
        bytes::splice(sector, at + 3, seq![name.len() as u8]),
        at + 4,
        bytes::le16(hash),
    )
}

/// A sector once the name entry at byte `at` holds the units of `name` from
/// `begin` on. The entry's flags stay as they are.
pub open spec fn named(sector: Seq<u8>, at: int, name: Seq<u16>, begin: int) -> Seq<u8> {
    Seq::new(
        sector.len(),
        |i: int|
            if at <= i < at + 32 && i != at + 1 {
                metadata::name_entry_byte(name, begin, i - at)
            } else {
                sector[i]
            },
    )
}

/// What writing `name` into the name entries at `locs`, from entry number `i`
/// of the set on, does.
pub open spec fn names_plan<E>(
    v: Volume,
    media: Media,
    free: u32,
    locs: Seq<EntryLocator>,
    name: Seq<u16>,
    i: int,
) -> Plan<(), E>
    decreases locs.len() - i,
{
    if i >= locs.len() {
        Plan::answer(free, Ok(()))
    } else if !metadata::fits(v.geometry, locs[i]) {
        Plan::answer(free, Err(Error::Corrupt))
    } else {
        let write = metadata::sector_plan::<E>(
            free,
            locs[i].lba,
            named(media[locs[i].lba], locs[i].offset as int, name, 15 * (i - 2)),
        );
        write.and(names_plan(v, write.leaves(media), free, locs, name, i + 1))
    }
}

/// What giving an entry set a name that takes as many entries does: announce
/// it, write it, record the checksum.
pub open spec fn rename_in_place_plan<E>(
    v: Volume,
    media: Media,
    free: u32,
    found: EntryModel,
    name: Seq<u16>,
) -> Plan<(), E> {
    match names::name_hash(v, media, name) {
        None => Plan::answer(free, Err(Error::Corrupt)),
        Some(hash) => {
            let at = found.stream;
            if !metadata::fits(v.geometry, at) {
                Plan::answer(free, Err(Error::Corrupt))
            } else {
                let announce = metadata::sector_plan::<E>(
                    free,
                    at.lba,
                    announced(media[at.lba], at.offset as int, name, hash),
                );
                let told = announce.leaves(media);
                let write = names_plan::<E>(v, told, free, found.locs, name, 2);
                announce.and(
                    write.and(
                        metadata::checksum_plan(
                            v,
                            write.leaves(told),
                            free,
                            found.primary,
                            found.locs,
                        ),
                    ),
                )
            }
        },
    }
}

/// The entry set that describes what `found` does, under the name `name`.
pub open spec fn renamed_set(found: EntryModel, name: Seq<u16>) -> SetModel {
    SetModel {
        name,
        attributes: if found.is_directory {
            0x10
        } else {
            0
        },
        first_cluster: found.first_cluster,
        valid_length: found.valid_length,
        data_length: found.data_length,
        no_fat_chain: found.no_fat_chain,
        created: found.created,
        modified: found.modified,
        accessed: found.accessed,
    }
}

/// What replacing an entry set by one with another name does: find slots in
/// the same directory, write the new set, then retire the old one.
pub open spec fn replace_plan<E>(
    v: Volume,
    media: Media,
    free: u32,
    path: Seq<char>,
    found: EntryModel,
    name: Seq<u16>,
    scratch_len: nat,
) -> Plan<(), E> {
    match create::parent_result::<E>(v, media, path, scratch_len) {
        Err(error) => Plan::answer(free, Err(error)),
        Ok((d, _)) => {
            let find = space::find_entries_plan::<E>(v, media, free, d, create::set_len(name));
            let write = metadata::write_set_plan::<E>(
                v,
                find.leaves(media),
                find.free,
                find.result->Ok_0,
                renamed_set(found, name),
            );
            let written = write.leaves(find.leaves(media));
            find.and(
                write.and(metadata::retire_plan(v, written, find.free, found.locs, 0)),
            )
        },
    }
}

/// Whether a new name is one component.
pub open spec fn is_component(name: Seq<char>) -> bool {
    name.len() > 0 && !name.contains('/')
}

/// What renaming what `path` names to `new_name` does. The set is rewritten in
/// place where the new name takes as many entries as the old one, and replaced
/// where it does not.
pub open spec fn rename_plan<E>(
    v: Volume,
    media: Media,
    free: u32,
    path: Seq<char>,
    new_name: Seq<char>,
    scratch_len: nat,
) -> Plan<(), E> {
    let inner = paths::trimmed(path);
    if !is_component(new_name) {
        Plan::answer(free, Err(Error::InvalidPath))
    } else {
        match lookup::lookup_result::<E>(v, media, inner, scratch_len) {
            Err(error) => Plan::answer(free, Err(error)),
            Ok(found) => match codec::name_result::<E>(new_name) {
                Err(error) => Plan::answer(free, Err(error)),
                Ok(name) => if create::set_len(name) == found.locs.len() {
                    rename_in_place_plan(v, media, free, found, name)
                } else {
                    replace_plan(v, media, free, inner, found, name, scratch_len)
                },
            },
        }
    }
}

/// Writing names leaves the free-cluster count alone.
proof fn lemma_names_free<E>(
    v: Volume,
    media: Media,
    free: u32,
    locs: Seq<EntryLocator>,
    name: Seq<u16>,
    i: int,
)
    ensures
        names_plan::<E>(v, media, free, locs, name, i).free == free,
    decreases locs.len() - i,
{
    if i < locs.len() && metadata::fits(v.geometry, locs[i]) {
        let write = metadata::sector_plan::<E>(
            free,
            locs[i].lba,
            named(media[locs[i].lba], locs[i].offset as int, name, 15 * (i - 2)),
        );
        lemma_names_free::<E>(v, write.leaves(media), free, locs, name, i + 1);
    }
}

/// Check that a new name is one component.
fn check_component(name: &str) -> (ok: bool)
    ensures
        ok == is_component(name@),
{
    let count: usize = name.unicode_len();
    if count == 0 {
        return false;
    }
    let mut i: usize = 0;
    while i < count
        invariant
            i <= count,
            count == name@.len(),
            forall|k: int| 0 <= k < i ==> #[trigger] name@[k] != '/',
        decreases count - i,
    {
        if name.get_char(i) == '/' {
            assert(name@.contains('/')) by {
                assert(name@[i as int] == '/');
            }
            return false;
        }
        i = i + 1;
    }
    true
}

impl<D: BlockDevice> FileSystem<D> {
    /// Write a name into the name entries of a set.
    fn write_names(
        &mut self,
        found: &DirectoryEntry,
        name: &[u16],
        scratch: &mut Scratch<'_>,
    ) -> (result: Result<(), Error<D::Error>>)
        requires
            old(self).wf(),
            found.wf(),
            name.len() <= 255,
            old(scratch)@.len() >= old(self).volume.geometry.bytes_per_sector,
        ensures
            final(self).wf(),
            final(scratch)@.len() == old(scratch)@.len(),
            state::performs(
                *old(self),
                *final(self),
                result,
                names_plan(
                    old(self).volume,
                    old(self).media(),
                    old(self).free_clusters,
                    found@.locs,
                    name@,
                    2,
                ),
            ),
    {
        let size: usize = self.volume.geometry.bytes_per_sector as usize;
        let count: usize = found.entry_count as usize;
        let ghost before = *self;
        let ghost v = self.volume;
        let ghost free = self.free_clusters;
        let ghost locs = found@.locs;
        let ghost plan = names_plan::<D::Error>(v, self.media(), free, locs, name@, 2);
        let ghost mut done = Plan::<(), D::Error>::answer(free, Ok(()));
        proof {
            state::lemma_answer(before, before, Ok::<(), Error<D::Error>>(()), Ok(()));
            assert(done.and(plan) =~= plan);
        }
        let mut i: usize = 2;
        while i < count
            invariant
                2 <= i,
                count <= 19,
                count == found.entry_count,
                locs == found@.locs,
                locs.len() == count,
                name.len() <= 255,
                self.wf(),
                before == *old(self),
                v == before.volume,
                v == self.volume,
                free == before.free_clusters,
                self.free_clusters == free,
                size == v.geometry.bytes_per_sector,
                scratch@.len() == old(scratch)@.len(),
                scratch@.len() >= size,
                done.result == Ok::<(), Error<D::Error>>(()),
                state::performs(before, *self, Ok(()), done),
                plan == names_plan::<D::Error>(v, before.media(), free, locs, name@, 2),
                plan == done.and(
                    names_plan::<D::Error>(v, self.media(), free, locs, name@, i as int),
                ),
            decreases count - i,
        {
            let at = found.entry_locs[i];
            assert(at == locs[i as int]);
            let offset: usize = at.offset as usize;
            let ghost s0 = *self;
            let ghost media = self.media();
            let ghost rest = names_plan::<D::Error>(v, media, free, locs, name@, i as int);
            if offset + 32 > size {
                proof {
                    state::lemma_read_within(
                        before,
                        s0,
                        s0,
                        done,
                        Ok(()),
                        Err::<(), Error<D::Error>>(Error::Corrupt),
                        Err::<(), Error<D::Error>>(Error::Corrupt),
                        rest,
                    );
                }
                return Err(Error::Corrupt);
            }
            let read = self.fetch(at.lba, scratch);
            let ghost s1 = *self;
            proof {
                state::lemma_read_within(before, s0, s1, done, Ok(()), Ok(()), read, rest);
            }
            match read {
                Ok(()) => {},
                Err(error) => return Err(error),
            }
            bytes::put_u8(scratch.sector(size), offset, 0xc1);
            bytes::fill(scratch.sector(size), offset + 2, offset + 32, 0);
            metadata::encode_units(scratch.sector(size), offset, name, (i - 2) * 15);
            let ghost data = named(media[at.lba], offset as int, name@, 15 * (i - 2));
            assert(scratch@.take(size as int) =~= data);
            let stored = self.put(at.lba, scratch);
            proof {
                let write = metadata::sector_plan::<D::Error>(free, at.lba, data);
                let after = names_plan::<D::Error>(
                    v,
                    write.leaves(media),
                    free,
                    locs,
                    name@,
                    i + 1,
                );
                state::lemma_step(before, s1, *self, done, Ok(()), write, stored, after);
                done = done.and(write);
            }
            match stored {
                Ok(()) => {},
                Err(error) => return Err(error),
            }
            i = i + 1;
        }
        assert(done =~= plan);
        Ok(())
    }

    /// Give an entry set a name that takes as many entries.
    fn rename_in_place(
        &mut self,
        found: &DirectoryEntry,
        name: &[u16],
        scratch: &mut Scratch<'_>,
    ) -> (result: Result<(), Error<D::Error>>)
        requires
            old(self).wf(),
            found.wf(),
            name.len() <= 255,
            old(scratch)@.len() >= old(self).volume.geometry.bytes_per_sector,
        ensures
            final(self).wf(),
            final(scratch)@.len() == old(scratch)@.len(),
            state::performs(
                *old(self),
                *final(self),
                result,
                rename_in_place_plan(
                    old(self).volume,
                    old(self).media(),
                    old(self).free_clusters,
                    found@,
                    name@,
                ),
            ),
    {
        let size: usize = self.volume.geometry.bytes_per_sector as usize;
        let ghost before = *self;
        let ghost v = self.volume;
        let ghost media = self.media();
        let ghost free = self.free_clusters;
        let ghost plan = rename_in_place_plan::<D::Error>(v, media, free, found@, name@);
        let ghost idle = Plan::<(), D::Error>::answer(free, Ok(()));
        proof {
            state::lemma_answer(before, before, Ok::<(), Error<D::Error>>(()), Ok(()));
            assert(idle.and(plan) =~= plan);
        }
        let hashed = self.upcase_name_hash(name, scratch);
        let ghost s1 = *self;
        proof {
            state::lemma_read_within(
                before,
                before,
                s1,
                idle,
                Ok(()),
                error::or_corrupt(names::name_hash(v, media, name@)),
                hashed,
                plan,
            );
        }
        let hash: u16 = match hashed {
            Ok(hash) => hash,
            Err(error) => return Err(error),
        };
        let offset: usize = found.stream.offset as usize;
        if offset + 32 > size {
            return Err(Error::Corrupt);
        }
        let read = self.fetch(found.stream.lba, scratch);
        let ghost s2 = *self;
        proof {
            state::lemma_read_within(before, s1, s2, idle, Ok(()), Ok(()), read, plan);
        }
        match read {
            Ok(()) => {},
            Err(error) => return Err(error),
        }
        bytes::put_u8(scratch.sector(size), offset + 3, name.len() as u8);
        bytes::put_u16(scratch.sector(size), offset + 4, hash);
        let ghost data = announced(media[found.stream.lba], offset as int, name@, hash);
        assert(scratch@.take(size as int) =~= data);
        let ghost announce = metadata::sector_plan::<D::Error>(free, found.stream.lba, data);
        let ghost m1 = announce.leaves(media);
        let ghost write = names_plan::<D::Error>(v, m1, free, found@.locs, name@, 2);
        let ghost seal = metadata::checksum_plan::<D::Error>(
            v,
            write.leaves(m1),
            free,
            found.primary,
            found@.locs,
        );
        let told = self.put(found.stream.lba, scratch);
        let ghost s3 = *self;
        proof {
            state::lemma_first_step(s2, s3, announce, told, write.and(seal));
        }
        match told {
            Ok(()) => {},
            Err(error) => return Err(error),
        }
        let written = self.write_names(found, name, scratch);
        let ghost s4 = *self;
        proof {
            lemma_names_free::<D::Error>(v, m1, free, found@.locs, name@, 2);
            state::lemma_step(s2, s3, s4, announce, told, write, written, seal);
        }
        match written {
            Ok(()) => {},
            Err(error) => return Err(error),
        }
        let sealed = self.write_set_checksum(
            found.primary,
            &found.entry_locs,
            found.entry_count as usize,
            scratch,
        );
        proof {
            state::lemma_and_succeeds(
                s2,
                s4,
                *self,
                written,
                announce.and(write),
                sealed,
                seal,
            );
        }
        sealed
    }

    /// Replace an entry set by one with another name.
    fn replace_entry_set(
        &mut self,
        path: &str,
        found: &DirectoryEntry,
        new_name: &str,
        scratch: &mut Scratch<'_>,
        workspace: &mut Workspace,
    ) -> (result: Result<(), Error<D::Error>>)
        requires
            old(self).wf(),
            found.wf(),
            old(workspace).wf(),
            codec::name_result::<D::Error>(new_name@) is Ok,
            old(scratch)@.len() >= old(self).volume.geometry.bytes_per_sector,
        ensures
            final(self).wf(),
            final(workspace).wf(),
            final(scratch)@.len() == old(scratch)@.len(),
            state::performs(
                *old(self),
                *final(self),
                result,
                replace_plan(
                    old(self).volume,
                    old(self).media(),
                    old(self).free_clusters,
                    path@,
                    found@,
                    codec::str_units(new_name@),
                    old(scratch)@.len(),
                ),
            ),
    {
        let ghost before = *self;
        let ghost v = self.volume;
        let ghost media = self.media();
        let ghost free = self.free_clusters;
        let ghost len = scratch@.len();
        let ghost name = codec::str_units(new_name@);
        let ghost plan = replace_plan::<D::Error>(v, media, free, path@, found@, name, len);
        let ghost idle = Plan::<(), D::Error>::answer(free, Ok(()));
        proof {
            state::lemma_answer(before, before, Ok::<(), Error<D::Error>>(()), Ok(()));
            assert(idle.and(plan) =~= plan);
        }
        let above = self.find_parent(path, scratch, workspace);
        let ghost s1 = *self;
        proof {
            state::lemma_read_within(
                before,
                before,
                s1,
                idle,
                Ok(()),
                create::parent_result(v, media, path@, len),
                create::parent_view(above),
                plan,
            );
        }
        let (parent, _) = match above {
            Ok(found) => found,
            Err(error) => return Err(error),
        };
        // Resolving the parent used the workspace for its own components.
        let count: usize = match codec::utf8_to_utf16(new_name, &mut workspace.utf16) {
            Ok(count) => count,
            Err(error) => return Err(error),
        };
        let entries: usize = (count + 14) / 15 + 2;
        let ghost find = space::find_entries_plan::<D::Error>(
            v,
            media,
            free,
            parent@,
            create::set_len(name),
        );
        let ghost locs = find.result->Ok_0;
        let ghost m1 = find.leaves(media);
        let ghost set = renamed_set(found@, name);
        let ghost write = metadata::write_set_plan::<D::Error>(v, m1, find.free, locs, set);
        let ghost retire = metadata::retire_plan::<D::Error>(
            v,
            write.leaves(m1),
            find.free,
            found@.locs,
            0,
        );
        let searched = self.find_free_entries(&parent, entries, scratch, workspace);
        let ghost s2 = *self;
        let ghost shown = space::found_view(searched, entries as int);
        proof {
            state::lemma_first_step(s1, s2, find, shown, write.and(retire));
        }
        let locators = match searched {
            Ok(locators) => locators,
            Err(error) => return Err(error),
        };
        let contents = NewEntrySet {
            name: vstd::slice::slice_subrange(workspace.utf16.as_slice(), 0, count),
            attributes: if found.is_directory {
                0x10
            } else {
                0
            },
            first_cluster: found.first_cluster,
            valid_length: found.valid_length,
            data_length: found.data_length,
            no_fat_chain: found.no_fat_chain,
            created: found.created,
            modified: found.modified,
            accessed: found.accessed,
        };
        assert(entries <= 19) by {
            assert((count + 14) / 15 <= 17);
        }
        let written = self.write_entry_set(&locators, entries, &contents, scratch);
        let ghost s3 = *self;
        proof {
            assert(contents.name@ =~= name);
            state::lemma_step(s1, s2, s3, find, shown, write, written, retire);
            create::lemma_write_set_free::<D::Error>(v, m1, find.free, locs, set);
        }
        match written {
            Ok(()) => {},
            Err(error) => return Err(error),
        }
        let retired = self.retire_entry_set(found, scratch);
        proof {
            state::lemma_and_succeeds(
                s1,
                s3,
                *self,
                written,
                find.and(write),
                retired,
                retire,
            );
        }
        retired
    }

    /// Rename a file or directory inside its current parent directory.
    ///
    /// The operation preserves all stream metadata and timestamps. If the new
    /// name needs another number of directory slots, it writes a replacement
    /// entry set in the same parent before retiring the old one.
    pub fn rename(&mut self, path: &str, new_name: &str, scratch: &mut Scratch<'_>) -> (result:
        Result<(), Error<D::Error>>)
        requires
            old(self).wf(),
        ensures
            final(self).wf(),
            final(scratch)@.len() == old(scratch)@.len(),
            state::performs(
                *old(self),
                *final(self),
                result,
                rename_plan(
                    old(self).volume,
                    old(self).media(),
                    old(self).free_clusters,
                    path@,
                    new_name@,
                    old(scratch)@.len(),
                ),
            ),
            !is_component(new_name@) ==> {
                &&& result == Err::<(), Error<D::Error>>(Error::InvalidPath)
                &&& *final(self) == *old(self)
            },
            is_component(new_name@) && !lookup::is_searched::<D::Error>(
                old(self).volume.geometry,
                paths::trimmed(path@),
                old(scratch)@.len(),
            ) ==> {
                &&& result == Err::<(), Error<D::Error>>(lookup::refusal(paths::trimmed(path@)))
                &&& *final(self) == *old(self)
            },
    {
        let mut workspace = Workspace::new();
        self.rename_with_workspace(path, new_name, scratch, &mut workspace)
    }

    /// [`Self::rename`] using caller-owned workspace.
    pub fn rename_with_workspace(
        &mut self,
        path: &str,
        new_name: &str,
        scratch: &mut Scratch<'_>,
        workspace: &mut Workspace,
    ) -> (result: Result<(), Error<D::Error>>)
        requires
            old(self).wf(),
            old(workspace).wf(),
        ensures
            final(self).wf(),
            final(workspace).wf(),
            final(scratch)@.len() == old(scratch)@.len(),
            state::performs(
                *old(self),
                *final(self),
                result,
                rename_plan(
                    old(self).volume,
                    old(self).media(),
                    old(self).free_clusters,
                    path@,
                    new_name@,
                    old(scratch)@.len(),
                ),
            ),
            !is_component(new_name@) ==> {
                &&& result == Err::<(), Error<D::Error>>(Error::InvalidPath)
                &&& *final(self) == *old(self)
            },
            is_component(new_name@) && !lookup::is_searched::<D::Error>(
                old(self).volume.geometry,
                paths::trimmed(path@),
                old(scratch)@.len(),
            ) ==> {
                &&& result == Err::<(), Error<D::Error>>(lookup::refusal(paths::trimmed(path@)))
                &&& *final(self) == *old(self)
            },
    {
        let ghost before = *self;
        let ghost v = self.volume;
        let ghost media = self.media();
        let ghost free = self.free_clusters;
        let ghost len = scratch@.len();
        let ghost plan = rename_plan::<D::Error>(v, media, free, path@, new_name@, len);
        let ghost idle = Plan::<(), D::Error>::answer(free, Ok(()));
        proof {
            state::lemma_answer(before, before, Ok::<(), Error<D::Error>>(()), Ok(()));
            assert(idle.and(plan) =~= plan);
        }
        if !check_component(new_name) {
            proof {
                state::lemma_answer(before, before, plan.result, plan.result);
            }
            return Err(Error::InvalidPath);
        }
        let inner = paths::trim_slashes(path);
        let looked = self.lookup_with_workspace(inner, scratch, workspace);
        proof {
            state::lemma_read_within(
                before,
                before,
                *self,
                idle,
                Ok(()),
                lookup::lookup_result(v, media, inner@, len),
                lookup::entry_view(looked),
                plan,
            );
            if looked is Ok {
                lookup::lemma_resolved_scratch::<D::Error>(
                    v,
                    media,
                    entry::root_model(v.geometry),
                    paths::components(inner@),
                    len,
                );
            }
        }
        let ghost middle = *self;
        let found = match looked {
            Ok(found) => found,
            Err(error) => return Err(error),
        };
        let count: usize = match codec::utf8_to_utf16(new_name, &mut workspace.utf16) {
            Ok(count) => count,
            Err(error) => {
                proof {
                    state::lemma_answer(middle, middle, plan.result, plan.result);
                }
                return Err(error);
            },
        };
        if (count + 14) / 15 + 2 != found.entry_count as usize {
            return self.replace_entry_set(inner, &found, new_name, scratch, workspace);
        }
        let name = vstd::slice::slice_subrange(workspace.utf16.as_slice(), 0, count);
        assert(name@ =~= codec::str_units(new_name@));
        self.rename_in_place(&found, name, scratch)
    }
}

} // verus!
