//! Removing files and empty directories.

use crate::device::{BlockDevice, Media, Scratch};
use crate::directory::entry;
use crate::directory::entry::{DirectoryEntry, EntryModel, Workspace};
use crate::error;
use crate::error::Error;
use crate::fs::listing;
use crate::fs::lookup;
use crate::fs::metadata;
use crate::fs::paths;
use crate::fs::release;
use crate::fs::state;
use crate::fs::state::{FileSystem, Plan};
use crate::mount::Volume;
use vstd::prelude::*;

verus! {

/// Whether an entry may be removed: a directory only once it is empty.
pub open spec fn removable<E>(v: Volume, media: Media, found: EntryModel) -> Result<(), Error<E>> {
    match found.directory() {
        None => Ok(()),
        Some(d) => match listing::first_of(listing::listing(v.geometry, media, d)) {
            None => Err(Error::Corrupt),
            Some(Some(_)) => Err(Error::DirectoryNotEmpty),
            Some(None) => Ok(()),
        },
    }
}

/// What removing an entry does: retire its entry set, then release its
/// clusters.
pub open spec fn remove_entry_plan<E>(v: Volume, media: Media, free: u32, found: EntryModel) -> Plan<
    (),
    E,
> {
    match removable::<E>(v, media, found) {
        Err(error) => Plan::answer(free, Err(error)),
        Ok(()) => {
            let retire = metadata::retire_plan::<E>(v, media, free, found.locs, 0);
            retire.and(release::release_plan(v, retire.leaves(media), free, found))
        },
    }
}

/// What removing the file or directory that a path names does.
pub open spec fn remove_plan<E>(v: Volume, media: Media, free: u32, path: Seq<char>, scratch_len: nat) -> Plan<
    (),
    E,
> {
    match lookup::lookup_result::<E>(v, media, paths::trimmed(path), scratch_len) {
        Err(error) => Plan::answer(free, Err(error)),
        Ok(found) => remove_entry_plan(v, media, free, found),
    }
}

/// Retiring an entry set leaves the free-cluster count alone.
pub proof fn lemma_retire_free<E>(
    v: Volume,
    media: Media,
    free: u32,
    locs: Seq<crate::directory::EntryLocator>,
    i: int,
)
    ensures
        metadata::retire_plan::<E>(v, media, free, locs, i).free == free,
    decreases locs.len() - i,
{
    if i < locs.len() && metadata::fits(v.geometry, locs[i]) {
        let sector = media[locs[i].lba];
        let at = locs[i].offset as int;
        let clear = metadata::sector_plan::<E>(
            free,
            locs[i].lba,
            sector.update(at, sector[at] & 0x7f),
        );
        lemma_retire_free::<E>(v, clear.leaves(media), free, locs, i + 1);
    }
}

impl<D: BlockDevice> FileSystem<D> {
    /// Remove a file or empty directory and release its allocated clusters.
    ///
    /// Call [`Self::is_dir_empty`] before removing a directory. Recursive
    /// deletion is deliberately left to a caller-owned traversal, so that no
    /// operation needs an unbounded stack or a hidden allocator.
    pub fn remove(&mut self, path: &str, scratch: &mut Scratch<'_>) -> (result: Result<
        (),
        Error<D::Error>,
    >)
        requires
            old(self).wf(),
        ensures
            final(self).wf(),
            final(scratch)@.len() == old(scratch)@.len(),
            state::performs(
                *old(self),
                *final(self),
                result,
                remove_plan(
                    old(self).volume,
                    old(self).media(),
                    old(self).free_clusters,
                    path@,
                    old(scratch)@.len(),
                ),
            ),
            !lookup::is_searched::<D::Error>(
                old(self).volume.geometry,
                paths::trimmed(path@),
                old(scratch)@.len(),
            ) ==> {
                &&& result == Err::<(), Error<D::Error>>(lookup::refusal(paths::trimmed(path@)))
                &&& *final(self) == *old(self)
            },
    {
        let mut workspace = Workspace::new();
        self.remove_with_workspace(path, scratch, &mut workspace)
    }

    /// [`Self::remove`] using caller-owned path/entry workspace.
    pub fn remove_with_workspace(
        &mut self,
        path: &str,
        scratch: &mut Scratch<'_>,
        workspace: &mut Workspace,
    ) -> (result: Result<(), Error<D::Error>>)
        requires
            old(self).wf(),
            old(workspace).wf(),
        ensures
            final(self).wf(),
            final(workspace).wf(),
            final(scratch)@.len() == old(scratch)@.len(),
            state::performs(
                *old(self),
                *final(self),
                result,
                remove_plan(
                    old(self).volume,
                    old(self).media(),
                    old(self).free_clusters,
                    path@,
                    old(scratch)@.len(),
                ),
            ),
            !lookup::is_searched::<D::Error>(
                old(self).volume.geometry,
                paths::trimmed(path@),
                old(scratch)@.len(),
            ) ==> {
                &&& result == Err::<(), Error<D::Error>>(lookup::refusal(paths::trimmed(path@)))
                &&& *final(self) == *old(self)
            },
    {
        let ghost before = *self;
        let ghost v = self.volume;
        let ghost media = self.media();
        let ghost free = self.free_clusters;
        let ghost len = scratch@.len();
        let ghost plan = remove_plan::<D::Error>(v, media, free, path@, len);
        let ghost idle = Plan::<(), D::Error>::answer(free, Ok(()));
        proof {
            state::lemma_answer(before, before, Ok::<(), Error<D::Error>>(()), Ok(()));
            assert(idle.and(plan) =~= plan);
        }
        let inner = paths::trim_slashes(path);
        let looked = self.lookup_with_workspace(inner, scratch, workspace);
        proof {
            state::lemma_read_within(
                before,
                before,
                *self,
                idle,
                Ok(()),
                lookup::lookup_result(v, media, inner@, len),
                lookup::entry_view(looked),
                plan,
            );
            if looked is Ok {
                lookup::lemma_resolved_scratch::<D::Error>(
                    v,
                    media,
                    entry::root_model(v.geometry),
                    paths::components(inner@),
                    len,
                );
            }
        }
        let found = match looked {
            Ok(found) => found,
            Err(error) => return Err(error),
        };
        self.remove_entry_tree(&found, scratch)
    }

    /// Remove an entry. Removing a directory that still lists entries is
    /// refused: a caller-owned traversal stack can perform recursive
    /// deletion.
    pub fn remove_entry_tree(&mut self, found: &DirectoryEntry, scratch: &mut Scratch<'_>) -> (
    result: Result<(), Error<D::Error>>)
        requires
            old(self).wf(),
            found.wf(),
            old(scratch)@.len() >= old(self).volume.geometry.bytes_per_sector,
        ensures
            final(self).wf(),
            final(scratch)@.len() == old(scratch)@.len(),
            state::performs(
                *old(self),
                *final(self),
                result,
                remove_entry_plan(
                    old(self).volume,
                    old(self).media(),
                    old(self).free_clusters,
                    found@,
                ),
            ),
    {
        let ghost before = *self;
        let ghost v = self.volume;
        let ghost media = self.media();
        let ghost free = self.free_clusters;
        let ghost plan = remove_entry_plan::<D::Error>(v, media, free, found@);
        let ghost idle = Plan::<(), D::Error>::answer(free, Ok(()));
        proof {
            state::lemma_answer(before, before, Ok::<(), Error<D::Error>>(()), Ok(()));
            assert(idle.and(plan) =~= plan);
        }
        if let Some(directory) = found.directory() {
            let first = self.first_directory_entry(&directory, scratch);
            proof {
                let expected = error::or_corrupt::<Option<EntryModel>, D::Error>(
                    listing::first_of(
                        listing::listing(v.geometry, media, directory@),
                    ),
                );
                state::lemma_read_within(
                    before,
                    before,
                    *self,
                    idle,
                    Ok(()),
                    expected,
                    entry::decoded_view(first),
                    plan,
                );
            }
            match first {
                Ok(None) => {},
                Ok(Some(_)) => {
                    proof {
                        state::lemma_answer(*self, *self, plan.result, plan.result);
                    }
                    return Err(Error::DirectoryNotEmpty);
                },
                Err(error) => return Err(error),
            }
        }
        let ghost s1 = *self;
        let ghost retire = metadata::retire_plan::<D::Error>(v, media, free, found@.locs, 0);
        let ghost release = release::release_plan::<D::Error>(
            v,
            retire.leaves(media),
            free,
            found@,
        );
        let retired = self.retire_entry_set(found, scratch);
        let ghost s2 = *self;
        proof {
            lemma_retire_free::<D::Error>(v, media, free, found@.locs, 0);
            state::lemma_first_step(s1, s2, retire, retired, release);
        }
        match retired {
            Ok(()) => {},
            Err(error) => return Err(error),
        }
        let released = self.release_entry_clusters(found, scratch);
        proof {
            state::lemma_and_succeeds(s1, s2, *self, retired, retire, released, release);
        }
        released
    }
}

} // verus!
