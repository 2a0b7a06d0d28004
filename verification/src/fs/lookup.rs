//! Resolving paths, and opening what they name.

use crate::device::{BlockDevice, Media, Scratch};
use crate::directory::codec;
use crate::directory::entry;
use crate::directory::entry::{Directory, DirectoryEntry, DirectoryModel, EntryModel, Workspace};
use crate::error;
use crate::error::Error;
use crate::fs::file;
use crate::fs::file::{File, FileModel};
use crate::fs::listing;
use crate::fs::paths;
use crate::fs::state;
use crate::fs::state::FileSystem;
use crate::geometry::Geometry;
use crate::mount::Volume;
use vstd::prelude::*;

verus! {

/// What resolving `parts`, one below the other, from the directory `d` on
/// answers.
pub open spec fn resolve<E>(
    v: Volume,
    media: Media,
    d: DirectoryModel,
    parts: Seq<Seq<char>>,
    scratch_len: nat,
) -> Result<EntryModel, Error<E>>
    decreases parts.len(),
{
    if parts.len() == 0 {
        Err(Error::PathNotFound)
    } else {
        match codec::name_result::<E>(parts[0]) {
            Err(error) => Err(error),
            Ok(units) => match listing::child_result::<E>(v, media, d, units, scratch_len) {
                Err(error) => Err(error),
                Ok(None) => Err(Error::PathNotFound),
                Ok(Some(found)) => if parts.len() == 1 {
                    Ok(found)
                } else {
                    match found.directory() {
                        None => Err(Error::NotDirectory),
                        Some(below) => resolve(v, media, below, parts.drop_first(), scratch_len),
                    }
                },
            },
        }
    }
}

/// What resolving a path from the root directory on answers.
pub open spec fn lookup_result<E>(v: Volume, media: Media, path: Seq<char>, scratch_len: nat) -> Result<
    EntryModel,
    Error<E>,
> {
    resolve(v, media, entry::root_model(v.geometry), paths::components(path), scratch_len)
}

/// What opening the file that a path names answers.
pub open spec fn open_result<E>(v: Volume, media: Media, path: Seq<char>, scratch_len: nat) -> Result<
    FileModel,
    Error<E>,
> {
    match lookup_result::<E>(v, media, path, scratch_len) {
        Err(error) => Err(error),
        Ok(found) => if found.is_directory {
            Err(Error::IsDirectory)
        } else {
            Ok(file::opened(found))
        },
    }
}

/// What asking whether a path names an empty directory answers.
pub open spec fn empty_result<E>(v: Volume, media: Media, path: Seq<char>, scratch_len: nat) -> Result<
    bool,
    Error<E>,
> {
    match lookup_result::<E>(v, media, paths::trimmed(path), scratch_len) {
        Err(error) => Err(error),
        Ok(found) => match found.directory() {
            None => Err(Error::NotDirectory),
            Some(d) => match listing::first_of(listing::listing(v.geometry, media, d)) {
                None => Err(Error::Corrupt),
                Some(first) => Ok(first is None),
            },
        },
    }
}

/// What a lookup answers, with the entry by its model.
pub open spec fn entry_view<E>(result: Result<DirectoryEntry, Error<E>>) -> Result<
    EntryModel,
    Error<E>,
> {
    match result {
        Ok(found) => Ok(found@),
        Err(error) => Err(error),
    }
}

/// What opening a file answers, with the handle by its model.
pub open spec fn file_view<E>(result: Result<File, Error<E>>) -> Result<FileModel, Error<E>> {
    match result {
        Ok(file) => Ok(file@),
        Err(error) => Err(error),
    }
}

/// Whether looking a path up reads a directory: it has a component, the first of
/// them is a name, and the scratch storage holds a sector.
pub open spec fn is_searched<E>(g: Geometry, path: Seq<char>, scratch_len: nat) -> bool {
    let parts = paths::components(path);
    &&& parts.len() > 0
    &&& codec::name_result::<E>(parts[0]) is Ok
    &&& scratch_len >= g.bytes_per_sector
}

/// The error that looking a path up answers where it reads no directory.
pub open spec fn refusal<E>(path: Seq<char>) -> Error<E> {
    let parts = paths::components(path);
    if parts.len() == 0 {
        Error::PathNotFound
    } else {
        match codec::name_result::<E>(parts[0]) {
            Err(error) => error,
            Ok(_) => Error::InvalidSectorSize,
        }
    }
}

impl<D: BlockDevice> FileSystem<D> {
    /// Resolve an absolute or relative UTF-8 path without allocating.
    pub fn lookup(&mut self, path: &str, scratch: &mut Scratch<'_>) -> (result: Result<
        DirectoryEntry,
        Error<D::Error>,
    >)
        requires
            old(self).wf(),
        ensures
            final(self).wf(),
            final(scratch)@.len() == old(scratch)@.len(),
            state::answers(
                *old(self),
                *final(self),
                entry_view(result),
                lookup_result(old(self).volume, old(self).media(), path@, old(scratch)@.len()),
            ),
            result matches Ok(found) ==> found.wf(),
            !is_searched::<D::Error>(
                old(self).volume.geometry,
                path@,
                old(scratch)@.len(),
            ) ==> {
                &&& result == Err::<DirectoryEntry, Error<D::Error>>(refusal(path@))
                &&& *final(self) == *old(self)
            },
    {
        let mut workspace = Workspace::new();
        self.lookup_with_workspace(path, scratch, &mut workspace)
    }

    /// Resolve a UTF-8 path using caller-owned conversion and entry-set
    /// storage. Long-lived embedded tasks should use this form.
    pub fn lookup_with_workspace(
        &mut self,
        path: &str,
        scratch: &mut Scratch<'_>,
        workspace: &mut Workspace,
    ) -> (result: Result<DirectoryEntry, Error<D::Error>>)
        requires
            old(self).wf(),
            old(workspace).wf(),
        ensures
            final(self).wf(),
            final(workspace).wf(),
            final(scratch)@.len() == old(scratch)@.len(),
            state::answers(
                *old(self),
                *final(self),
                entry_view(result),
                lookup_result(old(self).volume, old(self).media(), path@, old(scratch)@.len()),
            ),
            result matches Ok(found) ==> found.wf(),
            !is_searched::<D::Error>(
                old(self).volume.geometry,
                path@,
                old(scratch)@.len(),
            ) ==> {
                &&& result == Err::<DirectoryEntry, Error<D::Error>>(refusal(path@))
                &&& *final(self) == *old(self)
            },
    {
        let ghost v = self.volume;
        let ghost media = self.media();
        let ghost len = scratch@.len();
        let mut directory = Directory::root(self.volume.geometry);
        let (mut current, mut end) = match paths::next_component(path, 0) {
            Some(found) => found,
            None => return Err(Error::PathNotFound),
        };
        let ghost expected = lookup_result::<D::Error>(v, media, path@, len);
        loop
            invariant
                self.wf(),
                workspace.wf(),
                v == old(self).volume,
                media == old(self).media(),
                len == old(scratch)@.len(),
                state::answers(*old(self), *self, Ok::<(), Error<D::Error>>(()), Ok(())),
                scratch@.len() == len,
                directory.wf(),
                end <= path@.len(),
                paths::components(path@).len() > 0,
                !is_searched::<D::Error>(v.geometry, path@, len) ==> {
                    &&& *self == *old(self)
                    &&& current@ == paths::components(path@)[0]
                },
                expected == lookup_result::<D::Error>(v, media, path@, len),
                expected == resolve::<D::Error>(
                    v,
                    media,
                    directory@,
                    seq![current@] + paths::components_from(path@, end as int),
                    len,
                ),
            decreases path@.len() - end,
        {
            let ghost rest = paths::components_from(path@, end as int);
            assert((seq![current@] + rest).drop_first() =~= rest);
            assert((seq![current@] + rest)[0] == current@);
            let count: usize = match codec::utf8_to_utf16(current, &mut workspace.utf16) {
                Ok(count) => count,
                Err(error) => return Err(error),
            };
            let found = match self.find_child(&directory, count, scratch, workspace) {
                Ok(Some(found)) => found,
                Ok(None) => return Err(Error::PathNotFound),
                Err(error) => return Err(error),
            };
            match paths::next_component(path, end) {
                Some((next, stop)) => {
                    directory = match found.directory() {
                        Some(below) => below,
                        None => return Err(Error::NotDirectory),
                    };
                    current = next;
                    end = stop;
                },
                None => return Ok(found),
            }
        }
    }

    /// Open a regular file without tying the returned handle to this
    /// filesystem borrow. Mutation support extends this handle with the
    /// directory-entry locator while retaining the same public shape.
    pub fn open(&mut self, path: &str, scratch: &mut Scratch<'_>) -> (result: Result<
        File,
        Error<D::Error>,
    >)
        requires
            old(self).wf(),
        ensures
            final(self).wf(),
            final(scratch)@.len() == old(scratch)@.len(),
            state::answers(
                *old(self),
                *final(self),
                file_view(result),
                open_result(old(self).volume, old(self).media(), path@, old(scratch)@.len()),
            ),
            result matches Ok(file) ==> file.wf(),
            !is_searched::<D::Error>(
                old(self).volume.geometry,
                path@,
                old(scratch)@.len(),
            ) ==> {
                &&& result == Err::<File, Error<D::Error>>(refusal(path@))
                &&& *final(self) == *old(self)
            },
    {
        let mut workspace = Workspace::new();
        self.open_with_workspace(path, scratch, &mut workspace)
    }

    /// Open a regular file using caller-owned path and entry-set storage.
    pub fn open_with_workspace(
        &mut self,
        path: &str,
        scratch: &mut Scratch<'_>,
        workspace: &mut Workspace,
    ) -> (result: Result<File, Error<D::Error>>)
        requires
            old(self).wf(),
            old(workspace).wf(),
        ensures
            final(self).wf(),
            final(workspace).wf(),
            final(scratch)@.len() == old(scratch)@.len(),
            state::answers(
                *old(self),
                *final(self),
                file_view(result),
                open_result(old(self).volume, old(self).media(), path@, old(scratch)@.len()),
            ),
            result matches Ok(file) ==> file.wf(),
            !is_searched::<D::Error>(
                old(self).volume.geometry,
                path@,
                old(scratch)@.len(),
            ) ==> {
                &&& result == Err::<File, Error<D::Error>>(refusal(path@))
                &&& *final(self) == *old(self)
            },
    {
        match self.lookup_with_workspace(path, scratch, workspace) {
            Ok(found) => {
                if found.is_directory {
                    return Err(Error::IsDirectory);
                }
                Ok(File::opened(&found))
            },
            Err(error) => Err(error),
        }
    }

    /// Return whether `path` names an empty directory.
    ///
    /// This is a policy helper for callers that want to prompt before using
    /// [`Self::remove`]. Passing a regular file returns
    /// [`Error::NotDirectory`].
    pub fn is_dir_empty(&mut self, path: &str, scratch: &mut Scratch<'_>) -> (result: Result<
        bool,
        Error<D::Error>,
    >)
        requires
            old(self).wf(),
        ensures
            final(self).wf(),
            final(scratch)@.len() == old(scratch)@.len(),
            state::answers(
                *old(self),
                *final(self),
                result,
                empty_result(old(self).volume, old(self).media(), path@, old(scratch)@.len()),
            ),
            !is_searched::<D::Error>(
                old(self).volume.geometry,
                paths::trimmed(path@),
                old(scratch)@.len(),
            ) ==> {
                &&& result == Err::<bool, Error<D::Error>>(refusal(paths::trimmed(path@)))
                &&& *final(self) == *old(self)
            },
    {
        let mut workspace = Workspace::new();
        self.is_dir_empty_with_workspace(path, scratch, &mut workspace)
    }

    /// [`Self::is_dir_empty`] using caller-owned path/entry workspace.
    pub fn is_dir_empty_with_workspace(
        &mut self,
        path: &str,
        scratch: &mut Scratch<'_>,
        workspace: &mut Workspace,
    ) -> (result: Result<bool, Error<D::Error>>)
        requires
            old(self).wf(),
            old(workspace).wf(),
        ensures
            final(self).wf(),
            final(workspace).wf(),
            final(scratch)@.len() == old(scratch)@.len(),
            state::answers(
                *old(self),
                *final(self),
                result,
                empty_result(old(self).volume, old(self).media(), path@, old(scratch)@.len()),
            ),
            !is_searched::<D::Error>(
                old(self).volume.geometry,
                paths::trimmed(path@),
                old(scratch)@.len(),
            ) ==> {
                &&& result == Err::<bool, Error<D::Error>>(refusal(paths::trimmed(path@)))
                &&& *final(self) == *old(self)
            },
    {
        let found = match self.lookup_with_workspace(
            paths::trim_slashes(path),
            scratch,
            workspace,
        ) {
            Ok(found) => found,
            Err(error) => return Err(error),
        };
        proof {
            lemma_resolved_scratch::<D::Error>(
                old(self).volume,
                old(self).media(),
                entry::root_model(old(self).volume.geometry),
                paths::components(paths::trimmed(path@)),
                old(scratch)@.len(),
            );
        }
        let directory = match found.directory() {
            Some(directory) => directory,
            None => return Err(Error::NotDirectory),
        };
        match self.first_directory_entry(&directory, scratch) {
            Ok(first) => Ok(first.is_none()),
            Err(error) => Err(error),
        }
    }
}

/// A path is only resolved with scratch storage for a sector.
pub proof fn lemma_resolved_scratch<E>(
    v: Volume,
    media: Media,
    d: DirectoryModel,
    parts: Seq<Seq<char>>,
    scratch_len: nat,
)
    requires
        resolve::<E>(v, media, d, parts, scratch_len) is Ok,
    ensures
        scratch_len >= v.geometry.bytes_per_sector,
{
}

} // verus!
