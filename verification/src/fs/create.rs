//! Creating files and directories.

use crate::device::{BlockDevice, Media, Scratch};
use crate::directory::codec;
use crate::directory::entry;
use crate::directory::entry::{Directory, DirectoryModel, ExfatTimestamp, Workspace};
use crate::directory::slots::EntryLocator;
use crate::error::Error;
use crate::fs::allocation;
use crate::fs::file::{File, FileModel};
use crate::fs::listing;
use crate::fs::lookup;
use crate::fs::metadata;
use crate::fs::metadata::{NewEntrySet, SetModel};
use crate::fs::paths;
use crate::fs::release;
use crate::fs::space;
use crate::fs::state;
use crate::fs::state::{FileSystem, Plan};
use crate::laws::components;
use crate::mount::Volume;
use vstd::prelude::*;

verus! {

/// The entry set of a new stream: without timestamps, and valid over its
/// whole length.
pub open spec fn fresh_set(
    name: Seq<u16>,
    attributes: u16,
    first_cluster: u32,
    length: u64,
    no_fat_chain: bool,
) -> SetModel {
    SetModel {
        name,
        attributes,
        first_cluster,
        valid_length: length,
        data_length: length,
        no_fat_chain,
        created: entry::no_time(),
        modified: entry::no_time(),
        accessed: entry::no_time(),
    }
}

/// The handle of a new, empty file whose entry set lies at `locs`.
pub open spec fn fresh_file(locs: Seq<EntryLocator>) -> FileModel {
    FileModel {
        primary: locs[0],
        stream: locs[1],
        locs,
        first_cluster: 0,
        data_length: 0,
        valid_length: 0,
        position: 0,
        no_fat_chain: true,
        cache: None,
    }
}

/// Entries that the set of a name takes.
pub open spec fn set_len(name: Seq<u16>) -> nat {
    (metadata::name_entries(name.len() as int) + 2) as nat
}

/// The directory that is to hold what `path` names, and the last component.
pub open spec fn parent_result<E>(v: Volume, media: Media, path: Seq<char>, scratch_len: nat) -> Result<
    (DirectoryModel, Seq<char>),
    Error<E>,
> {
    match paths::split_last(path) {
        None => Ok((entry::root_model(v.geometry), path)),
        Some((above, name)) => match lookup::lookup_result::<E>(v, media, above, scratch_len) {
            Err(error) => Err(error),
            Ok(found) => match found.directory() {
                Some(d) => Ok((d, name)),
                None => Err(Error::NotDirectory),
            },
        },
    }
}

/// What creating an empty file called `name` in the directory `d` does: find
/// slots, then write the entry set.
pub open spec fn create_in_plan<E>(
    v: Volume,
    media: Media,
    free: u32,
    d: DirectoryModel,
    name: Seq<u16>,
) -> Plan<FileModel, E> {
    let find = space::find_entries_plan::<E>(v, media, free, d, set_len(name));
    let locs = find.result->Ok_0;
    let write = metadata::write_set_plan::<E>(
        v,
        find.leaves(media),
        find.free,
        locs,
        fresh_set(name, 0, 0, 0, true),
    );
    find.and(write.and(Plan::answer(find.free, Ok(fresh_file(locs)))))
}

/// What creating the file that `path` names does. A file that exists is
/// truncated.
pub open spec fn create_plan<E>(v: Volume, media: Media, free: u32, path: Seq<char>, scratch_len: nat) -> Plan<
    FileModel,
    E,
> {
    let inner = paths::trimmed(path);
    if inner.len() == 0 {
        Plan::answer(free, Err(Error::InvalidPath))
    } else {
        match parent_result::<E>(v, media, inner, scratch_len) {
            Err(error) => Plan::answer(free, Err(error)),
            Ok((d, name)) => match lookup::open_result::<E>(v, media, inner, scratch_len) {
                Ok(f) => {
                    let cut = release::truncate_plan::<E>(v, media, free, f, 0);
                    cut.and(
                        Plan::answer(cut.free, Ok(release::truncated(v.geometry, f, 0))),
                    )
                },
                Err(Error::PathNotFound) => match codec::name_result::<E>(name) {
                    Err(error) => Plan::answer(free, Err(error)),
                    Ok(units) => create_in_plan(v, media, free, d, units),
                },
                Err(error) => Plan::answer(free, Err(error)),
            },
        }
    }
}

/// A directory that was just made, with one cluster.
pub open spec fn fresh_directory(v: Volume, locs: Seq<EntryLocator>, cluster: u32) -> DirectoryModel {
    DirectoryModel {
        first_cluster: cluster,
        data_length: v.geometry.cluster_bytes() as u64,
        no_fat_chain: false,
        primary: Some(locs[0]),
        stream: Some(locs[1]),
        locs,
    }
}

/// What making a directory called `name` in the directory `d` does: find
/// slots, allocate a cluster, then write the entry set.
pub open spec fn make_dir_plan<E>(
    v: Volume,
    media: Media,
    free: u32,
    d: DirectoryModel,
    name: Seq<u16>,
) -> Plan<DirectoryModel, E> {
    let find = space::find_entries_plan::<E>(v, media, free, d, set_len(name));
    let locs = find.result->Ok_0;
    let found = find.leaves(media);
    let take = allocation::allocate_plan::<E>(v, found, find.free, 2);
    let cluster = take.result->Ok_0;
    let write = metadata::write_set_plan::<E>(
        v,
        take.leaves(found),
        take.free,
        locs,
        fresh_set(name, 0x10, cluster, v.geometry.cluster_bytes() as u64, false),
    );
    find.and(
        take.and(write.and(Plan::answer(take.free, Ok(fresh_directory(v, locs, cluster))))),
    )
}

/// What making every directory of `parts`, one below the other, from the
/// directory `d` on does. Those that exist are passed through.
pub open spec fn make_dirs_plan<E>(
    v: Volume,
    media: Media,
    free: u32,
    d: DirectoryModel,
    parts: Seq<Seq<char>>,
    scratch_len: nat,
) -> Plan<(), E>
    decreases parts.len(),
{
    if parts.len() == 0 {
        Plan::answer(free, Ok(()))
    } else {
        match codec::name_result::<E>(parts[0]) {
            Err(error) => Plan::answer(free, Err(error)),
            Ok(name) => match listing::child_result::<E>(v, media, d, name, scratch_len) {
                Err(error) => Plan::answer(free, Err(error)),
                Ok(Some(found)) => match found.directory() {
                    None => Plan::answer(free, Err(Error::NotDirectory)),
                    Some(below) => make_dirs_plan(
                        v,
                        media,
                        free,
                        below,
                        parts.drop_first(),
                        scratch_len,
                    ),
                },
                Ok(None) => {
                    let make = make_dir_plan::<E>(v, media, free, d, name);
                    make.and(
                        make_dirs_plan(
                            v,
                            make.leaves(media),
                            make.free,
                            make.result->Ok_0,
                            parts.drop_first(),
                            scratch_len,
                        ),
                    )
                },
            },
        }
    }
}

/// What making every directory of a path does.
pub open spec fn create_dir_all_plan<E>(
    v: Volume,
    media: Media,
    free: u32,
    path: Seq<char>,
    scratch_len: nat,
) -> Plan<(), E> {
    let inner = paths::trimmed(path);
    if inner.len() == 0 {
        Plan::answer(free, Err(Error::InvalidPath))
    } else {
        make_dirs_plan(
            v,
            media,
            free,
            entry::root_model(v.geometry),
            paths::components(inner),
            scratch_len,
        )
    }
}

/// What searching for a parent answers, with the directory by its model.
pub open spec fn parent_view<'a, E>(result: Result<(Directory, &'a str), Error<E>>) -> Result<
    (DirectoryModel, Seq<char>),
    Error<E>,
> {
    match result {
        Ok((directory, name)) => Ok((directory@, name@)),
        Err(error) => Err(error),
    }
}

/// What making a directory answers, with the directory by its model.
pub open spec fn made_view<E>(result: Result<Directory, Error<E>>) -> Result<
    DirectoryModel,
    Error<E>,
> {
    match result {
        Ok(directory) => Ok(directory@),
        Err(error) => Err(error),
    }
}

/// Writing an entry set leaves the free-cluster count alone.
pub proof fn lemma_write_set_free<E>(
    v: Volume,
    media: Media,
    free: u32,
    locs: Seq<EntryLocator>,
    s: SetModel,
)
    ensures
        metadata::write_set_plan::<E>(v, media, free, locs, s).result is Ok
            ==> metadata::write_set_plan::<E>(v, media, free, locs, s).free == free,
{
}

/// A path is only found missing with scratch storage for a sector.
pub proof fn lemma_missing_scratch<E>(
    v: Volume,
    media: Media,
    d: DirectoryModel,
    parts: Seq<Seq<char>>,
    scratch_len: nat,
)
    requires
        parts.len() > 0,
        lookup::resolve::<E>(v, media, d, parts, scratch_len) == Err::<
            entry::EntryModel,
            Error<E>,
        >(Error::PathNotFound),
    ensures
        scratch_len >= v.geometry.bytes_per_sector,
{
}

/// A path that is not empty without the slashes around it has a component.
pub proof fn lemma_trimmed_component(path: Seq<char>)
    requires
        paths::trimmed(path).len() > 0,
    ensures
        paths::components(paths::trimmed(path)).len() > 0,
{
    let start = paths::component_start(path, 0);
    let inner = paths::trimmed(path);
    paths::lemma_component(path, 0);
    lemma_end_trimmed(path.skip(start));
    assert(inner[0] == path.skip(start)[0]);
    assert(paths::component_start(inner, 0) == 0);
    paths::lemma_component(inner, 0);
}

/// Trimming the end of a path leaves its beginning alone.
pub proof fn lemma_end_trimmed(path: Seq<char>)
    ensures
        paths::end_trimmed(path).is_prefix_of(path),
    decreases path.len(),
{
    if path.len() > 0 && path.last() == '/' {
        lemma_end_trimmed(path.drop_last());
        assert(paths::end_trimmed(path).is_prefix_of(path.drop_last()));
        assert forall|i: int| 0 <= i < paths::end_trimmed(path).len() implies path[i]
            == paths::end_trimmed(path)[i] by {
            assert(path.drop_last()[i] == path[i]);
        }
    }
}

impl<D: BlockDevice> FileSystem<D> {
    /// Find the directory that is to hold what a path names.
    pub fn find_parent<'p>(
        &mut self,
        path: &'p str,
        scratch: &mut Scratch<'_>,
        workspace: &mut Workspace,
    ) -> (result: Result<(Directory, &'p str), Error<D::Error>>)
        requires
            old(self).wf(),
            old(workspace).wf(),
        ensures
            final(self).wf(),
            final(workspace).wf(),
            final(scratch)@.len() == old(scratch)@.len(),
            state::answers(
                *old(self),
                *final(self),
                parent_view(result),
                parent_result(old(self).volume, old(self).media(), path@, old(scratch)@.len()),
            ),
            result matches Ok((directory, _)) ==> directory.wf(),
            match paths::split_last(path@) {
                None => {
                    &&& parent_view(result) == parent_result::<D::Error>(
                        old(self).volume,
                        old(self).media(),
                        path@,
                        old(scratch)@.len(),
                    )
                    &&& *final(self) == *old(self)
                },
                Some((above, _)) => !lookup::is_searched::<D::Error>(
                    old(self).volume.geometry,
                    above,
                    old(scratch)@.len(),
                ) ==> {
                    &&& parent_view(result) == Err::<(DirectoryModel, Seq<char>), Error<D::Error>>(
                        lookup::refusal(above),
                    )
                    &&& *final(self) == *old(self)
                },
            },
    {
        match paths::split_parent(path) {
            None => Ok((Directory::root(self.volume.geometry), path)),
            Some((above, name)) => match self.lookup_with_workspace(above, scratch, workspace) {
                Err(error) => Err(error),
                Ok(found) => match found.directory() {
                    Some(directory) => Ok((directory, name)),
                    None => Err(Error::NotDirectory),
                },
            },
        }
    }

    /// Create an empty file with the name that the workspace holds.
    fn create_in(
        &mut self,
        directory: &Directory,
        count: usize,
        scratch: &mut Scratch<'_>,
        workspace: &mut Workspace,
    ) -> (result: Result<File, Error<D::Error>>)
        requires
            old(self).wf(),
            directory.wf(),
            old(workspace).wf(),
            count <= 255,
            old(scratch)@.len() >= old(self).volume.geometry.bytes_per_sector,
        ensures
            final(self).wf(),
            final(workspace).wf(),
            final(scratch)@.len() == old(scratch)@.len(),
            state::performs(
                *old(self),
                *final(self),
                lookup::file_view(result),
                create_in_plan(
                    old(self).volume,
                    old(self).media(),
                    old(self).free_clusters,
                    directory@,
                    old(workspace).utf16@.take(count as int),
                ),
            ),
            result matches Ok(file) ==> file.wf(),
    {
        let ghost before = *self;
        let ghost v = self.volume;
        let ghost media = self.media();
        let ghost free = self.free_clusters;
        let ghost name = workspace.utf16@.take(count as int);
        let entries: usize = (count + 14) / 15 + 2;
        let ghost find = space::find_entries_plan::<D::Error>(
            v,
            media,
            free,
            directory@,
            set_len(name),
        );
        let ghost locs = find.result->Ok_0;
        let ghost write = metadata::write_set_plan::<D::Error>(
            v,
            find.leaves(media),
            find.free,
            locs,
            fresh_set(name, 0, 0, 0, true),
        );
        let ghost reply = Plan::<FileModel, D::Error>::answer(find.free, Ok(fresh_file(locs)));
        let found = self.find_free_entries(directory, entries, scratch, workspace);
        let ghost s1 = *self;
        let ghost shown = space::found_view(found, entries as int);
        proof {
            state::lemma_first_step(before, s1, find, shown, write.and(reply));
        }
        let locators = match found {
            Ok(locators) => locators,
            Err(error) => return Err(error),
        };
        let contents = NewEntrySet {
            name: vstd::slice::slice_subrange(workspace.utf16.as_slice(), 0, count),
            attributes: 0,
            first_cluster: 0,
            valid_length: 0,
            data_length: 0,
            no_fat_chain: true,
            created: ExfatTimestamp::default(),
            modified: ExfatTimestamp::default(),
            accessed: ExfatTimestamp::default(),
        };
        assert(entries <= 19) by {
            assert((count + 14) / 15 <= 17);
        }
        let written = self.write_entry_set(&locators, entries, &contents, scratch);
        proof {
            assert(contents.name@ =~= name);
            state::lemma_step(before, s1, *self, find, shown, write, written, reply);
            lemma_write_set_free::<D::Error>(
                v,
                find.leaves(media),
                find.free,
                locs,
                fresh_set(name, 0, 0, 0, true),
            );
            if written is Ok {
                state::lemma_answer(*self, *self, reply.result, reply.result);
                state::lemma_and_succeeds(
                    before,
                    *self,
                    *self,
                    written,
                    find.and(write),
                    reply.result,
                    reply,
                );
            }
        }
        match written {
            Ok(()) => {},
            Err(error) => return Err(error),
        }
        let file = File {
            primary: locators[0],
            stream: locators[1],
            entry_locs: locators,
            entry_count: entries as u8,
            first_cluster: 0,
            data_length: 0,
            valid_length: 0,
            position: 0,
            no_fat_chain: true,
            cached_cluster_index: None,
            cached_cluster: 0,
        };
        assert(file@ =~= fresh_file(locs));
        Ok(file)
    }

    /// Create a regular file. Nested creation is built on the same
    /// directory-entry writer; the parent directory must exist.
    pub fn create(&mut self, path: &str, scratch: &mut Scratch<'_>) -> (result: Result<
        File,
        Error<D::Error>,
    >)
        requires
            old(self).wf(),
        ensures
            final(self).wf(),
            final(scratch)@.len() == old(scratch)@.len(),
            state::performs(
                *old(self),
                *final(self),
                lookup::file_view(result),
                create_plan(
                    old(self).volume,
                    old(self).media(),
                    old(self).free_clusters,
                    path@,
                    old(scratch)@.len(),
                ),
            ),
            result matches Ok(file) ==> file.wf(),
            paths::trimmed(path@).len() == 0 ==> {
                &&& result == Err::<File, Error<D::Error>>(Error::InvalidPath)
                &&& *final(self) == *old(self)
            },
            paths::trimmed(path@).len() > 0 && !lookup::is_searched::<D::Error>(
                old(self).volume.geometry,
                paths::trimmed(path@),
                old(scratch)@.len(),
            ) ==> {
                &&& result == Err::<File, Error<D::Error>>(lookup::refusal(paths::trimmed(path@)))
                &&& *final(self) == *old(self)
            },
    {
        let mut workspace = Workspace::new();
        self.create_with_workspace(path, scratch, &mut workspace)
    }

    /// Create or truncate a regular file using caller-owned path workspace.
    ///
    /// Long-lived embedded tasks should prefer this form and keep `workspace`
    /// in static storage; it avoids allocating the UTF-16 filename conversion
    /// buffer in the caller's stack frame.
    pub fn create_with_workspace(
        &mut self,
        path: &str,
        scratch: &mut Scratch<'_>,
        workspace: &mut Workspace,
    ) -> (result: Result<File, Error<D::Error>>)
        requires
            old(self).wf(),
            old(workspace).wf(),
        ensures
            final(self).wf(),
            final(workspace).wf(),
            final(scratch)@.len() == old(scratch)@.len(),
            state::performs(
                *old(self),
                *final(self),
                lookup::file_view(result),
                create_plan(
                    old(self).volume,
                    old(self).media(),
                    old(self).free_clusters,
                    path@,
                    old(scratch)@.len(),
                ),
            ),
            result matches Ok(file) ==> file.wf(),
            paths::trimmed(path@).len() == 0 ==> {
                &&& result == Err::<File, Error<D::Error>>(Error::InvalidPath)
                &&& *final(self) == *old(self)
            },
            paths::trimmed(path@).len() > 0 && !lookup::is_searched::<D::Error>(
                old(self).volume.geometry,
                paths::trimmed(path@),
                old(scratch)@.len(),
            ) ==> {
                &&& result == Err::<File, Error<D::Error>>(lookup::refusal(paths::trimmed(path@)))
                &&& *final(self) == *old(self)
            },
    {
        let ghost before = *self;
        let ghost v = self.volume;
        let ghost media = self.media();
        let ghost free = self.free_clusters;
        let ghost len = scratch@.len();
        let ghost plan = create_plan::<D::Error>(v, media, free, path@, len);
        let ghost idle = Plan::<(), D::Error>::answer(free, Ok(()));
        proof {
            state::lemma_answer(before, before, Ok::<(), Error<D::Error>>(()), Ok(()));
            assert(idle.and(plan) =~= plan);
        }
        let inner = paths::trim_slashes(path);
        if vstd::string::StrSliceExecFns::unicode_len(inner) == 0 {
            proof {
                state::lemma_answer(before, before, plan.result, plan.result);
            }
            return Err(Error::InvalidPath);
        }
        proof {
            components::law_path_is_parent_and_name(path@);
            components::lemma_parent_component(path@);
        }
        let above = self.find_parent(inner, scratch, workspace);
        let ghost s1 = *self;
        proof {
            state::lemma_read_within(
                before,
                before,
                s1,
                idle,
                Ok(()),
                parent_result(v, media, inner@, len),
                parent_view(above),
                plan,
            );
        }
        let (parent, name) = match above {
            Ok(found) => found,
            Err(error) => return Err(error),
        };
        let opened = self.open_with_workspace(inner, scratch, workspace);
        let ghost s2 = *self;
        proof {
            state::lemma_read_within(
                before,
                s1,
                s2,
                idle,
                Ok(()),
                lookup::open_result(v, media, inner@, len),
                lookup::file_view(opened),
                plan,
            );
            if lookup::lookup_result::<D::Error>(v, media, inner@, len) is Ok {
                lookup::lemma_resolved_scratch::<D::Error>(
                    v,
                    media,
                    entry::root_model(v.geometry),
                    paths::components(inner@),
                    len,
                );
            }
        }
        match opened {
            Ok(opened_file) => {
                let mut file = opened_file;
                let ghost f = file@;
                let ghost cut = release::truncate_plan::<D::Error>(v, media, free, f, 0);
                let ghost reply = Plan::<FileModel, D::Error>::answer(
                    cut.free,
                    Ok(release::truncated(v.geometry, f, 0)),
                );
                let truncated = self.truncate(&mut file, 0, scratch);
                proof {
                    state::lemma_first_step(s2, *self, cut, truncated, reply);
                    if truncated is Ok {
                        state::lemma_answer(*self, *self, reply.result, reply.result);
                        state::lemma_and_succeeds(
                            s2,
                            *self,
                            *self,
                            truncated,
                            cut,
                            reply.result,
                            reply,
                        );
                    }
                }
                match truncated {
                    Ok(()) => return Ok(file),
                    Err(error) => return Err(error),
                }
            },
            Err(Error::PathNotFound) => {},
            Err(error) => return Err(error),
        }
        proof {
            lemma_trimmed_component(path@);
            lemma_missing_scratch::<D::Error>(
                v,
                media,
                entry::root_model(v.geometry),
                paths::components(inner@),
                len,
            );
        }
        let count: usize = match codec::utf8_to_utf16(name, &mut workspace.utf16) {
            Ok(count) => count,
            Err(error) => {
                proof {
                    state::lemma_answer(s2, s2, plan.result, plan.result);
                }
                return Err(error);
            },
        };
        self.create_in(&parent, count, scratch, workspace)
    }
}

impl<D: BlockDevice> FileSystem<D> {
    /// Make a directory with the name that the workspace holds.
    fn make_dir_in(
        &mut self,
        directory: &Directory,
        count: usize,
        scratch: &mut Scratch<'_>,
        workspace: &mut Workspace,
    ) -> (result: Result<Directory, Error<D::Error>>)
        requires
            old(self).wf(),
            directory.wf(),
            old(workspace).wf(),
            count <= 255,
            old(scratch)@.len() >= old(self).volume.geometry.bytes_per_sector,
        ensures
            final(self).wf(),
            final(workspace).wf(),
            final(scratch)@.len() == old(scratch)@.len(),
            state::performs(
                *old(self),
                *final(self),
                made_view(result),
                make_dir_plan(
                    old(self).volume,
                    old(self).media(),
                    old(self).free_clusters,
                    directory@,
                    old(workspace).utf16@.take(count as int),
                ),
            ),
            result matches Ok(made) ==> made.wf(),
    {
        let ghost before = *self;
        let ghost v = self.volume;
        let ghost media = self.media();
        let ghost free = self.free_clusters;
        let ghost name = workspace.utf16@.take(count as int);
        let cluster_bytes: u64 = self.volume.geometry.bytes_per_cluster() as u64;
        let entries: usize = (count + 14) / 15 + 2;
        let ghost find = space::find_entries_plan::<D::Error>(
            v,
            media,
            free,
            directory@,
            set_len(name),
        );
        let ghost locs = find.result->Ok_0;
        let ghost m1 = find.leaves(media);
        let ghost take = allocation::allocate_plan::<D::Error>(v, m1, find.free, 2);
        let ghost fresh = take.result->Ok_0;
        let ghost set = fresh_set(name, 0x10, fresh, cluster_bytes, false);
        let ghost write = metadata::write_set_plan::<D::Error>(
            v,
            take.leaves(m1),
            take.free,
            locs,
            set,
        );
        let ghost reply = Plan::<DirectoryModel, D::Error>::answer(
            take.free,
            Ok(fresh_directory(v, locs, fresh)),
        );
        let found = self.find_free_entries(directory, entries, scratch, workspace);
        let ghost s1 = *self;
        let ghost shown = space::found_view(found, entries as int);
        proof {
            state::lemma_first_step(before, s1, find, shown, take.and(write.and(reply)));
        }
        let locators = match found {
            Ok(locators) => locators,
            Err(error) => return Err(error),
        };
        let taken = self.allocate_cluster(scratch);
        let ghost s2 = *self;
        proof {
            state::lemma_step(before, s1, s2, find, shown, take, taken, write.and(reply));
        }
        let cluster: u32 = match taken {
            Ok(cluster) => cluster,
            Err(error) => return Err(error),
        };
        let contents = NewEntrySet {
            name: vstd::slice::slice_subrange(workspace.utf16.as_slice(), 0, count),
            attributes: 0x10,
            first_cluster: cluster,
            valid_length: cluster_bytes,
            data_length: cluster_bytes,
            no_fat_chain: false,
            created: ExfatTimestamp::default(),
            modified: ExfatTimestamp::default(),
            accessed: ExfatTimestamp::default(),
        };
        assert(entries <= 19) by {
            assert((count + 14) / 15 <= 17);
        }
        let written = self.write_entry_set(&locators, entries, &contents, scratch);
        proof {
            assert(contents.name@ =~= name);
            state::lemma_step(before, s2, *self, find.and(take), taken, write, written, reply);
            lemma_write_set_free::<D::Error>(v, take.leaves(m1), take.free, locs, set);
            if written is Ok {
                state::lemma_answer(*self, *self, reply.result, reply.result);
                state::lemma_and_succeeds(
                    before,
                    *self,
                    *self,
                    written,
                    find.and(take).and(write),
                    reply.result,
                    reply,
                );
            }
        }
        match written {
            Ok(()) => {},
            Err(error) => return Err(error),
        }
        let made = Directory {
            first_cluster: cluster,
            data_length: cluster_bytes,
            no_fat_chain: false,
            primary: Some(locators[0]),
            stream: Some(locators[1]),
            entry_locs: locators,
            entry_count: entries as u8,
        };
        assert(made@ =~= fresh_directory(v, locs, fresh));
        Ok(made)
    }

    /// Ensure every UTF-8 path component exists as an exFAT directory.
    pub fn create_dir_all(&mut self, path: &str, scratch: &mut Scratch<'_>) -> (result: Result<
        (),
        Error<D::Error>,
    >)
        requires
            old(self).wf(),
        ensures
            final(self).wf(),
            final(scratch)@.len() == old(scratch)@.len(),
            state::performs(
                *old(self),
                *final(self),
                result,
                create_dir_all_plan(
                    old(self).volume,
                    old(self).media(),
                    old(self).free_clusters,
                    path@,
                    old(scratch)@.len(),
                ),
            ),
            paths::trimmed(path@).len() == 0 ==> {
                &&& result == Err::<(), Error<D::Error>>(Error::InvalidPath)
                &&& *final(self) == *old(self)
            },
            paths::trimmed(path@).len() > 0 && !lookup::is_searched::<D::Error>(
                old(self).volume.geometry,
                paths::trimmed(path@),
                old(scratch)@.len(),
            ) ==> {
                &&& result == Err::<(), Error<D::Error>>(lookup::refusal(paths::trimmed(path@)))
                &&& *final(self) == *old(self)
            },
    {
        let mut workspace = Workspace::new();
        self.create_dir_all_with_workspace(path, scratch, &mut workspace)
    }

    /// Ensure every UTF-8 path component exists using caller-owned workspace.
    pub fn create_dir_all_with_workspace(
        &mut self,
        path: &str,
        scratch: &mut Scratch<'_>,
        workspace: &mut Workspace,
    ) -> (result: Result<(), Error<D::Error>>)
        requires
            old(self).wf(),
            old(workspace).wf(),
        ensures
            final(self).wf(),
            final(workspace).wf(),
            final(scratch)@.len() == old(scratch)@.len(),
            state::performs(
                *old(self),
                *final(self),
                result,
                create_dir_all_plan(
                    old(self).volume,
                    old(self).media(),
                    old(self).free_clusters,
                    path@,
                    old(scratch)@.len(),
                ),
            ),
            paths::trimmed(path@).len() == 0 ==> {
                &&& result == Err::<(), Error<D::Error>>(Error::InvalidPath)
                &&& *final(self) == *old(self)
            },
            paths::trimmed(path@).len() > 0 && !lookup::is_searched::<D::Error>(
                old(self).volume.geometry,
                paths::trimmed(path@),
                old(scratch)@.len(),
            ) ==> {
                &&& result == Err::<(), Error<D::Error>>(lookup::refusal(paths::trimmed(path@)))
                &&& *final(self) == *old(self)
            },
    {
        let g = self.volume.geometry;
        let ghost before = *self;
        let ghost v = self.volume;
        let ghost free = self.free_clusters;
        let ghost len = scratch@.len();
        let inner = paths::trim_slashes(path);
        if vstd::string::StrSliceExecFns::unicode_len(inner) == 0 {
            proof {
                state::lemma_answer(
                    before,
                    before,
                    Err::<(), Error<D::Error>>(Error::InvalidPath),
                    Err(Error::InvalidPath),
                );
            }
            return Err(Error::InvalidPath);
        }
        let mut parent = Directory::root(g);
        let ghost plan = make_dirs_plan::<D::Error>(
            v,
            self.media(),
            free,
            parent@,
            paths::components(inner@),
            len,
        );
        let ghost mut done = Plan::<(), D::Error>::answer(free, Ok(()));
        proof {
            state::lemma_answer(before, before, Ok::<(), Error<D::Error>>(()), Ok(()));
            assert(done.and(plan) =~= plan);
        }
        let mut from: usize = 0;
        proof {
            lemma_trimmed_component(path@);
        }
        loop
            invariant
                paths::components(inner@).len() > 0,
                !lookup::is_searched::<D::Error>(g, inner@, len) ==> *self == before && from == 0,
                self.wf(),
                workspace.wf(),
                parent.wf(),
                before == *old(self),
                v == before.volume,
                v == self.volume,
                g == v.geometry,
                free == before.free_clusters,
                len == old(scratch)@.len(),
                scratch@.len() == len,
                from <= inner@.len(),
                inner@ == paths::trimmed(path@),
                inner@.len() > 0,
                done.result == Ok::<(), Error<D::Error>>(()),
                state::performs(before, *self, Ok(()), done),
                plan == make_dirs_plan::<D::Error>(
                    v,
                    before.media(),
                    free,
                    entry::root_model(g),
                    paths::components(inner@),
                    len,
                ),
                plan == done.and(
                    make_dirs_plan::<D::Error>(
                        v,
                        self.media(),
                        self.free_clusters,
                        parent@,
                        paths::components_from(inner@, from as int),
                        len,
                    ),
                ),
            decreases inner@.len() - from,
        {
            let ghost s0 = *self;
            let ghost media = self.media();
            let ghost d = parent@;
            let ghost parts = paths::components_from(inner@, from as int);
            let ghost rest = make_dirs_plan::<D::Error>(
                v,
                media,
                s0.free_clusters,
                d,
                parts,
                len,
            );
            let (part, end) = match paths::next_component(inner, from) {
                Some(found) => found,
                None => {
                    assert(done =~= plan);
                    return Ok(());
                },
            };
            assert(parts[0] == part@);
            assert(parts.drop_first() =~= paths::components_from(inner@, end as int));
            let count: usize = match codec::utf8_to_utf16(part, &mut workspace.utf16) {
                Ok(count) => count,
                Err(error) => {
                    proof {
                        state::lemma_read_within(
                            before,
                            s0,
                            s0,
                            done,
                            Ok(()),
                            rest.result,
                            rest.result,
                            rest,
                        );
                    }
                    return Err(error);
                },
            };
            let ghost name = codec::str_units(part@);
            let found = self.find_child(&parent, count, scratch, workspace);
            let ghost s1 = *self;
            proof {
                assert(workspace.utf16@.take(count as int) =~= name);
                state::lemma_read_within(
                    before,
                    s0,
                    s1,
                    done,
                    Ok(()),
                    listing::child_result(v, media, d, name, len),
                    entry::decoded_view(found),
                    rest,
                );
            }
            let child = match found {
                Ok(child) => child,
                Err(error) => return Err(error),
            };
            match child {
                Some(existing) => {
                    match existing.directory() {
                        Some(below) => {
                            parent = below;
                        },
                        None => {
                            proof {
                                state::lemma_read_within(
                                    before,
                                    s1,
                                    s1,
                                    done,
                                    Ok(()),
                                    rest.result,
                                    rest.result,
                                    rest,
                                );
                            }
                            return Err(Error::NotDirectory);
                        },
                    }
                },
                None => {
                    let ghost make = make_dir_plan::<D::Error>(
                        v,
                        media,
                        s0.free_clusters,
                        d,
                        name,
                    );
                    let ghost after = make_dirs_plan::<D::Error>(
                        v,
                        make.leaves(media),
                        make.free,
                        make.result->Ok_0,
                        parts.drop_first(),
                        len,
                    );
                    let made = self.make_dir_in(&parent, count, scratch, workspace);
                    proof {
                        state::lemma_step(
                            before,
                            s1,
                            *self,
                            done,
                            Ok(()),
                            make,
                            made_view(made),
                            after,
                        );
                        if made is Ok {
                            let quiet = Plan::<(), D::Error> {
                                writes: make.writes,
                                counts: make.counts,
                                free: make.free,
                                result: Ok(()),
                            };
                            assert(done.and(quiet).and(after) =~= done.and(make).and(after));
                            done = done.and(quiet);
                        }
                    }
                    parent = match made {
                        Ok(directory) => directory,
                        Err(error) => return Err(error),
                    };
                },
            }
            from = end;
        }
    }
}

} // verus!
