//! What a path leads to, and what opening it answers.

use crate::device::Media;
use crate::directory::codec;
use crate::directory::entry;
use crate::directory::entry::{DirectoryModel, EntryModel};
use crate::error::Error;
use crate::fs::create;
use crate::fs::file::FileModel;
use crate::fs::listing;
use crate::fs::lookup;
use crate::fs::paths;
use crate::laws::components;
use crate::mount::Volume;
use vstd::prelude::*;

verus! {

/// A path of one component leads to the entry of the directory that has the name,
/// up to case, where the component is a name and there is such an entry.
pub proof fn law_one_component_is_searched<E>(
    v: Volume,
    media: Media,
    d: DirectoryModel,
    part: Seq<char>,
    scratch_len: nat,
)
    ensures
        ({
            let result = lookup::resolve::<E>(v, media, d, seq![part], scratch_len);
            match codec::name_result::<E>(part) {
                Err(error) => result == Err::<EntryModel, Error<E>>(error),
                Ok(name) => if scratch_len < v.geometry.bytes_per_sector {
                    result == Err::<EntryModel, Error<E>>(Error::InvalidSectorSize)
                } else {
                    match listing::child(v, media, d, name) {
                        None => result == Err::<EntryModel, Error<E>>(Error::Corrupt),
                        Some(None) => result == Err::<EntryModel, Error<E>>(Error::PathNotFound),
                        Some(Some(found)) => result == Ok::<EntryModel, Error<E>>(found),
                    }
                },
            }
        }),
        lookup::resolve::<E>(v, media, d, Seq::empty(), scratch_len) == Err::<
            EntryModel,
            Error<E>,
        >(Error::PathNotFound),
{
}

/// A path leads to what its last component leads to in the directory that the
/// path above it leads to; where the path above leads to an error, so does it,
/// and where it leads to a file, there is no directory to search.
pub proof fn law_paths_descend<E>(
    v: Volume,
    media: Media,
    d: DirectoryModel,
    above: Seq<Seq<char>>,
    part: Seq<char>,
    scratch_len: nat,
)
    requires
        above.len() > 0,
    ensures
        lookup::resolve::<E>(v, media, d, above.push(part), scratch_len) == match lookup::resolve::<
            E,
        >(v, media, d, above, scratch_len) {
            Err(error) => Err(error),
            Ok(found) => if found.is_directory {
                lookup::resolve::<E>(v, media, found.directory()->0, seq![part], scratch_len)
            } else {
                Err(Error::NotDirectory)
            },
        },
    decreases above.len(),
{
    let parts = above.push(part);
    assert(parts[0] == above[0]);
    assert(parts.drop_first() =~= above.drop_first().push(part));
    if let Ok(units) = codec::name_result::<E>(above[0]) {
        if let Ok(Some(found)) = listing::child_result::<E>(v, media, d, units, scratch_len) {
            if above.len() == 1 {
                assert(above.drop_first() =~= Seq::empty());
                assert(parts.drop_first() =~= seq![part]);
            } else if found.directory() is Some {
                law_paths_descend::<E>(
                    v,
                    media,
                    found.directory()->0,
                    above.drop_first(),
                    part,
                    scratch_len,
                );
            }
        }
    }
}

/// An entry of a directory leads into the directory that it describes, with the
/// clusters, the length and the place of the entry; an entry of a file leads
/// nowhere.
pub proof fn law_directory_entries_lead_on(found: EntryModel)
    ensures
        found.is_directory <==> found.directory() is Some,
        found.directory() matches Some(d) ==> {
            &&& d.first_cluster == found.first_cluster
            &&& d.data_length == found.data_length
            &&& d.no_fat_chain == found.no_fat_chain
            &&& d.primary == Some(found.primary)
            &&& d.stream == Some(found.stream)
            &&& d.locs == found.locs
        },
{
}

/// Opening a path gives a handle at the start of the file that the path leads to
/// from the root directory, with the file's clusters and lengths; a directory is
/// refused, and so is whatever the path does not lead to.
pub proof fn law_opening_gives_the_file<E>(
    v: Volume,
    media: Media,
    path: Seq<char>,
    scratch_len: nat,
)
    ensures
        ({
            let result = lookup::open_result::<E>(v, media, path, scratch_len);
            match lookup::resolve::<E>(
                v,
                media,
                entry::root_model(v.geometry),
                paths::components(path),
                scratch_len,
            ) {
                Err(error) => result == Err::<FileModel, Error<E>>(error),
                Ok(found) => if found.is_directory {
                    result == Err::<FileModel, Error<E>>(Error::IsDirectory)
                } else {
                    &&& result is Ok
                    &&& result->Ok_0.position == 0
                    &&& result->Ok_0.cache is None
                    &&& result->Ok_0.first_cluster == found.first_cluster
                    &&& result->Ok_0.valid_length == found.valid_length
                    &&& result->Ok_0.data_length == found.data_length
                    &&& result->Ok_0.no_fat_chain == found.no_fat_chain
                    &&& result->Ok_0.primary == found.primary
                    &&& result->Ok_0.stream == found.stream
                    &&& result->Ok_0.locs == found.locs
                },
            }
        }),
        ({
            let root = entry::root_model(v.geometry);
            &&& root.first_cluster == v.geometry.root_cluster
            &&& root.data_length == 0
            &&& !root.no_fat_chain
        }),
{
}

/// A directory is empty where its listing, read to the end, has no entry; a file
/// is no directory.
pub proof fn law_empty_directories<E>(v: Volume, media: Media, path: Seq<char>, scratch_len: nat)
    ensures
        ({
            let result = lookup::empty_result::<E>(v, media, path, scratch_len);
            match lookup::lookup_result::<E>(v, media, path, scratch_len) {
                Err(error) => result == Err::<bool, Error<E>>(error),
                Ok(found) => if !found.is_directory {
                    result == Err::<bool, Error<E>>(Error::NotDirectory)
                } else {
                    let list = listing::listing(v.geometry, media, found.directory()->0);
                    if list.entries.len() > 0 {
                        result == Ok::<bool, Error<E>>(false)
                    } else if list.sound {
                        result == Ok::<bool, Error<E>>(true)
                    } else {
                        result == Err::<bool, Error<E>>(Error::Corrupt)
                    }
                },
            }
        }),
{
    components::law_surrounding_slashes_do_not_matter(path);
}

/// What is to be created under a path without slashes around it belongs into the
/// directory that the path above its last slash leads to, or into the root
/// directory where it has none.
pub proof fn law_parent_of_a_path<E>(v: Volume, media: Media, path: Seq<char>, scratch_len: nat)
    ensures
        ({
            let result = create::parent_result::<E>(v, media, path, scratch_len);
            match paths::split_last(path) {
                None => result is Ok && result->Ok_0 == (entry::root_model(v.geometry), path),
                Some((above, name)) => match lookup::lookup_result::<E>(
                    v,
                    media,
                    above,
                    scratch_len,
                ) {
                    Err(error) => result is Err && result->Err_0 == error,
                    Ok(found) => if found.is_directory {
                        &&& result is Ok
                        &&& result->Ok_0 == (found.directory()->0, name)
                    } else {
                        result is Err && result->Err_0 == Error::<E>::NotDirectory
                    },
                },
            }
        }),
{
}

} // verus!
