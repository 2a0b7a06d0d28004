//! What the values that callers hold stand for, and what requests that are refused
//! or stopped leave of them.

use crate::device;
use crate::device::{BlockDevice, Media, SectorWrite};
use crate::directory::codec;
use crate::directory::entry;
use crate::directory::entry::{Directory, DirectoryEntry};
use crate::error::Error;
use crate::fs::file::{File, FileModel};
use crate::fs::lookup;
use crate::fs::metadata::NewEntrySet;
use crate::fs::paths;
use crate::fs::release;
use crate::fs::stream;
use crate::fs::FileSystem;
use crate::geometry::Geometry;
use crate::mount::boot;
use crate::mount::system::VolumeLabel;
use crate::mount::volume;
use crate::mount::Volume;
use vstd::prelude::*;

verus! {

/// A directory entry stands for the values of its own fields: each timestamp, each
/// length and each flag is the one of that name, the name is the first `name_len`
/// units of its storage, and the locators are the first `entry_count` of theirs.
pub proof fn law_entries_are_their_fields(e: DirectoryEntry)
    requires
        e.wf(),
        e.name_len <= 255,
    ensures
        e@.is_directory == e.is_directory,
        e@.first_cluster == e.first_cluster,
        e@.data_length == e.data_length,
        e@.valid_length == e.valid_length,
        e@.no_fat_chain == e.no_fat_chain,
        e@.created.date_time == e.created.date_time,
        e@.created.ten_millis == e.created.ten_millis,
        e@.created.utc_offset == e.created.utc_offset,
        e@.modified.date_time == e.modified.date_time,
        e@.modified.ten_millis == e.modified.ten_millis,
        e@.modified.utc_offset == e.modified.utc_offset,
        e@.accessed.date_time == e.accessed.date_time,
        e@.accessed.ten_millis == e.accessed.ten_millis,
        e@.accessed.utc_offset == e.accessed.utc_offset,
        e@.primary == e.primary,
        e@.stream == e.stream,
        e@.name.len() == e.name_len,
        forall|i: int| 0 <= i < e.name_len ==> #[trigger] e@.name[i] == e.name@[i],
        e@.locs.len() == e.entry_count,
        forall|i: int| 0 <= i < e.entry_count ==> #[trigger] e@.locs[i] == e.entry_locs@[i],
{
}

/// A directory extent stands for the values of its own fields.
pub proof fn law_directories_are_their_fields(d: Directory)
    requires
        d.wf(),
    ensures
        d@.first_cluster == d.first_cluster,
        d@.data_length == d.data_length,
        d@.no_fat_chain == d.no_fat_chain,
        d@.primary == d.primary,
        d@.stream == d.stream,
        d@.locs.len() == d.entry_count,
        forall|i: int| 0 <= i < d.entry_count ==> #[trigger] d@.locs[i] == d.entry_locs@[i],
{
}

/// A file handle stands for the values of its own fields.
pub proof fn law_files_are_their_fields(f: File)
    requires
        f.wf(),
    ensures
        f@.primary == f.primary,
        f@.stream == f.stream,
        f@.first_cluster == f.first_cluster,
        f@.data_length == f.data_length,
        f@.valid_length == f.valid_length,
        f@.position == f.position,
        f@.no_fat_chain == f.no_fat_chain,
        f@.cache is Some <==> f.cached_cluster_index is Some,
        f@.cache matches Some((index, cluster)) ==> f.cached_cluster_index == Some(index)
            && f.cached_cluster == cluster,
        f@.locs.len() == f.entry_count,
        forall|i: int| 0 <= i < f.entry_count ==> #[trigger] f@.locs[i] == f.entry_locs@[i],
{
}

/// A set that is to be written stands for the values of its own fields.
pub proof fn law_new_sets_are_their_fields(s: NewEntrySet<'_>)
    ensures
        s@.name == s.name@,
        s@.attributes == s.attributes,
        s@.first_cluster == s.first_cluster,
        s@.valid_length == s.valid_length,
        s@.data_length == s.data_length,
        s@.no_fat_chain == s.no_fat_chain,
        s@.created == s.created,
        s@.modified == s.modified,
        s@.accessed == s.accessed,
{
}

/// A volume stands for the values of its own fields, and its label for the first
/// units of the label's storage.
pub proof fn law_volumes_are_their_fields(v: Volume, label: VolumeLabel)
    requires
        label.wf(),
    ensures
        v@.geometry == v.geometry,
        v@.bitmap.first_cluster == v.bitmap.first_cluster,
        v@.bitmap.byte_length == v.bitmap.byte_length,
        v@.upcase.first_cluster == v.upcase.first_cluster,
        v@.upcase.byte_length == v.upcase.byte_length,
        v@.upcase.checksum == v.upcase.checksum,
        v@.label == v.label@,
        label@.len() == label.len,
        forall|i: int| 0 <= i < label.len ==> #[trigger] label@[i] == label.units@[i],
{
}

/// An answer stands for the same answer: an error for itself, and a success for
/// what the value in it stands for.
pub proof fn law_answers_are_handed_on<E>(found: DirectoryEntry, file: File, error: Error<E>)
    ensures
        lookup::entry_view::<E>(Ok(found)) == Ok::<entry::EntryModel, Error<E>>(found@),
        lookup::entry_view::<E>(Err(error)) == Err::<entry::EntryModel, Error<E>>(error),
        lookup::file_view::<E>(Ok(file)) == Ok::<FileModel, Error<E>>(file@),
        lookup::file_view::<E>(Err(error)) == Err::<FileModel, Error<E>>(error),
        entry::decoded_view::<E>(Ok(Some(found))) == Ok::<Option<entry::EntryModel>, Error<E>>(
            Some(found@),
        ),
        entry::decoded_view::<E>(Ok(None)) == Ok::<Option<entry::EntryModel>, Error<E>>(None),
        entry::decoded_view::<E>(Err(error)) == Err::<Option<entry::EntryModel>, Error<E>>(error),
{
}

/// A timestamp that nobody set is zero throughout.
pub proof fn law_unset_timestamps_are_zero()
    ensures
        entry::no_time().date_time == 0,
        entry::no_time().ten_millis == 0,
        entry::no_time().utc_offset == 0,
{
}

/// Behind a slash that only slashes follow no component starts.
proof fn lemma_bare(path: Seq<char>, i: int)
    requires
        0 <= i <= path.len(),
        forall|j: int| 0 <= j < path.len() ==> path[j] == '/',
    ensures
        paths::component_start(path, i) == path.len(),
    decreases path.len() - i,
{
    if i < path.len() {
        lemma_bare(path, i + 1);
    }
}

/// A path that is empty or made of slashes alone names nothing. It is answered that
/// the path was not found, and no directory is read for it.
pub proof fn law_bare_paths_are_not_found<E>(g: Geometry, path: Seq<char>, scratch_len: nat)
    requires
        forall|i: int| 0 <= i < path.len() ==> path[i] == '/',
    ensures
        !lookup::is_searched::<E>(g, path, scratch_len),
        lookup::refusal::<E>(path) == Error::<E>::PathNotFound,
{
    lemma_bare(path, 0);
}

/// A path that has a component is searched for if and only if the first component is a
/// name and the scratch storage holds a sector. What is wrong with the component
/// is answered first; else it is the size of the storage.
pub proof fn law_bad_components_are_refused<E>(g: Geometry, path: Seq<char>, scratch_len: nat)
    requires
        paths::components(path).len() > 0,
    ensures
        ({
            let first = codec::name_result::<E>(paths::components(path)[0]);
            &&& lookup::is_searched::<E>(g, path, scratch_len) <==> first is Ok && scratch_len
                >= g.bytes_per_sector
            &&& first is Err ==> lookup::refusal::<E>(path) == first->Err_0
            &&& first is Ok ==> lookup::refusal::<E>(path) == Error::<E>::InvalidSectorSize
        }),
{
}

/// A device can be read if and only if its sectors have 512, 1024, 2048 or 4096 bytes and
/// the scratch storage holds one. Any other size is not supported; where the size
/// is, storage that is too short is answered as a wrong sector size.
pub proof fn law_unreadable_devices_are_refused<E>(size: usize, scratch_len: nat)
    ensures
        ({
            let supported = size == 512 || size == 1024 || size == 2048 || size == 4096;
            &&& volume::is_unreadable(size, scratch_len) <==> !supported || scratch_len < size
            &&& supported ==> boot::sector_size_result::<E>(size) == Ok::<usize, Error<E>>(size)
            &&& !supported ==> boot::sector_size_result::<E>(size) == Err::<usize, Error<E>>(
                Error::UnsupportedSectorSize,
            )
            &&& volume::unreadable_error::<E>(size) == if supported {
                Error::<E>::InvalidSectorSize
            } else {
                Error::<E>::UnsupportedSectorSize
            }
        }),
{
}

/// Looking a cluster of a file up changes nothing of its handle but the cache. For
/// a file whose clusters lie side by side the cache is not touched either; for a
/// linked one it holds the number that was asked for and the cluster found there.
pub proof fn law_resolving_fills_the_cache(f: FileModel, wanted: u64, cluster: u32)
    ensures
        ({
            let now = stream::resolved(f, wanted as int, cluster);
            &&& now == FileModel { cache: now.cache, ..f }
            &&& f.no_fat_chain ==> now.cache == f.cache
            &&& !f.no_fat_chain ==> now.cache == Some((wanted, cluster))
        }),
{
}

/// What a handle keeps while a write goes on.
proof fn lemma_writing_keeps(v: Volume, m: Media, f: FileModel, data: Seq<u8>, k: nat)
    ensures
        ({
            let now = stream::write_file_until(v, m, f, data, k);
            now == FileModel { position: now.position, cache: now.cache, ..f }
        }),
    decreases k,
{
    let g = v.geometry;
    let count = stream::in_sector(g, f.position as int, data.len() as int);
    if let Some((lba, at)) = stream::file_place(g, m, f, f.position as int) {
        if k > 0 && 0 < count <= data.len() {
            let write = SectorWrite {
                lba,
                data: stream::written(g, m[lba], at, data.take(count)),
            };
            lemma_writing_keeps(
                v,
                device::applied(m, seq![write]),
                stream::advanced(g, m, f, count),
                data.skip(count),
                (k - 1) as nat,
            );
        }
    }
}

/// A write that the device stops leaves the handle behind the last sector that was
/// written in full: behind the first `k` of them it stands at the end of a sector, or
/// at the end of the data where that comes first. Nothing else of the handle but
/// the cache has changed.
pub proof fn law_stopped_write_leaves_the_handle_behind_it<E>(
    v: Volume,
    m: Media,
    free: u32,
    f: FileModel,
    data: Seq<u8>,
    m2: Media,
    free2: u32,
    now: FileModel,
    k: int,
)
    requires
        v.geometry.wf(),
        stream::is_cut_short_at::<E>(v, m, free, f, data, m2, free2, now, k),
    ensures
        ({
            let size = v.geometry.bytes_per_sector as int;
            let end = k * size - f.position as int % size;
            &&& k == 0 ==> now.position == f.position
            &&& k > 0 && end < data.len() ==> now.position == f.position + end && now.position as int
                % size == 0
            &&& k > 0 && end >= data.len() ==> now.position == f.position + data.len()
            &&& now == FileModel { position: now.position, cache: now.cache, ..f }
        }),
{
    let g = v.geometry;
    let size = g.bytes_per_sector as int;
    lemma_writing_keeps(v, m, f, data, k as nat);
    let end = k * size - f.position as int % size;
    if k > 0 && end < data.len() {
        let whole = f.position as int / size;
        assert(f.position + end == size * (whole + k)) by (nonlinear_arith)
            requires
                f.position as int == size * whole + f.position as int % size,
                end == k * size - f.position as int % size,
        ;
        vstd::arithmetic::div_mod::lemma_mod_multiples_basic(whole + k, size);
        assert(size * (whole + k) == (whole + k) * size) by (nonlinear_arith);
    }
}

/// A shortened file forgets the cluster that it resolved last where it gave clusters
/// back, and where that cluster lies behind its new end; else it remembers it.
pub proof fn law_shortened_file_forgets_what_it_gave_back(g: Geometry, f: FileModel, len: u64)
    requires
        g.wf(),
        len <= f.valid_length <= f.data_length,
    ensures
        ({
            let short = release::truncated(g, f, len);
            let size = g.bytes_per_sector * g.sectors_per_cluster;
            &&& short.data_length < f.data_length ==> short.cache is None
            &&& short.data_length == f.data_length ==> short.cache == match f.cache {
                Some((index, cluster)) => if index * size < len {
                    Some((index, cluster))
                } else {
                    None
                },
                None => None,
            }
        }),
{
    let size = g.cluster_bytes();
    let keep = release::clusters_for(g, len as int);
    let all = release::clusters_for(g, f.data_length as int);
    release::lemma_clusters(g, len as int);
    release::lemma_clusters(g, f.data_length as int);
    if keep < all {
        assert(0 <= keep * size <= (all - 1) * size) by (nonlinear_arith)
            requires
                0 <= keep <= all - 1,
                size > 0,
        ;
    }
    if let Some((index, cluster)) = f.cache {
        if index < keep {
            assert(index * size <= (keep - 1) * size) by (nonlinear_arith)
                requires
                    index <= keep - 1,
                    size > 0,
            ;
            assert(len > 0);
        } else {
            assert(index * size >= keep * size) by (nonlinear_arith)
                requires
                    index >= keep,
                    size > 0,
            ;
        }
    }
}

/// Shortening a file either fails and leaves its handle as it was, or it leaves a
/// handle that ends at the new length and stands no further; that may be so also
/// where recording the length failed. Success means the latter.
pub proof fn law_shortening_settles_the_handle<D: BlockDevice>(
    before: FileSystem<D>,
    after: FileSystem<D>,
    f: FileModel,
    now: FileModel,
    len: u64,
    result: Result<(), Error<D::Error>>,
)
    requires
        release::shortens(before, after, f, now, len, result),
    ensures
        now == f || (now.valid_length == len && now.position == if f.position < len {
            f.position
        } else {
            len
        }),
        result is Ok ==> now.valid_length == len && now.position <= len,
        now.valid_length != len ==> result is Err && now == f,
{
}

} // verus!
