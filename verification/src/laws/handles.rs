//! What new, longer and shorter files are, and which requests are refused.

use crate::bytes;
use crate::device;
use crate::device::Media;
use crate::directory::codec;
use crate::directory::entry::{DirectoryModel, EntryModel};
use crate::directory::slots::EntryLocator;
use crate::error::Error;
use crate::fs::allocation;
use crate::fs::create;
use crate::fs::file::FileModel;
use crate::fs::growth;
use crate::fs::listing;
use crate::fs::lookup;
use crate::fs::metadata;
use crate::fs::mount;
use crate::fs::names;
use crate::fs::paths;
use crate::fs::release;
use crate::fs::remove;
use crate::fs::rename;
use crate::fs::space;
use crate::fs::stream;
use crate::fs::walk;
use crate::geometry::Geometry;
use crate::laws::choosing;
use crate::laws::editing;
use crate::laws::fields;
use crate::laws::writing;
use crate::mount::Volume;
use vstd::prelude::*;

verus! {

/// A transfer moves as many bytes as it was asked for, unless the visible length
/// of the file ends before; then it moves just those that are left.
pub proof fn law_transfers_stop_at_the_end(f: FileModel, len: nat)
    ensures
        0 <= stream::transfer(f, len) <= len,
        f.position + stream::transfer(f, len) <= f.valid_length || stream::transfer(f, len) == 0,
        stream::transfer(f, len) == len || f.position + stream::transfer(f, len) >= f.valid_length,
{
}

/// The clusters for a length are as many as it takes, and no more.
pub proof fn law_clusters_for_a_length(g: Geometry, length: int)
    requires
        g.wf(),
        0 <= length <= u64::MAX,
    ensures
        ({
            let n = release::clusters_for(g, length);
            let size = g.bytes_per_sector * g.sectors_per_cluster;
            &&& 0 <= n
            &&& length <= n * size
            &&& n > 0 ==> (n - 1) * size < length
        }),
{
    release::lemma_clusters(g, length);
}

/// A file that was shortened ends where it was shortened to, and keeps the
/// clusters that its bytes need and no others; its position is no further than
/// its end. Without bytes it has no cluster.
pub proof fn law_shortened_handle(g: Geometry, f: FileModel, len: u64)
    requires
        g.wf(),
        len <= f.valid_length <= f.data_length,
    ensures
        ({
            let short = release::truncated(g, f, len);
            let size = g.bytes_per_sector * g.sectors_per_cluster;
            &&& short.valid_length == len
            &&& short.position == if f.position < len {
                f.position
            } else {
                len
            }
            &&& len <= short.data_length <= f.data_length
            &&& short.data_length < len + size
            &&& short.data_length < f.data_length ==> short.data_length as int % size == 0
            &&& len > 0 ==> short.first_cluster == f.first_cluster
            &&& len == 0 && f.data_length > 0 ==> short.data_length == 0 && short.first_cluster == 0
            &&& short.no_fat_chain == f.no_fat_chain
            &&& short.primary == f.primary
            &&& short.stream == f.stream
            &&& short.locs == f.locs
        }),
{
    let size = g.cluster_bytes();
    let keep = release::clusters_for(g, len as int);
    let all = release::clusters_for(g, f.data_length as int);
    let short = release::truncated(g, f, len);
    release::lemma_clusters(g, len as int);
    release::lemma_clusters(g, f.data_length as int);
    assert((keep - 1) * size == keep * size - size) by (nonlinear_arith);
    assert((all - 1) * size == all * size - size) by (nonlinear_arith);
    assert(keep * size < len + size) by {
        if keep == 0 {
            assert(keep * size == 0) by (nonlinear_arith)
                requires
                    keep == 0,
            ;
        }
    }
    if keep >= all {
        assert(all * size <= keep * size) by (nonlinear_arith)
            requires
                all <= keep,
                size > 0,
        ;
        assert(short.data_length == f.data_length);
    } else {
        let left = keep * size;
        assert(0 <= left <= (all - 1) * size) by (nonlinear_arith)
            requires
                0 <= keep <= all - 1,
                size > 0,
                left == keep * size,
        ;
        assert(left <= f.data_length);
        assert(keep == 0 ==> left == 0) by (nonlinear_arith)
            requires
                left == keep * size,
        ;
        assert(short.data_length == left);
        vstd::arithmetic::div_mod::lemma_mod_multiples_basic(keep, size);
    }
}

/// Where clusters are cut off a file, the very first write ends its chain: it
/// puts `0xffff_ffff` into the word of the FAT for the last cluster that the file
/// keeps, and changes nothing else. Only then is a cluster given back.
pub proof fn law_chain_is_cut_first<E>(
    v: Volume,
    m: Media,
    free: u32,
    f: FileModel,
    keep: int,
    allocated: int,
    last: u32,
)
    requires
        v.geometry.wf(),
        0 < keep < allocated,
        f.no_fat_chain ==> last == f.first_cluster + keep - 1,
        !f.no_fat_chain ==> allocation::cluster_of(v.geometry, m, f.first_cluster, keep - 1) == Some(
            last,
        ),
        v.geometry.fat_holds(last),
        m[v.geometry.fat_lba(last)].len() == v.geometry.bytes_per_sector,
        release::shrink_plan::<E>(v, m, free, f, keep, allocated).result is Ok,
    ensures
        ({
            let g = v.geometry;
            let writes = release::shrink_plan::<E>(v, m, free, f, keep, allocated).writes;
            let at = last * 4 % (g.bytes_per_sector as int);
            &&& writes.len() > 0
            &&& writes[0].lba == g.partition.first_lba + g.fat_offset + last * 4 / (
            g.bytes_per_sector as int)
            &&& bytes::u32_at(writes[0].data, at) == 0xffff_ffff
            &&& writes[0].data.len() == g.bytes_per_sector
            &&& forall|i: int|
                0 <= i < g.bytes_per_sector && !(at <= i < at + 4) ==> #[trigger] writes[0].data[i]
                    == m[writes[0].lba][i]
        }),
{
    let g = v.geometry;
    g.lemma_fat_byte(last);
    let at = g.fat_byte(last);
    let lba = g.fat_lba(last);
    let data = bytes::splice(m[lba], at, bytes::le32(0xffff_ffff));
    let end = allocation::set_fat_plan::<E>(v, m, free, last, 0xffff_ffff);
    assert(end.writes[0].data == data);
    assert(data.subrange(at, at + 4) =~= bytes::le32(0xffff_ffff));
    bytes::lemma_le32_reads_back(data, at, 0xffff_ffff);
    let next = release::successor(g, m, f.no_fat_chain, last)->0;
    let give = release::free_run_plan::<E>(
        v,
        end.leaves(m),
        free,
        f.no_fat_chain,
        next,
        (allocated - keep) as nat,
    );
    let plan = release::shrink_plan::<E>(v, m, free, f, keep, allocated);
    assert(plan == end.and(give));
    assert(plan.writes[0] == end.writes[0]);
}

/// A file grows by one cluster: the one behind its last one where that is free,
/// and else the next one that an allocation finds from there on. Its clusters
/// stay one behind the other only as long as each new one is the next; its
/// visible length, its position and its entry set stay as they were, and the
/// cluster that it resolved last is forgotten.
pub proof fn law_growth_by_one_cluster<E>(v: Volume, m: Media, free: u32, f: FileModel, last: u32)
    requires
        f.first_cluster != 0,
        ({
            let index = if f.data_length == 0 {
                0
            } else {
                (f.data_length - 1) / v.geometry.cluster_bytes()
            };
            if f.no_fat_chain {
                last == f.first_cluster + index
            } else {
                allocation::cluster_of(v.geometry, m, f.first_cluster, index) == Some(last)
            }
        }),
        growth::extend_plan::<E>(v, m, free, f).result is Ok,
    ensures
        ({
            let next = growth::extend_plan::<E>(v, m, free, f).result->Ok_0;
            let take = allocation::allocate_plan::<E>(v, m, free, (last + 1) as u32).result;
            &&& last < u32::MAX
            &&& take is Ok
            &&& next.data_length == f.data_length + v.geometry.bytes_per_sector
                * v.geometry.sectors_per_cluster
            &&& next.first_cluster == f.first_cluster
            &&& next.no_fat_chain <==> f.no_fat_chain && take->Ok_0 == last + 1
            &&& next.valid_length == f.valid_length
            &&& next.position == f.position
            &&& next.primary == f.primary
            &&& next.stream == f.stream
            &&& next.locs == f.locs
            &&& next.cache is None
        }),
{
    reveal(growth::extend_plan);
}

/// A file without a cluster takes the first free one of the volume.
pub proof fn law_first_cluster_of_a_file<E>(v: Volume, m: Media, free: u32, f: FileModel)
    requires
        f.first_cluster == 0,
        growth::extend_plan::<E>(v, m, free, f).result is Ok,
    ensures
        ({
            let next = growth::extend_plan::<E>(v, m, free, f).result->Ok_0;
            let take = allocation::allocate_plan::<E>(v, m, free, 2).result;
            &&& take is Ok
            &&& next.first_cluster == take->Ok_0
            &&& next.data_length == f.data_length + v.geometry.bytes_per_sector
                * v.geometry.sectors_per_cluster
            &&& next.no_fat_chain == f.no_fat_chain
            &&& next.valid_length == f.valid_length
            &&& next.position == f.position
            &&& next.primary == f.primary
            &&& next.stream == f.stream
            &&& next.locs == f.locs
            &&& next.cache is None
        }),
{
    reveal(growth::extend_plan);
}

/// A directory grows by the cluster behind its last one where that is free, and
/// else by the next one that an allocation finds from there on.
pub proof fn law_directory_grows_behind_its_tail<E>(
    v: Volume,
    m: Media,
    free: u32,
    d: DirectoryModel,
    tail: u32,
)
    requires
        tail < u32::MAX,
        space::grow_plan::<E>(v, m, free, d, tail).result is Ok,
    ensures
        allocation::allocate_plan::<E>(v, m, free, (tail + 1) as u32).result == Ok::<
            u32,
            Error<E>,
        >(space::grow_plan::<E>(v, m, free, d, tail).result->Ok_0),
{
    reveal(space::grow_plan);
}

/// The bytes that creating a file leaves on the media, in the slots that were
/// found for it: a primary entry without attributes and times, and a stream
/// extension that marks the stream as contiguous, with the length and the hash of
/// the name, no bytes and no cluster. The handle stands at the start of an empty
/// file.
pub proof fn law_created_file_byte_by_byte<E>(
    v: Volume,
    m: Media,
    free: u32,
    d: DirectoryModel,
    name: Seq<u16>,
    hash: u16,
    i: int,
)
    requires
        1 <= name.len() <= 255,
        create::create_in_plan::<E>(v, m, free, d, name).result is Ok,
        ({
            let n = (name.len() + 14) / 15 + 2;
            let find = space::find_entries_plan::<E>(v, m, free, d, n as nat);
            &&& find.result is Ok
            &&& find.result->Ok_0.len() == n
            &&& writing::are_apart(v.geometry, find.leaves(m), find.result->Ok_0)
            &&& names::name_hash(v, find.leaves(m), name) == Some(hash)
        }),
        0 <= i < 32,
    ensures
        ({
            let plan = create::create_in_plan::<E>(v, m, free, d, name);
            let m2 = plan.leaves(m);
            let f = plan.result->Ok_0;
            let primary = editing::slot_bytes(m2, f.locs[0]);
            let stream = editing::slot_bytes(m2, f.locs[1]);
            let n = (name.len() + 14) / 15 + 2;
            &&& f.locs == space::find_entries_plan::<E>(v, m, free, d, n as nat).result->Ok_0
            &&& f.primary == f.locs[0]
            &&& f.stream == f.locs[1]
            &&& f.valid_length == 0
            &&& f.data_length == 0
            &&& f.position == 0
            &&& f.first_cluster == 0
            &&& f.no_fat_chain
            &&& f.cache is None
            &&& primary[0] == 0x85
            &&& primary[1] == n - 1
            &&& i >= 4 ==> primary[i] == 0
            &&& stream[0] == 0xc0
            &&& stream[1] == 3
            &&& stream[3] == name.len()
            &&& bytes::u16_at(stream, 4) == hash
            &&& i == 2 || i >= 6 ==> stream[i] == 0
        }),
{
    let n = create::set_len(name);
    assert(n == (name.len() + 14) / 15 + 2);
    let find = space::find_entries_plan::<E>(v, m, free, d, n);
    let locs = find.result->Ok_0;
    let found = find.leaves(m);
    let s = create::fresh_set(name, 0, 0, 0, true);
    let write = metadata::write_set_plan::<E>(v, found, find.free, locs, s);
    device::lemma_applied_concat(m, find.writes, write.writes);
    let plan = create::create_in_plan::<E>(v, m, free, d, name);
    assert(plan.writes =~= find.writes + write.writes);
    let m2 = plan.leaves(m);
    assert(m2 == write.leaves(found));
    fields::law_written_set_byte_by_byte::<E>(v, found, find.free, locs, s, hash);
    let primary = editing::slot_bytes(m2, locs[0]);
    let stream = editing::slot_bytes(m2, locs[1]);
    lemma_zero_words(primary, stream);
}

/// A word is zero where all its bytes are.
proof fn lemma_zero_words(primary: Seq<u8>, stream: Seq<u8>)
    requires
        bytes::u16_at(primary, 4) == 0,
        bytes::u32_at(primary, 8) == 0,
        bytes::u32_at(primary, 12) == 0,
        bytes::u32_at(primary, 16) == 0,
        bytes::u64_at(stream, 8) == 0,
        bytes::u32_at(stream, 20) == 0,
        bytes::u64_at(stream, 24) == 0,
    ensures
        primary[4] == 0 && primary[5] == 0,
        forall|i: int| 8 <= i < 20 ==> #[trigger] primary[i] == 0,
        forall|i: int| 8 <= i < 16 || 20 <= i < 32 ==> #[trigger] stream[i] == 0,
{
}

/// The bytes that making a directory leaves on the media, in the slots that were
/// found for it: a primary entry with the attribute of a directory and without
/// times, and a stream extension that marks the stream as linked, with one
/// cluster, all of which is visible. The cluster is the first free one.
pub proof fn law_made_directory_byte_by_byte<E>(
    v: Volume,
    m: Media,
    free: u32,
    d: DirectoryModel,
    name: Seq<u16>,
    hash: u16,
    i: int,
)
    requires
        v.geometry.wf(),
        1 <= name.len() <= 255,
        create::make_dir_plan::<E>(v, m, free, d, name).result is Ok,
        ({
            let n = (name.len() + 14) / 15 + 2;
            let find = space::find_entries_plan::<E>(v, m, free, d, n as nat);
            let found = find.leaves(m);
            let taken = allocation::allocate_plan::<E>(v, found, find.free, 2).leaves(found);
            &&& find.result is Ok
            &&& find.result->Ok_0.len() == n
            &&& writing::are_apart(v.geometry, taken, find.result->Ok_0)
            &&& names::name_hash(v, taken, name) == Some(hash)
        }),
        0 <= i < 32,
    ensures
        ({
            let plan = create::make_dir_plan::<E>(v, m, free, d, name);
            let m2 = plan.leaves(m);
            let e = plan.result->Ok_0;
            let primary = editing::slot_bytes(m2, e.locs[0]);
            let stream = editing::slot_bytes(m2, e.locs[1]);
            let n = (name.len() + 14) / 15 + 2;
            let find = space::find_entries_plan::<E>(v, m, free, d, n as nat);
            let size = v.geometry.bytes_per_sector * v.geometry.sectors_per_cluster;
            &&& e.locs == find.result->Ok_0
            &&& e.primary == Some(e.locs[0])
            &&& e.stream == Some(e.locs[1])
            &&& e.data_length == size
            &&& !e.no_fat_chain
            &&& allocation::allocate_plan::<E>(v, find.leaves(m), find.free, 2).result == Ok::<
                u32,
                Error<E>,
            >(e.first_cluster)
            &&& primary[0] == 0x85
            &&& primary[1] == n - 1
            &&& primary[4] == 0x10
            &&& i >= 5 ==> primary[i] == 0
            &&& stream[0] == 0xc0
            &&& stream[1] == 1
            &&& stream[3] == name.len()
            &&& bytes::u16_at(stream, 4) == hash
            &&& bytes::u64_at(stream, 8) == size
            &&& bytes::u32_at(stream, 20) == e.first_cluster
            &&& bytes::u64_at(stream, 24) == size
        }),
{
    let n = create::set_len(name);
    assert(n == (name.len() + 14) / 15 + 2);
    let find = space::find_entries_plan::<E>(v, m, free, d, n);
    let locs = find.result->Ok_0;
    let found = find.leaves(m);
    let take = allocation::allocate_plan::<E>(v, found, find.free, 2);
    let cluster = take.result->Ok_0;
    let taken = take.leaves(found);
    let size = v.geometry.cluster_bytes() as u64;
    let s = create::fresh_set(name, 0x10, cluster, size, false);
    let write = metadata::write_set_plan::<E>(v, taken, take.free, locs, s);
    device::lemma_applied_concat(found, take.writes, write.writes);
    device::lemma_applied_concat(m, find.writes, take.writes + write.writes);
    let plan = create::make_dir_plan::<E>(v, m, free, d, name);
    assert(plan.writes =~= find.writes + (take.writes + write.writes));
    let m2 = plan.leaves(m);
    assert(m2 == write.leaves(taken));
    choosing::law_allocation_takes_the_next_free_cluster::<E>(v, found, find.free, 2);
    assert(size == v.geometry.cluster_bytes()) by {
        assert(0 <= v.geometry.bytes_per_sector * v.geometry.sectors_per_cluster)
            by (nonlinear_arith)
            requires
                0 <= v.geometry.bytes_per_sector,
                0 <= v.geometry.sectors_per_cluster,
        ;
    }
    fields::law_written_set_byte_by_byte::<E>(v, taken, take.free, locs, s, hash);
    let primary = editing::slot_bytes(m2, locs[0]);
    lemma_sixteen(primary);
}

/// The bytes of a primary entry with the attribute of a directory.
proof fn lemma_sixteen(primary: Seq<u8>)
    requires
        bytes::u16_at(primary, 4) == 16,
        bytes::u32_at(primary, 8) == 0,
        bytes::u32_at(primary, 12) == 0,
        bytes::u32_at(primary, 16) == 0,
    ensures
        primary[4] == 16 && primary[5] == 0,
        forall|i: int| 8 <= i < 20 ==> #[trigger] primary[i] == 0,
{
}

/// Which paths no file is created under: an empty one, one that leads to a
/// directory, and one whose parent is missing or a file. Nothing is written then.
pub proof fn law_creation_refusals<E>(
    v: Volume,
    m: Media,
    free: u32,
    path: Seq<char>,
    scratch_len: nat,
)
    ensures
        ({
            let plan = create::create_plan::<E>(v, m, free, path, scratch_len);
            let inner = paths::trimmed(path);
            &&& inner.len() == 0 ==> plan.result == Err::<FileModel, Error<E>>(Error::InvalidPath)
                && plan.writes.len() == 0
            &&& inner.len() > 0 ==> match paths::split_last(inner) {
                Some((above, _)) => match lookup::lookup_result::<E>(v, m, above, scratch_len) {
                    Err(error) => plan.result == Err::<FileModel, Error<E>>(error)
                        && plan.writes.len() == 0,
                    Ok(found) => !found.is_directory ==> plan.result == Err::<FileModel, Error<E>>(
                        Error::NotDirectory,
                    ) && plan.writes.len() == 0,
                },
                None => true,
            }
            &&& inner.len() > 0 && create::parent_result::<E>(v, m, inner, scratch_len) is Ok
                ==> match lookup::lookup_result::<E>(v, m, inner, scratch_len) {
                Ok(found) => found.is_directory ==> plan.result == Err::<FileModel, Error<E>>(
                    Error::IsDirectory,
                ) && plan.writes.len() == 0,
                Err(Error::PathNotFound) => true,
                Err(error) => plan.result == Err::<FileModel, Error<E>>(error)
                    && plan.writes.len() == 0,
            }
        }),
{
}

/// Which renames are refused: those to a name that is empty, holds a slash or is
/// no name, and those of what does not exist. Nothing is written then.
pub proof fn law_rename_refusals<E>(
    v: Volume,
    m: Media,
    free: u32,
    path: Seq<char>,
    new_name: Seq<char>,
    scratch_len: nat,
)
    ensures
        ({
            let plan = rename::rename_plan::<E>(v, m, free, path, new_name, scratch_len);
            if new_name.len() == 0 || new_name.contains('/') {
                plan.result == Err::<(), Error<E>>(Error::InvalidPath) && plan.writes.len() == 0
            } else {
                match (
                    lookup::lookup_result::<E>(v, m, paths::trimmed(path), scratch_len),
                    codec::name_result::<E>(new_name),
                ) {
                    (Err(error), _) => plan.result == Err::<(), Error<E>>(error)
                        && plan.writes.len() == 0,
                    (Ok(_), Err(error)) => plan.result == Err::<(), Error<E>>(error)
                        && plan.writes.len() == 0,
                    (Ok(_), Ok(_)) => true,
                }
            }
        }),
{
}

/// What is not there cannot be removed, and nothing is written then.
pub proof fn law_removal_refusals<E>(
    v: Volume,
    m: Media,
    free: u32,
    path: Seq<char>,
    scratch_len: nat,
)
    ensures
        ({
            let plan = remove::remove_plan::<E>(v, m, free, path, scratch_len);
            match lookup::lookup_result::<E>(v, m, paths::trimmed(path), scratch_len) {
                Err(error) => plan.result == Err::<(), Error<E>>(error) && plan.writes.len() == 0,
                Ok(found) => true,
            }
        }),
{
}

/// The number of free clusters of a mounted volume is that of the clusters whose
/// bits of the allocation bitmap are clear.
pub proof fn law_mounting_counts_the_free_clusters<E>(
    media: Media,
    sector_size: usize,
    total: u64,
    scratch_len: nat,
)
    requires
        mount::mount_result::<E>(media, sector_size, total, scratch_len) is Ok,
    ensures
        ({
            let (model, free) = mount::mount_result::<E>(
                media,
                sector_size,
                total,
                scratch_len,
            )->Ok_0;
            free == Set::new(
                |c: int|
                    2 <= c < model.geometry.cluster_count + 2 && allocation::is_used(
                        mount::volume_of(model),
                        media,
                        c,
                    ) == Some(false),
            ).len()
        }),
{
    let (model, free) = mount::mount_result::<E>(media, sector_size, total, scratch_len)->Ok_0;
    choosing::law_free_clusters_are_counted::<E>(mount::volume_of(model), media);
}

/// A read puts the bytes from the handle's position on, in order, at the start of
/// the storage, and leaves the rest of it alone.
pub proof fn law_reads_copy_the_bytes(
    g: Geometry,
    media: Media,
    f: FileModel,
    before: Seq<u8>,
    after: Seq<u8>,
    count: int,
    j: int,
)
    requires
        stream::has_read(g, media, f, before, after, count),
        0 <= j < before.len(),
    ensures
        after.len() == before.len(),
        after[j] == if j < count {
            stream::file_byte(g, media, f, f.position + j)
        } else {
            before[j]
        },
        0 <= j < count ==> stream::file_place(g, media, f, f.position + j) is Some,
{
    assert(after[j] == after[j]);
}

/// What a read answers: the number of bytes that it could move, where every one
/// of them has a place, and else that the volume is damaged.
pub proof fn law_reads_answer_their_count<E>(g: Geometry, media: Media, f: FileModel, len: nat)
    requires
        len <= usize::MAX,
    ensures
        match stream::read_result::<E>(g, media, f, len) {
            Ok(count) => {
                &&& count <= len
                &&& count == len || f.position + count >= f.valid_length
                &&& f.position + count <= f.valid_length || count == 0
                &&& forall|j: int|
                    0 <= j < count ==> #[trigger] stream::file_place(g, media, f, f.position + j)
                        is Some
            },
            Err(error) => error == Error::<E>::Corrupt && exists|j: int|
                {
                    &&& 0 <= j < len
                    &&& f.position + j < f.valid_length
                    &&& #[trigger] stream::file_place(g, media, f, f.position + j) is None
                },
        },
{
    let count = stream::transfer(f, len);
    if !stream::all_placed(g, media, f, count) {
        let j = choose|j: int|
            0 <= j < count && #[trigger] stream::file_place(g, media, f, f.position + j) is None;
        assert(stream::file_place(g, media, f, f.position + j) is None);
    }
}

/// A handle that has passed some bytes stands that much further, and is else the
/// same but for the cluster that it remembers: the one of the last byte passed,
/// which it needs only where the FAT links the file.
pub proof fn law_handles_advance(g: Geometry, media: Media, f: FileModel, count: int)
    requires
        0 < count,
        f.position + count <= u64::MAX,
        g.wf(),
        stream::file_place(g, media, f, f.position + count - 1) is Some,
    ensures
        ({
            let now = stream::advanced(g, media, f, count);
            let last = (f.position + count - 1) / g.cluster_bytes();
            &&& now.position == f.position + count
            &&& now.first_cluster == f.first_cluster
            &&& now.valid_length == f.valid_length
            &&& now.data_length == f.data_length
            &&& now.no_fat_chain == f.no_fat_chain
            &&& now.primary == f.primary
            &&& now.stream == f.stream
            &&& now.locs == f.locs
            &&& f.no_fat_chain ==> now.cache == f.cache
            &&& !f.no_fat_chain ==> match now.cache {
                Some((index, cluster)) => index == last as u64 && stream::file_cluster(
                    g,
                    media,
                    f,
                    last,
                ) == Some(cluster),
                None => false,
            }
        }),
        stream::advanced(g, media, f, 0) == f,
{
}

/// Appending nothing does nothing, and appending past the largest length is
/// refused before anything is done.
pub proof fn law_append_limits<E>(v: Volume, m: Media, free: u32, f: FileModel, data: Seq<u8>)
    ensures
        ({
            let plan = growth::append_plan::<E>(v, m, free, f, data);
            &&& data.len() == 0 ==> plan.result == Ok::<usize, Error<E>>(0) && plan.writes.len()
                == 0 && plan.free == free
            &&& data.len() > 0 && f.valid_length + data.len() > u64::MAX ==> plan.result == Err::<
                usize,
                Error<E>,
            >(Error::NoSpace) && plan.writes.len() == 0 && plan.free == free
        }),
{
}

/// Claiming a cluster that is in use does nothing and says so; claiming a free one
/// of the heap does what an allocation of it does.
pub proof fn law_claiming_a_cluster<E>(v: Volume, m: Media, free: u32, cluster: u32)
    ensures
        ({
            let plan = allocation::claim_plan::<E>(v, m, free, cluster);
            let take = allocation::take_plan::<E>(v, m, free, cluster);
            match allocation::is_used(v, m, cluster as int) {
                None => plan.result == Err::<bool, Error<E>>(Error::Corrupt) && plan.writes.len()
                    == 0,
                Some(true) => plan.result == Ok::<bool, Error<E>>(false) && plan.writes.len() == 0
                    && plan.free == free,
                Some(false) => if 2 <= cluster < v.geometry.cluster_count + 2 && cluster
                    < u32::MAX {
                    &&& plan.writes == take.writes
                    &&& take.result is Ok ==> plan.result == Ok::<bool, Error<E>>(true)
                    &&& take.result is Err ==> plan.result is Err
                } else {
                    plan.result == Err::<bool, Error<E>>(Error::Corrupt) && plan.writes.len() == 0
                },
            }
        }),
{
    let take = allocation::take_plan::<E>(v, m, free, cluster);
    let plan = allocation::claim_plan::<E>(v, m, free, cluster);
    if allocation::is_used(v, m, cluster as int) == Some(false) && v.geometry.in_heap(cluster) {
        assert(plan.writes =~= take.writes);
    }
}

/// A new name that takes as many entries as the old one is written in place: only
/// the slots of the entry set change.
pub proof fn law_name_of_equal_size_is_written_in_place<E>(
    v: Volume,
    m: Media,
    free: u32,
    path: Seq<char>,
    new_name: Seq<char>,
    scratch_len: nat,
    found: EntryModel,
    name: Seq<u16>,
    hash: u16,
)
    requires
        new_name.len() > 0,
        !new_name.contains('/'),
        lookup::lookup_result::<E>(v, m, paths::trimmed(path), scratch_len) == Ok::<
            EntryModel,
            Error<E>,
        >(found),
        codec::name_result::<E>(new_name) == Ok::<Seq<u16>, Error<E>>(name),
        (name.len() + 14) / 15 + 2 == found.locs.len(),
        names::name_hash(v, m, name) == Some(hash),
        writing::are_apart(v.geometry, m, found.locs),
        found.locs.len() >= 3,
        found.primary == found.locs[0],
        found.stream == found.locs[1],
    ensures
        ({
            let plan = rename::rename_plan::<E>(v, m, free, path, new_name, scratch_len);
            &&& plan.result == Ok::<(), Error<E>>(())
            &&& plan.free == free
            &&& writing::differs_within(m, plan.leaves(m), found.locs)
            &&& bytes::u16_at(editing::slot_bytes(plan.leaves(m), found.locs[1]), 4) == hash
        }),
{
    editing::law_renamed_set_byte_by_byte::<E>(v, m, free, found, name, hash, 2, 0);
}

/// Which directories cannot be removed: those that list an entry, and those that
/// are damaged. Nothing is written then. A file, or a directory that is read to
/// its end without an entry, is removed by retiring its entry set first.
pub proof fn law_only_empty_directories_are_removed<E>(
    v: Volume,
    m: Media,
    free: u32,
    found: EntryModel,
)
    ensures
        ({
            let plan = remove::remove_entry_plan::<E>(v, m, free, found);
            let list = listing::listing(v.geometry, m, found.directory()->0);
            let retire = metadata::retire_plan::<E>(v, m, free, found.locs, 0);
            if found.is_directory && list.entries.len() > 0 {
                plan.result == Err::<(), Error<E>>(Error::DirectoryNotEmpty) && plan.writes.len()
                    == 0
            } else if found.is_directory && !list.sound {
                plan.result == Err::<(), Error<E>>(Error::Corrupt) && plan.writes.len() == 0
            } else {
                retire.writes.len() <= plan.writes.len() && plan.writes.take(
                    retire.writes.len() as int,
                ) == retire.writes
            }
        }),
{
    let plan = remove::remove_entry_plan::<E>(v, m, free, found);
    let retire = metadata::retire_plan::<E>(v, m, free, found.locs, 0);
    if remove::removable::<E>(v, m, found) is Ok {
        assert(plan.writes.take(retire.writes.len() as int) =~= retire.writes);
    }
}

/// What has no bytes or no cluster has nothing to give back.
pub proof fn law_nothing_to_release<E>(v: Volume, m: Media, free: u32, found: EntryModel)
    requires
        found.first_cluster < 2 || found.data_length == 0,
    ensures
        release::release_plan::<E>(v, m, free, found).result == Ok::<(), Error<E>>(()),
        release::release_plan::<E>(v, m, free, found).writes.len() == 0,
        release::release_plan::<E>(v, m, free, found).free == free,
{
}

/// Which paths no directories are made for: an empty one, and one whose first
/// component is no name. Nothing is written then.
pub proof fn law_directory_creation_refusals<E>(
    v: Volume,
    m: Media,
    free: u32,
    path: Seq<char>,
    scratch_len: nat,
)
    ensures
        ({
            let plan = create::create_dir_all_plan::<E>(v, m, free, path, scratch_len);
            let parts = paths::components(paths::trimmed(path));
            &&& paths::trimmed(path).len() == 0 ==> plan.result == Err::<(), Error<E>>(
                Error::InvalidPath,
            ) && plan.writes.len() == 0
            &&& paths::trimmed(path).len() > 0 && parts.len() > 0 ==> match codec::name_result::<E>(
                parts[0],
            ) {
                Err(error) => plan.result == Err::<(), Error<E>>(error) && plan.writes.len() == 0,
                Ok(_) => true,
            }
        }),
{
}

/// Entry sets have between 3 and 19 entries: slots for fewer or more are not
/// looked for.
pub proof fn law_sets_have_their_limits<E>(
    v: Volume,
    m: Media,
    free: u32,
    d: DirectoryModel,
    wanted: nat,
)
    ensures
        ({
            let plan = space::find_entries_plan::<E>(v, m, free, d, wanted);
            &&& wanted < 3 || wanted > 19 ==> plan.result == Err::<Seq<EntryLocator>, Error<E>>(
                Error::Corrupt,
            ) && plan.writes.len() == 0
            &&& 3 <= wanted <= 19 ==> match space::search(
                walk::directory_slots(v.geometry, m, d).slots,
                wanted,
                Seq::empty(),
            ) {
                space::Search::Found(locs) => plan.result == Ok::<Seq<EntryLocator>, Error<E>>(locs)
                    && plan.writes.len() == 0 && plan.free == free,
                space::Search::Short(_) => true,
            }
        }),
{
}

/// A directory without room for an entry set is refused where it cannot grow: one
/// whose length is used up or whose clusters lie one behind the other has no
/// space, and one whose clusters are damaged is damaged. Nothing is written then.
pub proof fn law_rigid_directories_have_no_room<E>(
    v: Volume,
    m: Media,
    free: u32,
    d: DirectoryModel,
    wanted: nat,
)
    requires
        3 <= wanted <= 19,
        space::search(walk::directory_slots(v.geometry, m, d).slots, wanted, Seq::empty())
            is Short,
    ensures
        ({
            let plan = space::find_entries_plan::<E>(v, m, free, d, wanted);
            match walk::directory_slots(v.geometry, m, d).end {
                walk::End::Bytes | walk::End::Contiguous => plan.result == Err::<
                    Seq<EntryLocator>,
                    Error<E>,
                >(Error::NoSpace) && plan.writes.len() == 0 && plan.free == free,
                walk::End::Corrupt => plan.result == Err::<Seq<EntryLocator>, Error<E>>(
                    Error::Corrupt,
                ) && plan.writes.len() == 0 && plan.free == free,
                walk::End::Tail(_) => true,
            }
        }),
{
}

/// Where a directory grows and free slots at its old end are not enough, the set
/// goes on in the first slots of the new cluster, 32 bytes each from its first
/// sector on.
pub proof fn law_sets_go_on_in_the_new_cluster<E>(
    v: Volume,
    m: Media,
    free: u32,
    d: DirectoryModel,
    wanted: nat,
    run: Seq<EntryLocator>,
    tail: u32,
    j: int,
)
    requires
        3 <= wanted <= 19,
        space::search(walk::directory_slots(v.geometry, m, d).slots, wanted, Seq::empty())
            == space::Search::Short(run),
        walk::directory_slots(v.geometry, m, d).end == walk::End::Tail(tail),
        space::grow_plan::<E>(v, m, free, d, tail).result is Ok,
        0 < run.len() < wanted,
        wanted - run.len() <= v.geometry.bytes_per_sector / 32,
        0 <= j < wanted,
    ensures
        ({
            let plan = space::find_entries_plan::<E>(v, m, free, d, wanted);
            let grow = space::grow_plan::<E>(v, m, free, d, tail);
            let new = grow.result->Ok_0;
            &&& plan.result is Ok
            &&& plan.writes == grow.writes
            &&& plan.free == grow.free
            &&& plan.result->Ok_0.len() == wanted
            &&& j < run.len() ==> plan.result->Ok_0[j] == run[j]
            &&& j >= run.len() ==> plan.result->Ok_0[j].lba == v.geometry.heap_lba(new as int) as u64
                && plan.result->Ok_0[j].offset == 32 * (j - run.len())
        }),
{
    let plan = space::find_entries_plan::<E>(v, m, free, d, wanted);
    let grow = space::grow_plan::<E>(v, m, free, d, tail);
    assert(plan.writes =~= grow.writes);
}

} // verus!
