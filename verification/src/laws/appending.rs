//! Appending to a file.

use crate::bytes;
use crate::device;
use crate::device::{Media, SectorWrite};
use crate::directory::slots::EntryLocator;
use crate::error::Error;
use crate::fs::allocation;
use crate::fs::file::FileModel;
use crate::fs::growth;
use crate::fs::metadata;
use crate::fs::stream;
use crate::geometry::Geometry;
use crate::laws::allocating;
use crate::laws::files;
use crate::laws::growing;
use crate::laws::regions;
use crate::mount::Volume;
use vstd::prelude::*;

verus! {

/// Whether sector `lba` is one of cluster `d`.
pub open spec fn in_cluster(g: Geometry, lba: u64, d: u32) -> bool {
    &&& g.in_heap(d)
    &&& g.heap_lba(d as int) <= lba < g.heap_lba(d as int) + g.sectors_per_cluster
}

/// Whether `d` is a used cluster that belongs to neither bitmap nor UpCase
/// table.
pub open spec fn is_taken(v: Volume, media: Media, d: u32) -> bool {
    &&& regions::is_plain(v, media, d)
    &&& allocation::is_used(v, media, d as int) == Some(true)
}

/// Whether the entry set of a file lies in clusters of a directory: its stream
/// extension in `d`, its primary entry in `e`, both apart from the file's own
/// clusters.
pub open spec fn stored_in(v: Volume, media: Media, f: FileModel, d: u32, e: u32) -> bool {
    let g = v.geometry;
    &&& f.locs.len() >= 2
    &&& forall|i: int| 0 <= i < f.locs.len() ==> metadata::fits(g, #[trigger] f.locs[i])
    &&& metadata::fits(g, f.stream)
    &&& metadata::fits(g, f.primary)
    &&& in_cluster(g, f.stream.lba, d)
    &&& in_cluster(g, f.primary.lba, e)
    &&& is_taken(v, media, d)
    &&& is_taken(v, media, e)
    &&& !files::owns(g, media, f, d)
    &&& !files::owns(g, media, f, e)
}

/// The checksum of a set whose entries all lie within their sectors.
pub proof fn lemma_summable(g: Geometry, m: Media, locs: Seq<EntryLocator>, n: nat)
    requires
        n <= locs.len(),
        forall|i: int| 0 <= i < locs.len() ==> metadata::fits(g, #[trigger] locs[i]),
    ensures
        metadata::set_sum(g, m, locs, n) is Some,
    decreases n,
{
    if n > 0 {
        lemma_summable(g, m, locs, (n - 1) as nat);
    }
}

/// Writing a sector of a taken cluster.
pub proof fn lemma_home_written(v: Volume, m: Media, free: u32, lba: u64, d: u32, data: Seq<u8>)
    requires
        regions::sound(v, m, free),
        regions::is_plain(v, m, d),
        in_cluster(v.geometry, lba, d),
        data.len() == v.geometry.bytes_per_sector,
    ensures
        regions::evolves(v, m, m.insert(lba, data), free, set![d]),
        regions::same_fat(v.geometry, m, m.insert(lba, data)),
        regions::same_used(v, m, m.insert(lba, data)),
        m[lba].len() == v.geometry.bytes_per_sector,
{
    let g = v.geometry;
    let s = lba - g.heap_lba(d as int);
    regions::lemma_sector(g, d, s);
    allocating::lemma_sector_written(v, m, free, d, s, data);
}

/// What recording a file's lengths and clusters leaves.
pub open spec fn recorded(g: Geometry, m: Media, f: FileModel) -> Media {
    let patched = m.insert(
        f.stream.lba,
        metadata::stream_patched(m[f.stream.lba], f.stream.offset as int, f),
    );
    patched.insert(
        f.primary.lba,
        bytes::splice(
            patched[f.primary.lba],
            f.primary.offset + 2,
            bytes::le16(metadata::set_sum(g, patched, f.locs, f.locs.len())->0),
        ),
    )
}

/// Recording a file's lengths and clusters in its entry set changes nothing
/// but the sectors of stream extension and primary entry.
pub proof fn lemma_recorded<E>(v: Volume, m: Media, free: u32, f: FileModel, d: u32, e: u32)
    requires
        regions::sound(v, m, free),
        stored_in(v, m, f, d, e),
    ensures
        ({
            let plan = metadata::update_plan::<E>(v, m, free, f);
            let m2 = plan.leaves(m);
            &&& plan.result == Ok::<(), Error<E>>(())
            &&& plan.free == free
            &&& m2 == recorded(v.geometry, m, f)
            &&& regions::evolves(v, m, m2, free, set![d, e])
            &&& regions::same_used(v, m, m2)
        }),
{
    let g = v.geometry;
    let plan = metadata::update_plan::<E>(v, m, free, f);
    let at = f.stream.lba;
    let data = metadata::stream_patched(m[at], f.stream.offset as int, f);
    let patch = metadata::sector_plan::<E>(free, at, data);
    lemma_home_length(v, m, free, at, d);
    lemma_home_written(v, m, free, at, d, data);
    device::lemma_applied_one(m, SectorWrite { lba: at, data });
    let m1 = patch.leaves(m);
    assert(m1 == m.insert(at, data));
    lemma_summable(g, m1, f.locs, f.locs.len());
    let sum = metadata::set_sum(g, m1, f.locs, f.locs.len())->0;
    let last = f.primary.lba;
    let sealed = bytes::splice(m1[last], f.primary.offset + 2, bytes::le16(sum));
    let seal = metadata::checksum_plan::<E>(v, m1, free, f.primary, f.locs);
    assert(regions::is_plain(v, m1, e));
    lemma_home_length(v, m1, free, last, e);
    lemma_home_written(v, m1, free, last, e, sealed);
    device::lemma_applied_one(m1, SectorWrite { lba: last, data: sealed });
    let m2 = seal.leaves(m1);
    assert(m2 == m1.insert(last, sealed));
    device::lemma_applied_concat(m, patch.writes, seal.writes);
    assert(plan.leaves(m) == m2);
    allocating::lemma_evolves_on(v, m, m1, m2, free, free, set![d], set![e], set![d, e]);
    assert forall|c: int| 2 <= c < g.cluster_count + 2 implies #[trigger] allocation::is_used(
        v,
        m2,
        c,
    ) == allocation::is_used(v, m, c) by {
        assert(allocation::is_used(v, m1, c) == allocation::is_used(v, m, c));
    }
}

/// A sector of a cluster has the sector size.
pub proof fn lemma_home_length(v: Volume, m: Media, free: u32, lba: u64, d: u32)
    requires
        regions::sound(v, m, free),
        in_cluster(v.geometry, lba, d),
    ensures
        m[lba].len() == v.geometry.bytes_per_sector,
{
    regions::lemma_sector(v.geometry, d, lba - v.geometry.heap_lba(d as int));
}

/// A handle with another position and visible length finds the same clusters.
pub proof fn lemma_relength(v: Volume, m: Media, f: FileModel, f2: FileModel)
    requires
        files::file_sound(v, m, f),
        f2 == (FileModel { position: f2.position, valid_length: f2.valid_length, ..f }),
        f2.valid_length <= f2.data_length,
    ensures
        files::file_sound(v, m, f2),
        files::owned(v.geometry, m, f2) == files::owned(v.geometry, m, f),
        forall|offset: int| #[trigger]
            files::content(v.geometry, m, f2, offset) == files::content(
                v.geometry,
                m,
                f,
                offset,
            ),
{
    let g = v.geometry;
    assert forall|i: int| #[trigger] files::cluster_at(g, m, f2, i) == files::cluster_at(
        g,
        m,
        f,
        i,
    ) by {}
    assert forall|i: int| 0 <= i < files::count_of(g, f2) implies (
    #[trigger] files::cluster_at(g, m, f2, i) matches Some(c) && regions::is_plain(v, m, c)
        && allocation::is_used(v, m, c as int) == Some(true)) by {
        assert(files::cluster_at(g, m, f, i) is Some);
    }
    assert forall|i: int, j: int|
        0 <= i < files::count_of(g, f2) && 0 <= j < files::count_of(g, f2)
            && #[trigger] files::cluster_at(g, m, f2, i) == #[trigger] files::cluster_at(
            g,
            m,
            f2,
            j,
        ) implies i == j by {
        assert(files::cluster_at(g, m, f, i) == files::cluster_at(g, m, f, j));
    }
    assert forall|c: u32| files::owned(g, m, f2).contains(c) == files::owned(g, m, f).contains(
        c,
    ) by {
        if files::owns(g, m, f, c) {
            let i = choose|i: int|
                0 <= i < files::count_of(g, f) && #[trigger] files::cluster_at(g, m, f, i) == Some(
                    c,
                );
            assert(files::cluster_at(g, m, f2, i) == Some(c));
        }
        if files::owns(g, m, f2, c) {
            let i = choose|i: int|
                0 <= i < files::count_of(g, f2) && #[trigger] files::cluster_at(g, m, f2, i)
                    == Some(c);
            assert(files::cluster_at(g, m, f, i) == Some(c));
        }
    }
    assert(files::owned(g, m, f2) =~= files::owned(g, m, f));
    assert forall|offset: int| #[trigger] files::content(g, m, f2, offset) == files::content(
        g,
        m,
        f,
        offset,
    ) by {
        assert(files::cluster_at(g, m, f2, offset / g.cluster_bytes()) == files::cluster_at(
            g,
            m,
            f,
            offset / g.cluster_bytes(),
        ));
    }
}

/// A taken cluster stays taken where it is left alone.
pub proof fn lemma_still_taken(v: Volume, m: Media, m2: Media, free: u32, touched: Set<u32>, d: u32)
    requires
        regions::sound(v, m, free),
        regions::changes_only(v, m, m2, touched),
        regions::same_system(v, m, m2),
        is_taken(v, m, d),
        !touched.contains(d),
    ensures
        is_taken(v, m2, d),
{
    regions::lemma_geometry(v.geometry);
    assert(allocation::is_used(v, m2, d as int) == allocation::is_used(v, m, d as int));
    assert(!regions::is_bitmap(v, m2, d) && !regions::is_table(v, m2, d));
}

/// Whether an append has succeeded: the file is longer by `data`, holds its
/// old bytes and then `data`, and has got only clusters that were free; apart
/// from them and the file's own, nothing but its entry set in `d` and `e` has
/// changed.
pub open spec fn has_appended(
    v: Volume,
    m: Media,
    m2: Media,
    free2: u32,
    f: FileModel,
    f2: FileModel,
    data: Seq<u8>,
    d: u32,
    e: u32,
) -> bool {
    let g = v.geometry;
    &&& files::file_sound(v, m2, f2)
    &&& f2.valid_length == f.valid_length + data.len()
    &&& f2.position == f2.valid_length
    &&& f2.locs == f.locs
    &&& f2.stream == f.stream
    &&& f2.primary == f.primary
    &&& f2.cache_behind(g)
    &&& stored_in(v, m2, f2, d, e)
    &&& regions::evolves(v, m, m2, free2, files::owned(g, m2, f2).union(set![d, e]))
    &&& forall|c: u32| #[trigger]
        files::owned(g, m2, f2).contains(c) ==> files::owned(g, m, f).contains(c)
            || allocation::is_used(v, m, c as int) == Some(false)
    &&& forall|offset: int|
        0 <= offset < f2.valid_length ==> #[trigger] files::content(g, m2, f2, offset)
            == if offset < f.valid_length {
            files::content(g, m, f, offset)
        } else {
            data[offset - f.valid_length]
        }
}

/// The writes of an append once the clusters are there, and what they leave.
proof fn lemma_written_behind<E>(
    v: Volume,
    m: Media,
    m1: Media,
    free: u32,
    free1: u32,
    f: FileModel,
    f1: FileModel,
    data: Seq<u8>,
    d: u32,
    e: u32,
)
    requires
        regions::sound(v, m, free),
        files::file_sound(v, m, f),
        f.cache is None,
        stored_in(v, m, f, d, e),
        growing::extends(v, m, m1, free, free1, f, f1),
        f.valid_length + data.len() <= f1.data_length,
    ensures
        ({
            let g = v.geometry;
            let ready = growth::at_end(f1, f.valid_length + data.len());
            let write = stream::write_plan::<E>(v, m1, free1, ready, data);
            let m2 = write.leaves(m1);
            let f2 = stream::write_file(v, m1, ready, data);
            &&& write.result == Ok::<(), Error<E>>(())
            &&& write.free == free1
            &&& has_appended(v, m, m2, free1, f, f2, data, d, e)
            &&& regions::evolves(v, m, m2, free1, files::owned(g, m2, f2))
        }),
{
    let g = v.geometry;
    let end = f.valid_length + data.len();
    let ready = growth::at_end(f1, end);
    let write = stream::write_plan::<E>(v, m1, free1, ready, data);
    let m2 = write.leaves(m1);
    let f2 = stream::write_file(v, m1, ready, data);
    regions::lemma_geometry(g);
    growing::lemma_extends_facts(v, m, m1, free, free1, f, f1);
    growing::lemma_extends_content(v, m, m1, free, free1, f, f1);
    lemma_relength(v, m1, f1, ready);
    files::lemma_written::<E>(v, m1, free1, ready, data);
    files::lemma_same_file(v, m1, ready, f2);
    files::lemma_same_file(v, m2, ready, f2);
    let old = files::owned(g, m1, f1);
    assert(files::owned(g, m2, f2) == old);
    assert(regions::evolves(v, m, m2, free1, old)) by {
        allocating::lemma_evolves_on(v, m, m1, m2, free1, free1, old, old, old);
    }
    assert(!old.contains(d) && !old.contains(e));
    lemma_still_taken(v, m, m2, free, old, d);
    lemma_still_taken(v, m, m2, free, old, e);
    assert(!files::owns(g, m2, f2, d)) by {
        assert(!files::owned(g, m2, f2).contains(d));
    }
    assert(!files::owns(g, m2, f2, e)) by {
        assert(!files::owned(g, m2, f2).contains(e));
    }
    files::lemma_wider(v, m, m2, free1, old, old.union(set![d, e]));
    assert forall|offset: int| 0 <= offset < end implies #[trigger] files::content(
        g,
        m2,
        f2,
        offset,
    ) == if offset < f.valid_length {
        files::content(g, m, f, offset)
    } else {
        data[offset - f.valid_length]
    } by {
        assert(files::content(g, m2, f2, offset) == files::content(g, m2, ready, offset));
        assert(files::content(g, m1, ready, offset) == files::content(g, m1, f1, offset));
        if offset < f.valid_length {
            assert(files::content(g, m1, f1, offset) == files::content(g, m, f, offset));
        }
    }
}

/// Recording the new length leaves the file's bytes alone.
proof fn lemma_recorded_behind<E>(
    v: Volume,
    m: Media,
    m2: Media,
    free2: u32,
    f: FileModel,
    f2: FileModel,
    data: Seq<u8>,
    d: u32,
    e: u32,
)
    requires
        has_appended(v, m, m2, free2, f, f2, data, d, e),
    ensures
        ({
            let update = metadata::update_plan::<E>(v, m2, free2, f2);
            let m3 = update.leaves(m2);
            &&& update.result == Ok::<(), Error<E>>(())
            &&& update.free == free2
            &&& m3 == recorded(v.geometry, m2, f2)
            &&& has_appended(v, m, m3, free2, f, f2, data, d, e)
        }),
{
    let g = v.geometry;
    let update = metadata::update_plan::<E>(v, m2, free2, f2);
    let m3 = update.leaves(m2);
    let homes = set![d, e];
    let all = files::owned(g, m2, f2);
    lemma_recorded::<E>(v, m2, free2, f2, d, e);
    assert(homes.disjoint(all)) by {
        assert forall|c: u32| homes.contains(c) implies !all.contains(c) by {}
    }
    files::law_untouched_file_keeps_its_bytes(v, m2, m3, f2, homes);
    allocating::lemma_evolves_on(
        v,
        m,
        m2,
        m3,
        free2,
        free2,
        all.union(homes),
        homes,
        all.union(homes),
    );
    regions::lemma_geometry(g);
    assert(is_taken(v, m3, d)) by {
        assert(allocation::is_used(v, m3, d as int) == allocation::is_used(v, m2, d as int));
        assert(!regions::is_bitmap(v, m3, d) && !regions::is_table(v, m3, d));
    }
    assert(is_taken(v, m3, e)) by {
        assert(allocation::is_used(v, m3, e as int) == allocation::is_used(v, m2, e as int));
        assert(!regions::is_bitmap(v, m3, e) && !regions::is_table(v, m3, e));
    }
    assert(!files::owns(g, m3, f2, d)) by {
        assert(!files::owned(g, m3, f2).contains(d));
    }
    assert(!files::owns(g, m3, f2, e)) by {
        assert(!files::owned(g, m3, f2).contains(e));
    }
    assert forall|offset: int| 0 <= offset < f2.valid_length implies #[trigger] files::content(
        g,
        m3,
        f2,
        offset,
    ) == if offset < f.valid_length {
        files::content(g, m, f, offset)
    } else {
        data[offset - f.valid_length]
    } by {
        assert(files::content(g, m3, f2, offset) == files::content(g, m2, f2, offset));
    }
}

/// What is appended to a file stands behind its old bytes, which stay as they
/// were. Appending succeeds as long as there are free clusters enough for what
/// the file lacks, and takes just as many; its own clusters, those taken and
/// the sectors of its entry set apart, nothing on the volume changes, and the
/// volume stays sound. Otherwise it reports that there is no space, and the
/// file keeps its length and bytes.
pub proof fn law_appended_bytes_read_back<E>(
    v: Volume,
    m: Media,
    free: u32,
    f: FileModel,
    data: Seq<u8>,
    d: u32,
    e: u32,
)
    requires
        regions::sound(v, m, free),
        files::file_sound(v, m, f),
        stored_in(v, m, f, d, e),
        0 < data.len() <= usize::MAX,
        f.valid_length + data.len() <= u64::MAX,
    ensures
        ({
            let g = v.geometry;
            let plan = growth::append_plan::<E>(v, m, free, f, data);
            let m2 = plan.leaves(m);
            let lacking = growing::lacking(g, f, f.valid_length + data.len());
            if lacking <= free {
                let f2 = growth::append_file::<E>(v, m, free, f, data);
                &&& plan.result == Ok::<usize, Error<E>>(data.len() as usize)
                &&& plan.free == free - lacking
                &&& has_appended(v, m, m2, plan.free, f, f2, data, d, e)
            } else {
                &&& plan.result == Err::<usize, Error<E>>(Error::NoSpace)
                &&& plan.free == 0
                &&& regions::sound(v, m2, 0)
                &&& files::file_sound(v, m2, f)
                &&& forall|offset: int|
                    0 <= offset < f.data_length ==> #[trigger] files::content(g, m2, f, offset)
                        == files::content(g, m, f, offset)
            }
        }),
{
    let g = v.geometry;
    let end = f.valid_length + data.len();
    let f0 = files::uncached(f);
    let plan = growth::append_plan::<E>(v, m, free, f, data);
    files::lemma_same_file(v, m, f, f0);
    assert(!files::owns(g, m, f0, d) && !files::owns(g, m, f0, e));
    growing::lemma_reserved::<E>(v, m, free, f0, end);
    let reserve = growth::reserve_plan::<E>(v, m, free, f0, end);
    let m1 = reserve.leaves(m);
    match reserve.result {
        Ok(f1) => {
            let ready = growth::at_end(f1, end);
            let write = stream::write_plan::<E>(v, m1, reserve.free, ready, data);
            let m2 = write.leaves(m1);
            let f2 = stream::write_file(v, m1, ready, data);
            lemma_written_behind::<E>(v, m, m1, free, reserve.free, f0, f1, data, d, e);
            lemma_recorded_behind::<E>(v, m, m2, reserve.free, f0, f2, data, d, e);
            let update = metadata::update_plan::<E>(v, m2, reserve.free, f2);
            let m3 = update.leaves(m2);
            device::lemma_applied_concat(m1, write.writes, update.writes);
            device::lemma_applied_concat(m, reserve.writes, write.writes + update.writes);
            assert(plan.writes =~= reserve.writes + (write.writes + update.writes));
            assert(plan.leaves(m) == m3);
            lemma_uncached_appended(v, m, m3, reserve.free, f, f2, data, d, e);
        },
        Err(_) => {
            let f1 = choose|f1: FileModel| #[trigger]
                growing::extends(v, m, m1, free, 0, f0, f1);
            growing::lemma_extends_facts(v, m, m1, free, 0, f0, f1);
            growing::lemma_old_handle(v, m, m1, free, 0, f, f1);
            assert(plan.writes == reserve.writes);
        },
    }
}

/// The media between the last byte that an append writes and the record of the
/// new length.
pub proof fn lemma_before_record<E>(
    v: Volume,
    m: Media,
    free: u32,
    f: FileModel,
    data: Seq<u8>,
    d: u32,
    e: u32,
) -> (m2: Media)
    requires
        regions::sound(v, m, free),
        files::file_sound(v, m, f),
        stored_in(v, m, f, d, e),
        0 < data.len() <= usize::MAX,
        f.valid_length + data.len() <= u64::MAX,
        growing::lacking(v.geometry, f, f.valid_length + data.len()) <= free,
    ensures
        ({
            let g = v.geometry;
            let plan = growth::append_plan::<E>(v, m, free, f, data);
            let f2 = growth::append_file::<E>(v, m, free, f, data);
            &&& plan.leaves(m) == recorded(g, m2, f2)
            &&& has_appended(v, m, m2, plan.free, f, f2, data, d, e)
            &&& regions::evolves(v, m, m2, plan.free, files::owned(g, m2, f2))
        }),
{
    let g = v.geometry;
    let end = f.valid_length + data.len();
    let f0 = files::uncached(f);
    let plan = growth::append_plan::<E>(v, m, free, f, data);
    files::lemma_same_file(v, m, f, f0);
    assert(!files::owns(g, m, f0, d) && !files::owns(g, m, f0, e));
    growing::lemma_reserved::<E>(v, m, free, f0, end);
    let reserve = growth::reserve_plan::<E>(v, m, free, f0, end);
    let m1 = reserve.leaves(m);
    let f1 = reserve.result->Ok_0;
    let ready = growth::at_end(f1, end);
    let write = stream::write_plan::<E>(v, m1, reserve.free, ready, data);
    let m2 = write.leaves(m1);
    let f2 = stream::write_file(v, m1, ready, data);
    lemma_written_behind::<E>(v, m, m1, free, reserve.free, f0, f1, data, d, e);
    lemma_recorded_behind::<E>(v, m, m2, reserve.free, f0, f2, data, d, e);
    let update = metadata::update_plan::<E>(v, m2, reserve.free, f2);
    device::lemma_applied_concat(m1, write.writes, update.writes);
    device::lemma_applied_concat(m, reserve.writes, write.writes + update.writes);
    assert(plan.writes =~= reserve.writes + (write.writes + update.writes));
    lemma_uncached_appended(v, m, m2, reserve.free, f, f2, data, d, e);
    m2
}

/// An append does not depend on what the handle remembers.
proof fn lemma_uncached_appended(
    v: Volume,
    m: Media,
    m2: Media,
    free2: u32,
    f: FileModel,
    f2: FileModel,
    data: Seq<u8>,
    d: u32,
    e: u32,
)
    requires
        has_appended(v, m, m2, free2, files::uncached(f), f2, data, d, e),
    ensures
        has_appended(v, m, m2, free2, f, f2, data, d, e),
{
    let g = v.geometry;
    let f0 = files::uncached(f);
    files::lemma_same_file(v, m, f, f0);
    assert forall|offset: int| 0 <= offset < f2.valid_length implies #[trigger] files::content(
        g,
        m2,
        f2,
        offset,
    ) == if offset < f.valid_length {
        files::content(g, m, f, offset)
    } else {
        data[offset - f.valid_length]
    } by {
        assert(files::content(g, m, f0, offset) == files::content(g, m, f, offset));
    }
}

/// Appending to one file leaves every other file alone: as long as they share
/// no clusters, and its entry set lies in none of the other's, the other file
/// stays sound and keeps its bytes.
pub proof fn law_append_leaves_other_files_alone(
    v: Volume,
    m: Media,
    m2: Media,
    free: u32,
    free2: u32,
    f: FileModel,
    f2: FileModel,
    data: Seq<u8>,
    d: u32,
    e: u32,
    other: FileModel,
)
    requires
        regions::sound(v, m, free),
        has_appended(v, m, m2, free2, f, f2, data, d, e),
        files::file_sound(v, m, other),
        files::owned(v.geometry, m, f).disjoint(files::owned(v.geometry, m, other)),
        !files::owns(v.geometry, m, other, d),
        !files::owns(v.geometry, m, other, e),
    ensures
        files::file_sound(v, m2, other),
        files::owned(v.geometry, m2, f2).disjoint(files::owned(v.geometry, m2, other)),
        forall|offset: int|
            0 <= offset < other.data_length ==> #[trigger] files::content(
                v.geometry,
                m2,
                other,
                offset,
            ) == files::content(v.geometry, m, other, offset),
{
    let g = v.geometry;
    let all = files::owned(g, m2, f2);
    let touched = all.union(set![d, e]);
    assert(touched.disjoint(files::owned(g, m, other))) by {
        assert forall|c: u32| files::owned(g, m, other).contains(c) implies !touched.contains(c) by {
            let i = choose|i: int|
                0 <= i < files::count_of(g, other) && #[trigger] files::cluster_at(
                    g,
                    m,
                    other,
                    i,
                ) == Some(c);
            assert(allocation::is_used(v, m, c as int) == Some(true));
            assert(files::owns(g, m, other, c));
        }
    }
    files::law_untouched_file_keeps_its_bytes(v, m, m2, other, touched);
}

} // verus!
