//! Files of a sound volume: which clusters they own, and what writing within
//! them does.

use crate::arith;
use crate::device;
use crate::device::{Media, SectorWrite};
use crate::directory::slots;
use crate::error::Error;
use crate::fs::allocation;
use crate::fs::file::FileModel;
use crate::fs::release;
use crate::fs::state::Plan;
use crate::fs::stream;
use crate::geometry::Geometry;
use crate::laws::allocating;
use crate::laws::reading;
use crate::laws::regions;
use crate::mount::Volume;
use vstd::prelude::*;

verus! {

/// A handle that remembers no cluster.
pub open spec fn uncached(f: FileModel) -> FileModel {
    FileModel { cache: None, ..f }
}

/// Number of clusters of a file.
pub open spec fn count_of(g: Geometry, f: FileModel) -> int {
    release::clusters_for(g, f.data_length as int)
}

/// Cluster number `i` of a file.
pub open spec fn cluster_at(g: Geometry, media: Media, f: FileModel, i: int) -> Option<u32> {
    stream::file_cluster(g, media, uncached(f), i)
}

/// Whether `c` is a cluster of a file.
pub open spec fn owns(g: Geometry, media: Media, f: FileModel, c: u32) -> bool {
    exists|i: int| 0 <= i < count_of(g, f) && #[trigger] cluster_at(g, media, f, i) == Some(c)
}

/// The clusters of a file.
pub open spec fn owned(g: Geometry, media: Media, f: FileModel) -> Set<u32> {
    Set::new(|c: u32| owns(g, media, f, c))
}

/// Byte `offset` of a file.
pub open spec fn content(g: Geometry, media: Media, f: FileModel, offset: int) -> u8 {
    stream::file_byte(g, media, uncached(f), offset)
}

/// Whether the cluster that a handle remembers is one of the file.
pub open spec fn cache_true(g: Geometry, media: Media, f: FileModel) -> bool {
    !f.no_fat_chain ==> (f.cache matches Some((index, cluster)) ==> {
        &&& index < count_of(g, f)
        &&& allocation::chain_at(g, media, f.first_cluster, index as nat) == Some(cluster)
    })
}

/// Whether a file is in order: it has a cluster of its own for every part of
/// its allocated length, marked as used, and nothing in them is shared with
/// bitmap or UpCase table.
pub open spec fn file_sound(v: Volume, media: Media, f: FileModel) -> bool {
    let g = v.geometry;
    &&& forall|i: int|
        0 <= i < count_of(g, f) ==> (#[trigger] cluster_at(g, media, f, i) matches Some(c)
            && regions::is_plain(v, media, c) && allocation::is_used(v, media, c as int) == Some(
            true,
        ))
    &&& forall|i: int, j: int|
        0 <= i < count_of(g, f) && 0 <= j < count_of(g, f) && #[trigger] cluster_at(g, media, f, i)
            == #[trigger] cluster_at(g, media, f, j) ==> i == j
    &&& f.valid_length <= f.data_length
    &&& f.first_cluster == 0 <==> f.data_length == 0
    &&& cache_true(g, media, f)
}

/// How a byte of a file is found: cluster by cluster, sector by sector.
pub proof fn lemma_offset(g: Geometry, f: FileModel, offset: int)
    requires
        regions::apart(g),
        0 <= offset < f.data_length,
    ensures
        0 <= offset / g.cluster_bytes() < count_of(g, f),
        0 <= offset % g.cluster_bytes() / (g.bytes_per_sector as int) < g.sectors_per_cluster,
        0 <= offset % (g.bytes_per_sector as int) < g.bytes_per_sector,
        offset % g.cluster_bytes() % (g.bytes_per_sector as int) == offset % (
        g.bytes_per_sector as int),
        offset == g.cluster_bytes() * (offset / g.cluster_bytes()) + g.bytes_per_sector * (offset
            % g.cluster_bytes() / (g.bytes_per_sector as int)) + offset % (g.bytes_per_sector as int),
{
    let cb = g.cluster_bytes();
    let size = g.bytes_per_sector as int;
    arith::lemma_stream_offset(offset, size, g.sectors_per_cluster as int);
    vstd::arithmetic::div_mod::lemma_fundamental_div_mod(offset, cb);
    vstd::arithmetic::div_mod::lemma_fundamental_div_mod(offset % cb, size);
    vstd::arithmetic::div_mod::lemma_div_is_ordered(offset, f.data_length - 1, cb);
    vstd::arithmetic::div_mod::lemma_div_pos_is_pos(offset, cb);
}

/// Where a byte of a sound file lies.
pub proof fn lemma_placed(v: Volume, m: Media, f: FileModel, offset: int)
    requires
        regions::apart(v.geometry),
        file_sound(v, m, f),
        0 <= offset < f.data_length,
    ensures
        ({
            let g = v.geometry;
            let i = offset / g.cluster_bytes();
            let s = offset % g.cluster_bytes() / (g.bytes_per_sector as int);
            let at = offset % (g.bytes_per_sector as int);
            &&& cluster_at(g, m, f, i) matches Some(c)
            &&& owns(g, m, f, c)
            &&& regions::is_plain(v, m, c)
            &&& stream::file_place(g, m, uncached(f), offset) == Some(
                (regions::sector_number(g, c, s), at),
            )
            &&& content(g, m, f, offset) == regions::cluster_sector(g, m, c, s)[at]
        }),
{
    let g = v.geometry;
    lemma_offset(g, f, offset);
    let c = cluster_at(g, m, f, offset / g.cluster_bytes())->0;
    regions::lemma_sector(g, c, offset % g.cluster_bytes() / (g.bytes_per_sector as int));
}

/// A cluster that a handle remembers does not change which clusters it finds.
pub proof fn lemma_cached(g: Geometry, m: Media, f: FileModel, i: int)
    requires
        cache_true(g, m, f),
        count_of(g, f) > 0 && !f.no_fat_chain ==> g.in_heap(f.first_cluster),
    ensures
        stream::file_cluster(g, m, f, i) == cluster_at(g, m, f, i),
{
    if 0 <= i < g.cluster_count && !f.no_fat_chain && f.cache is Some {
        reading::law_cache_is_transparent(g, m, f, i);
        reading::law_cache_is_transparent(g, m, uncached(f), i);
    }
}

/// The first cluster of a sound file is one of the heap.
pub proof fn lemma_first_in_heap(v: Volume, m: Media, f: FileModel)
    requires
        file_sound(v, m, f),
    ensures
        count_of(v.geometry, f) > 0 ==> v.geometry.in_heap(f.first_cluster),
{
    if count_of(v.geometry, f) > 0 {
        assert(cluster_at(v.geometry, m, f, 0) is Some);
    }
}

/// What the bytes of a sound file are, whatever its handle remembers.
pub proof fn lemma_content(v: Volume, m: Media, f: FileModel, offset: int)
    requires
        file_sound(v, m, f),
    ensures
        stream::file_place(v.geometry, m, f, offset) == stream::file_place(
            v.geometry,
            m,
            uncached(f),
            offset,
        ),
        stream::file_byte(v.geometry, m, f, offset) == content(v.geometry, m, f, offset),
{
    lemma_first_in_heap(v, m, f);
    lemma_cached(v.geometry, m, f, offset / v.geometry.cluster_bytes());
}

/// The clusters of a file are found where the FAT entries of all but the last
/// of them are kept.
pub proof fn lemma_clusters_kept(
    v: Volume,
    m: Media,
    m2: Media,
    f: FileModel,
    touched: Set<u32>,
    i: int,
)
    requires
        file_sound(v, m, f),
        regions::apart(v.geometry),
        regions::fat_kept(v.geometry, m, m2, touched),
        0 <= i < count_of(v.geometry, f),
        forall|j: int|
            0 <= j < i ==> !touched.contains((#[trigger] cluster_at(v.geometry, m, f, j))->0),
    ensures
        cluster_at(v.geometry, m2, f, i) == cluster_at(v.geometry, m, f, i),
{
    let g = v.geometry;
    lemma_first_in_heap(v, m, f);
    assert(cluster_at(g, m, f, i) is Some);
    if !f.no_fat_chain {
        let first = f.first_cluster;
        assert forall|j: nat|
            j < i && g.fat_holds((#[trigger] allocation::chain_at(g, m, first, j))->0)
                && allocation::chain_at(g, m, first, j) is Some implies slots::fat_entry(
            g,
            m2,
            allocation::chain_at(g, m, first, j)->0,
        ) == slots::fat_entry(g, m, allocation::chain_at(g, m, first, j)->0) by {
            assert(cluster_at(g, m, f, j as int) == allocation::chain_at(g, m, first, j));
        }
        regions::lemma_chain_same(g, m, m2, first, i as nat);
    }
}

/// A file whose clusters are all left alone is as sound as it was, owns the
/// same clusters and holds the same bytes, whatever else on the volume
/// changes.
pub proof fn law_untouched_file_keeps_its_bytes(
    v: Volume,
    m: Media,
    m2: Media,
    f: FileModel,
    touched: Set<u32>,
)
    requires
        regions::apart(v.geometry),
        file_sound(v, m, f),
        regions::changes_only(v, m, m2, touched),
        regions::same_system(v, m, m2),
        touched.disjoint(owned(v.geometry, m, f)),
    ensures
        file_sound(v, m2, f),
        owned(v.geometry, m2, f) == owned(v.geometry, m, f),
        forall|offset: int|
            0 <= offset < f.data_length ==> #[trigger] content(v.geometry, m2, f, offset)
                == content(v.geometry, m, f, offset),
{
    let g = v.geometry;
    regions::lemma_geometry(g);
    assert forall|i: int| 0 <= i < count_of(g, f) implies !touched.contains(
        (#[trigger] cluster_at(g, m, f, i))->0,
    ) by {
        assert(owns(g, m, f, cluster_at(g, m, f, i)->0));
        assert(owned(g, m, f).contains(cluster_at(g, m, f, i)->0));
    }
    assert forall|i: int| 0 <= i < count_of(g, f) implies #[trigger] cluster_at(g, m2, f, i)
        == cluster_at(g, m, f, i) by {
        lemma_clusters_kept(v, m, m2, f, touched, i);
    }
    lemma_owned_same(g, m, m2, f);
    lemma_cache_kept(v, m, m2, f);
    assert forall|i: int| 0 <= i < count_of(g, f) implies (
    #[trigger] cluster_at(g, m2, f, i) matches Some(c) && regions::is_plain(v, m2, c)
        && allocation::is_used(v, m2, c as int) == Some(true)) by {
        let c = cluster_at(g, m, f, i)->0;
        assert(!regions::is_bitmap(v, m2, c) && !regions::is_table(v, m2, c));
        assert(allocation::is_used(v, m2, c as int) == allocation::is_used(v, m, c as int));
    }
    assert(file_sound(v, m2, f)) by {
        assert forall|i: int, j: int|
            0 <= i < count_of(g, f) && 0 <= j < count_of(g, f) && #[trigger] cluster_at(
                g,
                m2,
                f,
                i,
            ) == #[trigger] cluster_at(g, m2, f, j) implies i == j by {
            assert(cluster_at(g, m, f, i) == cluster_at(g, m, f, j));
        }
    }
    assert forall|offset: int| 0 <= offset < f.data_length implies #[trigger] content(
        g,
        m2,
        f,
        offset,
    ) == content(g, m, f, offset) by {
        lemma_offset(g, f, offset);
        lemma_placed(v, m, f, offset);
        lemma_placed(v, m2, f, offset);
        let i = offset / g.cluster_bytes();
        let s = offset % g.cluster_bytes() / (g.bytes_per_sector as int);
        let c = cluster_at(g, m, f, i)->0;
        assert(regions::same_cluster(g, m, m2, c));
        assert(regions::cluster_sector(g, m2, c, s) == regions::cluster_sector(g, m, c, s));
    }
}

/// Files with the same clusters own the same clusters.
proof fn lemma_owned_same(g: Geometry, m: Media, m2: Media, f: FileModel)
    requires
        forall|i: int|
            0 <= i < count_of(g, f) ==> #[trigger] cluster_at(g, m2, f, i) == cluster_at(
                g,
                m,
                f,
                i,
            ),
    ensures
        owned(g, m2, f) == owned(g, m, f),
        forall|c: u32| #[trigger] owns(g, m2, f, c) == owns(g, m, f, c),
{
    assert forall|c: u32| #[trigger] owns(g, m2, f, c) == owns(g, m, f, c) by {
        if owns(g, m, f, c) {
            let i = choose|i: int|
                0 <= i < count_of(g, f) && #[trigger] cluster_at(g, m, f, i) == Some(c);
            assert(cluster_at(g, m2, f, i) == Some(c));
        }
        if owns(g, m2, f, c) {
            let i = choose|i: int|
                0 <= i < count_of(g, f) && #[trigger] cluster_at(g, m2, f, i) == Some(c);
            assert(cluster_at(g, m, f, i) == Some(c));
        }
    }
    assert(owned(g, m2, f) =~= owned(g, m, f));
}

/// A remembered cluster is still the right one where the file's clusters are
/// the same.
pub proof fn lemma_cache_kept(v: Volume, m: Media, m2: Media, f: FileModel)
    requires
        file_sound(v, m, f),
        forall|i: int|
            0 <= i < count_of(v.geometry, f) ==> #[trigger] cluster_at(v.geometry, m2, f, i)
                == cluster_at(v.geometry, m, f, i),
    ensures
        cache_true(v.geometry, m2, f),
{
    let g = v.geometry;
    if !f.no_fat_chain {
        if let Some((index, cluster)) = f.cache {
            lemma_first_in_heap(v, m, f);
            assert(cluster_at(g, m, f, index as int) is Some);
            assert(cluster_at(g, m2, f, index as int) == cluster_at(g, m, f, index as int));
        }
    }
}

/// Handles of the same file find the same clusters.
pub proof fn lemma_same_file(v: Volume, m: Media, f: FileModel, f2: FileModel)
    requires
        stream::same_file(f, f2),
    ensures
        count_of(v.geometry, f2) == count_of(v.geometry, f),
        forall|i: int| #[trigger]
            cluster_at(v.geometry, m, f2, i) == cluster_at(v.geometry, m, f, i),
        owned(v.geometry, m, f2) == owned(v.geometry, m, f),
        forall|c: u32| #[trigger] owns(v.geometry, m, f2, c) == owns(v.geometry, m, f, c),
        forall|offset: int| #[trigger]
            content(v.geometry, m, f2, offset) == content(v.geometry, m, f, offset),
        file_sound(v, m, f) && cache_true(v.geometry, m, f2) ==> file_sound(v, m, f2),
{
    let g = v.geometry;
    assert forall|i: int| #[trigger] cluster_at(g, m, f2, i) == cluster_at(g, m, f, i) by {}
    assert forall|c: u32| #[trigger] owns(g, m, f2, c) == owns(g, m, f, c) by {
        if owns(g, m, f, c) {
            let i = choose|i: int|
                0 <= i < count_of(g, f) && #[trigger] cluster_at(g, m, f, i) == Some(c);
            assert(cluster_at(g, m, f2, i) == Some(c));
        }
        if owns(g, m, f2, c) {
            let i = choose|i: int|
                0 <= i < count_of(g, f2) && #[trigger] cluster_at(g, m, f2, i) == Some(c);
            assert(cluster_at(g, m, f, i) == Some(c));
        }
    }
    assert(owned(g, m, f2) =~= owned(g, m, f));
    assert forall|offset: int| #[trigger] content(g, m, f2, offset) == content(g, m, f, offset) by {
        assert(cluster_at(g, m, f2, offset / g.cluster_bytes()) == cluster_at(
            g,
            m,
            f,
            offset / g.cluster_bytes(),
        ));
    }
    if file_sound(v, m, f) && cache_true(g, m, f2) {
        assert forall|i: int| 0 <= i < count_of(g, f2) implies (
        #[trigger] cluster_at(g, m, f2, i) matches Some(c) && regions::is_plain(v, m, c)
            && allocation::is_used(v, m, c as int) == Some(true)) by {
            assert(cluster_at(g, m, f, i) is Some);
        }
        assert forall|i: int, j: int|
            0 <= i < count_of(g, f2) && 0 <= j < count_of(g, f2) && #[trigger] cluster_at(
                g,
                m,
                f2,
                i,
            ) == #[trigger] cluster_at(g, m, f2, j) implies i == j by {
            assert(cluster_at(g, m, f, i) == cluster_at(g, m, f, j));
        }
    }
}

/// Passing bytes leaves a handle that remembers the right cluster.
pub proof fn lemma_advanced_sound(v: Volume, m: Media, f: FileModel, count: int)
    requires
        regions::apart(v.geometry),
        file_sound(v, m, f),
        f.cache_behind(v.geometry),
        0 <= count,
        f.position + count <= f.data_length,
    ensures
        ({
            let f2 = stream::advanced(v.geometry, m, f, count);
            &&& file_sound(v, m, f2)
            &&& f2.cache_behind(v.geometry)
            &&& stream::same_file(f, f2)
            &&& f2.position == f.position + count
        }),
{
    let g = v.geometry;
    let f2 = stream::advanced(g, m, f, count);
    if count > 0 {
        let last = f.position + count - 1;
        lemma_offset(g, f, last);
        lemma_content(v, m, f, last);
        lemma_placed(v, m, f, last);
        stream::lemma_advanced(g, m, f, count, f.position + count);
        lemma_first_in_heap(v, m, f);
        let wanted = last / g.cluster_bytes();
        lemma_cached(g, m, f, wanted);
        let cluster = cluster_at(g, m, f, wanted)->0;
        assert(cache_true(g, m, f2)) by {
            if !f.no_fat_chain {
                assert(f2.cache == Some((wanted as u64, cluster)));
                lemma_wanted_fits(g, f, last);
                assert(allocation::chain_at(g, m, f.first_cluster, wanted as nat) == Some(cluster));
            }
        }
        lemma_same_file(v, m, f, f2);
    }
}

/// The number of a cluster of a file fits in 64 bits.
proof fn lemma_wanted_fits(g: Geometry, f: FileModel, offset: int)
    requires
        regions::apart(g),
        0 <= offset < f.data_length,
    ensures
        0 <= offset / g.cluster_bytes() <= u64::MAX,
{
    regions::lemma_geometry(g);
    vstd::arithmetic::div_mod::lemma_div_is_ordered_by_denominator(offset, 1, g.cluster_bytes());
    vstd::arithmetic::div_mod::lemma_div_pos_is_pos(offset, g.cluster_bytes());
}

/// Whether the bytes of a file from `from` on have become `data`, and all its
/// other bytes are as they were.
pub open spec fn overwritten(
    g: Geometry,
    m: Media,
    m2: Media,
    f: FileModel,
    from: int,
    data: Seq<u8>,
) -> bool {
    forall|offset: int|
        0 <= offset < f.data_length ==> #[trigger] content(g, m2, f, offset) == if from <= offset
            < from + data.len() {
            data[offset - from]
        } else {
            content(g, m, f, offset)
        }
}

/// Writing the part of `data` that lies in one sector.
pub proof fn lemma_part_written(v: Volume, m: Media, free: u32, f: FileModel, data: Seq<u8>)
    requires
        regions::sound(v, m, free),
        file_sound(v, m, f),
        f.cache_behind(v.geometry),
        data.len() > 0,
        f.position + data.len() <= f.data_length,
    ensures
        ({
            let g = v.geometry;
            let count = stream::in_sector(g, f.position as int, data.len() as int);
            let (lba, at) = stream::file_place(g, m, f, f.position as int)->0;
            let write = SectorWrite {
                lba,
                data: stream::written(g, m[lba], at, data.take(count)),
            };
            let m2 = device::applied(m, seq![write]);
            let f2 = stream::advanced(g, m, f, count);
            &&& stream::file_place(g, m, f, f.position as int) is Some
            &&& 0 < count <= data.len()
            &&& regions::evolves(v, m, m2, free, owned(g, m, f))
            &&& regions::same_fat(g, m, m2)
            &&& regions::same_used(v, m, m2)
            &&& file_sound(v, m2, f)
            &&& owned(g, m2, f) == owned(g, m, f)
            &&& file_sound(v, m2, f2)
            &&& f2.cache_behind(g)
            &&& stream::same_file(f, f2)
            &&& f2.position == f.position + count
            &&& overwritten(g, m, m2, f, f.position as int, data.take(count))
        }),
{
    let g = v.geometry;
    let size = g.bytes_per_sector as int;
    let cb = g.cluster_bytes();
    let pos = f.position as int;
    let count = stream::in_sector(g, pos, data.len() as int);
    let part = data.take(count);
    regions::lemma_geometry(g);
    lemma_offset(g, f, pos);
    lemma_placed(v, m, f, pos);
    lemma_content(v, m, f, pos);
    let i = pos / cb;
    let s = pos % cb / size;
    let at = pos % size;
    let c = cluster_at(g, m, f, i)->0;
    let lba = regions::sector_number(g, c, s);
    regions::lemma_sector(g, c, s);
    assert(m[lba].len() == size);
    let sector = stream::written(g, m[lba], at, part);
    let write = SectorWrite { lba, data: sector };
    device::lemma_applied_one(m, write);
    let m2 = device::applied(m, seq![write]);
    allocating::lemma_sector_written(v, m, free, c, s, sector);
    assert(m2 == m.insert(lba, sector));
    lemma_wider(v, m, m2, free, set![c], owned(g, m, f));
    assert forall|k: int| 0 <= k < count_of(g, f) implies #[trigger] cluster_at(g, m2, f, k)
        == cluster_at(g, m, f, k) by {
        lemma_clusters_kept(v, m, m2, f, Set::<u32>::empty(), k);
    }
    lemma_owned_same(g, m, m2, f);
    lemma_cache_kept(v, m, m2, f);
    lemma_still_sound(v, m, m2, f);
    let f2 = stream::advanced(g, m, f, count);
    lemma_advanced_sound(v, m, f, count);
    lemma_advanced_same(v, m, m2, f, count);
    lemma_advanced_sound(v, m2, f, count);
    assert forall|offset: int| 0 <= offset < f.data_length implies #[trigger] content(
        g,
        m2,
        f,
        offset,
    ) == if pos <= offset < pos + part.len() {
        part[offset - pos]
    } else {
        content(g, m, f, offset)
    } by {
        lemma_offset(g, f, offset);
        lemma_placed(v, m, f, offset);
        lemma_placed(v, m2, f, offset);
        let k = offset / cb;
        let t = offset % cb / size;
        let d = cluster_at(g, m, f, k)->0;
        if k == i {
            if t != s {
                assert(regions::cluster_sector(g, m2, c, t) == regions::cluster_sector(
                    g,
                    m,
                    c,
                    t,
                ));
                lemma_other_sector(t, s, offset % size, at, size);
            }
        } else {
            assert(d != c);
            assert(regions::same_cluster(g, m, m2, d));
            assert(regions::cluster_sector(g, m2, d, t) == regions::cluster_sector(g, m, d, t));
            lemma_other_cluster(g, pos, offset);
        }
    }
}

/// Bytes of different sectors are a sector apart, but for where they lie in
/// them.
proof fn lemma_other_sector(t: int, s: int, a: int, b: int, size: int)
    requires
        t != s,
        0 <= a < size,
        0 <= b < size,
    ensures
        size * t + a >= size * s + size || size * t + a < size * s,
{
    assert(t > s ==> size * t >= size * s + size) by (nonlinear_arith)
        requires
            size > 0,
    ;
    assert(t < s ==> size * t + size <= size * s) by (nonlinear_arith)
        requires
            size > 0,
    ;
}

/// Bytes of different clusters do not lie in one sector.
proof fn lemma_other_cluster(g: Geometry, a: int, b: int)
    requires
        regions::apart(g),
        0 <= a,
        0 <= b,
        a / g.cluster_bytes() != b / g.cluster_bytes(),
    ensures
        b < a - a % (g.bytes_per_sector as int) || b >= a - a % (g.bytes_per_sector as int)
            + g.bytes_per_sector,
{
    let size = g.bytes_per_sector as int;
    let per = g.sectors_per_cluster as int;
    arith::lemma_stream_offset(a, size, per);
    arith::lemma_stream_offset(b, size, per);
    lemma_other_sector(b / size, a / size, b % size, a % size, size);
}

/// A wider set of touched clusters.
pub proof fn lemma_wider(
    v: Volume,
    m: Media,
    m2: Media,
    free: u32,
    touched: Set<u32>,
    wider: Set<u32>,
)
    requires
        regions::evolves(v, m, m2, free, touched),
        touched.subset_of(wider),
    ensures
        regions::evolves(v, m, m2, free, wider),
{
}

/// A file whose clusters are still its own is still sound.
proof fn lemma_still_sound(v: Volume, m: Media, m2: Media, f: FileModel)
    requires
        regions::apart(v.geometry),
        file_sound(v, m, f),
        regions::same_used(v, m, m2),
        regions::same_system(v, m, m2),
        cache_true(v.geometry, m2, f),
        forall|i: int|
            0 <= i < count_of(v.geometry, f) ==> #[trigger] cluster_at(v.geometry, m2, f, i)
                == cluster_at(v.geometry, m, f, i),
    ensures
        file_sound(v, m2, f),
{
    let g = v.geometry;
    regions::lemma_geometry(g);
    assert forall|i: int| 0 <= i < count_of(g, f) implies (
    #[trigger] cluster_at(g, m2, f, i) matches Some(c) && regions::is_plain(v, m2, c)
        && allocation::is_used(v, m2, c as int) == Some(true)) by {
        let c = cluster_at(g, m, f, i)->0;
        assert(!regions::is_bitmap(v, m2, c) && !regions::is_table(v, m2, c));
        assert(allocation::is_used(v, m2, c as int) == allocation::is_used(v, m, c as int));
    }
    assert forall|i: int, j: int|
        0 <= i < count_of(g, f) && 0 <= j < count_of(g, f) && #[trigger] cluster_at(g, m2, f, i)
            == #[trigger] cluster_at(g, m2, f, j) implies i == j by {
        assert(cluster_at(g, m, f, i) == cluster_at(g, m, f, j));
    }
}

/// Passing bytes is the same wherever the file's clusters are.
proof fn lemma_advanced_same(v: Volume, m: Media, m2: Media, f: FileModel, count: int)
    requires
        regions::apart(v.geometry),
        file_sound(v, m, f),
        file_sound(v, m2, f),
        0 <= count,
        f.position + count <= f.data_length,
        forall|i: int|
            0 <= i < count_of(v.geometry, f) ==> #[trigger] cluster_at(v.geometry, m2, f, i)
                == cluster_at(v.geometry, m, f, i),
    ensures
        stream::advanced(v.geometry, m2, f, count) == stream::advanced(v.geometry, m, f, count),
{
    let g = v.geometry;
    if count > 0 {
        let last = f.position + count - 1;
        lemma_offset(g, f, last);
        lemma_first_in_heap(v, m, f);
        lemma_cached(g, m, f, last / g.cluster_bytes());
        lemma_cached(g, m2, f, last / g.cluster_bytes());
    }
}

/// Whether a write of `data` at a handle's position has left the volume sound
/// and changed the file's bytes there, and nothing else.
pub open spec fn has_written<E>(
    v: Volume,
    m: Media,
    free: u32,
    f: FileModel,
    data: Seq<u8>,
    plan: Plan<(), E>,
) -> bool {
    let g = v.geometry;
    let m2 = plan.leaves(m);
    &&& plan.result == Ok::<(), Error<E>>(())
    &&& plan.free == free
    &&& regions::evolves(v, m, m2, free, owned(g, m, f))
    &&& regions::same_fat(g, m, m2)
    &&& regions::same_used(v, m, m2)
    &&& file_sound(v, m2, f)
    &&& owned(g, m2, f) == owned(g, m, f)
    &&& overwritten(g, m, m2, f, f.position as int, data)
}

/// Writing within the allocated length of a sound file.
pub proof fn lemma_written<E>(v: Volume, m: Media, free: u32, f: FileModel, data: Seq<u8>)
    requires
        regions::sound(v, m, free),
        file_sound(v, m, f),
        f.cache_behind(v.geometry),
        f.position + data.len() <= f.data_length,
    ensures
        has_written(v, m, free, f, data, stream::write_plan::<E>(v, m, free, f, data)),
        ({
            let m2 = stream::write_plan::<E>(v, m, free, f, data).leaves(m);
            let f2 = stream::write_file(v, m, f, data);
            &&& stream::same_file(f, f2)
            &&& f2.position == f.position + data.len()
            &&& f2.cache_behind(v.geometry)
            &&& file_sound(v, m2, f2)
        }),
    decreases data.len(),
{
    let g = v.geometry;
    let plan = stream::write_plan::<E>(v, m, free, f, data);
    if data.len() == 0 {
        assert(plan.leaves(m) == m);
        lemma_unchanged(v, m, free, owned(g, m, f));
        lemma_nothing_to_write(v, m, f, data);
    } else {
        let count = stream::in_sector(g, f.position as int, data.len() as int);
        lemma_part_written(v, m, free, f, data);
        let (lba, at) = stream::file_place(g, m, f, f.position as int)->0;
        let write = SectorWrite { lba, data: stream::written(g, m[lba], at, data.take(count)) };
        let step = Plan::<(), E>::write(free, write, Ok(()));
        let m1 = step.leaves(m);
        let f1 = stream::advanced(g, m, f, count);
        let rest = data.skip(count);
        lemma_written::<E>(v, m1, free, f1, rest);
        let next = stream::write_plan::<E>(v, m1, free, f1, rest);
        assert(plan == step.and(next));
        device::lemma_applied_concat(m, step.writes, next.writes);
        lemma_written_on::<E>(v, m, m1, free, f, f1, count, data, plan, next);
    }
}

/// Writing on after a first part.
proof fn lemma_written_on<E>(
    v: Volume,
    m: Media,
    m1: Media,
    free: u32,
    f: FileModel,
    f1: FileModel,
    count: int,
    data: Seq<u8>,
    plan: Plan<(), E>,
    next: Plan<(), E>,
)
    requires
        regions::sound(v, m, free),
        file_sound(v, m, f),
        regions::evolves(v, m, m1, free, owned(v.geometry, m, f)),
        regions::same_fat(v.geometry, m, m1),
        regions::same_used(v, m, m1),
        owned(v.geometry, m1, f) == owned(v.geometry, m, f),
        stream::same_file(f, f1),
        f1.position == f.position + count,
        0 <= count <= data.len(),
        overwritten(v.geometry, m, m1, f, f.position as int, data.take(count)),
        has_written(v, m1, free, f1, data.skip(count), next),
        plan.leaves(m) == next.leaves(m1),
        plan.result == next.result,
        plan.free == next.free,
    ensures
        has_written(v, m, free, f, data, plan),
{
    let g = v.geometry;
    let m2 = next.leaves(m1);
    let all = owned(g, m, f);
    lemma_same_file(v, m1, f, f1);
    assert(regions::evolves(v, m, m2, free, all)) by {
        allocating::lemma_evolves_on(v, m, m1, m2, free, free, all, all, all);
    }
    assert(regions::same_fat(g, m, m2)) by {
        assert forall|c: u32| g.fat_holds(c) implies #[trigger] slots::fat_entry(g, m2, c)
            == slots::fat_entry(g, m, c) by {
            assert(slots::fat_entry(g, m1, c) == slots::fat_entry(g, m, c));
        }
    }
    assert(regions::same_used(v, m, m2)) by {
        assert forall|c: int| 2 <= c < g.cluster_count + 2 implies #[trigger] allocation::is_used(
            v,
            m2,
            c,
        ) == allocation::is_used(v, m, c) by {
            assert(allocation::is_used(v, m1, c) == allocation::is_used(v, m, c));
        }
    }
    assert forall|k: int| 0 <= k < count_of(g, f) implies #[trigger] cluster_at(g, m2, f, k)
        == cluster_at(g, m, f, k) by {
        lemma_clusters_kept(v, m, m2, f, Set::<u32>::empty(), k);
    }
    assert(file_sound(v, m2, f)) by {
        lemma_cache_kept(v, m, m2, f);
        lemma_still_sound(v, m, m2, f);
    }
    lemma_owned_same(g, m, m2, f);
    assert(overwritten(g, m, m2, f, f.position as int, data)) by {
        assert forall|offset: int| 0 <= offset < f.data_length implies #[trigger] content(
            g,
            m2,
            f,
            offset,
        ) == if f.position <= offset < f.position + data.len() {
            data[offset - f.position]
        } else {
            content(g, m, f, offset)
        } by {
            lemma_same_file(v, m2, f, f1);
            assert(content(g, m2, f1, offset) == content(g, m2, f, offset));
            assert(content(g, m1, f1, offset) == content(g, m1, f, offset));
        }
    }
}

/// A write of nothing leaves the handle alone.
proof fn lemma_nothing_to_write(v: Volume, m: Media, f: FileModel, data: Seq<u8>)
    requires
        data.len() == 0,
    ensures
        stream::write_file(v, m, f, data) == f,
{
}

/// What does not change is unchanged.
pub proof fn lemma_unchanged(v: Volume, m: Media, free: u32, touched: Set<u32>)
    requires
        regions::sound(v, m, free),
    ensures
        regions::evolves(v, m, m, free, touched),
{
    regions::lemma_front_still(v.geometry, m);
}

/// Writing within a file's visible length moves none of its clusters.
proof fn lemma_written_within<E>(v: Volume, m: Media, free: u32, f: FileModel, data: Seq<u8>)
    requires
        regions::sound(v, m, free),
        file_sound(v, m, f),
        f.cache_behind(v.geometry),
        data.len() <= usize::MAX,
    ensures
        ({
            let g = v.geometry;
            let plan = stream::write_within_plan::<E>(v, m, free, f, data);
            let m2 = plan.leaves(m);
            let count = stream::transfer(f, data.len());
            &&& plan.result == Ok::<usize, Error<E>>(count as usize)
            &&& plan.free == free
            &&& regions::evolves(v, m, m2, free, owned(g, m, f))
            &&& file_sound(v, m2, f)
            &&& forall|k: int|
                0 <= k < count_of(g, f) ==> #[trigger] cluster_at(g, m2, f, k) == cluster_at(
                    g,
                    m,
                    f,
                    k,
                )
            &&& forall|offset: int|
                0 <= offset < f.valid_length ==> #[trigger] content(g, m2, f, offset)
                    == if f.position <= offset < f.position + count {
                    data[offset - f.position]
                } else {
                    content(g, m, f, offset)
                }
        }),
{
    let g = v.geometry;
    let count = stream::transfer(f, data.len());
    let part = data.take(count);
    let write = stream::write_plan::<E>(v, m, free, f, part);
    let plan = stream::write_within_plan::<E>(v, m, free, f, data);
    let m2 = write.leaves(m);
    assert(plan.writes =~= write.writes);
    if count == 0 {
        assert(m2 == m);
        lemma_unchanged(v, m, free, owned(g, m, f));
    } else {
        lemma_written::<E>(v, m, free, f, part);
        assert forall|k: int| 0 <= k < count_of(g, f) implies #[trigger] cluster_at(g, m2, f, k)
            == cluster_at(g, m, f, k) by {
            lemma_clusters_kept(v, m, m2, f, Set::<u32>::empty(), k);
        }
        lemma_cache_kept(v, m, m2, f);
        lemma_same_file(v, m2, stream::write_file(v, m, f, part), f);
    }
}

/// What a write within a file's visible length has written is read back by
/// any sound handle of that file; all its other bytes, its clusters, every
/// other part of the volume and the free-cluster count stay as they were. The
/// write succeeds, and stops at the end of the file.
pub proof fn law_written_bytes_read_back<E>(
    v: Volume,
    m: Media,
    free: u32,
    f: FileModel,
    data: Seq<u8>,
    reader: FileModel,
    offset: int,
)
    requires
        regions::sound(v, m, free),
        file_sound(v, m, f),
        f.cache_behind(v.geometry),
        data.len() <= usize::MAX,
        stream::same_file(f, reader),
        cache_true(v.geometry, m, reader),
        0 <= offset < f.valid_length,
    ensures
        ({
            let g = v.geometry;
            let plan = stream::write_within_plan::<E>(v, m, free, f, data);
            let m2 = plan.leaves(m);
            let count = stream::transfer(f, data.len());
            &&& plan.result == Ok::<usize, Error<E>>(count as usize)
            &&& plan.free == free
            &&& regions::evolves(v, m, m2, free, owned(g, m, f))
            &&& file_sound(v, m2, reader)
            &&& forall|k: int|
                0 <= k < count_of(g, reader) ==> #[trigger] cluster_at(g, m2, reader, k)
                    == cluster_at(g, m, reader, k)
            &&& stream::file_place(g, m2, reader, offset) is Some
            &&& stream::file_byte(g, m2, reader, offset) == if f.position <= offset < f.position
                + count {
                data[offset - f.position]
            } else {
                stream::file_byte(g, m, reader, offset)
            }
        }),
{
    let g = v.geometry;
    let m2 = stream::write_within_plan::<E>(v, m, free, f, data).leaves(m);
    lemma_written_within::<E>(v, m, free, f, data);
    lemma_same_file(v, m, f, reader);
    lemma_same_file(v, m2, f, reader);
    assert forall|k: int| 0 <= k < count_of(g, reader) implies #[trigger] cluster_at(
        g,
        m2,
        reader,
        k,
    ) == cluster_at(g, m, reader, k) by {
        assert(cluster_at(g, m2, f, k) == cluster_at(g, m, f, k));
    }
    lemma_cache_kept(v, m, m2, reader);
    lemma_content(v, m, reader, offset);
    lemma_content(v, m2, reader, offset);
    lemma_placed(v, m2, reader, offset);
    assert(content(g, m2, f, offset) == content(g, m2, reader, offset));
    assert(content(g, m, f, offset) == content(g, m, reader, offset));
}

} // verus!
