//! New clusters: they are cleared before anything refers to them.

use crate::bytes;
use crate::device;
use crate::device::{Media, SectorWrite};
use crate::directory::entry;
use crate::directory::entry::DirectoryModel;
use crate::fs::allocation;
use crate::fs::file::FileModel;
use crate::fs::growth;
use crate::fs::metadata;
use crate::fs::space;
use crate::geometry::Geometry;
use crate::laws::allocating;
use crate::laws::appending;
use crate::laws::directories;
use crate::laws::extents;
use crate::laws::files;
use crate::laws::growing;
use crate::laws::placing;
use crate::laws::regions;
use crate::laws::trails;
use crate::mount::Volume;
use vstd::prelude::*;

verus! {

/// Whether `lba` is a sector of cluster `c`.
pub open spec fn is_within(g: Geometry, c: u32, lba: u64) -> bool {
    g.heap_lba(c as int) <= lba < g.heap_lba(c as int) + g.sectors_per_cluster
}

/// The writes that record an allocation lie outside the cluster.
proof fn lemma_records_elsewhere<E>(v: Volume, m: Media, free: u32, c: u32)
    requires
        regions::sound(v, m, free),
        regions::is_plain(v, m, c),
    ensures
        ({
            let mark = allocation::set_bitmap_plan::<E>(v, m, free, c, true);
            let end = allocation::set_fat_plan::<E>(
                v,
                mark.leaves(m),
                mark.free,
                c,
                0xffff_ffff,
            );
            &&& forall|i: int|
                0 <= i < mark.writes.len() ==> !is_within(
                    v.geometry,
                    c,
                    (#[trigger] mark.writes[i]).lba,
                )
            &&& forall|i: int|
                0 <= i < end.writes.len() ==> !is_within(
                    v.geometry,
                    c,
                    (#[trigger] end.writes[i]).lba,
                )
        }),
{
    let g = v.geometry;
    regions::lemma_geometry(g);
    regions::lemma_slot(v, m, c as int);
    regions::lemma_fat_place(g, c);
    regions::lemma_sector(g, c, 0);
    let (lba, offset, bit) = allocation::bitmap_slot(v, m, c as int)->0;
    let byte = (c - 2) / 8;
    let s = byte % g.cluster_bytes() / (g.bytes_per_sector as int);
    let home = allocation::cluster_of(
        g,
        m,
        v.bitmap.first_cluster,
        byte / g.cluster_bytes(),
    )->0;
    assert(home != c);
    regions::lemma_sector(g, home, s);
    if is_within(g, c, lba) {
        let t = lba - g.heap_lba(c as int);
        regions::lemma_sector(g, c, t);
        regions::lemma_sectors_differ(g, home, s, c, t);
    }
}

/// Whether cluster `c` was cleared on `after` before anything else became
/// different from `m`: as long as not all its sectors hold zeros, no other
/// sector has changed.
pub open spec fn is_cleared_first(g: Geometry, m: Media, after: Media, c: u32) -> bool {
    ||| forall|lba: u64| !is_within(g, c, lba) ==> #[trigger] after[lba] == m[lba]
    ||| forall|s: int|
        0 <= s < g.sectors_per_cluster ==> #[trigger] regions::cluster_sector(g, after, c, s)
            == bytes::filled(g.bytes_per_sector as nat, 0)
}

/// An allocation, and then writes to other sectors.
proof fn lemma_cleared_first<E>(
    v: Volume,
    m: Media,
    free: u32,
    preferred: u32,
    later: Seq<SectorWrite>,
    after: Media,
)
    requires
        regions::sound(v, m, free),
        free > 0,
        ({
            let plan = allocation::allocate_plan::<E>(v, m, free, preferred);
            &&& device::interrupted(m, after, plan.writes + later)
            &&& forall|i: int|
                0 <= i < later.len() ==> !is_within(
                    v.geometry,
                    plan.result->Ok_0,
                    (#[trigger] later[i]).lba,
                )
        }),
    ensures
        is_cleared_first(
            v.geometry,
            m,
            after,
            allocation::allocate_plan::<E>(v, m, free, preferred).result->Ok_0,
        ),
{
    let g = v.geometry;
    let plan = allocation::allocate_plan::<E>(v, m, free, preferred);
    allocating::law_allocation_claims_a_free_cluster::<E>(v, m, free, preferred);
    let c = plan.result->Ok_0;
    let zero = allocation::zero_plan::<E>(g, free, c);
    let m1 = zero.leaves(m);
    let mark = allocation::set_bitmap_plan::<E>(v, m1, free, c, true);
    let end = allocation::set_fat_plan::<E>(v, mark.leaves(m1), mark.free, c, 0xffff_ffff);
    allocating::lemma_cluster_cleared::<E>(v, m, free, c);
    allocating::lemma_marked::<E>(v, m1, free, c, true);
    lemma_records_elsewhere::<E>(v, m1, free, c);
    let rest = mark.writes + end.writes + later;
    let all = plan.writes + later;
    assert(all =~= zero.writes + rest);
    let k = choose|k: int|
        0 <= k <= all.len() && #[trigger] device::stopped_at(m, after, all, k);
    let reached = device::applied(m, all.take(k));
    let n = g.sectors_per_cluster as int;
    g.lemma_heap_bounds(c);
    if k < n {
        assert forall|lba: u64| !is_within(g, c, lba) implies #[trigger] after[lba] == m[lba] by {
            device::lemma_applied_untouched(m, all.take(k), lba);
            assert(all[k] == zero.writes[k]);
            assert(after.remove(all[k].lba)[lba] == after[lba]);
            assert(reached.remove(all[k].lba)[lba] == reached[lba]);
        }
    } else {
        let done = rest.take(k - n);
        assert(all.take(k) =~= zero.writes + done);
        device::lemma_applied_concat(m, zero.writes, done);
        assert forall|s: int| 0 <= s < n implies #[trigger] regions::cluster_sector(g, after, c, s)
            == bytes::filled(g.bytes_per_sector as nat, 0) by {
            let lba = regions::sector_number(g, c, s);
            regions::lemma_sector(g, c, s);
            assert(is_within(g, c, lba));
            device::lemma_applied_untouched(m1, done, lba);
            assert(regions::cluster_sector(g, m1, c, s) == bytes::filled(
                g.bytes_per_sector as nat,
                0,
            ));
            if after != reached {
                assert(all[k] == rest[k - n]);
                assert(after.remove(all[k].lba)[lba] == after[lba]);
                assert(reached.remove(all[k].lba)[lba] == reached[lba]);
            }
        }
    }
}


/// A cluster that an allocation claims is cleared first. This holds wherever
/// the writes stop, and whatever the write at which they stop leaves in its
/// sector: as long as the cluster is not all zeros, neither bitmap nor FAT nor
/// any other sector has changed.
pub proof fn law_allocation_clears_first<E>(
    v: Volume,
    m: Media,
    free: u32,
    preferred: u32,
    after: Media,
)
    requires
        regions::sound(v, m, free),
        free > 0,
        device::interrupted(
            m,
            after,
            allocation::allocate_plan::<E>(v, m, free, preferred).writes,
        ),
    ensures
        is_cleared_first(
            v.geometry,
            m,
            after,
            allocation::allocate_plan::<E>(v, m, free, preferred).result->Ok_0,
        ),
{
    let writes = allocation::allocate_plan::<E>(v, m, free, preferred).writes;
    assert(writes + Seq::<SectorWrite>::empty() =~= writes);
    lemma_cleared_first::<E>(v, m, free, preferred, Seq::empty(), after);
}

/// Whether all of `writes` go to sectors before the heap.
pub open spec fn are_before_heap(g: Geometry, writes: Seq<SectorWrite>) -> bool {
    forall|i: int|
        0 <= i < writes.len() ==> (#[trigger] writes[i]).lba < g.partition.first_lba
            + g.cluster_heap_offset
}

/// Linking clusters writes to the FAT.
proof fn lemma_links_before_heap<E>(v: Volume, m: Media, free: u32, first: int, count: nat)
    requires
        regions::apart(v.geometry),
        2 <= first,
        first + count <= v.geometry.cluster_count + 2,
    ensures
        are_before_heap(
            v.geometry,
            growth::link_plan::<E>(v, m, free, first, count).writes,
        ),
    decreases count,
{
    if count > 0 && first + 1 <= u32::MAX {
        let c = first as u32;
        let set = allocation::set_fat_plan::<E>(v, m, free, c, (first + 1) as u32);
        assert(v.geometry.fat_holds(c));
        regions::lemma_fat_place(v.geometry, c);
        lemma_links_before_heap::<E>(
            v,
            set.leaves(m),
            free,
            first + 1,
            (count - 1) as nat,
        );
    }
}

/// Joining a cluster to a file writes to the FAT.
proof fn lemma_join_before_heap<E>(
    v: Volume,
    m: Media,
    free: u32,
    f: FileModel,
    tail: u32,
    new: u32,
)
    requires
        growing::can_join(v, m, free, f, tail, new),
    ensures
        are_before_heap(v.geometry, growth::join_plan::<E>(v, m, free, f, tail, new).writes),
{
    let g = v.geometry;
    let n = files::count_of(g, f);
    regions::lemma_geometry(g);
    growing::lemma_count(g, f);
    assert(regions::is_plain(v, m, tail));
    regions::lemma_fat_place(g, tail);
    if f.no_fat_chain && n > 1 {
        growing::lemma_contiguous(v, m, f);
        files::lemma_first_in_heap(v, m, f);
        assert(files::cluster_at(g, m, f, n - 1) is Some);
        lemma_links_before_heap::<E>(v, m, free, f.first_cluster as int, (n - 1) as nat);
    }
}

/// The cluster by which a file grows is cleared before anything records its
/// allocation, wherever the growth stops.
pub proof fn law_file_growth_clears_first<E>(
    v: Volume,
    m: Media,
    free: u32,
    f: FileModel,
    after: Media,
)
    requires
        regions::sound(v, m, free),
        files::file_sound(v, m, f),
        f.cache is None,
        free > 0,
        device::interrupted(m, after, growth::extend_plan::<E>(v, m, free, f).writes),
    ensures
        ({
            let g = v.geometry;
            let plan = growth::extend_plan::<E>(v, m, free, f);
            let m2 = plan.leaves(m);
            &&& plan.result matches Ok(f2)
            &&& files::cluster_at(g, m2, f2, files::count_of(g, f)) matches Some(c)
            &&& is_cleared_first(g, m, after, c)
        }),
{
    reveal(growth::extend_plan);
    let g = v.geometry;
    let n = files::count_of(g, f);
    let plan = growth::extend_plan::<E>(v, m, free, f);
    regions::lemma_geometry(g);
    growing::lemma_count(g, f);
    growing::lemma_tail::<E>(v, m, f);
    growing::lemma_extended::<E>(v, m, free, f);
    if n > 0 {
        assert(files::cluster_at(g, m, f, n - 1) is Some);
    }
    let tail = growth::tail_result::<E>(g, m, f)->Ok_0;
    let preferred = match tail {
        Some(last) => (last + 1) as u32,
        None => 2u32,
    };
    let take = allocation::allocate_plan::<E>(v, m, free, preferred);
    let m1 = take.leaves(m);
    allocating::law_allocation_claims_a_free_cluster::<E>(v, m, free, preferred);
    let new = take.result->Ok_0;
    regions::lemma_sector(g, new, 0);
    match tail {
        Some(last) => {
            let join = growth::join_plan::<E>(v, m1, take.free, f, last, new);
            growing::lemma_joinable(v, m, m1, free, take.free, f, last, new);
            growing::lemma_joined::<E>(v, m1, take.free, f, last, new);
            lemma_join_before_heap::<E>(v, m1, take.free, f, last, new);
            device::lemma_applied_concat(m, take.writes, join.writes);
            assert(plan.writes =~= take.writes + join.writes);
            lemma_cleared_first::<E>(v, m, free, preferred, join.writes, after);
        },
        None => {
            assert(plan.writes =~= take.writes);
            law_allocation_clears_first::<E>(v, m, free, preferred, after);
        },
    }
}

/// A sector of one cluster is none of another.
proof fn lemma_not_within(g: Geometry, lba: u64, d: u32, c: u32)
    requires
        regions::apart(g),
        appending::in_cluster(g, lba, d),
        g.in_heap(c),
        c != d,
    ensures
        !is_within(g, c, lba),
{
    if is_within(g, c, lba) {
        let s = lba - g.heap_lba(d as int);
        let t = lba - g.heap_lba(c as int);
        regions::lemma_sector(g, d, s);
        regions::lemma_sector(g, c, t);
        regions::lemma_sectors_differ(g, d, s, c, t);
    }
}

/// Recording that a directory grew writes to the entry set that names it.
proof fn lemma_record_elsewhere<E>(
    v: Volume,
    m: Media,
    m2: Media,
    free: u32,
    free2: u32,
    above: Seq<Seq<char>>,
    d: DirectoryModel,
    n: int,
    new: u32,
)
    requires
        regions::sound(v, m, free),
        placing::reaches::<E>(v, m, above, d, n),
        v.geometry.in_heap(new),
        allocation::is_used(v, m, new as int) == Some(false),
    ensures
        ({
            let writes = space::record_plan::<E>(v, m2, free2, d).writes;
            &&& writes.len() <= 2
            &&& above.len() == 0 ==> writes.len() == 0
            &&& forall|i: int|
                0 <= i < writes.len() ==> !is_within(v.geometry, new, (#[trigger] writes[i]).lba)
        }),
{
    let g = v.geometry;
    let root = entry::root_model(g);
    if above.len() > 0 {
        let up = trails::last_dir::<E>(v, m, root, above);
        let i = placing::lemma_registered::<E>(v, m, free, up, above.last(), d);
        let d2 = space::longer(g, d);
        assert(directories::is_housed(v, m, d.locs[0].lba));
        assert(directories::is_housed(v, m, d.locs[1].lba));
        lemma_not_within(g, d.locs[0].lba, directories::home(g, d.locs[0].lba), new);
        lemma_not_within(g, d.locs[1].lba, directories::home(g, d.locs[1].lba), new);
    }
}

/// The cluster by which a directory grows is cleared before anything refers to
/// it, bitmap, FAT or entry set, wherever the growth stops.
pub proof fn law_directory_growth_clears_first<E>(
    v: Volume,
    m: Media,
    free: u32,
    above: Seq<Seq<char>>,
    d: DirectoryModel,
    n: int,
    after: Media,
)
    requires
        regions::sound(v, m, free),
        placing::reaches::<E>(v, m, above, d, n),
        extents::is_chain(v, m, d, n),
        free > 0,
        device::interrupted(
            m,
            after,
            space::grow_plan::<E>(v, m, free, d, extents::link(v.geometry, m, d, n - 1)).writes,
        ),
    ensures
        ({
            let plan = space::grow_plan::<E>(
                v,
                m,
                free,
                d,
                extents::link(v.geometry, m, d, n - 1),
            );
            &&& plan.result matches Ok(c)
            &&& is_cleared_first(v.geometry, m, after, c)
        }),
{
    reveal(space::grow_plan);
    let g = v.geometry;
    let tail = extents::link(g, m, d, n - 1);
    let plan = space::grow_plan::<E>(v, m, free, d, tail);
    let take = allocation::allocate_plan::<E>(v, m, free, (tail + 1) as u32);
    let m1 = take.leaves(m);
    placing::lemma_grown_at::<E>(v, m, free, above, d, n);
    allocating::law_allocation_claims_a_free_cluster::<E>(v, m, free, (tail + 1) as u32);
    let new = take.result->Ok_0;
    let link = allocation::set_fat_plan::<E>(v, m1, take.free, tail, new);
    let m2 = link.leaves(m1);
    let lba = space::last_lba(g, tail);
    let open = metadata::sector_plan::<E>(take.free, lba, space::filled_up(m2[lba]));
    let m3 = open.leaves(m2);
    let record = space::record_plan::<E>(v, m3, take.free, d);
    let later = link.writes + open.writes + record.writes;
    assert(plan.writes =~= take.writes + later);
    lemma_tail_elsewhere(v, m, d, n, new);
    lemma_record_elsewhere::<E>(v, m, m3, free, take.free, above, d, n, new);
    assert forall|i: int| 0 <= i < later.len() implies !is_within(
        g,
        new,
        (#[trigger] later[i]).lba,
    ) by {
        if i >= 2 {
            assert(later[i] == record.writes[i - 2]);
        }
    }
    lemma_cleared_first::<E>(v, m, free, (tail + 1) as u32, later, after);
}

/// Linking a directory to a new cluster, and letting readers go on into it,
/// writes to sectors elsewhere.
proof fn lemma_tail_elsewhere(v: Volume, m: Media, d: DirectoryModel, n: int, new: u32)
    requires
        regions::apart(v.geometry),
        extents::is_chain(v, m, d, n),
        v.geometry.in_heap(new),
        allocation::is_used(v, m, new as int) == Some(false),
    ensures
        ({
            let tail = extents::link(v.geometry, m, d, n - 1);
            &&& !is_within(v.geometry, new, v.geometry.fat_lba(tail))
            &&& !is_within(v.geometry, new, space::last_lba(v.geometry, tail))
        }),
{
    reveal(extents::is_chain);
    let g = v.geometry;
    let tail = extents::link(g, m, d, n - 1);
    regions::lemma_geometry(g);
    assert(allocation::chain_at(g, m, d.first_cluster, (n - 1) as nat) is Some);
    regions::lemma_fat_place(g, tail);
    regions::lemma_sector(g, new, 0);
    regions::lemma_sector(g, tail, g.sectors_per_cluster - 1);
    lemma_not_within(g, space::last_lba(g, tail), tail, new);
}

} // verus!
