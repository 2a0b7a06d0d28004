//! Stopping on the way: what is left when an operation is cut off between its
//! writes.

use crate::device;
use crate::device::{Media, SectorWrite};
use crate::directory::codec;
use crate::directory::entry;
use crate::directory::slots;
use crate::error::Error;
use crate::fs::allocation;
use crate::fs::file::FileModel;
use crate::fs::growth;
use crate::fs::listing;
use crate::fs::lookup;
use crate::fs::metadata;
use crate::fs::paths;
use crate::fs::state::Plan;
use crate::fs::stream;
use crate::geometry::Geometry;
use crate::laws::allocating;
use crate::laws::appending;
use crate::laws::clearing;
use crate::laws::directories;
use crate::laws::files;
use crate::laws::growing;
use crate::laws::regions;
use crate::laws::remounting;
use crate::laws::reopening;
use crate::laws::systems;
use crate::laws::trails;
use crate::mount::Volume;
use vstd::prelude::*;

verus! {

/// The clusters that appending to the file `f` may change: those that no one
/// uses, and its own.
pub open spec fn reach(v: Volume, media: Media, f: FileModel) -> Set<u32> {
    Set::new(
        |c: u32|
            v.geometry.in_heap(c) && (allocation::is_used(v, media, c as int) == Some(false)
                || files::owns(v.geometry, media, f, c)),
    )
}

/// What `media` holds in the place of byte `offset` of the file that `f` is on
/// `old`.
pub open spec fn held(g: Geometry, old: Media, f: FileModel, media: Media, offset: int) -> u8 {
    let c = files::cluster_at(g, old, f, offset / g.cluster_bytes())->0;
    let s = offset % g.cluster_bytes() / (g.bytes_per_sector as int);
    regions::cluster_sector(g, media, c, s)[offset % (g.bytes_per_sector as int)]
}

/// Whether the change from `m` to `m2` leaves the file that `f` is on `old` as
/// it is: the links between its clusters, and its valid bytes. Nor does it
/// touch anything but the clusters in reach.
#[verifier::opaque]
pub open spec fn keeps(v: Volume, old: Media, f: FileModel, m: Media, m2: Media) -> bool {
    let g = v.geometry;
    &&& regions::changes_only(v, m, m2, reach(v, old, f))
    &&& regions::same_system(v, m, m2)
    &&& !f.no_fat_chain ==> forall|i: int|
        0 <= i < files::count_of(g, f) - 1 ==> slots::fat_entry(
            g,
            m2,
            (#[trigger] files::cluster_at(g, old, f, i))->0,
        ) == slots::fat_entry(g, m, files::cluster_at(g, old, f, i)->0)
    &&& forall|offset: int|
        0 <= offset < f.valid_length ==> #[trigger] held(g, old, f, m2, offset) == held(
            g,
            old,
            f,
            m,
            offset,
        )
}

/// No change keeps a file.
proof fn lemma_keeps_still(v: Volume, old: Media, f: FileModel, m: Media)
    ensures
        keeps(v, old, f, m, m),
{
    reveal(keeps);
    regions::lemma_front_still(v.geometry, m);
}

/// Two changes that keep a file.
proof fn lemma_keeps_on(v: Volume, old: Media, f: FileModel, m1: Media, m2: Media, m3: Media)
    requires
        keeps(v, old, f, m1, m2),
        keeps(v, old, f, m2, m3),
    ensures
        keeps(v, old, f, m1, m3),
{
    reveal(keeps);
    let g = v.geometry;
    let all = reach(v, old, f);
    regions::lemma_front_on(g, m1, m2, m3);
    assert forall|c: u32| g.fat_holds(c) && !all.contains(c) implies #[trigger] slots::fat_entry(
        g,
        m3,
        c,
    ) == slots::fat_entry(g, m1, c) by {
        assert(slots::fat_entry(g, m2, c) == slots::fat_entry(g, m1, c));
    }
    assert forall|c: u32|
        g.in_heap(c) && !all.contains(c) && !regions::is_bitmap(v, m1, c) implies
        #[trigger] regions::same_cluster(g, m1, m3, c) by {
        assert(!regions::is_bitmap(v, m2, c));
        assert(regions::same_cluster(g, m1, m2, c));
        assert(regions::same_cluster(g, m2, m3, c));
        growing::lemma_same_cluster_on(g, m1, m2, m3, c);
    }
    assert forall|c: int|
        2 <= c < g.cluster_count + 2 && !all.contains(c as u32) implies
        #[trigger] allocation::is_used(v, m3, c) == allocation::is_used(v, m1, c) by {
        assert(allocation::is_used(v, m2, c) == allocation::is_used(v, m1, c));
    }
    assert forall|c: u32| #[trigger] regions::is_bitmap(v, m3, c) == regions::is_bitmap(v, m1, c) by {
        assert(regions::is_bitmap(v, m2, c) == regions::is_bitmap(v, m1, c));
    }
    assert forall|c: u32| #[trigger] regions::is_table(v, m3, c) == regions::is_table(v, m1, c) by {
        assert(regions::is_table(v, m2, c) == regions::is_table(v, m1, c));
    }
    assert forall|offset: int| 0 <= offset < f.valid_length implies #[trigger] held(
        g,
        old,
        f,
        m3,
        offset,
    ) == held(g, old, f, m1, offset) by {
        assert(held(g, old, f, m2, offset) == held(g, old, f, m1, offset));
    }
}

/// Whether a file is kept wherever `writes` stop.
pub open spec fn is_calm(
    v: Volume,
    old: Media,
    f: FileModel,
    m: Media,
    writes: Seq<SectorWrite>,
) -> bool {
    forall|k: int|
        0 <= k <= writes.len() ==> keeps(
            v,
            old,
            f,
            m,
            device::applied(m, #[trigger] writes.take(k)),
        )
}

/// Calm writes keep the file when all are done.
proof fn lemma_calm_end(v: Volume, old: Media, f: FileModel, m: Media, writes: Seq<SectorWrite>)
    requires
        is_calm(v, old, f, m, writes),
    ensures
        keeps(v, old, f, m, device::applied(m, writes)),
{
    assert(writes.take(writes.len() as int) =~= writes);
}

/// No write, or a single one.
proof fn lemma_calm_short(v: Volume, old: Media, f: FileModel, m: Media, writes: Seq<SectorWrite>)
    requires
        writes.len() <= 1,
        keeps(v, old, f, m, device::applied(m, writes)),
    ensures
        is_calm(v, old, f, m, writes),
{
    assert forall|k: int| 0 <= k <= writes.len() implies keeps(
        v,
        old,
        f,
        m,
        device::applied(m, #[trigger] writes.take(k)),
    ) by {
        if k == writes.len() {
            assert(writes.take(k) =~= writes);
        } else {
            assert(writes.take(k) =~= Seq::<SectorWrite>::empty());
            lemma_keeps_still(v, old, f, m);
        }
    }
}

/// Calm writes, one run after the other.
proof fn lemma_calm_concat(
    v: Volume,
    old: Media,
    f: FileModel,
    m: Media,
    head: Seq<SectorWrite>,
    tail: Seq<SectorWrite>,
)
    requires
        is_calm(v, old, f, m, head),
        is_calm(v, old, f, device::applied(m, head), tail),
    ensures
        is_calm(v, old, f, m, head + tail),
{
    let all = head + tail;
    assert forall|k: int| 0 <= k <= all.len() implies keeps(
        v,
        old,
        f,
        m,
        device::applied(m, #[trigger] all.take(k)),
    ) by {
        if k <= head.len() {
            assert(all.take(k) =~= head.take(k));
        } else {
            let rest = tail.take(k - head.len());
            assert(all.take(k) =~= head + rest);
            device::lemma_applied_concat(m, head, rest);
            lemma_calm_end(v, old, f, m, head);
            lemma_keeps_on(
                v,
                old,
                f,
                m,
                device::applied(m, head),
                device::applied(device::applied(m, head), rest),
            );
        }
    }
}

/// The clusters of the old file, as later media know them.
proof fn lemma_old_cluster(v: Volume, old: Media, f: FileModel, m: Media, i: int)
    requires
        regions::apart(v.geometry),
        files::file_sound(v, old, f),
        regions::same_system(v, old, m),
        0 <= i < files::count_of(v.geometry, f),
    ensures
        files::cluster_at(v.geometry, old, f, i) is Some,
        regions::is_plain(v, m, files::cluster_at(v.geometry, old, f, i)->0),
        files::owns(v.geometry, old, f, files::cluster_at(v.geometry, old, f, i)->0),
        v.geometry.fat_holds(files::cluster_at(v.geometry, old, f, i)->0),
{
    regions::lemma_geometry(v.geometry);
    assert(files::cluster_at(v.geometry, old, f, i) is Some);
    let c = files::cluster_at(v.geometry, old, f, i)->0;
    assert(regions::is_bitmap(v, m, c) == regions::is_bitmap(v, old, c));
    assert(regions::is_table(v, m, c) == regions::is_table(v, old, c));
}

/// A change to a cluster that is not the file's own.
proof fn lemma_beside(
    v: Volume,
    old: Media,
    f: FileModel,
    m: Media,
    m2: Media,
    free2: u32,
    c: u32,
)
    requires
        regions::apart(v.geometry),
        files::file_sound(v, old, f),
        regions::same_system(v, old, m),
        regions::evolves(v, m, m2, free2, set![c]),
        reach(v, old, f).contains(c),
        !files::owns(v.geometry, old, f, c),
    ensures
        keeps(v, old, f, m, m2),
{
    reveal(keeps);
    let g = v.geometry;
    files::lemma_wider(v, m, m2, free2, set![c], reach(v, old, f));
    assert forall|i: int| 0 <= i < files::count_of(g, f) - 1 implies slots::fat_entry(
        g,
        m2,
        (#[trigger] files::cluster_at(g, old, f, i))->0,
    ) == slots::fat_entry(g, m, files::cluster_at(g, old, f, i)->0) by {
        lemma_old_cluster(v, old, f, m, i);
    }
    assert forall|offset: int| 0 <= offset < f.valid_length implies #[trigger] held(
        g,
        old,
        f,
        m2,
        offset,
    ) == held(g, old, f, m, offset) by {
        files::lemma_offset(g, f, offset);
        let i = offset / g.cluster_bytes();
        let s = offset % g.cluster_bytes() / (g.bytes_per_sector as int);
        lemma_old_cluster(v, old, f, m, i);
        let d = files::cluster_at(g, old, f, i)->0;
        assert(regions::same_cluster(g, m, m2, d));
        assert(regions::cluster_sector(g, m2, d, s) == regions::cluster_sector(g, m, d, s));
    }
}

/// A change to the FAT that leaves the links between the file's clusters alone.
proof fn lemma_links_kept(
    v: Volume,
    old: Media,
    f: FileModel,
    m: Media,
    m2: Media,
    free2: u32,
    touched: Set<u32>,
)
    requires
        regions::apart(v.geometry),
        files::file_sound(v, old, f),
        regions::same_system(v, old, m),
        regions::evolves(v, m, m2, free2, touched),
        growing::only_fat(v, m, m2),
        touched.subset_of(reach(v, old, f)),
        f.no_fat_chain || forall|i: int|
            0 <= i < files::count_of(v.geometry, f) - 1 ==> !touched.contains(
                (#[trigger] files::cluster_at(v.geometry, old, f, i))->0,
            ),
    ensures
        keeps(v, old, f, m, m2),
{
    reveal(keeps);
    let g = v.geometry;
    files::lemma_wider(v, m, m2, free2, touched, reach(v, old, f));
    if !f.no_fat_chain {
        assert forall|i: int| 0 <= i < files::count_of(g, f) - 1 implies slots::fat_entry(
            g,
            m2,
            (#[trigger] files::cluster_at(g, old, f, i))->0,
        ) == slots::fat_entry(g, m, files::cluster_at(g, old, f, i)->0) by {
            lemma_old_cluster(v, old, f, m, i);
        }
    }
    assert forall|offset: int| 0 <= offset < f.valid_length implies #[trigger] held(
        g,
        old,
        f,
        m2,
        offset,
    ) == held(g, old, f, m, offset) by {
        files::lemma_offset(g, f, offset);
        let i = offset / g.cluster_bytes();
        let s = offset % g.cluster_bytes() / (g.bytes_per_sector as int);
        lemma_old_cluster(v, old, f, m, i);
        let d = files::cluster_at(g, old, f, i)->0;
        assert(regions::same_cluster(g, m, m2, d));
        assert(regions::cluster_sector(g, m2, d, s) == regions::cluster_sector(g, m, d, s));
    }
}

/// Clearing a cluster that is not the file's own, as far as it got.
proof fn lemma_clearing_calm(v: Volume, old: Media, f: FileModel, m: Media, free: u32, c: u32)
    requires
        regions::sound(v, m, free),
        files::file_sound(v, old, f),
        regions::same_system(v, old, m),
        regions::is_plain(v, m, c),
        reach(v, old, f).contains(c),
        !files::owns(v.geometry, old, f, c),
    ensures
        is_calm(v, old, f, m, allocation::zero_writes(v.geometry, c, 0)),
{
    let g = v.geometry;
    let writes = allocation::zero_writes(g, c, 0);
    g.lemma_heap_bounds(c);
    assert forall|k: int| 0 <= k <= writes.len() implies keeps(
        v,
        old,
        f,
        m,
        device::applied(m, #[trigger] writes.take(k)),
    ) by {
        let done = writes.take(k);
        let m2 = device::applied(m, done);
        assert forall|lba: u64| !clearing::is_within(g, c, lba) implies #[trigger] m2[lba] == m[lba] by {
            device::lemma_applied_untouched(m, done, lba);
        }
        assert forall|s: int| 0 <= s < g.sectors_per_cluster implies (
        #[trigger] regions::cluster_sector(g, m2, c, s)).len() == g.bytes_per_sector by {
            regions::lemma_sector(g, c, s);
            let lba = regions::sector_number(g, c, s);
            if s < k {
                assert(done[s].lba == lba);
                device::lemma_applied_last(m, done, s);
            } else {
                device::lemma_applied_untouched(m, done, lba);
                assert(m[lba].len() == g.bytes_per_sector);
            }
        }
        allocating::lemma_cluster_written(v, m, m2, free, c);
        lemma_beside(v, old, f, m, m2, free, c);
    }
}

/// Which media know the same system clusters, one step on.
proof fn lemma_system_on(v: Volume, m1: Media, m2: Media, m3: Media)
    requires
        regions::same_system(v, m1, m2),
        regions::same_system(v, m2, m3),
    ensures
        regions::same_system(v, m1, m3),
{
    assert forall|c: u32| #[trigger] regions::is_bitmap(v, m3, c) == regions::is_bitmap(v, m1, c) by {
        assert(regions::is_bitmap(v, m2, c) == regions::is_bitmap(v, m1, c));
    }
    assert forall|c: u32| #[trigger] regions::is_table(v, m3, c) == regions::is_table(v, m1, c) by {
        assert(regions::is_table(v, m2, c) == regions::is_table(v, m1, c));
    }
}

/// Claiming a free cluster.
pub proof fn lemma_claim_calm<E>(v: Volume, old: Media, f: FileModel, m: Media, free: u32, c: u32)
    requires
        regions::sound(v, m, free),
        files::file_sound(v, old, f),
        regions::same_system(v, old, m),
        v.geometry.in_heap(c),
        allocation::is_used(v, m, c as int) == Some(false),
        reach(v, old, f).contains(c),
        !files::owns(v.geometry, old, f, c),
    ensures
        is_calm(v, old, f, m, allocation::take_plan::<E>(v, m, free, c).writes),
{
    let g = v.geometry;
    let plan = allocation::take_plan::<E>(v, m, free, c);
    let zero = allocation::zero_plan::<E>(g, free, c);
    let m1 = zero.leaves(m);
    allocating::lemma_unused_is_plain(v, m, free, c);
    lemma_clearing_calm(v, old, f, m, free, c);
    allocating::lemma_cluster_cleared::<E>(v, m, free, c);
    lemma_system_on(v, old, m, m1);
    let mark = allocation::set_bitmap_plan::<E>(v, m1, free, c, true);
    let m2 = mark.leaves(m1);
    allocating::lemma_marked::<E>(v, m1, free, c, true);
    lemma_beside(v, old, f, m1, m2, mark.free, c);
    lemma_calm_short(v, old, f, m1, mark.writes);
    lemma_system_on(v, old, m1, m2);
    let end = allocation::set_fat_plan::<E>(v, m2, mark.free, c, 0xffff_ffff);
    let m3 = end.leaves(m2);
    allocating::lemma_fat_written::<E>(v, m2, mark.free, c, 0xffff_ffff);
    lemma_beside(v, old, f, m2, m3, mark.free, c);
    lemma_calm_short(v, old, f, m2, end.writes);
    lemma_calm_concat(v, old, f, m1, mark.writes, end.writes);
    lemma_calm_concat(v, old, f, m, zero.writes, mark.writes + end.writes);
    assert(plan.writes =~= zero.writes + (mark.writes + end.writes));
}

/// Linking contiguous clusters, all of them in reach.
proof fn lemma_linking_calm<E>(
    v: Volume,
    old: Media,
    f: FileModel,
    m: Media,
    free: u32,
    first: int,
    count: nat,
)
    requires
        regions::sound(v, m, free),
        files::file_sound(v, old, f),
        regions::same_system(v, old, m),
        f.no_fat_chain,
        0 <= first,
        first + count < u32::MAX,
        forall|k: int|
            first <= k < first + count ==> #[trigger] regions::is_plain(v, m, k as u32) && reach(
                v,
                old,
                f,
            ).contains(k as u32),
    ensures
        is_calm(v, old, f, m, growth::link_plan::<E>(v, m, free, first, count).writes),
    decreases count,
{
    let plan = growth::link_plan::<E>(v, m, free, first, count);
    if count == 0 {
        lemma_keeps_still(v, old, f, m);
        lemma_calm_short(v, old, f, m, plan.writes);
    } else {
        let c = first as u32;
        let set = allocation::set_fat_plan::<E>(v, m, free, c, (first + 1) as u32);
        let m2 = set.leaves(m);
        assert(regions::is_plain(v, m, first as u32));
        allocating::lemma_fat_written::<E>(v, m, free, c, (first + 1) as u32);
        lemma_links_kept(v, old, f, m, m2, free, set![c]);
        lemma_calm_short(v, old, f, m, set.writes);
        lemma_system_on(v, old, m, m2);
        assert forall|k: int| first + 1 <= k < first + 1 + (count - 1) implies
            #[trigger] regions::is_plain(v, m2, k as u32) && reach(v, old, f).contains(
            k as u32,
        ) by {
            assert(regions::is_plain(v, m, k as u32));
            assert(regions::is_bitmap(v, m2, k as u32) == regions::is_bitmap(v, m, k as u32));
            assert(regions::is_table(v, m2, k as u32) == regions::is_table(v, m, k as u32));
        }
        lemma_linking_calm::<E>(v, old, f, m2, free, first + 1, (count - 1) as nat);
        let next = growth::link_plan::<E>(v, m2, free, first + 1, (count - 1) as nat);
        assert(plan == set.and(next));
        lemma_calm_concat(v, old, f, m, set.writes, next.writes);
    }
}

/// Whether `f2` is on `m` what has become of the file that `f` is on `old`: it
/// starts with the same clusters, and the others were free.
pub open spec fn follows(
    v: Volume,
    old: Media,
    f: FileModel,
    m: Media,
    free: u32,
    f2: FileModel,
) -> bool {
    let g = v.geometry;
    &&& files::file_sound(v, old, f)
    &&& regions::sound(v, m, free)
    &&& files::file_sound(v, m, f2)
    &&& keeps(v, old, f, old, m)
    &&& files::count_of(g, f) <= files::count_of(g, f2)
    &&& forall|i: int|
        0 <= i < files::count_of(g, f) ==> #[trigger] files::cluster_at(g, m, f2, i)
            == files::cluster_at(g, old, f, i)
    &&& files::owned(g, m, f2).subset_of(reach(v, old, f))
    &&& f2.no_fat_chain ==> f.no_fat_chain
}

/// A free cluster is in reach, and not one of the old file.
proof fn lemma_free_in_reach(
    v: Volume,
    old: Media,
    f: FileModel,
    m: Media,
    free: u32,
    f2: FileModel,
    c: u32,
)
    requires
        follows(v, old, f, m, free, f2),
        v.geometry.in_heap(c),
        allocation::is_used(v, m, c as int) == Some(false),
    ensures
        reach(v, old, f).contains(c),
        !files::owns(v.geometry, old, f, c),
        regions::same_system(v, old, m),
{
    reveal(keeps);
    let g = v.geometry;
    regions::lemma_geometry(g);
    if !reach(v, old, f).contains(c) {
        assert(allocation::is_used(v, m, c as int) == allocation::is_used(v, old, c as int));
    }
    if files::owns(g, old, f, c) {
        let i = choose|i: int|
            0 <= i < files::count_of(g, f) && #[trigger] files::cluster_at(g, old, f, i) == Some(
                c,
            );
        assert(files::cluster_at(g, m, f2, i) == Some(c));
    }
}

/// Joining a new cluster to what has become of a file.
proof fn lemma_joining_calm<E>(
    v: Volume,
    old: Media,
    f: FileModel,
    m: Media,
    free: u32,
    f2: FileModel,
    tail: u32,
    new: u32,
)
    requires
        follows(v, old, f, m, free, f2),
        growing::can_join(v, m, free, f2, tail, new),
    ensures
        is_calm(v, old, f, m, growth::join_plan::<E>(v, m, free, f2, tail, new).writes),
{
    let g = v.geometry;
    let n = files::count_of(g, f2);
    let plan = growth::join_plan::<E>(v, m, free, f2, tail, new);
    regions::lemma_geometry(g);
    assert(regions::same_system(v, old, m)) by {
        reveal(keeps);
    }
    assert(files::owns(g, m, f2, tail));
    assert(files::owned(g, m, f2).contains(tail));
    assert(regions::is_plain(v, m, tail));
    if f2.no_fat_chain && new == tail + 1 {
        lemma_keeps_still(v, old, f, m);
        lemma_calm_short(v, old, f, m, plan.writes);
    } else if !f2.no_fat_chain {
        let set = allocation::set_fat_plan::<E>(v, m, free, tail, new);
        assert(Plan::<(), E>::answer(free, Ok(())).leaves(m) == m);
        assert(plan.writes =~= set.writes);
        allocating::lemma_fat_written::<E>(v, m, free, tail, new);
        if !f.no_fat_chain {
            assert forall|i: int| 0 <= i < files::count_of(g, f) - 1 implies !set![tail].contains(
                (#[trigger] files::cluster_at(g, old, f, i))->0,
            ) by {
                assert(files::cluster_at(g, m, f2, i) == files::cluster_at(g, old, f, i));
                assert(files::cluster_at(g, m, f2, i) is Some);
                assert(files::cluster_at(g, m, f2, i) != files::cluster_at(g, m, f2, n - 1));
            }
        }
        lemma_links_kept(v, old, f, m, set.leaves(m), free, set![tail]);
        lemma_calm_short(v, old, f, m, set.writes);
    } else {
        let first = f2.first_cluster as int;
        let k = (n - 1) as nat;
        lemma_run_in_reach(v, old, f, m, free, f2);
        lemma_spreading_calm::<E>(v, old, f, m, free, first, k, new);
        let link = growth::link_plan::<E>(v, m, free, first, k);
        let set = allocation::set_fat_plan::<E>(v, link.leaves(m), free, tail, new);
        assert(plan.writes =~= link.writes + set.writes);
    }
}

/// The clusters of what has become of a contiguous file.
proof fn lemma_run_in_reach(
    v: Volume,
    old: Media,
    f: FileModel,
    m: Media,
    free: u32,
    f2: FileModel,
)
    requires
        follows(v, old, f, m, free, f2),
        f2.no_fat_chain,
        files::count_of(v.geometry, f2) >= 1,
    ensures
        ({
            let g = v.geometry;
            let n = files::count_of(g, f2);
            let first = f2.first_cluster;
            &&& n == growth::last_index(g, f2) + 1
            &&& first + n < u32::MAX
            &&& files::cluster_at(g, m, f2, n - 1) == Some((first + n - 1) as u32)
            &&& forall|c: int|
                first <= c < first + n ==> #[trigger] regions::is_plain(v, m, c as u32) && reach(
                    v,
                    old,
                    f,
                ).contains(c as u32)
        }),
{
    let g = v.geometry;
    let n = files::count_of(g, f2);
    let first = f2.first_cluster;
    growing::lemma_count(g, f2);
    growing::lemma_contiguous(v, m, f2);
    assert(files::cluster_at(g, m, f2, n - 1) == Some((first + (n - 1)) as u32));
    assert forall|c: int| first <= c < first + n implies #[trigger] regions::is_plain(
        v,
        m,
        c as u32,
    ) && reach(v, old, f).contains(c as u32) by {
        assert(regions::is_plain(v, m, c as u32));
        assert(files::owned(g, m, f2).contains(c as u32));
    }
}

/// Linking contiguous clusters, the last one to `new`.
proof fn lemma_spreading_calm<E>(
    v: Volume,
    old: Media,
    f: FileModel,
    m: Media,
    free: u32,
    first: int,
    k: nat,
    new: u32,
)
    requires
        regions::sound(v, m, free),
        files::file_sound(v, old, f),
        regions::same_system(v, old, m),
        f.no_fat_chain,
        0 <= first,
        first + k + 1 < u32::MAX,
        forall|c: int|
            first <= c < first + k + 1 ==> #[trigger] regions::is_plain(v, m, c as u32) && reach(
                v,
                old,
                f,
            ).contains(c as u32),
    ensures
        ({
            let link = growth::link_plan::<E>(v, m, free, first, k);
            let set = allocation::set_fat_plan::<E>(
                v,
                link.leaves(m),
                free,
                (first + k) as u32,
                new,
            );
            &&& link.result is Ok
            &&& is_calm(v, old, f, m, link.writes + set.writes)
        }),
{
    let tail = (first + k) as u32;
    let link = growth::link_plan::<E>(v, m, free, first, k);
    let m2 = link.leaves(m);
    lemma_linking_calm::<E>(v, old, f, m, free, first, k);
    growing::lemma_linked::<E>(v, m, free, first, k);
    lemma_system_on(v, old, m, m2);
    assert(regions::is_plain(v, m, (first + k) as u32));
    assert(regions::is_bitmap(v, m2, tail) == regions::is_bitmap(v, m, tail));
    assert(regions::is_table(v, m2, tail) == regions::is_table(v, m, tail));
    let set = allocation::set_fat_plan::<E>(v, m2, free, tail, new);
    allocating::lemma_fat_written::<E>(v, m2, free, tail, new);
    lemma_links_kept(v, old, f, m2, set.leaves(m2), free, set![tail]);
    lemma_calm_short(v, old, f, m2, set.writes);
    lemma_calm_concat(v, old, f, m, link.writes, set.writes);
}

/// What has become of a file follows it on, once another cluster is claimed.
proof fn lemma_follows_claim(
    v: Volume,
    old: Media,
    f: FileModel,
    m: Media,
    m2: Media,
    free: u32,
    free2: u32,
    f2: FileModel,
    new: u32,
)
    requires
        follows(v, old, f, m, free, f2),
        regions::evolves(v, m, m2, free2, set![new]),
        keeps(v, old, f, m, m2),
        v.geometry.in_heap(new),
        allocation::is_used(v, m, new as int) == Some(false),
    ensures
        follows(v, old, f, m2, free2, f2),
        !files::owns(v.geometry, m2, f2, new),
        forall|i: int|
            0 <= i < files::count_of(v.geometry, f2) ==> #[trigger] files::cluster_at(
                v.geometry,
                m2,
                f2,
                i,
            ) == files::cluster_at(v.geometry, m, f2, i),
{
    let g = v.geometry;
    assert(set![new].disjoint(files::owned(g, m, f2))) by {
        assert forall|c: u32| files::owned(g, m, f2).contains(c) implies c != new by {
            let i = choose|i: int|
                0 <= i < files::count_of(g, f2) && #[trigger] files::cluster_at(g, m, f2, i)
                    == Some(c);
            assert(allocation::is_used(v, m, c as int) == Some(true));
        }
    }
    files::law_untouched_file_keeps_its_bytes(v, m, m2, f2, set![new]);
    growing::lemma_clusters_found(v, m, m2, f2, new);
    lemma_keeps_on(v, old, f, old, m, m2);
    assert(!files::owned(g, m2, f2).contains(new));
    assert forall|i: int| 0 <= i < files::count_of(g, f) implies #[trigger] files::cluster_at(
        g,
        m2,
        f2,
        i,
    ) == files::cluster_at(g, old, f, i) by {
        assert(files::cluster_at(g, m, f2, i) == files::cluster_at(g, old, f, i));
    }
}

/// Giving what has become of a file one more cluster.
proof fn lemma_extending_calm<E>(
    v: Volume,
    old: Media,
    f: FileModel,
    m: Media,
    free: u32,
    f2: FileModel,
)
    requires
        follows(v, old, f, m, free, f2),
        f2.cache is None,
    ensures
        is_calm(v, old, f, m, growth::extend_plan::<E>(v, m, free, f2).writes),
{
    reveal(growth::extend_plan);
    let g = v.geometry;
    let n = files::count_of(g, f2);
    let plan = growth::extend_plan::<E>(v, m, free, f2);
    regions::lemma_geometry(g);
    growing::lemma_count(g, f2);
    growing::lemma_tail::<E>(v, m, f2);
    if n > 0 {
        assert(files::cluster_at(g, m, f2, n - 1) is Some);
    }
    let tail = growth::tail_result::<E>(g, m, f2)->Ok_0;
    let preferred = match tail {
        Some(last) => (last + 1) as u32,
        None => 2u32,
    };
    let take = allocation::allocate_plan::<E>(v, m, free, preferred);
    let m1 = take.leaves(m);
    allocating::law_allocation_claims_a_free_cluster::<E>(v, m, free, preferred);
    if free > 0 {
        let new = take.result->Ok_0;
        lemma_free_in_reach(v, old, f, m, free, f2, new);
        lemma_claim_calm::<E>(v, old, f, m, free, new);
        assert(take.writes =~= allocation::take_plan::<E>(v, m, free, new).writes);
        lemma_calm_end(v, old, f, m, take.writes);
        lemma_follows_claim(v, old, f, m, m1, free, take.free, f2, new);
        match tail {
            Some(last) => {
                assert(files::cluster_at(g, m1, f2, n - 1) == Some(last));
                let join = growth::join_plan::<E>(v, m1, take.free, f2, last, new);
                lemma_joining_calm::<E>(v, old, f, m1, take.free, f2, last, new);
                growing::lemma_joined::<E>(v, m1, take.free, f2, last, new);
                lemma_calm_concat(v, old, f, m, take.writes, join.writes);
                assert(plan.writes =~= take.writes + join.writes);
            },
            None => {
                assert(plan.writes =~= take.writes);
            },
        }
    } else {
        assert(plan.writes.len() == 0);
        lemma_keeps_still(v, old, f, m);
        lemma_calm_short(v, old, f, m, plan.writes);
    }
}

/// An extended file follows on.
proof fn lemma_follows_extension(
    v: Volume,
    old: Media,
    f: FileModel,
    m: Media,
    m2: Media,
    free: u32,
    free2: u32,
    f2: FileModel,
    f3: FileModel,
)
    requires
        follows(v, old, f, m, free, f2),
        growing::extends(v, m, m2, free, free2, f2, f3),
        keeps(v, old, f, m, m2),
    ensures
        follows(v, old, f, m2, free2, f3),
{
    let g = v.geometry;
    regions::lemma_geometry(g);
    growing::lemma_extends_facts(v, m, m2, free, free2, f2, f3);
    growing::lemma_extends_content(v, m, m2, free, free2, f2, f3);
    lemma_keeps_on(v, old, f, old, m, m2);
    assert forall|c: u32| files::owned(g, m2, f3).contains(c) implies reach(v, old, f).contains(
        c,
    ) by {
        if !files::owned(g, m, f2).contains(c) {
            let i = choose|i: int|
                0 <= i < files::count_of(g, f3) && #[trigger] files::cluster_at(g, m2, f3, i)
                    == Some(c);
            assert(regions::is_plain(v, m2, c));
            lemma_free_in_reach(v, old, f, m, free, f2, c);
        }
    }
    assert(files::count_of(g, f2) <= files::count_of(g, f3) && (f3.no_fat_chain
        ==> f2.no_fat_chain)) by {
        reveal(growing::extends);
    }
    assert forall|i: int| 0 <= i < files::count_of(g, f) implies #[trigger] files::cluster_at(
        g,
        m2,
        f3,
        i,
    ) == files::cluster_at(g, old, f, i) by {
        reveal(growing::extends);
        assert(files::cluster_at(g, m, f2, i) == files::cluster_at(g, old, f, i));
        assert(files::cluster_at(g, m2, f3, i) == files::cluster_at(g, m, f2, i));
    }
}

/// Giving what has become of a file clusters for `end` bytes.
proof fn lemma_reserving_calm<E>(
    v: Volume,
    old: Media,
    f: FileModel,
    m: Media,
    free: u32,
    f2: FileModel,
    end: int,
)
    requires
        follows(v, old, f, m, free, f2),
        f2.cache is None,
    ensures
        ({
            let plan = growth::reserve_plan::<E>(v, m, free, f2, end);
            &&& is_calm(v, old, f, m, plan.writes)
            &&& plan.result matches Ok(f3) ==> follows(v, old, f, plan.leaves(m), plan.free, f3)
        }),
    decreases
            if f2.data_length < end {
                end - f2.data_length
            } else {
                0
            },
{
    let g = v.geometry;
    let plan = growth::reserve_plan::<E>(v, m, free, f2, end);
    regions::lemma_geometry(g);
    if f2.data_length >= end {
        lemma_keeps_still(v, old, f, m);
        lemma_calm_short(v, old, f, m, plan.writes);
        assert(plan.leaves(m) == m);
    } else {
        let extend = growth::extend_plan::<E>(v, m, free, f2);
        let m1 = extend.leaves(m);
        growing::lemma_extended::<E>(v, m, free, f2);
        lemma_extending_calm::<E>(v, old, f, m, free, f2);
        match extend.result {
            Ok(f3) => {
                growing::lemma_extends_facts(v, m, m1, free, extend.free, f2, f3);
                lemma_calm_end(v, old, f, m, extend.writes);
                lemma_follows_extension(v, old, f, m, m1, free, extend.free, f2, f3);
                lemma_reserving_calm::<E>(v, old, f, m1, extend.free, f3, end);
                let rest = growth::reserve_plan::<E>(v, m1, extend.free, f3, end);
                assert(plan == extend.and(rest));
                lemma_calm_concat(v, old, f, m, extend.writes, rest.writes);
                device::lemma_applied_concat(m, extend.writes, rest.writes);
            },
            Err(_) => {
                assert(plan == extend);
            },
        }
    }
}

/// Writing one sector of what has become of a file, behind its valid bytes.
proof fn lemma_part_kept(
    v: Volume,
    old: Media,
    f: FileModel,
    m: Media,
    m2: Media,
    free: u32,
    f2: FileModel,
    from: int,
    data: Seq<u8>,
)
    requires
        follows(v, old, f, m, free, f2),
        regions::evolves(v, m, m2, free, files::owned(v.geometry, m, f2)),
        regions::same_fat(v.geometry, m, m2),
        files::file_sound(v, m2, f2),
        files::overwritten(v.geometry, m, m2, f2, from, data),
        f.valid_length <= from,
        f.data_length <= f2.data_length,
    ensures
        keeps(v, old, f, m, m2),
        forall|i: int|
            0 <= i < files::count_of(v.geometry, f) ==> #[trigger] files::cluster_at(
                v.geometry,
                m2,
                f2,
                i,
            ) == files::cluster_at(v.geometry, old, f, i),
{
    reveal(keeps);
    let g = v.geometry;
    let n = files::count_of(g, f);
    regions::lemma_geometry(g);
    files::lemma_wider(v, m, m2, free, files::owned(g, m, f2), reach(v, old, f));
    assert forall|i: int| 0 <= i < n implies #[trigger] files::cluster_at(g, m2, f2, i)
        == files::cluster_at(g, old, f, i) by {
        files::lemma_clusters_kept(v, m, m2, f2, Set::<u32>::empty(), i);
        assert(files::cluster_at(g, m, f2, i) == files::cluster_at(g, old, f, i));
    }
    assert forall|i: int| 0 <= i < n - 1 implies slots::fat_entry(
        g,
        m2,
        (#[trigger] files::cluster_at(g, old, f, i))->0,
    ) == slots::fat_entry(g, m, files::cluster_at(g, old, f, i)->0) by {
        lemma_old_cluster(v, old, f, m, i);
    }
    assert forall|offset: int| 0 <= offset < f.valid_length implies #[trigger] held(
        g,
        old,
        f,
        m2,
        offset,
    ) == held(g, old, f, m, offset) by {
        files::lemma_offset(g, f, offset);
        files::lemma_placed(v, m, f2, offset);
        files::lemma_placed(v, m2, f2, offset);
        let i = offset / g.cluster_bytes();
        assert(files::cluster_at(g, m, f2, i) == files::cluster_at(g, old, f, i));
        assert(files::cluster_at(g, m2, f2, i) == files::cluster_at(g, old, f, i));
        assert(files::content(g, m2, f2, offset) == files::content(g, m, f2, offset));
    }
}

/// Writing what has become of a file, behind its valid bytes.
proof fn lemma_writing_calm<E>(
    v: Volume,
    old: Media,
    f: FileModel,
    m: Media,
    free: u32,
    f2: FileModel,
    data: Seq<u8>,
)
    requires
        follows(v, old, f, m, free, f2),
        f2.cache_behind(v.geometry),
        f2.position + data.len() <= f2.data_length,
        f.valid_length <= f2.position,
        f.data_length <= f2.data_length,
    ensures
        is_calm(v, old, f, m, stream::write_plan::<E>(v, m, free, f2, data).writes),
    decreases data.len(),
{
    let g = v.geometry;
    let plan = stream::write_plan::<E>(v, m, free, f2, data);
    if data.len() == 0 {
        lemma_keeps_still(v, old, f, m);
        lemma_calm_short(v, old, f, m, plan.writes);
    } else {
        let count = stream::in_sector(g, f2.position as int, data.len() as int);
        files::lemma_part_written(v, m, free, f2, data);
        let (lba, at) = stream::file_place(g, m, f2, f2.position as int)->0;
        let write = SectorWrite { lba, data: stream::written(g, m[lba], at, data.take(count)) };
        let step = Plan::<(), E>::write(free, write, Ok(()));
        let m1 = step.leaves(m);
        let f3 = stream::advanced(g, m, f2, count);
        let rest = data.skip(count);
        lemma_part_kept(
            v,
            old,
            f,
            m,
            m1,
            free,
            f2,
            f2.position as int,
            data.take(count),
        );
        lemma_calm_short(v, old, f, m, step.writes);
        lemma_keeps_on(v, old, f, old, m, m1);
        files::lemma_same_file(v, m1, f2, f3);
        assert(follows(v, old, f, m1, free, f3));
        lemma_writing_calm::<E>(v, old, f, m1, free, f3, rest);
        let next = stream::write_plan::<E>(v, m1, free, f3, rest);
        assert(plan == step.and(next));
        lemma_calm_concat(v, old, f, m, step.writes, next.writes);
    }
}

/// The writes of an append up to those that record the new length.
pub open spec fn unrecorded<E>(v: Volume, m: Media, free: u32, f: FileModel, data: Seq<u8>) -> Seq<
    SectorWrite,
> {
    let end = f.valid_length + data.len();
    let reserve = growth::reserve_plan::<E>(v, m, free, files::uncached(f), end);
    match reserve.result {
        Ok(f2) => reserve.writes + stream::write_plan::<E>(
            v,
            reserve.leaves(m),
            reserve.free,
            growth::at_end(f2, end),
            data,
        ).writes,
        Err(_) => reserve.writes,
    }
}

/// An append records the new length last, with no more than two writes.
proof fn lemma_recorded_last<E>(v: Volume, m: Media, free: u32, f: FileModel, data: Seq<u8>)
    requires
        0 < data.len(),
        f.valid_length + data.len() <= u64::MAX,
    ensures
        unrecorded::<E>(v, m, free, f, data).is_prefix_of(
            growth::append_plan::<E>(v, m, free, f, data).writes,
        ),
        growth::append_plan::<E>(v, m, free, f, data).writes.len() <= unrecorded::<E>(
            v,
            m,
            free,
            f,
            data,
        ).len() + 2,
{
    let end = f.valid_length + data.len();
    let first = unrecorded::<E>(v, m, free, f, data);
    let all = growth::append_plan::<E>(v, m, free, f, data).writes;
    let reserve = growth::reserve_plan::<E>(v, m, free, files::uncached(f), end);
    assert(files::uncached(f) == (FileModel { cache: None, ..f }));
    if let Ok(f2) = reserve.result {
        let reserved = reserve.leaves(m);
        let ready = growth::at_end(f2, end);
        let write = stream::write_plan::<E>(v, reserved, reserve.free, ready, data);
        let done = stream::write_file(v, reserved, ready, data);
        let update = metadata::update_plan::<E>(v, write.leaves(reserved), reserve.free, done);
        assert(update.writes.len() <= 2);
        if write.result is Ok {
            assert(all =~= first + update.writes);
        } else {
            assert(all =~= first);
        }
    } else {
        assert(all =~= first);
    }
    assert(first =~= all.take(first.len() as int));
}

/// The writes of an append up to those that record the new length keep the
/// file.
proof fn lemma_appending_calm<E>(v: Volume, m: Media, free: u32, f: FileModel, data: Seq<u8>)
    requires
        regions::sound(v, m, free),
        files::file_sound(v, m, f),
        f.cache is None,
        0 < data.len(),
        f.valid_length + data.len() <= u64::MAX,
    ensures
        is_calm(v, m, f, m, unrecorded::<E>(v, m, free, f, data)),
{
    let g = v.geometry;
    let end = f.valid_length + data.len();
    assert(files::uncached(f) =~= f);
    lemma_keeps_still(v, m, f, m);
    assert(files::owned(g, m, f).subset_of(reach(v, m, f))) by {
        assert forall|c: u32| files::owned(g, m, f).contains(c) implies reach(v, m, f).contains(
            c,
        ) by {
            let i = choose|i: int|
                0 <= i < files::count_of(g, f) && #[trigger] files::cluster_at(g, m, f, i) == Some(
                    c,
                );
            assert(regions::is_plain(v, m, c));
        }
    }
    lemma_reserving_calm::<E>(v, m, f, m, free, f, end);
    growing::lemma_reserved::<E>(v, m, free, f, end);
    let reserve = growth::reserve_plan::<E>(v, m, free, f, end);
    if let Ok(f2) = reserve.result {
        let m1 = reserve.leaves(m);
        let ready = growth::at_end(f2, end);
        growing::lemma_extends_facts(v, m, m1, free, reserve.free, f, f2);
        appending::lemma_relength(v, m1, f2, ready);
        assert(follows(v, m, f, m1, reserve.free, ready)) by {
            assert forall|i: int| 0 <= i < files::count_of(g, f) implies
                #[trigger] files::cluster_at(g, m1, ready, i) == files::cluster_at(g, m, f, i) by {
                assert(files::cluster_at(g, m1, f2, i) == files::cluster_at(g, m, f, i));
            }
        }
        lemma_writing_calm::<E>(v, m, f, m1, reserve.free, ready, data);
        lemma_calm_concat(
            v,
            m,
            f,
            m,
            reserve.writes,
            stream::write_plan::<E>(v, m1, reserve.free, ready, data).writes,
        );
    }
}

/// Where a file was kept, its old handle finds its bytes.
proof fn lemma_kept_bytes(v: Volume, m: Media, m2: Media, f: FileModel, offset: int)
    requires
        regions::apart(v.geometry),
        files::file_sound(v, m, f),
        f.cache is None,
        keeps(v, m, f, m, m2),
        0 <= offset < f.valid_length,
    ensures
        stream::file_place(v.geometry, m2, f, offset) is Some,
        stream::file_byte(v.geometry, m2, f, offset) == stream::file_byte(
            v.geometry,
            m,
            f,
            offset,
        ),
{
    reveal(keeps);
    let g = v.geometry;
    let i = offset / g.cluster_bytes();
    let s = offset % g.cluster_bytes() / (g.bytes_per_sector as int);
    regions::lemma_geometry(g);
    assert(files::uncached(f) =~= f);
    files::lemma_offset(g, f, offset);
    files::lemma_placed(v, m, f, offset);
    files::lemma_first_in_heap(v, m, f);
    let c = files::cluster_at(g, m, f, i)->0;
    assert(files::cluster_at(g, m2, f, i) == Some(c)) by {
        if !f.no_fat_chain {
            let first = f.first_cluster;
            assert forall|j: nat|
                j < i && g.fat_holds((#[trigger] allocation::chain_at(g, m, first, j))->0)
                    && allocation::chain_at(g, m, first, j) is Some implies slots::fat_entry(
                g,
                m2,
                allocation::chain_at(g, m, first, j)->0,
            ) == slots::fat_entry(g, m, allocation::chain_at(g, m, first, j)->0) by {
                assert(files::cluster_at(g, m, f, j as int) == allocation::chain_at(
                    g,
                    m,
                    first,
                    j,
                ));
            }
            regions::lemma_chain_same(g, m, m2, first, i as nat);
        }
    }
    regions::lemma_sector(g, c, s);
    assert(held(g, m, f, m2, offset) == held(g, m, f, m, offset));
}

/// A path leads to the same file where nothing but free clusters and those of
/// the file has changed.
proof fn lemma_way_unchanged<E>(
    v: Volume,
    m: Media,
    m2: Media,
    free: u32,
    parts: Seq<Seq<char>>,
    f: FileModel,
    touched: Set<u32>,
)
    requires
        regions::sound(v, m, free),
        reopening::is_file_at::<E>(v, m, parts, f),
        regions::changes_only(v, m, m2, touched),
        regions::same_system(v, m, m2),
        forall|c: u32| #[trigger]
            touched.contains(c) ==> v.geometry.in_heap(c) && (files::owned(
                v.geometry,
                m,
                f,
            ).contains(c) || allocation::is_used(v, m, c as int) == Some(false)),
    ensures
        ({
            let root = entry::root_model(v.geometry);
            let d = trails::last_dir::<E>(v, m, root, parts);
            let units = codec::name_result::<E>(parts.last())->Ok_0;
            &&& trails::leads::<E>(v, m2, root, parts)
            &&& trails::last_dir::<E>(v, m2, root, parts) == d
            &&& listing::child(v, m2, d, units) == listing::child(v, m, d, units)
        }),
{
    let g = v.geometry;
    let root = entry::root_model(g);
    let d = trails::last_dir::<E>(v, m, root, parts);
    let units = codec::name_result::<E>(parts.last())->Ok_0;
    let old = files::owned(g, m, f);
    let homes = directories::homes(g, m, d);
    reopening::lemma_grown_apart(v, m, touched, old, d);
    let way = trails::passed::<E>(v, m, root, parts);
    assert(trails::is_clear::<E>(v, m, root, parts, touched)) by {
        assert forall|k: int| 0 <= k < way.len() implies directories::dir_sound(
            v,
            m,
            #[trigger] way[k],
        ) && touched.disjoint(directories::homes(g, m, way[k])) by {
            assert(old.union(homes).disjoint(directories::homes(g, m, way[k])));
            reopening::lemma_grown_apart(v, m, touched, old, way[k]);
        }
    }
    assert forall|c: u32| #[trigger] touched.contains(c) implies !regions::is_table(v, m, c) by {
        if old.contains(c) {
            let i = choose|i: int|
                0 <= i < files::count_of(g, f) && #[trigger] files::cluster_at(g, m, f, i) == Some(
                    c,
                );
            assert(regions::is_plain(v, m, c));
        } else {
            allocating::lemma_unused_is_plain(v, m, free, c);
        }
    }
    directories::lemma_names_kept(v, m, m2, free, touched);
    trails::lemma_trail::<E>(v, m, m2, free, root, parts, touched);
    trails::lemma_dir_kept(v, m, m2, free, d, touched);
    trails::lemma_find_kept(v, m, m2, listing::listing(g, m, d), units, 0);
}

/// What a kept file and its surroundings have changed in.
proof fn lemma_kept_reach(v: Volume, m: Media, m2: Media, f: FileModel, near: FileModel)
    requires
        near == files::uncached(f),
        keeps(v, m, near, m, m2),
    ensures
        regions::changes_only(v, m, m2, reach(v, m, near)),
        regions::same_system(v, m, m2),
        forall|c: u32| #[trigger]
            reach(v, m, near).contains(c) ==> v.geometry.in_heap(c) && (files::owned(
                v.geometry,
                m,
                f,
            ).contains(c) || allocation::is_used(v, m, c as int) == Some(false)),
{
    reveal(keeps);
    files::lemma_same_file(v, m, f, near);
    assert forall|c: u32| #[trigger] reach(v, m, near).contains(c) implies v.geometry.in_heap(c)
        && (files::owned(v.geometry, m, f).contains(c) || allocation::is_used(v, m, c as int)
        == Some(false)) by {
        assert(files::owns(v.geometry, m, near, c) == files::owns(v.geometry, m, f, c));
    }
}

/// Until an append begins to record the new length, which takes no more than
/// its last two writes, the path names the file as it was: wherever the append
/// stops between two writes before that, opening the path hands out the old
/// handle, with the old bytes. Nothing shows of the clusters that were claimed
/// or of what was written to them.
pub proof fn law_interrupted_append_shows_the_old_file<E>(
    v: Volume,
    m: Media,
    free: u32,
    path: Seq<char>,
    scratch_len: nat,
    f: FileModel,
    data: Seq<u8>,
    k: int,
)
    requires
        regions::sound(v, m, free),
        reopening::is_file_at::<E>(v, m, paths::components(path), f),
        scratch_len >= v.geometry.bytes_per_sector,
        0 < data.len(),
        f.valid_length + data.len() <= u64::MAX,
        0 <= k <= unrecorded::<E>(v, m, free, f, data).len(),
    ensures
        ({
            let g = v.geometry;
            let first = unrecorded::<E>(v, m, free, f, data);
            let all = growth::append_plan::<E>(v, m, free, f, data).writes;
            let m2 = device::applied(m, all.take(k));
            let again = reopening::reopened(f);
            &&& first.is_prefix_of(all)
            &&& all.len() <= first.len() + 2
            &&& lookup::open_result::<E>(v, m2, path, scratch_len) == Ok::<FileModel, Error<E>>(
                again,
            )
            &&& forall|offset: int|
                0 <= offset < f.valid_length ==> #[trigger] stream::file_place(
                    g,
                    m2,
                    again,
                    offset,
                ) is Some && stream::file_byte(g, m2, again, offset) == stream::file_byte(
                    g,
                    m,
                    f,
                    offset,
                )
        }),
{
    let g = v.geometry;
    let again = reopening::reopened(f);
    let near = files::uncached(f);
    let parts = paths::components(path);
    let d = trails::last_dir::<E>(v, m, entry::root_model(g), parts);
    let all = growth::append_plan::<E>(v, m, free, f, data).writes;
    let first = unrecorded::<E>(v, m, free, f, data);
    let m2 = device::applied(m, all.take(k));
    lemma_recorded_last::<E>(v, m, free, f, data);
    assert(keeps(v, m, near, m, m2)) by {
        assert(all.take(k) =~= first.take(k));
        files::lemma_same_file(v, m, f, near);
        assert(files::uncached(near) =~= near);
        assert(unrecorded::<E>(v, m, free, near, data) == first);
        lemma_appending_calm::<E>(v, m, free, near, data);
    }
    lemma_kept_reach(v, m, m2, f, near);
    lemma_way_unchanged::<E>(v, m, m2, free, parts, f, reach(v, m, near));
    let units = codec::name_result::<E>(parts.last())->Ok_0;
    let found = listing::child(v, m, d, units)->0->0;
    reopening::lemma_opens_found::<E>(v, m2, path, scratch_len, found, f);
    assert forall|offset: int| 0 <= offset < f.valid_length implies #[trigger] stream::file_place(
        g,
        m2,
        again,
        offset,
    ) is Some && stream::file_byte(g, m2, again, offset) == stream::file_byte(g, m, f, offset) by {
        files::lemma_same_file(v, m, f, near);
        lemma_kept_bytes(v, m, m2, near, offset);
        files::lemma_content(v, m, f, offset);
        files::lemma_content(v, m, near, offset);
        assert(stream::file_place(g, m2, again, offset) == stream::file_place(g, m2, near, offset));
    }
}

/// The clusters that a file got are its old ones and such as were free.
proof fn lemma_reserved_reach(
    v: Volume,
    m: Media,
    m2: Media,
    free: u32,
    f: FileModel,
    f2: FileModel,
)
    requires
        regions::sound(v, m, free),
        files::file_sound(v, m, f),
        growing::extends(v, m, m2, free, 0, f, f2),
    ensures
        regions::evolves(v, m, m2, 0, reach(v, m, f)),
{
    reveal(growing::extends);
    let g = v.geometry;
    let all = files::owned(g, m2, f2);
    assert forall|c: u32| all.contains(c) implies reach(v, m, f).contains(c) by {
        let i = choose|i: int|
            0 <= i < files::count_of(g, f2) && #[trigger] files::cluster_at(g, m2, f2, i) == Some(
                c,
            );
        if i < files::count_of(g, f) {
            assert(files::cluster_at(g, m, f, i) == Some(c));
        }
        assert(regions::is_plain(v, m2, c));
    }
    files::lemma_wider(v, m, m2, 0, all, reach(v, m, f));
}

/// An append for which there are not enough free clusters is refused, and the
/// path names the file as it was: opening it hands out the old handle, with the
/// old bytes. The volume stays sound and mounts again; the clusters that were
/// free are in use, and those of no other file have changed.
pub proof fn law_refused_append_shows_the_old_file<E>(
    v: Volume,
    m: Media,
    free: u32,
    path: Seq<char>,
    scratch_len: nat,
    f: FileModel,
    data: Seq<u8>,
)
    requires
        regions::sound(v, m, free),
        reopening::is_file_at::<E>(v, m, paths::components(path), f),
        scratch_len >= v.geometry.bytes_per_sector,
        0 < data.len(),
        f.valid_length + data.len() <= u64::MAX,
        growing::lacking(v.geometry, f, f.valid_length + data.len()) > free,
    ensures
        ({
            let g = v.geometry;
            let plan = growth::append_plan::<E>(v, m, free, f, data);
            let m2 = plan.leaves(m);
            let again = reopening::reopened(f);
            &&& plan.result == Err::<usize, Error<E>>(Error::NoSpace)
            &&& plan.free == 0
            &&& regions::evolves(v, m, m2, 0, reach(v, m, files::uncached(f)))
            &&& remounting::mounts_again::<E>(v, m, m2, free, 0)
            &&& lookup::open_result::<E>(v, m2, path, scratch_len) == Ok::<FileModel, Error<E>>(
                again,
            )
            &&& forall|offset: int|
                0 <= offset < f.valid_length ==> #[trigger] stream::file_place(
                    g,
                    m2,
                    again,
                    offset,
                ) is Some && stream::file_byte(g, m2, again, offset) == stream::file_byte(
                    g,
                    m,
                    f,
                    offset,
                )
        }),
{
    let g = v.geometry;
    let near = files::uncached(f);
    let parts = paths::components(path);
    let end = f.valid_length + data.len();
    let plan = growth::append_plan::<E>(v, m, free, f, data);
    let m2 = plan.leaves(m);
    let reserve = growth::reserve_plan::<E>(v, m, free, near, end);
    let touched = reach(v, m, near);
    files::lemma_same_file(v, m, f, near);
    assert(near == (FileModel { cache: None, ..f }));
    growing::lemma_reserved::<E>(v, m, free, near, end);
    let f2 = choose|f2: FileModel| #[trigger]
        growing::extends(v, m, reserve.leaves(m), free, 0, near, f2);
    assert(plan.writes == reserve.writes);
    lemma_reserved_reach(v, m, m2, free, near, f2);
    let all = plan.writes;
    assert(all.take(all.len() as int) =~= all);
    law_interrupted_append_shows_the_old_file::<E>(
        v,
        m,
        free,
        path,
        scratch_len,
        f,
        data,
        all.len() as int,
    );
    assert(remounting::mounts_again::<E>(v, m, m2, free, 0)) by {
        lemma_reach_apart::<E>(v, m, free, parts, f, near);
        systems::lemma_kept_beside(v, m, m2, free, touched);
        remounting::lemma_mounts_again::<E>(v, m, m2, free, 0, touched);
    }
}

/// What appending to a file may change is neither the root directory nor the
/// UpCase table.
proof fn lemma_reach_apart<E>(
    v: Volume,
    m: Media,
    free: u32,
    parts: Seq<Seq<char>>,
    f: FileModel,
    near: FileModel,
)
    requires
        regions::sound(v, m, free),
        reopening::is_file_at::<E>(v, m, parts, f),
        near == files::uncached(f),
    ensures
        directories::dir_sound(v, m, entry::root_model(v.geometry)),
        reach(v, m, near).disjoint(
            directories::homes(v.geometry, m, entry::root_model(v.geometry)),
        ),
        forall|c: u32| #[trigger] reach(v, m, near).contains(c) ==> !regions::is_table(v, m, c),
{
    let g = v.geometry;
    let root = entry::root_model(g);
    let d = trails::last_dir::<E>(v, m, root, parts);
    let way = trails::passed::<E>(v, m, root, parts);
    let old = files::owned(g, m, f);
    let homes = directories::homes(g, m, d);
    files::lemma_same_file(v, m, f, near);
    assert(trails::is_clear::<E>(v, m, root, parts, old)) by {
        assert forall|k: int| 0 <= k < way.len() implies directories::dir_sound(
            v,
            m,
            #[trigger] way[k],
        ) && old.disjoint(directories::homes(g, m, way[k])) by {
            assert(old.union(homes).disjoint(directories::homes(g, m, way[k])));
        }
    }
    reopening::lemma_root_on_way::<E>(v, m, parts, old);
    assert forall|c: u32| #[trigger] reach(v, m, near).contains(c) implies old.contains(c)
        || allocation::is_used(v, m, c as int) == Some(false) by {
        assert(files::owns(g, m, near, c) == files::owns(g, m, f, c));
    }
    reopening::lemma_grown_apart(v, m, reach(v, m, near), old, root);
    assert forall|c: u32| #[trigger] reach(v, m, near).contains(c) implies !regions::is_table(
        v,
        m,
        c,
    ) by {
        if allocation::is_used(v, m, c as int) == Some(false) {
            allocating::lemma_unused_is_plain(v, m, free, c);
        } else {
            let k = choose|k: int|
                0 <= k < files::count_of(g, near) && #[trigger] files::cluster_at(g, m, near, k)
                    == Some(c);
            assert(files::cluster_at(g, m, f, k) == Some(c));
            assert(regions::is_plain(v, m, c));
        }
    }
}

} // verus!
