//! Making directories: they are found under their paths, and empty.

use crate::bytes;
use crate::device::Media;
use crate::directory::codec;
use crate::directory::entry;
use crate::directory::entry::{DirectoryModel, EntryModel};
use crate::directory::slots;
use crate::directory::slots::{EntryLocator, Slot};
use crate::error::Error;
use crate::fs::allocation;
use crate::fs::create;
use crate::fs::listing;
use crate::fs::lookup;
use crate::fs::metadata;
use crate::fs::names;
use crate::fs::paths;
use crate::fs::space;
use crate::fs::state::Plan;
use crate::fs::walk;
use crate::fs::walk::End;
use crate::geometry::Geometry;
use crate::laws::allocating;
use crate::laws::appending;
use crate::laws::creating;
use crate::laws::decoding;
use crate::laws::directories;
use crate::laws::entries;
use crate::laws::expanding;
use crate::laws::extents;
use crate::laws::placing;
use crate::laws::placing::Room;
use crate::laws::regions;
use crate::laws::remounting;
use crate::laws::systems;
use crate::laws::trails;
use crate::mount::Volume;
use vstd::prelude::*;

verus! {

/// Slots that were never used are a tidy directory, and list nothing.
proof fn lemma_blank_tidy(z: Seq<Slot>, end: End)
    requires
        expanding::are_blank(z),
        z.len() > 0,
    ensures
        decoding::tidy(z),
        listing::listing_from(z, end, entry::idle_decoder()).entries == Seq::<EntryModel>::empty(),
        listing::listing_from(z, end, entry::idle_decoder()).sound,
{
    assert forall|k: nat| 0 < k <= z.len() implies !decoding::all_used(z, k as int) by {
        assert(z[0].raw[0] == 0);
    }
}

/// Whether clusters were free.
pub open spec fn were_free(v: Volume, media: Media, touched: Set<u32>) -> bool {
    forall|c: u32| #[trigger]
        touched.contains(c) ==> v.geometry.in_heap(c) && allocation::is_used(v, media, c as int)
            == Some(false)
}

/// Clusters that were free are none of a directory's.
proof fn lemma_free_apart(v: Volume, m: Media, d: DirectoryModel, touched: Set<u32>)
    requires
        directories::dir_housed(v, m, d),
        were_free(v, m, touched),
    ensures
        touched.disjoint(directories::homes(v.geometry, m, d)),
{
    assert forall|c: u32| directories::homes(v.geometry, m, d).contains(c) implies !touched.contains(
        c,
    ) by {
        placing::lemma_homes_taken(v, m, d, c);
    }
}

/// What happens to free clusters leaves directories, and the way to them,
/// alone.
pub proof fn lemma_reaches_beside<E>(
    v: Volume,
    m: Media,
    m2: Media,
    free: u32,
    above: Seq<Seq<char>>,
    d: DirectoryModel,
    n: int,
    touched: Set<u32>,
)
    requires
        regions::sound(v, m, free),
        placing::reaches::<E>(v, m, above, d, n),
        regions::changes_only(v, m, m2, touched),
        regions::same_system(v, m, m2),
        were_free(v, m, touched),
    ensures
        placing::reaches::<E>(v, m2, above, d, n),
        walk::directory_slots(v.geometry, m2, d) == walk::directory_slots(v.geometry, m, d),
        directories::homes(v.geometry, m2, d) == directories::homes(v.geometry, m, d),
        directories::same_names(v, m, m2),
        placing::same_way::<E>(v, m, m2, above),
{
    let g = v.geometry;
    let root = entry::root_model(g);
    extents::lemma_extent_housed(v, m, d, n);
    lemma_free_apart(v, m, d, touched);
    assert forall|c: u32| #[trigger] touched.contains(c) implies !regions::is_table(v, m, c) by {
        allocating::lemma_unused_is_plain(v, m, free, c);
    }
    if above.len() > 0 {
        let up = trails::last_dir::<E>(v, m, root, above);
        let way = trails::passed::<E>(v, m, root, above);
        lemma_free_apart(v, m, up, touched);
        assert(trails::is_clear::<E>(v, m, root, above, touched)) by {
            assert forall|k: int| 0 <= k < way.len() implies directories::dir_sound(
                v,
                m,
                #[trigger] way[k],
            ) && touched.disjoint(directories::homes(g, m, way[k])) by {
                lemma_free_apart(v, m, way[k], touched);
            }
        }
    }
    placing::lemma_reaches_kept::<E>(v, m, m2, free, above, d, n, touched);
}

/// A zeroed cluster is an empty directory.
proof fn lemma_fresh_chain(
    v: Volume,
    m: Media,
    d: DirectoryModel,
)
    requires
        regions::apart(v.geometry),
        !d.no_fat_chain,
        d.data_length == v.geometry.cluster_bytes(),
        appending::is_taken(v, m, d.first_cluster),
        slots::fat_entry(v.geometry, m, d.first_cluster) == 0xffff_ffff,
        forall|s: int|
            0 <= s < v.geometry.sectors_per_cluster ==> #[trigger] regions::cluster_sector(
                v.geometry,
                m,
                d.first_cluster,
                s,
            ) == bytes::filled(v.geometry.bytes_per_sector as nat, 0),
    ensures
        extents::is_chain(v, m, d, 1),
        decoding::tidy(directories::slots_of(v.geometry, m, d)),
        listing::listing(v.geometry, m, d).entries == Seq::<EntryModel>::empty(),
        listing::listing(v.geometry, m, d).sound,
        directories::homes(v.geometry, m, d) == set![d.first_cluster],
{
    reveal(extents::is_chain);
    let g = v.geometry;
    let c = d.first_cluster;
    assert(allocation::chain_at(g, m, c, 0) == Some(c));
    assert(extents::link(g, m, d, 0) == c);
    assert(1 * g.cluster_bytes() == g.cluster_bytes());
    assert(extents::is_chain(v, m, d, 1));
    extents::lemma_chain_housed(v, m, d, 1);
    extents::lemma_chain_longer(g, m, d, 0, 0);
    assert(extents::chain_spans(g, m, d, 0, 0) =~= Seq::empty());
    let spans = slots::cluster_spans(g, c);
    assert(Seq::empty() + spans =~= spans);
    expanding::lemma_blank_cluster(g, m, c);
    lemma_blank_tidy(
        slots::span_slots(m, spans),
        walk::directory_slots(g, m, d).end,
    );
    assert(directories::homes(g, m, d) =~= set![c]);
}

/// The set of a directory with the first cluster `c`.
pub open spec fn made_set(g: Geometry, name: Seq<u16>, c: u32) -> metadata::SetModel {
    create::fresh_set(name, 0x10, c, g.cluster_bytes() as u64, false)
}

/// A directory that was entered into the one above it is the directory at the
/// path through that.
proof fn lemma_made_at<E>(
    v: Volume,
    m1: Media,
    m2: Media,
    m3: Media,
    free1: u32,
    free2: u32,
    above: Seq<Seq<char>>,
    name: Seq<char>,
    units: Seq<u16>,
    r: Room,
    c: u32,
    locs: Seq<EntryLocator>,
)
    requires
        regions::sound(v, m1, free1),
        placing::reaches::<E>(v, m1, above, r.dir, r.count),
        regions::evolves(v, m1, m2, free2, set![c]),
        regions::is_plain(v, m1, c),
        allocation::is_used(v, m1, c as int) == Some(false),
        allocation::is_used(v, m2, c as int) == Some(true),
        slots::fat_entry(v.geometry, m2, c) == 0xffff_ffff,
        forall|s: int|
            0 <= s < v.geometry.sectors_per_cluster ==> #[trigger] regions::cluster_sector(
                v.geometry,
                m2,
                c,
                s,
            ) == bytes::filled(v.geometry.bytes_per_sector as nat, 0),
        creating::is_entered::<E>(
            v,
            m2,
            m3,
            free2,
            above,
            r,
            made_set(v.geometry, units, c),
            locs,
        ),
        directories::homes(v.geometry, m2, r.dir) == directories::homes(v.geometry, m1, r.dir),
        placing::same_way::<E>(v, m1, m2, above),
        codec::name_result::<E>(name) == Ok::<Seq<u16>, Error<E>>(units),
    ensures
        ({
            let e = create::fresh_directory(v, locs, c);
            &&& placing::is_dir_at::<E>(v, m3, above.push(name), e, 1)
            &&& extents::is_chain(v, m3, e, 1)
            &&& listing::listing(v.geometry, m3, e).entries == Seq::<EntryModel>::empty()
            &&& listing::listing(v.geometry, m3, e).sound
            &&& directories::homes(v.geometry, m3, e) == set![c]
        }),
{
    let g = v.geometry;
    let e = create::fresh_directory(v, locs, c);
    let s = made_set(g, units, c);
    lemma_cluster_apart::<E>(v, m1, above, r, c);
    lemma_zeroed_kept(v, m2, m3, free2, locs, c);
    lemma_fresh_chain(v, m3, e);
    lemma_clear_of::<E>(v, m1, m2, m3, above, name, r, c);
    assert(e.data_length != 0) by {
        regions::lemma_geometry(g);
    }
    assert(entries::described(s, locs).directory() == Some(e));
    assert(directories::homes(g, m3, r.dir).disjoint(directories::homes(g, m3, e)));
    lemma_reached_through::<E>(v, m3, above, name, r.dir, r.count, e);
}

/// A free cluster is none of a directory's.
proof fn lemma_cluster_apart<E>(
    v: Volume,
    m: Media,
    above: Seq<Seq<char>>,
    r: Room,
    c: u32,
)
    requires
        regions::apart(v.geometry),
        placing::reaches::<E>(v, m, above, r.dir, r.count),
        v.geometry.in_heap(c),
        allocation::is_used(v, m, c as int) == Some(false),
    ensures
        !directories::homes(v.geometry, m, r.dir).contains(c),
{
    extents::lemma_extent_housed(v, m, r.dir, r.count);
    lemma_free_apart(v, m, r.dir, set![c]);
    assert(set![c].contains(c));
}

/// A directory that one at the end of a path lists is at the end of the longer
/// path.
proof fn lemma_reached_through<E>(
    v: Volume,
    m: Media,
    above: Seq<Seq<char>>,
    name: Seq<char>,
    d: DirectoryModel,
    n: int,
    e: DirectoryModel,
)
    requires
        regions::apart(v.geometry),
        placing::is_dir_at::<E>(v, m, above, d, n),
        trails::below::<E>(v, m, d, name) == Some(e),
        extents::is_chain(v, m, e, 1),
        e.data_length != 0,
        directories::homes(v.geometry, m, d).disjoint(directories::homes(v.geometry, m, e)),
        trails::is_clear::<E>(
            v,
            m,
            entry::root_model(v.geometry),
            above.push(name),
            directories::homes(v.geometry, m, d).union(directories::homes(v.geometry, m, e)),
        ),
    ensures
        placing::reaches::<E>(v, m, above.push(name), e, 1),
{
    creating::lemma_dir_leads::<E>(v, m, above, name, d, n);
    assert(above.push(name).last() == name);
}

/// A zeroed cluster stays one when entries elsewhere are edited.
proof fn lemma_zeroed_kept(
    v: Volume,
    m: Media,
    m2: Media,
    free: u32,
    locs: Seq<EntryLocator>,
    c: u32,
)
    requires
        regions::apart(v.geometry),
        appending::is_taken(v, m, c),
        slots::fat_entry(v.geometry, m, c) == 0xffff_ffff,
        forall|s: int|
            0 <= s < v.geometry.sectors_per_cluster ==> #[trigger] regions::cluster_sector(
                v.geometry,
                m,
                c,
                s,
            ) == bytes::filled(v.geometry.bytes_per_sector as nat, 0),
        directories::edits(v, m, m2, free, locs),
        !directories::homes_of(v.geometry, locs).contains(c),
    ensures
        appending::is_taken(v, m2, c),
        slots::fat_entry(v.geometry, m2, c) == 0xffff_ffff,
        forall|s: int|
            0 <= s < v.geometry.sectors_per_cluster ==> #[trigger] regions::cluster_sector(
                v.geometry,
                m2,
                c,
                s,
            ) == bytes::filled(v.geometry.bytes_per_sector as nat, 0),
{
    let g = v.geometry;
    regions::lemma_geometry(g);
    assert(allocation::is_used(v, m2, c as int) == Some(true));
    assert(g.fat_holds(c));
    assert(regions::same_cluster(g, m, m2, c));
    assert forall|t: int| 0 <= t < g.sectors_per_cluster implies #[trigger] regions::cluster_sector(
        g,
        m2,
        c,
        t,
    ) == bytes::filled(g.bytes_per_sector as nat, 0) by {
        assert(regions::cluster_sector(g, m2, c, t) == regions::cluster_sector(g, m, c, t));
    }
}

/// The directories on the way to a new one have none of its clusters.
proof fn lemma_clear_of<E>(
    v: Volume,
    m1: Media,
    m2: Media,
    m3: Media,
    above: Seq<Seq<char>>,
    name: Seq<char>,
    r: Room,
    c: u32,
)
    requires
        regions::apart(v.geometry),
        placing::reaches::<E>(v, m1, above, r.dir, r.count),
        placing::same_way::<E>(v, m1, m2, above),
        placing::same_way::<E>(v, m2, m3, above),
        placing::is_dir_at::<E>(v, m3, above, r.dir, r.count),
        v.geometry.in_heap(c),
        allocation::is_used(v, m1, c as int) == Some(false),
        !directories::homes(v.geometry, m3, r.dir).contains(c),
    ensures
        trails::is_clear::<E>(
            v,
            m3,
            entry::root_model(v.geometry),
            above.push(name),
            directories::homes(v.geometry, m3, r.dir).union(set![c]),
        ),
{
    let g = v.geometry;
    let root = entry::root_model(g);
    let parts = above.push(name);
    let homes = directories::homes(g, m3, r.dir);
    creating::lemma_dir_leads::<E>(v, m3, above, name, r.dir, r.count);
    if above.len() > 0 {
        let up = trails::last_dir::<E>(v, m1, root, above);
        let before = trails::passed::<E>(v, m1, root, above);
        placing::lemma_trail_longer::<E>(v, m3, root, above, name);
        let way = trails::passed::<E>(v, m3, root, parts);
        assert forall|k: int| 0 <= k < way.len() implies directories::dir_sound(
            v,
            m3,
            #[trigger] way[k],
        ) && homes.union(set![c]).disjoint(directories::homes(g, m3, way[k])) by {
            assert(homes.disjoint(directories::homes(g, m3, way[k])));
            if k < before.len() {
                assert(way[k] == before[k]);
                assert(directories::homes(g, m3, way[k]) == directories::homes(g, m2, way[k]));
                assert(directories::homes(g, m2, way[k]) == directories::homes(g, m1, way[k]));
            } else {
                assert(way[k] == up);
            }
            lemma_free_apart(v, m1, way[k], set![c]);
            assert(set![c].contains(c));
        }
    }
}

/// Making a directory where nothing has its name: it is found under the longer
/// path, and empty, and the volume mounts again with it. It is made unless there
/// is no free cluster left for it, or no room in the directory above, or its
/// name cannot be hashed; without space, the volume stays sound. Only clusters
/// of the two directories, and those that hold the entry set of the one above,
/// change.
pub proof fn law_made_directory_is_found<E>(
    v: Volume,
    m: Media,
    free: u32,
    above: Seq<Seq<char>>,
    name: Seq<char>,
    d: DirectoryModel,
    n: int,
)
    requires
        regions::sound(v, m, free),
        placing::is_dir_at::<E>(v, m, above, d, n),
        codec::name_result::<E>(name) is Ok,
        listing::child(v, m, d, codec::name_result::<E>(name)->Ok_0) == Some(None::<EntryModel>),
    ensures
        ({
            let g = v.geometry;
            let units = codec::name_result::<E>(name)->Ok_0;
            let plan = create::make_dir_plan::<E>(v, m, free, d, units);
            let m2 = plan.leaves(m);
            let d2 = trails::last_dir::<E>(v, m2, entry::root_model(g), above.push(name));
            match plan.result {
                Ok(e) => {
                    &&& regions::sound(v, m2, plan.free)
                    &&& placing::is_dir_at::<E>(v, m2, above.push(name), e, 1)
                    &&& extents::is_chain(v, m2, e, 1)
                    &&& directories::same_names(v, m, m2)
                    &&& exists|k: int| #[trigger] placing::is_dir_at::<E>(v, m2, above, d2, k)
                    &&& listing::listing(g, m2, e).entries == Seq::<EntryModel>::empty()
                    &&& listing::listing(g, m2, e).sound
                    &&& regions::evolves(
                        v,
                        m,
                        m2,
                        plan.free,
                        directories::homes(g, m2, d2).union(directories::homes_of(g, d.locs)).union(
                            directories::homes(g, m2, e),
                        ),
                    )
                    &&& remounting::mounts_again::<E>(v, m, m2, free, plan.free)
                },
                Err(error) => {
                    ||| {
                        &&& error == Error::<E>::NoSpace
                        &&& extents::is_chain(v, m, d, n) ==> plan.free == 0
                        &&& regions::sound(v, m2, plan.free)
                        &&& remounting::mounts_again::<E>(v, m, m2, free, plan.free)
                    }
                    ||| names::name_hash(v, m, units) is None
                },
            }
        }),
{
    let g = v.geometry;
    let units = codec::name_result::<E>(name)->Ok_0;
    let plan = create::make_dir_plan::<E>(v, m, free, d, units);
    creating::lemma_name_size::<E>(name);
    let wanted = create::set_len(units);
    let find = space::find_plan::<E>(v, m, free, d, wanted);
    let m1 = find.leaves(m);
    let r = placing::lemma_room_found::<E>(v, m, free, above, d, n, wanted);
    if let Ok(locs) = find.result {
        let take = allocation::allocate_plan::<E>(v, m1, find.free, 2);
        let m2 = take.leaves(m1);
        let c = take.result->Ok_0;
        let s = made_set(g, units, c);
        let write = metadata::write_set_plan::<E>(v, m2, take.free, locs, s);
        let m3 = write.leaves(m2);
        let reply = Plan::<DirectoryModel, E>::answer(
            take.free,
            Ok(create::fresh_directory(v, locs, c)),
        );
        placing::lemma_and_leaves(find, take.and(write.and(reply)), m);
        placing::lemma_and_leaves(take, write.and(reply), m1);
        placing::lemma_and_leaves(write, reply, m2);
        assert(reply.leaves(m3) == m3);
        allocating::law_allocation_claims_a_free_cluster::<E>(v, m1, find.free, 2);
        if take.result is Err {
            assert(plan.leaves(m) == m1);
            creating::lemma_changed_mounts::<E>(
                v,
                m,
                m1,
                free,
                find.free,
                above,
                d,
                n,
                r.dir,
                r.count,
            );
        } else {
            lemma_room_taken::<E>(v, m, m1, m2, find.free, take.free, above, d, wanted, r, c, units);
            if let Some(hash) = names::name_hash(v, m, units) {
                lemma_made_writable(g, units, c);
                creating::lemma_entered::<E>(v, m2, take.free, above, r, s, hash);
                lemma_made_at::<E>(
                    v,
                    m1,
                    m2,
                    m3,
                    find.free,
                    take.free,
                    above,
                    name,
                    units,
                    r,
                    c,
                    locs,
                );
                creating::lemma_dir_leads::<E>(v, m3, above, name, r.dir, r.count);
                placing::lemma_same_names_on(v, m, m2, m3);
                lemma_made_within::<E>(
                    v,
                    m,
                    m1,
                    m2,
                    m3,
                    find.free,
                    take.free,
                    above,
                    d,
                    wanted,
                    r,
                    c,
                    s,
                    locs,
                );
                lemma_made_mounts::<E>(
                    v,
                    m,
                    m1,
                    m2,
                    m3,
                    free,
                    find.free,
                    take.free,
                    above,
                    d,
                    n,
                    wanted,
                    r,
                    c,
                    s,
                    locs,
                );
            }
        }
    } else {
        assert(plan.writes == find.writes);
        creating::lemma_refused::<E>(v, m, m1, free, find.free, above, d, n, r.dir, r.count);
        assert(regions::sound(v, m1, find.free)) by {
            reveal(placing::lists_the_same);
        }
    }
}

/// The volume mounts again after a directory was made.
proof fn lemma_made_mounts<E>(
    v: Volume,
    m: Media,
    m1: Media,
    m2: Media,
    m3: Media,
    free: u32,
    free1: u32,
    free2: u32,
    above: Seq<Seq<char>>,
    d: DirectoryModel,
    n: int,
    wanted: nat,
    r: Room,
    c: u32,
    s: metadata::SetModel,
    locs: Seq<EntryLocator>,
)
    requires
        regions::sound(v, m, free),
        placing::reaches::<E>(v, m, above, d, n),
        placing::has_room::<E>(v, m, m1, free1, above, d, wanted, r),
        regions::evolves(v, m1, m2, free2, set![c]),
        regions::is_plain(v, m1, c),
        allocation::is_used(v, m1, c as int) == Some(false),
        creating::is_entered::<E>(v, m2, m3, free2, above, r, s, locs),
        regions::evolves(
            v,
            m,
            m3,
            free2,
            directories::homes(v.geometry, m3, r.dir).union(
                directories::homes_of(v.geometry, d.locs),
            ).union(set![c]),
        ),
    ensures
        remounting::mounts_again::<E>(v, m, m3, free, free2),
{
    let g = v.geometry;
    let within = directories::homes(g, m3, r.dir).union(directories::homes_of(g, d.locs));
    assert(systems::is_kept(g, m, m3)) by {
        creating::lemma_reached_root::<E>(v, m1, above, r.dir, r.count);
        lemma_free_apart(v, m1, entry::root_model(g), set![c]);
        systems::lemma_kept_beside(v, m1, m2, free1, set![c]);
        systems::lemma_kept_on(g, m, m1, m2);
        systems::lemma_kept_on(g, m, m2, m3);
    }
    creating::lemma_no_table_within::<E>(v, m, m3, free, above, d, n, r.dir, r.count);
    assert forall|x: u32| #[trigger] within.union(set![c]).contains(x) implies !regions::is_table(
        v,
        m,
        x,
    ) by {
        if within.contains(x) {
        } else {
            assert(regions::is_table(v, m1, c) == regions::is_table(v, m, c));
        }
    }
    remounting::lemma_mounts_again::<E>(v, m, m3, free, free2, within.union(set![c]));
}

/// What making a directory changes.
proof fn lemma_made_within<E>(
    v: Volume,
    m: Media,
    m1: Media,
    m2: Media,
    m3: Media,
    free1: u32,
    free2: u32,
    above: Seq<Seq<char>>,
    d: DirectoryModel,
    wanted: nat,
    r: Room,
    c: u32,
    s: metadata::SetModel,
    locs: Seq<EntryLocator>,
)
    requires
        placing::has_room::<E>(v, m, m1, free1, above, d, wanted, r),
        regions::evolves(v, m1, m2, free2, set![c]),
        directories::homes(v.geometry, m2, r.dir) == directories::homes(v.geometry, m1, r.dir),
        creating::is_entered::<E>(v, m2, m3, free2, above, r, s, locs),
    ensures
        regions::evolves(
            v,
            m,
            m3,
            free2,
            directories::homes(v.geometry, m3, r.dir).union(
                directories::homes_of(v.geometry, d.locs),
            ).union(set![c]),
        ),
{
    let g = v.geometry;
    let homes = directories::homes(g, m3, r.dir);
    let first = homes.union(directories::homes_of(g, d.locs));
    let all = first.union(set![c]);
    allocating::lemma_evolves_on(v, m, m1, m2, free1, free2, first, set![c], all);
    allocating::lemma_evolves_on(
        v,
        m,
        m2,
        m3,
        free2,
        free2,
        all,
        directories::homes_of(g, locs),
        all,
    );
}

/// The set of a directory can be written.
proof fn lemma_made_writable(g: Geometry, units: Seq<u16>, c: u32)
    requires
        1 <= units.len() <= 255,
        c >= 2,
    ensures
        entries::is_writable(made_set(g, units, c)),
        entries::entry_count(made_set(g, units, c)) == create::set_len(units),
{
}

/// Room stays room when a free cluster is taken.
proof fn lemma_room_taken<E>(
    v: Volume,
    m: Media,
    m1: Media,
    m2: Media,
    free1: u32,
    free2: u32,
    above: Seq<Seq<char>>,
    d: DirectoryModel,
    wanted: nat,
    r: Room,
    c: u32,
    units: Seq<u16>,
)
    requires
        placing::has_room::<E>(v, m, m1, free1, above, d, wanted, r),
        regions::evolves(v, m1, m2, free2, set![c]),
        v.geometry.in_heap(c),
        allocation::is_used(v, m1, c as int) == Some(false),
        listing::child(v, m, d, units) == Some(None::<EntryModel>),
    ensures
        creating::is_spot::<E>(v, m2, above, wanted, r),
        directories::homes(v.geometry, m2, r.dir) == directories::homes(v.geometry, m1, r.dir),
        placing::same_way::<E>(v, m1, m2, above),
        directories::same_names(v, m, m2),
        names::name_hash(v, m2, units) == names::name_hash(v, m, units),
        listing::find_from(
            v,
            m2,
            listing::listing_from(
                r.slots,
                walk::directory_slots(v.geometry, m2, r.dir).end,
                entry::idle_decoder(),
            ),
            units,
            0,
        ) == Some(None::<EntryModel>),
{
    let list = listing::listing(v.geometry, m, d);
    lemma_reaches_beside::<E>(v, m1, m2, free1, above, r.dir, r.count, set![c]);
    placing::lemma_same_names_on(v, m, m1, m2);
    directories::lemma_hash_kept(v, m, m2, units);
    trails::lemma_find_kept(v, m, m2, list, units, 0);
}

/// Whether those of the directories named by `parts`, one below the other from
/// `d` on, that exist are sound directories, apart from each other.
pub open spec fn are_dirs<E>(
    v: Volume,
    media: Media,
    above: Seq<Seq<char>>,
    d: DirectoryModel,
    parts: Seq<Seq<char>>,
) -> bool
    decreases parts.len(),
{
    if parts.len() == 0 {
        true
    } else {
        match trails::below::<E>(v, media, d, parts[0]) {
            Some(next) => {
                &&& exists|n: int| #[trigger]
                    placing::is_dir_at::<E>(v, media, above.push(parts[0]), next, n)
                &&& are_dirs::<E>(v, media, above.push(parts[0]), next, parts.drop_first())
            },
            None => true,
        }
    }
}

/// Whether directories with these names can be made, one below the other from
/// `d` on: each can be written and hashed, and those that are in use are names
/// of directories.
pub open spec fn are_makeable<E>(
    v: Volume,
    media: Media,
    d: DirectoryModel,
    parts: Seq<Seq<char>>,
) -> bool
    decreases parts.len(),
{
    parts.len() > 0 ==> {
        &&& are_hashable::<E>(v, media, parts)
        &&& match listing::child(v, media, d, codec::name_result::<E>(parts[0])->Ok_0) {
            Some(Some(found)) => match found.directory() {
                Some(next) => are_makeable::<E>(v, media, next, parts.drop_first()),
                None => false,
            },
            Some(None) => true,
            None => false,
        }
    }
}

/// Whether names can be written and hashed.
pub open spec fn are_hashable<E>(v: Volume, media: Media, parts: Seq<Seq<char>>) -> bool {
    forall|k: int|
        0 <= k < parts.len() ==> match codec::name_result::<E>(#[trigger] parts[k]) {
            Ok(units) => names::name_hash(v, media, units) is Some,
            Err(_) => false,
        }
}

/// Whether those of the directories named by `parts`, one below the other from
/// `d` on, that exist, and `d`, are linked by the FAT, so that they can grow.
#[verifier::opaque]
pub open spec fn are_linked<E>(
    v: Volume,
    media: Media,
    above: Seq<Seq<char>>,
    d: DirectoryModel,
    parts: Seq<Seq<char>>,
) -> bool
    decreases parts.len(),
{
    &&& exists|n: int| #[trigger]
        placing::is_dir_at::<E>(v, media, above, d, n) && extents::is_chain(v, media, d, n)
    &&& parts.len() > 0 ==> match trails::below::<E>(v, media, d, parts[0]) {
        Some(next) => are_linked::<E>(
            v,
            media,
            above.push(parts[0]),
            next,
            parts.drop_first(),
        ),
        None => true,
    }
}

/// What can be made in a directory that was just made.
proof fn lemma_more_below<E>(
    v: Volume,
    m: Media,
    m2: Media,
    above: Seq<Seq<char>>,
    e: DirectoryModel,
    parts: Seq<Seq<char>>,
)
    requires
        directories::same_names(v, m, m2),
        placing::is_dir_at::<E>(v, m2, above, e, 1),
        extents::is_chain(v, m2, e, 1),
        listing::listing(v.geometry, m2, e).entries == Seq::<EntryModel>::empty(),
        listing::listing(v.geometry, m2, e).sound,
    ensures
        are_linked::<E>(v, m2, above, e, parts),
        are_hashable::<E>(v, m, parts) ==> are_makeable::<E>(v, m2, e, parts),
{
    reveal_with_fuel(are_linked, 1);
    if are_hashable::<E>(v, m, parts) {
        assert forall|k: int| 0 <= k < parts.len() implies match codec::name_result::<E>(
            #[trigger] parts[k],
        ) {
            Ok(units) => names::name_hash(v, m2, units) is Some,
            Err(_) => false,
        } by {
            directories::lemma_hash_kept(v, m, m2, codec::name_result::<E>(parts[k])->Ok_0);
        }
    }
}

/// An empty directory has no directories below it.
proof fn lemma_none_below<E>(
    v: Volume,
    m: Media,
    above: Seq<Seq<char>>,
    d: DirectoryModel,
    parts: Seq<Seq<char>>,
)
    requires
        listing::listing(v.geometry, m, d).entries == Seq::<EntryModel>::empty(),
    ensures
        are_dirs::<E>(v, m, above, d, parts),
{
}

/// What making directories, one below the other from the directory `d` on, does:
/// a path with all of them leads to the directory `r`, or there is no space.
#[verifier::opaque]
pub open spec fn are_made<E>(
    v: Volume,
    m: Media,
    free: u32,
    above: Seq<Seq<char>>,
    d: DirectoryModel,
    parts: Seq<Seq<char>>,
    scratch_len: nat,
    r: (DirectoryModel, int),
) -> bool {
    let plan = create::make_dirs_plan::<E>(v, m, free, d, parts, scratch_len);
    let m2 = plan.leaves(m);
    match plan.result {
        Ok(_) => {
            &&& regions::sound(v, m2, plan.free)
            &&& placing::is_dir_at::<E>(v, m2, above + parts, r.0, r.1)
            &&& remounting::mounts_again::<E>(v, m, m2, free, plan.free)
        },
        Err(error) => are_makeable::<E>(v, m, d, parts) && scratch_len
            >= v.geometry.bytes_per_sector ==> {
            &&& error == Error::<E>::NoSpace
            &&& are_linked::<E>(v, m, above, d, parts) ==> plan.free == 0
            &&& regions::sound(v, m2, plan.free)
            &&& remounting::mounts_again::<E>(v, m, m2, free, plan.free)
        },
    }
}

/// Making directories from one that exists on.
proof fn lemma_made_below<E>(
    v: Volume,
    m: Media,
    free: u32,
    above: Seq<Seq<char>>,
    d: DirectoryModel,
    parts: Seq<Seq<char>>,
    scratch_len: nat,
    found: EntryModel,
    r: (DirectoryModel, int),
)
    requires
        parts.len() > 0,
        scratch_len >= v.geometry.bytes_per_sector,
        codec::name_result::<E>(parts[0]) matches Ok(units) && listing::child(v, m, d, units)
            == Some(Some(found)),
        found.directory() matches Some(e) && are_made::<E>(
            v,
            m,
            free,
            above.push(parts[0]),
            e,
            parts.drop_first(),
            scratch_len,
            r,
        ),
    ensures
        are_made::<E>(v, m, free, above, d, parts, scratch_len, r),
{
    reveal(are_made);
    reveal_with_fuel(are_linked, 1);
    let e = found.directory()->0;
    assert(above.push(parts[0]) + parts.drop_first() =~= above + parts);
    assert(trails::below::<E>(v, m, d, parts[0]) == Some(e));
}

/// Making directories from one that was just made on.
#[verifier::rlimit(40)]
proof fn lemma_made_on<E>(
    v: Volume,
    m: Media,
    free: u32,
    above: Seq<Seq<char>>,
    d: DirectoryModel,
    parts: Seq<Seq<char>>,
    scratch_len: nat,
    units: Seq<u16>,
    r: (DirectoryModel, int),
)
    requires
        parts.len() > 0,
        scratch_len >= v.geometry.bytes_per_sector,
        codec::name_result::<E>(parts[0]) == Ok::<Seq<u16>, Error<E>>(units),
        listing::child(v, m, d, units) == Some(None::<EntryModel>),
        ({
            let make = create::make_dir_plan::<E>(v, m, free, d, units);
            let m1 = make.leaves(m);
            let e = make.result->Ok_0;
            let next = above.push(parts[0]);
            let rest = parts.drop_first();
            &&& make.result is Ok
            &&& remounting::mounts_again::<E>(v, m, m1, free, make.free)
            &&& are_hashable::<E>(v, m, rest) ==> are_makeable::<E>(v, m1, e, rest)
            &&& are_linked::<E>(v, m1, next, e, rest)
            &&& are_made::<E>(v, m1, make.free, next, e, rest, scratch_len, r)
        }),
    ensures
        are_made::<E>(v, m, free, above, d, parts, scratch_len, r),
{
    let make = create::make_dir_plan::<E>(v, m, free, d, units);
    let m1 = make.leaves(m);
    let e = make.result->Ok_0;
    let rest = parts.drop_first();
    let later = create::make_dirs_plan::<E>(v, m1, make.free, e, rest, scratch_len);
    let plan = create::make_dirs_plan::<E>(v, m, free, d, parts, scratch_len);
    assert(above.push(parts[0]) + rest =~= above + parts);
    assert(plan == make.and(later));
    placing::lemma_and_leaves(make, later, m);
    assert(plan.result == later.result && plan.free == later.free);
    assert(plan.leaves(m) == later.leaves(m1));
    reveal(are_made);
    if plan.result is Ok {
        remounting::lemma_mounts_on::<E>(v, m, m1, plan.leaves(m), free, make.free, plan.free);
    } else if are_makeable::<E>(v, m, d, parts) {
        assert forall|k: int| 0 <= k < rest.len() implies match codec::name_result::<E>(
            #[trigger] rest[k],
        ) {
            Ok(units) => names::name_hash(v, m, units) is Some,
            Err(_) => false,
        } by {
            assert(rest[k] == parts[k + 1]);
        }
        remounting::lemma_mounts_on::<E>(v, m, m1, plan.leaves(m), free, make.free, plan.free);
    }
}

/// Where the first of the directories cannot be made.
proof fn lemma_not_made<E>(
    v: Volume,
    m: Media,
    free: u32,
    above: Seq<Seq<char>>,
    d: DirectoryModel,
    n: int,
    parts: Seq<Seq<char>>,
    scratch_len: nat,
    units: Seq<u16>,
    r: (DirectoryModel, int),
)
    requires
        regions::sound(v, m, free),
        placing::is_dir_at::<E>(v, m, above, d, n),
        parts.len() > 0,
        scratch_len >= v.geometry.bytes_per_sector,
        codec::name_result::<E>(parts[0]) == Ok::<Seq<u16>, Error<E>>(units),
        listing::child(v, m, d, units) == Some(None::<EntryModel>),
        create::make_dir_plan::<E>(v, m, free, d, units).result is Err,
    ensures
        are_made::<E>(v, m, free, above, d, parts, scratch_len, r),
{
    reveal(are_made);
    reveal_with_fuel(are_linked, 1);
    let make = create::make_dir_plan::<E>(v, m, free, d, units);
    let plan = create::make_dirs_plan::<E>(v, m, free, d, parts, scratch_len);
    let error = make.result->Err_0;
    assert(plan.result == Err::<(), Error<E>>(error) && plan.free == make.free);
    let count = if are_linked::<E>(v, m, above, d, parts) {
        choose|k: int| #[trigger]
            placing::is_dir_at::<E>(v, m, above, d, k) && extents::is_chain(v, m, d, k)
    } else {
        n
    };
    law_made_directory_is_found::<E>(v, m, free, above, parts[0], d, count);
}

/// Making directories, one below the other from the directory `d` on.
proof fn lemma_dirs_made<E>(
    v: Volume,
    m: Media,
    free: u32,
    above: Seq<Seq<char>>,
    d: DirectoryModel,
    n: int,
    parts: Seq<Seq<char>>,
    scratch_len: nat,
) -> (r: (DirectoryModel, int))
    requires
        regions::sound(v, m, free),
        placing::is_dir_at::<E>(v, m, above, d, n),
        are_dirs::<E>(v, m, above, d, parts),
        scratch_len >= v.geometry.bytes_per_sector,
    ensures
        are_made::<E>(v, m, free, above, d, parts, scratch_len, r),
    decreases parts.len(),
{
    let plan = create::make_dirs_plan::<E>(v, m, free, d, parts, scratch_len);
    if parts.len() == 0 {
        reveal(are_made);
        assert(above + parts =~= above);
        assert(plan.leaves(m) == m);
        remounting::lemma_mounts_still::<E>(v, m, free);
        (d, n)
    } else {
        let name = parts[0];
        let rest = parts.drop_first();
        let next = above.push(name);
        match codec::name_result::<E>(name) {
            Err(_) => {
                reveal(are_made);
                (d, n)
            },
            Ok(units) => match listing::child(v, m, d, units) {
                None => {
                    reveal(are_made);
                    (d, n)
                },
                Some(Some(found)) => match found.directory() {
                    None => {
                        reveal(are_made);
                        (d, n)
                    },
                    Some(e) => {
                        assert(trails::below::<E>(v, m, d, name) == Some(e));
                        let k = choose|k: int| #[trigger]
                            placing::is_dir_at::<E>(v, m, next, e, k);
                        let r = lemma_dirs_made::<E>(
                            v,
                            m,
                            free,
                            next,
                            e,
                            k,
                            rest,
                            scratch_len,
                        );
                        lemma_made_below::<E>(
                            v,
                            m,
                            free,
                            above,
                            d,
                            parts,
                            scratch_len,
                            found,
                            r,
                        );
                        r
                    },
                },
                Some(None) => {
                    let make = create::make_dir_plan::<E>(v, m, free, d, units);
                    let m1 = make.leaves(m);
                    match make.result {
                        Err(_) => {
                            lemma_not_made::<E>(
                                v,
                                m,
                                free,
                                above,
                                d,
                                n,
                                parts,
                                scratch_len,
                                units,
                                (d, n),
                            );
                            (d, n)
                        },
                        Ok(e) => {
                            law_made_directory_is_found::<E>(v, m, free, above, name, d, n);
                            lemma_none_below::<E>(v, m1, next, e, rest);
                            lemma_more_below::<E>(v, m, m1, next, e, rest);
                            let r = lemma_dirs_made::<E>(
                                v,
                                m1,
                                make.free,
                                next,
                                e,
                                1,
                                rest,
                                scratch_len,
                            );
                            lemma_made_on::<E>(
                                v,
                                m,
                                free,
                                above,
                                d,
                                parts,
                                scratch_len,
                                units,
                                r,
                            );
                            r
                        },
                    }
                },
            },
        }
    }
}

/// Whether the names `parts` lead from the directory `d` to a directory.
pub open spec fn is_dir_path<E>(
    v: Volume,
    m: Media,
    d: DirectoryModel,
    parts: Seq<Seq<char>>,
    scratch_len: nat,
) -> bool {
    lookup::resolve::<E>(v, m, d, parts, scratch_len) matches Ok(found) && found.directory() is Some
}

/// Where a path leads to a directory, so does every part of it.
proof fn lemma_dir_prefix<E>(
    v: Volume,
    m: Media,
    d: DirectoryModel,
    parts: Seq<Seq<char>>,
    scratch_len: nat,
    k: int,
)
    requires
        is_dir_path::<E>(v, m, d, parts, scratch_len),
        0 < k <= parts.len(),
    ensures
        is_dir_path::<E>(v, m, d, parts.take(k), scratch_len),
    decreases k,
{
    if k > 1 {
        let units = codec::name_result::<E>(parts[0])->Ok_0;
        let found = listing::child_result::<E>(v, m, d, units, scratch_len)->Ok_0->0;
        let e = found.directory()->0;
        lemma_dir_prefix::<E>(v, m, e, parts.drop_first(), scratch_len, k - 1);
        assert(parts.take(k).drop_first() =~= parts.drop_first().take(k - 1));
    }
}

/// Nothing is made of a path that leads to a directory.
proof fn lemma_dirs_passed<E>(
    v: Volume,
    m: Media,
    free: u32,
    d: DirectoryModel,
    parts: Seq<Seq<char>>,
    scratch_len: nat,
)
    requires
        is_dir_path::<E>(v, m, d, parts, scratch_len),
    ensures
        create::make_dirs_plan::<E>(v, m, free, d, parts, scratch_len) == Plan::<(), E>::answer(
            free,
            Ok(()),
        ),
    decreases parts.len(),
{
    let units = codec::name_result::<E>(parts[0])->Ok_0;
    let found = listing::child_result::<E>(v, m, d, units, scratch_len)->Ok_0->0;
    let e = found.directory()->0;
    if parts.len() > 1 {
        lemma_dirs_passed::<E>(v, m, free, e, parts.drop_first(), scratch_len);
    } else {
        assert(create::make_dirs_plan::<E>(v, m, free, e, parts.drop_first(), scratch_len)
            == Plan::<(), E>::answer(free, Ok(())));
    }
}

/// Nothing is made of a path that leads through a file.
proof fn lemma_file_passed<E>(
    v: Volume,
    m: Media,
    free: u32,
    d: DirectoryModel,
    parts: Seq<Seq<char>>,
    scratch_len: nat,
    k: int,
)
    requires
        0 < k <= parts.len(),
        lookup::resolve::<E>(v, m, d, parts.take(k), scratch_len) matches Ok(found)
            && found.directory() is None,
    ensures
        create::make_dirs_plan::<E>(v, m, free, d, parts, scratch_len) == Plan::<(), E>::answer(
            free,
            Err(Error::NotDirectory),
        ),
    decreases k,
{
    assert(parts.take(k)[0] == parts[0]);
    if k > 1 {
        let units = codec::name_result::<E>(parts[0])->Ok_0;
        let found = listing::child_result::<E>(v, m, d, units, scratch_len)->Ok_0->0;
        let e = found.directory()->0;
        assert(parts.take(k).drop_first() =~= parts.drop_first().take(k - 1));
        lemma_file_passed::<E>(v, m, free, e, parts.drop_first(), scratch_len, k - 1);
    }
}

/// Where a path names a directory already, nothing is made or written, and every
/// directory on the way counts as made.
pub proof fn law_existing_directories_are_kept<E>(
    v: Volume,
    m: Media,
    free: u32,
    path: Seq<char>,
    scratch_len: nat,
)
    requires
        is_dir_path::<E>(
            v,
            m,
            entry::root_model(v.geometry),
            paths::components(paths::trimmed(path)),
            scratch_len,
        ),
    ensures
        create::create_dir_all_plan::<E>(v, m, free, path, scratch_len) == Plan::<(), E>::answer(
            free,
            Ok(()),
        ),
{
    let root = entry::root_model(v.geometry);
    let parts = paths::components(paths::trimmed(path));
    if paths::trimmed(path).len() == 0 {
        assert(parts =~= Seq::empty());
    }
    lemma_dirs_passed::<E>(v, m, free, root, parts, scratch_len);
}

/// A path of which a part names a file is refused, and nothing is written.
pub proof fn law_no_directory_is_made_below_a_file<E>(
    v: Volume,
    m: Media,
    free: u32,
    path: Seq<char>,
    scratch_len: nat,
    k: int,
)
    requires
        0 < k <= paths::components(paths::trimmed(path)).len(),
        lookup::resolve::<E>(
            v,
            m,
            entry::root_model(v.geometry),
            paths::components(paths::trimmed(path)).take(k),
            scratch_len,
        ) matches Ok(found) && found.directory() is None,
    ensures
        create::create_dir_all_plan::<E>(v, m, free, path, scratch_len) == Plan::<(), E>::answer(
            free,
            Err(Error::NotDirectory),
        ),
{
    let root = entry::root_model(v.geometry);
    let parts = paths::components(paths::trimmed(path));
    if paths::trimmed(path).len() == 0 {
        assert(parts =~= Seq::empty());
    }
    lemma_file_passed::<E>(v, m, free, root, parts, scratch_len, k);
}

/// Once every directory of a path was made, the path names a directory, as does
/// every part of it from the root on; further entries can be created in it, and
/// the volume mounts again. Making them once more answers the same and writes
/// nothing. A path with names that can be hashed, none of them in use by a file,
/// is made unless there is no space left, which directories linked by the FAT
/// have as long as clusters are free; the volume stays sound without.
pub proof fn law_created_directories_exist<E>(
    v: Volume,
    m: Media,
    free: u32,
    path: Seq<char>,
    scratch_len: nat,
    n: int,
)
    requires
        regions::sound(v, m, free),
        placing::is_dir_at::<E>(v, m, Seq::empty(), entry::root_model(v.geometry), n),
        are_dirs::<E>(
            v,
            m,
            Seq::empty(),
            entry::root_model(v.geometry),
            paths::components(paths::trimmed(path)),
        ),
        scratch_len >= v.geometry.bytes_per_sector,
    ensures
        ({
            let inner = paths::trimmed(path);
            let plan = create::create_dir_all_plan::<E>(v, m, free, path, scratch_len);
            let m2 = plan.leaves(m);
            match plan.result {
                Ok(_) => {
                    &&& regions::sound(v, m2, plan.free)
                    &&& lookup::lookup_result::<E>(v, m2, inner, scratch_len) matches Ok(found)
                    &&& found.directory() matches Some(d)
                    &&& exists|k: int| #[trigger]
                        placing::is_dir_at::<E>(v, m2, paths::components(inner), d, k)
                    &&& forall|k: int|
                        0 < k <= paths::components(inner).len() ==> is_dir_path::<E>(
                            v,
                            m2,
                            entry::root_model(v.geometry),
                            #[trigger] paths::components(inner).take(k),
                            scratch_len,
                        )
                    &&& create::create_dir_all_plan::<E>(v, m2, plan.free, path, scratch_len)
                        == Plan::<(), E>::answer(plan.free, Ok(()))
                    &&& remounting::mounts_again::<E>(v, m, m2, free, plan.free)
                },
                Err(error) => {
                    ||| inner.len() == 0 && error == Error::<E>::InvalidPath
                    ||| !are_makeable::<E>(
                        v,
                        m,
                        entry::root_model(v.geometry),
                        paths::components(inner),
                    )
                    ||| {
                        &&& error == Error::<E>::NoSpace
                        &&& are_linked::<E>(
                            v,
                            m,
                            Seq::empty(),
                            entry::root_model(v.geometry),
                            paths::components(inner),
                        ) ==> plan.free == 0
                        &&& regions::sound(v, m2, plan.free)
                        &&& remounting::mounts_again::<E>(v, m, m2, free, plan.free)
                    }
                },
            }
        }),
{
    let g = v.geometry;
    let root = entry::root_model(g);
    let inner = paths::trimmed(path);
    let parts = paths::components(inner);
    let plan = create::create_dir_all_plan::<E>(v, m, free, path, scratch_len);
    let m2 = plan.leaves(m);
    if inner.len() > 0 {
        let (d, k) = lemma_dirs_made::<E>(
            v,
            m,
            free,
            Seq::empty(),
            root,
            n,
            parts,
            scratch_len,
        );
        assert(Seq::empty() + parts =~= parts);
        create::lemma_trimmed_component(path);
        reveal(are_made);
        if plan.result is Ok {
            trails::lemma_resolve::<E>(v, m2, root, parts, scratch_len);
            assert forall|j: int| 0 < j <= parts.len() implies is_dir_path::<E>(
                v,
                m2,
                root,
                #[trigger] parts.take(j),
                scratch_len,
            ) by {
                lemma_dir_prefix::<E>(v, m2, root, parts, scratch_len, j);
            }
            law_existing_directories_are_kept::<E>(v, m2, plan.free, path, scratch_len);
        }
    }
}

} // verus!
