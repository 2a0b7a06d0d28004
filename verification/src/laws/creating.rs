//! Creating files: they are found under their paths.

use crate::device::Media;
use crate::directory::codec;
use crate::directory::entry;
use crate::directory::entry::{DirectoryModel, EntryModel};
use crate::directory::slots;
use crate::directory::slots::EntryLocator;
use crate::error::Error;
use crate::fs::allocation;
use crate::fs::create;
use crate::fs::file;
use crate::fs::file::FileModel;
use crate::fs::listing;
use crate::fs::listing::Listing;
use crate::fs::lookup;
use crate::fs::metadata;
use crate::fs::metadata::SetModel;
use crate::fs::names;
use crate::fs::paths;
use crate::fs::release;
use crate::fs::space;
use crate::fs::state::Plan;
use crate::fs::walk;
use crate::laws::adding;
use crate::laws::allocating;
use crate::laws::appending;
use crate::laws::components;
use crate::laws::decoding;
use crate::laws::directories;
use crate::laws::entries;
use crate::laws::extents;
use crate::laws::files;
use crate::laws::placing;
use crate::laws::placing::Room;
use crate::laws::regions;
use crate::laws::remounting;
use crate::laws::reopening;
use crate::laws::systems;
use crate::laws::trails;
use crate::mount::Volume;
use vstd::prelude::*;

verus! {

/// Whether `r` are free slots of the directory that a path with the parts
/// `above` leads to.
pub open spec fn is_spot<E>(
    v: Volume,
    media: Media,
    above: Seq<Seq<char>>,
    wanted: nat,
    r: Room,
) -> bool {
    &&& placing::reaches::<E>(v, media, above, r.dir, r.count)
    &&& decoding::tidy(r.slots)
    &&& decoding::is_free_run(r.slots, r.at, wanted)
    &&& adding::is_room(
        directories::slots_of(v.geometry, media, r.dir),
        r.slots,
        r.at,
        wanted,
    )
    &&& placing::is_unused(directories::slots_of(v.geometry, media, r.dir), r.at, wanted)
    &&& systems::is_ended(directories::slots_of(v.geometry, media, r.dir))
}

/// A FAT-linked directory is one still once entries were edited.
pub proof fn lemma_chain_edited(
    v: Volume,
    m: Media,
    m2: Media,
    free: u32,
    d: DirectoryModel,
    n: int,
    locs: Seq<EntryLocator>,
)
    requires
        regions::apart(v.geometry),
        extents::is_chain(v, m, d, n),
        directories::edits(v, m, m2, free, locs),
    ensures
        extents::is_chain(v, m2, d, n),
{
    reveal(extents::is_chain);
    let g = v.geometry;
    let first = d.first_cluster;
    regions::lemma_geometry(g);
    assert forall|i: nat| i < n implies #[trigger] allocation::chain_at(g, m2, first, i)
        == allocation::chain_at(g, m, first, i) by {
        regions::lemma_chain_same(g, m, m2, first, i);
    }
    assert forall|i: nat| i < n implies (#[trigger] allocation::chain_at(
        g,
        m2,
        first,
        i,
    ) matches Some(c) && appending::is_taken(v, m2, c)) by {
        assert(allocation::chain_at(g, m, first, i) is Some);
        let c = allocation::chain_at(g, m, first, i)->0;
        assert(allocation::is_used(v, m2, c as int) == allocation::is_used(v, m, c as int));
    }
    assert(allocation::chain_at(g, m, first, (n - 1) as nat) is Some);
    assert(allocation::chain_at(g, m2, first, (n - 1) as nat) is Some);
    let tail = extents::link(g, m, d, n - 1);
    assert(extents::link(g, m2, d, n - 1) == tail);
    assert(g.fat_holds(tail));
}

/// A directory has the same extent once entries were edited.
pub proof fn lemma_extent_edited(
    v: Volume,
    m: Media,
    m2: Media,
    free: u32,
    d: DirectoryModel,
    n: int,
    locs: Seq<EntryLocator>,
)
    requires
        regions::apart(v.geometry),
        extents::is_extent(v, m, d, n),
        directories::edits(v, m, m2, free, locs),
    ensures
        extents::is_extent(v, m2, d, n),
{
    if extents::is_chain(v, m, d, n) {
        lemma_chain_edited(v, m, m2, free, d, n, locs);
    } else {
        reveal(extents::is_fixed);
        let spans = directories::spans_of(v.geometry, m, d);
        adding::lemma_slots_edited(v, m, m2, free, d, locs);
        assert forall|j: int| 0 <= j < spans.len() implies directories::is_housed(
            v,
            m2,
            (#[trigger] spans[j]).lba,
        ) by {
            let c = directories::home(v.geometry, spans[j].lba);
            assert(directories::is_housed(v, m, spans[j].lba));
            assert(allocation::is_used(v, m2, c as int) == allocation::is_used(v, m, c as int));
        }
    }
}

/// Editing entries of the directory that a path leads to leaves the way to it
/// alone.
pub proof fn lemma_reaches_edited<E>(
    v: Volume,
    m: Media,
    m2: Media,
    free: u32,
    above: Seq<Seq<char>>,
    d: DirectoryModel,
    n: int,
    locs: Seq<EntryLocator>,
)
    requires
        regions::sound(v, m, free),
        placing::reaches::<E>(v, m, above, d, n),
        directories::edits(v, m, m2, free, locs),
        directories::homes_of(v.geometry, locs).subset_of(directories::homes(v.geometry, m, d)),
    ensures
        placing::reaches::<E>(v, m2, above, d, n),
        directories::homes(v.geometry, m2, d) == directories::homes(v.geometry, m, d),
        directories::same_names(v, m, m2),
        placing::same_way::<E>(v, m, m2, above),
{
    let g = v.geometry;
    let root = entry::root_model(g);
    let touched = directories::homes_of(g, locs);
    extents::lemma_extent_housed(v, m, d, n);
    lemma_extent_edited(v, m, m2, free, d, n, locs);
    adding::lemma_slots_edited(v, m, m2, free, d, locs);
    assert(directories::homes(g, m2, d) =~= directories::homes(g, m, d));
    assert forall|c: u32| #[trigger] touched.contains(c) implies !regions::is_table(v, m, c) by {
        placing::lemma_homes_taken(v, m, d, c);
    }
    directories::lemma_names_kept(v, m, m2, free, touched);
    if above.len() > 0 {
        let up = trails::last_dir::<E>(v, m, root, above);
        let way = trails::passed::<E>(v, m, root, above);
        let apart = directories::homes(g, m, up).union(directories::homes(g, m, d));
        assert(trails::is_clear::<E>(v, m, root, above, touched)) by {
            assert forall|k: int| 0 <= k < way.len() implies directories::dir_sound(
                v,
                m,
                #[trigger] way[k],
            ) && touched.disjoint(directories::homes(g, m, way[k])) by {
                assert(apart.disjoint(directories::homes(g, m, way[k])));
            }
        }
        placing::lemma_way_kept::<E>(v, m, m2, free, above, touched);
        assert forall|k: int| 0 <= k < way.len() implies directories::dir_sound(
            v,
            m2,
            #[trigger] way[k],
        ) && apart.disjoint(directories::homes(g, m2, way[k])) by {
            assert(apart.disjoint(directories::homes(g, m, way[k])));
        }
    }
}

/// The slots that a set is written to lie in clusters of the directory.
proof fn lemma_run_homes(v: Volume, m: Media, d: DirectoryModel, from: int, to: int)
    requires
        0 <= from <= to <= directories::slots_of(v.geometry, m, d).len(),
    ensures
        directories::homes_of(
            v.geometry,
            decoding::places(directories::slots_of(v.geometry, m, d), from, to),
        ).subset_of(directories::homes(v.geometry, m, d)),
{
    let g = v.geometry;
    let a = directories::slots_of(g, m, d);
    let locs = decoding::places(a, from, to);
    let spans = directories::spans_of(g, m, d);
    assert forall|c: u32| directories::homes_of(g, locs).contains(c) implies directories::homes(
        g,
        m,
        d,
    ).contains(c) by {
        let k = choose|k: int|
            0 <= k < locs.len() && c == directories::home(g, (#[trigger] locs[k]).lba);
        directories::lemma_slot_place(m, spans, from + k);
        let (j, t) = directories::place_of(spans, from + k);
        assert(locs[k].lba == spans[j].lba);
    }
}

/// Whether an entry set was written into free slots of a directory, which lists
/// it then.
pub open spec fn is_entered<E>(
    v: Volume,
    m: Media,
    m2: Media,
    free: u32,
    above: Seq<Seq<char>>,
    r: Room,
    s: SetModel,
    locs: Seq<EntryLocator>,
) -> bool {
    let g = v.geometry;
    &&& placing::is_dir_at::<E>(v, m2, above, r.dir, r.count)
    &&& directories::edits(v, m, m2, free, locs)
    &&& directories::homes_of(g, locs).subset_of(directories::homes(g, m, r.dir))
    &&& directories::homes(g, m2, r.dir) == directories::homes(g, m, r.dir)
    &&& directories::same_names(v, m, m2)
    &&& systems::is_kept(g, m, m2)
    &&& listing::child(v, m2, r.dir, s.name) == Some(Some(entries::described(s, locs)))
    &&& placing::same_way::<E>(v, m, m2, above)
    &&& exists|p: int| #[trigger]
        adding::is_listed(
            listing::listing_from(
                r.slots,
                walk::directory_slots(g, m, r.dir).end,
                entry::idle_decoder(),
            ),
            listing::listing(g, m2, r.dir),
            entries::described(s, locs),
            p,
        )
    &&& keeps_names(
        v,
        m,
        m2,
        listing::listing_from(
            r.slots,
            walk::directory_slots(g, m, r.dir).end,
            entry::idle_decoder(),
        ),
        r.dir,
        s.name,
    )
}

/// Whether names other than `new` find in `d2` what they found in `list`.
#[verifier::opaque]
pub open spec fn keeps_names(
    v: Volume,
    m: Media,
    m2: Media,
    list: Listing,
    d2: DirectoryModel,
    new: Seq<u16>,
) -> bool {
    forall|name: Seq<u16>|
        names::same_name(v, m, new, name) == Some(false) && (#[trigger] listing::find_from(
            v,
            m,
            list,
            name,
            0,
        ) matches Some(Some(_))) ==> listing::child(v, m2, d2, name) == listing::find_from(
            v,
            m,
            list,
            name,
            0,
        )
}

/// The root directory is sound on the way to a directory, and shares no clusters
/// with one below it.
pub proof fn lemma_reached_root<E>(
    v: Volume,
    m: Media,
    above: Seq<Seq<char>>,
    d: DirectoryModel,
    n: int,
)
    requires
        regions::apart(v.geometry),
        placing::reaches::<E>(v, m, above, d, n),
    ensures
        directories::dir_housed(v, m, entry::root_model(v.geometry)),
        above.len() > 0 ==> directories::homes(v.geometry, m, d).disjoint(
            directories::homes(v.geometry, m, entry::root_model(v.geometry)),
        ),
{
    extents::lemma_extent_housed(v, m, d, n);
    if above.len() > 0 {
        let way = trails::passed::<E>(v, m, entry::root_model(v.geometry), above);
        if above.len() > 1 {
            assert(way[0] == entry::root_model(v.geometry));
        }
    }
}

/// The kinds of the entries that a set is written to, before and after.
proof fn lemma_entered_kinds(
    v: Volume,
    m: Media,
    m2: Media,
    r: Room,
    s: SetModel,
    hash: u16,
)
    requires
        regions::apart(v.geometry),
        directories::dir_housed(v, m, r.dir),
        directories::dir_housed(v, m2, r.dir),
        decoding::is_free_run(r.slots, r.at, entries::entry_count(s)),
        adding::is_room(
            directories::slots_of(v.geometry, m, r.dir),
            r.slots,
            r.at,
            entries::entry_count(s),
        ),
        placing::is_unused(
            directories::slots_of(v.geometry, m, r.dir),
            r.at,
            entries::entry_count(s),
        ),
        decoding::is_inserted(
            r.slots,
            directories::slots_of(v.geometry, m2, r.dir),
            r.at,
            s,
            hash,
            decoding::places(r.slots, r.at, r.at + entries::entry_count(s)),
        ),
    ensures
        ({
            let locs = decoding::places(r.slots, r.at, r.at + entries::entry_count(s));
            &&& systems::are_passed(m, locs)
            &&& systems::are_in_use(m2, locs)
        }),
{
    let g = v.geometry;
    let n = entries::entry_count(s);
    let locs = decoding::places(r.slots, r.at, r.at + n);
    let a = directories::slots_of(g, m, r.dir);
    let b = directories::slots_of(g, m2, r.dir);
    assert forall|k: int| 0 <= k < locs.len() implies (systems::kind_at(m, #[trigger] locs[k]) == 0
        || systems::is_passed(systems::kind_at(m, locs[k]))) && systems::is_passed(
        systems::kind_at(m2, locs[k]),
    ) by {
        adding::lemma_slot(v, m, r.dir, r.at + k);
        adding::lemma_slot(v, m2, r.dir, r.at + k);
        assert(a[r.at + k].at == r.slots[r.at + k].at);
        assert(a[r.at + k].raw[0] <= 0x80);
        let set = b.subrange(r.at, r.at + n);
        assert(set[k] == entries::set_slots(s, hash, locs)[k]);
        assert(b[r.at + k].at == locs[k]);
        assert(b[r.at + k].raw == entries::sealed_entry(s, hash, n, k));
    }
}

/// Writing an entry set into free slots of the directory that a path names:
/// the set is found there under its name, and what other names found is found
/// still.
pub proof fn lemma_entered<E>(
    v: Volume,
    m: Media,
    free: u32,
    above: Seq<Seq<char>>,
    r: Room,
    s: SetModel,
    hash: u16,
)
    requires
        regions::sound(v, m, free),
        is_spot::<E>(v, m, above, entries::entry_count(s), r),
        entries::is_writable(s),
        names::name_hash(v, m, s.name) == Some(hash),
        listing::find_from(
            v,
            m,
            listing::listing_from(
                r.slots,
                walk::directory_slots(v.geometry, m, r.dir).end,
                entry::idle_decoder(),
            ),
            s.name,
            0,
        ) == Some(None::<EntryModel>),
    ensures
        ({
            let locs = decoding::places(r.slots, r.at, r.at + entries::entry_count(s));
            let plan = metadata::write_set_plan::<E>(v, m, free, locs, s);
            &&& plan.result == Ok::<(), Error<E>>(())
            &&& plan.free == free
            &&& is_entered::<E>(v, m, plan.leaves(m), free, above, r, s, locs)
        }),
{
    let g = v.geometry;
    let d = r.dir;
    let n = entries::entry_count(s);
    let all = directories::slots_of(g, m, d);
    let locs = decoding::places(r.slots, r.at, r.at + n);
    let end = walk::directory_slots(g, m, d).end;
    let plan = metadata::write_set_plan::<E>(v, m, free, locs, s);
    let m2 = plan.leaves(m);
    reveal(keeps_names);
    extents::lemma_extent_housed(v, m, d, r.count);
    adding::lemma_set_inserted::<E>(v, m, free, d, r.slots, r.at, s, hash);
    assert(locs =~= decoding::places(all, r.at, r.at + n));
    lemma_run_homes(v, m, d, r.at, r.at + n);
    lemma_reaches_edited::<E>(v, m, m2, free, above, d, r.count, locs);
    let after = directories::slots_of(g, m2, d);
    assert(systems::is_kept(g, m, m2)) by {
        lemma_reached_root::<E>(v, m, above, d, r.count);
        if above.len() == 0 {
            lemma_entered_kinds(v, m, m2, r, s, hash);
            systems::lemma_kept_filled(v, m, m2, free, locs);
        } else {
            systems::lemma_kept_beside(v, m, m2, free, directories::homes_of(g, locs));
        }
    }
    let p = adding::lemma_inserted_is_listed(r.slots, after, end, r.at, s, hash, locs);
    let idle = entry::idle_decoder();
    let new = entries::described(s, locs);
    adding::lemma_new_is_found(
        v,
        m,
        m2,
        listing::listing_from(r.slots, end, idle),
        listing::listing_from(after, end, idle),
        new,
        p,
    );
}

/// What a path with one more part than one to a directory leads to.
pub proof fn lemma_dir_leads<E>(
    v: Volume,
    m: Media,
    above: Seq<Seq<char>>,
    name: Seq<char>,
    d: DirectoryModel,
    n: int,
)
    requires
        regions::apart(v.geometry),
        placing::is_dir_at::<E>(v, m, above, d, n),
    ensures
        ({
            let g = v.geometry;
            let root = entry::root_model(g);
            let parts = above.push(name);
            &&& trails::leads::<E>(v, m, root, parts)
            &&& trails::last_dir::<E>(v, m, root, parts) == d
            &&& directories::dir_sound(v, m, d)
            &&& trails::is_clear::<E>(v, m, root, parts, directories::homes(g, m, d))
        }),
{
    let g = v.geometry;
    let root = entry::root_model(g);
    let parts = above.push(name);
    let homes = directories::homes(g, m, d);
    extents::lemma_extent_housed(v, m, d, n);
    if above.len() > 0 {
        let up = trails::last_dir::<E>(v, m, root, above);
        let before = trails::passed::<E>(v, m, root, above);
        placing::lemma_trail_longer::<E>(v, m, root, above, name);
        let way = trails::passed::<E>(v, m, root, parts);
        assert forall|k: int| 0 <= k < way.len() implies directories::dir_sound(
            v,
            m,
            #[trigger] way[k],
        ) && homes.disjoint(directories::homes(g, m, way[k])) by {
            if k < before.len() {
                assert(way[k] == before[k]);
                assert(directories::homes(g, m, up).union(homes).disjoint(
                    directories::homes(g, m, before[k]),
                ));
            } else {
                assert(way[k] == up);
            }
        }
    }
}

/// A name has units, and its entry set between three and nineteen entries.
pub proof fn lemma_name_size<E>(name: Seq<char>)
    requires
        codec::name_result::<E>(name) is Ok,
    ensures
        1 <= codec::name_result::<E>(name)->Ok_0.len() <= 255,
        3 <= create::set_len(codec::name_result::<E>(name)->Ok_0) <= 19,
{
    assert(codec::char_units(name.last()).len() >= 1);
}

/// The directory in which a path's last component is looked up and created.
pub proof fn lemma_parent<E>(v: Volume, m: Media, path: Seq<char>, scratch_len: nat)
    requires
        paths::trimmed(path).len() > 0,
        trails::leads::<E>(
            v,
            m,
            entry::root_model(v.geometry),
            paths::components(paths::trimmed(path)),
        ),
        scratch_len >= v.geometry.bytes_per_sector,
    ensures
        ({
            let parts = paths::components(paths::trimmed(path));
            let d = trails::last_dir::<E>(v, m, entry::root_model(v.geometry), parts);
            create::parent_result::<E>(v, m, paths::trimmed(path), scratch_len) == Ok::<
                (DirectoryModel, Seq<char>),
                Error<E>,
            >((d, parts.last()))
        }),
{
    let inner = paths::trimmed(path);
    let parts = paths::components(inner);
    let root = entry::root_model(v.geometry);
    components::law_path_is_parent_and_name(path);
    if let Some((above, name)) = paths::split_last(inner) {
        let before = paths::components(above);
        components::lemma_parent_component(path);
        placing::lemma_trail_shorter::<E>(v, m, root, before, name);
        trails::lemma_resolve::<E>(v, m, root, before, scratch_len);
    }
}

/// A path that is missing in a sound directory.
pub proof fn lemma_missing<E>(
    v: Volume,
    m: Media,
    parts: Seq<Seq<char>>,
    scratch_len: nat,
    d: DirectoryModel,
    n: int,
)
    requires
        regions::apart(v.geometry),
        parts.len() > 0,
        placing::is_dir_at::<E>(v, m, parts.drop_last(), d, n),
        scratch_len >= v.geometry.bytes_per_sector,
        lookup::resolve::<E>(v, m, entry::root_model(v.geometry), parts, scratch_len) == Err::<
            EntryModel,
            Error<E>,
        >(Error::PathNotFound),
    ensures
        codec::name_result::<E>(parts.last()) is Ok,
        listing::child(v, m, d, codec::name_result::<E>(parts.last())->Ok_0) == Some(
            None::<EntryModel>,
        ),
{
    let above = parts.drop_last();
    assert(above.push(parts.last()) =~= parts);
    lemma_dir_leads::<E>(v, m, above, parts.last(), d, n);
    trails::lemma_resolve::<E>(v, m, entry::root_model(v.geometry), parts, scratch_len);
}

/// The handle of a new file is sound.
proof fn lemma_fresh_sound(v: Volume, m: Media, locs: Seq<EntryLocator>)
    requires
        regions::apart(v.geometry),
    ensures
        files::file_sound(v, m, create::fresh_file(locs)),
        files::owned(v.geometry, m, create::fresh_file(locs)) == Set::<u32>::empty(),
{
    let g = v.geometry;
    let f = create::fresh_file(locs);
    regions::lemma_geometry(g);
    release::lemma_clusters(g, 0);
    assert(files::count_of(g, f) == 0);
    assert(files::owned(g, m, f) =~= Set::empty());
}

/// A file that is created where nothing has its name is found when its path is
/// opened, empty, and in its directory, which may have grown for it; the volume
/// mounts again with it. Only clusters of that directory, those that it took
/// being free before, and those that hold the directory's own entry set change.
/// The file is created unless the directory has no room for its entry set, which
/// one linked by the FAT has as long as clusters are free, or its name cannot be
/// hashed; whatever else the directory listed is listed still, in the same order,
/// and further entries can be created in it. Without room the directory lists
/// what it did.
#[verifier::rlimit(40)]
pub proof fn law_created_file_is_found<E>(
    v: Volume,
    m: Media,
    free: u32,
    path: Seq<char>,
    scratch_len: nat,
    d: DirectoryModel,
    n: int,
)
    requires
        regions::sound(v, m, free),
        paths::trimmed(path).len() > 0,
        placing::is_dir_at::<E>(
            v,
            m,
            paths::components(paths::trimmed(path)).drop_last(),
            d,
            n,
        ),
        scratch_len >= v.geometry.bytes_per_sector,
        lookup::open_result::<E>(v, m, paths::trimmed(path), scratch_len) == Err::<
            FileModel,
            Error<E>,
        >(Error::PathNotFound),
    ensures
        ({
            let g = v.geometry;
            let parts = paths::components(paths::trimmed(path));
            let units = codec::name_result::<E>(parts.last())->Ok_0;
            let plan = create::create_plan::<E>(v, m, free, path, scratch_len);
            let m2 = plan.leaves(m);
            match plan.result {
                Ok(f) => {
                    let d2 = trails::last_dir::<E>(v, m2, entry::root_model(g), parts);
                    &&& f == create::fresh_file(f.locs)
                    &&& regions::sound(v, m2, plan.free)
                    &&& reopening::is_file_at::<E>(v, m2, parts, f)
                    &&& lookup::open_result::<E>(v, m2, paths::trimmed(path), scratch_len) == Ok::<
                        FileModel,
                        Error<E>,
                    >(f)
                    &&& exists|k: int| #[trigger]
                        placing::is_dir_at::<E>(v, m2, parts.drop_last(), d2, k)
                    &&& is_changed_within(v, m, m2, plan.free, d, d2)
                    &&& remounting::mounts_again::<E>(v, m, m2, free, plan.free)
                    &&& keeps_names(
                        v,
                        m,
                        m2,
                        listing::listing(g, m, d),
                        d2,
                        units,
                    )
                    &&& directories::same_names(v, m, m2)
                    &&& exists|p: int| #[trigger]
                        adding::is_listed(
                            listing::listing(g, m, d),
                            listing::listing(g, m2, d2),
                            entries::described(create::fresh_set(units, 0, 0, 0, true), f.locs),
                            p,
                        )
                },
                Err(error) => {
                    ||| error == Error::<E>::NoSpace && is_refused::<E>(
                        v,
                        m,
                        m2,
                        free,
                        plan.free,
                        parts.drop_last(),
                        d,
                        n,
                    )
                    ||| names::name_hash(v, m, units) is None
                },
            }
        }),
{
    let g = v.geometry;
    let root = entry::root_model(g);
    let inner = paths::trimmed(path);
    let parts = paths::components(inner);
    let above = parts.drop_last();
    let plan = create::create_plan::<E>(v, m, free, path, scratch_len);
    create::lemma_trimmed_component(path);
    assert(above.push(parts.last()) =~= parts);
    lemma_dir_leads::<E>(v, m, above, parts.last(), d, n);
    lemma_parent::<E>(v, m, path, scratch_len);
    lemma_missing::<E>(v, m, parts, scratch_len, d, n);
    let units = codec::name_result::<E>(parts.last())->Ok_0;
    assert(plan == create::create_in_plan::<E>(v, m, free, d, units));
    lemma_name_size::<E>(parts.last());
    let s = create::fresh_set(units, 0, 0, 0, true);
    let wanted = create::set_len(units);
    let find = space::find_plan::<E>(v, m, free, d, wanted);
    let m1 = find.leaves(m);
    let r = placing::lemma_room_found::<E>(v, m, free, above, d, n, wanted);
    if let Ok(locs) = find.result {
        let write = metadata::write_set_plan::<E>(v, m1, find.free, locs, s);
        let m2 = write.leaves(m1);
        let reply = Plan::<FileModel, E>::answer(find.free, Ok(create::fresh_file(locs)));
        placing::lemma_and_leaves(find, write.and(reply), m);
        placing::lemma_and_leaves(write, reply, m1);
        assert(reply.leaves(m2) == m2);
        directories::lemma_hash_kept(v, m, m1, units);
        if let Some(hash) = names::name_hash(v, m, units) {
            trails::lemma_find_kept(v, m, m1, listing::listing(g, m, d), units, 0);
            lemma_entered::<E>(v, m1, find.free, above, r, s, hash);
            assert(plan.leaves(m) == m2);
            lemma_created_at::<E>(v, m, m1, m2, find.free, above, d, wanted, r, s, parts, scratch_len);
            systems::lemma_kept_on(g, m, m1, m2);
            lemma_changed_mounts::<E>(v, m, m2, free, find.free, above, d, n, r.dir, r.count);
        }
    } else {
        assert(plan.writes == find.writes);
        lemma_refused::<E>(v, m, m1, free, find.free, above, d, n, r.dir, r.count);
    }
}

/// Whether a directory had no room for another entry set, and could not grow
/// far enough, as one linked by the FAT can as long as clusters are free. It
/// lists what it did, and the volume is sound and mounts again.
pub open spec fn is_refused<E>(
    v: Volume,
    m: Media,
    m2: Media,
    free: u32,
    free2: u32,
    above: Seq<Seq<char>>,
    d: DirectoryModel,
    n: int,
) -> bool {
    &&& extents::is_chain(v, m, d, n) ==> free2 == 0
    &&& exists|d2: DirectoryModel, k: int| #[trigger]
        placing::lists_the_same::<E>(v, m, m2, free2, above, d, d2, k)
    &&& remounting::mounts_again::<E>(v, m, m2, free, free2)
}

/// What is left of a directory in which no room was found.
pub proof fn lemma_refused<E>(
    v: Volume,
    m: Media,
    m2: Media,
    free: u32,
    free2: u32,
    above: Seq<Seq<char>>,
    d: DirectoryModel,
    n: int,
    d2: DirectoryModel,
    k: int,
)
    requires
        regions::sound(v, m, free),
        placing::reaches::<E>(v, m, above, d, n),
        placing::lists_the_same::<E>(v, m, m2, free2, above, d, d2, k),
        extents::is_chain(v, m, d, n) ==> free2 == 0,
    ensures
        is_refused::<E>(v, m, m2, free, free2, above, d, n),
{
    assert(remounting::mounts_again::<E>(v, m, m2, free, free2)) by {
        reveal(placing::lists_the_same);
        lemma_changed_mounts::<E>(v, m, m2, free, free2, above, d, n, d2, k);
    }
}

/// Whether creating an entry in the directory `d`, which is `d2` now, changed
/// clusters of that directory and of its entry set alone, and those that it took
/// were free.
pub open spec fn is_changed_within(
    v: Volume,
    m: Media,
    m2: Media,
    free2: u32,
    d: DirectoryModel,
    d2: DirectoryModel,
) -> bool {
    let g = v.geometry;
    let homes = directories::homes(g, m2, d2);
    &&& regions::evolves(v, m, m2, free2, homes.union(directories::homes_of(g, d.locs)))
    &&& forall|c: u32| #[trigger]
        homes.contains(c) ==> directories::homes(g, m, d).contains(c) || allocation::is_used(
            v,
            m,
            c as int,
        ) == Some(false)
}

/// A volume mounts again after such a change.
pub proof fn lemma_changed_mounts<E>(
    v: Volume,
    m: Media,
    m2: Media,
    free: u32,
    free2: u32,
    above: Seq<Seq<char>>,
    d: DirectoryModel,
    n: int,
    d2: DirectoryModel,
    k: int,
)
    requires
        regions::sound(v, m, free),
        placing::reaches::<E>(v, m, above, d, n),
        placing::reaches::<E>(v, m2, above, d2, k),
        is_changed_within(v, m, m2, free2, d, d2),
        systems::is_kept(v.geometry, m, m2),
    ensures
        remounting::mounts_again::<E>(v, m, m2, free, free2),
{
    let g = v.geometry;
    let all = directories::homes(g, m2, d2).union(directories::homes_of(g, d.locs));
    lemma_no_table_within::<E>(v, m, m2, free, above, d, n, d2, k);
    remounting::lemma_mounts_again::<E>(v, m, m2, free, free2, all);
}

/// Neither the clusters of a directory nor those of its entry set are of the
/// UpCase table.
pub proof fn lemma_no_table_within<E>(
    v: Volume,
    m: Media,
    m2: Media,
    free: u32,
    above: Seq<Seq<char>>,
    d: DirectoryModel,
    n: int,
    d2: DirectoryModel,
    k: int,
)
    requires
        regions::sound(v, m, free),
        placing::reaches::<E>(v, m, above, d, n),
        placing::reaches::<E>(v, m2, above, d2, k),
        regions::same_system(v, m, m2),
    ensures
        forall|c: u32| #[trigger]
            directories::homes(v.geometry, m2, d2).union(
                directories::homes_of(v.geometry, d.locs),
            ).contains(c) ==> !regions::is_table(v, m, c),
{
    let g = v.geometry;
    let homes = directories::homes(g, m2, d2);
    let edited = directories::homes_of(g, d.locs);
    extents::lemma_extent_housed(v, m2, d2, k);
    assert forall|c: u32| #[trigger] homes.union(edited).contains(c) implies !regions::is_table(
        v,
        m,
        c,
    ) by {
        if homes.contains(c) {
            placing::lemma_homes_taken(v, m2, d2, c);
            assert(regions::is_table(v, m2, c) == regions::is_table(v, m, c));
        } else {
            let j = choose|j: int|
                0 <= j < d.locs.len() && c == directories::home(g, (#[trigger] d.locs[j]).lba);
            assert(above.len() > 0);
            let up = trails::last_dir::<E>(v, m, entry::root_model(g), above);
            let i = placing::lemma_registered::<E>(v, m, free, up, above.last(), d);
            placing::lemma_homes_taken(v, m, up, c);
        }
    }
}

/// What writing the entry set of a new file into room for it leaves.
proof fn lemma_created_at<E>(
    v: Volume,
    m: Media,
    m1: Media,
    m2: Media,
    free1: u32,
    above: Seq<Seq<char>>,
    d: DirectoryModel,
    wanted: nat,
    r: Room,
    s: SetModel,
    parts: Seq<Seq<char>>,
    scratch_len: nat,
)
    requires
        regions::apart(v.geometry),
        placing::has_room::<E>(v, m, m1, free1, above, d, wanted, r),
        wanted == entries::entry_count(s),
        is_entered::<E>(
            v,
            m1,
            m2,
            free1,
            above,
            r,
            s,
            decoding::places(r.slots, r.at, r.at + wanted),
        ),
        parts.len() > 0,
        above == parts.drop_last(),
        codec::name_result::<E>(parts.last()) == Ok::<Seq<u16>, Error<E>>(s.name),
        s == create::fresh_set(s.name, 0, 0, 0, true),
        scratch_len >= v.geometry.bytes_per_sector,
    ensures
        ({
            let g = v.geometry;
            let root = entry::root_model(g);
            let f = create::fresh_file(decoding::places(r.slots, r.at, r.at + wanted));
            &&& regions::sound(v, m2, free1)
            &&& reopening::is_file_at::<E>(v, m2, parts, f)
            &&& trails::last_dir::<E>(v, m2, root, parts) == r.dir
            &&& lookup::resolve::<E>(v, m2, root, parts, scratch_len) == Ok::<EntryModel, Error<E>>(
                entries::described(s, f.locs),
            )
            &&& file::opened(entries::described(s, f.locs)) == f
            &&& placing::is_dir_at::<E>(v, m2, above, r.dir, r.count)
            &&& is_changed_within(v, m, m2, free1, d, r.dir)
            &&& keeps_names(v, m, m2, listing::listing(g, m, d), r.dir, s.name)
            &&& directories::same_names(v, m, m2)
            &&& exists|p: int| #[trigger]
                adding::is_listed(
                    listing::listing(g, m, d),
                    listing::listing(g, m2, r.dir),
                    entries::described(s, f.locs),
                    p,
                )
        }),
{
    let locs = decoding::places(r.slots, r.at, r.at + wanted);
    placing::lemma_same_names_on(v, m, m1, m2);
    lemma_fresh_at::<E>(v, m2, parts, r.dir, r.count, s, locs, scratch_len);
    lemma_changed_within::<E>(v, m, m1, m2, free1, above, d, wanted, r, s, locs);
    lemma_names_stay::<E>(v, m, m1, m2, free1, above, d, wanted, r, s, locs);
}

/// What an entry that a directory lists is under the path through it.
pub proof fn lemma_listed_at<E>(
    v: Volume,
    m: Media,
    parts: Seq<Seq<char>>,
    d: DirectoryModel,
    n: int,
    units: Seq<u16>,
    found: EntryModel,
    scratch_len: nat,
)
    requires
        regions::apart(v.geometry),
        parts.len() > 0,
        placing::is_dir_at::<E>(v, m, parts.drop_last(), d, n),
        codec::name_result::<E>(parts.last()) == Ok::<Seq<u16>, Error<E>>(units),
        listing::child(v, m, d, units) == Some(Some(found)),
        scratch_len >= v.geometry.bytes_per_sector,
    ensures
        ({
            let g = v.geometry;
            let root = entry::root_model(g);
            &&& trails::leads::<E>(v, m, root, parts)
            &&& trails::last_dir::<E>(v, m, root, parts) == d
            &&& directories::dir_sound(v, m, d)
            &&& trails::is_clear::<E>(v, m, root, parts, directories::homes(g, m, d))
            &&& lookup::resolve::<E>(v, m, root, parts, scratch_len) == Ok::<EntryModel, Error<E>>(
                found,
            )
        }),
{
    let above = parts.drop_last();
    assert(above.push(parts.last()) =~= parts);
    lemma_dir_leads::<E>(v, m, above, parts.last(), d, n);
    trails::lemma_resolve::<E>(v, m, entry::root_model(v.geometry), parts, scratch_len);
}

/// A new file that a directory lists is the file at the path through it.
proof fn lemma_fresh_at<E>(
    v: Volume,
    m: Media,
    parts: Seq<Seq<char>>,
    d: DirectoryModel,
    n: int,
    s: SetModel,
    locs: Seq<EntryLocator>,
    scratch_len: nat,
)
    requires
        regions::apart(v.geometry),
        parts.len() > 0,
        placing::is_dir_at::<E>(v, m, parts.drop_last(), d, n),
        codec::name_result::<E>(parts.last()) == Ok::<Seq<u16>, Error<E>>(s.name),
        listing::child(v, m, d, s.name) == Some(Some(entries::described(s, locs))),
        s == create::fresh_set(s.name, 0, 0, 0, true),
        scratch_len >= v.geometry.bytes_per_sector,
    ensures
        ({
            let root = entry::root_model(v.geometry);
            let f = create::fresh_file(locs);
            &&& reopening::is_file_at::<E>(v, m, parts, f)
            &&& trails::last_dir::<E>(v, m, root, parts) == d
            &&& lookup::resolve::<E>(v, m, root, parts, scratch_len) == Ok::<EntryModel, Error<E>>(
                entries::described(s, locs),
            )
            &&& file::opened(entries::described(s, locs)) == f
        }),
{
    let g = v.geometry;
    let f = create::fresh_file(locs);
    let found = entries::described(s, locs);
    lemma_listed_at::<E>(v, m, parts, d, n, s.name, found, scratch_len);
    assert(file::opened(found) =~= f);
    lemma_fresh_sound(v, m, locs);
    let homes = directories::homes(g, m, d);
    assert(files::owned(g, m, f).union(homes) =~= homes);
}

/// Writing an entry set into room for it changes clusters of the directory and
/// of the directory's own entry set alone.
pub proof fn lemma_changed_within<E>(
    v: Volume,
    m: Media,
    m1: Media,
    m2: Media,
    free1: u32,
    above: Seq<Seq<char>>,
    d: DirectoryModel,
    wanted: nat,
    r: Room,
    s: SetModel,
    locs: Seq<EntryLocator>,
)
    requires
        placing::has_room::<E>(v, m, m1, free1, above, d, wanted, r),
        is_entered::<E>(v, m1, m2, free1, above, r, s, locs),
    ensures
        is_changed_within(v, m, m2, free1, d, r.dir),
{
    let g = v.geometry;
    let homes = directories::homes(g, m2, r.dir);
    let all = homes.union(directories::homes_of(g, d.locs));
    allocating::lemma_evolves_on(
        v,
        m,
        m1,
        m2,
        free1,
        free1,
        all,
        directories::homes_of(g, locs),
        all,
    );
}

/// What other names find in a directory stays when an entry set is written into
/// room in it.
pub proof fn lemma_names_stay<E>(
    v: Volume,
    m: Media,
    m1: Media,
    m2: Media,
    free1: u32,
    above: Seq<Seq<char>>,
    d: DirectoryModel,
    wanted: nat,
    r: Room,
    s: SetModel,
    locs: Seq<EntryLocator>,
)
    requires
        placing::has_room::<E>(v, m, m1, free1, above, d, wanted, r),
        is_entered::<E>(v, m1, m2, free1, above, r, s, locs),
    ensures
        keeps_names(
            v,
            m,
            m2,
            listing::listing(v.geometry, m, d),
            r.dir,
            s.name,
        ),
{
    let g = v.geometry;
    let list = listing::listing(g, m, d);
    reveal(keeps_names);
    assert forall|name: Seq<u16>|
        names::same_name(v, m, s.name, name) == Some(false) && (#[trigger] listing::find_from(
            v,
            m,
            list,
            name,
            0,
        ) matches Some(Some(_))) implies listing::child(v, m2, r.dir, name) == listing::find_from(
        v,
        m,
        list,
        name,
        0,
    ) by {
        directories::lemma_matches_kept(v, m, m1, s.name, name);
        trails::lemma_find_kept(v, m, m1, list, name, 0);
        assert(listing::find_from(v, m1, list, name, 0) == listing::find_from(
            v,
            m,
            list,
            name,
            0,
        ));
    }
}

/// Creating a file whose path names one already empties that file, which keeps
/// its entry set: opened again, it has no bytes, and its clusters are free. Its
/// directory lists everything else as it did, and takes further entries if it
/// did. Nothing changes but the file's clusters and those that hold its entry
/// set. The volume mounts again.
pub proof fn law_creating_empties_an_existing_file<E>(
    v: Volume,
    m: Media,
    free: u32,
    path: Seq<char>,
    scratch_len: nat,
    f: FileModel,
)
    requires
        regions::sound(v, m, free),
        paths::trimmed(path).len() > 0,
        reopening::is_file_at::<E>(v, m, paths::components(paths::trimmed(path)), f),
        scratch_len >= v.geometry.bytes_per_sector,
    ensures
        ({
            let g = v.geometry;
            let inner = paths::trimmed(path);
            let parts = paths::components(inner);
            let d = trails::last_dir::<E>(v, m, entry::root_model(g), parts);
            let plan = create::create_plan::<E>(v, m, free, path, scratch_len);
            let m2 = plan.leaves(m);
            let f2 = release::truncated(g, reopening::reopened(f), 0);
            &&& plan.result == Ok::<FileModel, Error<E>>(f2)
            &&& plan.free == free + files::count_of(g, f)
            &&& regions::evolves(
                v,
                m,
                m2,
                plan.free,
                files::owned(g, m, f).union(
                    set![
                        directories::home(g, f.stream.lba),
                        directories::home(g, f.primary.lba),
                    ],
                ),
            )
            &&& forall|c: u32| #[trigger]
                files::owned(g, m, f).contains(c) ==> allocation::is_used(v, m2, c as int) == Some(
                    false,
                )
            &&& reopening::is_file_at::<E>(v, m2, parts, f2)
            &&& reopening::lists_recorded(v, m, m2, d, f2)
            &&& forall|n: int| #[trigger]
                placing::is_dir_at::<E>(v, m, parts.drop_last(), d, n) ==> placing::is_dir_at::<E>(
                    v,
                    m2,
                    parts.drop_last(),
                    d,
                    n,
                )
            &&& lookup::open_result::<E>(v, m2, inner, scratch_len) == Ok::<FileModel, Error<E>>(f2)
            &&& f2.valid_length == 0 && f2.data_length == 0
            &&& f2.locs == f.locs
            &&& remounting::mounts_again::<E>(v, m, m2, free, plan.free)
        }),
{
    let g = v.geometry;
    let inner = paths::trimmed(path);
    let parts = paths::components(inner);
    let again = reopening::reopened(f);
    let cut = release::truncate_plan::<E>(v, m, free, again, 0);
    let f2 = release::truncated(g, again, 0);
    reopening::lemma_opens::<E>(v, m, inner, scratch_len, f);
    files::lemma_same_file(v, m, f, again);
    lemma_emptied(v, m, again);
    lemma_parent::<E>(v, m, path, scratch_len);
    reopening::law_truncated_file_reopens::<E>(v, m, free, inner, scratch_len, again, 0);
    let reply = Plan::<FileModel, E>::answer(cut.free, Ok(f2));
    placing::lemma_and_leaves(cut, reply, m);
    assert(reply.leaves(cut.leaves(m)) == cut.leaves(m));
    assert forall|c: u32| #[trigger] files::owned(g, m, f).contains(c) implies allocation::is_used(
        v,
        cut.leaves(m),
        c as int,
    ) == Some(false) by {
        assert(files::owned(g, m, again).contains(c));
        let k = choose|k: int|
            0 <= k < files::count_of(g, again) && #[trigger] files::cluster_at(g, m, again, k)
                == Some(c);
        assert(files::cluster_at(g, m, again, k)->0 == c);
    }
}

/// What is left of a file once it was emptied.
proof fn lemma_emptied(v: Volume, m: Media, f: FileModel)
    requires
        regions::apart(v.geometry),
        files::file_sound(v, m, f),
        f == reopening::reopened(f),
    ensures
        ({
            let f2 = release::truncated(v.geometry, f, 0);
            &&& reopening::reopened(f2) == f2
            &&& f2.valid_length == 0 && f2.data_length == 0
            &&& f2.locs == f.locs
            &&& release::clusters_for(v.geometry, 0) == 0
        }),
{
    let g = v.geometry;
    let f2 = release::truncated(g, f, 0);
    regions::lemma_geometry(g);
    release::lemma_clusters(g, 0);
    release::lemma_clusters(g, f.data_length as int);
    assert(0 * g.cluster_bytes() == 0);
    assert(reopening::reopened(f2) =~= f2);
}

} // verus!
