//! Finding slots for an entry set in the directory that a path names, which
//! grows where it has too few.

use crate::bytes;
use crate::device;
use crate::device::{Media, SectorWrite};
use crate::directory::codec;
use crate::directory::entry;
use crate::directory::entry::DirectoryModel;
use crate::directory::slots::{EntryLocator, Slot};
use crate::error::Error;
use crate::fs::allocation;
use crate::fs::file::FileModel;
use crate::fs::listing;
use crate::fs::metadata;
use crate::fs::names;
use crate::fs::space;
use crate::fs::state::Plan;
use crate::fs::walk;
use crate::laws::adding;
use crate::laws::allocating;
use crate::laws::appending;
use crate::laws::decoding;
use crate::laws::directories;
use crate::laws::expanding;
use crate::laws::extents;
use crate::laws::files;
use crate::laws::recording;
use crate::laws::regions;
use crate::laws::reopening;
use crate::laws::systems;
use crate::laws::trails;
use crate::mount::Volume;
use vstd::prelude::*;

verus! {

/// Whether a path with the parts `above` leads to the directory `d`, of `n`
/// clusters where it can grow: the directories on the way are sound, and the
/// last of them, those before it and `d` share no clusters. No parts lead to
/// the root.
pub open spec fn reaches<E>(
    v: Volume,
    media: Media,
    above: Seq<Seq<char>>,
    d: DirectoryModel,
    n: int,
) -> bool {
    let g = v.geometry;
    let root = entry::root_model(g);
    &&& extents::is_extent(v, media, d, n)
    &&& if above.len() == 0 {
        d == root
    } else {
        let up = trails::last_dir::<E>(v, media, root, above);
        &&& trails::leads::<E>(v, media, root, above)
        &&& trails::below::<E>(v, media, up, above.last()) == Some(d)
        &&& d.data_length != 0
        &&& directories::dir_sound(v, media, up)
        &&& directories::homes(g, media, up).disjoint(directories::homes(g, media, d))
        &&& trails::is_clear::<E>(
            v,
            media,
            root,
            above,
            directories::homes(g, media, up).union(directories::homes(g, media, d)),
        )
    }
}

/// Whether a path with the parts `above` leads to the sound directory `d`, of
/// `n` clusters where it can grow.
pub open spec fn is_dir_at<E>(
    v: Volume,
    media: Media,
    above: Seq<Seq<char>>,
    d: DirectoryModel,
    n: int,
) -> bool {
    &&& reaches::<E>(v, media, above, d, n)
    &&& decoding::tidy(directories::slots_of(v.geometry, media, d))
}

/// The clusters of a directory are in use.
pub proof fn lemma_homes_taken(v: Volume, m: Media, d: DirectoryModel, c: u32)
    requires
        directories::dir_housed(v, m, d),
        directories::homes(v.geometry, m, d).contains(c),
    ensures
        appending::is_taken(v, m, c),
{
    let g = v.geometry;
    let spans = directories::spans_of(g, m, d);
    let j = choose|j: int|
        0 <= j < spans.len() && c == directories::home(g, (#[trigger] spans[j]).lba);
    assert(directories::is_housed(v, m, spans[j].lba));
}

/// A path with one more part leads on from where it led.
pub proof fn lemma_trail_longer<E>(
    v: Volume,
    m: Media,
    d: DirectoryModel,
    above: Seq<Seq<char>>,
    name: Seq<char>,
)
    requires
        above.len() > 0,
        trails::leads::<E>(v, m, d, above),
    ensures
        ({
            let up = trails::last_dir::<E>(v, m, d, above);
            let all = above.push(name);
            match trails::below::<E>(v, m, up, above.last()) {
                Some(next) => {
                    &&& trails::leads::<E>(v, m, d, all)
                    &&& trails::last_dir::<E>(v, m, d, all) == next
                    &&& trails::passed::<E>(v, m, d, all) == trails::passed::<E>(
                        v,
                        m,
                        d,
                        above,
                    ).push(up)
                },
                None => !trails::leads::<E>(v, m, d, all),
            }
        }),
    decreases above.len(),
{
    let all = above.push(name);
    assert(all[0] == above[0]);
    if above.len() > 1 {
        let next = trails::below::<E>(v, m, d, above[0])->0;
        let rest = above.drop_first();
        lemma_trail_longer::<E>(v, m, next, rest, name);
        assert(all.drop_first() =~= rest.push(name));
        assert(rest.last() == above.last());
        let up = trails::last_dir::<E>(v, m, d, above);
        let later = trails::passed::<E>(v, m, next, rest);
        assert(seq![d] + later.push(up) =~= (seq![d] + later).push(up));
    } else {
        assert(all.drop_first() =~= seq![name]);
        reveal_with_fuel(trails::leads, 3);
        reveal_with_fuel(trails::last_dir, 3);
        reveal_with_fuel(trails::passed, 3);
        assert(seq![d] + Seq::<DirectoryModel>::empty() =~= Seq::<DirectoryModel>::empty().push(d));
    }
}

/// A path that leads somewhere leads to all directories on the way.
pub proof fn lemma_trail_shorter<E>(
    v: Volume,
    m: Media,
    d: DirectoryModel,
    above: Seq<Seq<char>>,
    name: Seq<char>,
)
    requires
        above.len() > 0,
        trails::leads::<E>(v, m, d, above.push(name)),
    ensures
        trails::leads::<E>(v, m, d, above),
        trails::below::<E>(v, m, trails::last_dir::<E>(v, m, d, above), above.last()) == Some(
            trails::last_dir::<E>(v, m, d, above.push(name)),
        ),
    decreases above.len(),
{
    let all = above.push(name);
    assert(all[0] == above[0]);
    if above.len() > 1 {
        let next = trails::below::<E>(v, m, d, above[0])->0;
        let rest = above.drop_first();
        assert(all.drop_first() =~= rest.push(name));
        lemma_trail_shorter::<E>(v, m, next, rest, name);
        assert(rest.last() == above.last());
    } else {
        assert(all.drop_first() =~= seq![name]);
        reveal_with_fuel(trails::leads, 3);
        reveal_with_fuel(trails::last_dir, 3);
    }
}

/// Whether the directories on the way to one are where they were.
pub open spec fn same_way<E>(v: Volume, m: Media, m2: Media, above: Seq<Seq<char>>) -> bool {
    let g = v.geometry;
    let root = entry::root_model(g);
    let up = trails::last_dir::<E>(v, m, root, above);
    let way = trails::passed::<E>(v, m, root, above);
    above.len() > 0 ==> {
        &&& trails::last_dir::<E>(v, m2, root, above) == up
        &&& directories::homes(g, m2, up) == directories::homes(g, m, up)
        &&& trails::passed::<E>(v, m2, root, above) == way
        &&& forall|k: int|
            0 <= k < way.len() ==> directories::homes(g, m2, #[trigger] way[k])
                == directories::homes(g, m, way[k])
    }
}

/// The way to a directory is the same where its clusters are left alone.
pub proof fn lemma_way_kept<E>(
    v: Volume,
    m: Media,
    m2: Media,
    free: u32,
    above: Seq<Seq<char>>,
    touched: Set<u32>,
)
    requires
        regions::sound(v, m, free),
        above.len() > 0,
        regions::changes_only(v, m, m2, touched),
        regions::same_system(v, m, m2),
        forall|c: u32| #[trigger] touched.contains(c) ==> !regions::is_table(v, m, c),
        ({
            let root = entry::root_model(v.geometry);
            let up = trails::last_dir::<E>(v, m, root, above);
            &&& trails::leads::<E>(v, m, root, above)
            &&& directories::dir_sound(v, m, up)
            &&& touched.disjoint(directories::homes(v.geometry, m, up))
            &&& trails::is_clear::<E>(v, m, root, above, touched)
        }),
    ensures
        ({
            let g = v.geometry;
            let root = entry::root_model(g);
            let up = trails::last_dir::<E>(v, m, root, above);
            let way = trails::passed::<E>(v, m, root, above);
            &&& directories::same_names(v, m, m2)
            &&& trails::leads::<E>(v, m2, root, above)
            &&& same_way::<E>(v, m, m2, above)
            &&& directories::dir_sound(v, m2, up)
            &&& listing::listing(g, m2, up) == listing::listing(g, m, up)
            &&& trails::below::<E>(v, m2, up, above.last()) == trails::below::<E>(
                v,
                m,
                up,
                above.last(),
            )
            &&& forall|k: int|
                0 <= k < way.len() ==> directories::dir_sound(v, m2, #[trigger] way[k])
        }),
{
    let g = v.geometry;
    let root = entry::root_model(g);
    let up = trails::last_dir::<E>(v, m, root, above);
    let way = trails::passed::<E>(v, m, root, above);
    directories::lemma_names_kept(v, m, m2, free, touched);
    trails::lemma_trail::<E>(v, m, m2, free, root, above, touched);
    trails::lemma_dir_kept(v, m, m2, free, up, touched);
    if let Ok(units) = codec::name_result::<E>(above.last()) {
        trails::lemma_find_kept(v, m, m2, listing::listing(g, m, up), units, 0);
    }
    assert forall|k: int| 0 <= k < way.len() implies directories::dir_sound(
        v,
        m2,
        #[trigger] way[k],
    ) && directories::homes(g, m2, way[k]) == directories::homes(g, m, way[k]) by {
        trails::lemma_dir_kept(v, m, m2, free, way[k], touched);
    }
}

/// A path leads to a directory still where that directory and those on the way
/// are left alone.
pub proof fn lemma_reaches_kept<E>(
    v: Volume,
    m: Media,
    m2: Media,
    free: u32,
    above: Seq<Seq<char>>,
    d: DirectoryModel,
    n: int,
    touched: Set<u32>,
)
    requires
        regions::sound(v, m, free),
        reaches::<E>(v, m, above, d, n),
        regions::changes_only(v, m, m2, touched),
        regions::same_system(v, m, m2),
        touched.disjoint(directories::homes(v.geometry, m, d)),
        forall|c: u32| #[trigger] touched.contains(c) ==> !regions::is_table(v, m, c),
        above.len() > 0 ==> ({
            let root = entry::root_model(v.geometry);
            let up = trails::last_dir::<E>(v, m, root, above);
            &&& touched.disjoint(directories::homes(v.geometry, m, up))
            &&& trails::is_clear::<E>(v, m, root, above, touched)
        }),
    ensures
        reaches::<E>(v, m2, above, d, n),
        walk::directory_slots(v.geometry, m2, d) == walk::directory_slots(v.geometry, m, d),
        directories::homes(v.geometry, m2, d) == directories::homes(v.geometry, m, d),
        directories::same_names(v, m, m2),
        same_way::<E>(v, m, m2, above),
{
    let g = v.geometry;
    let root = entry::root_model(g);
    extents::lemma_extent_housed(v, m, d, n);
    expanding::lemma_extent_kept(v, m, m2, free, d, n, touched);
    trails::lemma_dir_kept(v, m, m2, free, d, touched);
    directories::lemma_names_kept(v, m, m2, free, touched);
    if above.len() > 0 {
        let up = trails::last_dir::<E>(v, m, root, above);
        let way = trails::passed::<E>(v, m, root, above);
        let apart = directories::homes(g, m, up).union(directories::homes(g, m, d));
        lemma_way_kept::<E>(v, m, m2, free, above, touched);
        assert forall|k: int| 0 <= k < way.len() implies directories::dir_sound(
            v,
            m2,
            #[trigger] way[k],
        ) && apart.disjoint(directories::homes(g, m2, way[k])) by {
            assert(apart.disjoint(directories::homes(g, m, way[k])));
        }
    }
}

/// What a path is clear of, the path to its last directory is clear of.
pub proof fn lemma_clear_before<E>(
    v: Volume,
    m: Media,
    above: Seq<Seq<char>>,
    name: Seq<char>,
    d: DirectoryModel,
    n: int,
    touched: Set<u32>,
)
    requires
        reaches::<E>(v, m, above, d, n),
        trails::is_clear::<E>(v, m, entry::root_model(v.geometry), above.push(name), touched),
    ensures
        above.len() > 0 ==> ({
            let root = entry::root_model(v.geometry);
            let up = trails::last_dir::<E>(v, m, root, above);
            &&& touched.disjoint(directories::homes(v.geometry, m, up))
            &&& trails::is_clear::<E>(v, m, root, above, touched)
        }),
{
    let g = v.geometry;
    let root = entry::root_model(g);
    if above.len() > 0 {
        let up = trails::last_dir::<E>(v, m, root, above);
        let before = trails::passed::<E>(v, m, root, above);
        lemma_trail_longer::<E>(v, m, root, above, name);
        let way = trails::passed::<E>(v, m, root, above.push(name));
        assert(way[before.len() as int] == up);
        assert forall|k: int| 0 <= k < before.len() implies directories::dir_sound(
            v,
            m,
            #[trigger] before[k],
        ) && touched.disjoint(directories::homes(g, m, before[k])) by {
            assert(way[k] == before[k]);
        }
    }
}

/// Where the entry set of a directory lies: in the directory above it.
pub proof fn lemma_registered<E>(
    v: Volume,
    m: Media,
    free: u32,
    up: DirectoryModel,
    name: Seq<char>,
    d: DirectoryModel,
) -> (i: int)
    requires
        regions::sound(v, m, free),
        directories::dir_sound(v, m, up),
        trails::below::<E>(v, m, up, name) == Some(d),
    ensures
        ({
            let g = v.geometry;
            let list = listing::listing(g, m, up);
            let units = codec::name_result::<E>(name)->Ok_0;
            &&& codec::name_result::<E>(name) is Ok
            &&& 0 <= i < list.entries.len()
            &&& list.entries[i].directory() == Some(d)
            &&& forall|j: int|
                0 <= j < i ==> names::same_name(v, m, (#[trigger] list.entries[j]).name, units)
                    == Some(false)
            &&& names::same_name(v, m, list.entries[i].name, units) == Some(true)
            &&& directories::are_places(v, m, d.locs)
            &&& 3 <= d.locs.len() <= 19
            &&& d.primary == Some(d.locs[0])
            &&& d.stream == Some(d.locs[1])
            &&& directories::homes_of(g, d.locs).subset_of(directories::homes(g, m, up))
        }),
{
    let g = v.geometry;
    let list = listing::listing(g, m, up);
    let units = codec::name_result::<E>(name)->Ok_0;
    let i = adding::lemma_found_first(v, m, list, units, 0);
    reopening::lemma_entry_places(v, m, free, up, i);
    i
}

/// What recording lengths and clusters leaves.
proof fn lemma_update_leaves<E>(
    v: Volume,
    m: Media,
    free: u32,
    f: FileModel,
)
    requires
        directories::are_places(v, m, f.locs),
        f.locs.len() >= 2,
        f.primary == f.locs[0],
        f.stream == f.locs[1],
    ensures
        metadata::update_plan::<E>(v, m, free, f).result == Ok::<(), Error<E>>(()),
        metadata::update_plan::<E>(v, m, free, f).free == free,
        metadata::update_plan::<E>(v, m, free, f).leaves(m) == appending::recorded(
            v.geometry,
            m,
            f,
        ),
{
    let g = v.geometry;
    assert(metadata::fits(g, f.locs[0]) && metadata::fits(g, f.locs[1]));
    let data = metadata::stream_patched(m[f.stream.lba], f.stream.offset as int, f);
    let patch = metadata::sector_plan::<E>(free, f.stream.lba, data);
    device::lemma_applied_one(m, SectorWrite { lba: f.stream.lba, data });
    let m1 = patch.leaves(m);
    appending::lemma_summable(g, m1, f.locs, f.locs.len());
    let sum = metadata::set_sum(g, m1, f.locs, f.locs.len())->0;
    let sealed = bytes::splice(m1[f.primary.lba], f.primary.offset + 2, bytes::le16(sum));
    let seal = metadata::checksum_plan::<E>(v, m1, free, f.primary, f.locs);
    assert(seal == metadata::sector_plan::<E>(free, f.primary.lba, sealed));
    device::lemma_applied_one(m1, SectorWrite { lba: f.primary.lba, data: sealed });
    device::lemma_applied_concat(m, patch.writes, seal.writes);
}

/// Recording the length of a directory: the one above it then lists it so.
proof fn lemma_length_recorded<E>(
    v: Volume,
    m: Media,
    free: u32,
    above: Seq<Seq<char>>,
    d: DirectoryModel,
    d2: DirectoryModel,
)
    requires
        regions::sound(v, m, free),
        above.len() > 0,
        d2 == (DirectoryModel { data_length: d2.data_length, ..d }),
        !d.no_fat_chain,
        d.first_cluster >= 2,
        ({
            let root = entry::root_model(v.geometry);
            let up = trails::last_dir::<E>(v, m, root, above);
            &&& trails::leads::<E>(v, m, root, above)
            &&& directories::dir_sound(v, m, up)
            &&& trails::below::<E>(v, m, up, above.last()) == Some(d)
            &&& trails::is_clear::<E>(
                v,
                m,
                root,
                above,
                directories::homes(v.geometry, m, up),
            )
        }),
    ensures
        ({
            let g = v.geometry;
            let root = entry::root_model(g);
            let up = trails::last_dir::<E>(v, m, root, above);
            let way = trails::passed::<E>(v, m, root, above);
            let f = space::as_file(d2);
            let plan = metadata::update_plan::<E>(v, m, free, f);
            let m2 = plan.leaves(m);
            &&& plan.result == Ok::<(), Error<E>>(())
            &&& plan.free == free
            &&& directories::edits(v, m, m2, free, d.locs)
            &&& directories::homes_of(g, d.locs).subset_of(directories::homes(g, m, up))
            &&& directories::same_names(v, m, m2)
            &&& systems::is_kept(g, m, m2)
            &&& trails::leads::<E>(v, m2, root, above)
            &&& trails::last_dir::<E>(v, m2, root, above) == up
            &&& trails::passed::<E>(v, m2, root, above) == way
            &&& directories::dir_sound(v, m2, up)
            &&& directories::homes(g, m2, up) == directories::homes(g, m, up)
            &&& trails::below::<E>(v, m2, up, above.last()) == Some(d2)
            &&& forall|k: int|
                0 <= k < way.len() ==> directories::dir_sound(v, m2, #[trigger] way[k])
                    && directories::homes(g, m2, way[k]) == directories::homes(g, m, way[k])
        }),
{
    let g = v.geometry;
    let root = entry::root_model(g);
    let up = trails::last_dir::<E>(v, m, root, above);
    let way = trails::passed::<E>(v, m, root, above);
    let f = space::as_file(d2);
    let i = lemma_registered::<E>(v, m, free, up, above.last(), d);
    lemma_update_leaves::<E>(v, m, free, f);
    let m2 = appending::recorded(g, m, f);
    recording::law_recorded_lengths_are_listed(v, m, free, up, i, f);
    let units = codec::name_result::<E>(above.last())->Ok_0;
    let list = listing::listing(g, m, up);
    let after = listing::listing(g, m2, up);
    let new = recording::updated(list.entries[i], f);
    let edited = directories::homes_of(g, d.locs);
    assert forall|c: u32| #[trigger] edited.contains(c) implies !regions::is_table(v, m, c) by {
        lemma_homes_taken(v, m, up, c);
    }
    directories::lemma_names_kept(v, m, m2, free, edited);
    assert(trails::is_clear::<E>(v, m, root, above, edited)) by {
        assert forall|k: int| 0 <= k < way.len() implies directories::dir_sound(
            v,
            m,
            #[trigger] way[k],
        ) && edited.disjoint(directories::homes(g, m, way[k])) by {}
    }
    trails::lemma_trail::<E>(v, m, m2, free, root, above, edited);
    assert forall|k: int| 0 <= k < way.len() implies directories::dir_sound(
        v,
        m2,
        #[trigger] way[k],
    ) && directories::homes(g, m2, way[k]) == directories::homes(g, m, way[k]) by {
        trails::lemma_dir_kept(v, m, m2, free, way[k], edited);
    }
    recording::lemma_found_changed(v, m, m2, list, after, i, new, units);
    assert(systems::is_kept(g, m, m2)) by {
        reopening::lemma_root_on_way::<E>(v, m, above, Set::empty());
        systems::lemma_set_in_use(v, m, free, up, i);
        reopening::lemma_kinds_recorded(v, m, free, f);
        systems::lemma_kept_edited(v, m, m2, free, d.locs);
    }
    adding::lemma_slots_edited(v, m, m2, free, up, d.locs);
    assert(directories::homes(g, m2, up) =~= directories::homes(g, m, up));
    assert(new.directory() == Some(d2));
}

/// What two plans, one after the other, leave.
pub proof fn lemma_and_leaves<T, U, E>(first: Plan<T, E>, next: Plan<U, E>, m: Media)
    ensures
        first.result is Ok ==> first.and(next).leaves(m) == next.leaves(first.leaves(m)),
        first.result is Err ==> first.and(next).leaves(m) == first.leaves(m),
{
    device::lemma_applied_concat(m, first.writes, next.writes);
}

/// Whether the directory `d` of `n` clusters has grown by `new`, with its length
/// recorded.
pub open spec fn has_grown<E>(
    v: Volume,
    m: Media,
    m2: Media,
    free2: u32,
    above: Seq<Seq<char>>,
    d: DirectoryModel,
    n: int,
    new: u32,
) -> bool {
    let g = v.geometry;
    let root = entry::root_model(g);
    let d2 = space::longer(g, d);
    let q = g.bytes_per_sector as int / 32;
    let a = directories::slots_of(g, m, d);
    let b = directories::slots_of(g, m2, d2);
    let z = b.skip(a.len() as int);
    let homes = directories::homes(g, m2, d2);
    &&& reaches::<E>(v, m2, above, d2, n + 1)
    &&& extents::is_chain(v, m2, d2, n + 1)
    &&& regions::evolves(v, m, m2, free2, homes.union(directories::homes_of(g, d.locs)))
    &&& directories::same_names(v, m, m2)
    &&& systems::is_ended(a) ==> systems::is_kept(g, m, m2)
    &&& homes == directories::homes(g, m, d).insert(new)
    &&& allocation::is_used(v, m, new as int) == Some(false)
    &&& b == expanding::marked_up(a, q) + z
    &&& expanding::are_blank(z)
    &&& z.len() >= q
    &&& forall|k: int|
        0 <= k < q ==> (#[trigger] z[k]).at == space::first_slots(g, new, q as nat)[k]
    &&& above.len() > 0 ==> trails::last_dir::<E>(v, m2, root, above) == trails::last_dir::<E>(
        v,
        m,
        root,
        above,
    )
}

/// Growing the root directory.
proof fn lemma_root_grown<E>(
    v: Volume,
    m: Media,
    m2: Media,
    free: u32,
    free2: u32,
    d: DirectoryModel,
    n: int,
    new: u32,
)
    requires
        regions::sound(v, m, free),
        reaches::<E>(v, m, Seq::empty(), d, n),
        extents::is_chain(v, m, d, n),
        expanding::is_linked_on(v, m, m2, free2, d, n, new),
    ensures
        has_grown::<E>(v, m, m2, free2, Seq::empty(), d, n, new),
{
    expanding::lemma_linked_facts(v, m, m2, free2, d, n, new);
    let g = v.geometry;
    let tail = extents::link(g, m, d, n - 1);
    expanding::lemma_grown_slots(v, m, m2, free, free2, d, n, new);
    expanding::lemma_grown_homes(v, m, m2, free2, d, n, new);
    let homes = directories::homes(g, m2, d);
    let touched = homes.union(directories::homes_of(g, d.locs));
    files::lemma_wider(v, m, m2, free2, set![new, tail], touched);
    extents::lemma_chain_housed(v, m, d, n);
    assert forall|c: u32| #[trigger] set![new, tail].contains(c) implies !regions::is_table(
        v,
        m,
        c,
    ) by {
        if c == tail {
            lemma_homes_taken(v, m, d, tail);
        }
    }
    directories::lemma_names_kept(v, m, m2, free, set![new, tail]);
    let a = directories::slots_of(g, m, d);
    let b = directories::slots_of(g, m2, d);
    if systems::is_ended(a) {
        let z = b.skip(a.len() as int);
        reopening::lemma_slot_sizes(v, m, free, d);
        assert forall|k: int| 0 <= k < a.len() implies (#[trigger] b[k]).raw == a[k].raw
            || systems::is_quiet(a[k]) && systems::is_passed(b[k].raw[0]) by {
            assert(a[k].raw.len() == 32);
            assert(b[k] == expanding::marked_up(a, g.bytes_per_sector as int / 32)[k]);
        }
        assert forall|k: int| a.len() <= k < b.len() implies systems::is_quiet(#[trigger] b[k]) by {
            assert(b[k] == z[k - a.len()]);
        }
        systems::lemma_kept_alike(g, m, m2);
    }
}

/// Neither the new cluster nor the last one of a directory belongs to the
/// directories on the way to it, which are what they were.
proof fn lemma_linked_way<E>(
    v: Volume,
    m: Media,
    m3: Media,
    free: u32,
    free2: u32,
    above: Seq<Seq<char>>,
    d: DirectoryModel,
    n: int,
    new: u32,
)
    requires
        regions::sound(v, m, free),
        above.len() > 0,
        reaches::<E>(v, m, above, d, n),
        extents::is_chain(v, m, d, n),
        expanding::is_linked_on(v, m, m3, free2, d, n, new),
    ensures
        ({
            let g = v.geometry;
            let root = entry::root_model(g);
            let up = trails::last_dir::<E>(v, m, root, above);
            let all = directories::homes(g, m, d).insert(new);
            &&& directories::same_names(v, m, m3)
            &&& systems::is_kept(g, m, m3)
            &&& trails::leads::<E>(v, m3, root, above)
            &&& trails::last_dir::<E>(v, m3, root, above) == up
            &&& directories::dir_sound(v, m3, up)
            &&& directories::homes(g, m3, up) == directories::homes(g, m, up)
            &&& trails::below::<E>(v, m3, up, above.last()) == Some(d)
            &&& all.disjoint(directories::homes(g, m3, up))
            &&& trails::is_clear::<E>(
                v,
                m3,
                root,
                above,
                directories::homes(g, m3, up).union(all),
            )
        }),
{
    expanding::lemma_linked_facts(v, m, m3, free2, d, n, new);
    let g = v.geometry;
    let root = entry::root_model(g);
    let up = trails::last_dir::<E>(v, m, root, above);
    let way = trails::passed::<E>(v, m, root, above);
    let tail = extents::link(g, m, d, n - 1);
    let both = set![new, tail];
    let old = directories::homes(g, m, d);
    let all = old.insert(new);
    expanding::lemma_grown_homes(v, m, m3, free2, d, n, new);
    extents::lemma_chain_housed(v, m, d, n);
    assert forall|c: u32| #[trigger] both.contains(c) implies !regions::is_table(v, m, c) by {
        if c == tail {
            lemma_homes_taken(v, m, d, tail);
        }
    }
    assert(both.subset_of(all));
    assert(all.disjoint(directories::homes(g, m, up))) by {
        assert forall|c: u32| directories::homes(g, m, up).contains(c) implies !all.contains(c) by {
            lemma_homes_taken(v, m, up, c);
        }
    }
    assert forall|k: int| 0 <= k < way.len() implies directories::dir_sound(v, m, #[trigger] way[k])
        && all.disjoint(directories::homes(g, m, way[k])) && directories::homes(
        g,
        m,
        up,
    ).disjoint(directories::homes(g, m, way[k])) by {
        assert(directories::homes(g, m, up).union(old).disjoint(
            directories::homes(g, m, way[k]),
        ));
        assert forall|c: u32| directories::homes(g, m, way[k]).contains(c) implies !all.contains(
        c) by {
            lemma_homes_taken(v, m, way[k], c);
        }
    }
    assert(trails::is_clear::<E>(v, m, root, above, both)) by {
        assert forall|k: int| 0 <= k < way.len() implies directories::dir_sound(
            v,
            m,
            #[trigger] way[k],
        ) && both.disjoint(directories::homes(g, m, way[k])) by {}
    }
    lemma_way_kept::<E>(v, m, m3, free, above, both);
    reopening::lemma_root_on_way::<E>(v, m, above, both);
    systems::lemma_kept_beside(v, m, m3, free, both);
    assert forall|k: int| 0 <= k < way.len() implies directories::dir_sound(
        v,
        m3,
        #[trigger] way[k],
    ) && directories::homes(g, m3, up).union(all).disjoint(
        directories::homes(g, m3, way[k]),
    ) by {}
}

/// Recording the length of a directory, after which its path leads to it.
proof fn lemma_record_step<E>(
    v: Volume,
    m: Media,
    free: u32,
    above: Seq<Seq<char>>,
    d: DirectoryModel,
    d2: DirectoryModel,
    n: int,
)
    requires
        regions::sound(v, m, free),
        above.len() > 0,
        d2 == (DirectoryModel { data_length: d2.data_length, ..d }),
        d2.data_length != 0,
        extents::is_chain(v, m, d2, n),
        ({
            let g = v.geometry;
            let root = entry::root_model(g);
            let up = trails::last_dir::<E>(v, m, root, above);
            &&& trails::leads::<E>(v, m, root, above)
            &&& directories::dir_sound(v, m, up)
            &&& trails::below::<E>(v, m, up, above.last()) == Some(d)
            &&& directories::homes(g, m, up).disjoint(directories::homes(g, m, d2))
            &&& trails::is_clear::<E>(
                v,
                m,
                root,
                above,
                directories::homes(g, m, up).union(directories::homes(g, m, d2)),
            )
        }),
    ensures
        ({
            let g = v.geometry;
            let root = entry::root_model(g);
            let plan = metadata::update_plan::<E>(v, m, free, space::as_file(d2));
            let m2 = plan.leaves(m);
            &&& plan.result == Ok::<(), Error<E>>(())
            &&& plan.free == free
            &&& reaches::<E>(v, m2, above, d2, n)
            &&& extents::is_chain(v, m2, d2, n)
            &&& regions::evolves(v, m, m2, free, directories::homes_of(g, d.locs))
            &&& directories::same_names(v, m, m2)
            &&& systems::is_kept(g, m, m2)
            &&& directories::slots_of(g, m2, d2) == directories::slots_of(g, m, d2)
            &&& directories::homes(g, m2, d2) == directories::homes(g, m, d2)
            &&& trails::last_dir::<E>(v, m2, root, above) == trails::last_dir::<E>(
                v,
                m,
                root,
                above,
            )
            &&& d.primary is Some && d.stream is Some
        }),
{
    reveal(extents::is_chain);
    let g = v.geometry;
    let root = entry::root_model(g);
    let up = trails::last_dir::<E>(v, m, root, above);
    let way = trails::passed::<E>(v, m, root, above);
    let homes = directories::homes(g, m, d2);
    regions::lemma_geometry(g);
    assert(d.first_cluster >= 2) by {
        assert(allocation::chain_at(g, m, d2.first_cluster, 0) is Some);
    }
    assert(trails::is_clear::<E>(v, m, root, above, directories::homes(g, m, up))) by {
        assert forall|k: int| 0 <= k < way.len() implies directories::dir_sound(
            v,
            m,
            #[trigger] way[k],
        ) && directories::homes(g, m, up).disjoint(directories::homes(g, m, way[k])) by {
            assert(directories::homes(g, m, up).union(homes).disjoint(
                directories::homes(g, m, way[k]),
            ));
        }
    }
    lemma_length_recorded::<E>(v, m, free, above, d, d2);
    let plan = metadata::update_plan::<E>(v, m, free, space::as_file(d2));
    let m2 = plan.leaves(m);
    let edited = directories::homes_of(g, d.locs);
    assert(edited.disjoint(homes));
    assert(directories::dir_housed(v, m, d2)) by {
        extents::lemma_chain_housed(v, m, d2, n);
    }
    expanding::lemma_chain_kept(v, m, m2, free, d2, n, edited);
    trails::lemma_dir_kept(v, m, m2, free, d2, edited);
    assert(trails::is_clear::<E>(
        v,
        m2,
        root,
        above,
        directories::homes(g, m2, up).union(directories::homes(g, m2, d2)),
    )) by {
        assert forall|k: int| 0 <= k < way.len() implies directories::dir_sound(
            v,
            m2,
            #[trigger] way[k],
        ) && directories::homes(g, m2, up).union(homes).disjoint(
            directories::homes(g, m2, way[k]),
        ) by {}
    }
    let i = lemma_registered::<E>(v, m, free, up, above.last(), d);
}

/// Growing a directory below the root.
proof fn lemma_below_grown<E>(
    v: Volume,
    m: Media,
    m3: Media,
    free: u32,
    free2: u32,
    above: Seq<Seq<char>>,
    d: DirectoryModel,
    n: int,
    new: u32,
)
    requires
        regions::sound(v, m, free),
        above.len() > 0,
        reaches::<E>(v, m, above, d, n),
        extents::is_chain(v, m, d, n),
        expanding::is_linked_on(v, m, m3, free2, d, n, new),
    ensures
        ({
            let plan = metadata::update_plan::<E>(
                v,
                m3,
                free2,
                space::as_file(space::longer(v.geometry, d)),
            );
            &&& plan.result == Ok::<(), Error<E>>(())
            &&& plan.free == free2
            &&& has_grown::<E>(v, m, plan.leaves(m3), free2, above, d, n, new)
            &&& d.primary is Some && d.stream is Some
        }),
{
    expanding::lemma_linked_facts(v, m, m3, free2, d, n, new);
    let g = v.geometry;
    let root = entry::root_model(g);
    let up = trails::last_dir::<E>(v, m, root, above);
    let d2 = space::longer(g, d);
    let both = set![new, extents::link(g, m, d, n - 1)];
    lemma_linked_way::<E>(v, m, m3, free, free2, above, d, n, new);
    expanding::lemma_grown_homes(v, m, m3, free2, d, n, new);
    let homes = directories::homes(g, m3, d2);
    lemma_record_step::<E>(v, m3, free2, above, d, d2, n + 1);
    let plan = metadata::update_plan::<E>(v, m3, free2, space::as_file(d2));
    let m4 = plan.leaves(m3);
    let edited = directories::homes_of(g, d.locs);
    expanding::lemma_grown_slots(v, m, m3, free, free2, d, n, new);
    assert(both.subset_of(homes));
    allocating::lemma_evolves_on(
        v,
        m,
        m3,
        m4,
        free2,
        free2,
        both,
        edited,
        homes.union(edited),
    );
    lemma_same_names_on(v, m, m3, m4);
    systems::lemma_kept_on(g, m, m3, m4);
}

/// Names mean the same over two steps.
pub proof fn lemma_same_names_on(v: Volume, m1: Media, m2: Media, m3: Media)
    requires
        directories::same_names(v, m1, m2),
        directories::same_names(v, m2, m3),
    ensures
        directories::same_names(v, m1, m3),
{
    assert forall|unit: u16| #[trigger] names::upcase(v, m3, unit) == names::upcase(
        v,
        m1,
        unit,
    ) by {
        assert(names::upcase(v, m2, unit) == names::upcase(v, m1, unit));
    }
}

/// Growing the directory that a path names takes a free cluster, if there is
/// one, and changes the clusters of the directory and of its own entry set
/// alone.
pub proof fn lemma_grown_at<E>(
    v: Volume,
    m: Media,
    free: u32,
    above: Seq<Seq<char>>,
    d: DirectoryModel,
    n: int,
)
    requires
        regions::sound(v, m, free),
        reaches::<E>(v, m, above, d, n),
        extents::is_chain(v, m, d, n),
    ensures
        ({
            let tail = extents::link(v.geometry, m, d, n - 1);
            let grow = space::grow_plan::<E>(v, m, free, d, tail);
            match grow.result {
                Ok(new) => {
                    &&& free > 0
                    &&& grow.free == free - 1
                    &&& has_grown::<E>(v, m, grow.leaves(m), grow.free, above, d, n, new)
                },
                Err(error) => {
                    &&& free == 0
                    &&& error == Error::<E>::NoSpace
                    &&& grow.leaves(m) == m
                    &&& grow.free == free
                },
            }
        }),
{
    reveal(extents::is_chain);
    reveal(space::grow_plan);
    let g = v.geometry;
    let tail = extents::link(g, m, d, n - 1);
    let grow = space::grow_plan::<E>(v, m, free, d, tail);
    let take = allocation::allocate_plan::<E>(v, m, free, (tail + 1) as u32);
    let m1 = take.leaves(m);
    allocating::law_allocation_claims_a_free_cluster::<E>(v, m, free, (tail + 1) as u32);
    if free > 0 {
        expanding::lemma_linked_on::<E>(v, m, free, d, n);
        let new = take.result->Ok_0;
        let link = allocation::set_fat_plan::<E>(v, m1, take.free, tail, new);
        let m2 = link.leaves(m1);
        let lba = space::last_lba(g, tail);
        let open = metadata::sector_plan::<E>(take.free, lba, space::filled_up(m2[lba]));
        let m3 = open.leaves(m2);
        let record = space::record_plan::<E>(v, m3, take.free, d);
        let reply = Plan::<u32, E>::answer(take.free, Ok(new));
        lemma_and_leaves(take, link.and(open.and(record.and(reply))), m);
        lemma_and_leaves(link, open.and(record.and(reply)), m1);
        lemma_and_leaves(open, record.and(reply), m2);
        lemma_and_leaves(record, reply, m3);
        let d2 = space::longer(g, d);
        expanding::lemma_linked_facts(v, m, m3, take.free, d, n, new);
        if above.len() == 0 {
            assert(above =~= Seq::empty());
            lemma_root_grown::<E>(v, m, m3, free, take.free, d, n, new);
            assert(record.leaves(m3) == m3);
        } else {
            lemma_below_grown::<E>(v, m, m3, free, take.free, above, d, n, new);
            let cb = g.cluster_bytes();
            assert(n * cb + cb <= 0x1_0000_0000 * 0x200_0000) by (nonlinear_arith)
                requires
                    0 <= n + 1 <= 0x1_0000_0000,
                    0 <= cb <= 0x200_0000,
            ;
            assert(record == metadata::update_plan::<E>(v, m3, take.free, space::as_file(d2)));
        }
        assert(reply.leaves(record.leaves(m3)) == record.leaves(m3));
    }
}

/// Slots that were found in a directory, which may have grown.
pub struct Room {
    /// The directory.
    pub dir: DirectoryModel,
    /// Its number of clusters.
    pub count: int,
    /// Its slots, but for what the ones found hold.
    pub slots: Seq<Slot>,
    /// The first of those found.
    pub at: int,
}

/// Whether `r` are `wanted` free slots of the directory `d`, which a path with
/// the parts `above` leads to, and which may have grown for them.
pub open spec fn has_room<E>(
    v: Volume,
    m: Media,
    m2: Media,
    free2: u32,
    above: Seq<Seq<char>>,
    d: DirectoryModel,
    wanted: nat,
    r: Room,
) -> bool {
    let g = v.geometry;
    let root = entry::root_model(g);
    let homes = directories::homes(g, m2, r.dir);
    let end = walk::directory_slots(g, m2, r.dir).end;
    &&& reaches::<E>(v, m2, above, r.dir, r.count)
    &&& r.dir == (DirectoryModel { data_length: r.dir.data_length, ..d })
    &&& above.len() > 0 ==> trails::last_dir::<E>(v, m2, root, above) == trails::last_dir::<E>(
        v,
        m,
        root,
        above,
    )
    &&& regions::evolves(v, m, m2, free2, homes.union(directories::homes_of(g, d.locs)))
    &&& directories::same_names(v, m, m2)
    &&& directories::homes(g, m, d).subset_of(homes)
    &&& forall|c: u32| #[trigger]
        homes.contains(c) ==> directories::homes(g, m, d).contains(c) || allocation::is_used(
            v,
            m,
            c as int,
        ) == Some(false)
    &&& systems::is_kept(g, m, m2)
    &&& decoding::tidy(r.slots)
    &&& decoding::is_free_run(r.slots, r.at, wanted)
    &&& adding::is_room(directories::slots_of(g, m2, r.dir), r.slots, r.at, wanted)
    &&& is_unused(directories::slots_of(g, m2, r.dir), r.at, wanted)
    &&& systems::is_ended(directories::slots_of(g, m2, r.dir))
    &&& listing::listing_from(r.slots, end, entry::idle_decoder()) == listing::listing(g, m, d)
}

/// Whether the directory `d`, which is `d2` now, may have grown, but lists the
/// same entries.
#[verifier::opaque]
pub open spec fn lists_the_same<E>(
    v: Volume,
    m: Media,
    m2: Media,
    free2: u32,
    above: Seq<Seq<char>>,
    d: DirectoryModel,
    d2: DirectoryModel,
    n2: int,
) -> bool {
    let g = v.geometry;
    let homes = directories::homes(g, m2, d2);
    &&& is_dir_at::<E>(v, m2, above, d2, n2)
    &&& d2 == (DirectoryModel { data_length: d2.data_length, ..d })
    &&& regions::evolves(v, m, m2, free2, homes.union(directories::homes_of(g, d.locs)))
    &&& directories::same_names(v, m, m2)
    &&& systems::is_kept(g, m, m2)
    &&& directories::homes(g, m, d).subset_of(homes)
    &&& forall|c: u32| #[trigger]
        homes.contains(c) ==> directories::homes(g, m, d).contains(c) || allocation::is_used(
            v,
            m,
            c as int,
        ) == Some(false)
    &&& listing::listing(g, m2, d2) == listing::listing(g, m, d)
}

/// A directory that was not changed lists the same.
proof fn lemma_lists_still<E>(
    v: Volume,
    m: Media,
    free: u32,
    above: Seq<Seq<char>>,
    d: DirectoryModel,
    n: int,
)
    requires
        regions::sound(v, m, free),
        is_dir_at::<E>(v, m, above, d, n),
    ensures
        lists_the_same::<E>(v, m, m, free, above, d, d, n),
{
    reveal(lists_the_same);
    let g = v.geometry;
    let homes = directories::homes(g, m, d);
    files::lemma_unchanged(v, m, free, homes.union(directories::homes_of(g, d.locs)));
    systems::lemma_kept_still(g, m);
}

/// A directory that lists the same after it has grown lists the same.
proof fn lemma_lists_later<E>(
    v: Volume,
    m: Media,
    m1: Media,
    m2: Media,
    free1: u32,
    free2: u32,
    above: Seq<Seq<char>>,
    d: DirectoryModel,
    n: int,
    new: u32,
    d2: DirectoryModel,
    n2: int,
)
    requires
        regions::apart(v.geometry),
        has_grown::<E>(v, m, m1, free1, above, d, n, new),
        systems::is_kept(v.geometry, m, m1),
        listing::listing(v.geometry, m1, space::longer(v.geometry, d)) == listing::listing(
            v.geometry,
            m,
            d,
        ),
        lists_the_same::<E>(v, m1, m2, free2, above, space::longer(v.geometry, d), d2, n2),
        above.len() == 0 ==> d.locs.len() == 0,
    ensures
        lists_the_same::<E>(v, m, m2, free2, above, d, d2, n2),
{
    reveal(lists_the_same);
    let g = v.geometry;
    let d1 = space::longer(g, d);
    let homes = directories::homes(g, m2, d2);
    let edited = directories::homes_of(g, d.locs);
    let all = homes.union(edited);
    lemma_same_names_on(v, m, m1, m2);
    systems::lemma_kept_on(g, m, m1, m2);
    extents::lemma_extent_housed(v, m2, d2, n2);
    let first = directories::homes(g, m1, d1).union(edited);
    allocating::lemma_evolves_on(v, m, m1, m2, free1, free2, first, all, all);
    assert forall|c: u32| #[trigger] homes.contains(c) implies directories::homes(g, m, d).contains(c)
        || allocation::is_used(v, m, c as int) == Some(false) by {
        if !directories::homes(g, m1, d1).contains(c) {
            lemma_homes_taken(v, m2, d2, c);
            lemma_taken_later::<E>(v, m, m1, free1, above, d, n, new, c);
        }
    }
}

/// Whether the `n` slots from `at` on are not in use.
pub open spec fn is_unused(slots: Seq<Slot>, at: int, n: nat) -> bool {
    forall|k: int| at <= k < at + n ==> (#[trigger] slots[k]).raw[0] <= 0x80
}

/// There are no system entries behind the end mark of a tidy directory.
pub proof fn lemma_tidy_ends(a: Seq<Slot>)
    requires
        decoding::tidy(a),
    ensures
        systems::is_ended(a),
{
    assert forall|i: int, j: int|
        0 <= i < j < a.len() && (#[trigger] a[i]).raw[0] == 0 implies systems::is_quiet(
        #[trigger] a[j],
    ) by {
        assert(space::is_free(a[j]));
    }
}

/// The never-used slots of a tidy directory are among the free ones at its end.
proof fn lemma_unused_behind(a: Seq<Slot>, at: int, k: int)
    requires
        decoding::tidy(a),
        decoding::is_free_run(a, at, (a.len() - at) as nat),
        0 <= k < at,
    ensures
        a[k].raw[0] != 0,
{
    if a[k].raw[0] == 0 && k < at - 1 {
        assert(space::is_free(a[at - 1]));
    }
}

/// A directory that has grown has room for a set that begins in what was its
/// last cluster.
proof fn lemma_room_across<E>(
    v: Volume,
    m: Media,
    m2: Media,
    free: u32,
    free2: u32,
    above: Seq<Seq<char>>,
    d: DirectoryModel,
    n: int,
    new: u32,
    wanted: nat,
    run: Seq<EntryLocator>,
) -> (r: Room)
    requires
        regions::sound(v, m, free),
        is_dir_at::<E>(v, m, above, d, n),
        has_grown::<E>(v, m, m2, free2, above, d, n, new),
        space::search(directories::slots_of(v.geometry, m, d), wanted, Seq::empty())
            == space::Search::Short(run),
        0 < wanted,
        wanted - run.len() <= v.geometry.bytes_per_sector as nat / 32,
    ensures
        has_room::<E>(v, m, m2, free2, above, d, wanted, r),
        run + space::first_slots(v.geometry, new, (wanted - run.len()) as nat) == decoding::places(
            r.slots,
            r.at,
            r.at + wanted,
        ),
{
    let g = v.geometry;
    let d2 = space::longer(g, d);
    let q = g.bytes_per_sector as int / 32;
    let a = directories::slots_of(g, m, d);
    let b = directories::slots_of(g, m2, d2);
    let z = b.skip(a.len() as int);
    assert(a.skip(0) =~= a);
    assert(Seq::<EntryLocator>::empty() =~= decoding::places(a, 0, 0));
    decoding::lemma_search(a, wanted, Seq::empty(), 0);
    lemma_tidy_ends(a);
    let at = a.len() - run.len();
    let room = a + z;
    extents::lemma_extent_housed(v, m, d, n);
    let before = walk::directory_slots(g, m, d).end;
    let end = walk::directory_slots(g, m2, d2).end;
    expanding::lemma_with_blank(a, z, before, end);
    let r = Room { dir: d2, count: n + 1, slots: room, at };
    assert(adding::is_room(b, room, at, wanted)) by {
        assert forall|k: int| 0 <= k < b.len() implies (#[trigger] room[k]).at == b[k].at by {
            if k < a.len() {
                assert(b[k] == expanding::marked_up(a, q)[k]);
            } else {
                assert(b[k] == z[k - a.len()]);
            }
        }
        assert forall|k: int| 0 <= k < b.len() && !(at <= k < at + wanted) implies #[trigger] room[k]
            == b[k] by {
            if k < at {
                lemma_unused_behind(a, at, k);
                assert(b[k] == expanding::marked_up(a, q)[k]);
            } else {
                assert(b[k] == z[k - a.len()]);
            }
        }
    }
    assert(decoding::is_free_run(room, at, wanted)) by {
        assert forall|k: int| at <= k < at + wanted implies space::is_free(#[trigger] room[k]) by {
            if k < a.len() {
                assert(space::is_free(a[k]));
            } else {
                assert(z[k - a.len()].raw[0] == 0);
            }
        }
    }
    assert(systems::is_ended(b)) by {
        assert forall|i: int, j: int|
            0 <= i < j < b.len() && (#[trigger] b[i]).raw[0] == 0 implies systems::is_quiet(
            #[trigger] b[j],
        ) by {
            reopening::lemma_slot_sizes(v, m, free, d);
            if j >= a.len() {
                assert(b[j] == z[j - a.len()]);
            } else {
                assert(a[i].raw.len() == 32 && a[j].raw.len() == 32);
                assert(b[i] == expanding::marked_up(a, q)[i]);
                assert(b[j] == expanding::marked_up(a, q)[j]);
                assert(a[i].raw[0] == 0);
                assert(space::is_free(a[j]));
            }
        }
    }
    assert(is_unused(b, at, wanted)) by {
        reopening::lemma_slot_sizes(v, m, free, d);
        assert forall|k: int| at <= k < at + wanted implies (#[trigger] b[k]).raw[0] <= 0x80 by {
            if k < a.len() {
                assert(space::is_free(a[k]));
                assert(a[k].raw.len() == 32);
                assert(b[k] == expanding::marked_up(a, q)[k]);
            } else {
                assert(b[k] == z[k - a.len()]);
            }
        }
    }
    let needed = (wanted - run.len()) as nat;
    let first = space::first_slots(g, new, needed);
    let locs = decoding::places(room, at, at + wanted);
    assert(run + first =~= locs) by {
        assert forall|k: int| 0 <= k < wanted implies (run + first)[k] == locs[k] by {
            if k < run.len() {
                assert(run[k] == a[at + k].at);
            } else {
                let j = k - run.len();
                assert(z[j].at == space::first_slots(g, new, q as nat)[j]);
            }
        }
    }
    r
}

/// A directory that has grown, with never-used slots at its old end marked as
/// used, is sound and lists what it did.
proof fn lemma_grown_sound<E>(
    v: Volume,
    m: Media,
    m2: Media,
    free: u32,
    free2: u32,
    above: Seq<Seq<char>>,
    d: DirectoryModel,
    n: int,
    new: u32,
    wanted: nat,
    run: Seq<EntryLocator>,
)
    requires
        regions::sound(v, m, free),
        is_dir_at::<E>(v, m, above, d, n),
        has_grown::<E>(v, m, m2, free2, above, d, n, new),
        space::search(directories::slots_of(v.geometry, m, d), wanted, Seq::empty())
            == space::Search::Short(run),
        0 < wanted,
        run.len() <= v.geometry.bytes_per_sector as nat / 32,
    ensures
        is_dir_at::<E>(v, m2, above, space::longer(v.geometry, d), n + 1),
        listing::listing(v.geometry, m2, space::longer(v.geometry, d)) == listing::listing(
            v.geometry,
            m,
            d,
        ),
{
    let g = v.geometry;
    let d2 = space::longer(g, d);
    let q = g.bytes_per_sector as int / 32;
    let a = directories::slots_of(g, m, d);
    let b = directories::slots_of(g, m2, d2);
    let z = b.skip(a.len() as int);
    assert(a.skip(0) =~= a);
    assert(Seq::<EntryLocator>::empty() =~= decoding::places(a, 0, 0));
    decoding::lemma_search(a, wanted, Seq::empty(), 0);
    let at = a.len() - run.len();
    extents::lemma_extent_housed(v, m, d, n);
    let before = walk::directory_slots(g, m, d).end;
    let end = walk::directory_slots(g, m2, d2).end;
    let c = expanding::marked_up(a, q);
    assert(decoding::all_used(c, c.len() as int)) by {
        assert forall|k: int| 0 <= k < c.len() implies (#[trigger] c[k]).raw[0] != 0 by {
            if k < at {
                lemma_unused_behind(a, at, k);
            }
            if a[k].raw[0] == 0 {
                reopening::lemma_slot_sizes(v, m, free, d);
                assert(a[k].raw.len() == 32);
            }
        }
    }
    assert forall|k: int| 0 <= k < a.len() && a[k].raw[0] == 0 implies (#[trigger] c[k]).raw[0] == 0
        || c[k].raw[0] == 0x80 by {
        reopening::lemma_slot_sizes(v, m, free, d);
        assert(a[k].raw.len() == 32);
    }
    expanding::lemma_marked_with_blank(a, c, z, before, end);
}

/// A cluster that a directory takes after it has grown was free before.
proof fn lemma_taken_later<E>(
    v: Volume,
    m: Media,
    m1: Media,
    free1: u32,
    above: Seq<Seq<char>>,
    d: DirectoryModel,
    n: int,
    new: u32,
    c: u32,
)
    requires
        has_grown::<E>(v, m, m1, free1, above, d, n, new),
        above.len() == 0 ==> d.locs.len() == 0,
        v.geometry.in_heap(c),
        regions::apart(v.geometry),
        !directories::homes(v.geometry, m1, space::longer(v.geometry, d)).contains(c),
        allocation::is_used(v, m1, c as int) == Some(false),
    ensures
        allocation::is_used(v, m, c as int) == Some(false),
{
    let g = v.geometry;
    let d1 = space::longer(g, d);
    let edited = directories::homes_of(g, d.locs);
    assert(!edited.contains(c)) by {
        if edited.contains(c) {
            let k = choose|k: int|
                0 <= k < d.locs.len() && c == directories::home(g, (#[trigger] d.locs[k]).lba);
            assert(above.len() > 0);
            let up = trails::last_dir::<E>(v, m1, entry::root_model(g), above);
            let i = lemma_registered::<E>(v, m1, free1, up, above.last(), d1);
            lemma_homes_taken(v, m1, up, c);
        }
    }
    regions::lemma_geometry(g);
    assert(allocation::is_used(v, m1, c as int) == allocation::is_used(v, m, c as int));
}

/// Room that is found after growing is room.
proof fn lemma_room_later<E>(
    v: Volume,
    m: Media,
    m1: Media,
    m2: Media,
    free1: u32,
    free2: u32,
    above: Seq<Seq<char>>,
    d: DirectoryModel,
    n: int,
    new: u32,
    wanted: nat,
    r: Room,
)
    requires
        regions::apart(v.geometry),
        has_grown::<E>(v, m, m1, free1, above, d, n, new),
        systems::is_kept(v.geometry, m, m1),
        listing::listing(v.geometry, m1, space::longer(v.geometry, d)) == listing::listing(
            v.geometry,
            m,
            d,
        ),
        has_room::<E>(v, m1, m2, free2, above, space::longer(v.geometry, d), wanted, r),
        above.len() == 0 ==> d.locs.len() == 0,
    ensures
        has_room::<E>(v, m, m2, free2, above, d, wanted, r),
{
    let g = v.geometry;
    let d1 = space::longer(g, d);
    let homes = directories::homes(g, m2, r.dir);
    let edited = directories::homes_of(g, d.locs);
    let all = homes.union(edited);
    assert(regions::evolves(v, m, m2, free2, all)) by {
        let first = directories::homes(g, m1, d1).union(edited);
        allocating::lemma_evolves_on(v, m, m1, m2, free1, free2, first, all, all);
    }
    lemma_same_names_on(v, m, m1, m2);
    systems::lemma_kept_on(g, m, m1, m2);
    assert forall|c: u32| #[trigger] homes.contains(c) implies directories::homes(g, m, d).contains(c)
        || allocation::is_used(v, m, c as int) == Some(false) by {
        if !directories::homes(g, m1, d1).contains(c) {
            extents::lemma_extent_housed(v, m2, r.dir, r.count);
            lemma_homes_taken(v, m2, r.dir, c);
            lemma_taken_later::<E>(v, m, m1, free1, above, d, n, new, c);
        }
    }
}

/// A directory that does not grow is not linked by the FAT to its last cluster.
proof fn lemma_full(v: Volume, m: Media, d: DirectoryModel, n: int)
    requires
        regions::apart(v.geometry),
        extents::is_fixed(v, m, d),
    ensures
        ({
            let end = walk::directory_slots(v.geometry, m, d).end;
            end == walk::End::Bytes || end == walk::End::Contiguous
        }),
        !extents::is_chain(v, m, d, n),
{
    reveal(extents::is_fixed);
    if extents::is_chain(v, m, d, n) {
        extents::lemma_chain_housed(v, m, d, n);
    }
}

/// Finding room for an entry set in the directory that a path names: it is
/// found, or the directory is full and cannot grow, as a FAT-linked one can as
/// long as there are free clusters, and lists what it did.
pub proof fn lemma_room_found<E>(
    v: Volume,
    m: Media,
    free: u32,
    above: Seq<Seq<char>>,
    d: DirectoryModel,
    n: int,
    wanted: nat,
) -> (r: Room)
    requires
        regions::sound(v, m, free),
        is_dir_at::<E>(v, m, above, d, n),
        3 <= wanted <= 19,
    ensures
        ({
            let find = space::find_plan::<E>(v, m, free, d, wanted);
            match find.result {
                Ok(locs) => {
                    &&& has_room::<E>(v, m, find.leaves(m), find.free, above, d, wanted, r)
                    &&& locs == decoding::places(r.slots, r.at, r.at + wanted)
                },
                Err(error) => {
                    &&& error == Error::<E>::NoSpace
                    &&& extents::is_chain(v, m, d, n) ==> find.free == 0
                    &&& lists_the_same::<E>(
                        v,
                        m,
                        find.leaves(m),
                        find.free,
                        above,
                        d,
                        r.dir,
                        r.count,
                    )
                },
            }
        }),
    decreases free,
{
    let g = v.geometry;
    let a = directories::slots_of(g, m, d);
    let find = space::find_plan::<E>(v, m, free, d, wanted);
    extents::lemma_extent_housed(v, m, d, n);
    let tail = extents::link(g, m, d, n - 1);
    assert(a.skip(0) =~= a);
    assert(Seq::<EntryLocator>::empty() =~= decoding::places(a, 0, 0));
    decoding::lemma_search(a, wanted, Seq::empty(), 0);
    match space::search(a, wanted, Seq::empty()) {
        space::Search::Found(locs) => {
            let at = choose|at: int| #[trigger]
                decoding::is_free_run(a, at, wanted) && locs == decoding::places(
                    a,
                    at,
                    at + wanted,
                );
            let homes = directories::homes(g, m, d);
            files::lemma_unchanged(
                v,
                m,
                free,
                homes.union(directories::homes_of(g, d.locs)),
            );
            assert(find.leaves(m) == m);
            systems::lemma_kept_still(g, m);
            lemma_tidy_ends(a);
            assert(is_unused(a, at, wanted)) by {
                assert forall|k: int| at <= k < at + wanted implies (#[trigger] a[k]).raw[0]
                    <= 0x80 by {
                    assert(space::is_free(a[k]));
                }
            }
            Room { dir: d, count: n, slots: a, at }
        },
        space::Search::Short(_) if extents::is_fixed(v, m, d) => {
            lemma_full(v, m, d, n);
            assert(find == Plan::<Seq<EntryLocator>, E>::answer(free, Err(Error::NoSpace)));
            assert(find.leaves(m) == m);
            lemma_lists_still::<E>(v, m, free, above, d, n);
            Room { dir: d, count: n, slots: a, at: 0 }
        },
        space::Search::Short(run) => {
            assert(extents::is_chain(v, m, d, n));
            extents::lemma_chain_housed(v, m, d, n);
            lemma_tidy_ends(a);
            assert(walk::directory_slots(g, m, d).end == walk::End::Tail(tail));
            let grow = space::grow_plan::<E>(v, m, free, d, tail);
            let m1 = grow.leaves(m);
            lemma_grown_at::<E>(v, m, free, above, d, n);
            let needed = (wanted - run.len()) as nat;
            let d1 = space::longer(g, d);
            match grow.result {
                Ok(new) => {
                    if run.len() != 0 && needed <= g.bytes_per_sector as nat / 32 {
                        let rest = Plan::<Seq<EntryLocator>, E>::answer(
                            grow.free,
                            Ok(run + space::first_slots(g, new, needed)),
                        );
                        lemma_and_leaves(grow, rest, m);
                        assert(rest.leaves(m1) == m1);
                        lemma_room_across::<E>(
                            v,
                            m,
                            m1,
                            free,
                            grow.free,
                            above,
                            d,
                            n,
                            new,
                            wanted,
                            run,
                        )
                    } else {
                        lemma_grown_sound::<E>(
                            v,
                            m,
                            m1,
                            free,
                            grow.free,
                            above,
                            d,
                            n,
                            new,
                            wanted,
                            run,
                        );
                        let r = lemma_room_found::<E>(
                            v,
                            m1,
                            grow.free,
                            above,
                            d1,
                            n + 1,
                            wanted,
                        );
                        let rest = space::find_plan::<E>(v, m1, grow.free, d1, wanted);
                        lemma_and_leaves(grow, rest, m);
                        assert(extents::is_chain(v, m1, d1, n + 1));
                        if rest.result is Ok {
                            lemma_room_later::<E>(
                                v,
                                m,
                                m1,
                                rest.leaves(m1),
                                grow.free,
                                rest.free,
                                above,
                                d,
                                n,
                                new,
                                wanted,
                                r,
                            );
                        } else {
                            lemma_lists_later::<E>(
                                v,
                                m,
                                m1,
                                rest.leaves(m1),
                                grow.free,
                                rest.free,
                                above,
                                d,
                                n,
                                new,
                                r.dir,
                                r.count,
                            );
                        }
                        r
                    }
                },
                Err(_) => {
                    assert(find.leaves(m) == m);
                    lemma_lists_still::<E>(v, m, free, above, d, n);
                    Room { dir: d, count: n, slots: a, at: 0 }
                },
            }
        },
    }
}

} // verus!
