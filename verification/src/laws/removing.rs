//! Removing a file or an empty directory.

use crate::device;
use crate::device::{Media, SectorWrite};
use crate::directory::codec;
use crate::directory::entry;
use crate::directory::entry::{DirectoryModel, EntryModel};
use crate::directory::slots;
use crate::directory::slots::EntryLocator;
use crate::error::Error;
use crate::fs::allocation;
use crate::fs::file;
use crate::fs::listing;
use crate::fs::listing::Listing;
use crate::fs::lookup;
use crate::fs::metadata;
use crate::fs::names;
use crate::fs::paths;
use crate::fs::release;
use crate::fs::remove;
use crate::fs::state::Plan;
use crate::fs::walk;
use crate::laws::adding;
use crate::laws::allocating;
use crate::laws::appending;
use crate::laws::creating;
use crate::laws::decoding;
use crate::laws::directories;
use crate::laws::files;
use crate::laws::placing;
use crate::laws::regions;
use crate::laws::remounting;
use crate::laws::reopening;
use crate::laws::sets;
use crate::laws::shortening;
use crate::laws::systems;
use crate::laws::trails;
use crate::mount::Volume;
use vstd::prelude::*;

verus! {

/// An entry whose in-use bit was cleared.
pub open spec fn unmarked(raw: Seq<u8>) -> Seq<u8> {
    raw.update(0, raw[0] & 0x7f)
}

/// Retiring the entries at `locs` from number `i` on.
pub proof fn lemma_retired<E>(v: Volume, m: Media, free: u32, locs: Seq<EntryLocator>, i: int)
    requires
        regions::sound(v, m, free),
        directories::are_places(v, m, locs),
        0 <= i <= locs.len(),
    ensures
        ({
            let plan = metadata::retire_plan::<E>(v, m, free, locs, i);
            let m2 = plan.leaves(m);
            &&& plan.result == Ok::<(), Error<E>>(())
            &&& plan.free == free
            &&& directories::edits(v, m, m2, free, locs)
            &&& forall|k: int|
                i <= k < locs.len() ==> metadata::entry_at(m2, #[trigger] locs[k]) == unmarked(
                    metadata::entry_at(m, locs[k]),
                )
            &&& forall|k: int|
                0 <= k < i ==> metadata::entry_at(m2, #[trigger] locs[k]) == metadata::entry_at(
                    m,
                    locs[k],
                )
        }),
    decreases locs.len() - i,
{
    let g = v.geometry;
    let plan = metadata::retire_plan::<E>(v, m, free, locs, i);
    if i == locs.len() {
        assert(plan.leaves(m) == m);
        directories::lemma_no_edit(v, m, free, locs);
    } else {
        let at = locs[i];
        let off = at.offset as int;
        let sector = m[at.lba];
        let data = sector.update(off, sector[off] & 0x7f);
        let clear = metadata::sector_plan::<E>(free, at.lba, data);
        let m1 = clear.leaves(m);
        device::lemma_applied_one(m, SectorWrite { lba: at.lba, data });
        appending::lemma_home_length(v, m, free, at.lba, directories::home(g, at.lba));
        directories::lemma_entry_written(v, m, free, at, data);
        assert(m1 == m.insert(at.lba, data));
        assert(metadata::entry_at(m1, at) =~= unmarked(metadata::entry_at(m, at)));
        directories::lemma_places_kept(v, m, m1, free, locs, seq![at]);
        lemma_retired::<E>(v, m1, free, locs, i + 1);
        let rest = metadata::retire_plan::<E>(v, m1, free, locs, i + 1);
        assert(plan == clear.and(rest));
        device::lemma_applied_concat(m, clear.writes, rest.writes);
        let m2 = rest.leaves(m1);
        assert(seq![at][0] == at);
        assert(locs.contains(at));
        directories::lemma_edits_on(v, m, m1, m2, free, seq![at], locs, locs);
        assert forall|k: int| 0 <= k < locs.len() && k != i implies metadata::entry_at(
            m1,
            #[trigger] locs[k],
        ) == metadata::entry_at(m, locs[k]) by {
            if k < i {
                assert(locs[k] != locs[i]);
            } else {
                assert(locs[i] != locs[k]);
            }
            assert(!seq![at].contains(locs[k]));
        }
    }
}

/// Once a set is retired, its directory no longer lists it; nothing else in
/// the listing changes, and the directory stays sound.
pub proof fn lemma_retired_listing<E>(v: Volume, m: Media, free: u32, d: DirectoryModel, i: int)
    requires
        regions::sound(v, m, free),
        directories::dir_sound(v, m, d),
        0 <= i < listing::listing(v.geometry, m, d).entries.len(),
    ensures
        ({
            let g = v.geometry;
            let before = listing::listing(g, m, d);
            let locs = before.entries[i].locs;
            let plan = metadata::retire_plan::<E>(v, m, free, locs, 0);
            let m2 = plan.leaves(m);
            let after = listing::listing(g, m2, d);
            &&& plan.result == Ok::<(), Error<E>>(())
            &&& plan.free == free
            &&& directories::edits(v, m, m2, free, locs)
            &&& directories::dir_sound(v, m2, d)
            &&& after.entries == before.entries.remove(i)
            &&& after.sound == before.sound
            &&& directories::homes(g, m2, d) == directories::homes(g, m, d)
        }),
{
    let g = v.geometry;
    let a = directories::slots_of(g, m, d);
    let end = walk::directory_slots(g, m, d).end;
    let before = listing::listing(g, m, d);
    reopening::lemma_slot_sizes(v, m, free, d);
    let (p, q) = sets::lemma_set_of(a, end, i);
    let x = a.subrange(p, q);
    let locs = decoding::places(a, p, q);
    adding::lemma_run_places(v, m, d, p, q);
    lemma_retired::<E>(v, m, free, locs, 0);
    let m2 = metadata::retire_plan::<E>(v, m, free, locs, 0).leaves(m);
    adding::lemma_slots_edited(v, m, m2, free, d, locs);
    adding::lemma_spans_kept(v, m, m2, free, d, locs);
    let b = directories::slots_of(g, m2, d);
    assert forall|k: int| p <= k < q implies 0 < (#[trigger] b[k]).raw[0] < 0x80 by {
        assert(locs[k - p] == a[k].at);
        adding::lemma_slot(v, m, d, k);
        assert(b[k].raw == unmarked(a[k].raw));
        assert(x[k - p] == a[k]);
        assert(0x85u8 & 0x7f == 5 && 0xc0u8 & 0x7f == 0x40 && 0xc1u8 & 0x7f == 0x41)
            by (bit_vector);
        if k - p >= 2 {
            assert(x[k - p].raw[0] == 0xc1);
        }
    }
    assert(sets::differ_within(a, b, p, q)) by {
        assert forall|k: int| 0 <= k < a.len() && !(p <= k < q) implies #[trigger] b[k] == a[k] by {
            assert(!locs.contains(a[k].at)) by {
                if locs.contains(a[k].at) {
                    let j = choose|j: int| 0 <= j < locs.len() && locs[j] == a[k].at;
                    adding::lemma_slots_apart(v, m, d, p + j, k);
                }
            }
        }
    }
    sets::lemma_set_retired(a, b, end, i, p, q);
    assert(directories::homes(g, m2, d) =~= directories::homes(g, m, d));
}

/// Retiring a set leaves the system entries alone.
pub proof fn lemma_retired_kept<E>(v: Volume, m: Media, free: u32, d: DirectoryModel, i: int)
    requires
        regions::sound(v, m, free),
        directories::dir_sound(v, m, d),
        directories::dir_housed(v, m, entry::root_model(v.geometry)),
        0 <= i < listing::listing(v.geometry, m, d).entries.len(),
    ensures
        ({
            let locs = listing::listing(v.geometry, m, d).entries[i].locs;
            let plan = metadata::retire_plan::<E>(v, m, free, locs, 0);
            systems::is_kept(v.geometry, m, plan.leaves(m))
        }),
{
    let g = v.geometry;
    let locs = listing::listing(g, m, d).entries[i].locs;
    reopening::lemma_entry_places(v, m, free, d, i);
    systems::lemma_set_in_use(v, m, free, d, i);
    lemma_retired::<E>(v, m, free, locs, 0);
    let m2 = metadata::retire_plan::<E>(v, m, free, locs, 0).leaves(m);
    assert forall|k: int| 0 <= k < locs.len() implies systems::is_passed(
        systems::kind_at(m2, #[trigger] locs[k]),
    ) by {
        let kind = systems::kind_at(m, locs[k]);
        assert(directories::is_housed(v, m, locs[k].lba));
        appending::lemma_home_length(v, m, free, locs[k].lba, directories::home(g, locs[k].lba));
        assert(kind & 0x7f == kind % 0x80) by (bit_vector);
        assert(systems::kind_at(m2, locs[k]) == kind & 0x7f);
    }
    systems::lemma_kept_edited(v, m, m2, free, locs);
}

/// Releasing a run of clusters frees all of them and changes nothing else.
pub proof fn lemma_released<E>(v: Volume, m: Media, free: u32, contiguous: bool, cs: Seq<u32>)
    requires
        regions::sound(v, m, free),
        cs.len() > 0,
        shortening::is_run(v, m, contiguous, cs),
    ensures
        shortening::has_freed(
            v,
            m,
            free,
            cs,
            release::release_run_plan::<E>(v, m, free, contiguous, cs[0], cs.len()),
        ),
    decreases cs.len(),
{
    let g = v.geometry;
    let plan = release::release_run_plan::<E>(v, m, free, contiguous, cs[0], cs.len());
    let tail = cs.drop_first();
    regions::lemma_geometry(g);
    assert(appending::is_taken(v, m, cs[0]));
    let give = release::free_plan::<E>(v, m, free, cs[0]);
    let m1 = give.leaves(m);
    allocating::law_freed_cluster_is_free::<E>(v, m, free, cs[0]);
    assert(!tail.contains(cs[0])) by {
        if tail.contains(cs[0]) {
            let i = choose|i: int| 0 <= i < tail.len() && tail[i] == cs[0];
            assert(cs[i + 1] == cs[0]);
        }
    }
    if cs.len() == 1 {
        let rest = Plan::<(), E>::answer(give.free, Ok(()));
        assert(rest.leaves(m1) == m1);
        files::lemma_unchanged(v, m1, give.free, tail.to_set());
        shortening::lemma_freed_on(v, m, free, cs, plan, rest);
    } else {
        let next = release::successor(g, m, contiguous, cs[0]);
        assert(next == Some(cs[1]));
        assert(appending::is_taken(v, m, cs[1]));
        let rest = release::release_run_plan::<E>(
            v,
            m1,
            give.free,
            contiguous,
            cs[1],
            (cs.len() - 1) as nat,
        );
        shortening::lemma_rest_of_run::<E>(v, m, free, contiguous, cs);
        lemma_released::<E>(v, m1, give.free, contiguous, tail);
        assert(tail[0] == cs[1]);
        assert(plan == give.and(rest));
        device::lemma_applied_concat(m, give.writes, rest.writes);
        shortening::lemma_freed_on(v, m, free, cs, plan, rest);
    }
}

/// Whether the path with these parts names an entry of a sound volume: the
/// directories on the way are sound, and they, the last one and what the entry
/// describes share no clusters.
pub open spec fn is_entry_at<E>(
    v: Volume,
    media: Media,
    parts: Seq<Seq<char>>,
    found: EntryModel,
) -> bool {
    let g = v.geometry;
    let root = entry::root_model(g);
    let d = trails::last_dir::<E>(v, media, root, parts);
    let f = file::opened(found);
    &&& trails::leads::<E>(v, media, root, parts)
    &&& directories::dir_sound(v, media, d)
    &&& files::file_sound(v, media, f)
    &&& files::owned(g, media, f).disjoint(directories::homes(g, media, d))
    &&& trails::is_clear::<E>(
        v,
        media,
        root,
        parts,
        files::owned(g, media, f).union(directories::homes(g, media, d)),
    )
    &&& codec::name_result::<E>(parts.last()) matches Ok(units)
    &&& listing::child(v, media, d, units) == Some(Some(found))
}

/// Whether a listing has no other entry with the name of entry number `i`.
pub open spec fn is_only(v: Volume, media: Media, list: Listing, i: int, name: Seq<u16>) -> bool {
    forall|j: int|
        0 <= j < list.entries.len() && j != i ==> names::same_name(
            v,
            media,
            (#[trigger] list.entries[j]).name,
            name,
        ) == Some(false)
}

/// A name that matches no entry of a sound listing is not found.
pub proof fn lemma_nothing_found(v: Volume, m: Media, list: Listing, name: Seq<u16>, i: int)
    requires
        0 <= i,
        list.sound,
        forall|j: int|
            i <= j < list.entries.len() ==> names::same_name(
                v,
                m,
                (#[trigger] list.entries[j]).name,
                name,
            ) == Some(false),
    ensures
        listing::find_from(v, m, list, name, i) == Some(None::<EntryModel>),
    decreases list.entries.len() - i,
{
    if i < list.entries.len() {
        lemma_nothing_found(v, m, list, name, i + 1);
    }
}

/// Whether the clusters of a file have all been given back, and nothing but
/// them has changed.
pub open spec fn has_released<E>(
    v: Volume,
    m: Media,
    free: u32,
    f: file::FileModel,
    plan: Plan<(), E>,
) -> bool {
    let g = v.geometry;
    let m2 = plan.leaves(m);
    &&& plan.result == Ok::<(), Error<E>>(())
    &&& plan.free == free + files::count_of(g, f)
    &&& regions::evolves(v, m, m2, plan.free, files::owned(g, m, f))
    &&& forall|c: u32| #[trigger]
        files::owned(g, m, f).contains(c) ==> allocation::is_used(v, m2, c as int) == Some(false)
}

/// Releasing what an entry describes.
proof fn lemma_stream_released<E>(v: Volume, m: Media, free: u32, found: EntryModel)
    requires
        regions::sound(v, m, free),
        files::file_sound(v, m, file::opened(found)),
    ensures
        has_released(
            v,
            m,
            free,
            file::opened(found),
            release::release_plan::<E>(v, m, free, found),
        ),
{
    let g = v.geometry;
    let f = file::opened(found);
    let plan = release::release_plan::<E>(v, m, free, found);
    let m2 = plan.leaves(m);
    let n = files::count_of(g, f);
    regions::lemma_geometry(g);
    files::lemma_first_in_heap(v, m, f);
    release::lemma_clusters(g, f.data_length as int);
    if n == 0 {
        assert(m2 == m);
        files::lemma_unchanged(v, m, free, files::owned(g, m, f));
    } else {
        let cs = shortening::clusters_from(g, m, f, 0);
        shortening::lemma_file_run(v, m, f, 0);
        assert(files::cluster_at(g, m, f, 0) is Some);
        assert(cs[0] == f.first_cluster);
        lemma_released::<E>(v, m, free, f.no_fat_chain, cs);
        assert(cs.to_set().subset_of(files::owned(g, m, f))) by {
            assert forall|c: u32| cs.to_set().contains(c) implies files::owned(g, m, f).contains(
                c,
            ) by {
                let j = choose|j: int| 0 <= j < cs.len() && cs[j] == c;
                assert(files::cluster_at(g, m, f, 0 + j) is Some);
                assert(files::cluster_at(g, m, f, j) == Some(c));
                assert(files::owns(g, m, f, c));
            }
        }
        files::lemma_wider(v, m, m2, plan.free, cs.to_set(), files::owned(g, m, f));
        assert forall|c: u32| #[trigger] files::owned(g, m, f).contains(
            c,
        ) implies allocation::is_used(v, m2, c as int) == Some(false) by {
            let j = choose|j: int|
                0 <= j < n && #[trigger] files::cluster_at(g, m, f, j) == Some(c);
            assert(cs[j] == c);
        }
    }
}

/// Retiring the set of entry number `i` of a directory and releasing what it
/// describes.
proof fn lemma_entry_removed<E>(v: Volume, m: Media, free: u32, d: DirectoryModel, i: int)
    requires
        regions::sound(v, m, free),
        directories::dir_sound(v, m, d),
        0 <= i < listing::listing(v.geometry, m, d).entries.len(),
        ({
            let f = file::opened(listing::listing(v.geometry, m, d).entries[i]);
            &&& files::file_sound(v, m, f)
            &&& files::owned(v.geometry, m, f).disjoint(directories::homes(v.geometry, m, d))
        }),
    ensures
        ({
            let g = v.geometry;
            let before = listing::listing(g, m, d);
            let found = before.entries[i];
            let f = file::opened(found);
            let old = files::owned(g, m, f);
            let edited = directories::homes_of(g, found.locs);
            let retire = metadata::retire_plan::<E>(v, m, free, found.locs, 0);
            let give = release::release_plan::<E>(v, retire.leaves(m), free, found);
            let plan = retire.and(give);
            let m2 = plan.leaves(m);
            let after = listing::listing(g, m2, d);
            &&& plan.result == Ok::<(), Error<E>>(())
            &&& plan.free == free + files::count_of(g, f)
            &&& regions::evolves(v, m, m2, plan.free, edited.union(old))
            &&& edited.subset_of(directories::homes(g, m, d))
            &&& forall|c: u32| #[trigger]
                edited.union(old).contains(c) ==> !regions::is_table(v, m, c)
            &&& forall|c: u32| #[trigger]
                old.contains(c) ==> allocation::is_used(v, m2, c as int) == Some(false)
            &&& directories::dir_sound(v, m2, d)
            &&& after.entries == before.entries.remove(i)
            &&& after.sound == before.sound
        }),
{
    let g = v.geometry;
    let found = listing::listing(g, m, d).entries[i];
    let f = file::opened(found);
    let old = files::owned(g, m, f);
    let edited = directories::homes_of(g, found.locs);
    let retire = metadata::retire_plan::<E>(v, m, free, found.locs, 0);
    let m1 = retire.leaves(m);
    lemma_retired_listing::<E>(v, m, free, d, i);
    reopening::lemma_entry_places(v, m, free, d, i);
    assert(edited.disjoint(old));
    files::law_untouched_file_keeps_its_bytes(v, m, m1, f, edited);
    let give = release::release_plan::<E>(v, m1, free, found);
    let m2 = give.leaves(m1);
    lemma_stream_released::<E>(v, m1, free, found);
    device::lemma_applied_concat(m, retire.writes, give.writes);
    trails::lemma_dir_kept(v, m1, m2, free, d, old);
    allocating::lemma_evolves_on(v, m, m1, m2, free, give.free, edited, old, edited.union(old));
    assert forall|c: u32| #[trigger] edited.union(old).contains(c) implies !regions::is_table(
        v,
        m,
        c,
    ) by {
        if old.contains(c) {
            let k = choose|k: int|
                0 <= k < files::count_of(g, f) && #[trigger] files::cluster_at(g, m, f, k) == Some(
                    c,
                );
            assert(regions::is_plain(v, m, c));
        } else {
            let k = choose|k: int|
                0 <= k < found.locs.len() && c == directories::home(
                    g,
                    (#[trigger] found.locs[k]).lba,
                );
            assert(directories::is_housed(v, m, found.locs[k].lba));
        }
    }
}

/// Removing an entry leaves the system entries alone.
proof fn lemma_removed_kept<E>(v: Volume, m: Media, free: u32, d: DirectoryModel, i: int)
    requires
        regions::sound(v, m, free),
        directories::dir_sound(v, m, d),
        directories::dir_housed(v, m, entry::root_model(v.geometry)),
        0 <= i < listing::listing(v.geometry, m, d).entries.len(),
        ({
            let g = v.geometry;
            let f = file::opened(listing::listing(g, m, d).entries[i]);
            &&& files::file_sound(v, m, f)
            &&& files::owned(g, m, f).disjoint(directories::homes(g, m, d))
            &&& files::owned(g, m, f).disjoint(directories::homes(g, m, entry::root_model(g)))
        }),
    ensures
        ({
            let found = listing::listing(v.geometry, m, d).entries[i];
            let retire = metadata::retire_plan::<E>(v, m, free, found.locs, 0);
            let give = release::release_plan::<E>(v, retire.leaves(m), free, found);
            systems::is_kept(v.geometry, m, retire.and(give).leaves(m))
        }),
{
    let g = v.geometry;
    let root = entry::root_model(g);
    let found = listing::listing(g, m, d).entries[i];
    let f = file::opened(found);
    let retire = metadata::retire_plan::<E>(v, m, free, found.locs, 0);
    let m1 = retire.leaves(m);
    let give = release::release_plan::<E>(v, m1, free, found);
    let m2 = give.leaves(m1);
    lemma_retired_listing::<E>(v, m, free, d, i);
    lemma_retired_kept::<E>(v, m, free, d, i);
    reopening::lemma_entry_places(v, m, free, d, i);
    files::law_untouched_file_keeps_its_bytes(
        v,
        m,
        m1,
        f,
        directories::homes_of(g, found.locs),
    );
    lemma_stream_released::<E>(v, m1, free, found);
    placing::lemma_and_leaves(retire, give, m);
    adding::lemma_spans_kept(v, m, m1, free, root, found.locs);
    adding::lemma_slots_edited(v, m, m1, free, root, found.locs);
    assert(directories::homes(g, m1, root) =~= directories::homes(g, m, root));
    systems::lemma_kept_beside(v, m1, m2, free, files::owned(g, m, f));
    systems::lemma_kept_on(g, m, m1, m2);
}

/// A file or empty directory that was removed is gone: its path names nothing,
/// its clusters are free and counted so, and everything else in its directory
/// is listed as before. Nothing else on the volume changes but its clusters and
/// those that hold its entry set. The volume stays sound, and mounts again.
#[verifier::rlimit(30)]
pub proof fn law_removed_entry_is_gone<E>(
    v: Volume,
    m: Media,
    free: u32,
    path: Seq<char>,
    scratch_len: nat,
    i: int,
)
    requires
        regions::sound(v, m, free),
        scratch_len >= v.geometry.bytes_per_sector,
        ({
            let parts = paths::components(paths::trimmed(path));
            let d = trails::last_dir::<E>(v, m, entry::root_model(v.geometry), parts);
            let list = listing::listing(v.geometry, m, d);
            let units = codec::name_result::<E>(parts.last())->Ok_0;
            &&& 0 <= i < list.entries.len()
            &&& is_entry_at::<E>(v, m, parts, list.entries[i])
            &&& is_only(v, m, list, i, units)
            &&& list.sound
            &&& remove::removable::<E>(v, m, list.entries[i]) == Ok::<(), Error<E>>(())
        }),
    ensures
        ({
            let g = v.geometry;
            let parts = paths::components(paths::trimmed(path));
            let d = trails::last_dir::<E>(v, m, entry::root_model(g), parts);
            let found = listing::listing(g, m, d).entries[i];
            let f = file::opened(found);
            let plan = remove::remove_plan::<E>(v, m, free, path, scratch_len);
            let m2 = plan.leaves(m);
            &&& plan.result == Ok::<(), Error<E>>(())
            &&& plan.free == free + files::count_of(g, f)
            &&& regions::evolves(
                v,
                m,
                m2,
                plan.free,
                directories::homes_of(g, found.locs).union(files::owned(g, m, f)),
            )
            &&& lookup::lookup_result::<E>(v, m2, paths::trimmed(path), scratch_len) == Err::<
                EntryModel,
                Error<E>,
            >(Error::PathNotFound)
            &&& forall|c: u32| #[trigger]
                files::owned(g, m, f).contains(c) ==> allocation::is_used(v, m2, c as int) == Some(
                    false,
                )
            &&& directories::dir_sound(v, m2, d)
            &&& listing::listing(g, m2, d).entries == listing::listing(g, m, d).entries.remove(i)
            &&& forall|n: int| #[trigger]
                placing::is_dir_at::<E>(v, m, parts.drop_last(), d, n) ==> placing::is_dir_at::<E>(
                    v,
                    m2,
                    parts.drop_last(),
                    d,
                    n,
                )
            &&& remounting::mounts_again::<E>(v, m, m2, free, plan.free)
        }),
{
    let g = v.geometry;
    let inner = paths::trimmed(path);
    let parts = paths::components(inner);
    let root = entry::root_model(g);
    let d = trails::last_dir::<E>(v, m, root, parts);
    let list = listing::listing(g, m, d);
    let units = codec::name_result::<E>(parts.last())->Ok_0;
    let found = list.entries[i];
    let f = file::opened(found);
    let homes = directories::homes(g, m, d);
    let old = files::owned(g, m, f);
    let way = trails::passed::<E>(v, m, root, parts);
    trails::lemma_resolve::<E>(v, m, root, parts, scratch_len);
    let plan = remove::remove_plan::<E>(v, m, free, path, scratch_len);
    lemma_entry_removed::<E>(v, m, free, d, i);
    let retire = metadata::retire_plan::<E>(v, m, free, found.locs, 0);
    let give = release::release_plan::<E>(v, retire.leaves(m), free, found);
    assert(plan == retire.and(give));
    let m2 = plan.leaves(m);
    let all = directories::homes_of(g, found.locs).union(old);
    assert(trails::is_clear::<E>(v, m, root, parts, all)) by {
        assert forall|k: int| 0 <= k < way.len() implies directories::dir_sound(
            v,
            m,
            #[trigger] way[k],
        ) && all.disjoint(directories::homes(g, m, way[k])) by {
            assert(old.union(homes).disjoint(directories::homes(g, m, way[k])));
        }
    }
    directories::lemma_names_kept(v, m, m2, free, all);
    trails::lemma_trail::<E>(v, m, m2, free, root, parts, all);
    trails::lemma_resolve::<E>(v, m2, root, parts, scratch_len);
    // What is still there.
    let after = listing::listing(g, m2, d);
    assert forall|j: int| 0 <= j < after.entries.len() implies names::same_name(
        v,
        m2,
        (#[trigger] after.entries[j]).name,
        units,
    ) == Some(false) by {
        let k = if j < i {
            j
        } else {
            j + 1
        };
        assert(after.entries[j] == list.entries[k]);
        directories::lemma_matches_kept(v, m, m2, list.entries[k].name, units);
    }
    lemma_nothing_found(v, m2, after, units, 0);
    assert forall|n: int| #[trigger]
        placing::is_dir_at::<E>(v, m, parts.drop_last(), d, n) implies placing::is_dir_at::<E>(
        v,
        m2,
        parts.drop_last(),
        d,
        n,
    ) by {
        lemma_dir_stays::<E>(v, m, free, parts, d, n, i);
    }
    assert(remounting::mounts_again::<E>(v, m, m2, free, plan.free)) by {
        assert(trails::is_clear::<E>(v, m, root, parts, old)) by {
            assert forall|k: int| 0 <= k < way.len() implies directories::dir_sound(
                v,
                m,
                #[trigger] way[k],
            ) && old.disjoint(directories::homes(g, m, way[k])) by {
                assert(old.union(homes).disjoint(directories::homes(g, m, way[k])));
            }
        }
        reopening::lemma_root_on_way::<E>(v, m, parts, old);
        lemma_removed_kept::<E>(v, m, free, d, i);
        remounting::lemma_mounts_again::<E>(v, m, m2, free, plan.free, all);
    }
}

/// The directory that something was removed from.
proof fn lemma_dir_stays<E>(
    v: Volume,
    m: Media,
    free: u32,
    parts: Seq<Seq<char>>,
    d: DirectoryModel,
    n: int,
    i: int,
)
    requires
        regions::sound(v, m, free),
        parts.len() > 0,
        placing::is_dir_at::<E>(v, m, parts.drop_last(), d, n),
        0 <= i < listing::listing(v.geometry, m, d).entries.len(),
        is_entry_at::<E>(v, m, parts, listing::listing(v.geometry, m, d).entries[i]),
    ensures
        ({
            let found = listing::listing(v.geometry, m, d).entries[i];
            let retire = metadata::retire_plan::<E>(v, m, free, found.locs, 0);
            let give = release::release_plan::<E>(v, retire.leaves(m), free, found);
            placing::is_dir_at::<E>(v, retire.and(give).leaves(m), parts.drop_last(), d, n)
        }),
{
    let g = v.geometry;
    let root = entry::root_model(g);
    let above = parts.drop_last();
    let found = listing::listing(g, m, d).entries[i];
    let f = file::opened(found);
    let retire = metadata::retire_plan::<E>(v, m, free, found.locs, 0);
    let m1 = retire.leaves(m);
    assert(above.push(parts.last()) =~= parts);
    creating::lemma_dir_leads::<E>(v, m, above, parts.last(), d, n);
    lemma_retired_listing::<E>(v, m, free, d, i);
    reopening::lemma_entry_places(v, m, free, d, i);
    creating::lemma_reaches_edited::<E>(v, m, m1, free, above, d, n, found.locs);
    let old = files::owned(g, m, f);
    let homes = directories::homes(g, m, d);
    let edited = directories::homes_of(g, found.locs);
    assert(edited.disjoint(old));
    files::law_untouched_file_keeps_its_bytes(v, m, m1, f, edited);
    let give = release::release_plan::<E>(v, m1, free, found);
    lemma_stream_released::<E>(v, m1, free, found);
    placing::lemma_and_leaves(retire, give, m);
    placing::lemma_clear_before::<E>(v, m, above, parts.last(), d, n, old.union(homes));
    assert forall|c: u32| #[trigger] old.contains(c) implies !regions::is_table(v, m1, c) by {
        let k = choose|k: int|
            0 <= k < files::count_of(g, f) && #[trigger] files::cluster_at(g, m1, f, k) == Some(c);
        assert(files::owned(g, m1, f).contains(c));
        assert(regions::is_plain(v, m1, c));
    }
    if above.len() > 0 {
        let up = trails::last_dir::<E>(v, m, root, above);
        let way = trails::passed::<E>(v, m, root, above);
        assert(old.disjoint(directories::homes(g, m1, up)));
        assert(trails::is_clear::<E>(v, m1, root, above, old)) by {
            assert forall|k: int| 0 <= k < way.len() implies directories::dir_sound(
                v,
                m1,
                #[trigger] way[k],
            ) && old.disjoint(directories::homes(g, m1, way[k])) by {
                assert(old.union(homes).disjoint(directories::homes(g, m, way[k])));
            }
        }
    }
    placing::lemma_reaches_kept::<E>(v, m1, give.leaves(m1), free, above, d, n, old);
}

/// A directory that lists anything is not removed, and nothing changes.
pub proof fn law_filled_directory_stays<E>(
    v: Volume,
    m: Media,
    free: u32,
    path: Seq<char>,
    scratch_len: nat,
    found: EntryModel,
    d: DirectoryModel,
)
    requires
        lookup::lookup_result::<E>(v, m, paths::trimmed(path), scratch_len) == Ok::<
            EntryModel,
            Error<E>,
        >(found),
        found.directory() == Some(d),
        listing::listing(v.geometry, m, d).entries.len() > 0,
    ensures
        ({
            let plan = remove::remove_plan::<E>(v, m, free, path, scratch_len);
            &&& plan.result == Err::<(), Error<E>>(Error::DirectoryNotEmpty)
            &&& plan.leaves(m) == m
            &&& plan.free == free
        }),
{
}

/// Once what an entry describes was released, the FAT holds zero for every cluster
/// that it had.
pub proof fn law_released_stream_leaves_the_fat_clean<E>(
    v: Volume,
    m: Media,
    free: u32,
    found: EntryModel,
    c: u32,
)
    requires
        regions::sound(v, m, free),
        files::file_sound(v, m, file::opened(found)),
        files::owned(v.geometry, m, file::opened(found)).contains(c),
    ensures
        ({
            let m2 = release::release_plan::<E>(v, m, free, found).leaves(m);
            &&& slots::fat_entry(v.geometry, m2, c) == 0
            &&& allocation::is_used(v, m2, c as int) == Some(false)
        }),
{
    let g = v.geometry;
    let f = file::opened(found);
    let n = files::count_of(g, f);
    regions::lemma_geometry(g);
    files::lemma_first_in_heap(v, m, f);
    release::lemma_clusters(g, f.data_length as int);
    let j = choose|j: int| 0 <= j < n && #[trigger] files::cluster_at(g, m, f, j) == Some(c);
    let cs = shortening::clusters_from(g, m, f, 0);
    shortening::lemma_file_run(v, m, f, 0);
    assert(files::cluster_at(g, m, f, 0) is Some);
    assert(cs[0] == f.first_cluster);
    lemma_released::<E>(v, m, free, f.no_fat_chain, cs);
    assert(cs[j] == c);
}

} // verus!
