//! Opening a file again: what was appended to it, or cut off, is there.

use crate::device::Media;
use crate::directory::codec;
use crate::directory::entry;
use crate::directory::entry::{DirectoryModel, EntryModel};
use crate::directory::slots::Slot;
use crate::error::Error;
use crate::fs::allocation;
use crate::fs::file;
use crate::fs::file::FileModel;
use crate::fs::growth;
use crate::fs::listing;
use crate::fs::listing::Listing;
use crate::fs::lookup;
use crate::fs::metadata;
use crate::fs::names;
use crate::fs::paths;
use crate::fs::release;
use crate::fs::stream;
use crate::fs::walk;
use crate::laws::adding;
use crate::laws::appending;
use crate::laws::creating;
use crate::laws::directories;
use crate::laws::files;
use crate::laws::growing;
use crate::laws::placing;
use crate::laws::recording;
use crate::laws::regions;
use crate::laws::remounting;
use crate::laws::sets;
use crate::laws::shortening;
use crate::laws::systems;
use crate::laws::trails;
use crate::mount::Volume;
use vstd::prelude::*;

verus! {

/// Where the entry set of a listed file or directory lies: among the slots of
/// its directory.
pub proof fn lemma_entry_places(v: Volume, m: Media, free: u32, d: DirectoryModel, i: int)
    requires
        regions::sound(v, m, free),
        directories::dir_sound(v, m, d),
        0 <= i < listing::listing(v.geometry, m, d).entries.len(),
    ensures
        ({
            let g = v.geometry;
            let e = listing::listing(g, m, d).entries[i];
            &&& 3 <= e.locs.len() <= 19
            &&& directories::are_places(v, m, e.locs)
            &&& e.primary == e.locs[0]
            &&& e.stream == e.locs[1]
            &&& directories::homes_of(g, e.locs).subset_of(directories::homes(g, m, d))
            &&& e.valid_length <= e.data_length
            &&& e.data_length == 0 || e.first_cluster >= 2
        }),
{
    let g = v.geometry;
    let a = directories::slots_of(g, m, d);
    let end = walk::directory_slots(g, m, d).end;
    let e = listing::listing(g, m, d).entries[i];
    lemma_slot_sizes(v, m, free, d);
    let (p, q) = sets::lemma_set_of(a, end, i);
    let x = a.subrange(p, q);
    sets::lemma_set_completes(x);
    assert(x[0] == a[p] && x[1] == a[p + 1]);
    adding::lemma_run_places(v, m, d, p, q);
    lemma_described(x);
    assert forall|c: u32| directories::homes_of(g, e.locs).contains(c) implies directories::homes(
        g,
        m,
        d,
    ).contains(c) by {
        let k = choose|k: int|
            0 <= k < e.locs.len() && c == directories::home(g, (#[trigger] e.locs[k]).lba);
        let spans = directories::spans_of(g, m, d);
        directories::lemma_slot_place(m, spans, p + k);
        let (j, t) = directories::place_of(spans, p + k);
        assert(a[p + k].at.lba == spans[j].lba);
    }
}

/// The slots of a sound directory have the size of a slot.
pub proof fn lemma_slot_sizes(v: Volume, m: Media, free: u32, d: DirectoryModel)
    requires
        regions::sound(v, m, free),
        directories::dir_housed(v, m, d),
    ensures
        forall|k: int|
            0 <= k < directories::slots_of(v.geometry, m, d).len() ==> (
            #[trigger] directories::slots_of(v.geometry, m, d)[k]).raw.len() == 32,
{
    let g = v.geometry;
    let a = directories::slots_of(g, m, d);
    assert forall|k: int| 0 <= k < a.len() implies (#[trigger] a[k]).raw.len() == 32 by {
        adding::lemma_slot(v, m, d, k);
        appending::lemma_home_length(
            v,
            m,
            free,
            a[k].at.lba,
            directories::home(g, a[k].at.lba),
        );
    }
}

/// What a set describes fits together.
proof fn lemma_described(x: Seq<Slot>)
    requires
        sets::is_set(x),
    ensures
        sets::entry_of(x).valid_length <= sets::entry_of(x).data_length,
        sets::entry_of(x).data_length == 0 || sets::entry_of(x).first_cluster >= 2,
{
    lemma_described_from(x, x.len());
}

/// What a set describes comes from its stream extension.
proof fn lemma_described_from(x: Seq<Slot>, j: nat)
    requires
        sets::is_set(x),
        2 <= j <= x.len(),
    ensures
        sets::decoded(x, j).entry.valid_length <= sets::decoded(x, j).entry.data_length,
        sets::decoded(x, j).entry.data_length == 0 || sets::decoded(x, j).entry.first_cluster >= 2,
    decreases j,
{
    if j > 2 {
        lemma_described_from(x, (j - 1) as nat);
    }
}

/// Whether the path with these parts names a file of a sound volume, and `f` is
/// a handle of it: the directories on the way are sound, and they, the last one
/// and the file itself share no clusters.
pub open spec fn is_file_at<E>(v: Volume, media: Media, parts: Seq<Seq<char>>, f: FileModel) -> bool {
    let g = v.geometry;
    let root = entry::root_model(g);
    let d = trails::last_dir::<E>(v, media, root, parts);
    &&& trails::leads::<E>(v, media, root, parts)
    &&& directories::dir_sound(v, media, d)
    &&& files::file_sound(v, media, f)
    &&& files::owned(g, media, f).disjoint(directories::homes(g, media, d))
    &&& trails::is_clear::<E>(
        v,
        media,
        root,
        parts,
        files::owned(g, media, f).union(directories::homes(g, media, d)),
    )
    &&& codec::name_result::<E>(parts.last()) matches Ok(units)
    &&& listing::child(v, media, d, units) matches Some(Some(found))
    &&& !found.is_directory
    &&& stream::same_file(file::opened(found), f)
}

/// The handle of a file as it is opened anew.
pub open spec fn reopened(f: FileModel) -> FileModel {
    FileModel { position: 0, cache: None, ..f }
}

/// Opening what a path leads to hands out a handle of it.
pub proof fn lemma_opens_found<E>(
    v: Volume,
    m: Media,
    path: Seq<char>,
    scratch_len: nat,
    found: EntryModel,
    f: FileModel,
)
    requires
        trails::leads::<E>(v, m, entry::root_model(v.geometry), paths::components(path)),
        codec::name_result::<E>(paths::components(path).last()) matches Ok(units)
            && listing::child(
            v,
            m,
            trails::last_dir::<E>(v, m, entry::root_model(v.geometry), paths::components(path)),
            units,
        ) == Some(Some(found)),
        !found.is_directory,
        stream::same_file(file::opened(found), f),
        scratch_len >= v.geometry.bytes_per_sector,
    ensures
        lookup::open_result::<E>(v, m, path, scratch_len) == Ok::<FileModel, Error<E>>(
            reopened(f),
        ),
{
    let parts = paths::components(path);
    let root = entry::root_model(v.geometry);
    trails::lemma_resolve::<E>(v, m, root, parts, scratch_len);
    assert(file::opened(found) =~= reopened(f));
}

/// Opening what a path names hands out a handle of it.
pub proof fn lemma_opens<E>(v: Volume, m: Media, path: Seq<char>, scratch_len: nat, f: FileModel)
    requires
        is_file_at::<E>(v, m, paths::components(path), f),
        scratch_len >= v.geometry.bytes_per_sector,
    ensures
        lookup::open_result::<E>(v, m, path, scratch_len) == Ok::<FileModel, Error<E>>(
            reopened(f),
        ),
{
    let parts = paths::components(path);
    let root = entry::root_model(v.geometry);
    let units = codec::name_result::<E>(parts.last())->Ok_0;
    let d = trails::last_dir::<E>(v, m, root, parts);
    let found = listing::child(v, m, d, units)->0->0;
    lemma_opens_found::<E>(v, m, path, scratch_len, found, f);
}

/// Where the entry set of a file that a path names lies.
proof fn lemma_stored<E>(v: Volume, m: Media, free: u32, parts: Seq<Seq<char>>, f: FileModel) -> (i:
    int)
    requires
        regions::sound(v, m, free),
        is_file_at::<E>(v, m, parts, f),
    ensures
        ({
            let g = v.geometry;
            let d = trails::last_dir::<E>(v, m, entry::root_model(g), parts);
            let list = listing::listing(g, m, d);
            let units = codec::name_result::<E>(parts.last())->Ok_0;
            let d1 = directories::home(g, f.stream.lba);
            let e1 = directories::home(g, f.primary.lba);
            &&& 0 <= i < list.entries.len()
            &&& stream::same_file(file::opened(list.entries[i]), f)
            &&& !list.entries[i].is_directory
            &&& forall|j: int|
                0 <= j < i ==> names::same_name(v, m, (#[trigger] list.entries[j]).name, units)
                    == Some(false)
            &&& names::same_name(v, m, list.entries[i].name, units) == Some(true)
            &&& appending::stored_in(v, m, f, d1, e1)
            &&& directories::homes(g, m, d).contains(d1)
            &&& directories::homes(g, m, d).contains(e1)
        }),
{
    let g = v.geometry;
    let d = trails::last_dir::<E>(v, m, entry::root_model(g), parts);
    let list = listing::listing(g, m, d);
    let units = codec::name_result::<E>(parts.last())->Ok_0;
    let i = adding::lemma_found_first(v, m, list, units, 0);
    lemma_entry_places(v, m, free, d, i);
    let e = list.entries[i];
    let d1 = directories::home(g, f.stream.lba);
    let e1 = directories::home(g, f.primary.lba);
    assert(f.locs == e.locs && f.stream == e.locs[1] && f.primary == e.locs[0]);
    assert(directories::homes_of(g, e.locs).contains(d1)) by {
        assert(d1 == directories::home(g, e.locs[1].lba));
    }
    assert(directories::homes_of(g, e.locs).contains(e1)) by {
        assert(e1 == directories::home(g, e.locs[0].lba));
    }
    assert(!files::owned(g, m, f).contains(d1) && !files::owned(g, m, f).contains(e1));
    assert forall|k: int| 0 <= k < f.locs.len() implies metadata::fits(
        g,
        #[trigger] f.locs[k],
    ) by {}
    assert(directories::is_housed(v, m, e.locs[1].lba));
    assert(directories::is_housed(v, m, e.locs[0].lba));
    i
}

/// The root directory is sound on the way to what a path names, and apart from
/// what the way is apart from.
pub proof fn lemma_root_on_way<E>(
    v: Volume,
    m: Media,
    parts: Seq<Seq<char>>,
    touched: Set<u32>,
)
    requires
        trails::leads::<E>(v, m, entry::root_model(v.geometry), parts),
        trails::is_clear::<E>(v, m, entry::root_model(v.geometry), parts, touched),
        ({
            let d = trails::last_dir::<E>(v, m, entry::root_model(v.geometry), parts);
            &&& directories::dir_sound(v, m, d)
            &&& touched.disjoint(directories::homes(v.geometry, m, d))
        }),
    ensures
        directories::dir_sound(v, m, entry::root_model(v.geometry)),
        touched.disjoint(
            directories::homes(v.geometry, m, entry::root_model(v.geometry)),
        ),
{
    let root = entry::root_model(v.geometry);
    let way = trails::passed::<E>(v, m, root, parts);
    if parts.len() > 1 {
        assert(way[0] == root);
    }
}

/// Recording the lengths of a file leaves the kinds of its entries alone.
pub proof fn lemma_kinds_recorded(v: Volume, m: Media, free: u32, f: FileModel)
    requires
        regions::sound(v, m, free),
        directories::are_places(v, m, f.locs),
        3 <= f.locs.len(),
        f.primary == f.locs[0],
        f.stream == f.locs[1],
        systems::are_in_use(m, f.locs),
    ensures
        systems::are_in_use(appending::recorded(v.geometry, m, f), f.locs),
{
    let g = v.geometry;
    let m2 = appending::recorded(g, m, f);
    assert forall|k: int| 0 <= k < f.locs.len() implies systems::is_passed(
        systems::kind_at(m2, #[trigger] f.locs[k]),
    ) by {
        assert(directories::is_housed(v, m, f.locs[k].lba));
        assert(directories::is_housed(v, m, f.locs[0].lba));
        assert(directories::is_housed(v, m, f.locs[1].lba));
        appending::lemma_home_length(
            v,
            m,
            free,
            f.locs[k].lba,
            directories::home(g, f.locs[k].lba),
        );
        appending::lemma_home_length(
            v,
            m,
            free,
            f.locs[0].lba,
            directories::home(g, f.locs[0].lba),
        );
        appending::lemma_home_length(
            v,
            m,
            free,
            f.locs[1].lba,
            directories::home(g, f.locs[1].lba),
        );
        systems::lemma_record_kinds(g, m, f, f.locs[k]);
    }
}

/// Whether a directory lists what it did, but for entry number `i`, which is that
/// of the file `f` and shows its lengths and clusters.
pub open spec fn is_recorded_at(a: Listing, b: Listing, f: FileModel, i: int) -> bool {
    &&& 0 <= i < a.entries.len()
    &&& a.entries[i].locs == f.locs
    &&& b.entries == a.entries.update(i, recording::updated(a.entries[i], f))
    &&& b.sound == a.sound
}

/// Whether the directory `d` lists what it did, but for the entry of the file
/// `f`, which shows its lengths and clusters, and names mean what they did.
pub open spec fn lists_recorded(
    v: Volume,
    m: Media,
    m2: Media,
    d: DirectoryModel,
    f: FileModel,
) -> bool {
    &&& directories::same_names(v, m, m2)
    &&& exists|i: int| #[trigger]
        is_recorded_at(
            listing::listing(v.geometry, m, d),
            listing::listing(v.geometry, m2, d),
            f,
            i,
        )
}

/// What a path names once lengths and clusters of the file were recorded, where
/// everything else on its way was left alone.
proof fn lemma_recorded_at<E>(
    v: Volume,
    m: Media,
    m1: Media,
    free: u32,
    free1: u32,
    parts: Seq<Seq<char>>,
    f: FileModel,
    f2: FileModel,
    touched: Set<u32>,
)
    requires
        regions::sound(v, m, free),
        is_file_at::<E>(v, m, parts, f),
        regions::evolves(v, m, m1, free1, touched),
        touched.disjoint(
            directories::homes(
                v.geometry,
                m,
                trails::last_dir::<E>(v, m, entry::root_model(v.geometry), parts),
            ),
        ),
        trails::is_clear::<E>(v, m, entry::root_model(v.geometry), parts, touched),
        forall|c: u32| #[trigger] touched.contains(c) ==> !regions::is_table(v, m, c),
        files::file_sound(v, m1, f2),
        files::owned(v.geometry, m1, f2).subset_of(touched),
        f2.locs == f.locs,
        f2.stream == f.stream,
        f2.primary == f.primary,
    ensures
        is_file_at::<E>(v, appending::recorded(v.geometry, m1, f2), parts, f2),
        systems::is_kept(v.geometry, m, appending::recorded(v.geometry, m1, f2)),
        lists_recorded(
            v,
            m,
            appending::recorded(v.geometry, m1, f2),
            trails::last_dir::<E>(v, m, entry::root_model(v.geometry), parts),
            f2,
        ),
{
    let g = v.geometry;
    let root = entry::root_model(g);
    let d = trails::last_dir::<E>(v, m, root, parts);
    let homes = directories::homes(g, m, d);
    let units = codec::name_result::<E>(parts.last())->Ok_0;
    let i = lemma_stored::<E>(v, m, free, parts, f);
    // Up to the record.
    directories::lemma_names_kept(v, m, m1, free, touched);
    trails::lemma_trail::<E>(v, m, m1, free, root, parts, touched);
    trails::lemma_dir_kept(v, m, m1, free, d, touched);
    let list = listing::listing(g, m, d);
    assert(listing::listing(g, m1, d) == list);
    let e = list.entries[i];
    // The record.
    lemma_recordable(v, m1, f2);
    recording::law_recorded_lengths_are_listed(v, m1, free1, d, i, f2);
    let m2 = appending::recorded(g, m1, f2);
    let after = listing::listing(g, m2, d);
    lemma_entry_places(v, m1, free1, d, i);
    let edited = directories::homes_of(g, f2.locs);
    assert(edited.subset_of(homes));
    assert forall|c: u32| #[trigger] edited.contains(c) implies !regions::is_table(v, m1, c) by {
        let k = choose|k: int|
            0 <= k < f2.locs.len() && c == directories::home(g, (#[trigger] f2.locs[k]).lba);
        assert(directories::is_housed(v, m1, f2.locs[k].lba));
    }
    directories::lemma_names_kept(v, m1, m2, free1, edited);
    placing::lemma_same_names_on(v, m, m1, m2);
    assert(is_recorded_at(list, after, f2, i));
    assert(systems::is_kept(g, m, m2)) by {
        lemma_root_on_way::<E>(v, m, parts, touched);
        systems::lemma_kept_beside(v, m, m1, free, touched);
        trails::lemma_dir_kept(v, m, m1, free, root, touched);
        systems::lemma_set_in_use(v, m1, free1, d, i);
        lemma_kinds_recorded(v, m1, free1, f2);
        systems::lemma_kept_edited(v, m1, m2, free1, f2.locs);
        systems::lemma_kept_on(g, m, m1, m2);
    }
    // The way to it.
    let way = trails::passed::<E>(v, m, root, parts);
    assert(trails::is_clear::<E>(v, m1, root, parts, edited)) by {
        assert forall|k: int| 0 <= k < way.len() implies directories::dir_sound(
            v,
            m1,
            #[trigger] way[k],
        ) && edited.disjoint(directories::homes(g, m1, way[k])) by {
            trails::lemma_dir_kept(v, m, m1, free, way[k], touched);
            assert(files::owned(g, m, f).union(homes).disjoint(directories::homes(g, m, way[k])));
        }
    }
    trails::lemma_trail::<E>(v, m1, m2, free1, root, parts, edited);
    // The file itself.
    assert(edited.disjoint(files::owned(g, m1, f2)));
    files::law_untouched_file_keeps_its_bytes(v, m1, m2, f2, edited);
    adding::lemma_slots_edited(v, m1, m2, free1, d, f2.locs);
    assert(directories::homes(g, m2, d) =~= homes);
    assert(trails::is_clear::<E>(
        v,
        m2,
        root,
        parts,
        files::owned(g, m2, f2).union(directories::homes(g, m2, d)),
    )) by {
        assert forall|k: int| 0 <= k < way.len() implies directories::dir_sound(
            v,
            m2,
            #[trigger] way[k],
        ) && files::owned(g, m2, f2).union(homes).disjoint(directories::homes(g, m2, way[k])) by {
            trails::lemma_dir_kept(v, m, m1, free, way[k], touched);
            trails::lemma_dir_kept(v, m1, m2, free1, way[k], edited);
            assert(files::owned(g, m, f).union(homes).disjoint(directories::homes(g, m, way[k])));
            assert(touched.disjoint(directories::homes(g, m, way[k])));
        }
    }
    // What it is called.
    let new = recording::updated(e, f2);
    assert forall|j: int| 0 <= j < i implies names::same_name(
        v,
        m1,
        (#[trigger] list.entries[j]).name,
        units,
    ) == Some(false) by {
        directories::lemma_matches_kept(v, m, m1, list.entries[j].name, units);
    }
    directories::lemma_matches_kept(v, m, m1, e.name, units);
    recording::lemma_found_changed(v, m1, m2, list, after, i, new, units);
    assert(listing::child(v, m2, d, units) == Some(Some(new)));
    assert(file::opened(new) =~= reopened(f2));
}

/// The directory of a file once lengths and clusters of the file were recorded.
proof fn lemma_recorded_dir<E>(
    v: Volume,
    m: Media,
    m1: Media,
    free: u32,
    free1: u32,
    parts: Seq<Seq<char>>,
    d: DirectoryModel,
    n: int,
    f: FileModel,
    f2: FileModel,
    touched: Set<u32>,
)
    requires
        regions::sound(v, m, free),
        is_file_at::<E>(v, m, parts, f),
        placing::is_dir_at::<E>(v, m, parts.drop_last(), d, n),
        regions::evolves(v, m, m1, free1, touched),
        touched.disjoint(directories::homes(v.geometry, m, d)),
        trails::is_clear::<E>(v, m, entry::root_model(v.geometry), parts, touched),
        forall|c: u32| #[trigger] touched.contains(c) ==> !regions::is_table(v, m, c),
        files::file_sound(v, m1, f2),
        f2.locs == f.locs,
        f2.stream == f.stream,
        f2.primary == f.primary,
    ensures
        placing::is_dir_at::<E>(
            v,
            appending::recorded(v.geometry, m1, f2),
            parts.drop_last(),
            d,
            n,
        ),
{
    let g = v.geometry;
    let above = parts.drop_last();
    assert(above.push(parts.last()) =~= parts);
    creating::lemma_dir_leads::<E>(v, m, above, parts.last(), d, n);
    let i = lemma_stored::<E>(v, m, free, parts, f);
    placing::lemma_clear_before::<E>(v, m, above, parts.last(), d, n, touched);
    placing::lemma_reaches_kept::<E>(v, m, m1, free, above, d, n, touched);
    trails::lemma_dir_kept(v, m, m1, free, d, touched);
    lemma_recordable(v, m1, f2);
    recording::law_recorded_lengths_are_listed(v, m1, free1, d, i, f2);
    lemma_entry_places(v, m1, free1, d, i);
    let m2 = appending::recorded(g, m1, f2);
    creating::lemma_reaches_edited::<E>(v, m1, m2, free1, above, d, n, f2.locs);
}

/// What a sound file is can be recorded.
pub proof fn lemma_recordable(v: Volume, m: Media, f: FileModel)
    requires
        regions::apart(v.geometry),
        files::file_sound(v, m, f),
    ensures
        recording::is_recordable(f),
{
    files::lemma_first_in_heap(v, m, f);
    release::lemma_clusters(v.geometry, f.data_length as int);
}

/// The clusters that a file owns are apart from those of directories, and those
/// that it has taken anew were free.
pub proof fn lemma_grown_apart(
    v: Volume,
    m: Media,
    all: Set<u32>,
    old: Set<u32>,
    d: DirectoryModel,
)
    requires
        directories::dir_sound(v, m, d),
        old.disjoint(directories::homes(v.geometry, m, d)),
        forall|c: u32| #[trigger]
            all.contains(c) ==> old.contains(c) || allocation::is_used(v, m, c as int) == Some(
                false,
            ),
    ensures
        all.disjoint(directories::homes(v.geometry, m, d)),
{
    let g = v.geometry;
    assert forall|c: u32| directories::homes(g, m, d).contains(c) implies !all.contains(c) by {
        let spans = directories::spans_of(g, m, d);
        let j = choose|j: int|
            0 <= j < spans.len() && c == directories::home(g, (#[trigger] spans[j]).lba);
        assert(directories::is_housed(v, m, spans[j].lba));
    }
}

/// The clusters of a file, and those of its entry set, are none of the UpCase
/// table.
proof fn lemma_stored_apart(v: Volume, m: Media, m2: Media, f: FileModel, d: u32, e: u32)
    requires
        regions::same_system(v, m, m2),
        files::file_sound(v, m2, f),
        appending::stored_in(v, m2, f, d, e),
    ensures
        forall|c: u32| #[trigger]
            files::owned(v.geometry, m2, f).union(set![d, e]).contains(c) ==> !regions::is_table(
                v,
                m,
                c,
            ),
{
    let g = v.geometry;
    assert forall|c: u32| #[trigger]
        files::owned(g, m2, f).union(set![d, e]).contains(c) implies !regions::is_table(
        v,
        m,
        c,
    ) by {
        if files::owned(g, m2, f).contains(c) {
            let k = choose|k: int|
                0 <= k < files::count_of(g, f) && #[trigger] files::cluster_at(g, m2, f, k)
                    == Some(c);
            assert(regions::is_plain(v, m2, c));
        }
        assert(regions::is_table(v, m2, c) == regions::is_table(v, m, c));
    }
}

/// What was appended to a file is found when the file that the path names is
/// opened again, on this filesystem or after mounting the volume anew, which
/// finds the same volume: a handle at the beginning of the file, whose bytes are
/// the old ones and then those that were appended. Its directory lists what else
/// it did, and takes further entries if it did. Nothing else changes but the
/// file's clusters, those that it took being free before, and those that hold
/// its entry set.
pub proof fn law_appended_file_reopens<E>(
    v: Volume,
    m: Media,
    free: u32,
    path: Seq<char>,
    scratch_len: nat,
    f: FileModel,
    data: Seq<u8>,
)
    requires
        regions::sound(v, m, free),
        is_file_at::<E>(v, m, paths::components(path), f),
        scratch_len >= v.geometry.bytes_per_sector,
        0 < data.len() <= usize::MAX,
        f.valid_length + data.len() <= u64::MAX,
        growing::lacking(v.geometry, f, f.valid_length + data.len()) <= free,
    ensures
        ({
            let g = v.geometry;
            let parts = paths::components(path);
            let d = trails::last_dir::<E>(v, m, entry::root_model(g), parts);
            let plan = growth::append_plan::<E>(v, m, free, f, data);
            let m2 = plan.leaves(m);
            let f2 = growth::append_file::<E>(v, m, free, f, data);
            let again = reopened(f2);
            &&& plan.result == Ok::<usize, Error<E>>(data.len() as usize)
            &&& regions::evolves(
                v,
                m,
                m2,
                plan.free,
                files::owned(g, m2, f2).union(
                    set![
                        directories::home(g, f.stream.lba),
                        directories::home(g, f.primary.lba),
                    ],
                ),
            )
            &&& forall|c: u32| #[trigger]
                files::owned(g, m2, f2).contains(c) ==> files::owned(g, m, f).contains(c)
                    || allocation::is_used(v, m, c as int) == Some(false)
            &&& remounting::mounts_again::<E>(v, m, m2, free, plan.free)
            &&& is_file_at::<E>(v, m2, parts, f2)
            &&& lists_recorded(v, m, m2, d, f2)
            &&& forall|n: int| #[trigger]
                placing::is_dir_at::<E>(v, m, parts.drop_last(), d, n) ==> placing::is_dir_at::<E>(
                    v,
                    m2,
                    parts.drop_last(),
                    d,
                    n,
                )
            &&& lookup::open_result::<E>(v, m2, path, scratch_len) == Ok::<FileModel, Error<E>>(
                again,
            )
            &&& again.valid_length == f.valid_length + data.len()
            &&& forall|offset: int|
                0 <= offset < again.valid_length ==> #[trigger] stream::file_place(
                    g,
                    m2,
                    again,
                    offset,
                ) is Some && stream::file_byte(g, m2, again, offset) == if offset
                    < f.valid_length {
                    stream::file_byte(g, m, f, offset)
                } else {
                    data[offset - f.valid_length]
                }
        }),
{
    let g = v.geometry;
    let parts = paths::components(path);
    let root = entry::root_model(g);
    let d = trails::last_dir::<E>(v, m, root, parts);
    let plan = growth::append_plan::<E>(v, m, free, f, data);
    let m2 = plan.leaves(m);
    let f2 = growth::append_file::<E>(v, m, free, f, data);
    let i = lemma_stored::<E>(v, m, free, parts, f);
    let d1 = directories::home(g, f.stream.lba);
    let e1 = directories::home(g, f.primary.lba);
    appending::law_appended_bytes_read_back::<E>(v, m, free, f, data, d1, e1);
    let m1 = appending::lemma_before_record::<E>(v, m, free, f, data, d1, e1);
    let old = files::owned(g, m, f);
    let all = files::owned(g, m1, f2);
    lemma_grown_apart(v, m, all, old, d);
    let way = trails::passed::<E>(v, m, root, parts);
    assert(trails::is_clear::<E>(v, m, root, parts, all)) by {
        assert forall|k: int| 0 <= k < way.len() implies directories::dir_sound(
            v,
            m,
            #[trigger] way[k],
        ) && all.disjoint(directories::homes(g, m, way[k])) by {
            assert(old.union(directories::homes(g, m, d)).disjoint(
                directories::homes(g, m, way[k]),
            ));
            lemma_grown_apart(v, m, all, old, way[k]);
        }
    }
    assert forall|c: u32| #[trigger] all.contains(c) implies !regions::is_table(v, m, c) by {
        let k = choose|k: int|
            0 <= k < files::count_of(g, f2) && #[trigger] files::cluster_at(g, m1, f2, k) == Some(
                c,
            );
        assert(regions::is_plain(v, m1, c));
    }
    lemma_recorded_at::<E>(v, m, m1, free, plan.free, parts, f, f2, all);
    assert(remounting::mounts_again::<E>(v, m, m2, free, plan.free)) by {
        lemma_stored_apart(v, m, m2, f2, d1, e1);
        remounting::lemma_mounts_again::<E>(
            v,
            m,
            m2,
            free,
            plan.free,
            files::owned(g, m2, f2).union(set![d1, e1]),
        );
    }
    assert forall|n: int| #[trigger]
        placing::is_dir_at::<E>(v, m, parts.drop_last(), d, n) implies placing::is_dir_at::<E>(
        v,
        m2,
        parts.drop_last(),
        d,
        n,
    ) by {
        lemma_recorded_dir::<E>(v, m, m1, free, plan.free, parts, d, n, f, f2, all);
    }
    lemma_opens::<E>(v, m2, path, scratch_len, f2);
    let again = reopened(f2);
    files::lemma_same_file(v, m2, f2, again);
    assert forall|offset: int| 0 <= offset < again.valid_length implies
        #[trigger] stream::file_place(g, m2, again, offset) is Some && stream::file_byte(
        g,
        m2,
        again,
        offset,
    ) == if offset < f.valid_length {
        stream::file_byte(g, m, f, offset)
    } else {
        data[offset - f.valid_length]
    } by {
        files::lemma_placed(v, m2, again, offset);
        files::lemma_content(v, m2, again, offset);
        files::lemma_content(v, m, f, offset);
        assert(files::content(g, m2, again, offset) == files::content(g, m2, f2, offset));
    }
}

/// A file whose clusters were written to, but not moved, is still at its path.
proof fn lemma_written_at<E>(
    v: Volume,
    m: Media,
    m2: Media,
    free: u32,
    parts: Seq<Seq<char>>,
    f: FileModel,
)
    requires
        regions::sound(v, m, free),
        is_file_at::<E>(v, m, parts, f),
        regions::evolves(v, m, m2, free, files::owned(v.geometry, m, f)),
        files::file_sound(v, m2, f),
        forall|k: int|
            0 <= k < files::count_of(v.geometry, f) ==> #[trigger] files::cluster_at(
                v.geometry,
                m2,
                f,
                k,
            ) == files::cluster_at(v.geometry, m, f, k),
    ensures
        is_file_at::<E>(v, m2, parts, f),
        remounting::mounts_again::<E>(v, m, m2, free, free),
{
    let g = v.geometry;
    let root = entry::root_model(g);
    let d = trails::last_dir::<E>(v, m, root, parts);
    let way = trails::passed::<E>(v, m, root, parts);
    let old = files::owned(g, m, f);
    let homes = directories::homes(g, m, d);
    assert(files::owned(g, m2, f) =~= old) by {
        assert forall|c: u32| files::owned(g, m2, f).contains(c) == old.contains(c) by {
            if old.contains(c) {
                let k = choose|k: int|
                    0 <= k < files::count_of(g, f) && #[trigger] files::cluster_at(g, m, f, k)
                        == Some(c);
                assert(files::cluster_at(g, m2, f, k) == Some(c));
            }
            if files::owned(g, m2, f).contains(c) {
                let k = choose|k: int|
                    0 <= k < files::count_of(g, f) && #[trigger] files::cluster_at(g, m2, f, k)
                        == Some(c);
                assert(files::cluster_at(g, m, f, k) == Some(c));
            }
        }
    }
    assert forall|c: u32| #[trigger] old.contains(c) implies !regions::is_table(v, m, c) by {
        let k = choose|k: int|
            0 <= k < files::count_of(g, f) && #[trigger] files::cluster_at(g, m, f, k) == Some(c);
        assert(regions::is_plain(v, m, c));
    }
    assert(trails::is_clear::<E>(v, m, root, parts, old)) by {
        assert forall|k: int| 0 <= k < way.len() implies directories::dir_sound(
            v,
            m,
            #[trigger] way[k],
        ) && old.disjoint(directories::homes(g, m, way[k])) by {
            assert(old.union(homes).disjoint(directories::homes(g, m, way[k])));
        }
    }
    directories::lemma_names_kept(v, m, m2, free, old);
    trails::lemma_trail::<E>(v, m, m2, free, root, parts, old);
    trails::lemma_dir_kept(v, m, m2, free, d, old);
    assert(trails::is_clear::<E>(v, m2, root, parts, old.union(homes))) by {
        assert forall|k: int| 0 <= k < way.len() implies directories::dir_sound(
            v,
            m2,
            #[trigger] way[k],
        ) && old.union(homes).disjoint(directories::homes(g, m2, way[k])) by {
            assert(old.union(homes).disjoint(directories::homes(g, m, way[k])));
            trails::lemma_dir_kept(v, m, m2, free, way[k], old);
        }
    }
    let units = codec::name_result::<E>(parts.last())->Ok_0;
    trails::lemma_find_kept(v, m, m2, listing::listing(g, m, d), units, 0);
    lemma_root_on_way::<E>(v, m, parts, old);
    systems::lemma_kept_beside(v, m, m2, free, old);
    remounting::lemma_mounts_again::<E>(v, m, m2, free, free, old);
}

/// What was written within the visible length of a file is found when the file
/// that the path names is opened again, on this filesystem or after mounting the
/// volume anew; its other bytes and its length are what they were.
pub proof fn law_written_file_reopens<E>(
    v: Volume,
    m: Media,
    free: u32,
    path: Seq<char>,
    scratch_len: nat,
    f: FileModel,
    data: Seq<u8>,
)
    requires
        regions::sound(v, m, free),
        is_file_at::<E>(v, m, paths::components(path), f),
        f.cache_behind(v.geometry),
        scratch_len >= v.geometry.bytes_per_sector,
        data.len() <= usize::MAX,
    ensures
        ({
            let g = v.geometry;
            let parts = paths::components(path);
            let plan = stream::write_within_plan::<E>(v, m, free, f, data);
            let m2 = plan.leaves(m);
            let count = stream::transfer(f, data.len());
            let again = reopened(f);
            &&& plan.result == Ok::<usize, Error<E>>(count as usize)
            &&& plan.free == free
            &&& regions::sound(v, m2, free)
            &&& remounting::mounts_again::<E>(v, m, m2, free, free)
            &&& is_file_at::<E>(v, m2, parts, f)
            &&& lookup::open_result::<E>(v, m2, path, scratch_len) == Ok::<FileModel, Error<E>>(
                again,
            )
            &&& forall|offset: int|
                0 <= offset < f.valid_length ==> #[trigger] stream::file_place(
                    g,
                    m2,
                    again,
                    offset,
                ) is Some && stream::file_byte(g, m2, again, offset) == if f.position <= offset
                    < f.position + count {
                    data[offset - f.position]
                } else {
                    stream::file_byte(g, m, again, offset)
                }
        }),
{
    let g = v.geometry;
    let parts = paths::components(path);
    let plan = stream::write_within_plan::<E>(v, m, free, f, data);
    let m2 = plan.leaves(m);
    let again = reopened(f);
    if f.valid_length > 0 {
        files::law_written_bytes_read_back::<E>(v, m, free, f, data, f, 0);
        assert forall|offset: int| 0 <= offset < f.valid_length implies #[trigger]
            stream::file_place(g, m2, again, offset) is Some && stream::file_byte(
            g,
            m2,
            again,
            offset,
        ) == if f.position <= offset < f.position + stream::transfer(f, data.len()) {
            data[offset - f.position]
        } else {
            stream::file_byte(g, m, again, offset)
        } by {
            files::law_written_bytes_read_back::<E>(v, m, free, f, data, again, offset);
        }
    } else {
        assert(m2 == m);
        files::lemma_unchanged(v, m, free, files::owned(g, m, f));
    }
    lemma_written_at::<E>(v, m, m2, free, parts, f);
    lemma_opens::<E>(v, m2, path, scratch_len, f);
}

/// What was cut off a file is gone when the file that the path names is opened
/// again, on this filesystem or after mounting the volume anew, and the bytes
/// before it are still there. Its directory lists what else it did, and takes
/// further entries if it did. Nothing else changes but the file's clusters and
/// those that hold its entry set.
pub proof fn law_truncated_file_reopens<E>(
    v: Volume,
    m: Media,
    free: u32,
    path: Seq<char>,
    scratch_len: nat,
    f: FileModel,
    len: u64,
)
    requires
        regions::sound(v, m, free),
        is_file_at::<E>(v, m, paths::components(path), f),
        scratch_len >= v.geometry.bytes_per_sector,
        len <= f.valid_length,
    ensures
        ({
            let g = v.geometry;
            let parts = paths::components(path);
            let d = trails::last_dir::<E>(v, m, entry::root_model(g), parts);
            let plan = release::truncate_plan::<E>(v, m, free, f, len);
            let m2 = plan.leaves(m);
            let f2 = release::truncated(g, f, len);
            let again = reopened(f2);
            &&& plan.result == Ok::<(), Error<E>>(())
            &&& plan.free == free + files::count_of(g, f) - release::clusters_for(g, len as int)
            &&& regions::evolves(
                v,
                m,
                m2,
                plan.free,
                files::owned(g, m, f).union(
                    set![
                        directories::home(g, f.stream.lba),
                        directories::home(g, f.primary.lba),
                    ],
                ),
            )
            &&& remounting::mounts_again::<E>(v, m, m2, free, plan.free)
            &&& forall|k: int|
                0 <= k < files::count_of(g, f) ==> allocation::is_used(
                    v,
                    m2,
                    (#[trigger] files::cluster_at(g, m, f, k))->0 as int,
                ) == Some(k < release::clusters_for(g, len as int))
            &&& is_file_at::<E>(v, m2, parts, f2)
            &&& lists_recorded(v, m, m2, d, f2)
            &&& forall|n: int| #[trigger]
                placing::is_dir_at::<E>(v, m, parts.drop_last(), d, n) ==> placing::is_dir_at::<E>(
                    v,
                    m2,
                    parts.drop_last(),
                    d,
                    n,
                )
            &&& lookup::open_result::<E>(v, m2, path, scratch_len) == Ok::<FileModel, Error<E>>(
                again,
            )
            &&& again.valid_length == len
            &&& forall|offset: int|
                0 <= offset < len ==> #[trigger] stream::file_place(g, m2, again, offset) is Some
                    && stream::file_byte(g, m2, again, offset) == stream::file_byte(
                    g,
                    m,
                    f,
                    offset,
                )
        }),
{
    let g = v.geometry;
    let parts = paths::components(path);
    let root = entry::root_model(g);
    let d = trails::last_dir::<E>(v, m, root, parts);
    let plan = release::truncate_plan::<E>(v, m, free, f, len);
    let m2 = plan.leaves(m);
    let f2 = release::truncated(g, f, len);
    let i = lemma_stored::<E>(v, m, free, parts, f);
    let d1 = directories::home(g, f.stream.lba);
    let e1 = directories::home(g, f.primary.lba);
    shortening::law_truncated_file_keeps_its_start::<E>(v, m, free, f, len, d1, e1);
    let m1 = shortening::lemma_before_record::<E>(v, m, free, f, len, d1, e1);
    let old = files::owned(g, m, f);
    let way = trails::passed::<E>(v, m, root, parts);
    assert(trails::is_clear::<E>(v, m, root, parts, old)) by {
        assert forall|k: int| 0 <= k < way.len() implies directories::dir_sound(
            v,
            m,
            #[trigger] way[k],
        ) && old.disjoint(directories::homes(g, m, way[k])) by {
            assert(old.union(directories::homes(g, m, d)).disjoint(
                directories::homes(g, m, way[k]),
            ));
        }
    }
    assert forall|c: u32| #[trigger] old.contains(c) implies !regions::is_table(v, m, c) by {
        let k = choose|k: int|
            0 <= k < files::count_of(g, f) && #[trigger] files::cluster_at(g, m, f, k) == Some(c);
        assert(regions::is_plain(v, m, c));
    }
    lemma_recorded_at::<E>(v, m, m1, free, plan.free, parts, f, f2, old);
    assert(remounting::mounts_again::<E>(v, m, m2, free, plan.free)) by {
        lemma_stored_apart(v, m, m, f, d1, e1);
        remounting::lemma_mounts_again::<E>(
            v,
            m,
            m2,
            free,
            plan.free,
            old.union(set![d1, e1]),
        );
    }
    assert forall|n: int| #[trigger]
        placing::is_dir_at::<E>(v, m, parts.drop_last(), d, n) implies placing::is_dir_at::<E>(
        v,
        m2,
        parts.drop_last(),
        d,
        n,
    ) by {
        lemma_recorded_dir::<E>(v, m, m1, free, plan.free, parts, d, n, f, f2, old);
    }
    lemma_opens::<E>(v, m2, path, scratch_len, f2);
    let again = reopened(f2);
    files::lemma_same_file(v, m2, f2, again);
    assert forall|offset: int| 0 <= offset < len implies #[trigger] stream::file_place(
        g,
        m2,
        again,
        offset,
    ) is Some && stream::file_byte(g, m2, again, offset) == stream::file_byte(g, m, f, offset) by {
        files::lemma_placed(v, m2, again, offset);
        files::lemma_content(v, m2, again, offset);
        files::lemma_content(v, m, f, offset);
        assert(files::content(g, m2, again, offset) == files::content(g, m2, f2, offset));
    }
}

} // verus!
