//! The system entries of the root directory, which no operation touches.

use crate::device::Media;
use crate::directory::entry;
use crate::directory::entry::DirectoryModel;
use crate::directory::slots;
use crate::directory::slots::{EntryLocator, Slot};
use crate::fs::file::FileModel;
use crate::fs::listing;
use crate::fs::metadata;
use crate::fs::walk;
use crate::fs::walk::Layout;
use crate::geometry::{Geometry, CHAIN_END};
use crate::laws::adding;
use crate::laws::appending;
use crate::laws::directories;
use crate::laws::extents;
use crate::laws::regions;
use crate::laws::reopening;
use crate::laws::sets;
use crate::laws::trails;
use crate::mount::system;
use crate::mount::system::SystemModel;
use crate::mount::Volume;
use vstd::prelude::*;

verus! {

/// Whether a search for system entries passes over entries of a kind.
pub open spec fn is_passed(kind: u8) -> bool {
    kind != 0 && kind != 0x81 && kind != 0x82 && kind != 0x83
}

/// Whether a search for system entries finds nothing in a slot.
pub open spec fn is_quiet(slot: Slot) -> bool {
    slot.raw[0] == 0 || is_passed(slot.raw[0])
}

/// Whether there are no system entries behind the end mark.
pub open spec fn is_ended(a: Seq<Slot>) -> bool {
    forall|i: int, j: int|
        0 <= i < j < a.len() && (#[trigger] a[i]).raw[0] == 0 ==> is_quiet(#[trigger] a[j])
}

/// Whether a search for system entries goes through `b` as through `a`: slots
/// hold the same, or entries that it passes over. Those that were never used
/// may have been put to use, and there may be more of them.
pub open spec fn is_alike(a: Seq<Slot>, b: Seq<Slot>) -> bool {
    &&& a.len() <= b.len()
    &&& forall|k: int|
        0 <= k < a.len() ==> (#[trigger] b[k]).raw == a[k].raw || is_quiet(a[k]) && is_passed(
            b[k].raw[0],
        )
    &&& forall|k: int| a.len() <= k < b.len() ==> is_quiet(#[trigger] b[k])
}

/// A search finds nothing where there is nothing to find.
proof fn lemma_nothing_seen(a: Seq<Slot>, found: SystemModel)
    requires
        forall|k: int| 0 <= k < a.len() ==> is_quiet(#[trigger] a[k]),
    ensures
        system::system_entries(a, found) == found,
    decreases a.len(),
{
    if a.len() > 0 && a[0].raw[0] != 0 {
        assert(is_quiet(a[0]));
        assert(found.seen(a[0].raw) == found);
        lemma_nothing_seen(a.drop_first(), found);
    }
}

/// A search finds the same system entries where it goes the same way.
proof fn lemma_search_same(a: Seq<Slot>, b: Seq<Slot>, found: SystemModel)
    requires
        is_alike(a, b),
        is_ended(a),
    ensures
        system::system_entries(b, found) == system::system_entries(a, found),
    decreases a.len(),
{
    if a.len() == 0 || a[0].raw[0] == 0 {
        assert forall|k: int| 0 <= k < b.len() implies is_quiet(#[trigger] b[k]) by {
            if 0 < k < a.len() {
                assert(is_quiet(a[k]));
            }
        }
        lemma_nothing_seen(b, found);
    } else {
        assert(b[0].raw == a[0].raw || is_passed(a[0].raw[0]) && is_passed(b[0].raw[0]));
        let x = a.drop_first();
        let y = b.drop_first();
        assert forall|k: int| 0 <= k < x.len() implies (#[trigger] y[k]).raw == x[k].raw
            || is_quiet(x[k]) && is_passed(y[k].raw[0]) by {
            assert(y[k] == b[k + 1] && x[k] == a[k + 1]);
        }
        assert forall|i: int, j: int|
            0 <= i < j < x.len() && (#[trigger] x[i]).raw[0] == 0 implies is_quiet(
            #[trigger] x[j],
        ) by {
            assert(x[i] == a[i + 1] && x[j] == a[j + 1]);
        }
        lemma_search_same(x, y, found.seen(a[0].raw));
    }
}

/// A search finds the same system entries where slots hold the same, or entries
/// in use that it passes over.
proof fn lemma_search_edited(a: Seq<Slot>, b: Seq<Slot>, found: SystemModel)
    requires
        b.len() == a.len(),
        forall|k: int|
            0 <= k < a.len() ==> (#[trigger] b[k]).raw == a[k].raw || is_passed(a[k].raw[0])
                && is_passed(b[k].raw[0]),
    ensures
        system::system_entries(b, found) == system::system_entries(a, found),
    decreases a.len(),
{
    if a.len() > 0 {
        assert(b[0].raw == a[0].raw || is_passed(a[0].raw[0]) && is_passed(b[0].raw[0]));
        if a[0].raw[0] != 0 {
            let x = a.drop_first();
            let y = b.drop_first();
            assert forall|k: int| 0 <= k < x.len() implies (#[trigger] y[k]).raw == x[k].raw
                || is_passed(x[k].raw[0]) && is_passed(y[k].raw[0]) by {
                assert(y[k] == b[k + 1] && x[k] == a[k + 1]);
            }
            lemma_search_edited(x, y, found.seen(a[0].raw));
        }
    }
}

/// What a search for system entries has seen behind the label entry number `k`,
/// or where there is none.
proof fn lemma_label_seen(a: Seq<Slot>, found: SystemModel, k: int)
    requires
        0 <= k <= a.len(),
        forall|j: int| 0 <= j < k ==> (#[trigger] a[j]).raw[0] != 0,
        k < a.len() ==> a[k].raw[0] == 0x83 || a[k].raw[0] == 0,
        forall|j: int| k < j < a.len() ==> (#[trigger] a[j]).raw[0] != 0x83,
        k == a.len() || a[k].raw[0] == 0 ==> forall|j: int|
            0 <= j < k ==> (#[trigger] a[j]).raw[0] != 0x83,
    ensures
        system::system_entries(a, found).label == if k < a.len() && a[k].raw[0] == 0x83 {
            system::label_of(a[k].raw)
        } else {
            found.label
        },
    decreases a.len(),
{
    if a.len() > 0 && a[0].raw[0] != 0 {
        let x = a.drop_first();
        let next = found.seen(a[0].raw);
        if k == 0 {
            lemma_no_label(x, next);
        } else {
            assert forall|j: int| 0 <= j < k - 1 implies (#[trigger] x[j]).raw[0] != 0 by {
                assert(x[j] == a[j + 1]);
            }
            assert forall|j: int| k - 1 < j < x.len() implies (#[trigger] x[j]).raw[0] != 0x83 by {
                assert(x[j] == a[j + 1]);
            }
            if k == a.len() || a[k].raw[0] == 0 {
                assert forall|j: int| 0 <= j < k - 1 implies (#[trigger] x[j]).raw[0] != 0x83 by {
                    assert(x[j] == a[j + 1]);
                }
                assert(a[0].raw[0] != 0x83);
            }
            lemma_label_seen(x, next, k - 1);
        }
    }
}

/// Without a label entry, the label stays.
proof fn lemma_no_label(a: Seq<Slot>, found: SystemModel)
    requires
        forall|j: int| 0 <= j < a.len() ==> (#[trigger] a[j]).raw[0] != 0x83,
    ensures
        system::system_entries(a, found).label == found.label,
    decreases a.len(),
{
    if a.len() > 0 && a[0].raw[0] != 0 {
        assert(a[0].raw[0] != 0x83);
        lemma_no_label(a.drop_first(), found.seen(a[0].raw));
    }
}

/// The label of a volume is that of the label entry of the root directory,
/// wherever before the end mark it is, and empty where there is none: `k` is the
/// number of that entry, or of the end mark.
pub proof fn law_label_is_found(g: Geometry, m: Media, k: int)
    requires
        regions::apart(g),
        ({
            let a = directories::slots_of(g, m, entry::root_model(g));
            &&& 0 <= k <= a.len()
            &&& forall|j: int| 0 <= j < k ==> (#[trigger] a[j]).raw[0] != 0
            &&& k < a.len() ==> a[k].raw[0] == 0x83 || a[k].raw[0] == 0
            &&& forall|j: int| 0 <= j < a.len() && j != k ==> (#[trigger] a[j]).raw[0] != 0x83
        }),
    ensures
        system::root_system(g, m) matches Some((_, _, label)) ==> label == {
            let a = directories::slots_of(g, m, entry::root_model(g));
            if k < a.len() && a[k].raw[0] == 0x83 {
                system::label_of(a[k].raw)
            } else {
                Seq::empty()
            }
        },
{
    let a = directories::slots_of(g, m, entry::root_model(g));
    lemma_root_slots(g, m);
    lemma_label_seen(a, SystemModel::none(), k);
}

/// Whether the system entries are found as they were.
#[verifier::opaque]
pub open spec fn is_kept(g: Geometry, m: Media, m2: Media) -> bool {
    system::root_system(g, m2) == system::root_system(g, m)
}

/// No change keeps the system entries.
pub proof fn lemma_kept_still(g: Geometry, m: Media)
    ensures
        is_kept(g, m, m),
{
    reveal(is_kept);
}

/// Two changes that keep the system entries.
pub proof fn lemma_kept_on(g: Geometry, m1: Media, m2: Media, m3: Media)
    requires
        is_kept(g, m1, m2),
        is_kept(g, m2, m3),
    ensures
        is_kept(g, m1, m3),
{
    reveal(is_kept);
}

/// A walk through the root directory visits the sectors that a search for
/// system entries does.
proof fn lemma_root_walk(
    g: Geometry,
    m: Media,
    p: Layout,
    c: u32,
    remaining: nat,
    budget: nat,
)
    requires
        regions::apart(g),
        p.whole,
        !p.contiguous,
    ensures
        walk::walk_into(g, m, p, c, remaining, budget).spans == slots::root_spans(g, m, c, budget),
    decreases budget,
{
    if budget > 0 && g.in_heap(c) {
        let less = (budget - 1) as nat;
        regions::lemma_geometry(g);
        extents::lemma_cluster_walk(g, m, p, c, 0, remaining, less);
        let spans = slots::cluster_spans(g, c);
        assert(spans.skip(0) =~= spans);
        assert(g.fat_holds(c));
        let next = slots::fat_entry(g, m, c);
        if next < CHAIN_END {
            lemma_root_walk(g, m, p, next, remaining, less);
        }
        assert(walk::walk_into(g, m, p, c, remaining, budget).spans =~= slots::root_spans(
            g,
            m,
            c,
            budget,
        ));
    }
}

/// The system entries are searched for among the slots of the root directory.
pub proof fn lemma_root_slots(g: Geometry, m: Media)
    requires
        regions::apart(g),
    ensures
        system::root_system(g, m) == system::system_entries(
            directories::slots_of(g, m, entry::root_model(g)),
            SystemModel::none(),
        ).complete(),
{
    let root = entry::root_model(g);
    lemma_root_walk(
        g,
        m,
        walk::layout_of(root),
        g.root_cluster,
        0,
        g.cluster_count as nat,
    );
}

/// The system entries are kept where a search goes the same way.
pub proof fn lemma_kept_alike(g: Geometry, m: Media, m2: Media)
    requires
        regions::apart(g),
        is_alike(
            directories::slots_of(g, m, entry::root_model(g)),
            directories::slots_of(g, m2, entry::root_model(g)),
        ),
        is_ended(directories::slots_of(g, m, entry::root_model(g))),
    ensures
        is_kept(g, m, m2),
{
    reveal(is_kept);
    let root = entry::root_model(g);
    lemma_root_slots(g, m);
    lemma_root_slots(g, m2);
    lemma_search_same(
        directories::slots_of(g, m, root),
        directories::slots_of(g, m2, root),
        SystemModel::none(),
    );
}

/// The system entries are kept where the root directory is left alone.
pub proof fn lemma_kept_beside(v: Volume, m: Media, m2: Media, free: u32, touched: Set<u32>)
    requires
        regions::sound(v, m, free),
        directories::dir_housed(v, m, entry::root_model(v.geometry)),
        regions::changes_only(v, m, m2, touched),
        regions::same_system(v, m, m2),
        touched.disjoint(directories::homes(v.geometry, m, entry::root_model(v.geometry))),
    ensures
        is_kept(v.geometry, m, m2),
{
    reveal(is_kept);
    trails::lemma_dir_kept(v, m, m2, free, entry::root_model(v.geometry), touched);
    lemma_root_slots(v.geometry, m);
    lemma_root_slots(v.geometry, m2);
}

/// The kind of the entry at `at`.
pub open spec fn kind_at(media: Media, at: EntryLocator) -> u8 {
    metadata::entry_at(media, at)[0]
}

/// Whether entries are none that a search for system entries looks at, whether
/// or not they are in use.
pub open spec fn are_passed(media: Media, locs: Seq<EntryLocator>) -> bool {
    forall|i: int|
        0 <= i < locs.len() ==> kind_at(media, #[trigger] locs[i]) == 0 || is_passed(
            kind_at(media, locs[i]),
        )
}

/// Whether entries are in use, and none that a search for system entries looks
/// at.
pub open spec fn are_in_use(media: Media, locs: Seq<EntryLocator>) -> bool {
    forall|i: int| 0 <= i < locs.len() ==> is_passed(kind_at(media, #[trigger] locs[i]))
}

/// The system entries are kept where other entries, which were in use and are
/// so still, are edited.
pub proof fn lemma_kept_edited(
    v: Volume,
    m: Media,
    m2: Media,
    free: u32,
    locs: Seq<EntryLocator>,
)
    requires
        regions::apart(v.geometry),
        directories::dir_housed(v, m, entry::root_model(v.geometry)),
        directories::edits(v, m, m2, free, locs),
        are_in_use(m, locs),
        are_in_use(m2, locs),
    ensures
        is_kept(v.geometry, m, m2),
{
    reveal(is_kept);
    let g = v.geometry;
    let root = entry::root_model(g);
    let a = directories::slots_of(g, m, root);
    let b = directories::slots_of(g, m2, root);
    adding::lemma_slots_edited(v, m, m2, free, root, locs);
    assert forall|k: int| 0 <= k < a.len() implies (#[trigger] b[k]).raw == a[k].raw || is_passed(
        a[k].raw[0],
    ) && is_passed(b[k].raw[0]) by {
        adding::lemma_slot(v, m, root, k);
        if locs.contains(a[k].at) {
            let i = choose|i: int| 0 <= i < locs.len() && locs[i] == a[k].at;
            assert(kind_at(m, locs[i]) == a[k].raw[0]);
            assert(kind_at(m2, locs[i]) == b[k].raw[0]);
        }
    }
    lemma_root_slots(g, m);
    lemma_root_slots(g, m2);
    lemma_search_edited(a, b, SystemModel::none());
}

/// The system entries are kept where slots that are not in use are put to use.
pub proof fn lemma_kept_filled(
    v: Volume,
    m: Media,
    m2: Media,
    free: u32,
    locs: Seq<EntryLocator>,
)
    requires
        regions::apart(v.geometry),
        directories::dir_housed(v, m, entry::root_model(v.geometry)),
        is_ended(directories::slots_of(v.geometry, m, entry::root_model(v.geometry))),
        directories::edits(v, m, m2, free, locs),
        are_passed(m, locs),
        are_in_use(m2, locs),
    ensures
        is_kept(v.geometry, m, m2),
{
    let g = v.geometry;
    let root = entry::root_model(g);
    let a = directories::slots_of(g, m, root);
    let b = directories::slots_of(g, m2, root);
    adding::lemma_slots_edited(v, m, m2, free, root, locs);
    assert forall|k: int| 0 <= k < a.len() implies (#[trigger] b[k]).raw == a[k].raw || is_quiet(
        a[k],
    ) && is_passed(b[k].raw[0]) by {
        adding::lemma_slot(v, m, root, k);
        if locs.contains(a[k].at) {
            let i = choose|i: int| 0 <= i < locs.len() && locs[i] == a[k].at;
            assert(kind_at(m, locs[i]) == a[k].raw[0]);
            assert(kind_at(m2, locs[i]) == b[k].raw[0]);
        }
    }
    lemma_kept_alike(g, m, m2);
}

/// The entries of a set that a directory lists are in use.
pub proof fn lemma_set_in_use(v: Volume, m: Media, free: u32, d: DirectoryModel, i: int)
    requires
        regions::sound(v, m, free),
        directories::dir_sound(v, m, d),
        0 <= i < listing::listing(v.geometry, m, d).entries.len(),
    ensures
        ({
            let locs = listing::listing(v.geometry, m, d).entries[i].locs;
            &&& are_in_use(m, locs)
            &&& forall|k: int|
                0 <= k < locs.len() ==> kind_at(m, #[trigger] locs[k]) >= 0x80 && kind_at(
                    m,
                    locs[k],
                ) % 0x80 != 0
        }),
{
    let g = v.geometry;
    let a = directories::slots_of(g, m, d);
    let locs = listing::listing(g, m, d).entries[i].locs;
    reopening::lemma_slot_sizes(v, m, free, d);
    let (p, q) = sets::lemma_set_of(a, walk::directory_slots(g, m, d).end, i);
    let x = a.subrange(p, q);
    assert forall|k: int| 0 <= k < locs.len() implies is_passed(kind_at(m, #[trigger] locs[k]))
        && kind_at(m, locs[k]) >= 0x80 && kind_at(m, locs[k]) % 0x80 != 0 by {
        adding::lemma_slot(v, m, d, p + k);
        assert(x[k] == a[p + k]);
        assert(locs[k] == a[p + k].at);
    }
}

/// Recording the lengths of a file leaves the kinds of entries alone.
pub proof fn lemma_record_kinds(g: Geometry, m: Media, f: FileModel, at: EntryLocator)
    requires
        at.offset % 32 == 0,
        metadata::fits(g, at),
        f.stream.offset % 32 == 0,
        f.primary.offset % 32 == 0,
        metadata::fits(g, f.stream),
        metadata::fits(g, f.primary),
        m[at.lba].len() == g.bytes_per_sector,
        m[f.stream.lba].len() == g.bytes_per_sector,
        m[f.primary.lba].len() == g.bytes_per_sector,
    ensures
        kind_at(appending::recorded(g, m, f), at) == kind_at(m, at),
{
    let o = at.offset as int;
    let p = f.stream.offset as int;
    let q = f.primary.offset as int;
    assert(forall|j: int| 0 < j < 32 ==> o != #[trigger] (p + j) && o != q + j);
    let patched = m.insert(
        f.stream.lba,
        metadata::stream_patched(m[f.stream.lba], p, f),
    );
    assert(patched[at.lba][o] == m[at.lba][o]);
    let m2 = appending::recorded(g, m, f);
    assert(m2[at.lba][o] == patched[at.lba][o]);
}

} // verus!
