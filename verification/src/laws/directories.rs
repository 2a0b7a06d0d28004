//! Directories on a sound volume: where their slots lie, and what writing an
//! entry set into them does.

use crate::arith;
use crate::bytes;
use crate::device;
use crate::device::{Media, SectorWrite};
use crate::directory::entry::DirectoryModel;
use crate::directory::slots;
use crate::directory::slots::{EntryLocator, Slot, Span};
use crate::error::Error;
use crate::fs::allocation;
use crate::fs::metadata;
use crate::fs::metadata::SetModel;
use crate::fs::names;
use crate::fs::walk;
use crate::fs::walk::Layout;
use crate::geometry::Geometry;
use crate::laws::allocating;
use crate::laws::appending;
use crate::laws::decoding;
use crate::laws::entries;
use crate::laws::files;
use crate::laws::regions;
use crate::mount::Volume;
use vstd::prelude::*;

verus! {

/// The span that holds slot number `k`, and the number of the slot within it.
pub open spec fn place_of(spans: Seq<Span>, k: int) -> (int, int)
    decreases spans.len(),
{
    if spans.len() == 0 {
        (0, k)
    } else {
        let here = (spans[0].usable / 32) as int;
        if k < here {
            (0, k)
        } else {
            let (j, t) = place_of(spans.drop_first(), k - here);
            (j + 1, t)
        }
    }
}

/// Where a slot of a directory lies.
pub proof fn lemma_slot_place(m: Media, spans: Seq<Span>, k: int)
    requires
        0 <= k < slots::span_slots(m, spans).len(),
    ensures
        ({
            let (j, t) = place_of(spans, k);
            &&& 0 <= j < spans.len()
            &&& 0 <= t < spans[j].usable / 32
            &&& slots::span_slots(m, spans)[k] == slots::slot_at(m, spans[j].lba, t)
        }),
    decreases spans.len(),
{
    let here = slots::sector_slots(m, spans[0].lba, spans[0].usable);
    if k >= here.len() {
        lemma_slot_place(m, spans.drop_first(), k - here.len());
    }
}

/// How many slots a directory has does not depend on what they hold.
pub proof fn lemma_slot_count(m: Media, m2: Media, spans: Seq<Span>)
    ensures
        slots::span_slots(m2, spans).len() == slots::span_slots(m, spans).len(),
    decreases spans.len(),
{
    if spans.len() > 0 {
        lemma_slot_count(m, m2, spans.drop_first());
    }
}

/// Every slot has a place of its own.
pub proof fn lemma_places_differ(m: Media, spans: Seq<Span>, a: int, b: int)
    requires
        0 <= a < slots::span_slots(m, spans).len(),
        0 <= b < slots::span_slots(m, spans).len(),
        place_of(spans, a) == place_of(spans, b),
    ensures
        a == b,
    decreases spans.len(),
{
    let here = slots::sector_slots(m, spans[0].lba, spans[0].usable).len();
    if a >= here && b >= here {
        lemma_places_differ(m, spans.drop_first(), a - here, b - here);
    } else if a >= here {
        lemma_slot_place(m, spans.drop_first(), a - here);
    } else if b >= here {
        lemma_slot_place(m, spans.drop_first(), b - here);
    }
}

/// A walk depends on the FAT alone.
pub proof fn lemma_walk_same(
    g: Geometry,
    m: Media,
    m2: Media,
    p: Layout,
    cluster: u32,
    sector: nat,
    remaining: nat,
    budget: nat,
)
    requires
        regions::same_fat(g, m, m2),
        sector <= g.sectors_per_cluster,
    ensures
        walk::walk_from(g, m2, p, cluster, sector, remaining, budget) == walk::walk_from(
            g,
            m,
            p,
            cluster,
            sector,
            remaining,
            budget,
        ),
    decreases budget, g.sectors_per_cluster - sector + 1,
{
    if sector < g.sectors_per_cluster {
        let used = walk::usable(g, p, remaining);
        let left = if p.whole {
            remaining
        } else {
            (remaining - used) as nat
        };
        lemma_walk_same(g, m, m2, p, cluster, sector + 1, left, budget);
    } else if p.contiguous {
        lemma_walk_same_into(g, m, m2, p, (cluster + 1) as u32, remaining, budget);
    } else if g.fat_holds(cluster) {
        let next = slots::fat_entry(g, m, cluster);
        assert(slots::fat_entry(g, m2, cluster) == next);
        lemma_walk_same_into(g, m, m2, p, next, remaining, budget);
    }
}

/// A walk depends on the FAT alone.
pub proof fn lemma_walk_same_into(
    g: Geometry,
    m: Media,
    m2: Media,
    p: Layout,
    cluster: u32,
    remaining: nat,
    budget: nat,
)
    requires
        regions::same_fat(g, m, m2),
    ensures
        walk::walk_into(g, m2, p, cluster, remaining, budget) == walk::walk_into(
            g,
            m,
            p,
            cluster,
            remaining,
            budget,
        ),
    decreases budget, 0int,
{
    if budget > 0 && g.in_heap(cluster) {
        lemma_walk_same(g, m, m2, p, cluster, 0, remaining, (budget - 1) as nat);
    }
}

/// Whether spans do not reach beyond their sectors.
pub open spec fn are_within(g: Geometry, spans: Seq<Span>) -> bool {
    forall|j: int| 0 <= j < spans.len() ==> (#[trigger] spans[j]).usable <= g.bytes_per_sector
}

/// The spans of a walk do not reach beyond their sectors.
pub proof fn lemma_walk_within(
    g: Geometry,
    m: Media,
    p: Layout,
    cluster: u32,
    sector: nat,
    remaining: nat,
    budget: nat,
)
    requires
        sector <= g.sectors_per_cluster,
    ensures
        are_within(g, walk::walk_from(g, m, p, cluster, sector, remaining, budget).spans),
    decreases budget, g.sectors_per_cluster - sector + 1,
{
    if sector < g.sectors_per_cluster {
        let used = walk::usable(g, p, remaining);
        let left = if p.whole {
            remaining
        } else {
            (remaining - used) as nat
        };
        lemma_walk_within(g, m, p, cluster, sector + 1, left, budget);
    } else if p.contiguous {
        lemma_walk_within_into(g, m, p, (cluster + 1) as u32, remaining, budget);
    } else if g.fat_holds(cluster) {
        lemma_walk_within_into(g, m, p, slots::fat_entry(g, m, cluster), remaining, budget);
    }
}

/// The spans of a walk do not reach beyond their sectors.
pub proof fn lemma_walk_within_into(
    g: Geometry,
    m: Media,
    p: Layout,
    cluster: u32,
    remaining: nat,
    budget: nat,
)
    ensures
        are_within(g, walk::walk_into(g, m, p, cluster, remaining, budget).spans),
    decreases budget, 0int,
{
    if budget > 0 && g.in_heap(cluster) {
        lemma_walk_within(g, m, p, cluster, 0, remaining, (budget - 1) as nat);
    }
}

/// The sectors of a directory that searches for names and free slots visit.
pub open spec fn spans_of(g: Geometry, media: Media, d: DirectoryModel) -> Seq<Span> {
    walk::walk_into(
        g,
        media,
        walk::layout_of(d),
        d.first_cluster,
        d.data_length as nat,
        g.cluster_count as nat,
    ).spans
}

/// The slots of a directory that searches for names and free slots visit.
pub open spec fn slots_of(g: Geometry, media: Media, d: DirectoryModel) -> Seq<Slot> {
    slots::span_slots(media, spans_of(g, media, d))
}

/// The cluster that sector `lba` of the heap belongs to.
pub open spec fn home(g: Geometry, lba: u64) -> u32 {
    ((lba - g.partition.first_lba - g.cluster_heap_offset) / g.sectors_per_cluster as int + 2) as u32
}

/// Whether sector `lba` belongs to a used cluster outside bitmap and UpCase
/// table.
pub open spec fn is_housed(v: Volume, media: Media, lba: u64) -> bool {
    &&& appending::in_cluster(v.geometry, lba, home(v.geometry, lba))
    &&& appending::is_taken(v, media, home(v.geometry, lba))
}

/// The clusters of a directory.
pub open spec fn homes(g: Geometry, media: Media, d: DirectoryModel) -> Set<u32> {
    Set::new(
        |c: u32|
            exists|j: int|
                0 <= j < spans_of(g, media, d).len() && c == home(
                    g,
                    (#[trigger] spans_of(g, media, d)[j]).lba,
                ),
    )
}

/// Whether the sectors of a directory are its own.
pub open spec fn dir_housed(v: Volume, media: Media, d: DirectoryModel) -> bool {
    let spans = spans_of(v.geometry, media, d);
    &&& forall|j: int| 0 <= j < spans.len() ==> is_housed(v, media, (#[trigger] spans[j]).lba)
    &&& forall|i: int, j: int|
        0 <= i < j < spans.len() ==> (#[trigger] spans[i]).lba != (#[trigger] spans[j]).lba
}

/// Whether a directory is in order: its sectors are its own, and what it lists
/// is tidy.
pub open spec fn dir_sound(v: Volume, media: Media, d: DirectoryModel) -> bool {
    &&& dir_housed(v, media, d)
    &&& decoding::tidy(slots_of(v.geometry, media, d))
}

/// Whether locators name entry slots, each of them another, in used clusters.
pub open spec fn are_places(v: Volume, media: Media, locs: Seq<EntryLocator>) -> bool {
    &&& forall|i: int|
        0 <= i < locs.len() ==> {
            &&& metadata::fits(v.geometry, #[trigger] locs[i])
            &&& locs[i].offset % 32 == 0
            &&& is_housed(v, media, locs[i].lba)
        }
    &&& forall|i: int, j: int|
        0 <= i < j < locs.len() ==> #[trigger] locs[i] != #[trigger] locs[j]
}

/// The clusters that hold the entries at `locs`.
pub open spec fn homes_of(g: Geometry, locs: Seq<EntryLocator>) -> Set<u32> {
    Set::new(
        |c: u32|
            exists|i: int| 0 <= i < locs.len() && c == home(g, (#[trigger] locs[i]).lba),
    )
}

/// Whether two media differ in the entries at `locs` alone, as far as the
/// volume goes.
pub open spec fn edits(
    v: Volume,
    m: Media,
    m2: Media,
    free: u32,
    locs: Seq<EntryLocator>,
) -> bool {
    let g = v.geometry;
    &&& regions::evolves(v, m, m2, free, homes_of(g, locs))
    &&& regions::same_fat(g, m, m2)
    &&& regions::same_used(v, m, m2)
    &&& forall|at: EntryLocator|
        at.offset % 32 == 0 && metadata::fits(g, at) && !locs.contains(at)
            ==> #[trigger] metadata::entry_at(m2, at) == metadata::entry_at(m, at)
}

/// One edit after another.
pub proof fn lemma_edits_on(
    v: Volume,
    m1: Media,
    m2: Media,
    m3: Media,
    free: u32,
    first: Seq<EntryLocator>,
    second: Seq<EntryLocator>,
    all: Seq<EntryLocator>,
)
    requires
        edits(v, m1, m2, free, first),
        edits(v, m2, m3, free, second),
        forall|i: int| 0 <= i < first.len() ==> all.contains(#[trigger] first[i]),
        forall|i: int| 0 <= i < second.len() ==> all.contains(#[trigger] second[i]),
    ensures
        edits(v, m1, m3, free, all),
{
    let g = v.geometry;
    assert(homes_of(g, first).subset_of(homes_of(g, all))) by {
        lemma_more_homes(g, first, all);
    }
    assert(homes_of(g, second).subset_of(homes_of(g, all))) by {
        lemma_more_homes(g, second, all);
    }
    allocating::lemma_evolves_on(
        v,
        m1,
        m2,
        m3,
        free,
        free,
        homes_of(g, first),
        homes_of(g, second),
        homes_of(g, all),
    );
    assert forall|c: u32| g.fat_holds(c) implies #[trigger] slots::fat_entry(g, m3, c)
        == slots::fat_entry(g, m1, c) by {
        assert(slots::fat_entry(g, m2, c) == slots::fat_entry(g, m1, c));
    }
    assert forall|c: int| 2 <= c < g.cluster_count + 2 implies #[trigger] allocation::is_used(
        v,
        m3,
        c,
    ) == allocation::is_used(v, m1, c) by {
        assert(allocation::is_used(v, m2, c) == allocation::is_used(v, m1, c));
    }
    assert forall|at: EntryLocator|
        at.offset % 32 == 0 && metadata::fits(g, at) && !all.contains(
            at,
        ) implies #[trigger] metadata::entry_at(m3, at) == metadata::entry_at(m1, at) by {
        assert(!first.contains(at)) by {
            if first.contains(at) {
                let i = choose|i: int| 0 <= i < first.len() && first[i] == at;
                assert(all.contains(first[i]));
            }
        }
        assert(!second.contains(at)) by {
            if second.contains(at) {
                let i = choose|i: int| 0 <= i < second.len() && second[i] == at;
                assert(all.contains(second[i]));
            }
        }
        assert(metadata::entry_at(m2, at) == metadata::entry_at(m1, at));
    }
}

/// More locators, more clusters.
proof fn lemma_more_homes(g: Geometry, some: Seq<EntryLocator>, all: Seq<EntryLocator>)
    requires
        forall|i: int| 0 <= i < some.len() ==> all.contains(#[trigger] some[i]),
    ensures
        homes_of(g, some).subset_of(homes_of(g, all)),
{
    assert forall|c: u32| homes_of(g, some).contains(c) implies homes_of(g, all).contains(c) by {
        let i = choose|i: int| 0 <= i < some.len() && c == home(g, (#[trigger] some[i]).lba);
        assert(all.contains(some[i]));
        let j = choose|j: int| 0 <= j < all.len() && all[j] == some[i];
        assert(c == home(g, all[j].lba));
    }
}

/// Places stay places through an edit.
pub proof fn lemma_places_kept(
    v: Volume,
    m: Media,
    m2: Media,
    free: u32,
    locs: Seq<EntryLocator>,
    edited: Seq<EntryLocator>,
)
    requires
        regions::apart(v.geometry),
        are_places(v, m, locs),
        edits(v, m, m2, free, edited),
    ensures
        are_places(v, m2, locs),
{
    assert forall|i: int| 0 <= i < locs.len() implies is_housed(
        v,
        m2,
        (#[trigger] locs[i]).lba,
    ) by {
        lemma_housed_kept(v, m, m2, free, edited, locs[i].lba);
    }
}

/// A sector stays where it is through an edit.
pub proof fn lemma_housed_kept(
    v: Volume,
    m: Media,
    m2: Media,
    free: u32,
    edited: Seq<EntryLocator>,
    lba: u64,
)
    requires
        regions::apart(v.geometry),
        is_housed(v, m, lba),
        edits(v, m, m2, free, edited),
    ensures
        is_housed(v, m2, lba),
{
    let c = home(v.geometry, lba);
    regions::lemma_geometry(v.geometry);
    assert(allocation::is_used(v, m2, c as int) == allocation::is_used(v, m, c as int));
    assert(!regions::is_bitmap(v, m2, c) && !regions::is_table(v, m2, c));
}

/// Writing one entry.
pub proof fn lemma_entry_written(
    v: Volume,
    m: Media,
    free: u32,
    at: EntryLocator,
    data: Seq<u8>,
)
    requires
        regions::sound(v, m, free),
        metadata::fits(v.geometry, at),
        at.offset % 32 == 0,
        is_housed(v, m, at.lba),
        data.len() == v.geometry.bytes_per_sector,
        forall|i: int|
            0 <= i < data.len() && !(at.offset <= i < at.offset + 32) ==> #[trigger] data[i]
                == m[at.lba][i],
    ensures
        edits(v, m, m.insert(at.lba, data), free, seq![at]),
        metadata::entry_at(m.insert(at.lba, data), at) == data.subrange(
            at.offset as int,
            at.offset + 32,
        ),
        m[at.lba].len() == v.geometry.bytes_per_sector,
{
    let g = v.geometry;
    let m2 = m.insert(at.lba, data);
    appending::lemma_home_written(v, m, free, at.lba, home(g, at.lba), data);
    assert(seq![at][0] == at);
    assert(set![home(g, at.lba)].subset_of(homes_of(g, seq![at])));
    files::lemma_wider(
        v,
        m,
        m2,
        free,
        set![home(g, at.lba)],
        homes_of(g, seq![at]),
    );
    assert forall|other: EntryLocator|
        other.offset % 32 == 0 && metadata::fits(g, other) && !seq![at].contains(
            other,
        ) implies #[trigger] metadata::entry_at(m2, other) == metadata::entry_at(m, other) by {
        assert(other != at);
        if other.lba == at.lba {
            assert(other.offset != at.offset);
            assert(metadata::entry_at(m2, other) =~= metadata::entry_at(m, other));
        }
    }
}

/// No edit at all.
pub proof fn lemma_no_edit(v: Volume, m: Media, free: u32, locs: Seq<EntryLocator>)
    requires
        regions::sound(v, m, free),
    ensures
        edits(v, m, m, free, locs),
{
    regions::lemma_front_still(v.geometry, m);
}

/// Writing the entries of a set from number `i` on.
proof fn lemma_entries_written<E>(
    v: Volume,
    m: Media,
    free: u32,
    locs: Seq<EntryLocator>,
    s: SetModel,
    hash: u16,
    i: int,
)
    requires
        regions::sound(v, m, free),
        are_places(v, m, locs),
        0 <= i <= locs.len(),
    ensures
        ({
            let plan = metadata::entries_plan::<E>(v, m, free, locs, s, hash, i);
            let m2 = plan.leaves(m);
            &&& plan.result == Ok::<(), Error<E>>(())
            &&& plan.free == free
            &&& edits(v, m, m2, free, locs)
            &&& forall|k: int|
                i <= k < locs.len() ==> metadata::entry_at(m2, #[trigger] locs[k])
                    == metadata::set_entry(s, hash, k)
            &&& forall|k: int|
                0 <= k < i ==> metadata::entry_at(m2, #[trigger] locs[k]) == metadata::entry_at(
                    m,
                    locs[k],
                )
        }),
    decreases locs.len() - i,
{
    let g = v.geometry;
    let plan = metadata::entries_plan::<E>(v, m, free, locs, s, hash, i);
    if i == locs.len() {
        assert(plan.leaves(m) == m);
        lemma_no_edit(v, m, free, locs);
    } else {
        let at = locs[i];
        let raw = metadata::set_entry(s, hash, i);
        let data = bytes::splice(m[at.lba], at.offset as int, raw);
        entries::lemma_kinds(s, hash, locs.len(), i);
        entries::lemma_entry_size(s, hash, i);
        let write = metadata::sector_plan::<E>(free, at.lba, data);
        let m1 = write.leaves(m);
        device::lemma_applied_one(m, SectorWrite { lba: at.lba, data });
        appending::lemma_home_length(v, m, free, at.lba, home(g, at.lba));
        lemma_entry_written(v, m, free, at, data);
        assert(m1 == m.insert(at.lba, data));
        assert(data.subrange(at.offset as int, at.offset + 32) =~= raw);
        lemma_places_kept(v, m, m1, free, locs, seq![at]);
        lemma_entries_written::<E>(v, m1, free, locs, s, hash, i + 1);
        let rest = metadata::entries_plan::<E>(v, m1, free, locs, s, hash, i + 1);
        assert(plan == write.and(rest));
        device::lemma_applied_concat(m, write.writes, rest.writes);
        let m2 = rest.leaves(m1);
        assert(plan.leaves(m) == m2);
        assert(seq![at][0] == at);
        assert(locs.contains(at));
        lemma_edits_on(v, m, m1, m2, free, seq![at], locs, locs);
        assert forall|k: int| 0 <= k < i implies metadata::entry_at(m2, #[trigger] locs[k])
            == metadata::entry_at(m, locs[k]) by {
            assert(locs[k] != locs[i]);
            assert(!seq![at].contains(locs[k]));
            assert(metadata::entry_at(m1, locs[k]) == metadata::entry_at(m, locs[k]));
        }
    }
}

/// Writing an entry set puts its entries, the first of them with the checksum,
/// where they belong, and changes nothing else.
pub proof fn lemma_set_written<E>(
    v: Volume,
    m: Media,
    free: u32,
    locs: Seq<EntryLocator>,
    s: SetModel,
    hash: u16,
)
    requires
        regions::sound(v, m, free),
        are_places(v, m, locs),
        1 <= s.name.len() <= 255,
        locs.len() == entries::entry_count(s),
        names::name_hash(v, m, s.name) == Some(hash),
    ensures
        ({
            let plan = metadata::write_set_plan::<E>(v, m, free, locs, s);
            let m2 = plan.leaves(m);
            &&& plan.result == Ok::<(), Error<E>>(())
            &&& plan.free == free
            &&& edits(v, m, m2, free, locs)
            &&& forall|k: int|
                0 <= k < locs.len() ==> metadata::entry_at(m2, #[trigger] locs[k])
                    == entries::sealed_entry(s, hash, locs.len(), k)
        }),
{
    let g = v.geometry;
    let n = locs.len();
    let plan = metadata::write_set_plan::<E>(v, m, free, locs, s);
    let entries_plan = metadata::entries_plan::<E>(v, m, free, locs, s, hash, 0);
    let m1 = entries_plan.leaves(m);
    lemma_entries_written::<E>(v, m, free, locs, s, hash, 0);
    lemma_places_kept(v, m, m1, free, locs, locs);
    let at = locs[0];
    let sum = metadata::new_sum(s, hash, n);
    let data = bytes::splice(m1[at.lba], at.offset + 2, bytes::le16(sum));
    let seal = metadata::sector_plan::<E>(free, at.lba, data);
    device::lemma_applied_one(m1, SectorWrite { lba: at.lba, data });
    let m2 = seal.leaves(m1);
    appending::lemma_home_length(v, m1, free, at.lba, home(g, at.lba));
    lemma_entry_written(v, m1, free, at, data);
    assert(m2 == m1.insert(at.lba, data));
    assert(plan == entries_plan.and(seal));
    device::lemma_applied_concat(m, entries_plan.writes, seal.writes);
    assert(plan.leaves(m) == m2);
    assert(seq![at][0] == at);
    assert(locs.contains(at));
    lemma_edits_on(v, m, m1, m2, free, locs, seq![at], locs);
    assert forall|k: int| 0 <= k < n implies metadata::entry_at(m2, #[trigger] locs[k])
        == entries::sealed_entry(s, hash, n, k) by {
        assert(metadata::entry_at(m1, locs[k]) == metadata::set_entry(s, hash, k));
        if k == 0 {
            assert(metadata::entry_at(m2, at) =~= bytes::splice(
                metadata::entry_at(m1, at),
                2,
                bytes::le16(sum),
            ));
        } else {
            assert(locs[0] != locs[k]);
            assert(!seq![at].contains(locs[k]));
        }
    }
}

/// The UpCase table reads the same wherever its clusters are left alone.
proof fn lemma_word_kept(v: Volume, m: Media, m2: Media, free: u32, touched: Set<u32>, byte: int)
    requires
        regions::sound(v, m, free),
        regions::changes_only(v, m, m2, touched),
        forall|c: u32| #[trigger] touched.contains(c) ==> !regions::is_table(v, m, c),
        0 <= byte,
    ensures
        names::upcase_word(v, m2, byte) == names::upcase_word(v, m, byte),
{
    let g = v.geometry;
    let cb = g.cluster_bytes();
    regions::lemma_geometry(g);
    if byte + 2 <= v.upcase.byte_length {
        let i = byte / cb;
        let first = v.upcase.first_cluster;
        let length = v.upcase.byte_length as int;
        vstd::arithmetic::div_mod::lemma_fundamental_div_mod(byte, cb);
        vstd::arithmetic::mul::lemma_mul_is_commutative(cb, i);
        vstd::arithmetic::div_mod::lemma_div_pos_is_pos(byte, cb);
        vstd::arithmetic::div_mod::lemma_mod_bound(byte, cb);
        regions::lemma_chain_kept(v, m, m2, touched, first, length, i);
        if let Some(c) = allocation::cluster_of(g, m, first, i) {
            assert(regions::is_table(v, m, c)) by {
                reveal(regions::in_chain);
            }
            reveal(regions::bitmap_sound);
            assert(!touched.contains(c));
            assert(regions::same_cluster(g, m, m2, c));
            arith::lemma_stream_offset(
                byte,
                g.bytes_per_sector as int,
                g.sectors_per_cluster as int,
            );
            let s = byte % cb / (g.bytes_per_sector as int);
            regions::lemma_sector(g, c, s);
            assert(regions::cluster_sector(g, m2, c, s) == regions::cluster_sector(g, m, c, s));
        }
    }
}

/// What the UpCase table maps a unit to is the same.
proof fn lemma_scan_kept(
    v: Volume,
    m: Media,
    m2: Media,
    free: u32,
    touched: Set<u32>,
    unit: u16,
    code: int,
    byte: int,
)
    requires
        regions::sound(v, m, free),
        regions::changes_only(v, m, m2, touched),
        forall|c: u32| #[trigger] touched.contains(c) ==> !regions::is_table(v, m, c),
        0 <= byte,
    ensures
        names::upcase_scan(v, m2, unit, code, byte) == names::upcase_scan(v, m, unit, code, byte),
    decreases v.upcase.byte_length - byte,
{
    if byte + 2 <= v.upcase.byte_length && code <= u32::MAX {
        lemma_word_kept(v, m, m2, free, touched, byte);
        if let Some(value) = names::upcase_word(v, m, byte) {
            if value == 0xffff {
                lemma_word_kept(v, m, m2, free, touched, byte + 2);
                if let Some(skipped) = names::upcase_word(v, m, byte + 2) {
                    lemma_scan_kept(v, m, m2, free, touched, unit, code + skipped, byte + 4);
                }
            } else {
                lemma_scan_kept(v, m, m2, free, touched, unit, code + 1, byte + 2);
            }
        }
    }
}

/// Whether names mean the same on two media.
pub open spec fn same_names(v: Volume, m: Media, m2: Media) -> bool {
    forall|unit: u16| #[trigger] names::upcase(v, m2, unit) == names::upcase(v, m, unit)
}

/// Names mean the same wherever the UpCase table is left alone.
pub proof fn lemma_names_kept(v: Volume, m: Media, m2: Media, free: u32, touched: Set<u32>)
    requires
        regions::sound(v, m, free),
        regions::changes_only(v, m, m2, touched),
        forall|c: u32| #[trigger] touched.contains(c) ==> !regions::is_table(v, m, c),
    ensures
        same_names(v, m, m2),
{
    assert forall|unit: u16| #[trigger] names::upcase(v, m2, unit) == names::upcase(v, m, unit) by {
        lemma_scan_kept(v, m, m2, free, touched, unit, 0, 0);
    }
}

/// Where names mean the same, the same names match.
pub proof fn lemma_matches_kept(
    v: Volume,
    m: Media,
    m2: Media,
    left: Seq<u16>,
    right: Seq<u16>,
)
    requires
        same_names(v, m, m2),
    ensures
        names::same_name(v, m2, left, right) == names::same_name(v, m, left, right),
{
    lemma_matches_kept_from(v, m, m2, left, right, 0);
}

/// Where names mean the same, the same names match from any unit on.
proof fn lemma_matches_kept_from(
    v: Volume,
    m: Media,
    m2: Media,
    left: Seq<u16>,
    right: Seq<u16>,
    i: int,
)
    requires
        same_names(v, m, m2),
        0 <= i,
    ensures
        names::match_from(v, m2, left, right, i) == names::match_from(v, m, left, right, i),
    decreases left.len() - i,
{
    if i < left.len() {
        lemma_matches_kept_from(v, m, m2, left, right, i + 1);
    }
}

/// Where names mean the same, they have the same hashes.
pub proof fn lemma_hash_kept(v: Volume, m: Media, m2: Media, name: Seq<u16>)
    requires
        same_names(v, m, m2),
    ensures
        names::name_hash(v, m2, name) == names::name_hash(v, m, name),
    decreases name.len(),
{
    if name.len() > 0 {
        lemma_hash_kept(v, m, m2, name.drop_last());
    }
}

} // verus!
