//! Adding an entry set to a directory.

use crate::device::Media;
use crate::directory::entry;
use crate::directory::entry::{DirectoryModel, EntryModel};
use crate::directory::slots;
use crate::directory::slots::{EntryLocator, Slot};
use crate::error::Error;
use crate::fs::listing;
use crate::fs::listing::Listing;
use crate::fs::metadata;
use crate::fs::metadata::SetModel;
use crate::fs::names;
use crate::fs::walk;
use crate::fs::walk::End;
use crate::laws::decoding;
use crate::laws::directories;
use crate::laws::entries;
use crate::laws::names as name_laws;
use crate::laws::regions;
use crate::mount::Volume;
use vstd::prelude::*;

verus! {

/// What a slot of a sound directory is.
pub proof fn lemma_slot(v: Volume, m: Media, d: DirectoryModel, k: int)
    requires
        regions::apart(v.geometry),
        directories::dir_housed(v, m, d),
        0 <= k < directories::slots_of(v.geometry, m, d).len(),
    ensures
        ({
            let slot = directories::slots_of(v.geometry, m, d)[k];
            &&& slot.raw == metadata::entry_at(m, slot.at)
            &&& metadata::fits(v.geometry, slot.at)
            &&& slot.at.offset % 32 == 0
            &&& directories::is_housed(v, m, slot.at.lba)
        }),
{
    let g = v.geometry;
    let spans = directories::spans_of(g, m, d);
    directories::lemma_slot_place(m, spans, k);
    directories::lemma_walk_within_into(
        g,
        m,
        walk::layout_of(d),
        d.first_cluster,
        d.data_length as nat,
        g.cluster_count as nat,
    );
    let (j, t) = directories::place_of(spans, k);
    assert(spans[j].usable <= g.bytes_per_sector);
    assert(32 * t + 32 <= spans[j].usable);
    assert(directories::is_housed(v, m, spans[j].lba));
}

/// Different slots of a sound directory have different locators.
pub proof fn lemma_slots_apart(v: Volume, m: Media, d: DirectoryModel, a: int, b: int)
    requires
        regions::apart(v.geometry),
        directories::dir_housed(v, m, d),
        0 <= a < directories::slots_of(v.geometry, m, d).len(),
        0 <= b < directories::slots_of(v.geometry, m, d).len(),
        directories::slots_of(v.geometry, m, d)[a].at == directories::slots_of(
            v.geometry,
            m,
            d,
        )[b].at,
    ensures
        a == b,
{
    let g = v.geometry;
    let spans = directories::spans_of(g, m, d);
    directories::lemma_slot_place(m, spans, a);
    directories::lemma_slot_place(m, spans, b);
    directories::lemma_walk_within_into(
        g,
        m,
        walk::layout_of(d),
        d.first_cluster,
        d.data_length as nat,
        g.cluster_count as nat,
    );
    let (j, t) = directories::place_of(spans, a);
    let (i, u) = directories::place_of(spans, b);
    assert(spans[j].usable <= g.bytes_per_sector && spans[i].usable <= g.bytes_per_sector);
    assert((32 * t) as u16 == 32 * t && (32 * u) as u16 == 32 * u);
    if i < j {
        assert(spans[i].lba != spans[j].lba);
    } else if j < i {
        assert(spans[j].lba != spans[i].lba);
    }
    directories::lemma_places_differ(m, spans, a, b);
}

/// What an edit does to the slots of a directory: those at `locs` hold what
/// was written there, and all others what they held.
pub proof fn lemma_slots_edited(
    v: Volume,
    m: Media,
    m2: Media,
    free: u32,
    d: DirectoryModel,
    locs: Seq<EntryLocator>,
)
    requires
        regions::apart(v.geometry),
        directories::dir_housed(v, m, d),
        directories::edits(v, m, m2, free, locs),
    ensures
        ({
            let g = v.geometry;
            let a = directories::slots_of(g, m, d);
            let b = directories::slots_of(g, m2, d);
            &&& directories::spans_of(g, m2, d) == directories::spans_of(g, m, d)
            &&& walk::directory_slots(g, m2, d).end == walk::directory_slots(g, m, d).end
            &&& b.len() == a.len()
            &&& forall|k: int|
                0 <= k < a.len() ==> {
                    &&& (#[trigger] b[k]).at == a[k].at
                    &&& b[k].raw == metadata::entry_at(m2, a[k].at)
                    &&& !locs.contains(a[k].at) ==> b[k] == a[k]
                }
        }),
{
    let g = v.geometry;
    let spans = directories::spans_of(g, m, d);
    let a = directories::slots_of(g, m, d);
    let b = directories::slots_of(g, m2, d);
    directories::lemma_walk_same_into(
        g,
        m,
        m2,
        walk::layout_of(d),
        d.first_cluster,
        d.data_length as nat,
        g.cluster_count as nat,
    );
    assert(directories::spans_of(g, m2, d) == spans);
    directories::lemma_slot_count(m, m2, spans);
    assert forall|k: int| 0 <= k < a.len() implies {
        &&& (#[trigger] b[k]).at == a[k].at
        &&& b[k].raw == metadata::entry_at(m2, a[k].at)
        &&& !locs.contains(a[k].at) ==> b[k] == a[k]
    } by {
        directories::lemma_slot_place(m, spans, k);
        directories::lemma_slot_place(m2, spans, k);
        lemma_slot(v, m, d, k);
        let (j, t) = directories::place_of(spans, k);
        assert(b[k] == slots::slot_at(m2, spans[j].lba, t));
        assert(a[k] == slots::slot_at(m, spans[j].lba, t));
        directories::lemma_walk_within_into(
            g,
            m,
            walk::layout_of(d),
            d.first_cluster,
            d.data_length as nat,
            g.cluster_count as nat,
        );
        assert(spans[j].usable <= g.bytes_per_sector);
        assert((32 * t) as u16 == 32 * t);
        assert(b[k].raw == metadata::entry_at(m2, a[k].at));
        if !locs.contains(a[k].at) {
            assert(metadata::entry_at(m2, a[k].at) == metadata::entry_at(m, a[k].at));
        }
    }
}

/// The sectors of a directory stay its own through an edit.
pub proof fn lemma_spans_kept(
    v: Volume,
    m: Media,
    m2: Media,
    free: u32,
    d: DirectoryModel,
    locs: Seq<EntryLocator>,
)
    requires
        regions::apart(v.geometry),
        directories::dir_housed(v, m, d),
        directories::edits(v, m, m2, free, locs),
    ensures
        directories::dir_housed(v, m2, d),
{
    let g = v.geometry;
    lemma_slots_edited(v, m, m2, free, d, locs);
    let spans = directories::spans_of(g, m2, d);
    assert forall|j: int| 0 <= j < spans.len() implies directories::is_housed(
        v,
        m2,
        (#[trigger] spans[j]).lba,
    ) by {
        directories::lemma_housed_kept(v, m, m2, free, locs, spans[j].lba);
    }
}

/// Slots of a sound directory are places for entries.
pub proof fn lemma_run_places(v: Volume, m: Media, d: DirectoryModel, from: int, to: int)
    requires
        regions::apart(v.geometry),
        directories::dir_housed(v, m, d),
        0 <= from <= to <= directories::slots_of(v.geometry, m, d).len(),
    ensures
        directories::are_places(
            v,
            m,
            decoding::places(directories::slots_of(v.geometry, m, d), from, to),
        ),
{
    let all = directories::slots_of(v.geometry, m, d);
    let locs = decoding::places(all, from, to);
    assert forall|i: int| 0 <= i < locs.len() implies {
        &&& metadata::fits(v.geometry, #[trigger] locs[i])
        &&& locs[i].offset % 32 == 0
        &&& directories::is_housed(v, m, locs[i].lba)
    } by {
        lemma_slot(v, m, d, from + i);
    }
    assert forall|i: int, j: int| 0 <= i < j < locs.len() implies #[trigger] locs[i]
        != #[trigger] locs[j] by {
        if locs[i] == locs[j] {
            lemma_slots_apart(v, m, d, from + i, from + j);
        }
    }
}

/// Writing a set into slots of a directory inserts it there. `room` is the
/// directory with those slots free.
pub proof fn lemma_set_inserted<E>(
    v: Volume,
    m: Media,
    free: u32,
    d: DirectoryModel,
    room: Seq<Slot>,
    at: int,
    s: SetModel,
    hash: u16,
)
    requires
        regions::sound(v, m, free),
        directories::dir_housed(v, m, d),
        entries::is_writable(s),
        decoding::tidy(room),
        decoding::is_free_run(room, at, entries::entry_count(s)),
        is_room(directories::slots_of(v.geometry, m, d), room, at, entries::entry_count(s)),
        names::name_hash(v, m, s.name) == Some(hash),
    ensures
        ({
            let g = v.geometry;
            let locs = decoding::places(room, at, at + entries::entry_count(s));
            let plan = metadata::write_set_plan::<E>(v, m, free, locs, s);
            let m2 = plan.leaves(m);
            &&& plan.result == Ok::<(), Error<E>>(())
            &&& plan.free == free
            &&& directories::edits(v, m, m2, free, locs)
            &&& decoding::is_inserted(room, directories::slots_of(g, m2, d), at, s, hash, locs)
            &&& directories::dir_sound(v, m2, d)
            &&& walk::directory_slots(g, m2, d).end == walk::directory_slots(g, m, d).end
        }),
{
    let g = v.geometry;
    let n = entries::entry_count(s);
    let all = directories::slots_of(g, m, d);
    let locs = decoding::places(room, at, at + n);
    assert(locs =~= decoding::places(all, at, at + n));
    let plan = metadata::write_set_plan::<E>(v, m, free, locs, s);
    let m2 = plan.leaves(m);
    lemma_run_places(v, m, d, at, at + n);
    directories::lemma_set_written::<E>(v, m, free, locs, s, hash);
    lemma_slots_edited(v, m, m2, free, d, locs);
    let after = directories::slots_of(g, m2, d);
    assert forall|k: int| 0 <= k < all.len() && !(at <= k < at + n) implies #[trigger] after[k]
        == room[k] by {
        assert(!locs.contains(all[k].at)) by {
            if locs.contains(all[k].at) {
                let i = choose|i: int| 0 <= i < locs.len() && locs[i] == all[k].at;
                lemma_slots_apart(v, m, d, at + i, k);
            }
        }
        assert(room[k] == all[k]);
    }
    assert(after.subrange(at, at + n) =~= entries::set_slots(s, hash, locs)) by {
        assert forall|i: int| 0 <= i < n implies after.subrange(at, at + n)[i]
            == entries::set_slots(s, hash, locs)[i] by {
            assert(after[at + i].at == all[at + i].at);
            assert(room[at + i].at == all[at + i].at);
            assert(locs[i] == all[at + i].at);
            assert(metadata::entry_at(m2, locs[i]) == entries::sealed_entry(s, hash, n, i));
        }
    }
    decoding::lemma_inserted_tidy(room, after, at, s, hash, locs);
    lemma_spans_kept(v, m, m2, free, d, locs);
}

/// Whether `room` is the directory `all` but for what the `n` slots from `at`
/// on hold.
pub open spec fn is_room(all: Seq<Slot>, room: Seq<Slot>, at: int, n: nat) -> bool {
    &&& room.len() == all.len()
    &&& forall|k: int| 0 <= k < all.len() ==> (#[trigger] room[k]).at == all[k].at
    &&& forall|k: int| 0 <= k < all.len() && !(at <= k < at + n) ==> #[trigger] room[k] == all[k]
}

/// A name that is not found matches no entry.
pub proof fn lemma_not_found(v: Volume, m: Media, list: Listing, name: Seq<u16>, i: int)
    requires
        listing::find_from(v, m, list, name, i) == Some(None::<EntryModel>),
        0 <= i,
    ensures
        list.sound,
        forall|k: int|
            i <= k < list.entries.len() ==> names::same_name(
                v,
                m,
                (#[trigger] list.entries[k]).name,
                name,
            ) == Some(false),
    decreases list.entries.len() - i,
{
    if i < list.entries.len() {
        lemma_not_found(v, m, list, name, i + 1);
    }
}

/// The first entry that matches is found.
pub proof fn lemma_found_at(v: Volume, m: Media, list: Listing, name: Seq<u16>, i: int, k: int)
    requires
        0 <= i <= k < list.entries.len(),
        forall|j: int|
            i <= j < k ==> names::same_name(v, m, (#[trigger] list.entries[j]).name, name) == Some(
                false,
            ),
        names::same_name(v, m, list.entries[k].name, name) == Some(true),
    ensures
        listing::find_from(v, m, list, name, i) == Some(Some(list.entries[k])),
    decreases k - i,
{
    if i < k {
        lemma_found_at(v, m, list, name, i + 1, k);
    }
}

/// What is found is the first entry that matches.
pub proof fn lemma_found_first(v: Volume, m: Media, list: Listing, name: Seq<u16>, i: int) -> (k: int)
    requires
        0 <= i,
        listing::find_from(v, m, list, name, i) matches Some(Some(_)),
    ensures
        i <= k < list.entries.len(),
        forall|j: int|
            i <= j < k ==> names::same_name(v, m, (#[trigger] list.entries[j]).name, name) == Some(
                false,
            ),
        names::same_name(v, m, list.entries[k].name, name) == Some(true),
        listing::find_from(v, m, list, name, i) == Some(Some(list.entries[k])),
    decreases list.entries.len() - i,
{
    if names::same_name(v, m, list.entries[i].name, name) == Some(true) {
        i
    } else {
        lemma_found_first(v, m, list, name, i + 1)
    }
}

/// Whether the listing `b` is the listing `a` with `new` inserted.
pub open spec fn is_listed(a: Listing, b: Listing, new: EntryModel, p: int) -> bool {
    &&& 0 <= p <= a.entries.len()
    &&& b.entries == a.entries.take(p).push(new) + a.entries.skip(p)
}

/// A new entry is found under its name, and every other name finds what it
/// found before.
pub proof fn lemma_new_is_found(
    v: Volume,
    m: Media,
    m2: Media,
    a: Listing,
    b: Listing,
    new: EntryModel,
    p: int,
)
    requires
        is_listed(a, b, new, p),
        directories::same_names(v, m, m2),
        names::name_hash(v, m, new.name) is Some,
        listing::find_from(v, m, a, new.name, 0) == Some(None::<EntryModel>),
    ensures
        listing::find_from(v, m2, b, new.name, 0) == Some(Some(new)),
        forall|name: Seq<u16>|
            names::same_name(v, m, new.name, name) == Some(false) && (
            #[trigger] listing::find_from(v, m, a, name, 0) matches Some(Some(_)))
                ==> listing::find_from(v, m2, b, name, 0) == listing::find_from(v, m, a, name, 0),
{
    lemma_not_found(v, m, a, new.name, 0);
    name_laws::law_hashed_name_matches_itself(v, m, new.name);
    directories::lemma_matches_kept(v, m, m2, new.name, new.name);
    assert(b.entries[p] == new);
    assert forall|j: int| 0 <= j < p implies names::same_name(
        v,
        m2,
        (#[trigger] b.entries[j]).name,
        new.name,
    ) == Some(false) by {
        assert(b.entries[j] == a.entries[j]);
        directories::lemma_matches_kept(v, m, m2, a.entries[j].name, new.name);
    }
    lemma_found_at(v, m2, b, new.name, 0, p);
    assert forall|name: Seq<u16>|
        names::same_name(v, m, new.name, name) == Some(false) && (
        #[trigger] listing::find_from(v, m, a, name, 0) matches Some(
            Some(_),
        )) implies listing::find_from(v, m2, b, name, 0) == listing::find_from(v, m, a, name, 0) by {
        let k = lemma_found_first(v, m, a, name, 0);
        let k2 = if k < p {
            k
        } else {
            k + 1
        };
        assert(b.entries[k2] == a.entries[k]);
        directories::lemma_matches_kept(v, m, m2, a.entries[k].name, name);
        assert forall|j: int| 0 <= j < k2 implies names::same_name(
            v,
            m2,
            (#[trigger] b.entries[j]).name,
            name,
        ) == Some(false) by {
            if j < p {
                assert(b.entries[j] == a.entries[j]);
            } else if j > p {
                assert(b.entries[j] == a.entries[j - 1]);
            }
            directories::lemma_matches_kept(v, m, m2, b.entries[j].name, name);
        }
        lemma_found_at(v, m2, b, name, 0, k2);
    }
}

/// What inserting a set does to a listing.
pub proof fn lemma_inserted_is_listed(
    room: Seq<Slot>,
    after: Seq<Slot>,
    end: End,
    at: int,
    s: SetModel,
    hash: u16,
    locs: Seq<EntryLocator>,
) -> (p: int)
    requires
        decoding::tidy(room),
        decoding::is_inserted(room, after, at, s, hash, locs),
    ensures
        is_listed(
            listing::listing_from(room, end, entry::idle_decoder()),
            listing::listing_from(after, end, entry::idle_decoder()),
            entries::described(s, locs),
            p,
        ),
{
    let idle = entry::idle_decoder();
    decoding::lemma_inserted(room, after, end, at, s, hash, locs);
    let head = decoding::completed(idle, room, at as nat);
    let tail = listing::listing_from(room.skip(at + locs.len()), end, idle);
    let before = listing::listing_from(room, end, idle);
    let p = head.len() as int;
    let new = entries::described(s, locs);
    assert(before.entries.take(p) =~= head);
    assert(before.entries.skip(p) =~= tail.entries);
    assert(head + seq![new] =~= head.push(new));
    p
}

} // verus!
