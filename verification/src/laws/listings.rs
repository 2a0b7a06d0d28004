//! What a directory lists, slot by slot.

use crate::directory::entry;
use crate::bytes;
use crate::device::Media;
use crate::directory::entry::{DecoderModel, DirectoryEntry, DirectoryModel, EntryModel};
use crate::directory::slots::{EntryLocator, Slot};
use crate::error::Error;
use crate::fs::listing;
use crate::fs::listing::Listing;
use crate::fs::walk;
use crate::fs::walk::End;
use crate::geometry::Geometry;
use crate::laws::decoding;
use crate::laws::entries;
use crate::laws::fields;
use crate::laws::sets;
use crate::laws::yielding;
use vstd::prelude::*;

verus! {

/// Nothing behind the first slot that was never used is listed, whatever stands
/// there.
pub proof fn law_listing_ends_at_the_mark(slots: Seq<Slot>, end: End, decoder: DecoderModel, i: int)
    requires
        0 <= i < slots.len(),
        slots[i].raw[0] == 0,
    ensures
        listing::listing_from(slots, end, decoder) == listing::listing_from(
            slots.take(i),
            End::Bytes,
            decoder,
        ),
    decreases i,
{
    if i > 0 && slots[0].raw[0] != 0 {
        let (next, _) = decoder.push(slots[0].raw, slots[0].at);
        law_listing_ends_at_the_mark(slots.drop_first(), end, next, i - 1);
        assert(slots.take(i).drop_first() =~= slots.drop_first().take(i - 1));
        assert(slots.take(i)[0] == slots[0]);
    } else if i > 0 {
        assert(slots.take(i)[0] == slots[0]);
    }
}

/// Where a directory goes on with a complete set, the listing goes on with what
/// the bytes of the set say, and then with what stands behind it.
pub proof fn law_complete_set_is_listed(x: Seq<Slot>, rest: Seq<Slot>, end: End) -> (found: EntryModel)
    requires
        fields::is_complete(x),
    ensures
        fields::is_recorded(x, found),
        listing::listing_from(x + rest, end, entry::idle_decoder()).entries == seq![found]
            + listing::listing_from(rest, end, entry::idle_decoder()).entries,
        listing::listing_from(x + rest, end, entry::idle_decoder()).sound
            == listing::listing_from(rest, end, entry::idle_decoder()).sound,
{
    let idle = entry::idle_decoder();
    let all = x + rest;
    let n = x.len();
    let found = sets::entry_of(x);
    fields::lemma_complete(x);
    yielding::lemma_set_described(x);
    fields::lemma_recorded(x, found);
    sets::lemma_set_completes(x);
    assert forall|k: nat| k < n implies all[k as int].raw[0] != 0 && #[trigger] entries::reply(
        idle,
        all,
        k,
    ) is Some by {
        decoding::lemma_after_same(idle, x, all, k);
        assert(all[k as int] == x[k as int]);
        assert(entries::reply(idle, x, k) is Some);
    }
    decoding::lemma_after_same(idle, x, all, n);
    decoding::lemma_listing_from(all, end, idle, n);
    assert(all.skip(n as int) =~= rest);
    decoding::lemma_idle_listing(rest, end, entries::after(idle, all, n), idle);
    found
}

/// Between sets, a slot that begins no set is passed over.
pub proof fn law_other_slots_are_passed_over(slot: Slot, rest: Seq<Slot>, end: End)
    requires
        slot.raw[0] != 0,
        slot.raw[0] != 0x85,
    ensures
        listing::listing_from(seq![slot] + rest, end, entry::idle_decoder())
            == listing::listing_from(rest, end, entry::idle_decoder()),
{
    reveal(DecoderModel::push);
    let all = seq![slot] + rest;
    assert(all.drop_first() =~= rest);
    assert(all[0] == slot);
}

/// A primary entry within a set is malformed, and so is one that announces fewer
/// than two others.
pub proof fn law_misplaced_primary_is_refused(
    decoder: DecoderModel,
    raw: Seq<u8>,
    at: EntryLocator,
)
    requires
        raw[0] == 0x85,
    ensures
        decoder.push(raw, at).1 is None <==> decoder.left > 0 || raw[1] < 2,
        decoder.push(raw, at).1 is Some ==> decoder.push(raw, at).1 == Some(None::<EntryModel>),
{
    reveal(DecoderModel::push);
}

/// Whether the slots `x` look like an entry set: a primary entry that counts the
/// others, a stream extension, and as many name entries as the name needs.
pub open spec fn looks_like_a_set(x: Seq<Slot>) -> bool {
    let n = x.len();
    &&& 3 <= n <= 19
    &&& forall|i: int| 0 <= i < n ==> (#[trigger] x[i]).raw.len() == 32
    &&& x[0].raw[0] == 0x85
    &&& x[0].raw[1] == n - 1
    &&& x[1].raw[0] == 0xc0
    &&& forall|i: int| 2 <= i < n ==> (#[trigger] x[i]).raw[0] == 0xc1
    &&& 15 * (n - 3) < x[1].raw[3] <= 15 * (n - 2)
}

/// A directory in which a set looks like one but is not complete, because its
/// checksum is not the one that it records, its flags are not known ones, more
/// of its bytes would be visible than it has, or it has bytes but no cluster, is
/// damaged: nothing from that set on is listed.
pub proof fn law_damaged_set_is_refused(x: Seq<Slot>, rest: Seq<Slot>, end: End)
    requires
        looks_like_a_set(x),
        !fields::is_complete(x),
    ensures
        listing::listing_from(x + rest, end, entry::idle_decoder()) == (Listing {
            entries: Seq::empty(),
            sound: false,
        }),
{
    let idle = entry::idle_decoder();
    let all = x + rest;
    let n = x.len();
    let bad: nat = if entry::stream_ok(x[1].raw) {
        (n - 1) as nat
    } else {
        1
    };
    fields::lemma_complete(x);
    assert(x[0].raw.len() == 32 && x[1].raw.len() == 32);
    if entry::stream_ok(x[1].raw) {
        assert(sets::is_shaped(x));
        assert forall|k: nat| k < n - 1 implies #[trigger] entries::reply(idle, x, k) == Some(
            None::<EntryModel>,
        ) by {
            sets::lemma_set_states(x, idle, k + 1);
        }
        sets::lemma_set_states(x, idle, n);
        sets::lemma_decoded(x, n);
        assert(entries::reply(idle, x, bad) is None);
    } else {
        reveal(DecoderModel::push);
        assert(entries::after(idle, x, 0) == idle);
        assert(entries::after(idle, x, 1) == DecoderModel::primary(x[0].raw, x[0].at));
        assert forall|k: nat| k < bad implies #[trigger] entries::reply(idle, x, k) == Some(
            None::<EntryModel>,
        ) by {}
        assert(entries::reply(idle, x, bad) is None);
    }
    assert forall|k: nat| k < bad implies all[k as int].raw[0] != 0 && #[trigger] entries::reply(
        idle,
        all,
        k,
    ) is Some by {
        decoding::lemma_after_same(idle, x, all, k);
        assert(all[k as int] == x[k as int]);
        assert(entries::reply(idle, x, k) is Some);
    }
    assert forall|i: int| 0 <= i < bad implies #[trigger] all[i] == x[i] by {}
    decoding::lemma_after_same(idle, x, all, bad);
    decoding::lemma_completes_none(idle, x, bad);
    decoding::lemma_listing_from(all, end, idle, bad);
    let here = all.skip(bad as int);
    assert(here[0] == x[bad as int]);
    assert(x[bad as int].raw[0] != 0);
}

/// A visitor that always asks for more is shown the whole listing, in order, and
/// success is only answered where the directory was read to its end.
pub proof fn law_visitor_is_shown_everything<F: FnMut(&DirectoryEntry) -> bool, E>(
    g: Geometry,
    media: Media,
    d: DirectoryModel,
    visitor: F,
    scratch_len: nat,
)
    requires
        forall|found: &DirectoryEntry, reply: bool| #[trigger]
            call_ensures(visitor, (found,), reply) ==> reply,
        listing::read_shows::<F, E>(g, media, d, visitor, scratch_len, Ok(())),
    ensures
        listing::listing(g, media, d).sound,
        exists|visited: Seq<DirectoryEntry>|
            {
                &&& #[trigger] visited.len() == listing::listing(g, media, d).entries.len()
                &&& forall|i: int|
                    0 <= i < visited.len() ==> (#[trigger] visited[i])@ == listing::listing(
                        g,
                        media,
                        d,
                    ).entries[i] && call_ensures(visitor, (&visited[i],), true)
            },
{
    let list = listing::listing(g, media, d);
    let (visited, replies) = choose|visited: Seq<DirectoryEntry>, replies: Seq<bool>|
        {
            &&& #[trigger] listing::shown(visitor, list, visited, replies)
            &&& Ok::<(), Error<E>>(()) == listing::shown_result::<E>(list, replies)
            &&& visited.len() == list.entries.len() || (replies.len() > 0 && !replies.last())
        };
    assert forall|i: int| 0 <= i < visited.len() implies (#[trigger] visited[i])@
        == list.entries[i] && call_ensures(visitor, (&visited[i],), true) by {
        assert(call_ensures(visitor, (&visited[i],), replies[i]));
    }
    if replies.len() > 0 {
        let i = replies.len() - 1;
        assert(call_ensures(visitor, (&visited[i],), replies[i]));
    }
    assert(visited.len() == list.entries.len());
}

/// Where no slot is left, nothing more is listed, and the listing is sound unless
/// the directory's clusters are damaged.
pub proof fn law_listing_of_no_slots(end: End, decoder: DecoderModel)
    ensures
        listing::listing_from(Seq::empty(), end, decoder).entries.len() == 0,
        listing::listing_from(Seq::empty(), end, decoder).sound <==> end != End::Corrupt,
{
}

/// A visitor that asks for no more ends the reading with success, whatever stands
/// behind what it was shown; otherwise success is answered just where the whole
/// directory could be read.
pub proof fn law_visitor_may_stop<E>(list: Listing, replies: Seq<bool>)
    ensures
        ({
            let result = listing::shown_result::<E>(list, replies);
            let stopped = replies.len() > 0 && !replies[replies.len() - 1];
            if stopped || list.sound {
                result == Ok::<(), Error<E>>(())
            } else {
                result == Err::<(), Error<E>>(Error::Corrupt)
            }
        }),
{
}

/// Storage that does not hold a sector is refused, and no entry is shown.
pub proof fn law_reading_needs_a_sector<F: FnMut(&DirectoryEntry) -> bool, E>(
    g: Geometry,
    media: Media,
    d: DirectoryModel,
    visitor: F,
    scratch_len: nat,
    result: Result<(), Error<E>>,
)
    requires
        scratch_len < g.bytes_per_sector,
        listing::read_shows::<F, E>(g, media, d, visitor, scratch_len, result),
    ensures
        result == Err::<(), Error<E>>(Error::InvalidSectorSize),
{
}

/// The slot that completes an entry of a listing.
proof fn lemma_listed_by(slots: Seq<Slot>, end: End, decoder: DecoderModel, i: int) -> (k: nat)
    requires
        0 <= i < listing::listing_from(slots, end, decoder).entries.len(),
    ensures
        k < slots.len(),
        decoding::clean(decoder, slots, k + 1),
        entries::reply(decoder, slots, k) == Some(
            Some(listing::listing_from(slots, end, decoder).entries[i]),
        ),
    decreases slots.len(),
{
    let (next, decoded) = decoder.push(slots[0].raw, slots[0].at);
    let rest = slots.drop_first();
    let list = listing::listing_from(slots, end, decoder);
    let later = listing::listing_from(rest, end, next);
    assert(entries::after(decoder, slots, 0) == decoder);
    assert(entries::reply(decoder, slots, 0) == decoded);
    if decoded == Some(Some(list.entries[0])) && i == 0 {
        assert(decoding::clean(decoder, slots, 1));
        0
    } else {
        let j = if decoded->0 is Some {
            i - 1
        } else {
            i
        };
        assert(list.entries[i] == later.entries[j]);
        let p = lemma_listed_by(rest, end, next, j);
        assert(entries::after(decoder, slots, 1) == next);
        assert(slots.skip(1) =~= rest);
        assert forall|x: nat| x < p + 2 implies slots[x as int].raw[0] != 0
            && #[trigger] entries::reply(decoder, slots, x) is Some by {
            if x > 0 {
                let y = (x - 1) as nat;
                decoding::lemma_after_on(decoder, slots, 1, y);
                assert(rest[y as int] == slots[x as int]);
                assert(entries::reply(next, rest, y) is Some);
            }
        }
        decoding::lemma_after_on(decoder, slots, 1, p);
        assert(rest[p as int] == slots[p as int + 1]);
        p + 1
    }
}

/// Every entry that a directory lists is what the bytes of a complete set among
/// its slots say, each field read from its own place in the set: the times of
/// creation, modification and access from bytes 8, 12 and 16 of the primary entry,
/// their hundredths from bytes 20 and 21, their offsets from bytes 22, 23 and 24.
pub proof fn law_listed_fields_are_recorded(
    g: Geometry,
    media: Media,
    d: DirectoryModel,
    i: int,
) -> (r: (int, int))
    requires
        0 <= i < listing::listing(g, media, d).entries.len(),
        forall|k: int|
            0 <= k < walk::directory_slots(g, media, d).slots.len() ==> (
            #[trigger] walk::directory_slots(g, media, d).slots[k]).raw.len() == 32,
    ensures
        ({
            let all = walk::directory_slots(g, media, d).slots;
            let found = listing::listing(g, media, d).entries[i];
            let (p, q) = r;
            &&& 0 <= p < q <= all.len()
            &&& fields::is_complete(all.subrange(p, q))
            &&& fields::is_recorded(all.subrange(p, q), found)
            &&& found.created.date_time == bytes::u32_at(all[p].raw, 8)
            &&& found.modified.date_time == bytes::u32_at(all[p].raw, 12)
            &&& found.accessed.date_time == bytes::u32_at(all[p].raw, 16)
            &&& found.created.ten_millis == all[p].raw[20]
            &&& found.modified.ten_millis == all[p].raw[21]
            &&& found.accessed.ten_millis == 0
            &&& found.created.utc_offset == all[p].raw[22]
            &&& found.modified.utc_offset == all[p].raw[23]
            &&& found.accessed.utc_offset == all[p].raw[24]
            &&& found.first_cluster == bytes::u32_at(all[p + 1].raw, 20)
            &&& found.data_length == bytes::u64_at(all[p + 1].raw, 24)
            &&& found.valid_length == bytes::u64_at(all[p + 1].raw, 8)
        }),
{
    let pending = walk::directory_slots(g, media, d);
    let all = pending.slots;
    let k = lemma_listed_by(all, pending.end, entry::idle_decoder(), i);
    let p = fields::law_yielded_fields_are_recorded(
        all,
        k,
        listing::listing(g, media, d).entries[i],
    );
    let q = k as int + 1;
    assert(all.subrange(p, q)[1] == all[p + 1]);
    (p, q)
}

/// The first entry of a listing is the one that stands first in the directory.
pub proof fn law_first_of_a_listing(list: Listing)
    ensures
        match listing::first_of(list) {
            Some(Some(found)) => list.entries.len() > 0 && found == list.entries[0],
            Some(None) => list.entries.len() == 0 && list.sound,
            None => list.entries.len() == 0 && !list.sound,
        },
{
}

} // verus!
