//! What a directory yields: complete entry sets, and nothing of those that are
//! not recognised.

use crate::bytes;
use crate::device::Media;
use crate::directory::entry;
use crate::directory::entry::{DecoderModel, DirectoryModel, EntryModel, ExfatTimestamp};
use crate::directory::slots::Slot;
use crate::fs::listing;
use crate::fs::names;
use crate::fs::walk::End;
use crate::laws::adding;
use crate::laws::decoding;
use crate::laws::entries;
use crate::laws::names as name_laws;
use crate::laws::sets;
use crate::mount::Volume;
use vstd::prelude::*;

verus! {

/// Unit number `j` of the name that the name entries of the set `x` hold.
pub open spec fn name_unit(x: Seq<Slot>, j: int) -> u16 {
    bytes::u16_at(x[2 + j / 15].raw, 2 + 2 * (j % 15))
}

/// Whether `found` is what the entries of the set `x` say.
pub open spec fn is_described_by(x: Seq<Slot>, found: EntryModel) -> bool {
    &&& found.is_directory == (x[0].raw[4] / 0x10 % 2 == 1)
    &&& found.first_cluster == bytes::u32_at(x[1].raw, 20)
    &&& found.data_length == bytes::u64_at(x[1].raw, 24)
    &&& found.valid_length == bytes::u64_at(x[1].raw, 8)
    &&& found.no_fat_chain == (x[1].raw[1] / 2 % 2 == 1)
    &&& found.created == (ExfatTimestamp {
        date_time: bytes::u32_at(x[0].raw, 8),
        ten_millis: x[0].raw[20],
        utc_offset: x[0].raw[22],
    })
    &&& found.modified == (ExfatTimestamp {
        date_time: bytes::u32_at(x[0].raw, 12),
        ten_millis: x[0].raw[21],
        utc_offset: x[0].raw[23],
    })
    &&& found.accessed == (ExfatTimestamp {
        date_time: bytes::u32_at(x[0].raw, 16),
        ten_millis: 0,
        utc_offset: x[0].raw[24],
    })
    &&& found.name == Seq::new(x[1].raw[3] as nat, |j: int| name_unit(x, j))
    &&& found.primary == x[0].at
    &&& found.stream == x[1].at
    &&& found.locs == decoding::places(x, 0, x.len() as int)
}

/// What the first entries of a set say.
proof fn lemma_described(x: Seq<Slot>, j: nat)
    requires
        sets::is_shaped(x),
        2 <= j <= x.len(),
    ensures
        ({
            let found = sets::decoded(x, j).entry;
            let primary = DecoderModel::primary(x[0].raw, x[0].at).entry;
            let count = if 15 * (j - 2) < x[1].raw[3] {
                15 * (j - 2)
            } else {
                x[1].raw[3] as int
            };
            &&& found.is_directory == primary.is_directory
            &&& found.created == primary.created
            &&& found.modified == primary.modified
            &&& found.accessed == primary.accessed
            &&& found.first_cluster == bytes::u32_at(x[1].raw, 20)
            &&& found.data_length == bytes::u64_at(x[1].raw, 24)
            &&& found.valid_length == bytes::u64_at(x[1].raw, 8)
            &&& found.no_fat_chain == (x[1].raw[1] / 2 % 2 == 1)
            &&& found.name == Seq::new(count as nat, |i: int| name_unit(x, i))
        }),
    decreases j,
{
    sets::lemma_decoded(x, j);
    let found = sets::decoded(x, j).entry;
    if j > 2 {
        let p = (j - 1) as nat;
        lemma_described(x, p);
        sets::lemma_decoded(x, p);
        let before = sets::decoded(x, p).entry.name;
        let here = entry::name_units(x[p as int].raw);
        assert(before.len() == 15 * (p - 2));
        assert forall|i: int| 15 * (p - 2) <= i < found.name.len() implies #[trigger] found.name[i]
            == name_unit(x, i) by {
            assert(found.name[i] == here[i - 15 * (p - 2)]);
            assert(i / 15 == p - 2 && i % 15 == i - 15 * (p - 2));
        }
        assert forall|i: int| 0 <= i < 15 * (p - 2) implies #[trigger] found.name[i]
            == name_unit(x, i) by {
            assert(found.name[i] == before[i]);
        }
    } else {
        assert(found.name =~= Seq::empty());
    }
}

/// What a complete set describes.
pub proof fn lemma_set_described(x: Seq<Slot>)
    requires
        sets::is_set(x),
    ensures
        is_described_by(x, sets::entry_of(x)),
{
    lemma_described(x, x.len());
    sets::lemma_set_completes(x);
    assert(sets::entry_of(x).name =~= Seq::new(x[1].raw[3] as nat, |j: int| name_unit(x, j)));
}

/// Once a decoder is between sets, or passes over the rest of one, it answers
/// nothing up to the next primary entry.
proof fn lemma_no_answer(decoder: DecoderModel, pushes: Seq<Slot>, j: nat, k: nat)
    requires
        j <= k < pushes.len(),
        entries::after(decoder, pushes, j).idle() || entries::after(decoder, pushes, j).ignored,
        forall|i: int| j <= i <= k ==> (#[trigger] pushes[i]).raw[0] != 0x85,
    ensures
        entries::after(decoder, pushes, k).idle() || entries::after(decoder, pushes, k).ignored,
        entries::reply(decoder, pushes, k) == Some(None::<EntryModel>),
    decreases k,
{
    reveal(DecoderModel::push);
    if k > j {
        lemma_no_answer(decoder, pushes, j, (k - 1) as nat);
    }
    assert(pushes[k as int].raw[0] != 0x85);
}

/// When entries are pushed one by one into a decoder, in whatever state, and the
/// last one is answered with a file or directory, those from the last primary
/// entry on are a complete set that describes it: the primary entry announces
/// the others, a stream extension comes right behind it, then just the name
/// entries that the name needs, and the checksum is the one that the primary
/// entry records. The answer has their locators, in order, no more visible than
/// allocated bytes, and a cluster where it has any. No entry of the set may have
/// been answered with an error.
#[verifier::rlimit(40)]
pub proof fn law_answered_pushes_are_a_set(
    decoder: DecoderModel,
    pushes: Seq<Slot>,
    p: int,
    k: nat,
    found: EntryModel,
)
    requires
        0 <= p <= k < pushes.len(),
        forall|i: int| p <= i <= k ==> (#[trigger] pushes[i]).raw.len() == 32,
        pushes[p].raw[0] == 0x85,
        forall|i: int| p < i <= k ==> (#[trigger] pushes[i]).raw[0] != 0x85,
        forall|i: nat| p <= i <= k ==> #[trigger] entries::reply(decoder, pushes, i) is Some,
        entries::reply(decoder, pushes, k) == Some(Some(found)),
    ensures
        ({
            let x = pushes.subrange(p, k as int + 1);
            &&& sets::is_set(x)
            &&& is_described_by(x, found)
            &&& found.locs == decoding::places(pushes, p, k as int + 1)
            &&& found.locs.len() == 1 + pushes[p].raw[1]
            &&& found.valid_length <= found.data_length
            &&& found.data_length == 0 || found.first_cluster >= 2
        }),
{
    let idle = entry::idle_decoder();
    let x = pushes.subrange(p, k as int + 1);
    let n = x.len();
    let q = p as nat;
    assert(entries::reply(decoder, pushes, q) is Some);
    let state = entries::after(decoder, pushes, q);
    assert(state.idle()) by {
        reveal(DecoderModel::push);
    }
    assert forall|j: nat| j < n implies x[j as int].raw[0] != 0 && #[trigger] entries::reply(
        idle,
        x,
        j,
    ) == entries::reply(decoder, pushes, q + j) by {
        decoding::lemma_after_on(decoder, pushes, q, j);
        decoding::lemma_after_same(state, pushes.skip(p), x, j);
        assert(pushes.skip(p)[j as int] == x[j as int]);
        decoding::lemma_idle_after(x, state, idle, j);
        assert(x[j as int] == pushes[p + j]);
        if j > 0 && x[j as int].raw[0] == 0 {
            let here = entries::after(decoder, pushes, q + j);
            let next = entries::after(decoder, pushes, q + j + 1);
            assert(next.idle() || next.ignored) by {
                reveal(DecoderModel::push);
            }
            if q + j < k {
                lemma_no_answer(decoder, pushes, q + j + 1, k);
            } else {
                reveal(DecoderModel::push);
            }
        }
    }
    assert forall|j: nat| j < n implies x[j as int].raw[0] != 0 && #[trigger] entries::reply(
        idle,
        x,
        j,
    ) is Some by {
        assert(entries::reply(decoder, pushes, q + j) is Some);
    }
    let last = (n - 1) as nat;
    assert(entries::reply(idle, x, last) == entries::reply(decoder, pushes, q + last));
    let first = sets::lemma_completes_a_set(x, last, found);
    assert(first == 0) by {
        let inner = x.subrange(first, n as int);
        assert(inner[0] == x[first]);
        if first > 0 {
            assert(x[first] == pushes[p + first]);
        }
    }
    assert(x.subrange(0, n as int) =~= x);
    lemma_set_described(x);
    assert(decoding::places(x, 0, n as int) =~= decoding::places(pushes, p, k as int + 1));
    assert(x[0] == pushes[p]);
}

/// An entry is yielded by the last slot of a complete entry set that describes
/// it: a primary entry that announces the others, one stream extension, and just
/// the name entries that the name needs, in adjacent slots, whose checksum is
/// the one that the primary entry records. The entry has their locators.
pub proof fn law_yielded_entry_is_a_set(slots: Seq<Slot>, k: nat, found: EntryModel) -> (p: int)
    requires
        k < slots.len(),
        decoding::clean(entry::idle_decoder(), slots, k + 1),
        entries::reply(entry::idle_decoder(), slots, k) == Some(Some(found)),
        forall|i: int| 0 <= i < slots.len() ==> (#[trigger] slots[i]).raw.len() == 32,
    ensures
        0 <= p <= k,
        sets::is_set(slots.subrange(p, k as int + 1)),
        is_described_by(slots.subrange(p, k as int + 1), found),
        found.locs == decoding::places(slots, p, k as int + 1),
{
    let p = sets::lemma_completes_a_set(slots, k, found);
    let x = slots.subrange(p, k as int + 1);
    lemma_set_described(x);
    assert(decoding::places(x, 0, x.len() as int) =~= decoding::places(slots, p, k as int + 1));
    p
}

/// Between sets, what a decoder has decoded before makes no difference.
proof fn lemma_listing_idle(slots: Seq<Slot>, end: End, a: DecoderModel, b: DecoderModel)
    requires
        a.idle(),
        b.idle(),
    ensures
        listing::listing_from(slots, end, a) == listing::listing_from(slots, end, b),
    decreases slots.len(),
{
    reveal(DecoderModel::push);
    if slots.len() > 0 && slots[0].raw[0] != 0 {
        let rest = slots.drop_first();
        let (x, _) = a.push(slots[0].raw, slots[0].at);
        let (y, _) = b.push(slots[0].raw, slots[0].at);
        if slots[0].raw[0] != 0x85 || slots[0].raw[1] < 2 {
            lemma_listing_idle(rest, end, x, y);
        }
    }
}

/// Whether a decoder within a set does not expect an entry, which is not the
/// beginning of another set.
pub open spec fn is_unexpected(decoder: DecoderModel, raw: Seq<u8>) -> bool {
    &&& raw[0] != 0x85
    &&& !(raw[0] == 0xc0 && !decoder.stream_seen && decoder.entry.locs.len() == 1)
    &&& !(raw[0] == 0xc1 && decoder.stream_seen && decoder.written < decoder.name_len)
}

/// Whether the slots `x` are one entry set that is not recognised, because it has
/// too many entries or because its entry number `i` is unexpected.
pub open spec fn is_unrecognised(x: Seq<Slot>, i: int) -> bool {
    let idle = entry::idle_decoder();
    &&& x.len() >= 3
    &&& x[0].raw[0] == 0x85
    &&& x[0].raw[1] + 1 == x.len()
    &&& forall|k: int| 0 < k < x.len() ==> (#[trigger] x[k]).raw[0] != 0x85
    &&& x.len() > 19 || {
        &&& 1 <= i < x.len()
        &&& forall|k: nat|
            k < i ==> #[trigger] entries::reply(idle, x, k) == Some(None::<EntryModel>)
        &&& !entries::after(idle, x, i as nat).ignored
        &&& is_unexpected(entries::after(idle, x, i as nat), x[i].raw)
    }
}

/// A decoder goes through a set that is not recognised without an answer.
proof fn lemma_unrecognised(x: Seq<Slot>, i: int, k: nat)
    requires
        is_unrecognised(x, i),
        1 <= k <= x.len(),
    ensures
        forall|j: nat|
            j < k ==> #[trigger] entries::reply(entry::idle_decoder(), x, j) == Some(
                None::<EntryModel>,
            ),
        entries::after(entry::idle_decoder(), x, k).left == x.len() - k,
        k > i || x.len() > 19 ==> k == x.len() || entries::after(
            entry::idle_decoder(),
            x,
            k,
        ).ignored,
    decreases k,
{
    reveal(DecoderModel::push);
    let idle = entry::idle_decoder();
    let p = (k - 1) as nat;
    if k == 1 {
        assert(entries::after(idle, x, 0) == idle);
    } else {
        lemma_unrecognised(x, i, p);
        assert(x[p as int].raw[0] != 0x85);
    }
    if x.len() <= 19 && p < i {
        assert(entries::reply(idle, x, p) == Some(None::<EntryModel>));
    }
}

/// A set that is not recognised, because it has too many entries or because one
/// of them is unexpected, answers nothing from its first entry to its last,
/// when its entries are pushed one by one into a decoder between sets; and a
/// complete set that is pushed behind it answers what it describes with its last
/// entry.
pub proof fn law_unrecognised_pushes_answer_nothing(
    decoder: DecoderModel,
    x: Seq<Slot>,
    i: int,
    y: Seq<Slot>,
)
    requires
        decoder.idle(),
        is_unrecognised(x, i),
        sets::is_set(y),
    ensures
        forall|k: nat|
            k < x.len() + y.len() - 1 ==> #[trigger] entries::reply(decoder, x + y, k) == Some(
                None::<EntryModel>,
            ),
        entries::reply(decoder, x + y, (x.len() + y.len() - 1) as nat) == Some(
            Some(sets::entry_of(y)),
        ),
        is_described_by(y, sets::entry_of(y)),
{
    let idle = entry::idle_decoder();
    let all = x + y;
    let n = x.len();
    lemma_unrecognised(x, i, n);
    decoding::lemma_after_same(idle, x, all, n);
    decoding::lemma_idle_after(all, decoder, idle, n);
    let state = entries::after(decoder, all, n);
    assert(all.skip(n as int) =~= y);
    assert forall|k: nat| k < n implies #[trigger] entries::reply(decoder, all, k) == Some(
        None::<EntryModel>,
    ) by {
        decoding::lemma_after_same(idle, x, all, k);
        decoding::lemma_idle_after(all, decoder, idle, k);
        assert(all[k as int] == x[k as int]);
        assert(entries::reply(idle, x, k) == Some(None::<EntryModel>));
    }
    assert forall|k: nat| n <= k < all.len() implies #[trigger] entries::reply(decoder, all, k)
        == if k < all.len() - 1 {
        Some(None::<EntryModel>)
    } else {
        sets::decoded(y, y.len()).complete()
    } by {
        let j = (k - n) as nat;
        decoding::lemma_after_on(decoder, all, n, j);
        assert(all[k as int] == y[j as int]);
        sets::lemma_set_states(y, state, j + 1);
    }
    sets::lemma_decoded(y, y.len());
    lemma_set_described(y);
}

/// An entry set that is not recognised is passed over whole, and what comes
/// behind it in the directory is listed as if it were not there.
pub proof fn law_unrecognised_set_is_passed_over(x: Seq<Slot>, i: int, rest: Seq<Slot>, end: End)
    requires
        is_unrecognised(x, i),
        decoding::all_used(x, x.len() as int),
    ensures
        listing::listing_from(x + rest, end, entry::idle_decoder()) == listing::listing_from(
            rest,
            end,
            entry::idle_decoder(),
        ),
{
    let idle = entry::idle_decoder();
    let all = x + rest;
    let n = x.len();
    lemma_unrecognised(x, i, n);
    decoding::lemma_after_same(idle, x, all, n);
    assert forall|k: nat| k < n implies #[trigger] all[k as int].raw[0] != 0 && entries::reply(
        idle,
        all,
        k,
    ) == Some(None::<EntryModel>) by {
        decoding::lemma_after_same(idle, x, all, k);
        assert(all[k as int] == x[k as int]);
        assert(entries::reply(idle, x, k) == Some(None::<EntryModel>));
    }
    lemma_nothing_completed(all, n);
    decoding::lemma_listing_from(all, end, idle, n);
    assert(all.skip(n as int) =~= rest);
    lemma_listing_idle(rest, end, entries::after(idle, all, n), idle);
}

/// Replies without an entry complete nothing.
proof fn lemma_nothing_completed(slots: Seq<Slot>, n: nat)
    requires
        n <= slots.len(),
        forall|k: nat|
            k < n ==> #[trigger] slots[k as int].raw[0] != 0 && entries::reply(
                entry::idle_decoder(),
                slots,
                k,
            ) == Some(None::<EntryModel>),
    ensures
        decoding::completed(entry::idle_decoder(), slots, n) == Seq::<EntryModel>::empty(),
        decoding::clean(entry::idle_decoder(), slots, n),
    decreases n,
{
    if n > 0 {
        lemma_nothing_completed(slots, (n - 1) as nat);
        assert(slots[n - 1].raw[0] != 0);
    }
    assert forall|k: nat| k < n implies slots[k as int].raw[0] != 0 && #[trigger] entries::reply(
        entry::idle_decoder(),
        slots,
        k,
    ) is Some by {
        assert(slots[k as int].raw[0] != 0);
    }
}

/// Every entry that a directory lists is found there by its name, unless an
/// earlier one has the same name: those of contiguous directories in whatever
/// cluster.
pub proof fn law_listed_entry_is_found(v: Volume, media: Media, d: DirectoryModel, i: int)
    requires
        ({
            let list = listing::listing(v.geometry, media, d);
            &&& 0 <= i < list.entries.len()
            &&& names::name_hash(v, media, list.entries[i].name) is Some
            &&& forall|j: int|
                0 <= j < i ==> names::same_name(
                    v,
                    media,
                    (#[trigger] list.entries[j]).name,
                    list.entries[i].name,
                ) == Some(false)
        }),
    ensures
        ({
            let e = listing::listing(v.geometry, media, d).entries[i];
            listing::child(v, media, d, e.name) == Some(Some(e))
        }),
{
    let list = listing::listing(v.geometry, media, d);
    name_laws::law_hashed_name_matches_itself(v, media, list.entries[i].name);
    adding::lemma_found_at(v, media, list, list.entries[i].name, 0, i);
}

} // verus!
