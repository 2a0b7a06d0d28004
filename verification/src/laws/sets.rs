//! The entry sets within a directory, and what changing one of them does to
//! the directory's listing.

use crate::bytes;
use crate::directory::codec;
use crate::directory::entry;
use crate::directory::entry::{DecoderModel, EntryModel};
use crate::directory::slots::Slot;
use crate::fs::listing;
use crate::fs::listing::Listing;
use crate::fs::space;
use crate::fs::walk::End;
use crate::laws::decoding;
use crate::laws::entries;
use vstd::prelude::*;

verus! {

/// Whether `y` can stand in a directory between other sets: a decoder that
/// starts between sets refuses nothing of it, ends between sets, and is
/// between sets at every slot that is not in use.
pub open spec fn is_closed(y: Seq<Slot>) -> bool {
    let idle = entry::idle_decoder();
    &&& decoding::clean(idle, y, y.len())
    &&& entries::after(idle, y, y.len()).idle()
    &&& forall|i: nat|
        i < y.len() && space::is_free(y[i as int]) ==> (#[trigger] entries::after(
            idle,
            y,
            i,
        )).idle()
}

/// Whether the slots from `p` up to `q` of a directory are whole sets.
pub open spec fn is_segment(a: Seq<Slot>, p: int, q: int) -> bool {
    let idle = entry::idle_decoder();
    &&& 0 <= p <= q <= a.len()
    &&& decoding::all_used(a, q)
    &&& entries::after(idle, a, p as nat).idle()
    &&& entries::after(idle, a, q as nat).idle()
}

/// Whether two directories differ from slot `p` up to slot `q` alone.
pub open spec fn differ_within(a: Seq<Slot>, b: Seq<Slot>, p: int, q: int) -> bool {
    &&& b.len() == a.len()
    &&& forall|k: int| 0 <= k < a.len() && !(p <= k < q) ==> #[trigger] b[k] == a[k]
}

/// The decoder's state and answers within closed slots, from any state between
/// sets.
proof fn lemma_closed(y: Seq<Slot>, decoder: DecoderModel)
    requires
        is_closed(y),
        decoder.idle(),
    ensures
        decoding::clean(decoder, y, y.len()),
        entries::after(decoder, y, y.len()).idle(),
        decoding::completed(decoder, y, y.len()) == decoding::completed(
            entry::idle_decoder(),
            y,
            y.len(),
        ),
        forall|i: nat|
            i < y.len() && space::is_free(y[i as int]) ==> (#[trigger] entries::after(
                decoder,
                y,
                i,
            )).idle(),
{
    let idle = entry::idle_decoder();
    decoding::lemma_idle_after(y, idle, decoder, y.len());
    assert forall|i: nat| i < y.len() implies y[i as int].raw[0] != 0 && #[trigger] entries::reply(
        decoder,
        y,
        i,
    ) is Some by {
        decoding::lemma_idle_after(y, idle, decoder, i);
        assert(entries::reply(idle, y, i) is Some);
    }
    assert forall|i: nat| i < y.len() && space::is_free(y[i as int]) implies (
    #[trigger] entries::after(decoder, y, i)).idle() by {
        decoding::lemma_idle_after(y, idle, decoder, i);
        assert(entries::after(idle, y, i).idle());
    }
}

/// In a tidy directory nothing is refused before its end.
pub proof fn lemma_tidy_clean(a: Seq<Slot>, k: nat)
    requires
        decoding::tidy(a),
        k <= a.len(),
        decoding::all_used(a, k as int),
    ensures
        decoding::clean(entry::idle_decoder(), a, k),
{
    let idle = entry::idle_decoder();
    assert forall|i: nat| i < k implies a[i as int].raw[0] != 0 && #[trigger] entries::reply(
        idle,
        a,
        i,
    ) is Some by {
        assert(decoding::all_used(a, i as int + 1));
    }
}

/// Putting closed slots in place of whole sets: the listing changes there, and
/// nowhere else.
pub proof fn lemma_segment_listing(a: Seq<Slot>, b: Seq<Slot>, end: End, p: int, q: int)
    requires
        decoding::tidy(a),
        is_segment(a, p, q),
        differ_within(a, b, p, q),
        is_closed(b.subrange(p, q)),
    ensures
        ({
            let idle = entry::idle_decoder();
            let x = a.subrange(p, q);
            let y = b.subrange(p, q);
            let head = decoding::completed(idle, a, p as nat);
            let tail = listing::listing_from(a.skip(q), end, idle);
            &&& listing::listing_from(a, end, idle) == (Listing {
                entries: head + decoding::completed(idle, x, x.len()) + tail.entries,
                sound: tail.sound,
            })
            &&& listing::listing_from(b, end, idle) == (Listing {
                entries: head + decoding::completed(idle, y, y.len()) + tail.entries,
                sound: tail.sound,
            })
        }),
{
    let idle = entry::idle_decoder();
    let x = a.subrange(p, q);
    let y = b.subrange(p, q);
    let n = (q - p) as nat;
    let head = decoding::completed(idle, a, p as nat);
    let tail = listing::listing_from(a.skip(q), end, idle);
    let state = entries::after(idle, a, p as nat);
    // The directory before.
    lemma_tidy_clean(a, q as nat);
    decoding::lemma_listing_from(a, end, idle, q as nat);
    decoding::lemma_after_on(idle, a, p as nat, n);
    decoding::lemma_after_same(state, a.skip(p), x, n);
    decoding::lemma_idle_after(x, state, idle, n);
    decoding::lemma_idle_listing(a.skip(q), end, entries::after(idle, a, q as nat), idle);
    // The directory after.
    decoding::lemma_after_same(idle, a, b, p as nat);
    decoding::lemma_after_on(idle, b, p as nat, n);
    decoding::lemma_after_same(state, b.skip(p), y, n);
    lemma_closed(y, state);
    assert(decoding::clean(idle, b, q as nat)) by {
        assert forall|i: nat| i < q implies b[i as int].raw[0] != 0 && #[trigger] entries::reply(
            idle,
            b,
            i,
        ) is Some by {
            if i < p {
                assert(entries::reply(idle, a, i) is Some);
                assert(a[i as int].raw[0] != 0);
                decoding::lemma_after_same(idle, a, b, i);
            } else {
                let j = (i - p) as nat;
                decoding::lemma_after_on(idle, b, p as nat, j);
                decoding::lemma_after_same(state, b.skip(p), y, j);
                assert(entries::reply(state, y, j) is Some);
                assert(y[j as int] == b[i as int]);
            }
        }
    }
    decoding::lemma_listing_from(b, end, idle, q as nat);
    assert(b.skip(q) =~= a.skip(q));
    decoding::lemma_idle_listing(a.skip(q), end, entries::after(idle, b, q as nat), idle);
}

/// A directory stays tidy when closed slots are put in place of whole sets.
pub proof fn lemma_segment_tidy(a: Seq<Slot>, b: Seq<Slot>, p: int, q: int)
    requires
        decoding::tidy(a),
        is_segment(a, p, q),
        differ_within(a, b, p, q),
        is_closed(b.subrange(p, q)),
    ensures
        decoding::tidy(b),
{
    let idle = entry::idle_decoder();
    let y = b.subrange(p, q);
    let n = (q - p) as nat;
    let state = entries::after(idle, a, p as nat);
    let rest = a.skip(q);
    lemma_tidy_clean(a, q as nat);
    decoding::lemma_after_same(idle, a, b, p as nat);
    decoding::lemma_after_on(idle, b, p as nat, n);
    decoding::lemma_after_same(state, b.skip(p), y, n);
    lemma_closed(y, state);
    let state2 = entries::after(idle, b, q as nat);
    assert(state2.idle());
    assert(b.skip(q) =~= rest);
    assert forall|k: int| 0 <= k < q implies (#[trigger] b[k]).raw[0] != 0 by {
        if k < p {
            assert(a[k].raw[0] != 0);
        } else {
            assert(y[k - p] == b[k]);
            assert(entries::reply(state, y, (k - p) as nat) is Some);
        }
    }
    assert forall|i: int, j: int|
        0 <= i < j < b.len() && (#[trigger] b[i]).raw[0] == 0 implies space::is_free(
        #[trigger] b[j],
    ) by {
        assert(i >= q);
        assert(a[i].raw[0] == 0);
        assert(space::is_free(a[j]));
    }
    assert forall|k: nat| q <= k <= a.len() && decoding::all_used(b, k as int) implies
        decoding::all_used(a, k as int) by {
        assert forall|x: int| 0 <= x < k implies (#[trigger] a[x]).raw[0] != 0 by {
            if x >= q {
                assert(b[x].raw[0] != 0);
            }
        }
    }
    assert forall|k: nat|
        k <= b.len() && decoding::all_used(b, k as int) && (k == b.len() || space::is_free(
            b[k as int],
        )) implies (#[trigger] entries::after(idle, b, k)).idle() by {
        if k < p {
            decoding::lemma_after_same(idle, a, b, k);
            assert(decoding::all_used(a, k as int));
            assert(entries::after(idle, a, k).idle());
        } else if k < q {
            let i = (k - p) as nat;
            decoding::lemma_after_on(idle, b, p as nat, i);
            decoding::lemma_after_same(state, b.skip(p), y, i);
            assert(y[i as int] == b[k as int]);
        } else {
            let i = (k - q) as nat;
            decoding::lemma_after_on(idle, b, q as nat, i);
            decoding::lemma_after_on(idle, a, q as nat, i);
            assert(entries::after(idle, a, k).idle());
            decoding::lemma_idle_after(rest, entries::after(idle, a, q as nat), state2, i);
        }
    }
    assert forall|k: nat|
        k < b.len() && decoding::all_used(b, k as int + 1) implies #[trigger] entries::reply(
        idle,
        b,
        k,
    ) is Some by {
        if k < p {
            assert(entries::reply(idle, a, k) is Some);
            decoding::lemma_after_same(idle, a, b, k);
        } else if k < q {
            let i = (k - p) as nat;
            decoding::lemma_after_on(idle, b, p as nat, i);
            decoding::lemma_after_same(state, b.skip(p), y, i);
            assert(y[i as int] == b[k as int]);
            assert(entries::reply(state, y, i) is Some);
        } else {
            let i = (k - q) as nat;
            assert(decoding::all_used(a, k as int + 1)) by {
                assert forall|x: int| 0 <= x < k + 1 implies (#[trigger] a[x]).raw[0] != 0 by {
                    if x >= q {
                        assert(b[x].raw[0] != 0);
                    }
                }
            }
            assert(entries::reply(idle, a, k) is Some);
            decoding::lemma_after_on(idle, b, q as nat, i);
            decoding::lemma_after_on(idle, a, q as nat, i);
            decoding::lemma_idle_after(rest, entries::after(idle, a, q as nat), state2, i);
            assert(rest[i as int] == a[k as int]);
        }
    }
}

/// The decoder's state after the first `j` entries of the set `x`.
pub open spec fn decoded(x: Seq<Slot>, j: nat) -> DecoderModel
    decreases j,
{
    if j <= 1 {
        DecoderModel::primary(x[0].raw, x[0].at)
    } else if j == 2 {
        DecoderModel::primary(x[0].raw, x[0].at).stream(x[1].raw, x[1].at).counted()
    } else {
        decoded(x, (j - 1) as nat).name(x[j - 1].raw, x[j - 1].at).counted()
    }
}

/// The checksum of the first `j` entries of the set `x`.
pub open spec fn run_sum(x: Seq<Slot>, j: nat) -> u16
    decreases j,
{
    if j == 0 {
        0
    } else {
        codec::entry_sum(run_sum(x, (j - 1) as nat), x[j - 1].raw, j == 1)
    }
}

/// Whether `x` has the shape of an entry set: a primary entry that announces
/// the others, a stream extension that fits together, and just the name
/// entries that the name needs.
pub open spec fn is_shaped(x: Seq<Slot>) -> bool {
    let w = x.len();
    &&& 3 <= w <= 19
    &&& forall|i: int| 0 <= i < w ==> (#[trigger] x[i]).raw.len() == 32
    &&& x[0].raw[0] == 0x85
    &&& x[0].raw[1] == w - 1
    &&& x[1].raw[0] == 0xc0
    &&& entry::stream_ok(x[1].raw)
    &&& forall|i: int| 2 <= i < w ==> (#[trigger] x[i]).raw[0] == 0xc1
    &&& 15 * (w - 3) < x[1].raw[3] <= 15 * (w - 2)
}

/// Whether `x` is a complete entry set: it has the shape of one, and records
/// its own checksum.
pub open spec fn is_set(x: Seq<Slot>) -> bool {
    &&& is_shaped(x)
    &&& bytes::u16_at(x[0].raw, 2) == run_sum(x, x.len())
}

/// The file or directory that the set `x` describes.
pub open spec fn entry_of(x: Seq<Slot>) -> EntryModel {
    decoded(x, x.len()).entry
}

/// What the decoder's state within a set is.
pub proof fn lemma_decoded(x: Seq<Slot>, j: nat)
    requires
        is_shaped(x),
        1 <= j <= x.len(),
    ensures
        ({
            let state = decoded(x, j);
            &&& state.left == x.len() - j
            &&& !state.ignored
            &&& state.expected == bytes::u16_at(x[0].raw, 2)
            &&& state.sum == run_sum(x, j)
            &&& state.entry.locs == decoding::places(x, 0, j as int)
            &&& state.entry.primary == x[0].at
            &&& state.stream_seen == (j >= 2)
            &&& j >= 2 ==> {
                &&& state.name_len == x[1].raw[3]
                &&& state.written == 15 * (j - 2)
                &&& state.entry.stream == x[1].at
            }
        }),
    decreases j,
{
    if j == 1 {
        reveal_with_fuel(run_sum, 2);
        assert(decoded(x, 1).entry.locs =~= decoding::places(x, 0, 1));
    } else {
        let p = (j - 1) as nat;
        lemma_decoded(x, p);
        if j == 2 {
            assert(decoded(x, 2) == decoded(x, 1).stream(x[1].raw, x[1].at).counted());
            assert(decoded(x, 2).entry.locs =~= decoding::places(x, 0, 2));
        } else {
            assert(decoded(x, j).entry.locs =~= decoding::places(x, 0, j as int));
        }
    }
}

/// A decoder that meets a set between sets goes through the states of the set.
pub proof fn lemma_set_states(x: Seq<Slot>, decoder: DecoderModel, j: nat)
    requires
        is_shaped(x),
        decoder.idle(),
        1 <= j <= x.len(),
    ensures
        entries::after(decoder, x, j) == decoded(x, j),
        entries::reply(decoder, x, (j - 1) as nat) == if j < x.len() {
            Some(None::<EntryModel>)
        } else {
            decoded(x, j).complete()
        },
    decreases j,
{
    let p = (j - 1) as nat;
    let raw = x[p as int].raw;
    assert(x[p as int].raw.len() == 32);
    if j == 1 {
        assert(entries::after(decoder, x, 0) == decoder);
        entries::lemma_push_primary(decoder, raw, x[0].at);
    } else {
        lemma_set_states(x, decoder, p);
        lemma_decoded(x, p);
        lemma_decoded(x, j);
        let state = decoded(x, p);
        if j == 2 {
            entries::lemma_push_stream(state, raw, x[1].at);
        } else {
            entries::lemma_push_name(state, raw, x[p as int].at);
        }
    }
}

/// A complete set completes what it describes, wherever it stands between
/// sets.
pub proof fn lemma_set_completes(x: Seq<Slot>)
    requires
        is_set(x),
    ensures
        is_closed(x),
        decoding::completed(entry::idle_decoder(), x, x.len()) == seq![entry_of(x)],
        entry_of(x).locs == decoding::places(x, 0, x.len() as int),
        entry_of(x).primary == x[0].at,
        entry_of(x).stream == x[1].at,
{
    let idle = entry::idle_decoder();
    let w = x.len();
    lemma_decoded(x, w);
    lemma_set_states(x, idle, w);
    assert forall|i: nat| i < w implies x[i as int].raw[0] != 0 && #[trigger] entries::reply(
        idle,
        x,
        i,
    ) is Some by {
        lemma_set_states(x, idle, i + 1);
        if i >= 2 {
            assert(x[i as int].raw[0] == 0xc1);
        }
    }
    assert forall|i: nat| i < w && space::is_free(x[i as int]) implies (#[trigger] entries::after(
        idle,
        x,
        i,
    )).idle() by {
        if i >= 2 {
            assert(x[i as int].raw[0] == 0xc1);
        }
    }
    assert forall|i: nat| i < w - 1 implies #[trigger] entries::reply(idle, x, i) == Some(
        None::<EntryModel>,
    ) by {
        lemma_set_states(x, idle, i + 1);
    }
    decoding::lemma_completes_none(idle, x, (w - 1) as nat);
    assert(decoding::completed(idle, x, w) =~= seq![entry_of(x)]);
}

/// Whether a decoder that has taken the slots from `p` up to `k` is within a
/// set that starts at `p`.
pub open spec fn is_within(slots: Seq<Slot>, p: int, k: int) -> bool {
    let idle = entry::idle_decoder();
    let state = entries::after(idle, slots, k as nat);
    let x = slots.subrange(p, k);
    &&& 0 <= p < k <= slots.len()
    &&& entries::after(idle, slots, p as nat).idle()
    &&& slots[p].raw[0] == 0x85
    &&& slots[p].raw[1] >= 2
    &&& state.left == slots[p].raw[1] + 1 - (k - p)
    &&& !state.ignored ==> {
        &&& k - p <= 19
        &&& slots[p].raw[1] <= 18
        &&& state == decoded(x, (k - p) as nat)
        &&& k - p >= 2 ==> slots[p + 1].raw[0] == 0xc0 && entry::stream_ok(slots[p + 1].raw)
        &&& forall|i: int| p + 2 <= i < k ==> (#[trigger] slots[i]).raw[0] == 0xc1
        &&& k - p >= 3 ==> 15 * (k - p - 3) < slots[p + 1].raw[3]
        &&& state.entry.locs.len() == k - p
        &&& state.stream_seen == (k - p >= 2)
        &&& k - p >= 2 ==> state.name_len == slots[p + 1].raw[3] && state.written == 15 * (k - p
            - 2)
    }
}

/// The decoder's state within a set depends on the entries so far alone.
pub proof fn lemma_decoded_same(x: Seq<Slot>, y: Seq<Slot>, j: nat)
    requires
        1 <= j <= x.len(),
        j <= y.len(),
        forall|i: int| 0 <= i < j ==> #[trigger] x[i] == y[i],
    ensures
        decoded(x, j) == decoded(y, j),
    decreases j,
{
    if j > 2 {
        lemma_decoded_same(x, y, (j - 1) as nat);
    }
}

/// A decoder that is not between sets is within one.
pub proof fn lemma_is_within(slots: Seq<Slot>, k: nat) -> (p: int)
    requires
        k <= slots.len(),
        decoding::clean(entry::idle_decoder(), slots, k),
        !entries::after(entry::idle_decoder(), slots, k).idle(),
    ensures
        is_within(slots, p, k as int),
    decreases k,
{
    reveal(DecoderModel::push);
    let idle = entry::idle_decoder();
    let j = (k - 1) as nat;
    let before = entries::after(idle, slots, j);
    let raw = slots[j as int].raw;
    assert(entries::reply(idle, slots, j) is Some);
    if raw[0] == 0x85 {
        let x = slots.subrange(j as int, k as int);
        assert(x[0] == slots[j as int]);
        j as int
    } else {
        assert(decoding::clean(idle, slots, j)) by {
            assert forall|i: nat| i < j implies slots[i as int].raw[0] != 0
                && #[trigger] entries::reply(idle, slots, i) is Some by {}
        }
        let p = lemma_is_within(slots, j);
        let x = slots.subrange(p, k as int);
        let shorter = slots.subrange(p, j as int);
        lemma_decoded_same(shorter, x, (j - p) as nat);
        assert(x[k - p - 1] == slots[j as int]);
        p
    }
}

/// What completes a file or directory is a set that describes it.
pub proof fn lemma_completes_a_set(slots: Seq<Slot>, k: nat, found: EntryModel) -> (p: int)
    requires
        k < slots.len(),
        decoding::clean(entry::idle_decoder(), slots, k + 1),
        entries::reply(entry::idle_decoder(), slots, k) == Some(Some(found)),
        forall|i: int| 0 <= i < slots.len() ==> (#[trigger] slots[i]).raw.len() == 32,
    ensures
        0 <= p <= k,
        entries::after(entry::idle_decoder(), slots, p as nat).idle(),
        entries::after(entry::idle_decoder(), slots, k + 1).idle(),
        is_set(slots.subrange(p, k as int + 1)),
        found == entry_of(slots.subrange(p, k as int + 1)),
{
    let idle = entry::idle_decoder();
    let before = entries::after(idle, slots, k);
    assert(!before.idle() && !before.ignored) by {
        reveal(DecoderModel::push);
    }
    assert(decoding::clean(idle, slots, k)) by {
        assert forall|i: nat| i < k implies slots[i as int].raw[0] != 0 && #[trigger] entries::reply(
            idle,
            slots,
            i,
        ) is Some by {}
    }
    let p = lemma_is_within(slots, k);
    let x = slots.subrange(p, k as int + 1);
    let shorter = slots.subrange(p, k as int);
    lemma_decoded_same(shorter, x, (k - p) as nat);
    lemma_last_of_set(slots, p, k, found);
    p
}

/// The entry that completes a set is its last name entry.
proof fn lemma_last_of_set(slots: Seq<Slot>, p: int, k: nat, found: EntryModel)
    requires
        k < slots.len(),
        is_within(slots, p, k as int),
        !entries::after(entry::idle_decoder(), slots, k).ignored,
        !entries::after(entry::idle_decoder(), slots, k).idle(),
        entries::reply(entry::idle_decoder(), slots, k) == Some(Some(found)),
        forall|i: int| 0 <= i < slots.len() ==> (#[trigger] slots[i]).raw.len() == 32,
        decoded(slots.subrange(p, k as int), (k - p) as nat) == decoded(
            slots.subrange(p, k as int + 1),
            (k - p) as nat,
        ),
    ensures
        entries::after(entry::idle_decoder(), slots, k + 1).idle(),
        is_set(slots.subrange(p, k as int + 1)),
        found == entry_of(slots.subrange(p, k as int + 1)),
{
    reveal(DecoderModel::push);
    let idle = entry::idle_decoder();
    let before = entries::after(idle, slots, k);
    let after = entries::after(idle, slots, k + 1);
    let x = slots.subrange(p, k as int + 1);
    let w = x.len();
    let raw = slots[k as int].raw;
    assert(x[w - 1] == slots[k as int]);
    assert(x[0] == slots[p]);
    assert(raw[0] == 0xc1);
    assert(after == before.name(raw, slots[k as int].at).counted());
    assert(after.complete() == Some(Some(found)));
    assert(x[1] == slots[p + 1]);
    assert(is_shaped(x)) by {
        assert forall|i: int| 2 <= i < w implies (#[trigger] x[i]).raw[0] == 0xc1 by {
            assert(x[i] == slots[p + i]);
        }
        assert forall|i: int| 0 <= i < w implies (#[trigger] x[i]).raw.len() == 32 by {
            assert(x[i] == slots[p + i]);
        }
    }
    assert(after == decoded(x, w));
    lemma_decoded(x, w);
}

/// Number of slots before the first that was never used, from number `k` on.
pub open spec fn used_from(slots: Seq<Slot>, k: int) -> int
    decreases slots.len() - k,
{
    if k >= slots.len() || slots[k].raw[0] == 0 {
        k
    } else {
        used_from(slots, k + 1)
    }
}

/// Number of slots before the first that was never used.
pub proof fn lemma_used_from(slots: Seq<Slot>, k: int)
    requires
        0 <= k <= slots.len(),
        decoding::all_used(slots, k),
    ensures
        k <= used_from(slots, k) <= slots.len(),
        decoding::all_used(slots, used_from(slots, k)),
        used_from(slots, k) < slots.len() ==> slots[used_from(slots, k)].raw[0] == 0,
    decreases slots.len() - k,
{
    if k < slots.len() && slots[k].raw[0] != 0 {
        lemma_used_from(slots, k + 1);
    }
}

/// A tidy directory lists what its used slots complete.
pub proof fn lemma_listing_completed(a: Seq<Slot>, end: End)
    requires
        decoding::tidy(a),
    ensures
        ({
            let idle = entry::idle_decoder();
            let e = used_from(a, 0);
            &&& listing::listing_from(a, end, idle).entries == decoding::completed(
                idle,
                a,
                e as nat,
            )
            &&& 0 <= e <= a.len()
            &&& decoding::all_used(a, e)
            &&& decoding::clean(idle, a, e as nat)
            &&& listing::listing_from(a, end, idle).sound == (e < a.len() || end != End::Corrupt)
        }),
{
    let idle = entry::idle_decoder();
    let e = used_from(a, 0);
    lemma_used_from(a, 0);
    lemma_tidy_clean(a, e as nat);
    decoding::lemma_listing_from(a, end, idle, e as nat);
    let done = decoding::completed(idle, a, e as nat);
    assert(done + Seq::<EntryModel>::empty() =~= done);
    if e < a.len() {
        assert(a.skip(e)[0] == a[e]);
    }
}

/// Each completed file or directory was completed by a slot of its own.
proof fn lemma_completed_by(decoder: DecoderModel, slots: Seq<Slot>, n: nat, i: int) -> (k: nat)
    requires
        0 <= i < decoding::completed(decoder, slots, n).len(),
    ensures
        k < n,
        entries::reply(decoder, slots, k) == Some(
            Some(decoding::completed(decoder, slots, n)[i]),
        ),
        decoding::completed(decoder, slots, k).len() == i,
    decreases n,
{
    let p = (n - 1) as nat;
    if i < decoding::completed(decoder, slots, p).len() {
        lemma_completed_by(decoder, slots, p, i)
    } else {
        p
    }
}

/// Whether the slots from `p` up to `q` are the set of entry number `i` of a
/// directory's listing.
pub open spec fn is_set_of(a: Seq<Slot>, list: Listing, i: int, p: int, q: int) -> bool {
    &&& 0 <= i < list.entries.len()
    &&& is_segment(a, p, q)
    &&& is_set(a.subrange(p, q))
    &&& list.entries[i] == entry_of(a.subrange(p, q))
    &&& list.entries[i].locs == decoding::places(a, p, q)
    &&& decoding::completed(entry::idle_decoder(), a, p as nat).len() == i
}

/// Every entry of a listing has its set among the slots.
pub proof fn lemma_set_of(a: Seq<Slot>, end: End, i: int) -> (r: (int, int))
    requires
        decoding::tidy(a),
        forall|k: int| 0 <= k < a.len() ==> (#[trigger] a[k]).raw.len() == 32,
        0 <= i < listing::listing_from(a, end, entry::idle_decoder()).entries.len(),
    ensures
        is_set_of(a, listing::listing_from(a, end, entry::idle_decoder()), i, r.0, r.1),
{
    let idle = entry::idle_decoder();
    let list = listing::listing_from(a, end, idle);
    let e = used_from(a, 0);
    lemma_listing_completed(a, end);
    let k = lemma_completed_by(idle, a, e as nat, i);
    assert(decoding::clean(idle, a, k + 1)) by {
        assert forall|x: nat| x < k + 1 implies a[x as int].raw[0] != 0 && #[trigger] entries::reply(
            idle,
            a,
            x,
        ) is Some by {}
    }
    let found = list.entries[i];
    let p = lemma_completes_a_set(a, k, found);
    let q = k as int + 1;
    let x = a.subrange(p, q);
    lemma_set_completes(x);
    assert(decoding::places(x, 0, x.len() as int) =~= decoding::places(a, p, q));
    let state = entries::after(idle, a, p as nat);
    let n = (q - p) as nat;
    decoding::lemma_after_on(idle, a, p as nat, n);
    decoding::lemma_after_same(state, a.skip(p), x, n);
    decoding::lemma_idle_after(x, state, idle, n);
    assert(decoding::completed(idle, a, q as nat) == decoding::completed(idle, a, p as nat) + seq![
        found,
    ]);
    assert(decoding::completed(idle, a, q as nat) == decoding::completed(idle, a, k).push(found));
    (p, q)
}

/// Rewriting a set: the listing changes at its entry, and nowhere else.
pub proof fn lemma_set_rewritten(
    a: Seq<Slot>,
    b: Seq<Slot>,
    end: End,
    i: int,
    p: int,
    q: int,
)
    requires
        decoding::tidy(a),
        is_set_of(a, listing::listing_from(a, end, entry::idle_decoder()), i, p, q),
        differ_within(a, b, p, q),
        is_set(b.subrange(p, q)),
    ensures
        decoding::tidy(b),
        ({
            let before = listing::listing_from(a, end, entry::idle_decoder());
            let after = listing::listing_from(b, end, entry::idle_decoder());
            &&& after.entries == before.entries.update(i, entry_of(b.subrange(p, q)))
            &&& after.sound == before.sound
        }),
{
    let idle = entry::idle_decoder();
    let x = a.subrange(p, q);
    let y = b.subrange(p, q);
    lemma_set_completes(x);
    lemma_set_completes(y);
    lemma_segment_listing(a, b, end, p, q);
    lemma_segment_tidy(a, b, p, q);
    let head = decoding::completed(idle, a, p as nat);
    let tail = listing::listing_from(a.skip(q), end, idle);
    let before = listing::listing_from(a, end, idle);
    assert(head + seq![entry_of(y)] + tail.entries =~= before.entries.update(i, entry_of(y)));
}

/// Retiring a set: its entry is no longer listed, and nothing else changes.
pub proof fn lemma_set_retired(a: Seq<Slot>, b: Seq<Slot>, end: End, i: int, p: int, q: int)
    requires
        decoding::tidy(a),
        is_set_of(a, listing::listing_from(a, end, entry::idle_decoder()), i, p, q),
        differ_within(a, b, p, q),
        forall|k: int| p <= k < q ==> 0 < (#[trigger] b[k]).raw[0] < 0x80,
    ensures
        decoding::tidy(b),
        ({
            let before = listing::listing_from(a, end, entry::idle_decoder());
            let after = listing::listing_from(b, end, entry::idle_decoder());
            &&& after.entries == before.entries.remove(i)
            &&& after.sound == before.sound
        }),
{
    let idle = entry::idle_decoder();
    let x = a.subrange(p, q);
    let y = b.subrange(p, q);
    let n = y.len();
    lemma_set_completes(x);
    assert forall|k: int| 0 <= k < n implies space::is_free(#[trigger] y[k]) && y[k].raw[0] != 0 by {
        assert(y[k] == b[p + k]);
    }
    decoding::lemma_free_passed(idle, y, n);
    assert(is_closed(y)) by {
        assert forall|k: nat| k < n implies y[k as int].raw[0] != 0 && #[trigger] entries::reply(
            idle,
            y,
            k,
        ) is Some by {
            assert(space::is_free(y[k as int]));
        }
        assert forall|k: nat| k < n && space::is_free(y[k as int]) implies (
        #[trigger] entries::after(idle, y, k)).idle() by {
            decoding::lemma_free_passed(idle, y, k);
        }
    }
    lemma_segment_listing(a, b, end, p, q);
    lemma_segment_tidy(a, b, p, q);
    let head = decoding::completed(idle, a, p as nat);
    let tail = listing::listing_from(a.skip(q), end, idle);
    let before = listing::listing_from(a, end, idle);
    assert(head + Seq::<EntryModel>::empty() + tail.entries =~= before.entries.remove(i));
}

} // verus!
