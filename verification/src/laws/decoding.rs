//! Directories as sequences of slots: how a listing changes when a set is
//! written into free slots, or retired.

use crate::directory::entry;
use crate::directory::entry::{DecoderModel, EntryModel};
use crate::directory::slots::{EntryLocator, Slot};
use crate::fs::listing;
use crate::fs::listing::Listing;
use crate::fs::metadata::SetModel;
use crate::fs::space;
use crate::fs::walk::End;
use crate::laws::entries;
use vstd::prelude::*;

verus! {

/// The files and directories that the first `k` of `slots` complete.
pub open spec fn completed(decoder: DecoderModel, slots: Seq<Slot>, k: nat) -> Seq<EntryModel>
    decreases k,
{
    if k == 0 {
        Seq::empty()
    } else {
        let before = completed(decoder, slots, (k - 1) as nat);
        match entries::reply(decoder, slots, (k - 1) as nat) {
            Some(Some(found)) => before.push(found),
            _ => before,
        }
    }
}

/// Whether none of the first `k` of `slots` ends the directory or is
/// malformed.
pub open spec fn clean(decoder: DecoderModel, slots: Seq<Slot>, k: nat) -> bool {
    forall|i: nat|
        i < k ==> slots[i as int].raw[0] != 0 && #[trigger] entries::reply(decoder, slots, i)
            is Some
}

/// Whether none of the first `k` of `slots` was never used.
pub open spec fn all_used(slots: Seq<Slot>, k: int) -> bool {
    forall|i: int| 0 <= i < k ==> (#[trigger] slots[i]).raw[0] != 0
}

/// Whether a directory is in order: no set in it is malformed or cut short by
/// a slot that is not in use, and nothing is in use behind a slot that was
/// never used.
pub open spec fn tidy(slots: Seq<Slot>) -> bool {
    let idle = entry::idle_decoder();
    &&& forall|i: int, j: int|
        0 <= i < j < slots.len() && (#[trigger] slots[i]).raw[0] == 0 ==> space::is_free(
            #[trigger] slots[j],
        )
    &&& forall|k: nat|
        k <= slots.len() && all_used(slots, k as int) && (k == slots.len() || space::is_free(
            slots[k as int],
        )) ==> (#[trigger] entries::after(idle, slots, k)).idle()
    &&& forall|k: nat|
        k < slots.len() && all_used(slots, k as int + 1) ==> #[trigger] entries::reply(idle, slots, k)
            is Some
}

/// A decoder's state depends on the slots so far alone.
pub proof fn lemma_after_same(decoder: DecoderModel, a: Seq<Slot>, b: Seq<Slot>, k: nat)
    requires
        k <= a.len(),
        k <= b.len(),
        forall|i: int| 0 <= i < k ==> #[trigger] a[i] == b[i],
    ensures
        entries::after(decoder, a, k) == entries::after(decoder, b, k),
        completed(decoder, a, k) == completed(decoder, b, k),
    decreases k,
{
    if k > 0 {
        lemma_after_same(decoder, a, b, (k - 1) as nat);
    }
}

/// A decoder's state after more slots.
pub proof fn lemma_after_on(decoder: DecoderModel, slots: Seq<Slot>, j: nat, k: nat)
    requires
        j + k <= slots.len(),
    ensures
        entries::after(decoder, slots, j + k) == entries::after(
            entries::after(decoder, slots, j),
            slots.skip(j as int),
            k,
        ),
        completed(decoder, slots, j + k) == completed(decoder, slots, j) + completed(
            entries::after(decoder, slots, j),
            slots.skip(j as int),
            k,
        ),
    decreases k,
{
    if k == 0 {
        assert(completed(decoder, slots, j) + Seq::empty() =~= completed(decoder, slots, j));
    } else {
        let p = (k - 1) as nat;
        lemma_after_on(decoder, slots, j, p);
        let middle = entries::after(decoder, slots, j);
        let rest = slots.skip(j as int);
        assert(rest[p as int] == slots[(j + p) as int]);
        assert(entries::reply(decoder, slots, j + p) == entries::reply(middle, rest, p));
        assert(completed(decoder, slots, j + k) =~= completed(decoder, slots, j) + completed(
            middle,
            rest,
            k,
        ));
    }
}

/// A listing, from a slot in the middle on.
pub proof fn lemma_listing_from(slots: Seq<Slot>, end: End, decoder: DecoderModel, k: nat)
    requires
        k <= slots.len(),
        clean(decoder, slots, k),
    ensures
        ({
            let rest = listing::listing_from(
                slots.skip(k as int),
                end,
                entries::after(decoder, slots, k),
            );
            listing::listing_from(slots, end, decoder) == (Listing {
                entries: completed(decoder, slots, k) + rest.entries,
                sound: rest.sound,
            })
        }),
    decreases k,
{
    if k == 0 {
        assert(slots.skip(0) =~= slots);
        let rest = listing::listing_from(slots, end, decoder);
        assert(Seq::<EntryModel>::empty() + rest.entries =~= rest.entries);
    } else {
        let p = (k - 1) as nat;
        lemma_listing_from(slots, end, decoder, p);
        let here = slots.skip(p as int);
        let state = entries::after(decoder, slots, p);
        assert(here[0] == slots[p as int]);
        assert(here.drop_first() =~= slots.skip(k as int));
        assert(entries::reply(decoder, slots, p) is Some);
        let rest = listing::listing_from(
            slots.skip(k as int),
            end,
            entries::after(decoder, slots, k),
        );
        let before = completed(decoder, slots, p);
        match entries::reply(decoder, slots, p)->0 {
            Some(found) => {
                assert(before + (seq![found] + rest.entries) =~= before.push(found) + rest.entries);
            },
            None => {},
        }
    }
}

/// Between sets, what a decoder has decoded before makes no difference.
pub proof fn lemma_idle_listing(slots: Seq<Slot>, end: End, a: DecoderModel, b: DecoderModel)
    requires
        a.idle(),
        b.idle(),
    ensures
        listing::listing_from(slots, end, a) == listing::listing_from(slots, end, b),
    decreases slots.len(),
{
    reveal(DecoderModel::push);
    if slots.len() > 0 && slots[0].raw[0] != 0 && slots[0].raw[0] != 0x85 {
        lemma_idle_listing(slots.drop_first(), end, a, b);
    }
}

/// Between sets, what a decoder has decoded before makes no difference to
/// where it is between sets, to what it completes, or to what it refuses.
pub proof fn lemma_idle_after(slots: Seq<Slot>, a: DecoderModel, b: DecoderModel, k: nat)
    requires
        a.idle(),
        b.idle(),
        k <= slots.len(),
    ensures
        entries::after(a, slots, k) == entries::after(b, slots, k) || entries::after(
            a,
            slots,
            k,
        ).idle() && entries::after(b, slots, k).idle(),
        completed(a, slots, k) == completed(b, slots, k),
        k < slots.len() ==> entries::reply(a, slots, k) == entries::reply(b, slots, k),
    decreases k,
{
    reveal(DecoderModel::push);
    if k > 0 {
        lemma_idle_after(slots, a, b, (k - 1) as nat);
    }
}

/// A decoder between sets passes over slots that are not in use.
pub proof fn lemma_free_passed(decoder: DecoderModel, slots: Seq<Slot>, k: nat)
    requires
        decoder.idle(),
        k <= slots.len(),
        forall|i: int| 0 <= i < k ==> space::is_free(#[trigger] slots[i]),
    ensures
        entries::after(decoder, slots, k) == decoder,
        completed(decoder, slots, k) == Seq::<EntryModel>::empty(),
        forall|i: nat| i < k ==> #[trigger] entries::reply(decoder, slots, i) == Some(
            None::<EntryModel>,
        ),
    decreases k,
{
    reveal(DecoderModel::push);
    if k > 0 {
        let p = (k - 1) as nat;
        lemma_free_passed(decoder, slots, p);
        assert(space::is_free(slots[p as int]));
    }
}

/// A listing of slots that are not in use lists nothing.
pub proof fn lemma_free_listing(slots: Seq<Slot>, end: End, decoder: DecoderModel)
    requires
        decoder.idle(),
        forall|i: int| 0 <= i < slots.len() ==> space::is_free(#[trigger] slots[i]),
    ensures
        listing::listing_from(slots, end, decoder).entries == Seq::<EntryModel>::empty(),
        all_used(slots, slots.len() as int) ==> listing::listing_from(slots, end, decoder).sound
            == (end != End::Corrupt),
        !all_used(slots, slots.len() as int) ==> listing::listing_from(slots, end, decoder).sound,
    decreases slots.len(),
{
    reveal(DecoderModel::push);
    if slots.len() > 0 {
        let rest = slots.drop_first();
        assert(space::is_free(slots[0]));
        assert forall|i: int| 0 <= i < rest.len() implies space::is_free(#[trigger] rest[i]) by {
            assert(space::is_free(slots[i + 1]));
        }
        if slots[0].raw[0] != 0 {
            lemma_free_listing(rest, end, decoder);
            if all_used(rest, rest.len() as int) {
                assert forall|i: int| 0 <= i < slots.len() implies (#[trigger] slots[i]).raw[0]
                    != 0 by {
                    if i > 0 {
                        assert(rest[i - 1].raw[0] != 0);
                    }
                }
            } else {
                let i = choose|i: int| 0 <= i < rest.len() && (#[trigger] rest[i]).raw[0] == 0;
                assert(slots[i + 1].raw[0] == 0);
            }
        }
    }
}

/// Whether the directory `b` is the directory `a` with the set `s` written
/// into the free slots from number `at` on.
pub open spec fn is_inserted(
    a: Seq<Slot>,
    b: Seq<Slot>,
    at: int,
    s: SetModel,
    hash: u16,
    locs: Seq<EntryLocator>,
) -> bool {
    &&& entries::is_writable(s)
    &&& locs.len() == entries::entry_count(s)
    &&& 0 <= at
    &&& at + locs.len() <= a.len()
    &&& b.len() == a.len()
    &&& forall|k: int| 0 <= k < at ==> #[trigger] b[k] == a[k]
    &&& forall|k: int| at + locs.len() <= k < a.len() ==> #[trigger] b[k] == a[k]
    &&& forall|k: int| at <= k < at + locs.len() ==> space::is_free(#[trigger] a[k])
    &&& at == 0 || !space::is_free(a[at - 1])
    &&& b.subrange(at, at + locs.len()) == entries::set_slots(s, hash, locs)
}

/// No slot before a run of free ones ends the directory.
proof fn lemma_used_before(a: Seq<Slot>, at: int)
    requires
        tidy(a),
        0 <= at < a.len(),
        at == 0 || !space::is_free(a[at - 1]),
        space::is_free(a[at]),
    ensures
        all_used(a, at),
        clean(entry::idle_decoder(), a, at as nat),
        entries::after(entry::idle_decoder(), a, at as nat).idle(),
{
    let idle = entry::idle_decoder();
    assert forall|i: int| 0 <= i < at implies (#[trigger] a[i]).raw[0] != 0 by {
        if a[i].raw[0] == 0 {
            assert(space::is_free(a[at - 1]));
        }
    }
    assert forall|i: nat| i < at implies a[i as int].raw[0] != 0 && #[trigger] entries::reply(
        idle,
        a,
        i,
    ) is Some by {
        assert(all_used(a, i as int + 1));
    }
}

/// A set that is written into free slots of a tidy directory is listed there,
/// between what was listed before and behind it; and the directory stays tidy.
pub proof fn lemma_inserted(
    a: Seq<Slot>,
    b: Seq<Slot>,
    end: End,
    at: int,
    s: SetModel,
    hash: u16,
    locs: Seq<EntryLocator>,
)
    requires
        tidy(a),
        is_inserted(a, b, at, s, hash, locs),
    ensures
        ({
            let idle = entry::idle_decoder();
            let before = listing::listing_from(a, end, idle);
            let after = listing::listing_from(b, end, idle);
            let head = completed(idle, a, at as nat);
            let tail = listing::listing_from(a.skip(at + locs.len()), end, idle);
            &&& after.entries == head + seq![entries::described(s, locs)] + tail.entries
            &&& after.sound == tail.sound
            &&& before.entries == head + tail.entries
            &&& all_used(a, at + locs.len()) ==> before.sound == tail.sound
            &&& !all_used(a, at + locs.len()) ==> before.sound && tail.entries.len() == 0
        }),
{
    let idle = entry::idle_decoder();
    let n = locs.len();
    let rest = a.skip(at + n);
    assert(space::is_free(a[at]));
    lemma_used_before(a, at);
    let state = entries::after(idle, a, at as nat);
    let head = completed(idle, a, at as nat);
    let tail = listing::listing_from(rest, end, idle);
    // The directory before.
    let from = a.skip(at);
    lemma_listing_from(a, end, idle, at as nat);
    assert forall|i: int| 0 <= i < n implies space::is_free(#[trigger] from[i]) by {
        assert(space::is_free(a[at + i]));
    }
    lemma_free_passed(state, from, n);
    if all_used(a, at + n) {
        assert(clean(state, from, n)) by {
            assert forall|i: nat| i < n implies from[i as int].raw[0] != 0
                && #[trigger] entries::reply(state, from, i) is Some by {
                assert(a[at + i].raw[0] != 0);
            }
        }
        lemma_listing_from(from, end, state, n);
        assert(from.skip(n as int) =~= rest);
        lemma_idle_listing(rest, end, state, idle);
        let passed = listing::listing_from(rest, end, state);
        assert(Seq::<EntryModel>::empty() + passed.entries =~= passed.entries);
    } else {
        let z = choose|z: int| 0 <= z < at + n && (#[trigger] a[z]).raw[0] == 0;
        assert(z >= at);
        assert forall|i: int| 0 <= i < from.len() implies space::is_free(#[trigger] from[i]) by {
            if at + i < at + n {
                assert(space::is_free(a[at + i]));
            } else {
                assert(space::is_free(a[at + i]));
            }
        }
        lemma_free_listing(from, end, state);
        assert(!all_used(from, from.len() as int)) by {
            assert(from[z - at].raw[0] == 0);
        }
        assert forall|i: int| 0 <= i < rest.len() implies space::is_free(#[trigger] rest[i]) by {
            assert(space::is_free(a[at + n + i]));
        }
        lemma_free_listing(rest, end, idle);
        assert(head + Seq::<EntryModel>::empty() =~= head);
        assert(head + tail.entries =~= head);
    }
    // The directory after.
    let set = entries::set_slots(s, hash, locs);
    let from2 = b.skip(at);
    lemma_after_same(idle, a, b, at as nat);
    assert(clean(idle, b, at as nat)) by {
        assert forall|i: nat| i < at implies b[i as int].raw[0] != 0 && #[trigger] entries::reply(
            idle,
            b,
            i,
        ) is Some by {
            assert(entries::reply(idle, a, i) is Some);
            assert(a[i as int].raw[0] != 0);
            lemma_after_same(idle, a, b, i);
        }
    }
    lemma_listing_from(b, end, idle, at as nat);
    assert forall|i: int| 0 <= i < n implies #[trigger] from2[i] == set[i] by {
        assert(b.subrange(at, at + n)[i] == b[at + i]);
    }
    lemma_set_listed(from2, end, state, s, hash, locs);
    assert(from2.skip(n as int) =~= rest);
    lemma_idle_listing(rest, end, entries::after(state, from2, n), idle);
    let new = entries::described(s, locs);
    assert(head + (seq![new] + tail.entries) =~= head + seq![new] + tail.entries);
}

/// A complete set at the beginning of `slots` is listed first.
proof fn lemma_set_listed(
    slots: Seq<Slot>,
    end: End,
    decoder: DecoderModel,
    s: SetModel,
    hash: u16,
    locs: Seq<EntryLocator>,
)
    requires
        decoder.idle(),
        entries::is_writable(s),
        locs.len() == entries::entry_count(s),
        locs.len() <= slots.len(),
        forall|i: int|
            0 <= i < locs.len() ==> #[trigger] slots[i] == entries::set_slots(s, hash, locs)[i],
    ensures
        ({
            let rest = listing::listing_from(
                slots.skip(locs.len() as int),
                end,
                entries::after(decoder, slots, locs.len()),
            );
            &&& entries::after(decoder, slots, locs.len()).idle()
            &&& listing::listing_from(slots, end, decoder) == (Listing {
                entries: seq![entries::described(s, locs)] + rest.entries,
                sound: rest.sound,
            })
        }),
{
    let n = locs.len();
    let set = entries::set_slots(s, hash, locs);
    entries::law_entry_set_reads_back(decoder, s, hash, locs);
    assert forall|i: nat| i < n implies slots[i as int].raw[0] != 0 && #[trigger] entries::reply(
        decoder,
        slots,
        i,
    ) == entries::reply(decoder, set, i) by {
        lemma_after_same(decoder, slots, set, i);
        assert(slots[i as int] == set[i as int]);
        entries::lemma_kinds(s, hash, n, i as int);
    }
    assert(clean(decoder, slots, n)) by {
        assert forall|i: nat| i < n implies slots[i as int].raw[0] != 0 && #[trigger] entries::reply(
            decoder,
            slots,
            i,
        ) is Some by {
            assert(entries::reply(decoder, set, i) is Some);
        }
    }
    lemma_listing_from(slots, end, decoder, n);
    lemma_after_same(decoder, slots, set, n);
    lemma_completes_once(decoder, s, hash, locs);
}

/// A complete set completes one file or directory.
proof fn lemma_completes_once(
    decoder: DecoderModel,
    s: SetModel,
    hash: u16,
    locs: Seq<EntryLocator>,
)
    requires
        decoder.idle(),
        entries::is_writable(s),
        locs.len() == entries::entry_count(s),
    ensures
        completed(decoder, entries::set_slots(s, hash, locs), locs.len()) == seq![
            entries::described(s, locs),
        ],
{
    let set = entries::set_slots(s, hash, locs);
    let n = locs.len();
    entries::law_entry_set_reads_back(decoder, s, hash, locs);
    lemma_completes_none(decoder, set, (n - 1) as nat);
    assert(completed(decoder, set, n) =~= seq![entries::described(s, locs)]);
}

/// Slots to which a decoder answers nothing complete nothing.
pub proof fn lemma_completes_none(decoder: DecoderModel, slots: Seq<Slot>, k: nat)
    requires
        forall|i: nat| i < k ==> #[trigger] entries::reply(decoder, slots, i) == Some(
            None::<EntryModel>,
        ),
    ensures
        completed(decoder, slots, k) == Seq::<EntryModel>::empty(),
    decreases k,
{
    if k > 0 {
        lemma_completes_none(decoder, slots, (k - 1) as nat);
    }
}

/// A directory stays tidy when a set is written into free slots of it.
pub proof fn lemma_inserted_tidy(
    a: Seq<Slot>,
    b: Seq<Slot>,
    at: int,
    s: SetModel,
    hash: u16,
    locs: Seq<EntryLocator>,
)
    requires
        tidy(a),
        is_inserted(a, b, at, s, hash, locs),
    ensures
        tidy(b),
{
    let idle = entry::idle_decoder();
    let n = locs.len();
    let cut = (at + n) as nat;
    let rest = a.skip(at + n);
    let set = entries::set_slots(s, hash, locs);
    assert(space::is_free(a[at]));
    lemma_used_before(a, at);
    lemma_after_same(idle, a, b, at as nat);
    let state = entries::after(idle, a, at as nat);
    let from = a.skip(at);
    let from2 = b.skip(at);
    assert forall|i: int| 0 <= i < n implies #[trigger] from2[i] == set[i] by {
        assert(b.subrange(at, at + n)[i] == b[at + i]);
    }
    assert forall|k: int| at <= k < at + n implies (#[trigger] b[k]).raw[0] >= 0x80 by {
        assert(from2[k - at] == set[k - at]);
        entries::lemma_kinds(s, hash, n, k - at);
    }
    lemma_set_listed(from2, End::Bytes, state, s, hash, locs);
    lemma_after_on(idle, b, at as nat, n);
    let state2 = entries::after(idle, b, cut);
    assert(state2.idle());
    assert(b.skip(at + n) =~= rest);
    assert forall|i: int, j: int|
        0 <= i < j < b.len() && (#[trigger] b[i]).raw[0] == 0 implies space::is_free(
        #[trigger] b[j],
    ) by {
        if i < at {
            assert(a[i].raw[0] != 0);
        } else {
            assert(a[i].raw[0] == 0);
            assert(space::is_free(a[j]));
        }
    }
    assert forall|k: nat|
        k <= b.len() && all_used(b, k as int) && (k == b.len() || space::is_free(
            b[k as int],
        )) implies (#[trigger] entries::after(idle, b, k)).idle() by {
        if k < at {
            assert(all_used(a, k as int));
            lemma_after_same(idle, a, b, k);
            assert(entries::after(idle, a, k).idle());
        } else if k == at {
        } else if k < cut {
            assert(b[k as int].raw[0] >= 0x80);
        } else {
            assert forall|x: int| at + n <= x < k implies (#[trigger] a[x]).raw[0] != 0 by {
                assert(b[x].raw[0] != 0);
            }
            assert(k < b.len() ==> b[k as int] == a[k as int]);
            lemma_rest_idle(a, at, n, state2, (k - cut) as nat);
            lemma_after_on(idle, b, cut, (k - cut) as nat);
        }
    }
    assert forall|k: nat|
        k < b.len() && all_used(b, k as int + 1) implies #[trigger] entries::reply(idle, b, k)
        is Some by {
        if k < at {
            assert(entries::reply(idle, a, k) is Some);
            lemma_after_same(idle, a, b, k);
        } else if k < cut {
            let i = (k - at) as nat;
            lemma_after_on(idle, b, at as nat, i);
            lemma_after_same(state, from2, set, i);
            assert(from2[i as int] == set[i as int]);
            entries::law_entry_set_reads_back(state, s, hash, locs);
            assert(entries::reply(state, set, i) is Some);
        } else {
            let i = (k - cut) as nat;
            lemma_after_on(idle, b, cut, i);
            assert(rest[i as int] == b[k as int]);
            assert forall|x: int| at + n <= x <= k implies (#[trigger] a[x]).raw[0] != 0 by {
                assert(b[x].raw[0] != 0);
            }
            lemma_rest_replies(a, at, n, state2, i);
        }
    }
}

/// Behind a run of free slots, a decoder that starts between sets is between
/// sets wherever it was before.
proof fn lemma_rest_idle(a: Seq<Slot>, at: int, n: nat, decoder: DecoderModel, i: nat)
    requires
        tidy(a),
        0 <= at,
        at + n + i <= a.len(),
        n > 0,
        decoder.idle(),
        all_used(a, at),
        entries::after(entry::idle_decoder(), a, at as nat).idle(),
        forall|k: int| at <= k < at + n ==> space::is_free(#[trigger] a[k]),
        forall|k: int| at + n <= k < at + n + i ==> (#[trigger] a[k]).raw[0] != 0,
        at + n + i == a.len() || space::is_free(a[at + n + i]),
    ensures
        entries::after(decoder, a.skip(at + n), i).idle(),
{
    let idle = entry::idle_decoder();
    let rest = a.skip(at + n);
    if all_used(a, at + n) {
        let whole = (at + n + i) as nat;
        assert(all_used(a, whole as int));
        assert(entries::after(idle, a, whole).idle());
        let state = entries::after(idle, a, at as nat);
        lemma_after_on(idle, a, at as nat, n);
        assert forall|k: int| 0 <= k < n implies space::is_free(#[trigger] a.skip(at)[k]) by {
            assert(space::is_free(a[at + k]));
        }
        lemma_free_passed(state, a.skip(at), n);
        lemma_after_on(idle, a, (at + n) as nat, i);
        lemma_idle_after(rest, state, decoder, i);
    } else {
        let z = choose|z: int| 0 <= z < at + n && (#[trigger] a[z]).raw[0] == 0;
        assert forall|k: int| 0 <= k < i implies space::is_free(#[trigger] rest[k]) by {
            assert(space::is_free(a[at + n + k]));
        }
        lemma_free_passed(decoder, rest, i);
    }
}

/// Behind a run of free slots, a decoder that starts between sets refuses
/// nothing.
proof fn lemma_rest_replies(a: Seq<Slot>, at: int, n: nat, decoder: DecoderModel, i: nat)
    requires
        tidy(a),
        0 <= at,
        at + n + i < a.len(),
        n > 0,
        decoder.idle(),
        all_used(a, at),
        entries::after(entry::idle_decoder(), a, at as nat).idle(),
        forall|k: int| at <= k < at + n ==> space::is_free(#[trigger] a[k]),
        forall|k: int| at + n <= k <= at + n + i ==> (#[trigger] a[k]).raw[0] != 0,
    ensures
        entries::reply(decoder, a.skip(at + n), i) is Some,
{
    let idle = entry::idle_decoder();
    let rest = a.skip(at + n);
    if all_used(a, at + n) {
        let whole = (at + n + i) as nat;
        assert(all_used(a, whole as int + 1));
        assert(entries::reply(idle, a, whole) is Some);
        let state = entries::after(idle, a, at as nat);
        lemma_after_on(idle, a, at as nat, n);
        assert forall|k: int| 0 <= k < n implies space::is_free(#[trigger] a.skip(at)[k]) by {
            assert(space::is_free(a[at + k]));
        }
        lemma_free_passed(state, a.skip(at), n);
        lemma_after_on(idle, a, (at + n) as nat, i);
        lemma_idle_after(rest, state, decoder, i);
        assert(rest[i as int] == a[whole as int]);
    } else {
        let z = choose|z: int| 0 <= z < at + n && (#[trigger] a[z]).raw[0] == 0;
        assert forall|k: int| 0 <= k < i + 1 implies space::is_free(#[trigger] rest[k]) by {
            assert(space::is_free(a[at + n + k]));
        }
        lemma_free_passed(decoder, rest, i + 1);
    }
}

/// Where the slots of `slots` from `from` up to `to` lie.
pub open spec fn places(slots: Seq<Slot>, from: int, to: int) -> Seq<EntryLocator> {
    Seq::new((to - from) as nat, |i: int| slots[from + i].at)
}

/// Whether the slots from `at` on, `n` of them, are free, and the one before
/// them is in use.
pub open spec fn is_free_run(slots: Seq<Slot>, at: int, n: nat) -> bool {
    &&& 0 <= at
    &&& at + n <= slots.len()
    &&& forall|k: int| at <= k < at + n ==> space::is_free(#[trigger] slots[k])
    &&& at == 0 || !space::is_free(slots[at - 1])
}

/// What a search for adjacent free slots finds.
pub proof fn lemma_search(slots: Seq<Slot>, wanted: nat, run: Seq<EntryLocator>, k: int)
    requires
        0 <= k <= slots.len(),
        run.len() < wanted,
        is_free_run(slots, k - run.len(), run.len()),
        run == places(slots, k - run.len(), k),
    ensures
        match space::search(slots.skip(k), wanted, run) {
            space::Search::Found(locs) => exists|at: int|
                #[trigger] is_free_run(slots, at, wanted) && locs == places(
                    slots,
                    at,
                    at + wanted,
                ),
            space::Search::Short(last) => {
                let at = slots.len() - last.len();
                &&& last.len() < wanted
                &&& is_free_run(slots, at, last.len())
                &&& last == places(slots, at, slots.len() as int)
            },
        },
    decreases slots.len() - k,
{
    if k < slots.len() {
        let rest = slots.skip(k);
        assert(rest[0] == slots[k]);
        assert(rest.drop_first() =~= slots.skip(k + 1));
        if space::is_free(slots[k]) {
            let longer = run.push(slots[k].at);
            let at = k - run.len();
            assert(longer =~= places(slots, at, k + 1));
            assert(is_free_run(slots, at, longer.len()));
            if longer.len() != wanted {
                lemma_search(slots, wanted, longer, k + 1);
            }
        } else {
            assert(places(slots, k + 1, k + 1) =~= Seq::empty());
            lemma_search(slots, wanted, Seq::empty(), k + 1);
        }
    }
}

} // verus!
