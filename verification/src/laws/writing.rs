//! An entry set as it was written, in whatever slots.

use crate::bytes;
use crate::device;
use crate::device::{Media, SectorWrite};
use crate::directory::entry::{DecoderModel, EntryModel};
use crate::directory::slots::{EntryLocator, Slot};
use crate::error::Error;
use crate::fs::metadata;
use crate::fs::metadata::SetModel;
use crate::fs::names;
use crate::geometry::Geometry;
use crate::laws::entries;
use crate::mount::Volume;
use vstd::prelude::*;

verus! {

/// Whether two slots have no byte in common.
pub open spec fn is_apart(a: EntryLocator, b: EntryLocator) -> bool {
    a.lba != b.lba || a.offset + 32 <= b.offset || b.offset + 32 <= a.offset
}

/// Whether `locs` are slots within whole sectors, no two of which have a byte in
/// common.
pub open spec fn are_apart(g: Geometry, m: Media, locs: Seq<EntryLocator>) -> bool {
    &&& forall|i: int|
        0 <= i < locs.len() ==> metadata::fits(g, #[trigger] locs[i]) && m[locs[i].lba].len()
            == g.bytes_per_sector
    &&& forall|i: int, j: int|
        0 <= i < j < locs.len() ==> is_apart(#[trigger] locs[i], #[trigger] locs[j])
}

/// Whether byte `i` of sector `lba` lies in one of the slots `locs`.
pub open spec fn is_within(locs: Seq<EntryLocator>, lba: u64, i: int) -> bool {
    exists|k: int|
        0 <= k < locs.len() && (#[trigger] locs[k]).lba == lba && locs[k].offset <= i
            < locs[k].offset + 32
}

/// Whether two media differ in the slots `locs` alone.
pub open spec fn differs_within(m: Media, m2: Media, locs: Seq<EntryLocator>) -> bool {
    forall|lba: u64| #[trigger]
        m2[lba].len() == m[lba].len() && forall|i: int|
            0 <= i < m[lba].len() && !is_within(locs, lba, i) ==> #[trigger] m2[lba][i] == m[lba][i]
}

/// The slots `locs` with what they hold.
pub open spec fn held(m: Media, locs: Seq<EntryLocator>) -> Seq<Slot> {
    Seq::new(locs.len(), |i: int| Slot { at: locs[i], raw: metadata::entry_at(m, locs[i]) })
}

/// Writing within one slot.
pub proof fn lemma_slot_written(
    g: Geometry,
    m: Media,
    locs: Seq<EntryLocator>,
    k: int,
    from: int,
    part: Seq<u8>,
)
    requires
        are_apart(g, m, locs),
        0 <= k < locs.len(),
        0 <= from,
        from + part.len() <= 32,
    ensures
        ({
            let at = locs[k];
            let m2 = m.insert(at.lba, bytes::splice(m[at.lba], at.offset + from, part));
            &&& differs_within(m, m2, locs)
            &&& are_apart(g, m2, locs)
            &&& metadata::entry_at(m2, at) == bytes::splice(metadata::entry_at(m, at), from, part)
            &&& forall|j: int|
                0 <= j < locs.len() && j != k ==> metadata::entry_at(m2, #[trigger] locs[j])
                    == metadata::entry_at(m, locs[j])
        }),
{
    let at = locs[k];
    let m2 = m.insert(at.lba, bytes::splice(m[at.lba], at.offset + from, part));
    assert forall|lba: u64| #[trigger]
        m2[lba].len() == m[lba].len() && forall|i: int|
            0 <= i < m[lba].len() && !is_within(locs, lba, i) ==> #[trigger] m2[lba][i]
                == m[lba][i] by {
        assert forall|i: int| 0 <= i < m[lba].len() && !is_within(locs, lba, i) implies
            #[trigger] m2[lba][i] == m[lba][i] by {
            if lba == at.lba {
                assert(!(locs[k].offset <= i < locs[k].offset + 32));
            }
        }
    }
    assert(metadata::entry_at(m2, at) =~= bytes::splice(metadata::entry_at(m, at), from, part));
    assert forall|j: int| 0 <= j < locs.len() && j != k implies metadata::entry_at(
        m2,
        #[trigger] locs[j],
    ) == metadata::entry_at(m, locs[j]) by {
        assert(is_apart(locs[j], at));
        assert(metadata::entry_at(m2, locs[j]) =~= metadata::entry_at(m, locs[j]));
    }
}

/// One change after another.
pub proof fn lemma_differs_on(m1: Media, m2: Media, m3: Media, locs: Seq<EntryLocator>)
    requires
        differs_within(m1, m2, locs),
        differs_within(m2, m3, locs),
    ensures
        differs_within(m1, m3, locs),
{
    assert forall|lba: u64| #[trigger]
        m3[lba].len() == m1[lba].len() && forall|i: int|
            0 <= i < m1[lba].len() && !is_within(locs, lba, i) ==> #[trigger] m3[lba][i]
                == m1[lba][i] by {
        assert(m2[lba].len() == m1[lba].len());
        assert(m3[lba].len() == m2[lba].len());
        assert forall|i: int| 0 <= i < m1[lba].len() && !is_within(locs, lba, i) implies
            #[trigger] m3[lba][i] == m1[lba][i] by {
            assert(m2[lba][i] == m1[lba][i]);
        }
    }
}

/// Writing the entries of a set from number `i` on.
proof fn lemma_entries_written<E>(
    v: Volume,
    m: Media,
    free: u32,
    locs: Seq<EntryLocator>,
    s: SetModel,
    hash: u16,
    i: int,
)
    requires
        are_apart(v.geometry, m, locs),
        0 <= i <= locs.len(),
    ensures
        ({
            let plan = metadata::entries_plan::<E>(v, m, free, locs, s, hash, i);
            let m2 = plan.leaves(m);
            &&& plan.result == Ok::<(), Error<E>>(())
            &&& differs_within(m, m2, locs)
            &&& are_apart(v.geometry, m2, locs)
            &&& forall|k: int|
                i <= k < locs.len() ==> metadata::entry_at(m2, #[trigger] locs[k])
                    == metadata::set_entry(s, hash, k)
            &&& forall|k: int|
                0 <= k < i ==> metadata::entry_at(m2, #[trigger] locs[k]) == metadata::entry_at(
                    m,
                    locs[k],
                )
        }),
    decreases locs.len() - i,
{
    let g = v.geometry;
    let plan = metadata::entries_plan::<E>(v, m, free, locs, s, hash, i);
    if i == locs.len() {
        assert(plan.leaves(m) == m);
    } else {
        let at = locs[i];
        let raw = metadata::set_entry(s, hash, i);
        let data = bytes::splice(m[at.lba], at.offset as int, raw);
        let write = metadata::sector_plan::<E>(free, at.lba, data);
        let m1 = write.leaves(m);
        device::lemma_applied_one(m, SectorWrite { lba: at.lba, data });
        entries::lemma_entry_size(s, hash, i);
        lemma_slot_written(g, m, locs, i, 0, raw);
        assert(metadata::entry_at(m1, at) =~= raw);
        lemma_entries_written::<E>(v, m1, free, locs, s, hash, i + 1);
        let rest = metadata::entries_plan::<E>(v, m1, free, locs, s, hash, i + 1);
        assert(plan == write.and(rest));
        device::lemma_applied_concat(m, write.writes, rest.writes);
        lemma_differs_on(m, m1, plan.leaves(m), locs);
        assert forall|k: int| 0 <= k < i implies metadata::entry_at(
            plan.leaves(m),
            #[trigger] locs[k],
        ) == metadata::entry_at(m, locs[k]) by {
            assert(metadata::entry_at(m1, locs[k]) == metadata::entry_at(m, locs[k]));
        }
    }
}

/// The slots that a set was written into hold its entries.
pub proof fn lemma_set_written<E>(
    v: Volume,
    m: Media,
    free: u32,
    locs: Seq<EntryLocator>,
    s: SetModel,
    hash: u16,
)
    requires
        are_apart(v.geometry, m, locs),
        locs.len() == entries::entry_count(s),
        entries::is_writable(s),
        names::name_hash(v, m, s.name) == Some(hash),
    ensures
        ({
            let plan = metadata::write_set_plan::<E>(v, m, free, locs, s);
            let m2 = plan.leaves(m);
            &&& plan.result == Ok::<(), Error<E>>(())
            &&& held(m2, locs) == entries::set_slots(s, hash, locs)
            &&& differs_within(m, m2, locs)
        }),
{
    let g = v.geometry;
    let n = locs.len();
    let plan = metadata::write_set_plan::<E>(v, m, free, locs, s);
    let parts = metadata::entries_plan::<E>(v, m, free, locs, s, hash, 0);
    let m1 = parts.leaves(m);
    lemma_entries_written::<E>(v, m, free, locs, s, hash, 0);
    let at = locs[0];
    let sum = bytes::le16(metadata::new_sum(s, hash, n));
    let data = bytes::splice(m1[at.lba], at.offset + 2, sum);
    let seal = metadata::sector_plan::<E>(free, at.lba, data);
    device::lemma_applied_one(m1, SectorWrite { lba: at.lba, data });
    lemma_slot_written(g, m1, locs, 0, 2, sum);
    let m2 = seal.leaves(m1);
    assert(plan == parts.and(seal));
    device::lemma_applied_concat(m, parts.writes, seal.writes);
    lemma_differs_on(m, m1, m2, locs);
    assert forall|k: int| 0 <= k < n implies metadata::entry_at(m2, #[trigger] locs[k])
        == entries::sealed_entry(s, hash, n, k) by {
        assert(metadata::entry_at(m1, locs[k]) == metadata::set_entry(s, hash, k));
    }
    assert(held(m2, locs) =~= entries::set_slots(s, hash, locs));
}

/// An entry set that was written into whatever slots reads back: pushed in order
/// into a decoder between sets, what the slots hold is answered with the file or
/// directory that the set describes, by the last of them and no other. Nothing
/// outside the slots changes. It is written unless its name cannot be hashed. An
/// access time has no finer resolution than two seconds.
pub proof fn law_written_set_reads_back<E>(
    v: Volume,
    m: Media,
    free: u32,
    locs: Seq<EntryLocator>,
    s: SetModel,
    decoder: DecoderModel,
)
    requires
        are_apart(v.geometry, m, locs),
        locs.len() == entries::entry_count(s),
        entries::is_writable(s),
        decoder.idle(),
    ensures
        ({
            let plan = metadata::write_set_plan::<E>(v, m, free, locs, s);
            let m2 = plan.leaves(m);
            let pushes = held(m2, locs);
            if names::name_hash(v, m, s.name) is None {
                plan.result == Err::<(), Error<E>>(Error::Corrupt) && m2 == m
            } else {
                &&& plan.result == Ok::<(), Error<E>>(())
                &&& forall|k: nat|
                    k < locs.len() - 1 ==> #[trigger] entries::reply(decoder, pushes, k) == Some(
                        None::<EntryModel>,
                    )
                &&& entries::reply(decoder, pushes, (locs.len() - 1) as nat) == Some(
                    Some(entries::described(s, locs)),
                )
                &&& differs_within(m, m2, locs)
            }
        }),
{
    let plan = metadata::write_set_plan::<E>(v, m, free, locs, s);
    if let Some(hash) = names::name_hash(v, m, s.name) {
        lemma_set_written::<E>(v, m, free, locs, s, hash);
        entries::law_entry_set_reads_back(decoder, s, hash, locs);
    } else {
        assert(plan.leaves(m) == m);
    }
}

} // verus!
