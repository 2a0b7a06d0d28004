//! Renaming: what had one name is found under the other.

use crate::bytes;
use crate::device;
use crate::device::{Media, SectorWrite};
use crate::directory::codec;
use crate::directory::entry;
use crate::directory::entry::{DirectoryModel, EntryModel};
use crate::directory::slots::{EntryLocator, Slot};
use crate::error::Error;
use crate::fs::create;
use crate::fs::listing;
use crate::fs::listing::Listing;
use crate::fs::lookup;
use crate::fs::metadata;
use crate::fs::metadata::SetModel;
use crate::fs::names;
use crate::fs::paths;
use crate::fs::rename;
use crate::fs::space;
use crate::fs::walk;
use crate::laws::adding;
use crate::laws::allocating;
use crate::laws::appending;
use crate::laws::creating;
use crate::laws::decoding;
use crate::laws::directories;
use crate::laws::entries;
use crate::laws::extents;
use crate::laws::files;
use crate::laws::names as name_laws;
use crate::laws::placing;
use crate::laws::placing::Room;
use crate::laws::recording;
use crate::laws::regions;
use crate::laws::remounting;
use crate::laws::removing;
use crate::laws::reopening;
use crate::laws::sets;
use crate::laws::systems;
use crate::laws::trails;
use crate::mount::Volume;
use vstd::prelude::*;

verus! {

/// Whether the set `y` is the set `x` with the name `name`, its hash, and the
/// checksum `sum`.
pub open spec fn is_renamed(x: Seq<Slot>, y: Seq<Slot>, name: Seq<u16>, hash: u16, sum: u16) -> bool {
    &&& y.len() == x.len()
    &&& y[0] == (Slot { raw: bytes::splice(x[0].raw, 2, bytes::le16(sum)), ..x[0] })
    &&& y[1] == (Slot { raw: rename::announced(x[1].raw, 0, name, hash), ..x[1] })
    &&& forall|k: int|
        2 <= k < x.len() ==> #[trigger] y[k] == (Slot {
            raw: rename::named(x[k].raw, 0, name, 15 * (k - 2)),
            ..x[k]
        })
}

/// A stream extension that announces another name is the same in all else.
proof fn lemma_announced(raw: Seq<u8>, name: Seq<u16>, hash: u16)
    requires
        raw.len() == 32,
        entry::stream_ok(raw),
        1 <= name.len() <= 255,
    ensures
        ({
            let new = rename::announced(raw, 0, name, hash);
            &&& new.len() == 32
            &&& new[0] == raw[0]
            &&& new[1] == raw[1]
            &&& new[3] == name.len()
            &&& entry::stream_ok(new)
            &&& bytes::u64_at(new, 8) == bytes::u64_at(raw, 8)
            &&& bytes::u32_at(new, 20) == bytes::u32_at(raw, 20)
            &&& bytes::u64_at(new, 24) == bytes::u64_at(raw, 24)
        }),
{
    let new = rename::announced(raw, 0, name, hash);
    assert(forall|i: int| 6 <= i < 32 ==> #[trigger] new[i] == raw[i]);
    assert(bytes::u32_at(new, 8) == bytes::u32_at(raw, 8));
    assert(bytes::u32_at(new, 12) == bytes::u32_at(raw, 12));
    assert(bytes::u32_at(new, 20) == bytes::u32_at(raw, 20));
    assert(bytes::u32_at(new, 24) == bytes::u32_at(raw, 24));
    assert(bytes::u32_at(new, 28) == bytes::u32_at(raw, 28));
}

/// The units of a name entry that another name was written into.
proof fn lemma_named(raw: Seq<u8>, name: Seq<u16>, begin: int)
    requires
        raw.len() == 32,
        0 <= begin,
    ensures
        ({
            let new = rename::named(raw, 0, name, begin);
            &&& new.len() == 32
            &&& new[0] == 0xc1
            &&& entry::name_units(new) == entry::name_units(metadata::name_entry(name, begin))
        }),
{
    let new = rename::named(raw, 0, name, begin);
    let plain = metadata::name_entry(name, begin);
    assert(forall|i: int| 2 <= i < 32 ==> #[trigger] new[i] == plain[i]);
    assert(entry::name_units(new) =~= entry::name_units(plain));
}

/// How many units of a name of `len` units `j` entries of its set hold.
spec fn units_in(len: nat, j: nat) -> int {
    if 15 * (j - 2) < len {
        15 * (j - 2)
    } else {
        len as int
    }
}

/// A renamed set goes through the same states, but for the name.
proof fn lemma_renamed_states(
    x: Seq<Slot>,
    y: Seq<Slot>,
    name: Seq<u16>,
    hash: u16,
    sum: u16,
    j: nat,
)
    requires
        sets::is_shaped(x),
        sets::is_shaped(y),
        is_renamed(x, y, name, hash, sum),
        1 <= name.len() <= 255,
        create::set_len(name) == x.len(),
        2 <= j <= x.len(),
    ensures
        sets::decoded(y, j).entry == (EntryModel {
            name: name.take(units_in(name.len(), j)),
            ..sets::decoded(x, j).entry
        }),
    decreases j,
{
    assert(x[0].raw.len() == 32 && x[1].raw.len() == 32);
    lemma_announced(x[1].raw, name, hash);
    if j == 2 {
        recording::lemma_primary_same(x[0], y[0], sum);
        assert(name.take(0) =~= Seq::empty());
    } else {
        let p = (j - 1) as nat;
        let raw = x[p as int].raw;
        let begin = 15 * (p - 2);
        lemma_renamed_states(x, y, name, hash, sum, p);
        sets::lemma_decoded(y, p);
        assert(raw.len() == 32);
        lemma_named(raw, name, begin);
        assert(y[p as int].raw == rename::named(raw, 0, name, begin));
        let before = sets::decoded(y, p);
        let state = sets::decoded(y, j);
        assert(before.name_len == name.len());
        assert(before.written == begin);
        assert(begin < name.len());
        let room = if name.len() - begin < 15 {
            name.len() - begin
        } else {
            15
        };
        assert(state.entry.name =~= name.take(begin + room)) by {
            assert forall|i: int| 0 <= i < begin + room implies state.entry.name[i] == name[i] by {
                if i >= begin {
                    entries::lemma_name_units(name, begin, i - begin);
                }
            }
        }
        assert(units_in(name.len(), j) == begin + room);
    }
}

/// A renamed set, with the checksum of its entries, is a set, and describes the
/// same under the new name.
proof fn lemma_renamed_set(x: Seq<Slot>, y: Seq<Slot>, name: Seq<u16>, hash: u16, sum: u16)
    requires
        sets::is_set(x),
        is_renamed(x, y, name, hash, sum),
        1 <= name.len() <= 255,
        create::set_len(name) == x.len(),
        sum == sets::run_sum(y, y.len()),
    ensures
        sets::is_set(y),
        sets::entry_of(y) == (EntryModel { name, ..sets::entry_of(x) }),
{
    assert(x[0].raw.len() == 32 && x[1].raw.len() == 32);
    lemma_announced(x[1].raw, name, hash);
    recording::lemma_primary_same(x[0], y[0], sum);
    assert(sets::is_shaped(y)) by {
        assert forall|i: int| 0 <= i < y.len() implies (#[trigger] y[i]).raw.len() == 32 by {
            assert(x[i].raw.len() == 32);
        }
        assert forall|i: int| 2 <= i < y.len() implies (#[trigger] y[i]).raw[0] == 0xc1 by {
            assert(x[i].raw.len() == 32);
            lemma_named(x[i].raw, name, 15 * (i - 2));
        }
    }
    lemma_renamed_states(x, y, name, hash, sum, x.len());
    assert(name.take(name.len() as int) =~= name);
}

/// A set's name has as many units as its entries have room for.
pub proof fn lemma_name_fits(x: Seq<Slot>)
    requires
        sets::is_set(x),
    ensures
        create::set_len(sets::entry_of(x).name) == x.len(),
{
    lemma_name_grows(x, x.len());
}

/// How many units of its name a set has after `j` entries.
proof fn lemma_name_grows(x: Seq<Slot>, j: nat)
    requires
        sets::is_shaped(x),
        2 <= j <= x.len(),
    ensures
        sets::decoded(x, j).entry.name.len() == units_in(x[1].raw[3] as nat, j),
    decreases j,
{
    if j > 2 {
        lemma_name_grows(x, (j - 1) as nat);
        sets::lemma_decoded(x, (j - 1) as nat);
    }
}

/// Access times are read without hundredths of a second.
proof fn lemma_access_time(x: Seq<Slot>, j: nat)
    requires
        sets::is_shaped(x),
        2 <= j <= x.len(),
    ensures
        sets::decoded(x, j).entry.accessed.ten_millis == 0,
    decreases j,
{
    if j > 2 {
        lemma_access_time(x, (j - 1) as nat);
    }
}

/// Writing a name into the name entries of a set from number `i` on.
proof fn lemma_names_written<E>(
    v: Volume,
    m: Media,
    free: u32,
    locs: Seq<EntryLocator>,
    name: Seq<u16>,
    i: int,
)
    requires
        regions::sound(v, m, free),
        directories::are_places(v, m, locs),
        2 <= i <= locs.len(),
    ensures
        ({
            let plan = rename::names_plan::<E>(v, m, free, locs, name, i);
            let m2 = plan.leaves(m);
            &&& plan.result == Ok::<(), Error<E>>(())
            &&& plan.free == free
            &&& directories::edits(v, m, m2, free, locs)
            &&& forall|k: int|
                i <= k < locs.len() ==> metadata::entry_at(m2, #[trigger] locs[k])
                    == rename::named(metadata::entry_at(m, locs[k]), 0, name, 15 * (k - 2))
            &&& forall|k: int|
                0 <= k < i ==> metadata::entry_at(m2, #[trigger] locs[k]) == metadata::entry_at(
                    m,
                    locs[k],
                )
        }),
    decreases locs.len() - i,
{
    let g = v.geometry;
    let plan = rename::names_plan::<E>(v, m, free, locs, name, i);
    if i == locs.len() {
        assert(plan.leaves(m) == m);
        directories::lemma_no_edit(v, m, free, locs);
    } else {
        let at = locs[i];
        let off = at.offset as int;
        let data = rename::named(m[at.lba], off, name, 15 * (i - 2));
        let write = metadata::sector_plan::<E>(free, at.lba, data);
        let m1 = write.leaves(m);
        device::lemma_applied_one(m, SectorWrite { lba: at.lba, data });
        appending::lemma_home_length(v, m, free, at.lba, directories::home(g, at.lba));
        directories::lemma_entry_written(v, m, free, at, data);
        assert(m1 == m.insert(at.lba, data));
        assert(metadata::entry_at(m1, at) =~= rename::named(
            metadata::entry_at(m, at),
            0,
            name,
            15 * (i - 2),
        ));
        directories::lemma_places_kept(v, m, m1, free, locs, seq![at]);
        lemma_names_written::<E>(v, m1, free, locs, name, i + 1);
        let rest = rename::names_plan::<E>(v, m1, free, locs, name, i + 1);
        assert(plan == write.and(rest));
        device::lemma_applied_concat(m, write.writes, rest.writes);
        let m2 = rest.leaves(m1);
        assert(seq![at][0] == at);
        assert(locs.contains(at));
        directories::lemma_edits_on(v, m, m1, m2, free, seq![at], locs, locs);
        assert forall|k: int| 0 <= k < locs.len() && k != i implies metadata::entry_at(
            m1,
            #[trigger] locs[k],
        ) == metadata::entry_at(m, locs[k]) by {
            if k < i {
                assert(locs[k] != locs[i]);
            } else {
                assert(locs[i] != locs[k]);
            }
            assert(!seq![at].contains(locs[k]));
        }
    }
}

/// Recording the checksum of a set.
proof fn lemma_sealed<E>(v: Volume, m: Media, free: u32, locs: Seq<EntryLocator>)
    requires
        regions::sound(v, m, free),
        directories::are_places(v, m, locs),
        locs.len() > 0,
    ensures
        ({
            let plan = metadata::checksum_plan::<E>(v, m, free, locs[0], locs);
            let m2 = plan.leaves(m);
            let sum = metadata::set_sum(v.geometry, m, locs, locs.len());
            &&& plan.result == Ok::<(), Error<E>>(())
            &&& plan.free == free
            &&& directories::edits(v, m, m2, free, locs)
            &&& sum is Some
            &&& metadata::entry_at(m2, locs[0]) == bytes::splice(
                metadata::entry_at(m, locs[0]),
                2,
                bytes::le16(sum->0),
            )
            &&& forall|k: int|
                1 <= k < locs.len() ==> metadata::entry_at(m2, #[trigger] locs[k])
                    == metadata::entry_at(m, locs[k])
            &&& forall|y: Seq<Slot>|
                y.len() == locs.len() && (forall|k: int|
                    0 <= k < y.len() ==> (#[trigger] y[k]).raw == metadata::entry_at(
                        m2,
                        locs[k],
                    )) ==> sum == Some(#[trigger] sets::run_sum(y, y.len()))
        }),
{
    let g = v.geometry;
    let n = locs.len();
    let at = locs[0];
    appending::lemma_summable(g, m, locs, n);
    let sum = metadata::set_sum(g, m, locs, n)->0;
    let data = bytes::splice(m[at.lba], at.offset + 2, bytes::le16(sum));
    let plan = metadata::checksum_plan::<E>(v, m, free, at, locs);
    assert(plan == metadata::sector_plan::<E>(free, at.lba, data));
    device::lemma_applied_one(m, SectorWrite { lba: at.lba, data });
    appending::lemma_home_length(v, m, free, at.lba, directories::home(g, at.lba));
    directories::lemma_entry_written(v, m, free, at, data);
    let m2 = m.insert(at.lba, data);
    assert(plan.leaves(m) == m2);
    assert(metadata::entry_at(m2, at) =~= bytes::splice(
        metadata::entry_at(m, at),
        2,
        bytes::le16(sum),
    ));
    assert(seq![at][0] == at);
    assert(locs.contains(at));
    directories::lemma_no_edit(v, m2, free, locs);
    directories::lemma_edits_on(v, m, m2, m2, free, seq![at], locs, locs);
    assert forall|k: int| 1 <= k < n implies metadata::entry_at(m2, #[trigger] locs[k])
        == metadata::entry_at(m, locs[k]) by {
        assert(locs[0] != locs[k]);
        assert(!seq![at].contains(locs[k]));
    }
    assert forall|y: Seq<Slot>|
        y.len() == n && (forall|k: int|
            0 <= k < y.len() ==> (#[trigger] y[k]).raw == metadata::entry_at(
                m2,
                locs[k],
            )) implies Some(sum) == Some(#[trigger] sets::run_sum(y, y.len())) by {
        let x = Seq::new(n, |k: int| Slot { at: locs[k], raw: metadata::entry_at(m, locs[k]) });
        recording::lemma_media_sum(g, m, x, locs, n);
        assert(y[0].raw == metadata::entry_at(m2, locs[0]));
        assert(x[0].raw.len() == 32);
        assert(codec::counted(y[0].raw, true) =~= codec::counted(x[0].raw, true));
        assert forall|k: int| 1 <= k < n implies (#[trigger] y[k]).raw == x[k].raw by {
            assert(metadata::entry_at(m2, locs[k]) == metadata::entry_at(m, locs[k]));
        }
        recording::lemma_sum_same(x, y, n);
    }
}

/// Writing another name over that of a set edits the entries of the set.
proof fn lemma_in_place_edits<E>(
    v: Volume,
    m: Media,
    free: u32,
    e: EntryModel,
    name: Seq<u16>,
    hash: u16,
)
    requires
        regions::sound(v, m, free),
        directories::are_places(v, m, e.locs),
        e.locs.len() >= 3,
        e.primary == e.locs[0],
        e.stream == e.locs[1],
        names::name_hash(v, m, name) == Some(hash),
    ensures
        ({
            let plan = rename::rename_in_place_plan::<E>(v, m, free, e, name);
            let m2 = plan.leaves(m);
            let locs = e.locs;
            &&& plan.result == Ok::<(), Error<E>>(())
            &&& plan.free == free
            &&& directories::edits(v, m, m2, free, locs)
            &&& forall|x: Seq<Slot>, y: Seq<Slot>|
                x.len() == locs.len() && y.len() == locs.len() && (forall|k: int|
                    0 <= k < x.len() ==> (#[trigger] x[k]).raw == metadata::entry_at(m, locs[k])
                        && x[k].at == locs[k]) && (forall|k: int|
                    0 <= k < y.len() ==> (#[trigger] y[k]).raw == metadata::entry_at(m2, locs[k])
                        && y[k].at == locs[k]) ==> #[trigger] is_renamed(
                    x,
                    y,
                    name,
                    hash,
                    sets::run_sum(y, y.len()),
                )
        }),
{
    let g = v.geometry;
    let locs = e.locs;
    let n = locs.len();
    let at = locs[1];
    let off = at.offset as int;
    let data = rename::announced(m[at.lba], off, name, hash);
    let announce = metadata::sector_plan::<E>(free, at.lba, data);
    let m1 = announce.leaves(m);
    assert(metadata::fits(g, at));
    device::lemma_applied_one(m, SectorWrite { lba: at.lba, data });
    appending::lemma_home_length(v, m, free, at.lba, directories::home(g, at.lba));
    directories::lemma_entry_written(v, m, free, at, data);
    assert(m1 == m.insert(at.lba, data));
    assert(metadata::entry_at(m1, at) =~= rename::announced(
        metadata::entry_at(m, at),
        0,
        name,
        hash,
    ));
    directories::lemma_places_kept(v, m, m1, free, locs, seq![at]);
    assert forall|k: int| 0 <= k < n && k != 1 implies metadata::entry_at(m1, #[trigger] locs[k])
        == metadata::entry_at(m, locs[k]) by {
        if k < 1 {
            assert(locs[k] != locs[1]);
        } else {
            assert(locs[1] != locs[k]);
        }
        assert(!seq![at].contains(locs[k]));
    }
    lemma_names_written::<E>(v, m1, free, locs, name, 2);
    let write = rename::names_plan::<E>(v, m1, free, locs, name, 2);
    let m2 = write.leaves(m1);
    directories::lemma_places_kept(v, m1, m2, free, locs, locs);
    lemma_sealed::<E>(v, m2, free, locs);
    let seal = metadata::checksum_plan::<E>(v, m2, free, locs[0], locs);
    let m3 = seal.leaves(m2);
    let plan = rename::rename_in_place_plan::<E>(v, m, free, e, name);
    assert(plan == announce.and(write.and(seal)));
    device::lemma_applied_concat(m, announce.writes, write.writes + seal.writes);
    device::lemma_applied_concat(m1, write.writes, seal.writes);
    assert(plan.leaves(m) == m3);
    assert(seq![at][0] == at);
    assert(locs.contains(at));
    directories::lemma_edits_on(v, m, m1, m2, free, seq![at], locs, locs);
    directories::lemma_edits_on(v, m, m2, m3, free, locs, locs, locs);
    assert forall|x: Seq<Slot>, y: Seq<Slot>|
        x.len() == n && y.len() == n && (forall|k: int|
            0 <= k < x.len() ==> (#[trigger] x[k]).raw == metadata::entry_at(m, locs[k])
                && x[k].at == locs[k]) && (forall|k: int|
            0 <= k < y.len() ==> (#[trigger] y[k]).raw == metadata::entry_at(m3, locs[k])
                && y[k].at == locs[k]) implies #[trigger] is_renamed(
        x,
        y,
        name,
        hash,
        sets::run_sum(y, y.len()),
    ) by {
        assert(x[0].at == y[0].at && x[1].at == y[1].at);
        assert(metadata::entry_at(m2, locs[0]) == metadata::entry_at(m, locs[0]));
        assert(metadata::entry_at(m3, locs[1]) == metadata::entry_at(m1, locs[1]));
        assert forall|k: int| 2 <= k < n implies #[trigger] y[k] == (Slot {
            raw: rename::named(x[k].raw, 0, name, 15 * (k - 2)),
            ..x[k]
        }) by {
            assert(x[k].raw == metadata::entry_at(m, locs[k]));
            assert(metadata::entry_at(m1, locs[k]) == metadata::entry_at(m, locs[k]));
            assert(metadata::entry_at(m3, locs[k]) == metadata::entry_at(m2, locs[k]));
        }
    }
}

/// What a directory lists once an entry of it was renamed in place.
pub proof fn lemma_renamed_in_place<E>(
    v: Volume,
    m: Media,
    free: u32,
    d: DirectoryModel,
    i: int,
    name: Seq<u16>,
    hash: u16,
)
    requires
        regions::sound(v, m, free),
        directories::dir_sound(v, m, d),
        0 <= i < listing::listing(v.geometry, m, d).entries.len(),
        1 <= name.len() <= 255,
        create::set_len(name) == listing::listing(v.geometry, m, d).entries[i].locs.len(),
        names::name_hash(v, m, name) == Some(hash),
    ensures
        ({
            let g = v.geometry;
            let before = listing::listing(g, m, d);
            let e = before.entries[i];
            let plan = rename::rename_in_place_plan::<E>(v, m, free, e, name);
            let m2 = plan.leaves(m);
            let after = listing::listing(g, m2, d);
            &&& plan.result == Ok::<(), Error<E>>(())
            &&& plan.free == free
            &&& directories::edits(v, m, m2, free, e.locs)
            &&& directories::dir_sound(v, m2, d)
            &&& after.entries == before.entries.update(i, EntryModel { name, ..e })
            &&& after.sound == before.sound
        }),
{
    let g = v.geometry;
    let a = directories::slots_of(g, m, d);
    let end = walk::directory_slots(g, m, d).end;
    let before = listing::listing(g, m, d);
    let e = before.entries[i];
    reopening::lemma_slot_sizes(v, m, free, d);
    let (p, q) = sets::lemma_set_of(a, end, i);
    let x = a.subrange(p, q);
    let locs = decoding::places(a, p, q);
    let n = locs.len();
    sets::lemma_set_completes(x);
    assert(x[0] == a[p] && x[1] == a[p + 1]);
    assert(locs[0] == a[p].at && locs[1] == a[p + 1].at);
    adding::lemma_run_places(v, m, d, p, q);
    lemma_in_place_edits::<E>(v, m, free, e, name, hash);
    let m2 = rename::rename_in_place_plan::<E>(v, m, free, e, name).leaves(m);
    adding::lemma_slots_edited(v, m, m2, free, d, locs);
    adding::lemma_spans_kept(v, m, m2, free, d, locs);
    let b = directories::slots_of(g, m2, d);
    let y = b.subrange(p, q);
    assert forall|k: int| 0 <= k < n implies (#[trigger] y[k]).raw == metadata::entry_at(
        m2,
        locs[k],
    ) && y[k].at == locs[k] && x[k].raw == metadata::entry_at(m, locs[k]) && x[k].at == locs[k] by {
        assert(y[k] == b[p + k]);
        assert(x[k] == a[p + k]);
        assert(locs[k] == a[p + k].at);
        adding::lemma_slot(v, m, d, p + k);
    }
    assert forall|k: int| 0 <= k < n implies (#[trigger] x[k]).raw == metadata::entry_at(m, locs[k])
        && x[k].at == locs[k] by {
        assert(y[k].at == locs[k]);
    }
    let sum = sets::run_sum(y, y.len());
    assert(is_renamed(x, y, name, hash, sum));
    lemma_renamed_set(x, y, name, hash, sum);
    assert(sets::differ_within(a, b, p, q)) by {
        assert forall|k: int| 0 <= k < a.len() && !(p <= k < q) implies #[trigger] b[k] == a[k] by {
            assert(!locs.contains(a[k].at)) by {
                if locs.contains(a[k].at) {
                    let j = choose|j: int| 0 <= j < locs.len() && locs[j] == a[k].at;
                    adding::lemma_slots_apart(v, m, d, p + j, k);
                }
            }
        }
    }
    sets::lemma_set_rewritten(a, b, end, i, p, q);
}

/// Renaming in place leaves the system entries alone.
proof fn lemma_in_place_kept<E>(
    v: Volume,
    m: Media,
    free: u32,
    d: DirectoryModel,
    i: int,
    name: Seq<u16>,
    hash: u16,
)
    requires
        regions::sound(v, m, free),
        directories::dir_sound(v, m, d),
        directories::dir_housed(v, m, entry::root_model(v.geometry)),
        0 <= i < listing::listing(v.geometry, m, d).entries.len(),
        names::name_hash(v, m, name) == Some(hash),
    ensures
        ({
            let e = listing::listing(v.geometry, m, d).entries[i];
            let plan = rename::rename_in_place_plan::<E>(v, m, free, e, name);
            systems::is_kept(v.geometry, m, plan.leaves(m))
        }),
{
    let g = v.geometry;
    let e = listing::listing(g, m, d).entries[i];
    let locs = e.locs;
    reopening::lemma_entry_places(v, m, free, d, i);
    systems::lemma_set_in_use(v, m, free, d, i);
    lemma_in_place_edits::<E>(v, m, free, e, name, hash);
    let m2 = rename::rename_in_place_plan::<E>(v, m, free, e, name).leaves(m);
    let x = Seq::new(
        locs.len(),
        |k: int| Slot { at: locs[k], raw: metadata::entry_at(m, locs[k]) },
    );
    let y = Seq::new(
        locs.len(),
        |k: int| Slot { at: locs[k], raw: metadata::entry_at(m2, locs[k]) },
    );
    assert(is_renamed(x, y, name, hash, sets::run_sum(y, y.len())));
    assert forall|k: int| 0 <= k < locs.len() implies systems::is_passed(
        systems::kind_at(m2, #[trigger] locs[k]),
    ) by {
        assert(directories::is_housed(v, m, locs[k].lba));
        appending::lemma_home_length(v, m, free, locs[k].lba, directories::home(g, locs[k].lba));
        assert(x[k].raw.len() == 32);
        assert(y[k].raw == metadata::entry_at(m2, locs[k]));
        if k >= 2 {
            assert(y[k].raw == rename::named(x[k].raw, 0, name, 15 * (k - 2)));
        }
    }
    systems::lemma_kept_edited(v, m, m2, free, locs);
}

/// Whether `b` lists `new` as number `p`, and otherwise what `a` does but for
/// its number `i`.
pub open spec fn is_moved(a: Listing, b: Listing, i: int, new: EntryModel, p: int) -> bool {
    &&& b.sound
    &&& 0 <= p < b.entries.len()
    &&& b.entries[p] == new
    &&& b.entries.remove(p) == a.entries.remove(i)
}

/// Whether `e` is listed in `a` other than as number `i`.
pub open spec fn is_other(a: Listing, i: int, e: EntryModel) -> bool {
    exists|k: int| 0 <= k < a.entries.len() && k != i && #[trigger] a.entries[k] == e
}

/// What else is listed once an entry has moved was listed before.
proof fn lemma_others(a: Listing, b: Listing, i: int, new: EntryModel, p: int, j: int)
    requires
        is_moved(a, b, i, new, p),
        0 <= i < a.entries.len(),
        0 <= j < b.entries.len(),
        j != p,
    ensures
        is_other(a, i, b.entries[j]),
{
    let k = if j < p {
        j
    } else {
        j - 1
    };
    let before = if k < i {
        k
    } else {
        k + 1
    };
    assert(b.entries.remove(p).len() == b.entries.len() - 1);
    assert(b.entries.remove(p)[k] == b.entries[j]);
    assert(a.entries.remove(i)[k] == a.entries[before]);
}

/// What a listing finds under the new and the old name once an entry has moved.
proof fn lemma_names_moved(
    v: Volume,
    m: Media,
    m2: Media,
    a: Listing,
    b: Listing,
    i: int,
    new: EntryModel,
    p: int,
    old: Seq<u16>,
)
    requires
        is_moved(a, b, i, new, p),
        0 <= i < a.entries.len(),
        directories::same_names(v, m, m2),
        names::name_hash(v, m, new.name) is Some,
        removing::is_only(v, m, a, i, new.name),
        removing::is_only(v, m, a, i, old),
    ensures
        listing::find_from(v, m2, b, new.name, 0) == Some(Some(new)),
        names::same_name(v, m, new.name, old) == Some(false) ==> listing::find_from(
            v,
            m2,
            b,
            old,
            0,
        ) == Some(None::<EntryModel>),
{
    directories::lemma_hash_kept(v, m, m2, new.name);
    name_laws::law_hashed_name_matches_itself(v, m2, new.name);
    assert forall|j: int| 0 <= j < b.entries.len() && j != p implies names::same_name(
        v,
        m2,
        (#[trigger] b.entries[j]).name,
        new.name,
    ) == Some(false) && names::same_name(v, m2, b.entries[j].name, old) == Some(false) by {
        let e = b.entries[j];
        lemma_others(a, b, i, new, p, j);
        let k = choose|k: int| 0 <= k < a.entries.len() && k != i && #[trigger] a.entries[k] == e;
        assert(names::same_name(v, m, a.entries[k].name, new.name) == Some(false));
        assert(names::same_name(v, m, a.entries[k].name, old) == Some(false));
        directories::lemma_matches_kept(v, m, m2, e.name, new.name);
        directories::lemma_matches_kept(v, m, m2, e.name, old);
    }
    adding::lemma_found_at(v, m2, b, new.name, 0, p);
    if names::same_name(v, m, new.name, old) == Some(false) {
        directories::lemma_matches_kept(v, m, m2, new.name, old);
        assert forall|j: int| 0 <= j < b.entries.len() implies names::same_name(
            v,
            m2,
            (#[trigger] b.entries[j]).name,
            old,
        ) == Some(false) by {
            if j == p {
                assert(b.entries[j] == new);
            }
        }
        removing::lemma_nothing_found(v, m2, b, old, 0);
    }
}

/// What is true of a directory in which an entry was renamed.
pub open spec fn has_renamed<E>(
    v: Volume,
    m: Media,
    m2: Media,
    free2: u32,
    above: Seq<Seq<char>>,
    d: DirectoryModel,
    d2: DirectoryModel,
    i: int,
    new: EntryModel,
    p: int,
) -> bool {
    let g = v.geometry;
    &&& exists|n: int| #[trigger] placing::is_dir_at::<E>(v, m2, above, d2, n)
    &&& directories::same_names(v, m, m2)
    &&& creating::is_changed_within(v, m, m2, free2, d, d2)
    &&& systems::is_kept(g, m, m2)
    &&& is_moved(
        listing::listing(g, m, d),
        listing::listing(g, m2, d2),
        i,
        new,
        p,
    )
}

/// Whether two entries describe the same stream, but for where their entry sets
/// lie and what they are called.
pub open spec fn same_stream(a: EntryModel, b: EntryModel) -> bool {
    &&& b.is_directory == a.is_directory
    &&& b.first_cluster == a.first_cluster
    &&& b.data_length == a.data_length
    &&& b.valid_length == a.valid_length
    &&& b.no_fat_chain == a.no_fat_chain
    &&& b.created == a.created
    &&& b.modified == a.modified
    &&& b.accessed == a.accessed
}

/// A directory that a path leads to lists soundly.
proof fn lemma_dir_lists<E>(
    v: Volume,
    m: Media,
    above: Seq<Seq<char>>,
    d: DirectoryModel,
    n: int,
)
    requires
        regions::apart(v.geometry),
        placing::is_dir_at::<E>(v, m, above, d, n),
    ensures
        listing::listing(v.geometry, m, d).sound,
        directories::dir_sound(v, m, d),
{
    let g = v.geometry;
    extents::lemma_extent_housed(v, m, d, n);
    sets::lemma_listing_completed(
        directories::slots_of(g, m, d),
        walk::directory_slots(g, m, d).end,
    );
}

/// Renaming in place, in the directory that a path leads to.
proof fn lemma_in_place_at<E>(
    v: Volume,
    m: Media,
    free: u32,
    above: Seq<Seq<char>>,
    d: DirectoryModel,
    n: int,
    i: int,
    name: Seq<u16>,
    hash: u16,
)
    requires
        regions::sound(v, m, free),
        placing::is_dir_at::<E>(v, m, above, d, n),
        0 <= i < listing::listing(v.geometry, m, d).entries.len(),
        1 <= name.len() <= 255,
        create::set_len(name) == listing::listing(v.geometry, m, d).entries[i].locs.len(),
        names::name_hash(v, m, name) == Some(hash),
    ensures
        ({
            let e = listing::listing(v.geometry, m, d).entries[i];
            let plan = rename::rename_in_place_plan::<E>(v, m, free, e, name);
            let new = EntryModel { name, ..e };
            &&& plan.result == Ok::<(), Error<E>>(())
            &&& plan.free == free
            &&& has_renamed::<E>(v, m, plan.leaves(m), free, above, d, d, i, new, i)
        }),
{
    let g = v.geometry;
    let list = listing::listing(g, m, d);
    let e = list.entries[i];
    let new = EntryModel { name, ..e };
    lemma_dir_lists::<E>(v, m, above, d, n);
    lemma_renamed_in_place::<E>(v, m, free, d, i, name, hash);
    creating::lemma_reached_root::<E>(v, m, above, d, n);
    lemma_in_place_kept::<E>(v, m, free, d, i, name, hash);
    let m2 = rename::rename_in_place_plan::<E>(v, m, free, e, name).leaves(m);
    reopening::lemma_entry_places(v, m, free, d, i);
    creating::lemma_reaches_edited::<E>(v, m, m2, free, above, d, n, e.locs);
    assert(placing::is_dir_at::<E>(v, m2, above, d, n));
    let homes = directories::homes(g, m2, d);
    files::lemma_wider(
        v,
        m,
        m2,
        free,
        directories::homes_of(g, e.locs),
        homes.union(directories::homes_of(g, d.locs)),
    );
    let after = listing::listing(g, m2, d);
    assert(after.entries.remove(i) =~= list.entries.remove(i));
}

/// Writing the entry set with the new name, once there is room for it.
proof fn lemma_replacement_written<E>(
    v: Volume,
    m: Media,
    m1: Media,
    free1: u32,
    above: Seq<Seq<char>>,
    d: DirectoryModel,
    s: SetModel,
    hash: u16,
    r: Room,
) -> (at: int)
    requires
        regions::sound(v, m1, free1),
        placing::has_room::<E>(v, m, m1, free1, above, d, create::set_len(s.name), r),
        entries::is_writable(s),
        names::name_hash(v, m, s.name) == Some(hash),
        listing::child(v, m, d, s.name) == Some(None::<EntryModel>),
    ensures
        ({
            let g = v.geometry;
            let locs = decoding::places(r.slots, r.at, r.at + create::set_len(s.name));
            let write = metadata::write_set_plan::<E>(v, m1, free1, locs, s);
            let m2 = write.leaves(m1);
            &&& write.result == Ok::<(), Error<E>>(())
            &&& write.free == free1
            &&& regions::sound(v, m2, free1)
            &&& placing::is_dir_at::<E>(v, m2, above, r.dir, r.count)
            &&& creating::is_changed_within(v, m, m2, free1, d, r.dir)
            &&& directories::same_names(v, m, m2)
            &&& systems::is_kept(g, m, m2)
            &&& adding::is_listed(
                listing::listing(g, m, d),
                listing::listing(g, m2, r.dir),
                entries::described(s, locs),
                at,
            )
        }),
{
    let g = v.geometry;
    let list = listing::listing(g, m, d);
    let locs = decoding::places(r.slots, r.at, r.at + create::set_len(s.name));
    let new = entries::described(s, locs);
    directories::lemma_hash_kept(v, m, m1, s.name);
    trails::lemma_find_kept(v, m, m1, list, s.name, 0);
    creating::lemma_entered::<E>(v, m1, free1, above, r, s, hash);
    let m2 = metadata::write_set_plan::<E>(v, m1, free1, locs, s).leaves(m1);
    creating::lemma_changed_within::<E>(
        v,
        m,
        m1,
        m2,
        free1,
        above,
        d,
        create::set_len(s.name),
        r,
        s,
        locs,
    );
    placing::lemma_same_names_on(v, m, m1, m2);
    systems::lemma_kept_on(g, m, m1, m2);
    choose|at: int|
        #[trigger] adding::is_listed(list, listing::listing(g, m2, r.dir), new, at)
}

/// Retiring the entry set with the old name, once that with the new one is
/// listed.
proof fn lemma_replaced_retired<E>(
    v: Volume,
    m: Media,
    m2: Media,
    free: u32,
    above: Seq<Seq<char>>,
    d: DirectoryModel,
    d2: DirectoryModel,
    n: int,
    i: int,
    new: EntryModel,
    at: int,
) -> (p: int)
    requires
        regions::sound(v, m2, free),
        placing::is_dir_at::<E>(v, m2, above, d2, n),
        creating::is_changed_within(v, m, m2, free, d, d2),
        directories::same_names(v, m, m2),
        systems::is_kept(v.geometry, m, m2),
        0 <= i < listing::listing(v.geometry, m, d).entries.len(),
        adding::is_listed(
            listing::listing(v.geometry, m, d),
            listing::listing(v.geometry, m2, d2),
            new,
            at,
        ),
    ensures
        ({
            let e = listing::listing(v.geometry, m, d).entries[i];
            let retire = metadata::retire_plan::<E>(v, m2, free, e.locs, 0);
            &&& retire.result == Ok::<(), Error<E>>(())
            &&& retire.free == free
            &&& has_renamed::<E>(v, m, retire.leaves(m2), free, above, d, d2, i, new, p)
        }),
{
    let g = v.geometry;
    let list = listing::listing(g, m, d);
    let e = list.entries[i];
    let two = listing::listing(g, m2, d2);
    let i2 = if i < at {
        i
    } else {
        i + 1
    };
    assert(two.entries[i2] == e);
    lemma_retired_at::<E>(v, m, m2, free, above, d, d2, n, i2);
    let m3 = metadata::retire_plan::<E>(v, m2, free, e.locs, 0).leaves(m2);
    let three = listing::listing(g, m3, d2);
    let p = if i2 < at {
        at - 1
    } else {
        at
    };
    lemma_moved(list, two, three, i, i2, new, at, p);
    p
}

/// Replacing an entry set by one with another name, once there is room for it.
proof fn lemma_replaced_at<E>(
    v: Volume,
    m: Media,
    m1: Media,
    free1: u32,
    above: Seq<Seq<char>>,
    d: DirectoryModel,
    i: int,
    name: Seq<u16>,
    hash: u16,
    r: Room,
) -> (p: int)
    requires
        regions::sound(v, m1, free1),
        placing::has_room::<E>(v, m, m1, free1, above, d, create::set_len(name), r),
        0 <= i < listing::listing(v.geometry, m, d).entries.len(),
        listing::listing(v.geometry, m, d).sound,
        1 <= name.len() <= 255,
        names::name_hash(v, m, name) == Some(hash),
        listing::child(v, m, d, name) == Some(None::<EntryModel>),
        ({
            let e = listing::listing(v.geometry, m, d).entries[i];
            &&& e.valid_length <= e.data_length
            &&& e.data_length == 0 || e.first_cluster >= 2
        }),
    ensures
        ({
            let e = listing::listing(v.geometry, m, d).entries[i];
            let s = rename::renamed_set(e, name);
            let locs = decoding::places(r.slots, r.at, r.at + create::set_len(name));
            let write = metadata::write_set_plan::<E>(v, m1, free1, locs, s);
            let m2 = write.leaves(m1);
            let retire = metadata::retire_plan::<E>(v, m2, free1, e.locs, 0);
            let m3 = retire.leaves(m2);
            &&& write.result == Ok::<(), Error<E>>(())
            &&& retire.result == Ok::<(), Error<E>>(())
            &&& retire.free == free1
            &&& has_renamed::<E>(
                v,
                m,
                m3,
                free1,
                above,
                d,
                r.dir,
                i,
                entries::described(s, locs),
                p,
            )
        }),
{
    let g = v.geometry;
    let e = listing::listing(g, m, d).entries[i];
    let s = rename::renamed_set(e, name);
    let locs = decoding::places(r.slots, r.at, r.at + create::set_len(name));
    let new = entries::described(s, locs);
    let at = lemma_replacement_written::<E>(v, m, m1, free1, above, d, s, hash, r);
    let m2 = metadata::write_set_plan::<E>(v, m1, free1, locs, s).leaves(m1);
    lemma_replaced_retired::<E>(v, m, m2, free1, above, d, r.dir, r.count, i, new, at)
}

/// Retiring an entry of a directory that a path leads to.
proof fn lemma_retired_at<E>(
    v: Volume,
    m: Media,
    m2: Media,
    free: u32,
    above: Seq<Seq<char>>,
    d: DirectoryModel,
    d2: DirectoryModel,
    n: int,
    i: int,
)
    requires
        regions::sound(v, m2, free),
        placing::is_dir_at::<E>(v, m2, above, d2, n),
        creating::is_changed_within(v, m, m2, free, d, d2),
        directories::same_names(v, m, m2),
        systems::is_kept(v.geometry, m, m2),
        0 <= i < listing::listing(v.geometry, m2, d2).entries.len(),
    ensures
        ({
            let g = v.geometry;
            let before = listing::listing(g, m2, d2);
            let plan = metadata::retire_plan::<E>(v, m2, free, before.entries[i].locs, 0);
            let m3 = plan.leaves(m2);
            let after = listing::listing(g, m3, d2);
            &&& plan.result == Ok::<(), Error<E>>(())
            &&& plan.free == free
            &&& placing::is_dir_at::<E>(v, m3, above, d2, n)
            &&& creating::is_changed_within(v, m, m3, free, d, d2)
            &&& directories::same_names(v, m, m3)
            &&& systems::is_kept(g, m, m3)
            &&& after.entries == before.entries.remove(i)
            &&& after.sound
        }),
{
    let g = v.geometry;
    let before = listing::listing(g, m2, d2);
    let locs = before.entries[i].locs;
    lemma_dir_lists::<E>(v, m2, above, d2, n);
    removing::lemma_retired_listing::<E>(v, m2, free, d2, i);
    let m3 = metadata::retire_plan::<E>(v, m2, free, locs, 0).leaves(m2);
    reopening::lemma_entry_places(v, m2, free, d2, i);
    creating::lemma_reaches_edited::<E>(v, m2, m3, free, above, d2, n, locs);
    placing::lemma_same_names_on(v, m, m2, m3);
    creating::lemma_reached_root::<E>(v, m2, above, d2, n);
    removing::lemma_retired_kept::<E>(v, m2, free, d2, i);
    systems::lemma_kept_on(g, m, m2, m3);
    let all = directories::homes(g, m3, d2).union(directories::homes_of(g, d.locs));
    allocating::lemma_evolves_on(
        v,
        m,
        m2,
        m3,
        free,
        free,
        all,
        directories::homes_of(g, locs),
        all,
    );
}

/// One entry in, another out.
proof fn lemma_moved(
    a: Listing,
    b: Listing,
    c: Listing,
    i: int,
    i2: int,
    new: EntryModel,
    at: int,
    p: int,
)
    requires
        0 <= i < a.entries.len(),
        adding::is_listed(a, b, new, at),
        i2 == if i < at {
            i
        } else {
            i + 1
        },
        c.entries == b.entries.remove(i2),
        c.sound,
        p == if i2 < at {
            at - 1
        } else {
            at
        },
    ensures
        is_moved(a, c, i, new, p),
{
    assert(b.entries[at] == new);
    assert(c.entries[p] == new);
    assert(c.entries.remove(p) =~= a.entries.remove(i));
}

/// Whether renaming number `i` of the directory `d` to `new_name` succeeded on
/// the path with these parts. Everything else that the directory listed it lists
/// still, in the same order, and names mean what they did.
pub open spec fn is_renamed_at<E>(
    v: Volume,
    m: Media,
    m2: Media,
    free: u32,
    free2: u32,
    parts: Seq<Seq<char>>,
    new_name: Seq<char>,
    scratch_len: nat,
    d: DirectoryModel,
    i: int,
) -> bool {
    let g = v.geometry;
    let root = entry::root_model(g);
    let renamed = parts.drop_last().push(new_name);
    let e = listing::listing(g, m, d).entries[i];
    let old = codec::name_result::<E>(parts.last())->Ok_0;
    let new = codec::name_result::<E>(new_name)->Ok_0;
    let d2 = trails::last_dir::<E>(v, m2, root, renamed);
    &&& regions::sound(v, m2, free2)
    &&& lookup::resolve::<E>(v, m2, root, renamed, scratch_len) matches Ok(e2)
    &&& e2.name == new
    &&& same_stream(e, e2)
    &&& names::same_name(v, m, new, old) == Some(false) ==> lookup::resolve::<E>(
        v,
        m2,
        root,
        parts,
        scratch_len,
    ) == Err::<EntryModel, Error<E>>(Error::PathNotFound)
    &&& exists|p: int| #[trigger]
        is_moved(listing::listing(g, m, d), listing::listing(g, m2, d2), i, e2, p)
    &&& directories::same_names(v, m, m2)
    &&& exists|k: int| #[trigger] placing::is_dir_at::<E>(v, m2, parts.drop_last(), d2, k)
    &&& creating::is_changed_within(v, m, m2, free2, d, d2)
    &&& remounting::mounts_again::<E>(v, m, m2, free, free2)
}

/// What paths find once an entry of a directory was renamed.
proof fn lemma_found_renamed<E>(
    v: Volume,
    m: Media,
    m2: Media,
    free: u32,
    free2: u32,
    parts: Seq<Seq<char>>,
    new_name: Seq<char>,
    scratch_len: nat,
    d: DirectoryModel,
    n: int,
    d2: DirectoryModel,
    i: int,
    new: EntryModel,
    p: int,
)
    requires
        regions::sound(v, m, free),
        regions::sound(v, m2, free2),
        parts.len() > 0,
        placing::reaches::<E>(v, m, parts.drop_last(), d, n),
        has_renamed::<E>(v, m, m2, free2, parts.drop_last(), d, d2, i, new, p),
        scratch_len >= v.geometry.bytes_per_sector,
        codec::name_result::<E>(parts.last()) is Ok,
        codec::name_result::<E>(new_name) == Ok::<Seq<u16>, Error<E>>(new.name),
        names::name_hash(v, m, new.name) is Some,
        removing::is_only(v, m, listing::listing(v.geometry, m, d), i, new.name),
        removing::is_only(
            v,
            m,
            listing::listing(v.geometry, m, d),
            i,
            codec::name_result::<E>(parts.last())->Ok_0,
        ),
        same_stream(listing::listing(v.geometry, m, d).entries[i], new),
        0 <= i < listing::listing(v.geometry, m, d).entries.len(),
    ensures
        is_renamed_at::<E>(v, m, m2, free, free2, parts, new_name, scratch_len, d, i),
{
    let g = v.geometry;
    let root = entry::root_model(g);
    let above = parts.drop_last();
    let renamed = above.push(new_name);
    let list = listing::listing(g, m, d);
    let after = listing::listing(g, m2, d2);
    let old = codec::name_result::<E>(parts.last())->Ok_0;
    let k = choose|k: int| #[trigger] placing::is_dir_at::<E>(v, m2, above, d2, k);
    lemma_names_moved(v, m, m2, list, after, i, new, p, old);
    creating::lemma_changed_mounts::<E>(v, m, m2, free, free2, above, d, n, d2, k);
    creating::lemma_dir_leads::<E>(v, m2, above, new_name, d2, k);
    trails::lemma_resolve::<E>(v, m2, root, renamed, scratch_len);
    assert(renamed.last() == new_name);
    assert(trails::last_dir::<E>(v, m2, root, renamed) == d2);
    assert(lookup::resolve::<E>(v, m2, root, renamed, scratch_len) == Ok::<EntryModel, Error<E>>(
        new,
    ));
    assert(is_moved(list, after, i, new, p));
    assert(above.push(parts.last()) =~= parts);
    assert(names::same_name(v, m, new.name, old) == Some(false) ==> lookup::resolve::<E>(
        v,
        m2,
        root,
        parts,
        scratch_len,
    ) == Err::<EntryModel, Error<E>>(Error::PathNotFound)) by {
        creating::lemma_dir_leads::<E>(v, m2, above, parts.last(), d2, k);
        trails::lemma_resolve::<E>(v, m2, root, parts, scratch_len);
    }
}

/// What is renamed is found under its new name in the same directory, which may
/// have grown for it, and describes the same stream; under the old name nothing
/// is found, unless the two names differ in case alone. Whatever else the
/// directory listed it lists still. Only clusters of that
/// directory, and those that hold the directory's own entry set, change. It is
/// renamed unless the directory has no room for a new entry set, which one
/// linked by the FAT has as long as clusters are free, or the name cannot be
/// hashed; without room, the directory lists what it did. No other entry of the
/// directory may have the new name. The volume mounts again.
pub proof fn law_renamed_entry_is_found<E>(
    v: Volume,
    m: Media,
    free: u32,
    path: Seq<char>,
    new_name: Seq<char>,
    scratch_len: nat,
    d: DirectoryModel,
    n: int,
    i: int,
)
    requires
        regions::sound(v, m, free),
        paths::trimmed(path).len() > 0,
        placing::is_dir_at::<E>(
            v,
            m,
            paths::components(paths::trimmed(path)).drop_last(),
            d,
            n,
        ),
        scratch_len >= v.geometry.bytes_per_sector,
        rename::is_component(new_name),
        codec::name_result::<E>(new_name) is Ok,
        ({
            let parts = paths::components(paths::trimmed(path));
            let list = listing::listing(v.geometry, m, d);
            let new = codec::name_result::<E>(new_name)->Ok_0;
            &&& 0 <= i < list.entries.len()
            &&& codec::name_result::<E>(parts.last()) matches Ok(old)
            &&& names::same_name(v, m, list.entries[i].name, old) == Some(true)
            &&& removing::is_only(v, m, list, i, old)
            &&& removing::is_only(v, m, list, i, new)
        }),
    ensures
        ({
            let parts = paths::components(paths::trimmed(path));
            let plan = rename::rename_plan::<E>(v, m, free, path, new_name, scratch_len);
            let new = codec::name_result::<E>(new_name)->Ok_0;
            match plan.result {
                Ok(_) => is_renamed_at::<E>(
                    v,
                    m,
                    plan.leaves(m),
                    free,
                    plan.free,
                    parts,
                    new_name,
                    scratch_len,
                    d,
                    i,
                ),
                Err(error) => {
                    ||| error == Error::<E>::NoSpace && creating::is_refused::<E>(
                        v,
                        m,
                        plan.leaves(m),
                        free,
                        plan.free,
                        parts.drop_last(),
                        d,
                        n,
                    )
                    ||| names::name_hash(v, m, new) is None
                },
            }
        }),
{
    let g = v.geometry;
    let root = entry::root_model(g);
    let inner = paths::trimmed(path);
    let parts = paths::components(inner);
    let above = parts.drop_last();
    let list = listing::listing(g, m, d);
    let e = list.entries[i];
    let old = codec::name_result::<E>(parts.last())->Ok_0;
    let new = codec::name_result::<E>(new_name)->Ok_0;
    let plan = rename::rename_plan::<E>(v, m, free, path, new_name, scratch_len);
    create::lemma_trimmed_component(path);
    creating::lemma_name_size::<E>(new_name);
    lemma_dir_lists::<E>(v, m, above, d, n);
    adding::lemma_found_at(v, m, list, old, 0, i);
    creating::lemma_listed_at::<E>(v, m, parts, d, n, old, e, scratch_len);
    assert(lookup::lookup_result::<E>(v, m, inner, scratch_len) == Ok::<EntryModel, Error<E>>(e));
    if create::set_len(new) == e.locs.len() {
        assert(plan == rename::rename_in_place_plan::<E>(v, m, free, e, new));
        if let Some(hash) = names::name_hash(v, m, new) {
            lemma_in_place_at::<E>(v, m, free, above, d, n, i, new, hash);
            lemma_found_renamed::<E>(
                v,
                m,
                plan.leaves(m),
                free,
                plan.free,
                parts,
                new_name,
                scratch_len,
                d,
                n,
                d,
                i,
                EntryModel { name: new, ..e },
                i,
            );
        }
    } else {
        lemma_renamed_elsewhere::<E>(v, m, free, path, new_name, scratch_len, d, n, i);
    }
}

/// Renaming by way of another entry set.
#[verifier::rlimit(30)]
proof fn lemma_renamed_elsewhere<E>(
    v: Volume,
    m: Media,
    free: u32,
    path: Seq<char>,
    new_name: Seq<char>,
    scratch_len: nat,
    d: DirectoryModel,
    n: int,
    i: int,
)
    requires
        regions::sound(v, m, free),
        paths::trimmed(path).len() > 0,
        paths::components(paths::trimmed(path)).len() > 0,
        placing::is_dir_at::<E>(
            v,
            m,
            paths::components(paths::trimmed(path)).drop_last(),
            d,
            n,
        ),
        scratch_len >= v.geometry.bytes_per_sector,
        codec::name_result::<E>(new_name) is Ok,
        ({
            let parts = paths::components(paths::trimmed(path));
            let list = listing::listing(v.geometry, m, d);
            let new = codec::name_result::<E>(new_name)->Ok_0;
            &&& 0 <= i < list.entries.len()
            &&& codec::name_result::<E>(parts.last()) matches Ok(old)
            &&& removing::is_only(v, m, list, i, old)
            &&& removing::is_only(v, m, list, i, new)
            &&& create::set_len(new) != list.entries[i].locs.len()
        }),
    ensures
        ({
            let inner = paths::trimmed(path);
            let parts = paths::components(inner);
            let e = listing::listing(v.geometry, m, d).entries[i];
            let new = codec::name_result::<E>(new_name)->Ok_0;
            let plan = rename::replace_plan::<E>(v, m, free, inner, e, new, scratch_len);
            match plan.result {
                Ok(_) => is_renamed_at::<E>(
                    v,
                    m,
                    plan.leaves(m),
                    free,
                    plan.free,
                    parts,
                    new_name,
                    scratch_len,
                    d,
                    i,
                ),
                Err(error) => {
                    ||| error == Error::<E>::NoSpace && creating::is_refused::<E>(
                        v,
                        m,
                        plan.leaves(m),
                        free,
                        plan.free,
                        parts.drop_last(),
                        d,
                        n,
                    )
                    ||| names::name_hash(v, m, new) is None
                },
            }
        }),
{
    let g = v.geometry;
    let inner = paths::trimmed(path);
    let parts = paths::components(inner);
    let above = parts.drop_last();
    let list = listing::listing(g, m, d);
    let e = list.entries[i];
    let new = codec::name_result::<E>(new_name)->Ok_0;
    let plan = rename::replace_plan::<E>(v, m, free, inner, e, new, scratch_len);
    assert(above.push(parts.last()) =~= parts);
    creating::lemma_dir_leads::<E>(v, m, above, parts.last(), d, n);
    creating::lemma_parent::<E>(v, m, path, scratch_len);
    creating::lemma_name_size::<E>(new_name);
    lemma_dir_lists::<E>(v, m, above, d, n);
    reopening::lemma_entry_places(v, m, free, d, i);
    lemma_new_is_missing(v, m, free, d, i, new);
    let wanted = create::set_len(new);
    let find = space::find_plan::<E>(v, m, free, d, wanted);
    let m1 = find.leaves(m);
    let r = placing::lemma_room_found::<E>(v, m, free, above, d, n, wanted);
    if let Ok(locs) = find.result {
        let s = rename::renamed_set(e, new);
        let write = metadata::write_set_plan::<E>(v, m1, find.free, locs, s);
        let m2 = write.leaves(m1);
        let retire = metadata::retire_plan::<E>(v, m2, find.free, e.locs, 0);
        placing::lemma_and_leaves(find, write.and(retire), m);
        placing::lemma_and_leaves(write, retire, m1);
        directories::lemma_hash_kept(v, m, m1, new);
        if let Some(hash) = names::name_hash(v, m, new) {
            let p = lemma_replaced_at::<E>(v, m, m1, find.free, above, d, i, new, hash, r);
            lemma_found_renamed::<E>(
                v,
                m,
                plan.leaves(m),
                free,
                plan.free,
                parts,
                new_name,
                scratch_len,
                d,
                n,
                r.dir,
                i,
                entries::described(s, locs),
                p,
            );
        }
    } else {
        assert(plan.writes == find.writes);
        creating::lemma_refused::<E>(v, m, m1, free, find.free, above, d, n, r.dir, r.count);
    }
}

/// Whether `m2` holds an entry under both names: the one with which it was listed
/// as number `i` of `d`, and `new_name`.
pub open spec fn has_both_names<E>(
    v: Volume,
    m: Media,
    m2: Media,
    parts: Seq<Seq<char>>,
    new_name: Seq<char>,
    scratch_len: nat,
    d: DirectoryModel,
    i: int,
) -> bool {
    let root = entry::root_model(v.geometry);
    let e = listing::listing(v.geometry, m, d).entries[i];
    let renamed = parts.drop_last().push(new_name);
    &&& lookup::resolve::<E>(v, m2, root, parts, scratch_len) == Ok::<EntryModel, Error<E>>(e)
    &&& lookup::resolve::<E>(v, m2, root, renamed, scratch_len) matches Ok(e2)
    &&& Ok::<Seq<u16>, Error<E>>(e2.name) == codec::name_result::<E>(new_name)
    &&& same_stream(e, e2)
}

/// What renaming to a name that takes another number of directory entries finds
/// and does.
proof fn lemma_replaces<E>(
    v: Volume,
    m: Media,
    free: u32,
    path: Seq<char>,
    new_name: Seq<char>,
    scratch_len: nat,
    d: DirectoryModel,
    n: int,
    i: int,
)
    requires
        regions::sound(v, m, free),
        paths::trimmed(path).len() > 0,
        placing::is_dir_at::<E>(
            v,
            m,
            paths::components(paths::trimmed(path)).drop_last(),
            d,
            n,
        ),
        scratch_len >= v.geometry.bytes_per_sector,
        rename::is_component(new_name),
        codec::name_result::<E>(new_name) is Ok,
        ({
            let parts = paths::components(paths::trimmed(path));
            let list = listing::listing(v.geometry, m, d);
            let new = codec::name_result::<E>(new_name)->Ok_0;
            &&& 0 <= i < list.entries.len()
            &&& codec::name_result::<E>(parts.last()) matches Ok(old)
            &&& names::same_name(v, m, list.entries[i].name, old) == Some(true)
            &&& removing::is_only(v, m, list, i, old)
            &&& removing::is_only(v, m, list, i, new)
            &&& create::set_len(new) != list.entries[i].locs.len()
        }),
    ensures
        ({
            let parts = paths::components(paths::trimmed(path));
            let list = listing::listing(v.geometry, m, d);
            let e = list.entries[i];
            let old = codec::name_result::<E>(parts.last())->Ok_0;
            let new = codec::name_result::<E>(new_name)->Ok_0;
            let find = space::find_plan::<E>(v, m, free, d, create::set_len(new));
            let m1 = find.leaves(m);
            let s = rename::renamed_set(e, new);
            let write = metadata::write_set_plan::<E>(v, m1, find.free, find.result->Ok_0, s);
            let retire = metadata::retire_plan::<E>(v, write.leaves(m1), find.free, e.locs, 0);
            &&& rename::rename_plan::<E>(v, m, free, path, new_name, scratch_len) == find.and(
                write.and(retire),
            )
            &&& parts.len() > 0
            &&& list.sound
            &&& listing::child(v, m, d, old) == Some(Some(e))
            &&& listing::child(v, m, d, new) == Some(None::<EntryModel>)
            &&& new.len() != old.len()
            &&& 1 <= new.len() <= 255
            &&& 3 <= create::set_len(new) <= 19
            &&& e.valid_length <= e.data_length
            &&& e.data_length == 0 || e.first_cluster >= 2
            &&& same_stream(e, entries::described(s, e.locs))
        }),
{
    let g = v.geometry;
    let inner = paths::trimmed(path);
    let parts = paths::components(inner);
    let above = parts.drop_last();
    let list = listing::listing(g, m, d);
    let e = list.entries[i];
    let old = codec::name_result::<E>(parts.last())->Ok_0;
    let new = codec::name_result::<E>(new_name)->Ok_0;
    create::lemma_trimmed_component(path);
    creating::lemma_name_size::<E>(new_name);
    lemma_dir_lists::<E>(v, m, above, d, n);
    adding::lemma_found_at(v, m, list, old, 0, i);
    creating::lemma_listed_at::<E>(v, m, parts, d, n, old, e, scratch_len);
    assert(above.push(parts.last()) =~= parts);
    creating::lemma_parent::<E>(v, m, path, scratch_len);
    reopening::lemma_entry_places(v, m, free, d, i);
    lemma_new_is_missing(v, m, free, d, i, new);
}

/// Renaming to a name that takes another number of directory entries writes the
/// new entry set before it retires the old one: at some point on the way what
/// is renamed is found under both names, and all that is written from then on
/// is what retires the old set.
#[verifier::rlimit(30)]
pub proof fn law_replacement_is_written_first<E>(
    v: Volume,
    m: Media,
    free: u32,
    path: Seq<char>,
    new_name: Seq<char>,
    scratch_len: nat,
    d: DirectoryModel,
    n: int,
    i: int,
)
    requires
        regions::sound(v, m, free),
        paths::trimmed(path).len() > 0,
        placing::is_dir_at::<E>(
            v,
            m,
            paths::components(paths::trimmed(path)).drop_last(),
            d,
            n,
        ),
        scratch_len >= v.geometry.bytes_per_sector,
        rename::is_component(new_name),
        codec::name_result::<E>(new_name) is Ok,
        ({
            let parts = paths::components(paths::trimmed(path));
            let list = listing::listing(v.geometry, m, d);
            let new = codec::name_result::<E>(new_name)->Ok_0;
            &&& 0 <= i < list.entries.len()
            &&& codec::name_result::<E>(parts.last()) matches Ok(old)
            &&& names::same_name(v, m, list.entries[i].name, old) == Some(true)
            &&& removing::is_only(v, m, list, i, old)
            &&& removing::is_only(v, m, list, i, new)
            &&& create::set_len(new) != list.entries[i].locs.len()
        }),
        rename::rename_plan::<E>(v, m, free, path, new_name, scratch_len).result is Ok,
    ensures
        ({
            let parts = paths::components(paths::trimmed(path));
            let plan = rename::rename_plan::<E>(v, m, free, path, new_name, scratch_len);
            let e = listing::listing(v.geometry, m, d).entries[i];
            exists|k: int|
                {
                    let m2 = device::applied(m, #[trigger] plan.writes.take(k));
                    &&& 0 <= k <= plan.writes.len()
                    &&& has_both_names::<E>(v, m, m2, parts, new_name, scratch_len, d, i)
                    &&& plan.writes.skip(k) == metadata::retire_plan::<E>(
                        v,
                        m2,
                        plan.free,
                        e.locs,
                        0,
                    ).writes
                }
        }),
{
    let g = v.geometry;
    let parts = paths::components(paths::trimmed(path));
    let list = listing::listing(g, m, d);
    let e = list.entries[i];
    let new = codec::name_result::<E>(new_name)->Ok_0;
    let plan = rename::rename_plan::<E>(v, m, free, path, new_name, scratch_len);
    lemma_replaces::<E>(v, m, free, path, new_name, scratch_len, d, n, i);
    let find = space::find_plan::<E>(v, m, free, d, create::set_len(new));
    let m1 = find.leaves(m);
    let s = rename::renamed_set(e, new);
    let write = metadata::write_set_plan::<E>(v, m1, find.free, find.result->Ok_0, s);
    let m2 = write.leaves(m1);
    let retire = metadata::retire_plan::<E>(v, m2, find.free, e.locs, 0);
    assert(find.result is Ok && write.result is Ok);
    assert(names::name_hash(v, m, new) is Some) by {
        let r = placing::lemma_room_found::<E>(
            v,
            m,
            free,
            parts.drop_last(),
            d,
            n,
            create::set_len(new),
        );
        directories::lemma_hash_kept(v, m, m1, new);
    }
    lemma_replaced_on_the_way::<E>(v, m, free, parts, new_name, scratch_len, d, n, i);
    let first = find.writes + write.writes;
    let k = first.len() as int;
    assert(plan.writes =~= first + retire.writes);
    assert(plan.writes.take(k) =~= first);
    assert(plan.writes.skip(k) =~= retire.writes);
    device::lemma_applied_concat(m, find.writes, write.writes);
}

/// The point on the way at which the new entry set is written and the old one
/// not yet retired.
proof fn lemma_replaced_on_the_way<E>(
    v: Volume,
    m: Media,
    free: u32,
    parts: Seq<Seq<char>>,
    new_name: Seq<char>,
    scratch_len: nat,
    d: DirectoryModel,
    n: int,
    i: int,
)
    requires
        regions::sound(v, m, free),
        parts.len() > 0,
        placing::is_dir_at::<E>(v, m, parts.drop_last(), d, n),
        scratch_len >= v.geometry.bytes_per_sector,
        codec::name_result::<E>(new_name) is Ok,
        codec::name_result::<E>(parts.last()) is Ok,
        0 <= i < listing::listing(v.geometry, m, d).entries.len(),
        listing::listing(v.geometry, m, d).sound,
        ({
            let e = listing::listing(v.geometry, m, d).entries[i];
            let old = codec::name_result::<E>(parts.last())->Ok_0;
            let new = codec::name_result::<E>(new_name)->Ok_0;
            &&& listing::child(v, m, d, old) == Some(Some(e))
            &&& listing::child(v, m, d, new) == Some(None::<EntryModel>)
            &&& new.len() != old.len()
            &&& 1 <= new.len() <= 255
            &&& names::name_hash(v, m, new) is Some
            &&& e.valid_length <= e.data_length
            &&& e.data_length == 0 || e.first_cluster >= 2
            &&& same_stream(e, entries::described(rename::renamed_set(e, new), e.locs))
        }),
        ({
            let new = codec::name_result::<E>(new_name)->Ok_0;
            space::find_plan::<E>(v, m, free, d, create::set_len(new)).result is Ok
        }),
    ensures
        ({
            let e = listing::listing(v.geometry, m, d).entries[i];
            let new = codec::name_result::<E>(new_name)->Ok_0;
            let find = space::find_plan::<E>(v, m, free, d, create::set_len(new));
            let m1 = find.leaves(m);
            let write = metadata::write_set_plan::<E>(
                v,
                m1,
                find.free,
                find.result->Ok_0,
                rename::renamed_set(e, new),
            );
            let m2 = write.leaves(m1);
            &&& write.result == Ok::<(), Error<E>>(())
            &&& metadata::retire_plan::<E>(v, m2, find.free, e.locs, 0).free == find.free
            &&& has_both_names::<E>(v, m, m2, parts, new_name, scratch_len, d, i)
        }),
{
    let g = v.geometry;
    let above = parts.drop_last();
    let list = listing::listing(g, m, d);
    let e = list.entries[i];
    let new = codec::name_result::<E>(new_name)->Ok_0;
    let wanted = create::set_len(new);
    let find = space::find_plan::<E>(v, m, free, d, wanted);
    let m1 = find.leaves(m);
    let r = placing::lemma_room_found::<E>(v, m, free, above, d, n, wanted);
    let locs = find.result->Ok_0;
    let s = rename::renamed_set(e, new);
    let hash = names::name_hash(v, m, new)->0;
    let p = lemma_replaced_at::<E>(v, m, m1, find.free, above, d, i, new, hash, r);
    directories::lemma_hash_kept(v, m, m1, new);
    trails::lemma_find_kept(v, m, m1, list, new, 0);
    creating::lemma_entered::<E>(v, m1, find.free, above, r, s, hash);
    let m2 = metadata::write_set_plan::<E>(v, m1, find.free, locs, s).leaves(m1);
    lemma_both_found::<E>(
        v,
        m,
        m1,
        m2,
        find.free,
        parts,
        new_name,
        scratch_len,
        d,
        i,
        r,
        s,
        locs,
    );
}

/// Where an entry set with another name was entered beside the one of an entry,
/// both names are found.
proof fn lemma_both_found<E>(
    v: Volume,
    m: Media,
    m1: Media,
    m2: Media,
    free1: u32,
    parts: Seq<Seq<char>>,
    new_name: Seq<char>,
    scratch_len: nat,
    d: DirectoryModel,
    i: int,
    r: Room,
    s: SetModel,
    locs: Seq<EntryLocator>,
)
    requires
        regions::apart(v.geometry),
        parts.len() > 0,
        0 <= i < listing::listing(v.geometry, m, d).entries.len(),
        codec::name_result::<E>(parts.last()) is Ok,
        codec::name_result::<E>(new_name) == Ok::<Seq<u16>, Error<E>>(s.name),
        placing::has_room::<E>(v, m, m1, free1, parts.drop_last(), d, create::set_len(s.name), r),
        creating::is_entered::<E>(v, m1, m2, free1, parts.drop_last(), r, s, locs),
        scratch_len >= v.geometry.bytes_per_sector,
        ({
            let old = codec::name_result::<E>(parts.last())->Ok_0;
            let e = listing::listing(v.geometry, m, d).entries[i];
            &&& listing::child(v, m, d, old) == Some(Some(e))
            &&& s.name.len() != old.len()
            &&& same_stream(e, entries::described(s, locs))
        }),
    ensures
        has_both_names::<E>(v, m, m2, parts, new_name, scratch_len, d, i),
{
    reveal(creating::keeps_names);
    let above = parts.drop_last();
    let renamed = above.push(new_name);
    let old = codec::name_result::<E>(parts.last())->Ok_0;
    let e = listing::listing(v.geometry, m, d).entries[i];
    let e2 = entries::described(s, locs);
    creating::lemma_names_stay::<E>(
        v,
        m,
        m1,
        m2,
        free1,
        above,
        d,
        create::set_len(s.name),
        r,
        s,
        locs,
    );
    assert(names::same_name(v, m, s.name, old) == Some(false));
    assert(listing::child(v, m2, r.dir, old) == Some(Some(e)));
    creating::lemma_listed_at::<E>(v, m2, parts, r.dir, r.count, old, e, scratch_len);
    assert(renamed.drop_last() =~= above);
    assert(renamed.last() == new_name);
    creating::lemma_listed_at::<E>(v, m2, renamed, r.dir, r.count, s.name, e2, scratch_len);
}

/// A name whose set takes another number of entries than that of number `i`,
/// and which is no other's, is not in use.
proof fn lemma_new_is_missing(
    v: Volume,
    m: Media,
    free: u32,
    d: DirectoryModel,
    i: int,
    new: Seq<u16>,
)
    requires
        regions::sound(v, m, free),
        directories::dir_sound(v, m, d),
        ({
            let list = listing::listing(v.geometry, m, d);
            &&& list.sound
            &&& 0 <= i < list.entries.len()
            &&& removing::is_only(v, m, list, i, new)
            &&& create::set_len(new) != list.entries[i].locs.len()
        }),
    ensures
        listing::child(v, m, d, new) == Some(None::<EntryModel>),
        listing::listing(v.geometry, m, d).entries[i].name.len() != new.len(),
        listing::listing(v.geometry, m, d).entries[i].accessed.ten_millis == 0,
{
    let g = v.geometry;
    let a = directories::slots_of(g, m, d);
    let list = listing::listing(g, m, d);
    reopening::lemma_slot_sizes(v, m, free, d);
    let (p, q) = sets::lemma_set_of(a, walk::directory_slots(g, m, d).end, i);
    lemma_name_fits(a.subrange(p, q));
    lemma_access_time(a.subrange(p, q), (q - p) as nat);
    assert(list.entries[i].name.len() != new.len());
    assert forall|j: int| 0 <= j < list.entries.len() implies names::same_name(
        v,
        m,
        (#[trigger] list.entries[j]).name,
        new,
    ) == Some(false) by {}
    removing::lemma_nothing_found(v, m, list, new, 0);
}

} // verus!
