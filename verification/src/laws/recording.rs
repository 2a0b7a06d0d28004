//! Recording a file's lengths and clusters: its directory then lists them.

use crate::bytes;
use crate::device::Media;
use crate::directory::codec;
use crate::directory::entry;
use crate::directory::entry::{DirectoryModel, EntryModel};
use crate::directory::slots::{EntryLocator, Slot};
use crate::fs::file::FileModel;
use crate::fs::listing;
use crate::fs::listing::Listing;
use crate::fs::metadata;
use crate::fs::names;
use crate::fs::walk;
use crate::geometry::Geometry;
use crate::laws::adding;
use crate::laws::appending;
use crate::laws::decoding;
use crate::laws::directories;
use crate::laws::entries;
use crate::laws::regions;
use crate::laws::sets;
use crate::mount::Volume;
use vstd::prelude::*;

verus! {

/// An entry with the lengths and clusters of the file `f`.
pub open spec fn updated(e: EntryModel, f: FileModel) -> EntryModel {
    EntryModel {
        first_cluster: f.first_cluster,
        data_length: f.data_length,
        valid_length: f.valid_length,
        no_fat_chain: f.no_fat_chain,
        ..e
    }
}

/// Whether lengths and clusters can be recorded.
pub open spec fn is_recordable(f: FileModel) -> bool {
    &&& f.valid_length <= f.data_length
    &&& f.data_length == 0 || f.first_cluster >= 2
}

/// The fields of a stream extension that was patched.
proof fn lemma_patched(raw: Seq<u8>, f: FileModel)
    requires
        raw.len() == 32,
        entry::stream_ok(raw),
        is_recordable(f),
    ensures
        ({
            let new = metadata::stream_patched(raw, 0, f);
            &&& new.len() == 32
            &&& new[0] == raw[0]
            &&& new[3] == raw[3]
            &&& entry::stream_ok(new)
            &&& (new[1] / 2 % 2 == 1) == f.no_fat_chain
            &&& bytes::u64_at(new, 8) == f.valid_length
            &&& bytes::u32_at(new, 20) == f.first_cluster
            &&& bytes::u64_at(new, 24) == f.data_length
        }),
{
    let new = metadata::stream_patched(raw, 0, f);
    assert(new.subrange(8, 16) =~= bytes::le64(f.valid_length));
    bytes::lemma_le64_reads_back(new, 8, f.valid_length);
    assert(new.subrange(20, 24) =~= bytes::le32(f.first_cluster));
    bytes::lemma_le32_reads_back(new, 20, f.first_cluster);
    assert(new.subrange(24, 32) =~= bytes::le64(f.data_length));
    bytes::lemma_le64_reads_back(new, 24, f.data_length);
    assert(new[1] == if f.no_fat_chain {
        3u8
    } else {
        1u8
    });
}

/// Whether the set `y` is the set `x` with the lengths and clusters of `f`, and
/// the checksum `sum`.
pub open spec fn is_patched(x: Seq<Slot>, y: Seq<Slot>, f: FileModel, sum: u16) -> bool {
    &&& y.len() == x.len()
    &&& y[0] == (Slot { raw: bytes::splice(x[0].raw, 2, bytes::le16(sum)), ..x[0] })
    &&& y[1] == (Slot { raw: metadata::stream_patched(x[1].raw, 0, f), ..x[1] })
    &&& forall|k: int| 2 <= k < x.len() ==> #[trigger] y[k] == x[k]
}

/// A patched set goes through the same states, but for what was patched.
proof fn lemma_patched_states(x: Seq<Slot>, y: Seq<Slot>, f: FileModel, sum: u16, j: nat)
    requires
        sets::is_shaped(x),
        sets::is_shaped(y),
        is_recordable(f),
        is_patched(x, y, f, sum),
        2 <= j <= x.len(),
    ensures
        sets::decoded(y, j).entry == updated(sets::decoded(x, j).entry, f),
        sets::decoded(y, j).name_len == sets::decoded(x, j).name_len,
        sets::decoded(y, j).written == sets::decoded(x, j).written,
    decreases j,
{
    assert(x[0].raw.len() == 32 && x[1].raw.len() == 32);
    lemma_patched(x[1].raw, f);
    if j == 2 {
        let a = x[0].raw;
        let b = y[0].raw;
        assert(b.subrange(4, 32) =~= a.subrange(4, 32));
        lemma_primary_same(x[0], y[0], sum);
    } else {
        lemma_patched_states(x, y, f, sum, (j - 1) as nat);
    }
}

/// The checksum field aside, two primary entries describe the same.
pub proof fn lemma_primary_same(x: Slot, y: Slot, sum: u16)
    requires
        x.raw.len() == 32,
        y == (Slot { raw: bytes::splice(x.raw, 2, bytes::le16(sum)), ..x }),
    ensures
        entry::DecoderModel::primary(y.raw, y.at).entry == entry::DecoderModel::primary(
            x.raw,
            x.at,
        ).entry,
        y.raw[0] == x.raw[0],
        y.raw[1] == x.raw[1],
        y.raw.len() == 32,
        bytes::u16_at(y.raw, 2) == sum,
{
    let a = x.raw;
    let b = y.raw;
    assert(b.subrange(2, 4) =~= bytes::le16(sum));
    bytes::lemma_le16_reads_back(b, 2, sum);
    assert(forall|i: int| 4 <= i < 32 ==> #[trigger] b[i] == a[i]);
    assert(b[8] == a[8] && b[9] == a[9] && b[10] == a[10] && b[11] == a[11]);
    assert(b[12] == a[12] && b[13] == a[13] && b[14] == a[14] && b[15] == a[15]);
    assert(b[16] == a[16] && b[17] == a[17] && b[18] == a[18] && b[19] == a[19]);
}

/// The checksum does not cover itself, nor depends on where entries lie.
pub proof fn lemma_sum_same(x: Seq<Slot>, y: Seq<Slot>, j: nat)
    requires
        1 <= j <= x.len(),
        j <= y.len(),
        forall|k: int| 1 <= k < j ==> (#[trigger] y[k]).raw == x[k].raw,
        codec::counted(y[0].raw, true) == codec::counted(x[0].raw, true),
    ensures
        sets::run_sum(y, j) == sets::run_sum(x, j),
    decreases j,
{
    if j > 1 {
        lemma_sum_same(x, y, (j - 1) as nat);
    } else {
        reveal_with_fuel(sets::run_sum, 2);
    }
}

/// A set that was patched, with the checksum of the patched entries, is a set,
/// and describes what was recorded.
proof fn lemma_patched_set(x: Seq<Slot>, y: Seq<Slot>, f: FileModel, sum: u16)
    requires
        sets::is_set(x),
        is_recordable(f),
        is_patched(x, y, f, sum),
        sum == sets::run_sum(y, y.len()),
    ensures
        sets::is_set(y),
        sets::entry_of(y) == updated(sets::entry_of(x), f),
{
    assert(x[0].raw.len() == 32 && x[1].raw.len() == 32);
    lemma_patched(x[1].raw, f);
    lemma_primary_same(x[0], y[0], sum);
    assert(sets::is_shaped(y)) by {
        assert forall|i: int| 0 <= i < y.len() implies (#[trigger] y[i]).raw.len() == 32 by {
            assert(x[i].raw.len() == 32);
        }
        assert forall|i: int| 2 <= i < y.len() implies (#[trigger] y[i]).raw[0] == 0xc1 by {
            assert(x[i].raw[0] == 0xc1);
        }
    }
    lemma_patched_states(x, y, f, sum, x.len());
}

/// The checksum of the entries at `locs` is that of the slots there.
pub proof fn lemma_media_sum(g: Geometry, m: Media, x: Seq<Slot>, locs: Seq<EntryLocator>, n: nat)
    requires
        n <= locs.len(),
        x.len() == locs.len(),
        forall|i: int| 0 <= i < locs.len() ==> metadata::fits(g, #[trigger] locs[i]),
        forall|i: int| 0 <= i < n ==> (#[trigger] x[i]).raw == metadata::entry_at(m, locs[i]),
    ensures
        metadata::set_sum(g, m, locs, n) == Some(sets::run_sum(x, n)),
    decreases n,
{
    if n > 0 {
        lemma_media_sum(g, m, x, locs, (n - 1) as nat);
        assert(x[n - 1].raw == metadata::entry_at(m, locs[n - 1]));
    }
}

/// Recording a file's lengths and clusters edits its stream extension and its
/// primary entry.
pub proof fn lemma_record_edits(
    v: Volume,
    m: Media,
    free: u32,
    f: FileModel,
)
    requires
        regions::sound(v, m, free),
        directories::are_places(v, m, f.locs),
        f.locs.len() >= 3,
        f.primary == f.locs[0],
        f.stream == f.locs[1],
    ensures
        ({
            let g = v.geometry;
            let m2 = appending::recorded(g, m, f);
            let sum = metadata::set_sum(
                g,
                m.insert(
                    f.stream.lba,
                    metadata::stream_patched(m[f.stream.lba], f.stream.offset as int, f),
                ),
                f.locs,
                f.locs.len(),
            );
            &&& sum is Some
            &&& directories::edits(v, m, m2, free, f.locs)
            &&& metadata::entry_at(m2, f.stream) == metadata::stream_patched(
                metadata::entry_at(m, f.stream),
                0,
                f,
            )
            &&& metadata::entry_at(m2, f.primary) == bytes::splice(
                metadata::entry_at(m, f.primary),
                2,
                bytes::le16(sum->0),
            )
            &&& forall|k: int|
                2 <= k < f.locs.len() ==> metadata::entry_at(m2, #[trigger] f.locs[k])
                    == metadata::entry_at(m, f.locs[k])
            &&& forall|y: Seq<Slot>|
                y.len() == f.locs.len() && (forall|k: int|
                    0 <= k < y.len() ==> (#[trigger] y[k]).raw == metadata::entry_at(
                        m2,
                        f.locs[k],
                    )) ==> sum == Some(#[trigger] sets::run_sum(y, y.len()))
        }),
{
    let g = v.geometry;
    let locs = f.locs;
    let n = locs.len();
    let at = f.stream;
    let off = at.offset as int;
    let data = metadata::stream_patched(m[at.lba], off, f);
    assert(locs[0] != locs[1]);
    appending::lemma_home_length(v, m, free, at.lba, directories::home(g, at.lba));
    let m1 = m.insert(at.lba, data);
    directories::lemma_entry_written(v, m, free, at, data);
    assert(metadata::entry_at(m1, at) =~= metadata::stream_patched(
        metadata::entry_at(m, at),
        0,
        f,
    ));
    directories::lemma_places_kept(v, m, m1, free, locs, seq![at]);
    appending::lemma_summable(g, m1, locs, n);
    let sum = metadata::set_sum(g, m1, locs, n)->0;
    let last = f.primary;
    let sealed = bytes::splice(m1[last.lba], last.offset + 2, bytes::le16(sum));
    appending::lemma_home_length(v, m1, free, last.lba, directories::home(g, last.lba));
    directories::lemma_entry_written(v, m1, free, last, sealed);
    let m2 = m1.insert(last.lba, sealed);
    assert(m2 == appending::recorded(g, m, f));
    assert(metadata::entry_at(m2, last) =~= bytes::splice(
        metadata::entry_at(m1, last),
        2,
        bytes::le16(sum),
    ));
    assert(seq![at][0] == at && seq![last][0] == last);
    assert(locs.contains(at) && locs.contains(last));
    directories::lemma_edits_on(v, m, m1, m2, free, seq![at], seq![last], locs);
    assert(!seq![at].contains(last));
    assert(!seq![last].contains(at));
    assert forall|k: int| 2 <= k < n implies metadata::entry_at(m2, #[trigger] locs[k])
        == metadata::entry_at(m, locs[k]) by {
        assert(locs[0] != locs[k] && locs[1] != locs[k]);
        assert(!seq![at].contains(locs[k]) && !seq![last].contains(locs[k]));
        assert(metadata::entry_at(m1, locs[k]) == metadata::entry_at(m, locs[k]));
    }
    assert forall|y: Seq<Slot>|
        y.len() == n && (forall|k: int|
            0 <= k < y.len() ==> (#[trigger] y[k]).raw == metadata::entry_at(
                m2,
                locs[k],
            )) implies Some(sum) == Some(#[trigger] sets::run_sum(y, y.len())) by {
        let x = Seq::new(n, |k: int| Slot { at: locs[k], raw: metadata::entry_at(m1, locs[k]) });
        lemma_media_sum(g, m1, x, locs, n);
        assert(y[0].raw == metadata::entry_at(m2, locs[0]));
        assert(x[0].raw.len() == 32);
        assert(codec::counted(y[0].raw, true) =~= codec::counted(x[0].raw, true));
        assert forall|k: int| 1 <= k < n implies (#[trigger] y[k]).raw == x[k].raw by {
            assert(locs[0] != locs[k]);
            assert(!seq![last].contains(locs[k]));
            assert(metadata::entry_at(m2, locs[k]) == metadata::entry_at(m1, locs[k]));
        }
        lemma_sum_same(x, y, n);
    }
}

/// Once a file's lengths and clusters are recorded, its directory lists them;
/// nothing else in the listing changes, and the directory stays sound.
pub proof fn law_recorded_lengths_are_listed(
    v: Volume,
    m: Media,
    free: u32,
    d: DirectoryModel,
    i: int,
    f: FileModel,
)
    requires
        regions::sound(v, m, free),
        directories::dir_sound(v, m, d),
        0 <= i < listing::listing(v.geometry, m, d).entries.len(),
        ({
            let e = listing::listing(v.geometry, m, d).entries[i];
            &&& f.locs == e.locs
            &&& f.primary == e.primary
            &&& f.stream == e.stream
        }),
        is_recordable(f),
    ensures
        ({
            let g = v.geometry;
            let m2 = appending::recorded(g, m, f);
            let before = listing::listing(g, m, d);
            let after = listing::listing(g, m2, d);
            &&& directories::edits(v, m, m2, free, f.locs)
            &&& directories::dir_sound(v, m2, d)
            &&& after.entries == before.entries.update(i, updated(before.entries[i], f))
            &&& after.sound == before.sound
        }),
{
    let g = v.geometry;
    let a = directories::slots_of(g, m, d);
    let end = walk::directory_slots(g, m, d).end;
    let before = listing::listing(g, m, d);
    assert forall|k: int| 0 <= k < a.len() implies (#[trigger] a[k]).raw.len() == 32 by {
        adding::lemma_slot(v, m, d, k);
        appending::lemma_home_length(
            v,
            m,
            free,
            a[k].at.lba,
            directories::home(g, a[k].at.lba),
        );
    }
    let (p, q) = sets::lemma_set_of(a, end, i);
    let x = a.subrange(p, q);
    let locs = decoding::places(a, p, q);
    let n = locs.len();
    sets::lemma_set_completes(x);
    assert(x[0] == a[p] && x[1] == a[p + 1]);
    assert(locs[0] == a[p].at && locs[1] == a[p + 1].at);
    adding::lemma_run_places(v, m, d, p, q);
    lemma_record_edits(v, m, free, f);
    let m2 = appending::recorded(g, m, f);
    adding::lemma_slots_edited(v, m, m2, free, d, locs);
    adding::lemma_spans_kept(v, m, m2, free, d, locs);
    let b = directories::slots_of(g, m2, d);
    let y = b.subrange(p, q);
    assert forall|k: int| 0 <= k < n implies (#[trigger] y[k]).raw == metadata::entry_at(
        m2,
        locs[k],
    ) && y[k].at == locs[k] && x[k].raw == metadata::entry_at(m, locs[k]) && x[k].at == locs[k] by {
        assert(y[k] == b[p + k]);
        assert(x[k] == a[p + k]);
        assert(locs[k] == a[p + k].at);
        adding::lemma_slot(v, m, d, p + k);
    }
    let sum = metadata::set_sum(
        g,
        m.insert(
            f.stream.lba,
            metadata::stream_patched(m[f.stream.lba], f.stream.offset as int, f),
        ),
        locs,
        n,
    )->0;
    assert(sum == sets::run_sum(y, y.len()));
    assert(is_patched(x, y, f, sum)) by {
        assert(y[0].raw == metadata::entry_at(m2, locs[0]));
        assert(y[1].raw == metadata::entry_at(m2, locs[1]));
        assert forall|k: int| 2 <= k < x.len() implies #[trigger] y[k] == x[k] by {
            assert(metadata::entry_at(m2, locs[k]) == metadata::entry_at(m, locs[k]));
        }
    }
    lemma_patched_set(x, y, f, sum);
    assert(sets::differ_within(a, b, p, q)) by {
        assert forall|k: int| 0 <= k < a.len() && !(p <= k < q) implies #[trigger] b[k] == a[k] by {
            assert(!locs.contains(a[k].at)) by {
                if locs.contains(a[k].at) {
                    let j = choose|j: int| 0 <= j < locs.len() && locs[j] == a[k].at;
                    adding::lemma_slots_apart(v, m, d, p + j, k);
                }
            }
        }
    }
    sets::lemma_set_rewritten(a, b, end, i, p, q);
}

/// Names find the same entries, but for the one that was changed.
pub proof fn lemma_found_changed(
    v: Volume,
    m: Media,
    m2: Media,
    a: Listing,
    b: Listing,
    i: int,
    new: EntryModel,
    name: Seq<u16>,
)
    requires
        directories::same_names(v, m, m2),
        0 <= i < a.entries.len(),
        b.entries == a.entries.update(i, new),
        b.sound == a.sound,
        new.name == a.entries[i].name,
    ensures
        match listing::find_from(v, m, a, name, 0) {
            Some(Some(found)) => listing::find_from(v, m2, b, name, 0) == Some(Some(new))
                || listing::find_from(v, m2, b, name, 0) == Some(Some(found)),
            other => listing::find_from(v, m2, b, name, 0) == other,
        },
        (forall|j: int|
            0 <= j < i ==> names::same_name(v, m, (#[trigger] a.entries[j]).name, name) == Some(
                false,
            )) && names::same_name(v, m, a.entries[i].name, name) == Some(true)
            ==> listing::find_from(v, m2, b, name, 0) == Some(Some(new)),
        names::same_name(v, m, a.entries[i].name, name) == Some(false) ==> listing::find_from(
            v,
            m2,
            b,
            name,
            0,
        ) == listing::find_from(v, m, a, name, 0),
{
    lemma_found_changed_from(v, m, m2, a, b, i, new, name, 0);
}

/// Names find the same entries from number `k` on, but for the one that was
/// changed.
proof fn lemma_found_changed_from(
    v: Volume,
    m: Media,
    m2: Media,
    a: Listing,
    b: Listing,
    i: int,
    new: EntryModel,
    name: Seq<u16>,
    k: int,
)
    requires
        directories::same_names(v, m, m2),
        0 <= i < a.entries.len(),
        b.entries == a.entries.update(i, new),
        b.sound == a.sound,
        new.name == a.entries[i].name,
        0 <= k,
    ensures
        match listing::find_from(v, m, a, name, k) {
            Some(Some(found)) => listing::find_from(v, m2, b, name, k) == Some(Some(new))
                || listing::find_from(v, m2, b, name, k) == Some(Some(found)),
            other => listing::find_from(v, m2, b, name, k) == other,
        },
        k <= i && (forall|j: int|
            k <= j < i ==> names::same_name(v, m, (#[trigger] a.entries[j]).name, name) == Some(
                false,
            )) && names::same_name(v, m, a.entries[i].name, name) == Some(true)
            ==> listing::find_from(v, m2, b, name, k) == Some(Some(new)),
        names::same_name(v, m, a.entries[i].name, name) == Some(false) ==> listing::find_from(
            v,
            m2,
            b,
            name,
            k,
        ) == listing::find_from(v, m, a, name, k),
    decreases a.entries.len() - k,
{
    if k < a.entries.len() {
        lemma_found_changed_from(v, m, m2, a, b, i, new, name, k + 1);
        directories::lemma_matches_kept(v, m, m2, a.entries[k].name, name);
        assert(b.entries[k].name == a.entries[k].name);
        if k < i {
            assert(names::same_name(v, m, a.entries[k].name, name) == names::same_name(
                v,
                m2,
                b.entries[k].name,
                name,
            ));
        }
    }
}

} // verus!
