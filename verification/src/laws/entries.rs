//! What is written as an entry set is read back as the same file or
//! directory.

use crate::bytes;
use crate::directory::codec;
use crate::directory::entry;
use crate::directory::entry::{DecoderModel, EntryModel};
use crate::directory::slots::{EntryLocator, Slot};
use crate::fs::metadata;
use crate::fs::metadata::SetModel;
use vstd::prelude::*;

verus! {

/// Entry number `i` of a set of `n` entries as it stands on the media once the
/// set is complete: the primary entry carries the checksum.
pub open spec fn sealed_entry(s: SetModel, hash: u16, n: nat, i: int) -> Seq<u8> {
    if i == 0 {
        bytes::splice(
            metadata::primary_entry(s),
            2,
            bytes::le16(metadata::new_sum(s, hash, n)),
        )
    } else {
        metadata::set_entry(s, hash, i)
    }
}

/// Whether a set can stand on a volume: it has a name of legal length, and its
/// stream fits together.
pub open spec fn is_writable(s: SetModel) -> bool {
    &&& 1 <= s.name.len() <= 255
    &&& s.valid_length <= s.data_length
    &&& s.data_length == 0 || s.first_cluster >= 2
}

/// Number of entries of a set.
pub open spec fn entry_count(s: SetModel) -> nat {
    (metadata::name_entries(s.name.len() as int) + 2) as nat
}

/// The entries of a complete set, at `locs`.
pub open spec fn set_slots(s: SetModel, hash: u16, locs: Seq<EntryLocator>) -> Seq<Slot> {
    Seq::new(
        locs.len(),
        |i: int| Slot { at: locs[i], raw: sealed_entry(s, hash, locs.len(), i) },
    )
}

/// The file or directory that a set at `locs` describes.
pub open spec fn described(s: SetModel, locs: Seq<EntryLocator>) -> EntryModel {
    EntryModel {
        is_directory: s.attributes / 0x10 % 2 == 1,
        first_cluster: s.first_cluster,
        data_length: s.data_length,
        valid_length: s.valid_length,
        no_fat_chain: s.no_fat_chain,
        created: s.created,
        modified: s.modified,
        accessed: entry::ExfatTimestamp { ten_millis: 0, ..s.accessed },
        name: s.name,
        primary: locs[0],
        stream: locs[1],
        locs,
    }
}

/// A decoder's state after the first `k` of `slots`.
pub open spec fn after(decoder: DecoderModel, slots: Seq<Slot>, k: nat) -> DecoderModel
    decreases k,
{
    if k == 0 {
        decoder
    } else {
        after(decoder, slots, (k - 1) as nat).push(slots[k - 1].raw, slots[k - 1].at).0
    }
}

/// A decoder's answer to slot number `k`.
pub open spec fn reply(decoder: DecoderModel, slots: Seq<Slot>, k: nat) -> entry::Decoded {
    after(decoder, slots, k).push(slots[k as int].raw, slots[k as int].at).1
}

/// The fields of a primary entry.
proof fn lemma_primary(s: SetModel, hash: u16, n: nat, at: EntryLocator)
    requires
        is_writable(s),
        n == entry_count(s),
    ensures
        ({
            let raw = sealed_entry(s, hash, n, 0);
            let state = DecoderModel::primary(raw, at);
            &&& raw.len() == 32
            &&& raw[0] == 0x85
            &&& raw[1] == n - 1
            &&& state.expected == metadata::new_sum(s, hash, n)
            &&& state.sum == metadata::new_sum(s, hash, 1)
            &&& state.entry.is_directory == (s.attributes / 0x10 % 2 == 1)
            &&& state.entry.created == s.created
            &&& state.entry.modified == s.modified
            &&& state.entry.accessed == (entry::ExfatTimestamp { ten_millis: 0, ..s.accessed })
        }),
{
    let blank = metadata::primary_entry(s);
    let sum = metadata::new_sum(s, hash, n);
    let raw = sealed_entry(s, hash, n, 0);
    assert(blank.len() == 32);
    assert(raw.subrange(2, 4) =~= bytes::le16(sum));
    bytes::lemma_le16_reads_back(raw, 2, sum);
    assert(raw.subrange(4, 6) =~= bytes::le16(s.attributes));
    bytes::lemma_le16_reads_back(raw, 4, s.attributes);
    assert(raw[4] == (s.attributes % 0x100) as u8);
    assert((s.attributes % 0x100) / 0x10 % 2 == s.attributes / 0x10 % 2);
    assert(raw.subrange(8, 12) =~= bytes::le32(s.created.date_time));
    bytes::lemma_le32_reads_back(raw, 8, s.created.date_time);
    assert(raw.subrange(12, 16) =~= bytes::le32(s.modified.date_time));
    bytes::lemma_le32_reads_back(raw, 12, s.modified.date_time);
    assert(raw.subrange(16, 20) =~= bytes::le32(s.accessed.date_time));
    bytes::lemma_le32_reads_back(raw, 16, s.accessed.date_time);
    assert(codec::counted(raw, true) =~= codec::counted(blank, true));
    reveal_with_fuel(metadata::new_sum, 2);
}

/// The fields of a stream extension.
proof fn lemma_stream(s: SetModel, hash: u16)
    requires
        is_writable(s),
    ensures
        ({
            let raw = metadata::stream_entry(s, hash);
            &&& raw.len() == 32
            &&& raw[0] == 0xc0
            &&& raw[3] == s.name.len()
            &&& (raw[1] / 2 % 2 == 1) == s.no_fat_chain
            &&& bytes::u64_at(raw, 8) == s.valid_length
            &&& bytes::u32_at(raw, 20) == s.first_cluster
            &&& bytes::u64_at(raw, 24) == s.data_length
            &&& entry::stream_ok(raw)
        }),
{
    let raw = metadata::stream_entry(s, hash);
    assert(raw.subrange(8, 16) =~= bytes::le64(s.valid_length));
    bytes::lemma_le64_reads_back(raw, 8, s.valid_length);
    assert(raw.subrange(20, 24) =~= bytes::le32(s.first_cluster));
    bytes::lemma_le32_reads_back(raw, 20, s.first_cluster);
    assert(raw.subrange(24, 32) =~= bytes::le64(s.data_length));
    bytes::lemma_le64_reads_back(raw, 24, s.data_length);
}

/// The units of a name entry.
pub proof fn lemma_name_units(name: Seq<u16>, begin: int, k: int)
    requires
        0 <= begin,
        0 <= k < 15,
        begin + k < name.len(),
    ensures
        entry::name_units(metadata::name_entry(name, begin))[k] == name[begin + k],
{
    let raw = metadata::name_entry(name, begin);
    assert(raw[2 + 2 * k] == (name[begin + k] % 0x100) as u8);
    assert(raw[2 + 2 * k + 1] == (name[begin + k] / 0x100) as u8);
}

/// What a decoder makes of a primary entry between sets.
pub proof fn lemma_push_primary(decoder: DecoderModel, raw: Seq<u8>, at: EntryLocator)
    requires
        decoder.idle(),
        raw[0] == 0x85,
        raw[1] >= 2,
    ensures
        decoder.push(raw, at) == (DecoderModel::primary(raw, at), Some(None::<EntryModel>)),
{
    reveal(DecoderModel::push);
}

/// What a decoder makes of a stream extension behind a primary entry.
pub proof fn lemma_push_stream(decoder: DecoderModel, raw: Seq<u8>, at: EntryLocator)
    requires
        decoder.left > 0,
        !decoder.ignored,
        !decoder.stream_seen,
        decoder.entry.locs.len() == 1,
        raw[0] == 0xc0,
        entry::stream_ok(raw),
    ensures
        ({
            let next = decoder.stream(raw, at).counted();
            decoder.push(raw, at) == (next, next.outcome())
        }),
{
    reveal(DecoderModel::push);
}

/// What a decoder makes of a name entry.
pub proof fn lemma_push_name(decoder: DecoderModel, raw: Seq<u8>, at: EntryLocator)
    requires
        decoder.left > 0,
        !decoder.ignored,
        decoder.stream_seen,
        decoder.written < decoder.name_len,
        decoder.entry.locs.len() < 19,
        raw[0] == 0xc1,
    ensures
        ({
            let next = decoder.name(raw, at).counted();
            decoder.push(raw, at) == (next, next.outcome())
        }),
{
    reveal(DecoderModel::push);
}

/// The decoder's state within a set.
proof fn lemma_within(
    decoder: DecoderModel,
    s: SetModel,
    hash: u16,
    locs: Seq<EntryLocator>,
    k: nat,
)
    requires
        decoder.idle(),
        is_writable(s),
        locs.len() == entry_count(s),
        2 <= k <= locs.len(),
    ensures
        ({
            let state = after(decoder, set_slots(s, hash, locs), k);
            let units = if 15 * (k - 2) < s.name.len() {
                15 * (k - 2)
            } else {
                s.name.len() as int
            };
            &&& state.left == locs.len() - k
            &&& state.stream_seen
            &&& state.name_len == s.name.len()
            &&& state.written == 15 * (k - 2)
            &&& state.expected == metadata::new_sum(s, hash, locs.len())
            &&& state.sum == metadata::new_sum(s, hash, k)
            &&& !state.ignored
            &&& state.entry == (EntryModel {
                name: s.name.take(units),
                locs: locs.take(k as int),
                ..described(s, locs)
            })
        }),
    decreases k,
{
    let slots = set_slots(s, hash, locs);
    let n = locs.len();
    if k == 2 {
        lemma_primary(s, hash, n, locs[0]);
        lemma_stream(s, hash);
        assert(after(decoder, slots, 0) == decoder);
        lemma_push_primary(decoder, slots[0].raw, locs[0]);
        let one = after(decoder, slots, 1);
        assert(one == DecoderModel::primary(slots[0].raw, locs[0]));
        lemma_push_stream(one, slots[1].raw, locs[1]);
        let two = after(decoder, slots, 2);
        assert(two == one.stream(slots[1].raw, locs[1]).counted());
        assert(two.sum == metadata::new_sum(s, hash, 2));
        assert(two.entry.locs =~= locs.take(2));
        assert(two.entry.name =~= s.name.take(0));
    } else {
        let p = (k - 1) as nat;
        lemma_within(decoder, s, hash, locs, p);
        let before = after(decoder, slots, p);
        let raw = slots[p as int].raw;
        let begin = 15 * (p - 2);
        assert(raw == metadata::name_entry(s.name, begin));
        assert(begin < s.name.len());
        assert(raw[0] == 0xc1);
        lemma_push_name(before, raw, locs[p as int]);
        let state = before.name(raw, locs[p as int]).counted();
        assert(after(decoder, slots, k) == state);
        let room = if s.name.len() - begin < 15 {
            s.name.len() - begin
        } else {
            15
        };
        assert(state.entry.name =~= s.name.take(begin + room)) by {
            assert forall|i: int| 0 <= i < begin + room implies state.entry.name[i] == s.name[i] by {
                if i >= begin {
                    lemma_name_units(s.name, begin, i - begin);
                }
            }
        }
        assert(state.entry.locs =~= locs.take(k as int));
    }
}

/// Every entry of a set has its in-use bit set.
pub proof fn lemma_kinds(s: SetModel, hash: u16, n: nat, i: int)
    requires
        0 <= i,
    ensures
        sealed_entry(s, hash, n, i)[0] >= 0x80,
        sealed_entry(s, hash, n, i).len() == 32,
{
    assert(metadata::primary_entry(s).len() == 32);
    assert(metadata::stream_entry(s, hash).len() == 32);
}

/// Every entry of a set has the size of a slot.
pub proof fn lemma_entry_size(s: SetModel, hash: u16, i: int)
    requires
        0 <= i,
    ensures
        metadata::set_entry(s, hash, i).len() == 32,
{
    assert(metadata::primary_entry(s).len() == 32);
    assert(metadata::stream_entry(s, hash).len() == 32);
}

/// Encoding and decoding are inverse: the entries that a new set is written
/// as are read back as the file or directory that it describes, by a decoder
/// that is not within another set. Only the last entry completes it, and none
/// is malformed. An access time has no finer resolution than two seconds.
pub proof fn law_entry_set_reads_back(
    decoder: DecoderModel,
    s: SetModel,
    hash: u16,
    locs: Seq<EntryLocator>,
)
    requires
        decoder.idle(),
        is_writable(s),
        locs.len() == entry_count(s),
    ensures
        forall|k: nat|
            k < locs.len() - 1 ==> #[trigger] reply(decoder, set_slots(s, hash, locs), k) == Some(
                None::<EntryModel>,
            ),
        reply(decoder, set_slots(s, hash, locs), (locs.len() - 1) as nat) == Some(
            Some(described(s, locs)),
        ),
        after(decoder, set_slots(s, hash, locs), locs.len()).idle(),
{
    let slots = set_slots(s, hash, locs);
    let n = locs.len();
    lemma_primary(s, hash, n, locs[0]);
    lemma_stream(s, hash);
    lemma_push_primary(decoder, slots[0].raw, locs[0]);
    assert(after(decoder, slots, 0) == decoder);
    let one = after(decoder, slots, 1);
    assert(one == DecoderModel::primary(slots[0].raw, locs[0]));
    lemma_push_stream(one, slots[1].raw, locs[1]);
    assert forall|k: nat| k < n - 1 implies #[trigger] reply(decoder, slots, k) == Some(
        None::<EntryModel>,
    ) by {
        if k >= 2 {
            lemma_name_reply(decoder, s, hash, locs, k);
        }
    }
    lemma_name_reply(decoder, s, hash, locs, (n - 1) as nat);
    lemma_within(decoder, s, hash, locs, n);
}

/// A decoder's answer to a name entry.
proof fn lemma_name_reply(
    decoder: DecoderModel,
    s: SetModel,
    hash: u16,
    locs: Seq<EntryLocator>,
    k: nat,
)
    requires
        decoder.idle(),
        is_writable(s),
        locs.len() == entry_count(s),
        2 <= k < locs.len(),
    ensures
        reply(decoder, set_slots(s, hash, locs), k) == if k < locs.len() - 1 {
            Some(None::<EntryModel>)
        } else {
            Some(Some(described(s, locs)))
        },
{
    let slots = set_slots(s, hash, locs);
    let n = locs.len();
    lemma_within(decoder, s, hash, locs, k);
    lemma_within(decoder, s, hash, locs, k + 1);
    let before = after(decoder, slots, k);
    let raw = slots[k as int].raw;
    assert(raw == metadata::name_entry(s.name, 15 * (k - 2)));
    assert(15 * (k - 2) < s.name.len());
    assert(raw[0] == 0xc1);
    lemma_push_name(before, raw, locs[k as int]);
    let next = after(decoder, slots, k + 1);
    assert(next == before.name(raw, locs[k as int]).counted());
    if k == n - 1 {
        assert(locs.take(n as int) =~= locs);
        assert(s.name.take(s.name.len() as int) =~= s.name);
        assert(next.entry == described(s, locs));
    }
}

/// The entry-set checksum does not cover its own field: whatever the primary
/// entry's checksum bytes are, the checksum is the same.
pub proof fn law_checksum_leaves_itself_out(sum: u16, entry: Seq<u8>, recorded: Seq<u8>)
    requires
        entry.len() == 32,
        recorded.len() == 2,
    ensures
        codec::entry_sum(sum, bytes::splice(entry, 2, recorded), true) == codec::entry_sum(
            sum,
            entry,
            true,
        ),
{
    assert(codec::counted(bytes::splice(entry, 2, recorded), true) =~= codec::counted(
        entry,
        true,
    ));
}

} // verus!
