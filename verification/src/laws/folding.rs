//! Upper-case forms, and the hash and the comparison that go by them.

use crate::bytes;
use crate::device::Media;
use crate::directory::entry::DirectoryModel;
use crate::fs::listing;
use crate::fs::listing::Listing;
use crate::fs::names;
use crate::mount::Volume;
use vstd::prelude::*;

verus! {

/// Only the letters `a` to `z` of ASCII have another upper-case form, which is
/// the letter 32 codes before; the volume's table has no say in it.
pub proof fn law_ascii_folds_by_itself(v: Volume, media: Media, unit: u16)
    requires
        unit < 128,
    ensures
        97 <= unit <= 122 ==> names::upcase(v, media, unit) == Some((unit - 32) as u16),
        !(97 <= unit <= 122) ==> names::upcase(v, media, unit) == Some(unit),
{
}

/// Whether the steps lead through the UpCase table from its start, in order:
/// each step is a byte of the table and the code of the unit whose form comes
/// next. A word `0xffff` and the count behind it pass that many codes, and any
/// other word passes one.
pub open spec fn leads_through(v: Volume, media: Media, steps: Seq<(int, int)>) -> bool {
    &&& steps.len() > 0
    &&& steps[0] == (0int, 0int)
    &&& forall|i: int|
        0 <= i < steps.len() - 1 ==> {
            let (byte, code) = #[trigger] steps[i];
            let (later, next) = steps[i + 1];
            match names::upcase_word(v, media, byte) {
                None => false,
                Some(word) => if word == 0xffff {
                    match names::upcase_word(v, media, byte + 2) {
                        None => false,
                        Some(count) => later == byte + 4 && next == code + count,
                    }
                } else {
                    later == byte + 2 && next == code + 1
                },
            }
        }
}

/// The codes that the steps pass.
proof fn lemma_codes_rise(v: Volume, media: Media, steps: Seq<(int, int)>, i: int, j: int)
    requires
        leads_through(v, media, steps),
        0 <= i <= j < steps.len(),
    ensures
        0 <= steps[i].1 <= steps[j].1,
    decreases j,
{
    if i < j {
        lemma_codes_rise(v, media, steps, i, j - 1);
        let (byte, code) = steps[j - 1];
        assert(steps[j - 1 + 1] == steps[j]);
    } else if i > 0 {
        lemma_codes_rise(v, media, steps, i - 1, j - 1);
        let (byte, code) = steps[i - 1];
        assert(steps[i - 1 + 1] == steps[i]);
    }
}

/// Reading on from a step gives what reading from the start gives, for a unit
/// that the steps have not passed.
proof fn lemma_scan_from_step(v: Volume, media: Media, unit: u16, steps: Seq<(int, int)>, i: int)
    requires
        leads_through(v, media, steps),
        0 <= i < steps.len(),
        steps[i].1 <= unit,
    ensures
        names::upcase_scan(v, media, unit, 0, 0) == names::upcase_scan(
            v,
            media,
            unit,
            steps[i].1,
            steps[i].0,
        ),
    decreases i,
{
    if i > 0 {
        lemma_codes_rise(v, media, steps, i - 1, i);
        lemma_scan_from_step(v, media, unit, steps, i - 1);
        let (byte, code) = steps[i - 1];
        assert(steps[i - 1 + 1] == steps[i]);
    }
}

/// The UpCase table is read in order from its start. Where it comes to a word
/// for the code of a unit above ASCII, that word is the unit's upper-case form;
/// where the code falls into a range that maps to itself, the unit is its own
/// form; and where the table cannot be read on before the code is passed, the
/// unit has no form.
pub proof fn law_table_decides_the_form(
    v: Volume,
    media: Media,
    unit: u16,
    steps: Seq<(int, int)>,
)
    requires
        unit > 0x7f,
        leads_through(v, media, steps),
        steps.last().1 <= unit,
    ensures
        ({
            let (byte, code) = steps.last();
            match names::upcase_word(v, media, byte) {
                None => names::upcase(v, media, unit) is None,
                Some(word) => if word == 0xffff {
                    match names::upcase_word(v, media, byte + 2) {
                        None => names::upcase(v, media, unit) is None,
                        Some(count) => unit < code + count ==> names::upcase(v, media, unit)
                            == Some(unit),
                    }
                } else {
                    unit == code ==> names::upcase(v, media, unit) == Some(word)
                },
            }
        }),
{
    lemma_codes_rise(v, media, steps, 0, steps.len() - 1);
    lemma_scan_from_step(v, media, unit, steps, steps.len() - 1);
}

/// Where the table has a plain word for every unit up to `unit`, the form of
/// `unit` is the word with its number.
pub proof fn law_plain_table_is_indexed_by_unit(v: Volume, media: Media, unit: u16)
    requires
        unit > 0x7f,
        forall|i: int|
            0 <= i <= unit ==> {
                let word = #[trigger] names::upcase_word(v, media, 2 * i);
                word is Some && word != Some(0xffffu16)
            },
    ensures
        names::upcase(v, media, unit) == names::upcase_word(v, media, 2 * (unit as int)),
{
    let steps = Seq::new((unit + 1) as nat, |i: int| (2 * i, i));
    assert forall|i: int| 0 <= i < steps.len() - 1 implies ({
        let (byte, code) = #[trigger] steps[i];
        let (later, next) = steps[i + 1];
        match names::upcase_word(v, media, byte) {
            None => false,
            Some(word) => if word == 0xffff {
                match names::upcase_word(v, media, byte + 2) {
                    None => false,
                    Some(count) => later == byte + 4 && next == code + count,
                }
            } else {
                later == byte + 2 && next == code + 1
            },
        }
    }) by {
        assert(names::upcase_word(v, media, 2 * i) is Some);
    }
    assert(names::upcase_word(v, media, 2 * (unit as int)) is Some);
    law_table_decides_the_form(v, media, unit, steps);
}

/// The hash of a name is the 16-bit checksum of the bytes of its upper-case
/// form, both bytes of every unit, the low one first, and a name has one where
/// every unit has an upper-case form.
pub proof fn law_hash_covers_every_byte(v: Volume, media: Media, name: Seq<u16>, data: Seq<u8>)
    requires
        data.len() == 2 * name.len(),
        forall|i: int|
            0 <= i < name.len() ==> match names::upcase(v, media, #[trigger] name[i]) {
                Some(unit) => data[2 * i] + 256 * data[2 * i + 1] == unit,
                None => false,
            },
    ensures
        names::name_hash(v, media, name) == Some(bytes::sum16(0, data)),
    decreases name.len(),
{
    if name.len() > 0 {
        let n = name.len() - 1;
        let head = data.take(2 * n);
        assert(data.drop_last().drop_last() =~= head);
        assert forall|i: int| 0 <= i < name.drop_last().len() implies match names::upcase(
            v,
            media,
            #[trigger] name.drop_last()[i],
        ) {
            Some(unit) => head[2 * i] + 256 * head[2 * i + 1] == unit,
            None => false,
        } by {
            assert(name.drop_last()[i] == name[i]);
        }
        law_hash_covers_every_byte(v, media, name.drop_last(), head);
        assert(name[n] == name.last());
        let unit = names::upcase(v, media, name.last())->0;
        assert(data[2 * n] == unit % 0x100 && data[2 * n + 1] == unit / 0x100);
        assert(data.drop_last().last() == data[2 * n]);
        assert(data.last() == data[2 * n + 1]);
        assert(bytes::sum16(0, data.drop_last()) == bytes::rolled16(
            bytes::sum16(0, head),
            data[2 * n],
        ));
        assert(bytes::sum16(0, data) == names::hashed(bytes::sum16(0, head), unit));
    } else {
        assert(data =~= Seq::empty());
    }
}

/// A name has no hash where one of its units has no upper-case form.
pub proof fn law_hash_needs_every_form(v: Volume, media: Media, name: Seq<u16>, k: int)
    requires
        0 <= k < name.len(),
        names::upcase(v, media, name[k]) is None,
    ensures
        names::name_hash(v, media, name) is None,
    decreases name.len(),
{
    if k < name.len() - 1 {
        assert(name.drop_last()[k] == name[k]);
        law_hash_needs_every_form(v, media, name.drop_last(), k);
    }
}

/// What comparing from unit `i` on says.
proof fn lemma_match_meaning(v: Volume, media: Media, left: Seq<u16>, right: Seq<u16>, i: int)
    requires
        left.len() == right.len(),
        0 <= i,
    ensures
        match names::match_from(v, media, left, right, i) {
            Some(true) => forall|k: int|
                i <= k < left.len() ==> {
                    &&& names::upcase(v, media, #[trigger] left[k]) is Some
                    &&& names::upcase(v, media, left[k]) == names::upcase(v, media, right[k])
                },
            Some(false) => exists|k: int|
                {
                    &&& i <= k < left.len()
                    &&& names::upcase(v, media, #[trigger] left[k]) is Some
                    &&& names::upcase(v, media, right[k]) is Some
                    &&& names::upcase(v, media, left[k]) != names::upcase(v, media, right[k])
                },
            None => exists|k: int|
                {
                    &&& i <= k < left.len()
                    &&& names::upcase(v, media, #[trigger] left[k]) is None || names::upcase(
                        v,
                        media,
                        right[k],
                    ) is None
                },
        },
    decreases left.len() - i,
{
    if i < left.len() {
        lemma_match_meaning(v, media, left, right, i + 1);
    }
}

/// Names are equal up to case where they are equally long and each unit of the
/// one has the same upper-case form as that unit of the other; they differ where
/// the lengths or two forms differ; and nothing can be said only where some unit
/// has no form.
pub proof fn law_names_compare_by_form(v: Volume, media: Media, left: Seq<u16>, right: Seq<u16>)
    ensures
        match names::same_name(v, media, left, right) {
            Some(true) => left.len() == right.len() && forall|k: int|
                0 <= k < left.len() ==> {
                    &&& names::upcase(v, media, #[trigger] left[k]) is Some
                    &&& names::upcase(v, media, left[k]) == names::upcase(v, media, right[k])
                },
            Some(false) => left.len() != right.len() || exists|k: int|
                {
                    &&& 0 <= k < left.len()
                    &&& names::upcase(v, media, #[trigger] left[k]) is Some
                    &&& names::upcase(v, media, right[k]) is Some
                    &&& names::upcase(v, media, left[k]) != names::upcase(v, media, right[k])
                },
            None => left.len() == right.len() && exists|k: int|
                {
                    &&& 0 <= k < left.len()
                    &&& names::upcase(v, media, #[trigger] left[k]) is None || names::upcase(
                        v,
                        media,
                        right[k],
                    ) is None
                },
        },
{
    if left.len() == right.len() {
        lemma_match_meaning(v, media, left, right, 0);
    }
}

/// What searching a listing from entry `i` on says.
proof fn lemma_find_meaning(v: Volume, media: Media, list: Listing, name: Seq<u16>, i: int)
    requires
        0 <= i,
    ensures
        match listing::find_from(v, media, list, name, i) {
            Some(Some(found)) => exists|k: int|
                {
                    &&& i <= k < list.entries.len()
                    &&& #[trigger] list.entries[k] == found
                    &&& names::same_name(v, media, found.name, name) == Some(true)
                    &&& forall|j: int|
                        i <= j < k ==> names::same_name(
                            v,
                            media,
                            #[trigger] list.entries[j].name,
                            name,
                        ) == Some(false)
                },
            Some(None) => list.sound && forall|j: int|
                i <= j < list.entries.len() ==> names::same_name(
                    v,
                    media,
                    #[trigger] list.entries[j].name,
                    name,
                ) == Some(false),
            None => !list.sound || exists|k: int|
                i <= k < list.entries.len() && names::same_name(
                    v,
                    media,
                    #[trigger] list.entries[k].name,
                    name,
                ) is None,
        },
    decreases list.entries.len() - i,
{
    if i < list.entries.len() {
        let same = names::same_name(v, media, list.entries[i].name, name);
        if same == Some(false) {
            lemma_find_meaning(v, media, list, name, i + 1);
            match listing::find_from(v, media, list, name, i + 1) {
                Some(Some(found)) => {
                    let k = choose|k: int|
                        {
                            &&& i + 1 <= k < list.entries.len()
                            &&& #[trigger] list.entries[k] == found
                            &&& names::same_name(v, media, found.name, name) == Some(true)
                            &&& forall|j: int|
                                i + 1 <= j < k ==> names::same_name(
                                    v,
                                    media,
                                    #[trigger] list.entries[j].name,
                                    name,
                                ) == Some(false)
                        };
                    assert forall|j: int| i <= j < k implies names::same_name(
                        v,
                        media,
                        #[trigger] list.entries[j].name,
                        name,
                    ) == Some(false) by {
                        if i < j {
                            assert(names::same_name(v, media, list.entries[j].name, name) == Some(
                                false,
                            ));
                        }
                    }
                    assert(list.entries[k] == found);
                },
                Some(None) => {},
                None => {},
            }
        } else {
            assert(list.entries[i].name == list.entries[i].name);
        }
    }
}

/// Looking a name up in a directory finds the first entry that has the name, up
/// to case, and nothing only where the whole directory was read and no entry
/// has it.
pub proof fn law_lookup_finds_the_first_match(
    v: Volume,
    media: Media,
    d: DirectoryModel,
    name: Seq<u16>,
)
    ensures
        ({
            let list = listing::listing(v.geometry, media, d);
            match listing::child(v, media, d, name) {
                Some(Some(found)) => exists|k: int|
                    {
                        &&& 0 <= k < list.entries.len()
                        &&& #[trigger] list.entries[k] == found
                        &&& names::same_name(v, media, found.name, name) == Some(true)
                        &&& forall|j: int|
                            0 <= j < k ==> names::same_name(
                                v,
                                media,
                                #[trigger] list.entries[j].name,
                                name,
                            ) == Some(false)
                    },
                Some(None) => list.sound && forall|j: int|
                    0 <= j < list.entries.len() ==> names::same_name(
                        v,
                        media,
                        #[trigger] list.entries[j].name,
                        name,
                    ) == Some(false),
                None => !list.sound || exists|k: int|
                    0 <= k < list.entries.len() && names::same_name(
                        v,
                        media,
                        #[trigger] list.entries[k].name,
                        name,
                    ) is None,
            }
        }),
{
    lemma_find_meaning(v, media, listing::listing(v.geometry, media, d), name, 0);
}

} // verus!
