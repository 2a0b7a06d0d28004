//! Filename and entry-set codecs.

use crate::bytes;
use crate::error::Error;
use vstd::prelude::*;
use vstd::string::StrSliceExecFns;

verus! {

/// The UTF-16 units of one character.
pub open spec fn char_units(c: char) -> Seq<u16> {
    let code = c as u32;
    if code < 0x1_0000 {
        seq![code as u16]
    } else {
        seq![
            (0xd800 + (code - 0x1_0000) / 0x400) as u16,
            (0xdc00 + (code - 0x1_0000) % 0x400) as u16,
        ]
    }
}

/// The UTF-16 units of a string.
pub open spec fn str_units(text: Seq<char>) -> Seq<u16>
    decreases text.len(),
{
    if text.len() == 0 {
        Seq::empty()
    } else {
        str_units(text.drop_last()) + char_units(text.last())
    }
}

/// Whether a name may not hold the character.
pub open spec fn is_forbidden(c: char) -> bool {
    c == '\0' || c == '/' || c == '\\'
}

/// Whether the string can name a directory entry, apart from its length.
pub open spec fn is_name(text: Seq<char>) -> bool {
    &&& text.len() != 0
    &&& text != seq!['.']
    &&& text != seq!['.', '.']
    &&& forall|i: int| 0 <= i < text.len() ==> !is_forbidden(#[trigger] text[i])
}

/// The UTF-16 units of a name, or the reason why it is not one.
pub open spec fn name_result<E>(text: Seq<char>) -> Result<Seq<u16>, Error<E>> {
    if !is_name(text) {
        Err(Error::InvalidPath)
    } else if str_units(text).len() > 255 {
        Err(Error::NameTooLong)
    } else {
        Ok(str_units(text))
    }
}

/// A part of a string has no more units than the whole.
pub proof fn lemma_units_grow(text: Seq<char>, n: int)
    requires
        0 <= n <= text.len(),
    ensures
        str_units(text.take(n)).len() <= str_units(text).len(),
    decreases text.len(),
{
    if n < text.len() {
        assert(text.drop_last().take(n) =~= text.take(n));
        lemma_units_grow(text.drop_last(), n);
    } else {
        assert(text.take(n) =~= text);
    }
}

/// Check that a string can name a directory entry, apart from its length.
fn check_name(name: &str) -> (ok: bool)
    ensures
        ok == is_name(name@),
{
    let count: usize = name.unicode_len();
    if count == 0 {
        return false;
    }
    if count == 1 && name.get_char(0) == '.' {
        assert(name@ =~= seq!['.']);
        return false;
    }
    if count == 2 && name.get_char(0) == '.' && name.get_char(1) == '.' {
        assert(name@ =~= seq!['.', '.']);
        return false;
    }
    assert(seq!['.'][0] == '.');
    assert(seq!['.', '.'][0] == '.' && seq!['.', '.'][1] == '.');
    let mut i: usize = 0;
    while i < count
        invariant
            i <= count,
            count == name@.len(),
            forall|k: int| 0 <= k < i ==> !is_forbidden(#[trigger] name@[k]),
        decreases count - i,
    {
        let c: char = name.get_char(i);
        if c == '\0' || c == '/' || c == '\\' {
            assert(is_forbidden(name@[i as int]));
            return false;
        }
        i = i + 1;
    }
    true
}

/// Convert a name to UTF-16.
pub fn utf8_to_utf16<E>(name: &str, out: &mut [u16; 255]) -> (result: Result<usize, Error<E>>)
    ensures
        match name_result::<E>(name@) {
            Ok(units) => {
                &&& result == Ok::<usize, Error<E>>(units.len() as usize)
                &&& units.len() <= 255
                &&& final(out)@.take(units.len() as int) == units
                &&& final(out)@.skip(units.len() as int) == old(out)@.skip(units.len() as int)
            },
            Err(error) => {
                &&& result == Err::<usize, Error<E>>(error)
                &&& error == Error::<E>::InvalidPath ==> final(out)@ == old(out)@
            },
        },
{
    if !check_name(name) {
        return Err(Error::InvalidPath);
    }
    let count: usize = name.unicode_len();
    let mut written: usize = 0;
    let mut i: usize = 0;
    assert(out@.take(0) =~= str_units(name@.take(0)));
    while i < count
        invariant
            i <= count,
            count == name@.len(),
            is_name(name@),
            written <= 255,
            out@.take(written as int) == str_units(name@.take(i as int)),
            written == str_units(name@.take(i as int)).len(),
            out@.skip(written as int) == old(out)@.skip(written as int),
        decreases count - i,
    {
        let c: char = name.get_char(i);
        let code: u32 = c as u32;
        let needed: usize = if code < 0x1_0000 {
            1
        } else {
            2
        };
        let ghost before = out@.take(written as int);
        let ghost kept = out@;
        let ghost from = written as int;
        proof {
            assert(name@.take(i + 1).drop_last() =~= name@.take(i as int));
            assert(str_units(name@.take(i + 1)) == before + char_units(c));
            lemma_units_grow(name@, i + 1);
        }
        if written + needed > 255 {
            return Err(Error::NameTooLong);
        }
        if code < 0x1_0000 {
            out[written] = code as u16;
        } else {
            out[written] = (0xd800 + (code - 0x1_0000) / 0x400) as u16;
            out[written + 1] = (0xdc00 + (code - 0x1_0000) % 0x400) as u16;
        }
        written = written + needed;
        assert(out@.take(written as int) =~= before + char_units(c));
        assert(out@.skip(written as int) =~= old(out)@.skip(written as int)) by {
            assert forall|k: int| written <= k < 255 implies out@[k] == old(out)@[k] by {
                assert(kept.skip(from)[k - from] == old(out)@.skip(from)[k - from]);
            }
        }
        i = i + 1;
    }
    assert(name@.take(count as int) =~= name@);
    Ok(written)
}

/// The bytes of an entry that the entry-set checksum covers: all but the
/// checksum field of the primary entry itself.
pub open spec fn counted(entry: Seq<u8>, primary: bool) -> Seq<u8> {
    if primary {
        entry.take(2) + entry.skip(4)
    } else {
        entry
    }
}

/// An entry-set checksum extended by one entry.
pub open spec fn entry_sum(sum: u16, entry: Seq<u8>, primary: bool) -> u16 {
    bytes::sum16(sum, counted(entry, primary))
}

/// Extend an exFAT entry-set checksum with one complete 32-byte directory
/// entry. Keeping this incremental lets callers write an entry set spanning
/// several sectors while retaining only one caller-owned sector scratch.
pub fn entry_set_checksum_step(sum: u16, entry: &[u8], primary: bool) -> (next: u16)
    requires
        entry.len() >= 4,
    ensures
        next == entry_sum(sum, entry@, primary),
{
    if primary {
        let head: u16 = bytes::roll16_range(sum, entry, 0, 2);
        proof {
            assert(entry@.subrange(0, 2) =~= entry@.take(2));
            assert(entry@.subrange(4, entry@.len() as int) =~= entry@.skip(4));
            bytes::lemma_sum16_concat(sum, entry@.take(2), entry@.skip(4));
        }
        bytes::roll16_range(head, entry, 4, entry.len())
    } else {
        assert(entry@.subrange(0, entry@.len() as int) =~= entry@);
        bytes::roll16_range(sum, entry, 0, entry.len())
    }
}

} // verus!
