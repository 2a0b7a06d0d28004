//! Case-insensitive names: the volume's UpCase table, name comparison and the
//! name hash.

use crate::arith;
use crate::bytes;
use crate::device::{BlockDevice, Media, Scratch};
use crate::error;
use crate::error::Error;
use crate::fs::allocation;
use crate::fs::state;
use crate::fs::state::FileSystem;
use crate::mount::Volume;
use vstd::prelude::*;

verus! {

/// The word of the UpCase table that starts at byte `byte`.
pub open spec fn upcase_word(v: Volume, media: Media, byte: int) -> Option<u16> {
    let g = v.geometry;
    if byte + 2 > v.upcase.byte_length {
        None
    } else {
        let cluster = allocation::cluster_of(
            g,
            media,
            v.upcase.first_cluster,
            byte / g.cluster_bytes(),
        );
        match allocation::place(g, cluster, byte) {
            Some((lba, offset)) => if offset + 2 <= g.bytes_per_sector {
                Some(bytes::u16_at(media[lba], offset))
            } else {
                None
            },
            None => None,
        }
    }
}

/// What the UpCase table maps `unit` to, read from byte `byte` on, where the
/// next mapping is that of `code`. The word `0xffff` says how many of the next
/// units map to themselves.
pub open spec fn upcase_scan(v: Volume, media: Media, unit: u16, code: int, byte: int) -> Option<
    u16,
>
    decreases v.upcase.byte_length - byte,
{
    if byte + 2 > v.upcase.byte_length || code > u32::MAX {
        None
    } else {
        match upcase_word(v, media, byte) {
            None => None,
            Some(value) => if value == 0xffff {
                match upcase_word(v, media, byte + 2) {
                    None => None,
                    Some(skipped) => if code <= unit < code + skipped {
                        Some(unit)
                    } else {
                        upcase_scan(v, media, unit, code + skipped, byte + 4)
                    },
                }
            } else if code == unit {
                Some(value)
            } else {
                upcase_scan(v, media, unit, code + 1, byte + 2)
            },
        }
    }
}

/// The upper-case form of an ASCII unit.
pub open spec fn ascii_upcase(unit: u16) -> u16 {
    if 0x61 <= unit <= 0x7a {
        (unit - 0x20) as u16
    } else {
        unit
    }
}

/// The upper-case form of a unit: fixed for ASCII, and what the volume's table
/// says for all others.
pub open spec fn upcase(v: Volume, media: Media, unit: u16) -> Option<u16> {
    if unit <= 0x7f {
        Some(ascii_upcase(unit))
    } else {
        upcase_scan(v, media, unit, 0, 0)
    }
}

/// Whether two names of the same length are equal up to case from unit `i` on.
pub open spec fn match_from(
    v: Volume,
    media: Media,
    left: Seq<u16>,
    right: Seq<u16>,
    i: int,
) -> Option<bool>
    decreases left.len() - i,
{
    if i >= left.len() {
        Some(true)
    } else {
        match (upcase(v, media, left[i]), upcase(v, media, right[i])) {
            (Some(a), Some(b)) => if a == b {
                match_from(v, media, left, right, i + 1)
            } else {
                Some(false)
            },
            _ => None,
        }
    }
}

/// Whether two names are equal up to case.
pub open spec fn same_name(v: Volume, media: Media, left: Seq<u16>, right: Seq<u16>) -> Option<
    bool,
> {
    if left.len() != right.len() {
        Some(false)
    } else {
        match_from(v, media, left, right, 0)
    }
}

/// A name hash extended by the two bytes of one upper-case unit.
pub open spec fn hashed(sum: u16, unit: u16) -> u16 {
    bytes::rolled16(bytes::rolled16(sum, (unit % 0x100) as u8), (unit / 0x100) as u8)
}

/// The hash of a name: the rolling checksum of its upper-case form.
pub open spec fn name_hash(v: Volume, media: Media, name: Seq<u16>) -> Option<u16>
    decreases name.len(),
{
    if name.len() == 0 {
        Some(0)
    } else {
        match (name_hash(v, media, name.drop_last()), upcase(v, media, name.last())) {
            (Some(sum), Some(unit)) => Some(hashed(sum, unit)),
            _ => None,
        }
    }
}

/// A name whose beginning cannot be hashed cannot be hashed.
proof fn lemma_unhashable(v: Volume, media: Media, name: Seq<u16>, n: int)
    requires
        0 <= n <= name.len(),
        name_hash(v, media, name.take(n)) is None,
    ensures
        name_hash(v, media, name) is None,
    decreases name.len(),
{
    if n < name.len() {
        assert(name.drop_last().take(n) =~= name.take(n));
        lemma_unhashable(v, media, name.drop_last(), n);
    } else {
        assert(name.take(n) =~= name);
    }
}

/// Once the next mapping is that of a later unit, the table has none for
/// `unit`.
proof fn lemma_scan_past(v: Volume, media: Media, unit: u16, code: int, byte: int)
    requires
        code > unit,
    ensures
        upcase_scan(v, media, unit, code, byte) is None,
    decreases v.upcase.byte_length - byte,
{
    if byte + 2 <= v.upcase.byte_length && code <= u32::MAX {
        if let Some(value) = upcase_word(v, media, byte) {
            if value == 0xffff {
                if let Some(skipped) = upcase_word(v, media, byte + 2) {
                    lemma_scan_past(v, media, unit, code + skipped, byte + 4);
                }
            } else {
                lemma_scan_past(v, media, unit, code + 1, byte + 2);
            }
        }
    }
}

impl<D: BlockDevice> FileSystem<D> {
    /// Read a word of the UpCase table.
    pub fn upcase_word(&mut self, byte: u64, scratch: &mut Scratch<'_>) -> (result: Result<
        u16,
        Error<D::Error>,
    >)
        requires
            old(self).wf(),
            old(scratch)@.len() >= old(self).volume.geometry.bytes_per_sector,
        ensures
            final(self).wf(),
            final(scratch)@.len() == old(scratch)@.len(),
            state::answers(
                *old(self),
                *final(self),
                result,
                error::or_corrupt(upcase_word(old(self).volume, old(self).media(), byte as int)),
            ),
    {
        let g = self.volume.geometry;
        let table = self.volume.upcase;
        if table.byte_length < 2 || byte > table.byte_length - 2 {
            return Err(Error::Corrupt);
        }
        let size: u64 = g.bytes_per_sector as u64;
        let cluster_bytes: u64 = g.bytes_per_cluster() as u64;
        proof {
            arith::lemma_stream_offset(byte as int, size as int, g.sectors_per_cluster as int);
        }
        let cluster: u32 = match self.cluster_at(
            table.first_cluster,
            byte / cluster_bytes,
            scratch,
        ) {
            Ok(cluster) => cluster,
            Err(error) => return Err(error),
        };
        if !g.contains_cluster(cluster) {
            return Err(Error::Corrupt);
        }
        proof {
            allocation::lemma_place(g, cluster, byte as int);
            g.lemma_heap_bounds(cluster);
        }
        let base: u64 = match g.cluster_lba(cluster) {
            Some(base) => base,
            None => return Err(Error::Corrupt),
        };
        let within: u64 = byte % cluster_bytes;
        let lba: u64 = base + within / size;
        let offset: usize = (within % size) as usize;
        if offset + 2 > size as usize {
            return Err(Error::Corrupt);
        }
        match self.fetch(lba, scratch) {
            Ok(()) => Ok(bytes::le_u16(scratch.head(size as usize), offset)),
            Err(error) => Err(error),
        }
    }

    /// The upper-case form of a unit.
    ///
    /// The exFAT UpCase mapping for ASCII is fixed by the filesystem format:
    /// only `a`..`z` change, and every other ASCII code point maps to itself.
    /// Taking this path is important on removable media: a filename such as
    /// `BOOT_0001.CSV` must not scan the on-card (typically 128 KiB) UpCase
    /// table once per character merely to calculate its entry-set hash.
    /// Non-ASCII names use the volume table, so Unicode lookup remains fully
    /// table-driven.
    pub fn upcase_unit(&mut self, unit: u16, scratch: &mut Scratch<'_>) -> (result: Result<
        u16,
        Error<D::Error>,
    >)
        requires
            old(self).wf(),
            old(scratch)@.len() >= old(self).volume.geometry.bytes_per_sector,
        ensures
            final(self).wf(),
            final(scratch)@.len() == old(scratch)@.len(),
            state::answers(
                *old(self),
                *final(self),
                result,
                error::or_corrupt(upcase(old(self).volume, old(self).media(), unit)),
            ),
    {
        if unit <= 0x7f {
            return Ok(
                if 0x61 <= unit && unit <= 0x7a {
                    unit - 0x20
                } else {
                    unit
                },
            );
        }
        let length: u64 = self.volume.upcase.byte_length;
        let ghost v = self.volume;
        let ghost media = self.media();
        let mut code: u32 = 0;
        let mut byte: u64 = 0;
        while byte <= length && length - byte >= 2
            invariant
                self.wf(),
                length == v.upcase.byte_length,
                v == self.volume,
                media == old(self).media(),
                v == old(self).volume,
                state::answers(*old(self), *self, Ok::<(), Error<D::Error>>(()), Ok(())),
                scratch@.len() == old(scratch)@.len(),
                scratch@.len() >= v.geometry.bytes_per_sector,
                unit > 0x7f,
                upcase(v, media, unit) == upcase_scan(v, media, unit, code as int, byte as int),
                byte <= length,
            decreases length - byte,
        {
            let value: u16 = match self.upcase_word(byte, scratch) {
                Ok(value) => value,
                Err(error) => return Err(error),
            };
            byte = byte + 2;
            if value == 0xffff {
                let skipped: u16 = match self.upcase_word(byte, scratch) {
                    Ok(skipped) => skipped,
                    Err(error) => return Err(error),
                };
                byte = byte + 2;
                let end: u32 = match code.checked_add(skipped as u32) {
                    Some(end) => end,
                    None => {
                        proof {
                            lemma_scan_past(v, media, unit, code + skipped, byte as int);
                        }
                        return Err(Error::Corrupt);
                    },
                };
                if code <= unit as u32 && (unit as u32) < end {
                    return Ok(unit);
                }
                code = end;
            } else {
                if code == unit as u32 {
                    return Ok(value);
                }
                code = match code.checked_add(1) {
                    Some(next) => next,
                    None => {
                        proof {
                            lemma_scan_past(v, media, unit, code + 1, byte as int);
                        }
                        return Err(Error::Corrupt);
                    },
                };
            }
        }
        Err(Error::Corrupt)
    }

    /// Whether two names are equal up to case.
    pub fn names_match(&mut self, actual: &[u16], wanted: &[u16], scratch: &mut Scratch<'_>) -> (
    result: Result<bool, Error<D::Error>>)
        requires
            old(self).wf(),
            old(scratch)@.len() >= old(self).volume.geometry.bytes_per_sector,
        ensures
            final(self).wf(),
            final(scratch)@.len() == old(scratch)@.len(),
            state::answers(
                *old(self),
                *final(self),
                result,
                error::or_corrupt(
                    same_name(old(self).volume, old(self).media(), actual@, wanted@),
                ),
            ),
    {
        if actual.len() != wanted.len() {
            return Ok(false);
        }
        let ghost v = self.volume;
        let ghost media = self.media();
        let mut i: usize = 0;
        while i < actual.len()
            invariant
                i <= actual.len(),
                actual.len() == wanted.len(),
                self.wf(),
                media == old(self).media(),
                v == old(self).volume,
                state::answers(*old(self), *self, Ok::<(), Error<D::Error>>(()), Ok(())),
                scratch@.len() == old(scratch)@.len(),
                scratch@.len() >= v.geometry.bytes_per_sector,
                match_from(v, media, actual@, wanted@, 0) == match_from(
                    v,
                    media,
                    actual@,
                    wanted@,
                    i as int,
                ),
            decreases actual.len() - i,
        {
            let left: u16 = match self.upcase_unit(actual[i], scratch) {
                Ok(left) => left,
                Err(error) => return Err(error),
            };
            let right: u16 = match self.upcase_unit(wanted[i], scratch) {
                Ok(right) => right,
                Err(error) => return Err(error),
            };
            if left != right {
                return Ok(false);
            }
            i = i + 1;
        }
        Ok(true)
    }

    /// The hash of a name.
    pub fn upcase_name_hash(&mut self, name: &[u16], scratch: &mut Scratch<'_>) -> (result: Result<
        u16,
        Error<D::Error>,
    >)
        requires
            old(self).wf(),
            old(scratch)@.len() >= old(self).volume.geometry.bytes_per_sector,
        ensures
            final(self).wf(),
            final(scratch)@.len() == old(scratch)@.len(),
            state::answers(
                *old(self),
                *final(self),
                result,
                error::or_corrupt(name_hash(old(self).volume, old(self).media(), name@)),
            ),
    {
        let ghost v = self.volume;
        let ghost media = self.media();
        let mut sum: u16 = 0;
        let mut i: usize = 0;
        assert(name@.take(0) =~= Seq::<u16>::empty());
        while i < name.len()
            invariant
                i <= name.len(),
                self.wf(),
                media == old(self).media(),
                v == old(self).volume,
                state::answers(*old(self), *self, Ok::<(), Error<D::Error>>(()), Ok(())),
                scratch@.len() == old(scratch)@.len(),
                scratch@.len() >= v.geometry.bytes_per_sector,
                name_hash(v, media, name@.take(i as int)) == Some(sum),
            decreases name.len() - i,
        {
            assert(name@.take(i + 1).drop_last() =~= name@.take(i as int));
            let unit: u16 = match self.upcase_unit(name[i], scratch) {
                Ok(unit) => unit,
                Err(error) => {
                    proof {
                        if error is Corrupt {
                            lemma_unhashable(v, media, name@, i + 1);
                        }
                    }
                    return Err(error);
                },
            };
            sum = bytes::roll16(bytes::roll16(sum, (unit % 0x100) as u8), (unit / 0x100) as u8);
            i = i + 1;
        }
        assert(name@.take(i as int) =~= name@);
        Ok(sum)
    }
}

} // verus!
