//! Sector-addressable storage, the caller-owned sector buffer, and what a
//! sequence of sector writes does to the media.

use crate::error::Error;
use vstd::prelude::*;

verus! {

/// What a device stores: the bytes of each addressable sector.
pub type Media = Map<u64, Seq<u8>>;

/// One whole-sector write.
pub struct SectorWrite {
    /// Sector that is written.
    pub lba: u64,
    /// Its new bytes.
    pub data: Seq<u8>,
}

/// The media after `writes` have been carried out in order.
pub open spec fn applied(media: Media, writes: Seq<SectorWrite>) -> Media
    decreases writes.len(),
{
    if writes.len() == 0 {
        media
    } else {
        applied(media, writes.drop_last()).insert(writes.last().lba, writes.last().data)
    }
}

/// Whether `after` is the media that is left when `writes` stop at write
/// number `k`: the ones before it were carried out, and write `k` itself may
/// have left its own sector, and no other, with any content.
pub open spec fn stopped_at(before: Media, after: Media, writes: Seq<SectorWrite>, k: int) -> bool {
    let reached = applied(before, writes.take(k));
    ||| after == reached
    ||| k < writes.len() && after.remove(writes[k].lba) == reached.remove(writes[k].lba)
}

/// Whether `after` is the media that is left when `writes` were started on
/// `before` and stopped somewhere on the way.
pub open spec fn interrupted(before: Media, after: Media, writes: Seq<SectorWrite>) -> bool {
    exists|k: int| 0 <= k <= writes.len() && #[trigger] stopped_at(before, after, writes, k)
}

/// The whole-sector writes that put `data` on the media from sector `lba` on.
pub open spec fn sector_run(lba: u64, data: Seq<u8>, size: nat) -> Seq<SectorWrite> {
    Seq::new(
        data.len() / size,
        |i: int|
            SectorWrite {
                lba: (lba + i) as u64,
                data: data.subrange(i * size, (i + 1) * size),
            },
    )
}

/// Two runs of writes, one after the other.
pub proof fn lemma_applied_concat(media: Media, head: Seq<SectorWrite>, tail: Seq<SectorWrite>)
    ensures
        applied(media, head + tail) == applied(applied(media, head), tail),
    decreases tail.len(),
{
    if tail.len() == 0 {
        assert(head + tail =~= head);
    } else {
        assert((head + tail).drop_last() =~= head + tail.drop_last());
        lemma_applied_concat(media, head, tail.drop_last());
    }
}

/// One more write.
pub broadcast proof fn lemma_applied_push(
    media: Media,
    writes: Seq<SectorWrite>,
    write: SectorWrite,
)
    ensures
        #[trigger] applied(media, writes.push(write)) == applied(media, writes).insert(
            write.lba,
            write.data,
        ),
{
    assert(writes.push(write).drop_last() =~= writes);
}

/// A single write.
pub broadcast proof fn lemma_applied_one(media: Media, write: SectorWrite)
    ensures
        #[trigger] applied(media, seq![write]) == media.insert(write.lba, write.data),
{
    assert(seq![write].drop_last() =~= Seq::<SectorWrite>::empty());
    assert(seq![write].last() == write);
    assert(applied(media, seq![write].drop_last()) == media);
}

/// Writes leave every sector alone that none of them names.
pub proof fn lemma_applied_untouched(media: Media, writes: Seq<SectorWrite>, lba: u64)
    requires
        forall|i: int| 0 <= i < writes.len() ==> #[trigger] writes[i].lba != lba,
    ensures
        applied(media, writes)[lba] == media[lba],
    decreases writes.len(),
{
    if writes.len() > 0 {
        assert(writes.last() == writes[writes.len() - 1]);
        lemma_applied_untouched(media, writes.drop_last(), lba);
    }
}

/// The last write that names a sector decides what it holds.
pub proof fn lemma_applied_last(media: Media, writes: Seq<SectorWrite>, k: int)
    requires
        0 <= k < writes.len(),
        forall|i: int| k < i < writes.len() ==> #[trigger] writes[i].lba != writes[k].lba,
    ensures
        applied(media, writes)[writes[k].lba] == writes[k].data,
    decreases writes.len(),
{
    if k < writes.len() - 1 {
        assert(writes.last() == writes[writes.len() - 1]);
        assert(writes.drop_last()[k] == writes[k]);
        lemma_applied_last(media, writes.drop_last(), k);
    }
}

/// Stopping between two writes.
pub proof fn lemma_stop_between(before: Media, done: Seq<SectorWrite>, all: Seq<SectorWrite>)
    requires
        done.is_prefix_of(all),
    ensures
        interrupted(before, applied(before, done), all),
{
    assert(all.take(done.len() as int) =~= done);
    assert(stopped_at(before, applied(before, done), all, done.len() as int));
}

/// Stopping within the writes `step`, after `done`.
pub proof fn lemma_stop_within(
    before: Media,
    done: Seq<SectorWrite>,
    step: Seq<SectorWrite>,
    after: Media,
    all: Seq<SectorWrite>,
)
    requires
        interrupted(applied(before, done), after, step),
        (done + step).is_prefix_of(all),
    ensures
        interrupted(before, after, all),
{
    let k = choose|k: int|
        0 <= k <= step.len() && #[trigger] stopped_at(applied(before, done), after, step, k);
    let n = done.len() + k;
    assert(all.take(n) =~= done + step.take(k)) by {
        assert forall|i: int| 0 <= i < n implies all.take(n)[i] == (done + step.take(k))[i] by {
            assert(all[i] == (done + step)[i]);
        }
    }
    lemma_applied_concat(before, done, step.take(k));
    if k < step.len() {
        assert(all[n] == (done + step)[n]);
        assert(all[n] == step[k]);
    }
    assert(stopped_at(before, after, all, n));
}

/// Sector-addressable storage.
///
/// `media` is what the device stores, `stable` what it is known to keep
/// through a loss of power, and `failures` the errors that it has reported so
/// far, oldest first.
pub trait BlockDevice: Sized {
    /// Device-specific I/O failure type.
    type Error;

    /// What the device stores.
    closed spec fn media(&self) -> Media {
        arbitrary()
    }

    /// What the device is known to keep through a loss of power.
    closed spec fn stable(&self) -> Media {
        arbitrary()
    }

    /// Every error that the device has reported, oldest first.
    closed spec fn failures(&self) -> Seq<Self::Error> {
        arbitrary()
    }

    /// Logical sector size in bytes.
    closed spec fn sector_bytes(&self) -> usize {
        arbitrary()
    }

    /// Number of addressable logical sectors.
    closed spec fn sector_total(&self) -> u64 {
        arbitrary()
    }

    /// Logical sector size in bytes; exFAT supports 512 through 4096 here.
    fn sector_size(&self) -> (size: usize)
        ensures
            size == self.sector_bytes(),
    ;

    /// Number of addressable logical sectors.
    fn sector_count(&self) -> (count: u64)
        ensures
            count == self.sector_total(),
    ;

    /// Read one sector into `out`.
    fn read_sector(&mut self, lba: u64, out: &mut [u8]) -> (result: Result<(), Self::Error>)
        requires
            old(out)@.len() == old(self).sector_bytes(),
        ensures
            final(out)@.len() == old(out)@.len(),
            final(self).sector_bytes() == old(self).sector_bytes(),
            final(self).sector_total() == old(self).sector_total(),
            final(self).media() == old(self).media(),
            final(self).stable() == old(self).stable(),
            match result {
                Ok(()) => {
                    &&& final(out)@ == old(self).media()[lba]
                    &&& final(self).failures() == old(self).failures()
                },
                Err(error) => final(self).failures() == old(self).failures().push(error),
            },
    ;

    /// Write one sector from `data`. A failed write may leave that sector, and
    /// no other, with any content.
    fn write_sector(&mut self, lba: u64, data: &[u8]) -> (result: Result<(), Self::Error>)
        requires
            data@.len() == old(self).sector_bytes(),
        ensures
            final(self).sector_bytes() == old(self).sector_bytes(),
            final(self).sector_total() == old(self).sector_total(),
            match result {
                Ok(()) => {
                    &&& final(self).media() == old(self).media().insert(lba, data@)
                    &&& final(self).failures() == old(self).failures()
                },
                Err(error) => {
                    &&& final(self).media().remove(lba) == old(self).media().remove(lba)
                    &&& final(self).failures() == old(self).failures().push(error)
                },
            },
    ;

    /// Write contiguous whole sectors from `data`.
    ///
    /// `data` must contain an exact multiple of the sector size. The default
    /// preserves the one-sector transport contract; devices with a native
    /// multi-block command can override it to avoid command and busy overhead
    /// for large runs of filesystem metadata.
    fn write_sectors(&mut self, lba: u64, data: &[u8]) -> (result: Result<(), Self::Error>)
        requires
            old(self).sector_bytes() > 0,
            data@.len() % old(self).sector_bytes() as nat == 0,
            lba + data@.len() / old(self).sector_bytes() as nat <= u64::MAX,
        ensures
            final(self).sector_bytes() == old(self).sector_bytes(),
            final(self).sector_total() == old(self).sector_total(),
            match result {
                Ok(()) => {
                    &&& final(self).media() == applied(
                        old(self).media(),
                        sector_run(lba, data@, old(self).sector_bytes() as nat),
                    )
                    &&& final(self).failures() == old(self).failures()
                },
                Err(error) => {
                    &&& interrupted(
                        old(self).media(),
                        final(self).media(),
                        sector_run(lba, data@, old(self).sector_bytes() as nat),
                    )
                    &&& final(self).failures() == old(self).failures().push(error)
                },
            },
    {
        let size: usize = self.sector_size();
        let count: usize = data.len() / size;
        let mut index: usize = 0;
        let ghost run = sector_run(lba, data@, size as nat);
        let ghost before = self.media();
        assert(run.take(0) =~= Seq::<SectorWrite>::empty());
        proof {
            vstd::arithmetic::div_mod::lemma_fundamental_div_mod(
                data@.len() as int,
                size as int,
            );
        }
        while index < count
            invariant
                index <= count,
                size == self.sector_bytes(),
                size == old(self).sector_bytes(),
                size > 0,
                count == data@.len() / size as nat,
                size * count == data.len(),
                lba + count <= u64::MAX,
                run == sector_run(lba, data@, size as nat),
                before == old(self).media(),
                self.sector_total() == old(self).sector_total(),
                self.failures() == old(self).failures(),
                self.media() == applied(before, run.take(index as int)),
            decreases count - index,
        {
            proof {
                vstd::arithmetic::mul::lemma_mul_inequality(
                    index + 1,
                    count as int,
                    size as int,
                );
                vstd::arithmetic::mul::lemma_mul_is_distributive_add_other_way(
                    size as int,
                    index as int,
                    1,
                );
                vstd::arithmetic::mul::lemma_mul_is_commutative(size as int, count as int);
                vstd::arithmetic::mul::lemma_mul_is_commutative(size as int, index as int);
            }
            let from: usize = index * size;
            let sector = vstd::slice::slice_subrange(data, from, from + size);
            let ghost reached = self.media();
            let written = self.write_sector(lba + index as u64, sector);
            proof {
                assert(run[index as int] == SectorWrite {
                    lba: (lba + index) as u64,
                    data: sector@,
                });
                assert(run.take(index + 1) =~= run.take(index as int).push(run[index as int]));
                lemma_applied_push(before, run.take(index as int), run[index as int]);
            }
            match written {
                Ok(()) => {},
                Err(error) => {
                    assert(stopped_at(before, self.media(), run, index as int));
                    return Err(error);
                },
            }
            index = index + 1;
        }
        assert(run.take(count as int) =~= run);
        Ok(())
    }

    /// Commit preceding writes to stable media.
    fn flush(&mut self) -> (result: Result<(), Self::Error>)
        ensures
            final(self).sector_bytes() == old(self).sector_bytes(),
            final(self).sector_total() == old(self).sector_total(),
            final(self).media() == old(self).media(),
            match result {
                Ok(()) => {
                    &&& final(self).stable() == final(self).media()
                    &&& final(self).failures() == old(self).failures()
                },
                Err(error) => final(self).failures() == old(self).failures().push(error),
            },
    ;
}

/// Whether `after` is the same device as `before`, by size.
pub open spec fn same_shape<D: BlockDevice>(before: D, after: D) -> bool {
    &&& after.sector_bytes() == before.sector_bytes()
    &&& after.sector_total() == before.sector_total()
}

/// What an operation that only reads promises: nothing is written or flushed, an
/// error of the device is handed on, and without one the result is `expected`.
pub open spec fn answers<D: BlockDevice, T>(
    before: D,
    after: D,
    result: Result<T, Error<D::Error>>,
    expected: Result<T, Error<D::Error>>,
) -> bool {
    &&& after.stable() == before.stable()
    &&& replies(before, after, result, expected)
}

/// What an operation that writes nothing, but may flush, promises: the media
/// stays as it is, an error of the device is handed on, and without one the
/// result is `expected`.
pub open spec fn replies<D: BlockDevice, T>(
    before: D,
    after: D,
    result: Result<T, Error<D::Error>>,
    expected: Result<T, Error<D::Error>>,
) -> bool {
    &&& same_shape(before, after)
    &&& after.media() == before.media()
    &&& match result {
        Err(Error::Device(error)) => after.failures() == before.failures().push(error),
        _ => after.failures() == before.failures() && result == expected,
    }
}

/// What an operation that writes promises: without an error of the device it
/// carries out exactly `writes` and the result is `expected`; on the first
/// error of the device it stops, hands the error on, and leaves the media as
/// the writes up to there made it.
pub open spec fn performs<D: BlockDevice, T>(
    before: D,
    after: D,
    result: Result<T, Error<D::Error>>,
    writes: Seq<SectorWrite>,
    expected: Result<T, Error<D::Error>>,
) -> bool {
    &&& same_shape(before, after)
    &&& match result {
        Err(Error::Device(error)) => {
            &&& after.failures() == before.failures().push(error)
            &&& interrupted(before.media(), after.media(), writes)
        },
        _ => {
            &&& after.failures() == before.failures()
            &&& after.media() == applied(before.media(), writes)
            &&& result == expected
        },
    }
}

/// Caller-owned temporary storage for one or more device sectors.
pub struct Scratch<'a> {
    /// The wrapped bytes.
    pub bytes: &'a mut [u8],
}

impl<'a> Scratch<'a> {
    /// The bytes that the storage holds.
    pub open spec fn view(&self) -> Seq<u8> {
        self.bytes@
    }

    /// Wrap a caller-owned byte slice. It must be at least one sector long.
    pub fn new(bytes: &'a mut [u8]) -> (scratch: Self)
        ensures
            scratch@ == old(bytes)@,
            final(bytes)@ == final(scratch.bytes)@,
    {
        Scratch { bytes }
    }

    /// Capacity in bytes.
    pub fn len(&self) -> (len: usize)
        ensures
            len == self@.len(),
    {
        self.bytes.len()
    }

    /// Whether the scratch slice has no capacity.
    pub fn is_empty(&self) -> (empty: bool)
        ensures
            empty == (self@.len() == 0),
    {
        self.bytes.is_empty()
    }

    /// Check that the storage holds at least `size` bytes.
    pub fn require<E>(&self, size: usize) -> (result: Result<(), Error<E>>)
        ensures
            result == if self@.len() < size {
                Err::<(), Error<E>>(Error::InvalidSectorSize)
            } else {
                Ok(())
            },
    {
        if self.bytes.len() < size {
            Err(Error::InvalidSectorSize)
        } else {
            Ok(())
        }
    }

    /// The first `size` bytes.
    pub fn sector(&mut self, size: usize) -> (sector: &mut [u8])
        requires
            size <= old(self)@.len(),
        ensures
            sector@ == old(self)@.take(size as int),
            final(self)@ == final(sector)@ + old(self)@.skip(size as int),
    {
        let (head, _tail) = self.bytes.split_at_mut(size);
        head
    }

    /// The first `size` bytes, to be read only.
    pub fn head(&self, size: usize) -> (head: &[u8])
        requires
            size <= self@.len(),
        ensures
            head@ == self@.take(size as int),
    {
        vstd::slice::slice_subrange(&*self.bytes, 0, size)
    }

    /// Number of bytes in the complete sectors of this storage.
    pub fn sectors(&self, size: usize) -> (bytes: usize)
        requires
            size > 0,
        ensures
            bytes == self@.len() / size as nat * size,
            bytes <= self@.len(),
            bytes % size == 0,
            self@.len() >= size ==> bytes >= size,
    {
        let count: usize = self.bytes.len() / size;
        proof {
            vstd::arithmetic::div_mod::lemma_fundamental_div_mod(self@.len() as int, size as int);
            vstd::arithmetic::mul::lemma_mul_is_commutative(count as int, size as int);
            vstd::arithmetic::div_mod::lemma_mod_multiples_basic(count as int, size as int);
            if self@.len() >= size {
                vstd::arithmetic::div_mod::lemma_div_non_zero(self@.len() as int, size as int);
                vstd::arithmetic::mul::lemma_mul_inequality(1, count as int, size as int);
            }
        }
        count * size
    }
}

/// Read sector `lba` into the start of `scratch`.
pub fn load<D: BlockDevice>(
    device: &mut D,
    lba: u64,
    scratch: &mut Scratch<'_>,
    size: usize,
) -> (result: Result<(), Error<D::Error>>)
    requires
        old(device).sector_bytes() == size,
        size <= old(scratch)@.len(),
    ensures
        answers(*old(device), *final(device), result, Ok(())),
        final(scratch)@.len() == old(scratch)@.len(),
        result is Ok ==> {
            &&& final(scratch)@.take(size as int) == old(device).media()[lba]
            &&& old(device).media()[lba].len() == size
        },
{
    match device.read_sector(lba, scratch.sector(size)) {
        Ok(()) => {
            assert(scratch@.take(size as int) =~= device.media()[lba]);
            Ok(())
        },
        Err(error) => Err(Error::Device(error)),
    }
}

/// Write the first sector of `scratch` to sector `lba`.
pub fn store<D: BlockDevice>(
    device: &mut D,
    lba: u64,
    scratch: &Scratch<'_>,
    size: usize,
) -> (result: Result<(), Error<D::Error>>)
    requires
        old(device).sector_bytes() == size,
        size <= scratch@.len(),
    ensures
        performs(
            *old(device),
            *final(device),
            result,
            seq![SectorWrite { lba, data: scratch@.take(size as int) }],
            Ok(()),
        ),
{
    let ghost before = device.media();
    let ghost write = SectorWrite { lba, data: scratch@.take(size as int) };
    let written = device.write_sector(lba, scratch.head(size));
    proof {
        lemma_applied_one(before, write);
    }
    match written {
        Ok(()) => Ok(()),
        Err(error) => {
            assert(seq![write].take(0) =~= Seq::<SectorWrite>::empty());
            assert(stopped_at(before, device.media(), seq![write], 0));
            Err(Error::Device(error))
        },
    }
}

} // verus!
