//! Reading and writing the bytes of a file.

use crate::arith;
use crate::bytes;
use crate::device;
use crate::device::{BlockDevice, Media, Scratch, SectorWrite};
use crate::error;
use crate::error::Error;
use crate::fs::allocation;
use crate::fs::file::{File, FileModel};
use crate::fs::state;
use crate::fs::state::{FileSystem, Plan};
use crate::geometry::Geometry;
use crate::mount::Volume;
use vstd::prelude::*;

verus! {

/// Number and cluster at which resolving cluster number `wanted` of a
/// FAT-linked file starts: at the cached one, unless that lies behind.
pub open spec fn resume_at(f: FileModel, wanted: int) -> (int, u32) {
    match f.cache {
        Some((index, cluster)) => if index <= wanted {
            (index as int, cluster)
        } else {
            (0, f.first_cluster)
        },
        None => (0, f.first_cluster),
    }
}

/// Cluster number `wanted` of a file.
pub open spec fn file_cluster(g: Geometry, media: Media, f: FileModel, wanted: int) -> Option<u32> {
    if !(0 <= wanted < g.cluster_count) {
        None
    } else if f.no_fat_chain {
        if f.first_cluster + wanted <= u32::MAX && g.in_heap((f.first_cluster + wanted) as u32) {
            Some((f.first_cluster + wanted) as u32)
        } else {
            None
        }
    } else {
        let (index, cluster) = resume_at(f, wanted);
        if g.in_heap(cluster) {
            allocation::chain_at(g, media, cluster, (wanted - index) as nat)
        } else {
            None
        }
    }
}

/// Where byte `offset` of a file lies.
pub open spec fn file_place(g: Geometry, media: Media, f: FileModel, offset: int) -> Option<
    (u64, int),
> {
    allocation::place(g, file_cluster(g, media, f, offset / g.cluster_bytes()), offset)
}

/// Byte `offset` of a file.
pub open spec fn file_byte(g: Geometry, media: Media, f: FileModel, offset: int) -> u8 {
    let (lba, at) = file_place(g, media, f, offset)->0;
    media[lba][at]
}

/// The handle once cluster number `wanted` has been resolved to `cluster`.
pub open spec fn resolved(f: FileModel, wanted: int, cluster: u32) -> FileModel {
    if f.no_fat_chain {
        f
    } else {
        FileModel { cache: Some((wanted as u64, cluster)), ..f }
    }
}

/// The handle once the `count` bytes from its position on have been passed.
pub open spec fn advanced(g: Geometry, media: Media, f: FileModel, count: int) -> FileModel {
    if count == 0 {
        f
    } else {
        let wanted = (f.position + count - 1) / g.cluster_bytes();
        let cluster = file_cluster(g, media, f, wanted)->0;
        FileModel { position: (f.position + count) as u64, ..resolved(f, wanted, cluster) }
    }
}

/// Bytes that a transfer of `len` bytes moves: no more than there are between
/// the position and the end of the file.
pub open spec fn transfer(f: FileModel, len: nat) -> int {
    if f.position >= f.valid_length {
        0
    } else if len < f.valid_length - f.position {
        len as int
    } else {
        f.valid_length - f.position
    }
}

/// Bytes of a transfer of `count` bytes at `offset` that lie in one sector.
pub open spec fn in_sector(g: Geometry, offset: int, count: int) -> int {
    let room = g.bytes_per_sector - offset % g.bytes_per_sector as int;
    if count < room {
        count
    } else {
        room
    }
}

/// Whether the first `count` bytes from the position on all have a place.
pub open spec fn all_placed(g: Geometry, media: Media, f: FileModel, count: int) -> bool {
    forall|j: int|
        0 <= j < count ==> #[trigger] file_place(g, media, f, f.position + j) is Some
}

/// What reading into storage for `len` bytes answers.
pub open spec fn read_result<E>(g: Geometry, media: Media, f: FileModel, len: nat) -> Result<
    usize,
    Error<E>,
> {
    let count = transfer(f, len);
    if all_placed(g, media, f, count) {
        Ok(count as usize)
    } else {
        Err(Error::Corrupt)
    }
}

/// Whether a read has moved the first `count` bytes from the position of `f`
/// on to the start of the storage, and nothing else.
pub open spec fn has_read(
    g: Geometry,
    media: Media,
    f: FileModel,
    before: Seq<u8>,
    after: Seq<u8>,
    count: int,
) -> bool {
    &&& all_placed(g, media, f, count)
    &&& after.len() == before.len()
    &&& forall|j: int|
        0 <= j < count ==> #[trigger] after[j] == file_byte(g, media, f, f.position + j)
    &&& forall|j: int| count <= j < after.len() ==> #[trigger] after[j] == before[j]
}

/// The data that a write puts into the sector with content `sector`.
pub open spec fn written(g: Geometry, sector: Seq<u8>, at: int, data: Seq<u8>) -> Seq<u8> {
    if data.len() == g.bytes_per_sector {
        data
    } else {
        bytes::splice(sector, at, data)
    }
}

/// What writing `data` at the position of `f`, sector by sector, does.
pub open spec fn write_plan<E>(v: Volume, media: Media, free: u32, f: FileModel, data: Seq<u8>) -> Plan<
    (),
    E,
>
    decreases data.len(),
{
    let g = v.geometry;
    let count = in_sector(g, f.position as int, data.len() as int);
    match file_place(g, media, f, f.position as int) {
        _ if data.len() == 0 => Plan::answer(free, Ok(())),
        None => Plan::answer(free, Err(Error::Corrupt)),
        Some((lba, at)) => if 0 < count <= data.len() {
            let write = SectorWrite { lba, data: written(g, media[lba], at, data.take(count)) };
            let step = Plan::<(), E>::write(free, write, Ok(()));
            step.and(
                write_plan(
                    v,
                    step.leaves(media),
                    free,
                    advanced(g, media, f, count),
                    data.skip(count),
                ),
            )
        } else {
            Plan::answer(free, Ok(()))
        },
    }
}

/// The handle after such a write.
pub open spec fn write_file(v: Volume, media: Media, f: FileModel, data: Seq<u8>) -> FileModel
    decreases data.len(),
{
    let g = v.geometry;
    let count = in_sector(g, f.position as int, data.len() as int);
    match file_place(g, media, f, f.position as int) {
        Some((lba, at)) => if 0 < count <= data.len() {
            let write = SectorWrite { lba, data: written(g, media[lba], at, data.take(count)) };
            write_file(
                v,
                device::applied(media, seq![write]),
                advanced(g, media, f, count),
                data.skip(count),
            )
        } else {
            f
        },
        None => f,
    }
}

/// The handle once the first `k` sectors of such a write were stored.
pub open spec fn write_file_until(
    v: Volume,
    media: Media,
    f: FileModel,
    data: Seq<u8>,
    k: nat,
) -> FileModel
    decreases k,
{
    let g = v.geometry;
    let count = in_sector(g, f.position as int, data.len() as int);
    match file_place(g, media, f, f.position as int) {
        Some((lba, at)) => if k > 0 && 0 < count <= data.len() {
            let write = SectorWrite { lba, data: written(g, media[lba], at, data.take(count)) };
            write_file_until(
                v,
                device::applied(media, seq![write]),
                advanced(g, media, f, count),
                data.skip(count),
                (k - 1) as nat,
            )
        } else {
            f
        },
        None => f,
    }
}

/// Of `len` bytes from `position` on, those that lie in the first `k` sectors.
pub open spec fn in_sectors(g: Geometry, position: int, len: int, k: int) -> int {
    let end = k * g.bytes_per_sector - position % g.bytes_per_sector as int;
    if k <= 0 {
        0
    } else if end < len {
        end
    } else {
        len
    }
}

/// Whether `now` is the handle `f`, for whose position the cluster may have been
/// looked up.
pub open spec fn is_looked_up(g: Geometry, media: Media, f: FileModel, now: FileModel) -> bool {
    let wanted = f.position as int / g.cluster_bytes();
    now == f || (file_cluster(g, media, f, wanted) matches Some(cluster) && now == resolved(
        f,
        wanted,
        cluster,
    ))
}

/// Whether a write of `data` that the device stopped once `k` sectors were stored
/// left `media2`, `free2` and the handle `now`, which stands behind the bytes of
/// those sectors.
pub open spec fn is_cut_short_at<E>(
    v: Volume,
    media: Media,
    free: u32,
    f: FileModel,
    data: Seq<u8>,
    media2: Media,
    free2: u32,
    now: FileModel,
    k: int,
) -> bool {
    let plan = write_plan::<E>(v, media, free, f, data);
    &&& state::is_stopped_at(plan.writes, plan.counts, media, free, media2, free2, k)
    &&& is_looked_up(
        v.geometry,
        device::applied(media, plan.writes.take(k)),
        write_file_until(v, media, f, data, k as nat),
        now,
    )
    &&& now.position == f.position + in_sectors(
        v.geometry,
        f.position as int,
        data.len() as int,
        k,
    )
}

/// Whether a write of `data` that the device stopped somewhere on the way left
/// `media2`, `free2` and the handle `now`.
pub open spec fn is_cut_short<E>(
    v: Volume,
    media: Media,
    free: u32,
    f: FileModel,
    data: Seq<u8>,
    media2: Media,
    free2: u32,
    now: FileModel,
) -> bool {
    exists|k: int| #[trigger]
        is_cut_short_at::<E>(v, media, free, f, data, media2, free2, now, k)
}

/// Whether going on with `part` after `made` sectors of `data` leads to the same
/// handles as going through `data` does.
spec fn continues(
    v: Volume,
    media: Media,
    f: FileModel,
    data: Seq<u8>,
    made: int,
    reached: Media,
    now: FileModel,
    part: Seq<u8>,
) -> bool {
    forall|j: nat| #[trigger]
        write_file_until(v, reached, now, part, j) == write_file_until(
            v,
            media,
            f,
            data,
            (made + j) as nat,
        )
}

/// One more sector.
proof fn lemma_in_sectors(g: Geometry, position: int, len: int, k: int)
    requires
        g.bytes_per_sector > 0,
        0 <= position,
        0 <= k,
        in_sectors(g, position, len, k) < len,
    ensures
        ({
            let done = in_sectors(g, position, len, k);
            done + in_sector(g, position + done, len - done) == in_sectors(g, position, len, k + 1)
        }),
{
    let size = g.bytes_per_sector as int;
    let done = in_sectors(g, position, len, k);
    vstd::arithmetic::mul::lemma_mul_is_distributive_add_other_way(size, k, 1);
    if k > 0 {
        let q = position / size;
        vstd::arithmetic::div_mod::lemma_fundamental_div_mod(position, size);
        vstd::arithmetic::mul::lemma_mul_is_commutative(size, q);
        vstd::arithmetic::mul::lemma_mul_is_distributive_add_other_way(size, q, k);
        arith::lemma_split(q + k, 0, size);
    }
}

/// What writing as much of `data` as lies within the file's visible length
/// does.
pub open spec fn write_within_plan<E>(
    v: Volume,
    media: Media,
    free: u32,
    f: FileModel,
    data: Seq<u8>,
) -> Plan<usize, E> {
    let count = transfer(f, data.len());
    let write = write_plan::<E>(v, media, free, f, data.take(count));
    write.and(Plan::answer(write.free, Ok(count as usize)))
}

/// Whether two handles are the same but for position and cache.
pub open spec fn same_file(a: FileModel, b: FileModel) -> bool {
    b == (FileModel { position: b.position, cache: b.cache, ..a })
}

/// Two parts of a chain make up a longer one.
pub proof fn lemma_chain_join(g: Geometry, media: Media, first: u32, a: nat, b: nat)
    requires
        allocation::chain_at(g, media, first, a) is Some,
    ensures
        allocation::chain_at(g, media, first, a + b) == allocation::chain_at(
            g,
            media,
            allocation::chain_at(g, media, first, a)->0,
            b,
        ),
    decreases b,
{
    if b > 0 {
        lemma_chain_join(g, media, first, a, (b - 1) as nat);
    }
}

/// A chain that starts in the heap stays there.
pub proof fn lemma_chain_in_heap(g: Geometry, media: Media, first: u32, i: nat)
    requires
        g.in_heap(first),
    ensures
        allocation::chain_at(g, media, first, i) matches Some(cluster) ==> g.in_heap(cluster),
    decreases i,
{
    if i > 0 {
        lemma_chain_in_heap(g, media, first, (i - 1) as nat);
    }
}

/// A resolved cluster of a file is one of the heap.
pub proof fn lemma_file_cluster_in_heap(g: Geometry, media: Media, f: FileModel, wanted: int)
    ensures
        file_cluster(g, media, f, wanted) matches Some(cluster) ==> g.in_heap(cluster),
{
    if 0 <= wanted < g.cluster_count && !f.no_fat_chain {
        let (index, cluster) = resume_at(f, wanted);
        if g.in_heap(cluster) {
            lemma_chain_in_heap(g, media, cluster, (wanted - index) as nat);
        }
    }
}

/// Resolving a cluster does not change what later clusters resolve to.
pub proof fn lemma_resolved(g: Geometry, media: Media, f: FileModel, wanted: int, later: int)
    requires
        file_cluster(g, media, f, wanted) is Some,
        0 <= wanted <= later,
        f.cache matches Some((index, _)) ==> index <= wanted,
    ensures
        file_cluster(g, media, resolved(f, wanted, file_cluster(g, media, f, wanted)->0), later)
            == file_cluster(g, media, f, later),
{
    if !f.no_fat_chain && later < g.cluster_count {
        let (index, start) = resume_at(f, wanted);
        lemma_file_cluster_in_heap(g, media, f, wanted);
        lemma_chain_join(g, media, start, (wanted - index) as nat, (later - wanted) as nat);
    }
}

/// The number of a handle's cached cluster is not past that of its position.
pub proof fn lemma_cache_index(g: Geometry, f: FileModel)
    requires
        g.wf(),
        f.cache_behind(g),
    ensures
        f.cache matches Some((index, _)) ==> index <= f.position as int / g.cluster_bytes(),
        g.cluster_bytes() > 0,
{
    let cb = g.cluster_bytes();
    arith::lemma_stream_offset(
        f.position as int,
        g.bytes_per_sector as int,
        g.sectors_per_cluster as int,
    );
    if let Some((index, _)) = f.cache {
        vstd::arithmetic::div_mod::lemma_div_is_ordered(index * cb, f.position as int, cb);
        arith::lemma_split(index as int, 0, cb);
    }
}

/// The bytes behind an offset in the same sector: they lie in the same
/// cluster, and right behind it.
pub proof fn lemma_same_place(g: Geometry, media: Media, f: FileModel, offset: int, more: int)
    requires
        g.wf(),
        0 <= offset,
        0 <= more,
        offset % (g.bytes_per_sector as int) + more < g.bytes_per_sector,
    ensures
        (offset + more) / g.cluster_bytes() == offset / g.cluster_bytes(),
        file_place(g, media, f, offset + more) == match file_place(g, media, f, offset) {
            Some((lba, at)) => Some((lba, at + more)),
            None => None::<(u64, int)>,
        },
{
    let size = g.bytes_per_sector as int;
    let per = g.sectors_per_cluster as int;
    arith::lemma_stream_offset(offset, size, per);
    arith::lemma_stream_offset(offset + more, size, per);
    arith::lemma_same_sector(offset, more, size);
}

/// Passing bytes does not change where later bytes lie.
pub proof fn lemma_advanced(g: Geometry, media: Media, f: FileModel, count: int, offset: int)
    requires
        g.wf(),
        f.cache_behind(g),
        0 <= count,
        f.position + count <= u64::MAX,
        f.position + count <= offset,
        count > 0 ==> file_place(g, media, f, f.position + count - 1) is Some,
    ensures
        file_cluster(g, media, advanced(g, media, f, count), offset / g.cluster_bytes())
            == file_cluster(g, media, f, offset / g.cluster_bytes()),
        file_place(g, media, advanced(g, media, f, count), offset) == file_place(
            g,
            media,
            f,
            offset,
        ),
        advanced(g, media, f, count).cache_behind(g),
{
    if count > 0 {
        let cb = g.cluster_bytes();
        lemma_cache_index(g, f);
        let last = f.position + count - 1;
        let wanted = last / cb;
        vstd::arithmetic::div_mod::lemma_div_is_ordered(f.position as int, last, cb);
        vstd::arithmetic::div_mod::lemma_div_is_ordered(last, offset, cb);
        vstd::arithmetic::div_mod::lemma_fundamental_div_mod(last, cb);
        vstd::arithmetic::mul::lemma_mul_is_commutative(wanted, cb);
        let cluster = file_cluster(g, media, f, wanted)->0;
        lemma_resolved(g, media, f, wanted, offset / cb);
        let after = advanced(g, media, f, count);
        assert(file_cluster(g, media, after, offset / cb) == file_cluster(
            g,
            media,
            resolved(f, wanted, cluster),
            offset / cb,
        ));
    }
}

impl<D: BlockDevice> FileSystem<D> {
    /// Find cluster number `wanted` of a file, and remember it.
    pub fn file_cluster_at(&mut self, file: &mut File, wanted: u64, scratch: &mut Scratch<'_>) -> (
    result: Result<u32, Error<D::Error>>)
        requires
            old(self).wf(),
            old(scratch)@.len() >= old(self).volume.geometry.bytes_per_sector,
        ensures
            final(self).wf(),
            final(scratch)@.len() == old(scratch)@.len(),
            state::answers(
                *old(self),
                *final(self),
                result,
                error::or_corrupt(
                    file_cluster(
                        old(self).volume.geometry,
                        old(self).media(),
                        old(file)@,
                        wanted as int,
                    ),
                ),
            ),
            final(file)@ == match result {
                Ok(cluster) => resolved(old(file)@, wanted as int, cluster),
                Err(_) => old(file)@,
            },
            final(file).entry_count == old(file).entry_count,
    {
        let g = self.volume.geometry;
        if wanted >= g.cluster_count as u64 {
            return Err(Error::Corrupt);
        }
        if file.no_fat_chain {
            let cluster: u32 = match file.first_cluster.checked_add(wanted as u32) {
                Some(cluster) => cluster,
                None => return Err(Error::Corrupt),
            };
            return if g.contains_cluster(cluster) {
                Ok(cluster)
            } else {
                Err(Error::Corrupt)
            };
        }
        let (index, start): (u64, u32) = match file.cached_cluster_index {
            Some(index) => if index <= wanted {
                (index, file.cached_cluster)
            } else {
                (0, file.first_cluster)
            },
            None => (0, file.first_cluster),
        };
        if !g.contains_cluster(start) {
            return Err(Error::Corrupt);
        }
        match self.cluster_at(start, wanted - index, scratch) {
            Ok(cluster) => {
                file.cached_cluster_index = Some(wanted);
                file.cached_cluster = cluster;
                Ok(cluster)
            },
            Err(error) => Err(error),
        }
    }

    /// Find where the byte at a file's position lies.
    fn locate(&mut self, file: &mut File, scratch: &mut Scratch<'_>) -> (result: Result<
        (u64, usize),
        Error<D::Error>,
    >)
        requires
            old(self).wf(),
            old(scratch)@.len() >= old(self).volume.geometry.bytes_per_sector,
        ensures
            final(self).wf(),
            final(scratch)@.len() == old(scratch)@.len(),
            state::answers(
                *old(self),
                *final(self),
                result,
                match file_place(
                    old(self).volume.geometry,
                    old(self).media(),
                    old(file)@,
                    old(file)@.position as int,
                ) {
                    Some((lba, at)) => Ok((lba, at as usize)),
                    None => Err(Error::Corrupt),
                },
            ),
            final(file).entry_count == old(file).entry_count,
            match result {
                Ok((lba, at)) => {
                    let g = old(self).volume.geometry;
                    let f = old(file)@;
                    let wanted = f.position as int / g.cluster_bytes();
                    &&& file_place(g, old(self).media(), f, f.position as int) == Some(
                        (lba, at as int),
                    )
                    &&& at == f.position % g.bytes_per_sector as u64
                    &&& at < g.bytes_per_sector
                    &&& final(file)@ == resolved(
                        f,
                        wanted,
                        file_cluster(g, old(self).media(), f, wanted)->0,
                    )
                },
                Err(_) => final(file)@ == old(file)@,
            },
    {
        let g = self.volume.geometry;
        let size: u64 = g.bytes_per_sector as u64;
        let cluster_bytes: u64 = g.bytes_per_cluster() as u64;
        let offset: u64 = file.position;
        proof {
            arith::lemma_stream_offset(offset as int, size as int, g.sectors_per_cluster as int);
            lemma_file_cluster_in_heap(
                g,
                self.media(),
                file@,
                offset as int / g.cluster_bytes(),
            );
        }
        let cluster: u32 = match self.file_cluster_at(file, offset / cluster_bytes, scratch) {
            Ok(cluster) => cluster,
            Err(error) => return Err(error),
        };
        proof {
            allocation::lemma_place(g, cluster, offset as int);
            g.lemma_heap_bounds(cluster);
        }
        let within: u64 = offset % cluster_bytes;
        let base: u64 = g.partition.first_lba + g.cluster_heap_offset as u64 + (cluster - 2) as u64
            * g.sectors_per_cluster as u64;
        Ok((base + within / size, (within % size) as usize))
    }

    /// Read sequentially from a detached file handle. The handle never
    /// borrows this filesystem; callers may keep it in a long-lived worker.
    #[verifier::rlimit(60)]
    pub fn read(&mut self, file: &mut File, out: &mut [u8], scratch: &mut Scratch<'_>) -> (result:
        Result<usize, Error<D::Error>>)
        requires
            old(self).wf(),
            old(file).wf(),
            old(file)@.cache_behind(old(self).volume.geometry),
            old(scratch)@.len() >= old(self).volume.geometry.bytes_per_sector,
        ensures
            final(self).wf(),
            final(file).wf(),
            final(file)@.cache_behind(old(self).volume.geometry),
            final(scratch)@.len() == old(scratch)@.len(),
            state::answers(
                *old(self),
                *final(self),
                result,
                read_result(
                    old(self).volume.geometry,
                    old(self).media(),
                    old(file)@,
                    old(out)@.len(),
                ),
            ),
            old(file)@.position <= final(file)@.position <= old(file)@.position + transfer(
                old(file)@,
                old(out)@.len(),
            ),
            same_file(old(file)@, final(file)@),
            !(result matches Err(Error::Device(_))) ==> final(file)@ == advanced(
                old(self).volume.geometry,
                old(self).media(),
                old(file)@,
                final(file)@.position - old(file)@.position,
            ),
            has_read(
                old(self).volume.geometry,
                old(self).media(),
                old(file)@,
                old(out)@,
                final(out)@,
                final(file)@.position - old(file)@.position,
            ),
            match result {
                Ok(count) => final(file)@.position == old(file)@.position + count,
                Err(Error::Device(_)) => is_looked_up(
                    old(self).volume.geometry,
                    old(self).media(),
                    advanced(
                        old(self).volume.geometry,
                        old(self).media(),
                        old(file)@,
                        final(file)@.position - old(file)@.position,
                    ),
                    final(file)@,
                ),
                Err(_) => file_place(
                    old(self).volume.geometry,
                    old(self).media(),
                    old(file)@,
                    final(file)@.position as int,
                ) is None,
            },
            transfer(old(file)@, old(out)@.len()) == 0 ==> {
                &&& result == Ok::<usize, Error<D::Error>>(0)
                &&& *final(self) == *old(self)
            },
    {
        let g = self.volume.geometry;
        let ghost media = self.media();
        let ghost f = file@;
        let ghost initial = out@;
        let ghost total = transfer(f, out@.len());
        if file.position >= file.valid_length || out.is_empty() {
            return Ok(0);
        }
        let size: usize = g.bytes_per_sector as usize;
        let left: u64 = file.valid_length - file.position;
        let wanted: usize = if (out.len() as u64) < left {
            out.len()
        } else {
            left as usize
        };
        let mut done: usize = 0;
        while done < wanted
            invariant
                done <= wanted <= out.len(),
                wanted == total,
                total == transfer(f, initial.len()),
                out@.len() == initial.len(),
                out.len() == initial.len(),
                self.wf(),
                g == self.volume.geometry,
                g == old(self).volume.geometry,
                size == g.bytes_per_sector,
                media == old(self).media(),
                f == old(file)@,
                initial == old(out)@,
                f.cache_behind(g),
                f.position + wanted <= f.valid_length,
                state::answers(*old(self), *self, Ok::<(), Error<D::Error>>(()), Ok(())),
                scratch@.len() == old(scratch)@.len(),
                scratch@.len() >= size,
                file.wf(),
                file@ == advanced(g, media, f, done as int),
                file@.cache_behind(g),
                file.position == f.position + done,
                has_read(g, media, f, initial, out@, done as int),
            decreases wanted - done,
        {
            let ghost now = file@;
            let ghost offset = f.position + done;
            proof {
                if done > 0 {
                    assert(file_place(g, media, f, f.position + (done - 1)) is Some);
                }
                lemma_advanced(g, media, f, done as int, offset);
                lemma_resolved_behind(g, media, now);
            }
            let (lba, at) = match self.locate(file, scratch) {
                Ok(location) => location,
                Err(error) => {
                    proof {
                        if error is Corrupt {
                            assert(!all_placed(g, media, f, total));
                        }
                    }
                    return Err(error);
                },
            };
            match self.fetch(lba, scratch) {
                Ok(()) => {},
                Err(error) => return Err(error),
            }
            let count: usize = if size - at < wanted - done {
                size - at
            } else {
                wanted - done
            };
            bytes::copy_bytes(out, done, scratch.head(size), at, count);
            file.position = file.position + count as u64;
            proof {
                lemma_same_place(g, media, f, offset, count - 1);
                assert(file@ =~= advanced(g, media, f, done + count));
                assert forall|j: int| 0 <= j < done + count implies #[trigger] file_place(
                    g,
                    media,
                    f,
                    f.position + j,
                ) is Some by {
                    if j >= done {
                        lemma_same_place(g, media, f, offset, j - done);
                    }
                }
                assert forall|j: int| 0 <= j < done + count implies #[trigger] out@[j]
                    == file_byte(g, media, f, f.position + j) by {
                    if j >= done {
                        lemma_same_place(g, media, f, offset, j - done);
                    }
                }
                lemma_advanced(g, media, f, done + count, offset + count);
            }
            done = done + count;
        }
        Ok(done)
    }

    /// Write within the file's already allocated valid range. Growth is
    /// deliberately handled by `append`/`truncate` so a failed metadata
    /// commit can never leave a newly visible uninitialised range.
    #[verifier::rlimit(50)]
    pub fn write(&mut self, file: &mut File, input: &[u8], scratch: &mut Scratch<'_>) -> (result:
        Result<usize, Error<D::Error>>)
        requires
            old(self).wf(),
            old(file).wf(),
            old(file)@.cache_behind(old(self).volume.geometry),
            old(scratch)@.len() >= old(self).volume.geometry.bytes_per_sector,
        ensures
            final(self).wf(),
            final(file).wf(),
            final(file)@.cache_behind(old(self).volume.geometry),
            final(scratch)@.len() == old(scratch)@.len(),
            state::performs(
                *old(self),
                *final(self),
                result,
                write_within_plan(
                    old(self).volume,
                    old(self).media(),
                    old(self).free_clusters,
                    old(file)@,
                    input@,
                ),
            ),
            same_file(old(file)@, final(file)@),
            result matches Err(Error::Device(_)) ==> is_cut_short::<D::Error>(
                old(self).volume,
                old(self).media(),
                old(self).free_clusters,
                old(file)@,
                input@.take(transfer(old(file)@, input@.len())),
                final(self).media(),
                final(self).free_clusters,
                final(file)@,
            ),
            !(result matches Err(Error::Device(_))) ==> final(file)@ == write_file(
                old(self).volume,
                old(self).media(),
                old(file)@,
                input@.take(transfer(old(file)@, input@.len())),
            ),
            result matches Ok(count) ==> final(file)@.position == old(file)@.position + count,
            transfer(old(file)@, input@.len()) == 0 ==> {
                &&& result == Ok::<usize, Error<D::Error>>(0)
                &&& *final(self) == *old(self)
            },
    {
        let g = self.volume.geometry;
        let ghost before = *self;
        let ghost v = self.volume;
        let ghost free = self.free_clusters;
        let ghost f = file@;
        let ghost total = transfer(f, input@.len());
        let ghost data = input@.take(total);
        let ghost reply = Plan::<usize, D::Error>::answer(free, Ok(total as usize));
        proof {
            state::lemma_answer(before, before, Ok::<(), Error<D::Error>>(()), Ok(()));
            state::lemma_answer(
                before,
                before,
                Ok::<usize, Error<D::Error>>(0),
                Ok(0),
            );
        }
        if file.position >= file.valid_length || input.len() == 0 {
            assert(data =~= Seq::empty());
            assert(write_within_plan::<D::Error>(v, before.media(), free, f, input@)
                =~= Plan::answer(free, Ok(0)));
            return Ok(0);
        }
        let size: usize = g.bytes_per_sector as usize;
        let left: u64 = file.valid_length - file.position;
        let wanted: usize = if (input.len() as u64) < left {
            input.len()
        } else {
            left as usize
        };
        let ghost plan = write_plan::<D::Error>(v, before.media(), free, f, data);
        let ghost mut finished = Plan::<(), D::Error>::answer(free, Ok(()));
        let ghost mut made: int = 0;
        let mut done: usize = 0;
        proof {
            assert(data.skip(0) =~= data);
            assert(finished.and(plan) =~= plan);
            lemma_write_free::<D::Error>(v, before.media(), free, f, data);
        }
        while done < wanted
            invariant
                done <= wanted <= input.len(),
                wanted == total,
                data == input@.take(total),
                self.wf(),
                before == *old(self),
                v == before.volume,
                free == before.free_clusters,
                g == v.geometry,
                v == self.volume,
                self.free_clusters == free,
                size == g.bytes_per_sector,
                f == old(file)@,
                total == transfer(f, input@.len()),
                f.position + wanted <= f.valid_length,
                scratch@.len() == old(scratch)@.len(),
                scratch@.len() >= size,
                file.wf(),
                same_file(f, file@),
                file.position == f.position + done,
                file@.cache_behind(g),
                finished.result == Ok::<(), Error<D::Error>>(()),
                made == finished.writes.len(),
                done == in_sectors(g, f.position as int, total, made),
                continues(
                    v,
                    before.media(),
                    f,
                    data,
                    made,
                    self.media(),
                    file@,
                    data.skip(done as int),
                ),
                state::performs(before, *self, Ok(()), finished),
                plan == write_plan::<D::Error>(v, before.media(), free, f, data),
                plan == finished.and(
                    write_plan::<D::Error>(v, self.media(), free, file@, data.skip(done as int)),
                ),
                plan.free == free,
                reply == Plan::<usize, D::Error>::answer(free, Ok(total as usize)),
                write_file(v, before.media(), f, data) == write_file(
                    v,
                    self.media(),
                    file@,
                    data.skip(done as int),
                ),
            decreases wanted - done,
        {
            let ghost now = file@;
            let ghost media = self.media();
            let ghost part = data.skip(done as int);
            let ghost rest = write_plan::<D::Error>(v, media, free, now, part);
            let ghost s0 = *self;
            assert(write_file_until(v, media, now, part, 0) == now);
            let ghost expected: Result<(u64, usize), Error<D::Error>> = match file_place(
                g,
                media,
                now,
                now.position as int,
            ) {
                Some((lba, at)) => Ok((lba, at as usize)),
                None => Err(Error::Corrupt),
            };
            let located = self.locate(file, scratch);
            let ghost s1 = *self;
            proof {
                state::lemma_read_within(
                    before,
                    s0,
                    s1,
                    finished,
                    Ok(()),
                    expected,
                    located,
                    rest,
                );
                if located is Err {
                    let failed = Err::<(), Error<D::Error>>(located->Err_0);
                    state::lemma_and_fails(
                        before,
                        s1,
                        failed,
                        plan,
                        Err::<usize, Error<D::Error>>(located->Err_0),
                        reply,
                    );
                    lemma_resolved_behind(g, media, now);
                    state::lemma_stopped_behind(before, s0, s1, finished, rest);
                    assert(is_cut_short_at::<D::Error>(
                        v,
                        before.media(),
                        free,
                        f,
                        data,
                        s1.media(),
                        s1.free_clusters,
                        now,
                        made,
                    ));
                }
            }
            let (lba, at) = match located {
                Ok(location) => location,
                Err(error) => return Err(error),
            };
            let count: usize = if size - at < wanted - done {
                size - at
            } else {
                wanted - done
            };
            let ghost chunk = part.take(count as int);
            assert(chunk =~= input@.subrange(done as int, done + count));
            assert(count == in_sector(g, now.position as int, part.len() as int));
            proof {
                lemma_resolved_behind(g, media, now);
            }
            if at != 0 || count != size {
                let read = self.fetch(lba, scratch);
                proof {
                    state::lemma_read_within(
                        before,
                        s1,
                        *self,
                        finished,
                        Ok(()),
                        Ok(()),
                        read,
                        rest,
                    );
                    if read is Err {
                        state::lemma_and_fails(
                            before,
                            *self,
                            read,
                            plan,
                            Err::<usize, Error<D::Error>>(read->Err_0),
                            reply,
                        );
                        state::lemma_stopped_behind(before, s0, *self, finished, rest);
                        assert(is_cut_short_at::<D::Error>(
                            v,
                            before.media(),
                            free,
                            f,
                            data,
                            self.media(),
                            self.free_clusters,
                            file@,
                            made,
                        ));
                    }
                }
                match read {
                    Ok(()) => {},
                    Err(error) => return Err(error),
                }
            }
            let ghost s2 = *self;
            bytes::copy_bytes(scratch.sector(size), at, input, done, count);
            assert(scratch@.take(size as int) =~= written(g, media[lba], at as int, chunk));
            let stored = self.put(lba, scratch);
            let ghost next = advanced(g, media, now, count as int);
            let ghost write = SectorWrite { lba, data: written(g, media[lba], at as int, chunk) };
            let ghost step = Plan::<(), D::Error>::write(free, write, Ok(()));
            proof {
                lemma_same_place(g, media, now, now.position as int, count - 1);
                let after = write_plan::<D::Error>(
                    v,
                    step.leaves(media),
                    free,
                    next,
                    part.skip(count as int),
                );
                lemma_advanced(g, media, now, count as int, now.position + count);
                assert(rest == step.and(after));
                state::lemma_step(before, s2, *self, finished, Ok(()), step, stored, after);
                if stored is Err {
                    state::lemma_and_fails(
                        before,
                        *self,
                        Err::<(), Error<D::Error>>(stored->Err_0),
                        plan,
                        Err::<usize, Error<D::Error>>(stored->Err_0),
                        reply,
                    );
                    assert(rest.writes[0] == write);
                    state::lemma_stopped_behind(before, s2, *self, finished, rest);
                    assert(is_cut_short_at::<D::Error>(
                        v,
                        before.media(),
                        free,
                        f,
                        data,
                        self.media(),
                        self.free_clusters,
                        file@,
                        made,
                    ));
                }
            }
            match stored {
                Ok(()) => {},
                Err(error) => return Err(error),
            }
            file.position = file.position + count as u64;
            proof {
                assert(file@ =~= next);
                assert(part.skip(count as int) =~= data.skip(done + count));
                assert forall|j: nat| #[trigger]
                    write_file_until(v, self.media(), next, part.skip(count as int), j)
                        == write_file_until(v, before.media(), f, data, (made + 1 + j) as nat) by {
                    assert(write_file_until(v, media, now, part, (j + 1) as nat)
                        == write_file_until(v, self.media(), next, part.skip(count as int), j));
                }
                lemma_in_sectors(g, f.position as int, total, made);
                finished = finished.and(step);
                made = made + 1;
            }
            done = done + count;
        }
        proof {
            assert(data.skip(done as int) =~= Seq::empty());
            assert(finished =~= plan);
            assert(finished.and(reply).writes =~= plan.writes);
        }
        Ok(done)
    }

    /// Commit all preceding sector writes to the block device. `Scratch` is
    /// accepted to keep the mutating API uniform and leaves room for a future
    /// volume-flags update without changing callers.
    pub fn flush(&mut self, _scratch: &mut Scratch<'_>) -> (result: Result<(), Error<D::Error>>)
        requires
            old(self).wf(),
        ensures
            final(self).wf(),
            final(_scratch)@ == old(_scratch)@,
            state::replies(*old(self), *final(self), result, Ok(())),
            result is Ok ==> final(self).device.stable() == final(self).media(),
    {
        match self.device.flush() {
            Ok(()) => Ok(()),
            Err(error) => Err(Error::Device(error)),
        }
    }
}

/// A write leaves the free-cluster count alone.
pub proof fn lemma_write_free<E>(v: Volume, media: Media, free: u32, f: FileModel, data: Seq<u8>)
    ensures
        write_plan::<E>(v, media, free, f, data).free == free,
    decreases data.len(),
{
    let g = v.geometry;
    let count = in_sector(g, f.position as int, data.len() as int);
    if data.len() > 0 && 0 < count <= data.len() {
        if let Some((lba, at)) = file_place(g, media, f, f.position as int) {
            let write = SectorWrite { lba, data: written(g, media[lba], at, data.take(count)) };
            let step = Plan::<(), E>::write(free, write, Ok(()));
            lemma_write_free::<E>(
                v,
                step.leaves(media),
                free,
                advanced(g, media, f, count),
                data.skip(count),
            );
        }
    }
}

/// Resolving the cluster of the position keeps the cache from passing it.
proof fn lemma_resolved_behind(g: Geometry, media: Media, f: FileModel)
    requires
        g.wf(),
        f.cache_behind(g),
    ensures
        resolved(
            f,
            f.position as int / g.cluster_bytes(),
            file_cluster(g, media, f, f.position as int / g.cluster_bytes())->0,
        ).cache_behind(g),
{
    let cb = g.cluster_bytes();
    let wanted = f.position as int / cb;
    lemma_cache_index(g, f);
    vstd::arithmetic::div_mod::lemma_fundamental_div_mod(f.position as int, cb);
    vstd::arithmetic::mul::lemma_mul_is_commutative(wanted, cb);
    assert(0 <= wanted <= f.position) by (nonlinear_arith)
        requires
            wanted == f.position as int / cb,
            cb > 0,
    ;
}

} // verus!
