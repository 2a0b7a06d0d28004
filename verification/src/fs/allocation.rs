//! FAT, allocation-bitmap, and cluster-allocation primitives.

use crate::arith;
use crate::bytes;
use crate::device;
use crate::device::{BlockDevice, Media, Scratch, SectorWrite};
use crate::directory::slots;
use crate::error;
use crate::error::Error;
use crate::fs::state;
use crate::fs::state::{FileSystem, Plan};
use crate::geometry::Geometry;
use crate::mount::Volume;
use vstd::prelude::*;

verus! {

/// The FAT value of `cluster`, where the FAT holds one.
pub open spec fn next_of(g: Geometry, media: Media, cluster: u32) -> Option<u32> {
    if g.fat_holds(cluster) {
        Some(slots::fat_entry(g, media, cluster))
    } else {
        None
    }
}

/// Cluster number `i` of the chain that starts at `first`. Every cluster but
/// the first is checked to be one of the heap.
pub open spec fn chain_at(g: Geometry, media: Media, first: u32, i: nat) -> Option<u32>
    decreases i,
{
    if i == 0 {
        Some(first)
    } else {
        match chain_at(g, media, first, (i - 1) as nat) {
            Some(cluster) => match next_of(g, media, cluster) {
                Some(next) => if g.in_heap(next) {
                    Some(next)
                } else {
                    None
                },
                None => None,
            },
            None => None,
        }
    }
}

/// Cluster number `i` of the chain that starts at `first`, where a volume can
/// have that many.
pub open spec fn cluster_of(g: Geometry, media: Media, first: u32, i: int) -> Option<u32> {
    if 0 <= i < g.cluster_count {
        chain_at(g, media, first, i as nat)
    } else {
        None
    }
}

/// The sector and the byte within it at which stream byte `offset` lies, given
/// the stream cluster that holds it.
pub open spec fn place(g: Geometry, cluster: Option<u32>, offset: int) -> Option<(u64, int)> {
    match cluster {
        Some(cluster) => if g.in_heap(cluster) {
            Some(
                (
                    (g.heap_lba(cluster as int) + offset % g.cluster_bytes()
                        / g.bytes_per_sector as int) as u64,
                    offset % g.cluster_bytes() % g.bytes_per_sector as int,
                ),
            )
        } else {
            None
        },
        None => None,
    }
}

/// Where byte `byte` of the allocation bitmap lies.
pub open spec fn bitmap_place(v: Volume, media: Media, byte: int) -> Option<(u64, int)> {
    if byte < v.bitmap.byte_length {
        place(
            v.geometry,
            cluster_of(
                v.geometry,
                media,
                v.bitmap.first_cluster,
                byte / v.geometry.cluster_bytes(),
            ),
            byte,
        )
    } else {
        None
    }
}

/// Whether bit number `bit` of `byte` is set.
pub open spec fn bit_set(byte: u8, bit: u8) -> bool {
    byte & (1u8 << bit) != 0
}

/// `byte` with bit number `bit` set or cleared.
pub open spec fn with_bit(byte: u8, bit: u8, set: bool) -> u8 {
    if set {
        byte | (1u8 << bit)
    } else {
        byte & !(1u8 << bit)
    }
}

/// The sector, the byte and the bit of the allocation bitmap that stand for
/// `cluster`.
pub open spec fn bitmap_slot(v: Volume, media: Media, cluster: int) -> Option<(u64, int, u8)> {
    if cluster < 2 {
        None
    } else {
        match bitmap_place(v, media, (cluster - 2) / 8) {
            Some((lba, offset)) => Some((lba, offset, ((cluster - 2) % 8) as u8)),
            None => None,
        }
    }
}

/// Whether the allocation bitmap marks `cluster` as used.
pub open spec fn is_used(v: Volume, media: Media, cluster: int) -> Option<bool> {
    match bitmap_slot(v, media, cluster) {
        Some((lba, offset, bit)) => Some(bit_set(media[lba][offset], bit)),
        None => None,
    }
}

/// Number of used clusters among the first `n` of the heap.
pub open spec fn used_count(v: Volume, media: Media, n: nat) -> Option<nat>
    decreases n,
{
    if n == 0 {
        Some(0)
    } else {
        match (used_count(v, media, (n - 1) as nat), is_used(v, media, n as int + 1)) {
            (Some(count), Some(used)) => Some(
                if used {
                    count + 1
                } else {
                    count
                },
            ),
            _ => None,
        }
    }
}

/// The number of free clusters that counting them finds.
pub open spec fn count_result<E>(v: Volume, media: Media) -> Result<u32, Error<E>> {
    match used_count(v, media, v.geometry.cluster_count as nat) {
        Some(used) => Ok((v.geometry.cluster_count - used) as u32),
        None => Err(Error::Corrupt),
    }
}

/// What counting the free clusters promises: it writes nothing, hands an error
/// of the device on, and keeps the new count. Where it fails, the old count
/// stays.
pub open spec fn refreshes<D: BlockDevice>(
    before: FileSystem<D>,
    after: FileSystem<D>,
    result: Result<(), Error<D::Error>>,
) -> bool {
    let count = count_result::<D::Error>(before.volume, before.media());
    &&& after.volume == before.volume
    &&& device::answers(
        before.device,
        after.device,
        result,
        match count {
            Ok(_) => Ok(()),
            Err(error) => Err(error),
        },
    )
    &&& after.free_clusters == match result {
        Ok(()) => count->Ok_0,
        Err(_) => before.free_clusters,
    }
}

/// What recording `value` as the FAT value of `cluster` does.
pub open spec fn set_fat_plan<E>(
    v: Volume,
    media: Media,
    free: u32,
    cluster: u32,
    value: u32,
) -> Plan<(), E> {
    let g = v.geometry;
    let lba = g.fat_lba(cluster);
    Plan::write(
        free,
        SectorWrite {
            lba,
            data: bytes::splice(media[lba], g.fat_byte(cluster), bytes::le32(value)),
        },
        Ok(()),
    )
}

/// What marking `cluster` as used or free does: nothing where it is so marked
/// already.
pub open spec fn set_bitmap_plan<E>(
    v: Volume,
    media: Media,
    free: u32,
    cluster: u32,
    used: bool,
) -> Plan<(), E> {
    match bitmap_slot(v, media, cluster as int) {
        None => Plan::answer(free, Err(Error::Corrupt)),
        Some((lba, offset, bit)) => {
            let sector = media[lba];
            if bit_set(sector[offset], bit) == used {
                Plan::answer(free, Ok(()))
            } else if used && free == 0 || !used && free >= v.geometry.cluster_count {
                Plan::answer(free, Err(Error::Corrupt))
            } else {
                Plan::write(
                    if used {
                        (free - 1) as u32
                    } else {
                        (free + 1) as u32
                    },
                    SectorWrite {
                        lba,
                        data: sector.update(offset, with_bit(sector[offset], bit, used)),
                    },
                    Ok(()),
                )
            }
        },
    }
}

/// The writes that clear every sector of `cluster`, from sector `from` on.
pub open spec fn zero_writes(g: Geometry, cluster: u32, from: int) -> Seq<SectorWrite> {
    Seq::new(
        (g.sectors_per_cluster - from) as nat,
        |i: int|
            SectorWrite {
                lba: (g.heap_lba(cluster as int) + from + i) as u64,
                data: bytes::filled(g.bytes_per_sector as nat, 0),
            },
    )
}

/// What clearing every sector of `cluster`, from sector `from` on, does.
pub open spec fn zero_from_plan<E>(g: Geometry, free: u32, cluster: u32, from: int) -> Plan<(), E> {
    let writes = zero_writes(g, cluster, from);
    Plan { writes, counts: Seq::new(writes.len(), |i: int| free), free, result: Ok(()) }
}

/// What clearing every sector of `cluster` does.
pub open spec fn zero_plan<E>(g: Geometry, free: u32, cluster: u32) -> Plan<(), E> {
    zero_from_plan(g, free, cluster, 0)
}

/// What claiming the free cluster `cluster` does, in this order: clear its
/// sectors, mark it as used, end its chain.
pub open spec fn take_plan<E>(v: Volume, media: Media, free: u32, cluster: u32) -> Plan<(), E> {
    let zero = zero_plan::<E>(v.geometry, free, cluster);
    let zeroed = zero.leaves(media);
    let mark = set_bitmap_plan::<E>(v, zeroed, free, cluster, true);
    let end = set_fat_plan::<E>(v, mark.leaves(zeroed), mark.free, cluster, 0xffff_ffff);
    zero.and(mark.and(end))
}

/// What claiming `cluster` does: nothing where it is used already.
pub open spec fn claim_plan<E>(v: Volume, media: Media, free: u32, cluster: u32) -> Plan<bool, E> {
    match is_used(v, media, cluster as int) {
        None => Plan::answer(free, Err(Error::Corrupt)),
        Some(true) => Plan::answer(free, Ok(false)),
        Some(false) => if v.geometry.in_heap(cluster) {
            let take = take_plan::<E>(v, media, free, cluster);
            take.and(Plan::answer(take.free, Ok(true)))
        } else {
            Plan::answer(free, Err(Error::Corrupt))
        },
    }
}

/// The first free cluster from `from` up to `to`: `None` where the bitmap
/// cannot be read, `Some(None)` where there is none.
pub open spec fn first_free(v: Volume, media: Media, from: int, to: int) -> Option<Option<u32>>
    decreases to - from,
{
    if from >= to {
        Some(None)
    } else {
        match is_used(v, media, from) {
            None => None,
            Some(true) => first_free(v, media, from + 1, to),
            Some(false) => Some(Some(from as u32)),
        }
    }
}

/// What claiming the first free cluster from `from` up to `to` does.
pub open spec fn claim_first_plan<E>(
    v: Volume,
    media: Media,
    free: u32,
    from: int,
    to: int,
) -> Plan<Option<u32>, E> {
    match first_free(v, media, from, to) {
        None => Plan::answer(free, Err(Error::Corrupt)),
        Some(None) => Plan::answer(free, Ok(None)),
        Some(Some(cluster)) => {
            let take = take_plan::<E>(v, media, free, cluster);
            take.and(Plan::answer(take.free, Ok(Some(cluster))))
        },
    }
}

/// The cluster at which a search that prefers `preferred` starts.
pub open spec fn search_start(g: Geometry, preferred: u32) -> u32 {
    if 2 <= preferred < g.cluster_count + 2 {
        preferred
    } else {
        2
    }
}

/// The cluster that an allocation takes: the first free one from the preferred
/// one on, or else the first free one before it.
pub open spec fn choice(v: Volume, media: Media, preferred: u32) -> Option<Option<u32>> {
    let g = v.geometry;
    let start = search_start(g, preferred) as int;
    match first_free(v, media, start, g.cluster_count + 2) {
        Some(None) => first_free(v, media, 2, start),
        found => found,
    }
}

/// What allocating a cluster does.
pub open spec fn allocate_plan<E>(v: Volume, media: Media, free: u32, preferred: u32) -> Plan<
    u32,
    E,
> {
    if v.geometry.cluster_count + 2 > u32::MAX {
        Plan::answer(free, Err(Error::Corrupt))
    } else {
        match choice(v, media, preferred) {
            None => Plan::answer(free, Err(Error::Corrupt)),
            Some(None) => Plan::answer(free, Err(Error::NoSpace)),
            Some(Some(cluster)) => {
                let take = take_plan::<E>(v, media, free, cluster);
                take.and(Plan::answer(take.free, Ok(cluster)))
            },
        }
    }
}

/// A chain cluster that can be placed lies within the volume.
pub proof fn lemma_place(g: Geometry, cluster: u32, offset: int)
    requires
        g.wf(),
        g.in_heap(cluster),
        0 <= offset,
    ensures
        g.heap_lba(cluster as int) + offset % g.cluster_bytes() / (g.bytes_per_sector as int)
            < g.partition.first_lba + g.partition.sector_count,
        0 <= offset % g.cluster_bytes() / (g.bytes_per_sector as int) < g.sectors_per_cluster,
        0 <= offset % g.cluster_bytes() % (g.bytes_per_sector as int) < g.bytes_per_sector,
        g.cluster_bytes() > 0,
        offset % g.cluster_bytes() % g.bytes_per_sector as int == offset
            % g.bytes_per_sector as int,
{
    g.lemma_heap_bounds(cluster);
    arith::lemma_stream_offset(
        offset,
        g.bytes_per_sector as int,
        g.sectors_per_cluster as int,
    );
}

/// Bytes that follow a bitmap byte in its sector lie right behind it.
proof fn lemma_bitmap_run(v: Volume, media: Media, byte: int, more: int)
    requires
        v.geometry.wf(),
        0 <= byte,
        0 <= more,
        byte + more < v.bitmap.byte_length,
        byte % (v.geometry.bytes_per_sector as int) + more < v.geometry.bytes_per_sector,
    ensures
        bitmap_place(v, media, byte + more) == match bitmap_place(v, media, byte) {
            Some((lba, offset)) => Some((lba, offset + more)),
            None => None::<(u64, int)>,
        },
{
    let g = v.geometry;
    let size = g.bytes_per_sector as int;
    let per = g.sectors_per_cluster as int;
    arith::lemma_stream_offset(byte, size, per);
    arith::lemma_stream_offset(byte + more, size, per);
    arith::lemma_same_sector(byte, more, size);
}

/// Once a cluster cannot be counted, no more can.
proof fn lemma_uncountable(v: Volume, media: Media, k: nat, n: nat)
    requires
        k <= n,
        used_count(v, media, k) is None,
    ensures
        used_count(v, media, n) is None,
    decreases n,
{
    if k < n {
        lemma_uncountable(v, media, k, (n - 1) as nat);
    }
}

/// No more clusters are used than there are.
pub proof fn lemma_used_bound(v: Volume, media: Media, n: nat)
    ensures
        used_count(v, media, n) matches Some(count) ==> count <= n,
    decreases n,
{
    if n > 0 {
        lemma_used_bound(v, media, (n - 1) as nat);
    }
}

impl<D: BlockDevice> FileSystem<D> {
    /// Read sector `lba` into the start of `scratch`.
    pub fn fetch(&mut self, lba: u64, scratch: &mut Scratch<'_>) -> (result: Result<
        (),
        Error<D::Error>,
    >)
        requires
            old(self).wf(),
            old(scratch)@.len() >= old(self).volume.geometry.bytes_per_sector,
        ensures
            final(self).wf(),
            final(scratch)@.len() == old(scratch)@.len(),
            state::answers(*old(self), *final(self), result, Ok(())),
            result is Ok ==> {
                &&& final(scratch)@.take(old(self).volume.geometry.bytes_per_sector as int)
                    == old(self).media()[lba]
                &&& old(self).media()[lba].len() == old(self).volume.geometry.bytes_per_sector
            },
    {
        let size: usize = self.volume.geometry.bytes_per_sector as usize;
        device::load(&mut self.device, lba, scratch, size)
    }

    /// Write the first sector of `scratch` to sector `lba`.
    pub fn put(&mut self, lba: u64, scratch: &Scratch<'_>) -> (result: Result<
        (),
        Error<D::Error>,
    >)
        requires
            old(self).wf(),
            scratch@.len() >= old(self).volume.geometry.bytes_per_sector,
        ensures
            final(self).wf(),
            state::performs(
                *old(self),
                *final(self),
                result,
                Plan::write(
                    old(self).free_clusters,
                    (SectorWrite {
                        lba,
                        data: scratch@.take(old(self).volume.geometry.bytes_per_sector as int),
                    }),
                    Ok(()),
                ),
            ),
            final(self).free_clusters == old(self).free_clusters,
            result is Err ==> final(self).media().remove(lba) == old(self).media().remove(lba),
    {
        let size: usize = self.volume.geometry.bytes_per_sector as usize;
        let ghost before = *self;
        let stored = device::store(&mut self.device, lba, scratch, size);
        proof {
            let plan = Plan::<(), D::Error>::write(
                before.free_clusters,
                SectorWrite { lba, data: scratch@.take(size as int) },
                Ok(()),
            );
            assert(plan.writes.take(0) =~= Seq::empty());
            device::lemma_applied_one(before.media(), plan.writes[0]);
            if stored is Err {
                assert(self.media().remove(lba) == before.media().remove(lba)) by {
                    let k = choose|k: int|
                        0 <= k <= 1 && #[trigger] device::stopped_at(
                            before.media(),
                            self.media(),
                            plan.writes,
                            k,
                        );
                    assert(plan.writes.take(1) =~= plan.writes);
                    assert(before.media().insert(lba, plan.writes[0].data).remove(lba)
                        =~= before.media().remove(lba));
                }
                assert(state::is_stopped_at(
                    plan.writes,
                    plan.counts,
                    before.media(),
                    before.free_clusters,
                    self.media(),
                    self.free_clusters,
                    0,
                ));
            }
        }
        stored
    }

    /// Read the FAT value of a cluster.
    pub fn next_cluster(&mut self, cluster: u32, scratch: &mut Scratch<'_>) -> (result: Result<
        u32,
        Error<D::Error>,
    >)
        requires
            old(self).wf(),
            old(scratch)@.len() >= old(self).volume.geometry.bytes_per_sector,
        ensures
            final(self).wf(),
            final(scratch)@.len() == old(scratch)@.len(),
            state::answers(
                *old(self),
                *final(self),
                result,
                error::or_corrupt(
                    next_of(old(self).volume.geometry, old(self).media(), cluster),
                ),
            ),
    {
        let g = self.volume.geometry;
        let size: usize = g.bytes_per_sector as usize;
        let byte: u64 = cluster as u64 * 4;
        proof {
            g.lemma_fat_byte(cluster);
        }
        let lba: u64 = match g.fat_lba_for_byte(byte) {
            Some(lba) => lba,
            None => return Err(Error::Corrupt),
        };
        let offset: usize = (byte % size as u64) as usize;
        match self.fetch(lba, scratch) {
            Ok(()) => Ok(bytes::le_u32(scratch.head(size), offset)),
            Err(error) => Err(error),
        }
    }

    /// Record the FAT value of a cluster.
    pub fn set_fat(&mut self, cluster: u32, value: u32, scratch: &mut Scratch<'_>) -> (result:
        Result<(), Error<D::Error>>)
        requires
            old(self).wf(),
            old(scratch)@.len() >= old(self).volume.geometry.bytes_per_sector,
        ensures
            final(self).wf(),
            final(scratch)@.len() == old(scratch)@.len(),
            state::performs(
                *old(self),
                *final(self),
                result,
                set_fat_plan(
                    old(self).volume,
                    old(self).media(),
                    old(self).free_clusters,
                    cluster,
                    value,
                ),
            ),
    {
        let g = self.volume.geometry;
        let size: usize = g.bytes_per_sector as usize;
        let byte: u64 = cluster as u64 * 4;
        proof {
            g.lemma_fat_byte(cluster);
        }
        let lba: u64 = g.partition.first_lba + g.fat_offset as u64 + byte / size as u64;
        let offset: usize = (byte % size as u64) as usize;
        let ghost before = *self;
        let ghost plan = set_fat_plan::<D::Error>(
            self.volume,
            self.media(),
            self.free_clusters,
            cluster,
            value,
        );
        let read = self.fetch(lba, scratch);
        if read.is_err() {
            proof {
                state::lemma_read_failed(before, *self, read, Ok(()), read, plan);
            }
            return read;
        }
        bytes::put_u32(scratch.sector(size), offset, value);
        assert(scratch@.take(size as int) =~= bytes::splice(
            before.media()[lba],
            offset as int,
            bytes::le32(value),
        ));
        self.put(lba, scratch)
    }

    /// Find cluster number `index` of the chain that starts at `first`.
    pub fn cluster_at(&mut self, first: u32, index: u64, scratch: &mut Scratch<'_>) -> (result:
        Result<u32, Error<D::Error>>)
        requires
            old(self).wf(),
            old(scratch)@.len() >= old(self).volume.geometry.bytes_per_sector,
        ensures
            final(self).wf(),
            final(scratch)@.len() == old(scratch)@.len(),
            state::answers(
                *old(self),
                *final(self),
                result,
                error::or_corrupt(
                    cluster_of(
                        old(self).volume.geometry,
                        old(self).media(),
                        first,
                        index as int,
                    ),
                ),
            ),
    {
        let g = self.volume.geometry;
        let ghost media = self.media();
        if index >= g.cluster_count as u64 {
            return Err(Error::Corrupt);
        }
        let mut cluster: u32 = first;
        let mut i: u64 = 0;
        while i < index
            invariant
                i <= index < g.cluster_count,
                self.wf(),
                g == self.volume.geometry,
                state::answers(*old(self), *self, Ok::<(), Error<D::Error>>(()), Ok(())),
                media == old(self).media(),
                scratch@.len() == old(scratch)@.len(),
                scratch@.len() >= g.bytes_per_sector,
                chain_at(g, media, first, i as nat) == Some(cluster),
            decreases index - i,
        {
            let ghost k = (i + 1) as nat;
            match self.next_cluster(cluster, scratch) {
                Ok(next) => {
                    if !g.contains_cluster(next) {
                        proof {
                            lemma_chain_ends(g, media, first, k, index as nat);
                        }
                        return Err(Error::Corrupt);
                    }
                    cluster = next;
                },
                Err(error) => {
                    proof {
                        if error is Corrupt {
                            lemma_chain_ends(g, media, first, k, index as nat);
                        }
                    }
                    return Err(error);
                },
            }
            i = i + 1;
        }
        Ok(cluster)
    }

    /// Find where a byte of the allocation bitmap lies.
    pub fn bitmap_location(&mut self, byte: u64, scratch: &mut Scratch<'_>) -> (result: Result<
        (u64, usize),
        Error<D::Error>,
    >)
        requires
            old(self).wf(),
            old(scratch)@.len() >= old(self).volume.geometry.bytes_per_sector,
        ensures
            final(self).wf(),
            final(scratch)@.len() == old(scratch)@.len(),
            state::answers(
                *old(self),
                *final(self),
                result,
                match bitmap_place(old(self).volume, old(self).media(), byte as int) {
                    Some((lba, offset)) => Ok((lba, offset as usize)),
                    None => Err(Error::Corrupt),
                },
            ),
            result matches Ok((_, offset)) ==> {
                &&& offset < old(self).volume.geometry.bytes_per_sector
                &&& offset == byte % old(self).volume.geometry.bytes_per_sector as u64
            },
    {
        let g = self.volume.geometry;
        let bitmap = self.volume.bitmap;
        if byte >= bitmap.byte_length {
            return Err(Error::Corrupt);
        }
        let size: u64 = g.bytes_per_sector as u64;
        let cluster_bytes: u64 = g.bytes_per_cluster() as u64;
        proof {
            arith::lemma_stream_offset(byte as int, size as int, g.sectors_per_cluster as int);
        }
        let cluster: u32 = match self.cluster_at(
            bitmap.first_cluster,
            byte / cluster_bytes,
            scratch,
        ) {
            Ok(cluster) => cluster,
            Err(error) => return Err(error),
        };
        if !g.contains_cluster(cluster) {
            return Err(Error::Corrupt);
        }
        proof {
            lemma_place(g, cluster, byte as int);
            g.lemma_heap_bounds(cluster);
        }
        let within: u64 = byte % cluster_bytes;
        match g.cluster_lba(cluster) {
            Some(base) => Ok((base + within / size, (within % size) as usize)),
            None => Err(Error::Corrupt),
        }
    }

    /// Whether the allocation bitmap marks a cluster as used.
    pub fn bitmap_used(&mut self, cluster: u32, scratch: &mut Scratch<'_>) -> (result: Result<
        bool,
        Error<D::Error>,
    >)
        requires
            old(self).wf(),
            old(scratch)@.len() >= old(self).volume.geometry.bytes_per_sector,
        ensures
            final(self).wf(),
            final(scratch)@.len() == old(scratch)@.len(),
            state::answers(
                *old(self),
                *final(self),
                result,
                error::or_corrupt(is_used(old(self).volume, old(self).media(), cluster as int)),
            ),
    {
        let size: usize = self.volume.geometry.bytes_per_sector as usize;
        let (byte, bit) = match self.volume.bitmap.position_for(cluster) {
            Some(position) => position,
            None => return Err(Error::Corrupt),
        };
        let (lba, offset) = match self.bitmap_location(byte, scratch) {
            Ok(location) => location,
            Err(error) => return Err(error),
        };
        match self.fetch(lba, scratch) {
            Ok(()) => Ok(scratch.head(size)[offset] & (1u8 << bit) != 0),
            Err(error) => Err(error),
        }
    }

    /// Mark a cluster as used or free, and keep the free-cluster count.
    pub fn set_bitmap(&mut self, cluster: u32, used: bool, scratch: &mut Scratch<'_>) -> (result:
        Result<(), Error<D::Error>>)
        requires
            old(self).wf(),
            old(scratch)@.len() >= old(self).volume.geometry.bytes_per_sector,
        ensures
            final(self).wf(),
            final(scratch)@.len() == old(scratch)@.len(),
            state::performs(
                *old(self),
                *final(self),
                result,
                set_bitmap_plan(
                    old(self).volume,
                    old(self).media(),
                    old(self).free_clusters,
                    cluster,
                    used,
                ),
            ),
            result is Err ==> final(self).free_clusters == old(self).free_clusters,
            old(self).volume.bitmap.position(cluster) is None ==> {
                &&& result == Err::<(), Error<D::Error>>(Error::Corrupt)
                &&& *final(self) == *old(self)
            },
    {
        let size: usize = self.volume.geometry.bytes_per_sector as usize;
        let ghost before = *self;
        let ghost plan = set_bitmap_plan::<D::Error>(
            self.volume,
            self.media(),
            self.free_clusters,
            cluster,
            used,
        );
        proof {
            state::lemma_answer(before, before, Ok::<(), Error<D::Error>>(()), Ok(()));
        }
        let (byte, bit) = match self.volume.bitmap.position_for(cluster) {
            Some(position) => position,
            None => return Err(Error::Corrupt),
        };
        let located = self.bitmap_location(byte, scratch);
        let (lba, offset) = match located {
            Ok(location) => location,
            Err(error) => {
                proof {
                    if error is Device {
                        state::lemma_read_failed(
                            before,
                            *self,
                            located,
                            match bitmap_place(before.volume, before.media(), byte as int) {
                                Some((lba, offset)) => Ok((lba, offset as usize)),
                                None => Err(Error::Corrupt),
                            },
                            Err::<(), _>(error),
                            plan,
                        );
                    }
                }
                return Err(error);
            },
        };
        let ghost middle = *self;
        let read = self.fetch(lba, scratch);
        if read.is_err() {
            proof {
                state::lemma_read_failed(middle, *self, read, Ok(()), read, plan);
            }
            return read;
        }
        let value: u8 = scratch.head(size)[offset];
        let was_used: bool = value & (1u8 << bit) != 0;
        if was_used == used {
            return Ok(());
        }
        if used && self.free_clusters == 0 || !used && self.free_clusters
            >= self.volume.geometry.cluster_count {
            return Err(Error::Corrupt);
        }
        let changed: u8 = if used {
            value | (1u8 << bit)
        } else {
            value & !(1u8 << bit)
        };
        bytes::put_u8(scratch.sector(size), offset, changed);
        assert(scratch@.take(size as int) =~= before.media()[lba].update(offset as int, changed));
        match self.put(lba, scratch) {
            Ok(()) => {},
            Err(error) => {
                proof {
                    assert(plan.writes.take(0) =~= Seq::empty());
                    assert(state::is_stopped_at(
                        plan.writes,
                        plan.counts,
                        before.media(),
                        before.free_clusters,
                        self.media(),
                        self.free_clusters,
                        0,
                    ));
                }
                return Err(error);
            },
        }
        self.free_clusters = if used {
            self.free_clusters - 1
        } else {
            self.free_clusters + 1
        };
        Ok(())
    }
}

impl<D: BlockDevice> FileSystem<D> {
    /// Total allocatable bytes in the mounted volume.
    pub fn capacity_bytes(&self) -> (capacity: u64)
        requires
            self.wf(),
        ensures
            capacity == self.volume.geometry.cluster_count * self.volume.geometry.cluster_bytes(),
    {
        proof {
            lemma_capacity(self.volume.geometry, self.volume.geometry.cluster_count);
        }
        self.volume.geometry.cluster_count as u64 * self.volume.geometry.bytes_per_cluster() as u64
    }

    /// Currently unallocated bytes, maintained as allocation metadata changes.
    ///
    /// The count is captured while mounting. Call [`Self::refresh_free_space`]
    /// after another host might have modified removable media directly.
    pub fn free_space_bytes(&self) -> (free: u64)
        requires
            self.wf(),
        ensures
            free == self.free_clusters * self.volume.geometry.cluster_bytes(),
    {
        proof {
            lemma_capacity(self.volume.geometry, self.free_clusters);
        }
        self.free_clusters as u64 * self.volume.geometry.bytes_per_cluster() as u64
    }

    /// Rescan the allocation bitmap and refresh the cached free-space count.
    pub fn refresh_free_space(&mut self, scratch: &mut Scratch<'_>) -> (result: Result<
        u64,
        Error<D::Error>,
    >)
        requires
            old(self).wf(),
            old(scratch)@.len() >= old(self).volume.geometry.bytes_per_sector,
        ensures
            final(self).wf(),
            final(scratch)@.len() == old(scratch)@.len(),
            refreshes(
                *old(self),
                *final(self),
                match result {
                    Ok(_) => Ok(()),
                    Err(error) => Err(error),
                },
            ),
            result matches Ok(free) ==> free == final(self).free_clusters
                * old(self).volume.geometry.cluster_bytes(),
    {
        match self.refresh_free_clusters(scratch) {
            Ok(()) => Ok(self.free_space_bytes()),
            Err(error) => Err(error),
        }
    }

    /// Count the free clusters in the allocation bitmap.
    pub fn refresh_free_clusters(&mut self, scratch: &mut Scratch<'_>) -> (result: Result<
        (),
        Error<D::Error>,
    >)
        requires
            old(self).wf(),
            old(scratch)@.len() >= old(self).volume.geometry.bytes_per_sector,
        ensures
            final(self).wf(),
            final(scratch)@.len() == old(scratch)@.len(),
            refreshes(*old(self), *final(self), result),
    {
        let g = self.volume.geometry;
        let bitmap = self.volume.bitmap;
        let size: usize = g.bytes_per_sector as usize;
        let total: u32 = g.cluster_count;
        let ghost before = *self;
        let ghost v = self.volume;
        let ghost media = self.media();
        let mut byte: u64 = 0;
        let mut counted: u32 = 0;
        let mut used: u32 = 0;
        while counted < total
            invariant
                counted <= total,
                total == g.cluster_count,
                size == g.bytes_per_sector,
                g == v.geometry,
                bitmap == v.bitmap,
                v == self.volume,
                self.wf(),
                before.wf(),
                before == *old(self),
                v == before.volume,
                media == before.media(),
                state::answers(before, *self, Ok::<(), Error<D::Error>>(()), Ok(())),
                scratch@.len() == old(scratch)@.len(),
                scratch@.len() >= size,
                counted < total ==> counted == 8 * byte,
                used_count(v, media, counted as nat) == Some(used as nat),
                used <= counted,
            decreases total - counted,
        {
            let located = self.bitmap_location(byte, scratch);
            let (lba, offset) = match located {
                Ok(location) => location,
                Err(error) => {
                    proof {
                        if !(error is Device) {
                            assert(bitmap_place(v, media, byte as int) is None);
                            assert(is_used(v, media, counted + 2) is None);
                            lemma_uncountable(v, media, (counted + 1) as nat, total as nat);
                        }
                    }
                    return Err(error);
                },
            };
            let read = self.fetch(lba, scratch);
            if read.is_err() {
                return read;
            }
            let in_sector: u64 = (size - offset) as u64;
            let in_bitmap: u64 = bitmap.byte_length - byte;
            let limit: u64 = if in_sector < in_bitmap {
                in_sector
            } else {
                in_bitmap
            };
            let sector = scratch.head(size);
            let mut i: u64 = 0;
            while i < limit && counted < total
                invariant
                    counted <= total,
                    total == g.cluster_count,
                    i <= limit,
                    limit <= size - offset,
                    limit <= bitmap.byte_length - byte,
                    offset < size,
                    size == g.bytes_per_sector,
                    g == v.geometry,
                    g.wf(),
                    bitmap == v.bitmap,
                    sector@.len() == size,
                    sector@ == media[lba],
                    offset == byte % size as u64,
                    bitmap_place(v, media, byte as int) == Some((lba, offset as int)),
                    counted < total ==> counted == 8 * (byte + i),
                    used_count(v, media, counted as nat) == Some(used as nat),
                    used <= counted,
                decreases limit - i,
            {
                let value: u8 = sector[offset + i as usize];
                proof {
                    lemma_bitmap_run(v, media, byte as int, i as int);
                }
                let ghost at = byte + i;
                let mut bit: u8 = 0;
                while bit < 8 && counted < total
                    invariant
                        bit <= 8,
                        counted <= total,
                        total == v.geometry.cluster_count,
                        counted < total ==> counted == 8 * at + bit,
                        at < v.bitmap.byte_length,
                        bitmap_place(v, media, at) == Some((lba, offset + i)),
                        media[lba][offset + i] == value,
                        used_count(v, media, counted as nat) == Some(used as nat),
                        used <= counted,
                    decreases 8 - bit,
                {
                    assert(is_used(v, media, counted + 2) == Some(bit_set(value, bit)));
                    if value & (1u8 << bit) != 0 {
                        used = used + 1;
                    }
                    counted = counted + 1;
                    bit = bit + 1;
                }
                i = i + 1;
            }
            byte = byte + limit;
        }
        self.free_clusters = total - used;
        Ok(())
    }
}

impl<D: BlockDevice> FileSystem<D> {
    /// Clear every sector of a cluster.
    pub fn zero_cluster(&mut self, cluster: u32, scratch: &mut Scratch<'_>) -> (result: Result<
        (),
        Error<D::Error>,
    >)
        requires
            old(self).wf(),
            old(self).volume.geometry.in_heap(cluster),
            old(scratch)@.len() >= old(self).volume.geometry.bytes_per_sector,
        ensures
            final(self).wf(),
            final(scratch)@.len() == old(scratch)@.len(),
            state::performs(
                *old(self),
                *final(self),
                result,
                zero_plan(old(self).volume.geometry, old(self).free_clusters, cluster),
            ),
    {
        let g = self.volume.geometry;
        let size: usize = g.bytes_per_sector as usize;
        proof {
            g.lemma_heap_bounds(cluster);
        }
        let first: u64 = g.partition.first_lba + g.cluster_heap_offset as u64 + (cluster - 2) as u64
            * g.sectors_per_cluster as u64;
        let ghost before = *self;
        let ghost free = self.free_clusters;
        let ghost plan = zero_plan::<D::Error>(g, free, cluster);
        let ghost mut done = Plan::<(), D::Error>::answer(free, Ok(()));
        proof {
            state::lemma_answer(before, before, Ok::<(), Error<D::Error>>(()), Ok(()));
            assert(plan =~= done.and(plan));
        }
        let mut sector: u32 = 0;
        while sector < g.sectors_per_cluster
            invariant
                sector <= g.sectors_per_cluster,
                g == self.volume.geometry,
                size == g.bytes_per_sector,
                self.wf(),
                before == *old(self),
                scratch@.len() == old(scratch)@.len(),
                scratch@.len() >= size,
                first == g.heap_lba(cluster as int),
                first + g.sectors_per_cluster <= u64::MAX,
                free == before.free_clusters,
                self.free_clusters == free,
                done.result == Ok::<(), Error<D::Error>>(()),
                state::performs(before, *self, Ok(()), done),
                plan == zero_plan::<D::Error>(before.volume.geometry, free, cluster),
                plan == done.and(zero_from_plan::<D::Error>(g, free, cluster, sector as int)),
            decreases g.sectors_per_cluster - sector,
        {
            bytes::fill(scratch.sector(size), 0, size, 0);
            assert(scratch@.take(size as int) =~= bytes::filled(size as nat, 0));
            let ghost middle = *self;
            let written = self.put(first + sector as u64, scratch);
            proof {
                let rest = zero_from_plan::<D::Error>(g, free, cluster, sector + 1);
                let step = Plan::<(), D::Error>::write(
                    free,
                    SectorWrite {
                        lba: (first + sector) as u64,
                        data: scratch@.take(size as int),
                    },
                    Ok(()),
                );
                state::lemma_step(before, middle, *self, done, Ok(()), step, written, rest);
                assert(step.and(rest) =~= zero_from_plan::<D::Error>(
                    g,
                    free,
                    cluster,
                    sector as int,
                ));
                done = done.and(step);
            }
            match written {
                Ok(()) => {},
                Err(error) => return Err(error),
            }
            sector = sector + 1;
        }
        assert(zero_writes(g, cluster, sector as int) =~= Seq::empty());
        assert(done =~= plan);
        Ok(())
    }

    /// Claim a cluster if it is free; answers whether it was.
    pub fn claim_free_cluster(&mut self, cluster: u32, scratch: &mut Scratch<'_>) -> (result:
        Result<bool, Error<D::Error>>)
        requires
            old(self).wf(),
            old(scratch)@.len() >= old(self).volume.geometry.bytes_per_sector,
        ensures
            final(self).wf(),
            final(scratch)@.len() == old(scratch)@.len(),
            state::performs(
                *old(self),
                *final(self),
                result,
                claim_plan(
                    old(self).volume,
                    old(self).media(),
                    old(self).free_clusters,
                    cluster,
                ),
            ),
    {
        let ghost before = *self;
        let ghost v = self.volume;
        let ghost media = self.media();
        let ghost free = self.free_clusters;
        let ghost plan = claim_plan::<D::Error>(v, media, free, cluster);
        let known = self.bitmap_used(cluster, scratch);
        let ghost start = *self;
        proof {
            let expected = error::or_corrupt::<bool, D::Error>(is_used(v, media, cluster as int));
            state::lemma_answer(before, start, known, expected);
            if known is Err && known->Err_0 is Device {
                state::lemma_read_failed(before, start, known, expected, known, plan);
            }
        }
        match known {
            Ok(true) => return Ok(false),
            Ok(false) => {},
            Err(error) => return Err(error),
        }
        if !self.volume.geometry.contains_cluster(cluster) {
            return Err(Error::Corrupt);
        }
        let ghost zero = zero_plan::<D::Error>(v.geometry, free, cluster);
        let ghost zeroed_media = zero.leaves(media);
        let ghost mark = set_bitmap_plan::<D::Error>(v, zeroed_media, free, cluster, true);
        let ghost end = set_fat_plan::<D::Error>(
            v,
            mark.leaves(zeroed_media),
            mark.free,
            cluster,
            0xffff_ffff,
        );
        let ghost reply = Plan::<bool, D::Error>::answer(end.free, Ok(true));
        proof {
            state::lemma_and_assoc(zero, mark.and(end), reply);
            state::lemma_and_assoc(mark, end, reply);
        }
        let zeroed = self.zero_cluster(cluster, scratch);
        let ghost s1 = *self;
        proof {
            state::lemma_first_step(start, s1, zero, zeroed, mark.and(end.and(reply)));
        }
        match zeroed {
            Ok(()) => {},
            Err(error) => return Err(error),
        }
        let marked = self.set_bitmap(cluster, true, scratch);
        let ghost s2 = *self;
        proof {
            state::lemma_step(start, s1, s2, zero, zeroed, mark, marked, end.and(reply));
        }
        match marked {
            Ok(()) => {},
            Err(error) => return Err(error),
        }
        let ended = self.set_fat(cluster, 0xffff_ffff, scratch);
        proof {
            state::lemma_step(start, s2, *self, zero.and(mark), marked, end, ended, reply);
        }
        match ended {
            Ok(()) => {},
            Err(error) => return Err(error),
        }
        assert(plan =~= zero.and(mark).and(end).and(reply));
        Ok(true)
    }
}

impl<D: BlockDevice> FileSystem<D> {
    /// Allocate a zeroed cluster.
    pub fn allocate_cluster(&mut self, scratch: &mut Scratch<'_>) -> (result: Result<
        u32,
        Error<D::Error>,
    >)
        requires
            old(self).wf(),
            old(scratch)@.len() >= old(self).volume.geometry.bytes_per_sector,
        ensures
            final(self).wf(),
            final(scratch)@.len() == old(scratch)@.len(),
            state::performs(
                *old(self),
                *final(self),
                result,
                allocate_plan(old(self).volume, old(self).media(), old(self).free_clusters, 2),
            ),
    {
        self.allocate_cluster_preferred(2, scratch)
    }

    /// Claim the first free cluster from `from` up to `to`.
    fn claim_first(&mut self, from: u32, to: u32, scratch: &mut Scratch<'_>) -> (result: Result<
        Option<u32>,
        Error<D::Error>,
    >)
        requires
            old(self).wf(),
            old(scratch)@.len() >= old(self).volume.geometry.bytes_per_sector,
            2 <= from <= to <= old(self).volume.geometry.cluster_count + 2,
        ensures
            final(self).wf(),
            final(scratch)@.len() == old(scratch)@.len(),
            state::performs(
                *old(self),
                *final(self),
                result,
                claim_first_plan(
                    old(self).volume,
                    old(self).media(),
                    old(self).free_clusters,
                    from as int,
                    to as int,
                ),
            ),
    {
        let ghost before = *self;
        let ghost v = self.volume;
        let ghost media = self.media();
        let ghost free = self.free_clusters;
        let ghost plan = claim_first_plan::<D::Error>(v, media, free, from as int, to as int);
        proof {
            state::lemma_answer(before, before, Ok::<(), Error<D::Error>>(()), Ok(()));
        }
        let mut cluster: u32 = from;
        while cluster < to
            invariant
                2 <= from <= cluster <= to <= v.geometry.cluster_count + 2,
                self.wf(),
                before.wf(),
                before == *old(self),
                v == before.volume,
                media == before.media(),
                free == before.free_clusters,
                scratch@.len() == old(scratch)@.len(),
                scratch@.len() >= v.geometry.bytes_per_sector,
                plan == claim_first_plan::<D::Error>(v, media, free, from as int, to as int),
                state::performs(
                    before,
                    *self,
                    Ok::<(), Error<D::Error>>(()),
                    Plan::answer(free, Ok(())),
                ),
                first_free(v, media, from as int, to as int) == first_free(
                    v,
                    media,
                    cluster as int,
                    to as int,
                ),
            decreases to - cluster,
        {
            let ghost middle = *self;
            let ghost idle = Plan::<(), D::Error>::answer(free, Ok(()));
            let claimed = self.claim_free_cluster(cluster, scratch);
            proof {
                let claim = claim_plan::<D::Error>(v, media, free, cluster);
                let found = Plan::<Option<u32>, D::Error>::answer(claim.free, Ok(Some(cluster)));
                state::lemma_step(before, middle, *self, idle, Ok(()), claim, claimed, found);
                assert(idle.and(claim) =~= claim);
                let take = take_plan::<D::Error>(v, media, free, cluster);
                state::lemma_and_assoc(take, Plan::<bool, D::Error>::answer(take.free, Ok(true)), found);
                assert(Plan::<bool, D::Error>::answer(take.free, Ok(true)).and(found) =~= found);
                if is_used(v, media, cluster as int) == Some(false) {
                    assert(claim.and(found) =~= plan);
                    if claimed is Ok {
                        assert(claim.result is Ok && take.result is Ok);
                        assert(take.and(found).writes =~= take.writes);
                    }
                }
                assert(idle.and(claim.and(found)) =~= claim.and(found));
                if is_used(v, media, cluster as int) == Some(true) {
                    state::lemma_first_step(before, *self, claim, claimed, plan);
                    assert(claim.and(plan) =~= plan);
                }
            }
            match claimed {
                Ok(true) => return Ok(Some(cluster)),
                Ok(false) => {},
                Err(error) => return Err(error),
            }
            cluster = cluster + 1;
        }
        Ok(None)
    }

    /// Allocate a zeroed cluster, trying `preferred` first and then wrapping
    /// through the allocation bitmap. Appenders pass their previous tail + 1,
    /// preserving contiguous extents whenever removable media permits it
    /// without requiring an allocation cache or heap storage.
    pub fn allocate_cluster_preferred(&mut self, preferred: u32, scratch: &mut Scratch<'_>) -> (
    result: Result<u32, Error<D::Error>>)
        requires
            old(self).wf(),
            old(scratch)@.len() >= old(self).volume.geometry.bytes_per_sector,
        ensures
            final(self).wf(),
            final(scratch)@.len() == old(scratch)@.len(),
            state::performs(
                *old(self),
                *final(self),
                result,
                allocate_plan(
                    old(self).volume,
                    old(self).media(),
                    old(self).free_clusters,
                    preferred,
                ),
            ),
    {
        let g = self.volume.geometry;
        let ghost before = *self;
        let ghost v = self.volume;
        let ghost media = self.media();
        let ghost free = self.free_clusters;
        let ghost plan = allocate_plan::<D::Error>(v, media, free, preferred);
        proof {
            state::lemma_answer(
                before,
                before,
                Err::<u32, Error<D::Error>>(Error::Corrupt),
                Err(Error::Corrupt),
            );
        }
        let end: u32 = match g.cluster_count.checked_add(2) {
            Some(end) => end,
            None => return Err(Error::Corrupt),
        };
        let first: u32 = if 2 <= preferred && preferred < end {
            preferred
        } else {
            2
        };
        let ahead = self.claim_first(first, end, scratch);
        proof {
            let search = claim_first_plan::<D::Error>(v, media, free, first as int, end as int);
            if first_free(v, media, first as int, end as int) == Some(None::<u32>) {
                state::lemma_first_step(before, *self, search, ahead, plan);
                assert(search.and(plan) =~= plan);
            }
        }
        match ahead {
            Ok(Some(cluster)) => return Ok(cluster),
            Ok(None) => {},
            Err(error) => return Err(error),
        }
        let ghost middle = *self;
        let behind = self.claim_first(2, first, scratch);
        proof {
            let idle = claim_first_plan::<D::Error>(v, media, free, first as int, end as int);
            let rest = claim_first_plan::<D::Error>(v, media, free, 2, first as int);
            state::lemma_and_succeeds(before, middle, *self, ahead, idle, behind, rest);
            assert(idle.and(rest) =~= rest);
        }
        match behind {
            Ok(Some(cluster)) => Ok(cluster),
            Ok(None) => Err(Error::NoSpace),
            Err(error) => Err(error),
        }
    }
}

/// What a sector holds once `cluster` has been cleared.
pub proof fn lemma_zeroed(g: Geometry, media: Media, cluster: u32, lba: u64)
    requires
        g.wf(),
        g.in_heap(cluster),
    ensures
        device::applied(media, zero_writes(g, cluster, 0))[lba] == if g.heap_lba(cluster as int)
            <= lba < g.heap_lba(cluster as int) + g.sectors_per_cluster {
            bytes::filled(g.bytes_per_sector as nat, 0)
        } else {
            media[lba]
        },
{
    let writes = zero_writes(g, cluster, 0);
    let base = g.heap_lba(cluster as int);
    g.lemma_heap_bounds(cluster);
    if base <= lba < base + g.sectors_per_cluster {
        device::lemma_applied_last(media, writes, lba - base);
    } else {
        device::lemma_applied_untouched(media, writes, lba);
    }
}

/// Clearing a cluster can cut a chain, but not redirect it.
proof fn lemma_zeroed_chain(g: Geometry, media: Media, cluster: u32, first: u32, i: nat)
    requires
        g.wf(),
        g.in_heap(cluster),
    ensures
        ({
            let zeroed = device::applied(media, zero_writes(g, cluster, 0));
            chain_at(g, zeroed, first, i) is None || chain_at(g, zeroed, first, i) == chain_at(
                g,
                media,
                first,
                i,
            )
        }),
    decreases i,
{
    let zeroed = device::applied(media, zero_writes(g, cluster, 0));
    if i > 0 {
        let k = (i - 1) as nat;
        lemma_zeroed_chain(g, media, cluster, first, k);
        if let Some(here) = chain_at(g, zeroed, first, k) {
            lemma_zeroed(g, media, cluster, g.fat_lba(here));
            g.lemma_fat_byte(here);
        }
    }
}

/// A bit that is clear stays clear when its byte is cleared.
proof fn lemma_zero_bits(bit: u8)
    ensures
        !bit_set(0, bit),
{
    assert(0u8 & (1u8 << bit) == 0) by (bit_vector);
}

/// A cluster that was allocated is no longer counted as free.
pub proof fn lemma_allocate_counts<E>(v: Volume, media: Media, free: u32, preferred: u32)
    requires
        v.geometry.wf(),
    ensures
        allocate_plan::<E>(v, media, free, preferred).result matches Ok(cluster) ==> {
            &&& v.geometry.in_heap(cluster)
            &&& free > 0
            &&& allocate_plan::<E>(v, media, free, preferred).free == free - 1
        },
{
    let g = v.geometry;
    let plan = allocate_plan::<E>(v, media, free, preferred);
    if let Ok(cluster) = plan.result {
        let start = search_start(g, preferred) as int;
        lemma_first_free(v, media, start, g.cluster_count + 2);
        lemma_first_free(v, media, 2, start);
        let zeroed = zero_plan::<E>(g, free, cluster).leaves(media);
        let (lba, offset, bit) = bitmap_slot(v, media, cluster as int)->0;
        let byte = (cluster - 2) / 8;
        lemma_zeroed_chain(
            g,
            media,
            cluster,
            v.bitmap.first_cluster,
            (byte / g.cluster_bytes()) as nat,
        );
        lemma_zeroed(g, media, cluster, lba);
        lemma_zero_bits(bit);
        let mark = set_bitmap_plan::<E>(v, zeroed, free, cluster, true);
        assert(mark.result is Ok);
        arith::lemma_stream_offset(byte, g.bytes_per_sector as int, g.sectors_per_cluster as int);
    }
}

/// What a search for a free cluster finds is one, within its bounds.
pub proof fn lemma_first_free(v: Volume, media: Media, from: int, to: int)
    requires
        0 <= from,
        to <= u32::MAX,
    ensures
        first_free(v, media, from, to) matches Some(Some(cluster)) ==> from <= cluster < to
            && is_used(v, media, cluster as int) == Some(false),
    decreases to - from,
{
    if from < to {
        lemma_first_free(v, media, from + 1, to);
    }
}

/// The bytes of any number of clusters fit in 64 bits.
proof fn lemma_capacity(g: Geometry, clusters: u32)
    requires
        g.wf(),
    ensures
        0 <= clusters * g.cluster_bytes() <= u64::MAX,
{
    let bytes = g.cluster_bytes();
    assert(0 <= bytes) by (nonlinear_arith)
        requires
            bytes == g.bytes_per_sector * g.sectors_per_cluster,
    ;
    assert(0 <= clusters * bytes <= 0xffff_ffff * 0x200_0000) by (nonlinear_arith)
        requires
            0 <= clusters <= 0xffff_ffff,
            0 <= bytes <= 0x200_0000,
    ;
}

/// A chain that has ended stays ended.
pub proof fn lemma_chain_ends(g: Geometry, media: Media, first: u32, k: nat, n: nat)
    requires
        k <= n,
        chain_at(g, media, first, k) is None,
    ensures
        chain_at(g, media, first, n) is None,
    decreases n,
{
    if k < n {
        lemma_chain_ends(g, media, first, k, (n - 1) as nat);
    }
}

} // verus!
