//! Writing a fresh volume to a device.

use crate::bytes;
use crate::device;
use crate::device::{BlockDevice, Scratch, SectorWrite};
use crate::error::Error;
use crate::format::layout;
use crate::format::layout::{VolumeLayout, END_OF_CHAIN, FAT_OFFSET, UPCASE_BYTES};
use crate::mount::boot;
use vstd::prelude::*;

verus! {

/// One more run of writes, after `done`, of the writes `all`.
proof fn lemma_wrote<D: BlockDevice>(
    before: D,
    middle: D,
    after: D,
    done: Seq<SectorWrite>,
    step: Seq<SectorWrite>,
    result: Result<(), Error<D::Error>>,
    all: Seq<SectorWrite>,
)
    requires
        device::performs(before, middle, Ok::<(), Error<D::Error>>(()), done, Ok(())),
        device::performs(middle, after, result, step, Ok(())),
        (done + step).is_prefix_of(all),
    ensures
        result is Ok ==> device::performs(
            before,
            after,
            Ok::<(), Error<D::Error>>(()),
            done + step,
            Ok(()),
        ),
        result is Err ==> device::performs(before, after, result, all, Ok(())),
{
    device::lemma_applied_concat(before.media(), done, step);
    if result is Err {
        device::lemma_stop_within(before.media(), done, step, after.media(), all);
    }
}

/// No writes at all.
proof fn lemma_wrote_nothing<D: BlockDevice>(device: D)
    ensures
        device::performs(device, device, Ok::<(), Error<D::Error>>(()), Seq::empty(), Ok(())),
{
    assert(device::applied(device.media(), Seq::empty()) == device.media());
}

/// Sectors of a cluster on a partition with this many sectors.
fn cluster_sectors(sectors: u64) -> (per_cluster: u32)
    ensures
        per_cluster == layout::cluster_sectors_for(sectors),
{
    if sectors >= 1_048_576 {
        64
    } else if sectors >= 131_072 {
        16
    } else {
        1
    }
}

/// Seek the layout whose FAT has just the size that its heap needs.
fn find_layout(sectors: u64, per_cluster: u32) -> (found: Option<VolumeLayout>)
    requires
        536 <= sectors <= u32::MAX,
        per_cluster == layout::cluster_sectors_for(sectors),
    ensures
        found == layout::layout_from(sectors, per_cluster, 1, 8),
{
    let mut fat: u32 = 1;
    let mut tries: u32 = 8;
    while tries > 0
        invariant
            tries <= 8,
            fat <= 0x400_0000,
            536 <= sectors <= u32::MAX,
            per_cluster == layout::cluster_sectors_for(sectors),
            layout::layout_from(sectors, per_cluster, 1, 8) == layout::layout_from(
                sectors,
                per_cluster,
                fat as int,
                tries as nat,
            ),
        decreases tries,
    {
        let heap: u32 = FAT_OFFSET + fat;
        if heap as u64 > sectors {
            return None;
        }
        proof {
            layout::lemma_heap_clusters(sectors, per_cluster, fat as int);
        }
        let clusters: u32 = ((sectors - heap as u64) / per_cluster as u64) as u32;
        let needed: u32 = (((clusters as u64 + 2) * 4 + 511) / 512) as u32;
        if needed == fat {
            return Some(VolumeLayout { sectors, per_cluster, fat, heap, clusters });
        }
        fat = needed;
        tries = tries - 1;
    }
    None
}

/// Encode the MBR.
fn encode_mbr(out: &mut [u8], l: &VolumeLayout)
    requires
        old(out).len() == 512,
        l.sectors <= u32::MAX,
    ensures
        final(out)@ == layout::mbr_image(*l),
{
    bytes::fill(out, 0, 512, 0);
    assert(out@ =~= bytes::filled(512, 0));
    bytes::put_u8(out, 450, 7);
    bytes::put_u32(out, 454, 1);
    bytes::put_u32(out, 458, l.sectors as u32);
    out[510] = 0x55;
    out[511] = 0xaa;
    assert(out@ =~= layout::mbr_image(*l));
}

/// Encode the first sector of the boot region.
fn encode_boot(out: &mut [u8], l: &VolumeLayout)
    requires
        old(out).len() == 512,
        l.per_cluster == layout::cluster_sectors_for(l.sectors),
    ensures
        final(out)@ == layout::boot_image(*l, 0),
{
    bytes::fill(out, 0, 512, 0);
    out[0] = 0xeb;
    out[1] = 0x76;
    out[2] = 0x90;
    out[3] = 0x45;
    out[4] = 0x58;
    out[5] = 0x46;
    out[6] = 0x41;
    out[7] = 0x54;
    out[8] = 0x20;
    out[9] = 0x20;
    out[10] = 0x20;
    bytes::put_u64(out, 64, 1);
    bytes::put_u64(out, 72, l.sectors);
    bytes::put_u32(out, 80, FAT_OFFSET);
    bytes::put_u32(out, 84, l.fat);
    bytes::put_u32(out, 88, l.heap);
    bytes::put_u32(out, 92, l.clusters);
    bytes::put_u32(out, 96, 2);
    bytes::put_u32(out, 100, 0x5445_5359);
    bytes::put_u16(out, 104, 0x0100);
    out[108] = 9;
    out[109] = if l.per_cluster == 64 {
        6
    } else if l.per_cluster == 16 {
        4
    } else {
        0
    };
    out[110] = 1;
    out[111] = 0x80;
    // Unused boot code bytes are initialized to F4 rather than left as zero:
    // some desktop implementations validate this.
    bytes::fill(out, 120, 510, 0xf4);
    out[510] = 0x55;
    out[511] = 0xaa;
    assert(out@ =~= layout::boot_image(*l, 0));
}

/// Encode sector number `k` of the boot region.
fn encode_boot_sector(out: &mut [u8], l: &VolumeLayout, k: u64)
    requires
        old(out).len() == 512,
        l.per_cluster == layout::cluster_sectors_for(l.sectors),
        k < 11,
    ensures
        final(out)@ == layout::boot_image(*l, k as int),
{
    if k == 0 {
        encode_boot(out, l);
    } else {
        bytes::fill(out, 0, 512, 0);
        if k <= 8 {
            // Extended boot sectors carry a 32-bit little-endian signature
            // (AA550000h), not a normal MBR signature.
            out[510] = 0x55;
            out[511] = 0xaa;
        }
        // The OEM parameters and the reserved sector remain entirely zero;
        // anything else is rejected by stricter host implementations.
        assert(out@ =~= layout::boot_image(*l, k as int));
    }
}

/// Two adjacent runs are one.
proof fn lemma_run_join(l: VolumeLayout, lba: int, a: int, b: int)
    requires
        0 <= a,
        0 <= b,
    ensures
        layout::image_run(l, lba, a) + layout::image_run(l, lba + a, b) == layout::image_run(
            l,
            lba,
            a + b,
        ),
{
    assert(layout::image_run(l, lba, a) + layout::image_run(l, lba + a, b) =~= layout::image_run(
        l,
        lba,
        a + b,
    ));
}

/// The start of a run starts it.
proof fn lemma_run_prefix(l: VolumeLayout, lba: int, a: int, b: int)
    requires
        0 <= a <= b,
    ensures
        layout::image_run(l, lba, a).is_prefix_of(layout::image_run(l, lba, b)),
{
}

/// A single write is a run of one.
proof fn lemma_run_one(l: VolumeLayout, lba: int)
    ensures
        layout::image_run(l, lba, 1) == seq![
            SectorWrite { lba: lba as u64, data: layout::image(l, lba) },
        ],
{
    assert(layout::image_run(l, lba, 1) =~= seq![
        SectorWrite { lba: lba as u64, data: layout::image(l, lba) },
    ]);
}

/// Write the partition table.
fn write_mbr<D: BlockDevice>(device: &mut D, scratch: &mut Scratch<'_>, l: &VolumeLayout) -> (result:
    Result<(), Error<D::Error>>)
    requires
        old(device).sector_bytes() == 512,
        old(scratch)@.len() >= 512,
        layout::is_layout(*l),
    ensures
        final(scratch)@.len() == old(scratch)@.len(),
        device::performs(
            *old(device),
            *final(device),
            result,
            layout::image_run(*l, 0, 1),
            Ok(()),
        ),
{
    encode_mbr(scratch.sector(512), l);
    assert(scratch@.take(512) =~= layout::image(*l, 0));
    proof {
        lemma_run_one(*l, 0);
    }
    device::store(device, 0, scratch, 512)
}

/// Write a boot region and its checksum sector.
fn write_boot_region<D: BlockDevice>(
    device: &mut D,
    scratch: &mut Scratch<'_>,
    l: &VolumeLayout,
    start: u64,
) -> (result: Result<(), Error<D::Error>>)
    requires
        old(device).sector_bytes() == 512,
        old(scratch)@.len() >= 512,
        layout::is_layout(*l),
        start == 1 || start == 13,
    ensures
        final(scratch)@.len() == old(scratch)@.len(),
        device::performs(
            *old(device),
            *final(device),
            result,
            layout::image_run(*l, start as int, 12),
            Ok(()),
        ),
{
    let ghost all = layout::image_run(*l, start as int, 12);
    let mut checksum: u32 = 0;
    let mut k: u64 = 0;
    proof {
        lemma_wrote_nothing(*device);
        assert(layout::image_run(*l, start as int, 0) =~= Seq::empty());
    }
    while k < 11
        invariant
            k <= 11,
            device.sector_bytes() == 512,
            scratch@.len() == old(scratch)@.len(),
            scratch@.len() >= 512,
            layout::is_layout(*l),
            start == 1 || start == 13,
            all == layout::image_run(*l, start as int, 12),
            checksum == layout::boot_image_sum(*l, k as nat),
            device::performs(
                *old(device),
                *device,
                Ok::<(), Error<D::Error>>(()),
                layout::image_run(*l, start as int, k as int),
                Ok(()),
            ),
        decreases 11 - k,
    {
        encode_boot_sector(scratch.sector(512), l, k);
        assert(scratch@.take(512) =~= layout::image(*l, start + k));
        checksum = boot::roll_boot_sector(checksum, scratch.head(512), k);
        let ghost middle = *device;
        let stored = device::store(device, start + k, scratch, 512);
        proof {
            lemma_run_one(*l, start + k);
            lemma_run_join(*l, start as int, k as int, 1);
            lemma_run_prefix(*l, start as int, k + 1, 12);
            lemma_wrote(
                *old(device),
                middle,
                *device,
                layout::image_run(*l, start as int, k as int),
                layout::image_run(*l, start + k, 1),
                stored,
                all,
            );
        }
        match stored {
            Ok(()) => {},
            Err(error) => return Err(error),
        }
        k = k + 1;
    }
    let mut word: usize = 0;
    while word < 128
        invariant
            word <= 128,
            scratch@.len() == old(scratch)@.len(),
            scratch@.len() >= 512,
            forall|i: int|
                0 <= i < 4 * word ==> #[trigger] scratch@[i] == bytes::le32(checksum)[i % 4],
        decreases 128 - word,
    {
        let ghost before = scratch@;
        bytes::put_u32(scratch.sector(512), 4 * word, checksum);
        assert forall|i: int| 0 <= i < 4 * (word + 1) implies #[trigger] scratch@[i]
            == bytes::le32(checksum)[i % 4] by {
            if i < 4 * word {
                assert(scratch@[i] == before[i]);
            } else {
                assert(i % 4 == i - 4 * word);
            }
        }
        word = word + 1;
    }
    assert(scratch@.take(512) =~= layout::image(*l, start + 11));
    let ghost middle = *device;
    let stored = device::store(device, start + 11, scratch, 512);
    proof {
        lemma_run_one(*l, start + 11);
        lemma_run_join(*l, start as int, 11, 1);
        lemma_wrote(
            *old(device),
            middle,
            *device,
            layout::image_run(*l, start as int, 11),
            layout::image_run(*l, start + 11, 1),
            stored,
            all,
        );
    }
    stored
}

/// Write `count` sectors from the start of the scratch storage to `lba`.
fn write_batch<D: BlockDevice>(
    device: &mut D,
    scratch: &Scratch<'_>,
    lba: u64,
    count: usize,
    Ghost(l): Ghost<VolumeLayout>,
) -> (result: Result<(), Error<D::Error>>)
    requires
        old(device).sector_bytes() == 512,
        512 * count <= scratch@.len(),
        lba + count <= u64::MAX,
        forall|i: int|
            0 <= i < count ==> #[trigger] layout::image(l, lba + i) == scratch@.subrange(
                512 * i,
                512 * i + 512,
            ),
    ensures
        device::performs(
            *old(device),
            *final(device),
            result,
            layout::image_run(l, lba as int, count as int),
            Ok(()),
        ),
{
    let capacity: usize = scratch.len();
    assert(512 * count <= capacity);
    let data = scratch.head(512 * count);
    proof {
        let run = layout::image_run(l, lba as int, count as int);
        assert(data@.len() / 512 == count);
        assert(device::sector_run(lba, data@, 512) =~= run) by {
            assert forall|i: int| 0 <= i < count implies device::sector_run(lba, data@, 512)[i]
                == run[i] by {
                assert(data@.subrange(i * 512, (i + 1) * 512) =~= scratch@.subrange(
                    512 * i,
                    512 * i + 512,
                ));
            }
        }
    }
    match device.write_sectors(lba, data) {
        Ok(()) => Ok(()),
        Err(error) => Err(Error::Device(error)),
    }
}

/// Sizes and places that follow from a layout.
struct Places {
    bitmap_bytes: u64,
    upcase_cluster: u32,
    upcase_end: u32,
    reserved: u32,
    root_lba: u64,
    bitmap_lba: u64,
    upcase_lba: u64,
}

impl Places {
    spec fn is_of(self, l: VolumeLayout) -> bool {
        &&& self.bitmap_bytes == l.bitmap_bytes()
        &&& self.upcase_cluster == l.upcase_cluster()
        &&& self.upcase_end == l.upcase_cluster() + l.upcase_clusters()
        &&& self.reserved == l.reserved()
        &&& self.root_lba == l.lba(2)
        &&& self.bitmap_lba == l.lba(3)
        &&& self.upcase_lba == l.lba(l.upcase_cluster())
    }
}

/// Work out where the parts of a volume lie.
fn places_of(l: &VolumeLayout) -> (places: Places)
    requires
        layout::is_layout(*l),
    ensures
        places.is_of(*l),
{
    proof {
        layout::lemma_sizes(*l);
    }
    let cluster_bytes: u64 = 512 * l.per_cluster as u64;
    let bitmap_bytes: u64 = (l.clusters as u64 + 7) / 8;
    let bitmap_clusters: u32 = ((bitmap_bytes + (cluster_bytes - 1)) / cluster_bytes) as u32;
    let upcase_clusters: u32 = ((UPCASE_BYTES + (cluster_bytes - 1)) / cluster_bytes) as u32;
    let upcase_cluster: u32 = 3 + bitmap_clusters;
    let root_lba: u64 = 1 + l.heap as u64;
    proof {
        assert((l.upcase_cluster() - 2) * l.per_cluster == (bitmap_clusters + 1) * l.per_cluster);
        assert(0 <= (bitmap_clusters + 1) * l.per_cluster <= 0x101 * 64) by (nonlinear_arith)
            requires
                0 <= bitmap_clusters <= 0x100,
                0 <= l.per_cluster <= 64,
        ;
        assert((3 - 2) * l.per_cluster == l.per_cluster);
        assert((2 - 2) * l.per_cluster == 0);
    }
    Places {
        bitmap_bytes,
        upcase_cluster,
        upcase_end: upcase_cluster + upcase_clusters,
        reserved: 1 + bitmap_clusters + upcase_clusters,
        root_lba,
        bitmap_lba: root_lba + l.per_cluster as u64,
        upcase_lba: root_lba + (bitmap_clusters as u64 + 1) * l.per_cluster as u64,
    }
}

/// The FAT value of a cluster on the fresh volume.
fn fat_value(cluster: u32, places: &Places, Ghost(l): Ghost<VolumeLayout>) -> (value: u32)
    requires
        layout::is_layout(l),
        places.is_of(l),
    ensures
        value == l.fat_value(cluster as int),
{
    proof {
        layout::lemma_sizes(l);
    }
    if cluster == 0 {
        0xffff_fff8
    } else if cluster == 1 || cluster == 2 {
        END_OF_CHAIN
    } else if cluster < places.upcase_end {
        if cluster + 1 == places.upcase_cluster || cluster + 1 == places.upcase_end {
            END_OF_CHAIN
        } else {
            cluster + 1
        }
    } else {
        0
    }
}

/// Encode sector number `k` of the FAT at byte `at` of the scratch storage.
fn encode_fat(
    scratch: &mut Scratch<'_>,
    at: usize,
    k: u32,
    places: &Places,
    Ghost(l): Ghost<VolumeLayout>,
)
    requires
        layout::is_layout(l),
        places.is_of(l),
        at + 512 <= old(scratch)@.len(),
        k < l.fat,
    ensures
        final(scratch)@.len() == old(scratch)@.len(),
        final(scratch)@.subrange(at as int, at + 512) == layout::fat_image(l, k as int),
        forall|i: int|
            0 <= i < old(scratch)@.len() && !(at <= i < at + 512)
                ==> #[trigger] final(scratch)@[i] == old(scratch)@[i],
{
    proof {
        layout::lemma_sizes(l);
    }
    let mut index: u32 = 0;
    while index < 128
        invariant
            index <= 128,
            layout::is_layout(l),
            places.is_of(l),
            k < l.fat,
            l.fat <= 0x8_0001,
            at + 512 <= scratch@.len(),
            scratch@.len() == old(scratch)@.len(),
            forall|i: int|
                0 <= i < scratch@.len() && !(at <= i < at + 512)
                    ==> #[trigger] scratch@[i] == old(scratch)@[i],
            forall|i: int|
                at <= i < at + 4 * index ==> #[trigger] scratch@[i] == layout::fat_image(
                    l,
                    k as int,
                )[i - at],
        decreases 128 - index,
    {
        let value: u32 = fat_value(128 * k + index, places, Ghost(l));
        let ghost before = scratch@;
        let len: usize = scratch.len();
        assert(at + 512 <= len);
        let from: usize = at + 4 * index as usize;
        bytes::put_u32(scratch.bytes, from, value);
        assert(scratch@ =~= bytes::splice(before, from as int, bytes::le32(value)));
        assert forall|i: int| at <= i < at + 4 * (index + 1) implies #[trigger] scratch@[i]
            == layout::fat_image(l, k as int)[i - at] by {
            if i >= from {
                assert((i - at) / 4 == index && (i - at) % 4 == i - from);
            }
        }
        index = index + 1;
    }
    assert(scratch@.subrange(at as int, at + 512) =~= layout::fat_image(l, k as int));
}

/// Write the FAT.
fn write_fat<D: BlockDevice>(
    device: &mut D,
    scratch: &mut Scratch<'_>,
    l: &VolumeLayout,
    places: &Places,
) -> (result: Result<(), Error<D::Error>>)
    requires
        old(device).sector_bytes() == 512,
        old(scratch)@.len() >= 512,
        layout::is_layout(*l),
        places.is_of(*l),
    ensures
        final(scratch)@.len() == old(scratch)@.len(),
        device::performs(
            *old(device),
            *final(device),
            result,
            layout::image_run(*l, 25, l.fat as int),
            Ok(()),
        ),
{
    let ghost all = layout::image_run(*l, 25, l.fat as int);
    proof {
        layout::lemma_sizes(*l);
        lemma_wrote_nothing(*device);
        assert(layout::image_run(*l, 25, 0) =~= Seq::empty());
    }
    let capacity: usize = scratch.len() / 512;
    let mut first: u32 = 0;
    while first < l.fat
        invariant
            first <= l.fat <= 0x8_0001,
            device.sector_bytes() == 512,
            scratch@.len() == old(scratch)@.len(),
            capacity == scratch@.len() / 512,
            1 <= capacity,
            layout::is_layout(*l),
            places.is_of(*l),
            all == layout::image_run(*l, 25, l.fat as int),
            device::performs(
                *old(device),
                *device,
                Ok::<(), Error<D::Error>>(()),
                layout::image_run(*l, 25, first as int),
                Ok(()),
            ),
        decreases l.fat - first,
    {
        let left: u32 = l.fat - first;
        let count: usize = if (left as usize) < capacity {
            left as usize
        } else {
            capacity
        };
        let mut k: usize = 0;
        while k < count
            invariant
                k <= count <= capacity,
                count <= l.fat - first,
                first <= l.fat <= 0x8_0001,
                scratch@.len() == old(scratch)@.len(),
                capacity == scratch@.len() / 512,
                layout::is_layout(*l),
                places.is_of(*l),
                forall|i: int|
                    0 <= i < k ==> #[trigger] layout::image(*l, 25 + first + i)
                        == scratch@.subrange(512 * i, 512 * i + 512),
            decreases count - k,
        {
            let ghost before = scratch@;
            let len: usize = scratch.len();
            assert(512 * k + 512 <= len);
            encode_fat(scratch, 512 * k, first + k as u32, places, Ghost(*l));
            assert forall|i: int| 0 <= i < k + 1 implies #[trigger] layout::image(
                *l,
                25 + first + i,
            ) == scratch@.subrange(512 * i, 512 * i + 512) by {
                if i < k {
                    assert(scratch@.subrange(512 * i, 512 * i + 512) =~= before.subrange(
                        512 * i,
                        512 * i + 512,
                    ));
                }
            }
            k = k + 1;
        }
        let ghost middle = *device;
        let stored = write_batch(device, scratch, 25 + first as u64, count, Ghost(*l));
        proof {
            lemma_run_join(*l, 25, first as int, count as int);
            lemma_run_prefix(*l, 25, first + count, l.fat as int);
            lemma_wrote(
                *old(device),
                middle,
                *device,
                layout::image_run(*l, 25, first as int),
                layout::image_run(*l, 25 + first, count as int),
                stored,
                all,
            );
        }
        match stored {
            Ok(()) => {},
            Err(error) => return Err(error),
        }
        first = first + count as u32;
    }
    Ok(())
}

/// Encode sector number `k` of the allocation bitmap at byte `at` of the
/// scratch storage.
fn encode_bitmap(
    scratch: &mut Scratch<'_>,
    at: usize,
    k: u32,
    places: &Places,
    Ghost(l): Ghost<VolumeLayout>,
)
    requires
        layout::is_layout(l),
        places.is_of(l),
        at + 512 <= old(scratch)@.len(),
        k <= 0x4000,
    ensures
        final(scratch)@.len() == old(scratch)@.len(),
        final(scratch)@.subrange(at as int, at + 512) == layout::bitmap_image(l, k as int),
        forall|i: int|
            0 <= i < old(scratch)@.len() && !(at <= i < at + 512)
                ==> #[trigger] final(scratch)@[i] == old(scratch)@[i],
{
    proof {
        layout::lemma_sizes(l);
    }
    let len: usize = scratch.len();
    let mut i: usize = 0;
    while i < 512
        invariant
            i <= 512,
            places.is_of(l),
            k <= 0x4000,
            l.reserved() <= 0x201,
            at + 512 <= scratch@.len(),
            scratch@.len() == old(scratch)@.len(),
            scratch@.len() == len,
            forall|j: int|
                0 <= j < scratch@.len() && !(at <= j < at + 512)
                    ==> #[trigger] scratch@[j] == old(scratch)@[j],
            forall|j: int|
                at <= j < at + i ==> #[trigger] scratch@[j] == layout::bitmap_image(
                    l,
                    k as int,
                )[j - at],
        decreases 512 - i,
    {
        let bit: u32 = 8 * (512 * k + i as u32);
        let value: u8 = if places.reserved <= bit {
            0
        } else if places.reserved - bit >= 8 {
            0xff
        } else {
            let n: u8 = (places.reserved - bit) as u8;
            proof {
                assert(n < 8 ==> (1u8 << n) >= 1) by (bit_vector);
            }
            (1u8 << n) - 1
        };
        scratch.bytes[at + i] = value;
        i = i + 1;
    }
    assert(scratch@.subrange(at as int, at + 512) =~= layout::bitmap_image(l, k as int));
}

/// Write the allocation bitmap.
fn write_bitmap<D: BlockDevice>(
    device: &mut D,
    scratch: &mut Scratch<'_>,
    l: &VolumeLayout,
    places: &Places,
) -> (result: Result<(), Error<D::Error>>)
    requires
        old(device).sector_bytes() == 512,
        old(scratch)@.len() >= 512,
        layout::is_layout(*l),
        places.is_of(*l),
    ensures
        final(scratch)@.len() == old(scratch)@.len(),
        device::performs(
            *old(device),
            *final(device),
            result,
            layout::image_run(*l, l.lba(3), layout::parts(l.bitmap_bytes(), 512)),
            Ok(()),
        ),
{
    proof {
        layout::lemma_sizes(*l);
        layout::lemma_places(*l);
        lemma_wrote_nothing(*device);
        assert(layout::image_run(*l, l.lba(3), 0) =~= Seq::empty());
    }
    let total: u32 = ((places.bitmap_bytes + 511) / 512) as u32;
    let ghost start = l.lba(3);
    let ghost all = layout::image_run(*l, start, total as int);
    let capacity: usize = scratch.len() / 512;
    let mut first: u32 = 0;
    while first < total
        invariant
            first <= total <= 0x4000,
            total == layout::parts(l.bitmap_bytes(), 512),
            start == l.lba(3),
            start == places.bitmap_lba,
            start + total <= l.lba(l.upcase_cluster()) <= 0x1_0000_0000,
            l.lba(2) == 25 + l.fat,
            start == l.lba(2) + l.per_cluster,
            1 <= l.per_cluster,
            device.sector_bytes() == 512,
            scratch@.len() == old(scratch)@.len(),
            capacity == scratch@.len() / 512,
            1 <= capacity,
            layout::is_layout(*l),
            places.is_of(*l),
            all == layout::image_run(*l, start, total as int),
            device::performs(
                *old(device),
                *device,
                Ok::<(), Error<D::Error>>(()),
                layout::image_run(*l, start, first as int),
                Ok(()),
            ),
        decreases total - first,
    {
        let left: u32 = total - first;
        let count: usize = if (left as usize) < capacity {
            left as usize
        } else {
            capacity
        };
        let mut k: usize = 0;
        while k < count
            invariant
                k <= count <= capacity,
                count <= total - first,
                first <= total <= 0x4000,
                start == l.lba(3),
                start + total <= l.lba(l.upcase_cluster()),
                l.lba(2) == 25 + l.fat,
                start == l.lba(2) + l.per_cluster,
                1 <= l.per_cluster,
                scratch@.len() == old(scratch)@.len(),
                capacity == scratch@.len() / 512,
                layout::is_layout(*l),
                places.is_of(*l),
                forall|i: int|
                    0 <= i < k ==> #[trigger] layout::image(*l, start + first + i)
                        == scratch@.subrange(512 * i, 512 * i + 512),
            decreases count - k,
        {
            let ghost before = scratch@;
            let len: usize = scratch.len();
            assert(512 * k + 512 <= len);
            encode_bitmap(scratch, 512 * k, first + k as u32, places, Ghost(*l));
            assert forall|i: int| 0 <= i < k + 1 implies #[trigger] layout::image(
                *l,
                start + first + i,
            ) == scratch@.subrange(512 * i, 512 * i + 512) by {
                if i < k {
                    assert(scratch@.subrange(512 * i, 512 * i + 512) =~= before.subrange(
                        512 * i,
                        512 * i + 512,
                    ));
                }
            }
            k = k + 1;
        }
        let ghost middle = *device;
        let stored = write_batch(
            device,
            scratch,
            places.bitmap_lba + first as u64,
            count,
            Ghost(*l),
        );
        proof {
            lemma_run_join(*l, start, first as int, count as int);
            lemma_run_prefix(*l, start, first + count, total as int);
            lemma_wrote(
                *old(device),
                middle,
                *device,
                layout::image_run(*l, start, first as int),
                layout::image_run(*l, start + first, count as int),
                stored,
                all,
            );
        }
        match stored {
            Ok(()) => {},
            Err(error) => return Err(error),
        }
        first = first + count as u32;
    }
    Ok(())
}

/// Encode sector number `k` of the UpCase table at byte `at` of the scratch
/// storage; answers the table's checksum `sum` extended by the sector.
fn encode_upcase(scratch: &mut Scratch<'_>, at: usize, k: u32, sum: u32) -> (next: u32)
    requires
        at + 512 <= old(scratch)@.len(),
        k < 256,
        sum == bytes::sum32(0, layout::upcase_bytes().take(512 * k)),
    ensures
        final(scratch)@.len() == old(scratch)@.len(),
        final(scratch)@.subrange(at as int, at + 512) == layout::upcase_image(k as int),
        forall|i: int|
            0 <= i < old(scratch)@.len() && !(at <= i < at + 512)
                ==> #[trigger] final(scratch)@[i] == old(scratch)@[i],
        next == bytes::sum32(0, layout::upcase_bytes().take(512 * k + 512)),
{
    let len: usize = scratch.len();
    let ghost table = layout::upcase_bytes();
    let mut total: u32 = sum;
    let mut i: usize = 0;
    while i < 256
        invariant
            i <= 256,
            k < 256,
            table == layout::upcase_bytes(),
            at + 512 <= scratch@.len(),
            scratch@.len() == old(scratch)@.len(),
            scratch@.len() == len,
            total == bytes::sum32(0, table.take(512 * k + 2 * i)),
            forall|j: int|
                0 <= j < scratch@.len() && !(at <= j < at + 512)
                    ==> #[trigger] scratch@[j] == old(scratch)@[j],
            forall|j: int|
                at <= j < at + 2 * i ==> #[trigger] scratch@[j] == layout::upcase_byte(
                    512 * k + (j - at),
                ),
        decreases 256 - i,
    {
        let code: u16 = (256 * k + i as u32) as u16;
        let unit: u16 = if 0x61 <= code && code <= 0x7a {
            code - 0x20
        } else {
            code
        };
        let low: u8 = (unit % 0x100) as u8;
        let high: u8 = (unit / 0x100) as u8;
        scratch.bytes[at + 2 * i] = low;
        scratch.bytes[at + 2 * i + 1] = high;
        proof {
            let n = 512 * k + 2 * i;
            assert(n / 2 == code && n % 2 == 0);
            assert((n + 1) / 2 == code && (n + 1) % 2 == 1);
            assert(layout::upcase_byte(n) == low && layout::upcase_byte(n + 1) == high);
            assert(table.take(n + 1).drop_last() =~= table.take(n));
            assert(table.take(n + 2).drop_last() =~= table.take(n + 1));
            assert(table.take(n + 1).last() == low && table.take(n + 2).last() == high);
            assert(bytes::sum32(0, table.take(n + 1)) == bytes::rolled32(total, low));
            assert(bytes::sum32(0, table.take(n + 2)) == bytes::rolled32(
                bytes::sum32(0, table.take(n + 1)),
                high,
            ));
        }
        total = bytes::roll32(bytes::roll32(total, low), high);
        i = i + 1;
    }
    assert(scratch@.subrange(at as int, at + 512) =~= layout::upcase_image(k as int));
    total
}

/// Write the UpCase table; answers its checksum.
fn write_upcase<D: BlockDevice>(
    device: &mut D,
    scratch: &mut Scratch<'_>,
    l: &VolumeLayout,
    places: &Places,
) -> (result: Result<u32, Error<D::Error>>)
    requires
        old(device).sector_bytes() == 512,
        old(scratch)@.len() >= 512,
        layout::is_layout(*l),
        places.is_of(*l),
    ensures
        final(scratch)@.len() == old(scratch)@.len(),
        device::performs(
            *old(device),
            *final(device),
            sum_dropped(result),
            layout::image_run(*l, l.lba(l.upcase_cluster()), 256),
            Ok(()),
        ),
        result matches Ok(sum) ==> sum == bytes::sum32(0, layout::upcase_bytes()),
{
    let ghost start = l.lba(l.upcase_cluster());
    let ghost all = layout::image_run(*l, start, 256);
    proof {
        layout::lemma_sizes(*l);
        layout::lemma_places(*l);
        lemma_wrote_nothing(*device);
        assert(layout::image_run(*l, start, 0) =~= Seq::empty());
        assert(layout::upcase_bytes().take(0) =~= Seq::empty());
        assert(0 <= l.bitmap_clusters() * l.per_cluster) by (nonlinear_arith)
            requires
                0 <= l.bitmap_clusters(),
                0 <= l.per_cluster,
        ;
    }
    let capacity: usize = scratch.len() / 512;
    let mut sum: u32 = 0;
    let mut first: u32 = 0;
    while first < 256
        invariant
            first <= 256,
            start == l.lba(l.upcase_cluster()),
            start == places.upcase_lba,
            start + 256 <= 0x1_0000_0000,
            start >= l.lba(3),
            l.lba(3) == l.lba(2) + l.per_cluster,
            l.lba(2) == 25 + l.fat,
            1 <= l.per_cluster,
            device.sector_bytes() == 512,
            scratch@.len() == old(scratch)@.len(),
            capacity == scratch@.len() / 512,
            1 <= capacity,
            all == layout::image_run(*l, start, 256),
            sum == bytes::sum32(0, layout::upcase_bytes().take(512 * first)),
            device::performs(
                *old(device),
                *device,
                Ok::<(), Error<D::Error>>(()),
                layout::image_run(*l, start, first as int),
                Ok(()),
            ),
        decreases 256 - first,
    {
        let left: u32 = 256 - first;
        let count: usize = if (left as usize) < capacity {
            left as usize
        } else {
            capacity
        };
        let mut k: usize = 0;
        while k < count
            invariant
                k <= count <= capacity,
                count <= 256 - first,
                first <= 256,
                start == l.lba(l.upcase_cluster()),
                start >= l.lba(3),
                l.lba(3) == l.lba(2) + l.per_cluster,
                l.lba(2) == 25 + l.fat,
                1 <= l.per_cluster,
                scratch@.len() == old(scratch)@.len(),
                capacity == scratch@.len() / 512,
                sum == bytes::sum32(0, layout::upcase_bytes().take(512 * (first + k))),
                forall|i: int|
                    0 <= i < k ==> #[trigger] layout::image(*l, start + first + i)
                        == scratch@.subrange(512 * i, 512 * i + 512),
            decreases count - k,
        {
            let ghost before = scratch@;
            let len: usize = scratch.len();
            assert(512 * k + 512 <= len);
            sum = encode_upcase(scratch, 512 * k, first + k as u32, sum);
            assert forall|i: int| 0 <= i < k + 1 implies #[trigger] layout::image(
                *l,
                start + first + i,
            ) == scratch@.subrange(512 * i, 512 * i + 512) by {
                if i < k {
                    assert(scratch@.subrange(512 * i, 512 * i + 512) =~= before.subrange(
                        512 * i,
                        512 * i + 512,
                    ));
                }
            }
            k = k + 1;
        }
        let ghost middle = *device;
        let stored = write_batch(
            device,
            scratch,
            places.upcase_lba + first as u64,
            count,
            Ghost(*l),
        );
        proof {
            lemma_run_join(*l, start, first as int, count as int);
            lemma_run_prefix(*l, start, first + count, 256);
            lemma_wrote(
                *old(device),
                middle,
                *device,
                layout::image_run(*l, start, first as int),
                layout::image_run(*l, start + first, count as int),
                stored,
                all,
            );
        }
        match stored {
            Ok(()) => {},
            Err(error) => return Err(error),
        }
        first = first + count as u32;
    }
    assert(layout::upcase_bytes().take(131_072) =~= layout::upcase_bytes());
    Ok(sum)
}

/// An answer without the checksum in it.
spec fn sum_dropped<E>(result: Result<u32, Error<E>>) -> Result<(), Error<E>> {
    match result {
        Ok(_) => Ok(()),
        Err(error) => Err(error),
    }
}

/// Encode the first sector of the root directory.
fn encode_root(out: &mut [u8], places: &Places, checksum: u32, Ghost(l): Ghost<VolumeLayout>)
    requires
        old(out).len() == 512,
        layout::is_layout(l),
        places.is_of(l),
        checksum == bytes::sum32(0, layout::upcase_bytes()),
    ensures
        final(out)@ == layout::root_image(l),
{
    bytes::fill(out, 0, 512, 0);
    out[0] = 0x81;
    bytes::put_u32(out, 20, 3);
    bytes::put_u64(out, 24, places.bitmap_bytes);
    out[32] = 0x82;
    bytes::put_u32(out, 36, checksum);
    bytes::put_u32(out, 52, places.upcase_cluster);
    bytes::put_u64(out, 56, UPCASE_BYTES);
    assert(out@ =~= layout::root_image(l));
}

/// Write the root directory: blank sectors first, and last the one that names
/// bitmap and table.
fn write_root<D: BlockDevice>(
    device: &mut D,
    scratch: &mut Scratch<'_>,
    l: &VolumeLayout,
    places: &Places,
    checksum: u32,
) -> (result: Result<(), Error<D::Error>>)
    requires
        old(device).sector_bytes() == 512,
        old(scratch)@.len() >= 512,
        layout::is_layout(*l),
        places.is_of(*l),
        checksum == bytes::sum32(0, layout::upcase_bytes()),
    ensures
        final(scratch)@.len() == old(scratch)@.len(),
        device::performs(
            *old(device),
            *final(device),
            result,
            layout::image_run(*l, l.lba(2) + 1, l.per_cluster - 1) + layout::image_run(
                *l,
                l.lba(2),
                1,
            ),
            Ok(()),
        ),
{
    let ghost start = l.lba(2) + 1;
    let ghost blank = layout::image_run(*l, start, l.per_cluster - 1);
    let ghost all = blank + layout::image_run(*l, l.lba(2), 1);
    proof {
        layout::lemma_sizes(*l);
        layout::lemma_places(*l);
        lemma_wrote_nothing(*device);
        assert(layout::image_run(*l, start, 0) =~= Seq::empty());
    }
    bytes::fill(scratch.sector(512), 0, 512, 0);
    let mut k: u32 = 1;
    while k < l.per_cluster
        invariant
            1 <= k <= l.per_cluster <= 64,
            start == l.lba(2) + 1,
            places.root_lba == l.lba(2),
            l.lba(2) == 25 + l.fat,
            l.lba(3) == l.lba(2) + l.per_cluster,
            l.fat <= 0x8_0001,
            device.sector_bytes() == 512,
            scratch@.len() == old(scratch)@.len(),
            scratch@.len() >= 512,
            scratch@.take(512) =~= bytes::filled(512, 0),
            blank == layout::image_run(*l, start, l.per_cluster - 1),
            all == blank + layout::image_run(*l, l.lba(2), 1),
            device::performs(
                *old(device),
                *device,
                Ok::<(), Error<D::Error>>(()),
                layout::image_run(*l, start, k - 1),
                Ok(()),
            ),
        decreases l.per_cluster - k,
    {
        assert(layout::image(*l, l.lba(2) + k) == bytes::filled(512, 0));
        let ghost middle = *device;
        let stored = device::store(device, places.root_lba + k as u64, scratch, 512);
        proof {
            lemma_run_one(*l, l.lba(2) + k);
            lemma_run_join(*l, start, k - 1, 1);
            lemma_run_prefix(*l, start, k as int, l.per_cluster - 1);
            lemma_wrote(
                *old(device),
                middle,
                *device,
                layout::image_run(*l, start, k - 1),
                layout::image_run(*l, start + (k - 1), 1),
                stored,
                all,
            );
        }
        match stored {
            Ok(()) => {},
            Err(error) => return Err(error),
        }
        k = k + 1;
    }
    encode_root(scratch.sector(512), places, checksum, Ghost(*l));
    assert(scratch@.take(512) =~= layout::image(*l, l.lba(2)));
    let ghost middle = *device;
    let stored = device::store(device, places.root_lba, scratch, 512);
    proof {
        lemma_run_one(*l, l.lba(2));
        lemma_wrote(
            *old(device),
            middle,
            *device,
            blank,
            layout::image_run(*l, l.lba(2), 1),
            stored,
            all,
        );
    }
    stored
}

/// Erase the previous filesystem metadata and create a fresh exFAT volume.
///
/// This is intentionally a whole-device operation. It installs an MBR with a
/// single type-0x07 partition at LBA 1 and does not preserve any prior data,
/// partition table, volume label, or files.
pub fn format_exfat<D: BlockDevice>(device: &mut D, scratch: &mut Scratch<'_>) -> (result: Result<
    (),
    Error<D::Error>,
>)
    ensures
        final(scratch)@.len() == old(scratch)@.len(),
        device::performs(
            *old(device),
            *final(device),
            result,
            layout::format_run::<D::Error>(
                old(device).sector_bytes(),
                old(device).sector_total(),
                old(scratch)@.len(),
            ),
            layout::format_result(
                old(device).sector_bytes(),
                old(device).sector_total(),
                old(scratch)@.len(),
            ),
        ),
        result is Ok ==> final(device).stable() == final(device).media(),
        layout::format_layout::<D::Error>(
            old(device).sector_bytes(),
            old(device).sector_total(),
            old(scratch)@.len(),
        ) matches Err(error) ==> {
            &&& result == Err::<(), Error<D::Error>>(error)
            &&& *final(device) == *old(device)
        },
{
    proof {
        assert(device::applied(device.media(), Seq::empty()) == device.media());
    }
    let size: usize = device.sector_size();
    if size != 512 {
        return Err(Error::UnsupportedSectorSize);
    }
    match scratch.require(size) {
        Ok(()) => {},
        Err(error) => return Err(error),
    }
    let total: u64 = device.sector_count();
    if total <= FAT_OFFSET as u64 + 512 || total - 1 > u32::MAX as u64 {
        return Err(Error::InvalidPartitionTable);
    }
    let sectors: u64 = total - 1;
    let per_cluster: u32 = cluster_sectors(sectors);
    let l = match find_layout(sectors, per_cluster) {
        Some(l) => l,
        None => return Err(Error::Corrupt),
    };
    proof {
        layout::lemma_layout(sectors, per_cluster, 1, 8);
        layout::lemma_sizes(l);
    }
    let places = places_of(&l);
    if places.upcase_end > l.clusters + 2 {
        return Err(Error::Corrupt);
    }
    let ghost before = *device;
    let ghost head = layout::image_run(l, 0, 25 + l.fat);
    let ghost bitmap = layout::image_run(l, l.lba(3), layout::parts(l.bitmap_bytes(), 512));
    let ghost table = layout::image_run(l, l.lba(l.upcase_cluster()), 256);
    let ghost root = layout::image_run(l, l.lba(2) + 1, l.per_cluster - 1) + layout::image_run(
        l,
        l.lba(2),
        1,
    );
    let ghost all = layout::format_writes(l);
    proof {
        lemma_wrote_nothing(before);
        assert(all =~= head + bitmap + table + root);
        assert(Seq::<SectorWrite>::empty() + layout::image_run(l, 0, 1) =~= layout::image_run(
            l,
            0,
            1,
        ));
        lemma_run_join(l, 0, 1, 12);
        lemma_run_join(l, 0, 13, 12);
        lemma_run_join(l, 0, 25, l.fat as int);
        lemma_run_prefix(l, 0, 1, 25 + l.fat);
        lemma_run_prefix(l, 0, 13, 25 + l.fat);
        lemma_run_prefix(l, 0, 25, 25 + l.fat);
        assert(head.is_prefix_of(all));
    }
    let mbr = write_mbr(device, scratch, &l);
    let ghost s1 = *device;
    proof {
        lemma_wrote(before, before, s1, Seq::empty(), layout::image_run(l, 0, 1), mbr, all);
    }
    match mbr {
        Ok(()) => {},
        Err(error) => return Err(error),
    }
    let main = write_boot_region(device, scratch, &l, 1);
    let ghost s2 = *device;
    proof {
        lemma_wrote(
            before,
            s1,
            s2,
            layout::image_run(l, 0, 1),
            layout::image_run(l, 1, 12),
            main,
            all,
        );
    }
    match main {
        Ok(()) => {},
        Err(error) => return Err(error),
    }
    // The backup boot region is an exact second copy.
    let backup = write_boot_region(device, scratch, &l, 13);
    let ghost s3 = *device;
    proof {
        lemma_wrote(
            before,
            s2,
            s3,
            layout::image_run(l, 0, 13),
            layout::image_run(l, 13, 12),
            backup,
            all,
        );
    }
    match backup {
        Ok(()) => {},
        Err(error) => return Err(error),
    }
    let fat = write_fat(device, scratch, &l, &places);
    let ghost s4 = *device;
    proof {
        lemma_wrote(
            before,
            s3,
            s4,
            layout::image_run(l, 0, 25),
            layout::image_run(l, 25, l.fat as int),
            fat,
            all,
        );
    }
    match fat {
        Ok(()) => {},
        Err(error) => return Err(error),
    }
    let mapped = write_bitmap(device, scratch, &l, &places);
    let ghost s5 = *device;
    proof {
        assert((head + bitmap).is_prefix_of(all));
        lemma_wrote(before, s4, s5, head, bitmap, mapped, all);
    }
    match mapped {
        Ok(()) => {},
        Err(error) => return Err(error),
    }
    let summed = write_upcase(device, scratch, &l, &places);
    let ghost s6 = *device;
    proof {
        assert((head + bitmap + table).is_prefix_of(all));
        lemma_wrote(before, s5, s6, head + bitmap, table, sum_dropped(summed), all);
    }
    let checksum: u32 = match summed {
        Ok(checksum) => checksum,
        Err(error) => return Err(error),
    };
    let rooted = write_root(device, scratch, &l, &places, checksum);
    let ghost s7 = *device;
    proof {
        lemma_wrote(before, s6, s7, head + bitmap + table, root, rooted, all);
    }
    match rooted {
        Ok(()) => {},
        Err(error) => return Err(error),
    }
    match device.flush() {
        Ok(()) => Ok(()),
        Err(error) => {
            proof {
                device::lemma_stop_between(before.media(), all, all);
            }
            Err(Error::Device(error))
        },
    }
}

} // verus!
