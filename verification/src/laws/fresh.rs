//! A freshly formatted device mounts.

use crate::arith;
use crate::bytes;
use crate::device;
use crate::device::Media;
use crate::directory::entry;
use crate::directory::slots;
use crate::directory::slots::Slot;
use crate::error::Error;
use crate::format::layout;
use crate::format::layout::{VolumeLayout, FAT_OFFSET, UPCASE_BYTES};
use crate::fs::allocation;
use crate::fs::listing;
use crate::fs::mount as fs_mount;
use crate::fs::names;
use crate::fs::space;
use crate::fs::walk as fs_walk;
use crate::geometry::{AllocationBitmap, Geometry, Partition, UpCaseTable};
use crate::laws::decoding;
use crate::laws::directories;
use crate::laws::entries;
use crate::laws::expanding;
use crate::laws::extents;
use crate::laws::placing;
use crate::laws::regions;
use crate::laws::remounting;
use crate::mount::boot;
use crate::mount::partition;
use crate::mount::system;
use crate::mount::system::SystemModel;
use crate::mount::volume;
use crate::mount::volume::VolumeModel;
use crate::mount::Volume;
use vstd::arithmetic::power2;
use vstd::prelude::*;

verus! {

/// The geometry of a fresh volume.
pub open spec fn fresh_geometry(l: VolumeLayout) -> Geometry {
    Geometry {
        partition: Partition { first_lba: 1, sector_count: l.sectors },
        bytes_per_sector: 512,
        sectors_per_cluster: l.per_cluster,
        fat_offset: FAT_OFFSET,
        fat_length: l.fat,
        cluster_heap_offset: l.heap,
        cluster_count: l.clusters,
        root_cluster: 2,
    }
}

/// The metadata of a fresh volume.
pub open spec fn fresh_volume(l: VolumeLayout) -> VolumeModel {
    VolumeModel {
        geometry: fresh_geometry(l),
        bitmap: AllocationBitmap { first_cluster: 3, byte_length: l.bitmap_bytes() as u64 },
        upcase: UpCaseTable {
            checksum: bytes::sum32(0, layout::upcase_bytes()),
            first_cluster: l.upcase_cluster() as u32,
            byte_length: UPCASE_BYTES,
        },
        label: Seq::empty(),
    }
}

/// The media that a format leaves.
pub open spec fn formatted(media: Media, l: VolumeLayout) -> Media {
    device::applied(media, layout::format_writes(l))
}

/// What a run of writes leaves.
proof fn lemma_run(media: Media, l: VolumeLayout, start: int, count: int, lba: u64)
    requires
        0 <= start,
        0 <= count,
        start + count <= u64::MAX,
    ensures
        device::applied(media, layout::image_run(l, start, count))[lba] == if start <= lba < start
            + count {
            layout::image(l, lba as int)
        } else {
            media[lba]
        },
{
    let run = layout::image_run(l, start, count);
    if start <= lba < start + count {
        device::lemma_applied_last(media, run, lba - start);
    } else {
        device::lemma_applied_untouched(media, run, lba);
    }
}

/// The layout of a format that was carried out.
pub open spec fn is_formattable(l: VolumeLayout) -> bool {
    layout::is_layout(l) && l.fits()
}

/// Whether the formatter writes sector `lba`.
pub open spec fn is_written(l: VolumeLayout, lba: u64) -> bool {
    ||| lba < l.lba(3) + layout::parts(l.bitmap_bytes(), 512)
    ||| l.lba(l.upcase_cluster()) <= lba < l.lba(l.upcase_cluster()) + 256
}

/// Every sector that the formatter writes holds its image, and every other one
/// what it held before.
pub proof fn lemma_formatted(media: Media, l: VolumeLayout, lba: u64)
    requires
        is_formattable(l),
    ensures
        formatted(media, l)[lba] == if is_written(l, lba) {
            layout::image(l, lba as int)
        } else {
            media[lba]
        },
{
    layout::lemma_sizes(l);
    layout::lemma_places(l);
    let head = layout::image_run(l, 0, 25 + l.fat);
    let bitmap = layout::image_run(l, l.lba(3), layout::parts(l.bitmap_bytes(), 512));
    let table = layout::image_run(l, l.lba(l.upcase_cluster()), 256);
    let blank = layout::image_run(l, l.lba(2) + 1, l.per_cluster - 1);
    let root = layout::image_run(l, l.lba(2), 1);
    let m1 = device::applied(media, head);
    let m2 = device::applied(m1, bitmap);
    let m3 = device::applied(m2, table);
    let m4 = device::applied(m3, blank);
    device::lemma_applied_concat(media, head, bitmap);
    device::lemma_applied_concat(media, head + bitmap, table);
    device::lemma_applied_concat(media, head + bitmap + table, blank);
    device::lemma_applied_concat(media, head + bitmap + table + blank, root);
    lemma_run(media, l, 0, 25 + l.fat, lba);
    lemma_run(m1, l, l.lba(3), layout::parts(l.bitmap_bytes(), 512), lba);
    lemma_run(m2, l, l.lba(l.upcase_cluster()), 256, lba);
    lemma_run(m3, l, l.lba(2) + 1, l.per_cluster - 1, lba);
    lemma_run(m4, l, l.lba(2), 1, lba);
}

/// Clusters of a fresh volume lie where the layout says.
proof fn lemma_fresh_geometry(l: VolumeLayout)
    requires
        is_formattable(l),
    ensures
        fresh_geometry(l).wf(),
        fresh_geometry(l).cluster_limit() == l.clusters + 2,
        fresh_geometry(l).cluster_bytes() == l.cluster_bytes(),
        l.heap + l.clusters * l.per_cluster <= l.sectors,
        forall|c: int| #[trigger] fresh_geometry(l).heap_lba(c) == l.lba(c),
{
    layout::lemma_sizes(l);
    let per = l.per_cluster as int;
    let rest = l.sectors - FAT_OFFSET - l.fat;
    vstd::arithmetic::div_mod::lemma_fundamental_div_mod(rest, per);
    vstd::arithmetic::mul::lemma_mul_is_commutative(per, l.clusters as int);
}

/// The partition table names the volume's partition.
proof fn lemma_partition<E>(media: Media, l: VolumeLayout, total: u64)
    requires
        is_formattable(l),
        total == l.sectors + 1,
    ensures
        volume::partition_result::<E>(formatted(media, l), 512, total) == Ok::<
            Partition,
            Error<E>,
        >(fresh_geometry(l).partition),
        !partition::is_protective(formatted(media, l)[0]),
{
    layout::lemma_sizes(l);
    layout::lemma_places(l);
    lemma_formatted(media, l, 0);
    let sector = layout::mbr_image(l);
    assert(sector.len() == 512);
    assert forall|i: int| 0 <= i < 4 implies sector[#[trigger] partition::mbr_entry_start(i) + 4]
        != 0xee by {
        assert(i == 0 || i == 1 || i == 2 || i == 3);
    }
    assert(sector.subrange(454, 458) =~= bytes::le32(1));
    bytes::lemma_le32_reads_back(sector, 454, 1);
    assert(sector.subrange(458, 462) =~= bytes::le32(l.sectors as u32));
    bytes::lemma_le32_reads_back(sector, 458, l.sectors as u32);
    assert(partition::mbr_entry(sector, 0) == Some(fresh_geometry(l).partition));
}

/// The boot region's checksum is that of its image.
pub proof fn lemma_boot_sum(media: Media, l: VolumeLayout, k: nat)
    requires
        is_formattable(l),
        k <= 11,
    ensures
        boot::boot_sum(formatted(media, l), 1, 512, k) == layout::boot_image_sum(l, k),
    decreases k,
{
    if k > 0 {
        layout::lemma_sizes(l);
        layout::lemma_places(l);
        lemma_boot_sum(media, l, (k - 1) as nat);
        lemma_formatted(media, l, k as u64);
        assert((1 + k - 1) as u64 == k as u64);
    }
}

/// A sector full of copies of a checksum holds it.
pub proof fn lemma_sealed(sum: u32)
    ensures
        boot::holds_sum(layout::checksum_image(sum), sum, 512),
{
    let sealed = layout::checksum_image(sum);
    assert forall|i: int| 0 <= i < 128 implies #[trigger] bytes::u32_at(sealed, 4 * i) == sum by {
        assert(sealed.subrange(4 * i, 4 * i + 4) =~= bytes::le32(sum)) by {
            assert((4 * i) % 4 == 0 && (4 * i + 1) % 4 == 1 && (4 * i + 2) % 4 == 2 && (4 * i + 3)
                % 4 == 3);
        }
        bytes::lemma_le32_reads_back(sealed, 4 * i, sum);
    }
}

/// The fields of the boot sector.
pub proof fn lemma_boot_fields(l: VolumeLayout)
    ensures
        ({
            let sector = layout::boot_image(l, 0);
            &&& sector.len() == 512
            &&& boot::is_exfat_boot(sector)
            &&& bytes::u64_at(sector, 72) == l.sectors
            &&& bytes::u32_at(sector, 80) == FAT_OFFSET
            &&& bytes::u32_at(sector, 84) == l.fat
            &&& bytes::u32_at(sector, 88) == l.heap
            &&& bytes::u32_at(sector, 92) == l.clusters
            &&& bytes::u32_at(sector, 96) == 2
            &&& sector[108] == 9
            &&& sector[109] == layout::cluster_shift(l.per_cluster)
            &&& sector[110] == 1
        }),
{
    let sector = layout::boot_image(l, 0);
    let fields = layout::boot_fields(l);
    assert(fields.len() == 120);
    assert(sector.len() == 512);
    assert(bytes::u64_at(sector, 72) == l.sectors) by {
        assert(sector.subrange(72, 80) =~= bytes::le64(l.sectors));
        bytes::lemma_le64_reads_back(sector, 72, l.sectors);
    }
    assert(bytes::u32_at(sector, 80) == FAT_OFFSET) by {
        assert(sector.subrange(80, 84) =~= bytes::le32(FAT_OFFSET));
        bytes::lemma_le32_reads_back(sector, 80, FAT_OFFSET);
    }
    assert(bytes::u32_at(sector, 84) == l.fat) by {
        assert(sector.subrange(84, 88) =~= bytes::le32(l.fat));
        bytes::lemma_le32_reads_back(sector, 84, l.fat);
    }
    assert(bytes::u32_at(sector, 88) == l.heap) by {
        assert(sector.subrange(88, 92) =~= bytes::le32(l.heap));
        bytes::lemma_le32_reads_back(sector, 88, l.heap);
    }
    assert(bytes::u32_at(sector, 92) == l.clusters) by {
        assert(sector.subrange(92, 96) =~= bytes::le32(l.clusters));
        bytes::lemma_le32_reads_back(sector, 92, l.clusters);
    }
    assert(bytes::u32_at(sector, 96) == 2) by {
        assert(sector.subrange(96, 100) =~= bytes::le32(2));
        bytes::lemma_le32_reads_back(sector, 96, 2);
    }
    assert(sector[108] == 9);
    assert(sector[109] == layout::cluster_shift(l.per_cluster));
    assert(boot::is_exfat_boot(sector));
}

/// The boot region is accepted.
proof fn lemma_boot<E>(media: Media, l: VolumeLayout)
    requires
        is_formattable(l),
    ensures
        boot::boot_region_ok(formatted(media, l), fresh_geometry(l).partition, 512),
        boot::boot_result::<E>(
            fresh_geometry(l).partition,
            formatted(media, l)[1],
            512,
        ) == Ok::<Geometry, Error<E>>(fresh_geometry(l)),
{
    let g = fresh_geometry(l);
    layout::lemma_sizes(l);
    layout::lemma_places(l);
    lemma_fresh_geometry(l);
    lemma_boot_sum(media, l, 11);
    lemma_formatted(media, l, 12);
    lemma_formatted(media, l, 1);
    lemma_sealed(layout::boot_image_sum(l, 11));
    lemma_boot_fields(l);
    power2::lemma2_to64();
    assert(boot::boot_geometry(g.partition, layout::boot_image(l, 0)) == g);
}

/// The FAT of a fresh volume holds what the layout says.
proof fn lemma_fresh_fat(media: Media, l: VolumeLayout, cluster: u32)
    requires
        is_formattable(l),
        cluster < l.clusters + 2,
    ensures
        fresh_geometry(l).fat_holds(cluster),
        slots::fat_entry(fresh_geometry(l), formatted(media, l), cluster) == l.fat_value(
            cluster as int,
        ),
{
    let g = fresh_geometry(l);
    layout::lemma_sizes(l);
    layout::lemma_places(l);
    let k = cluster as int / 128;
    let j = cluster as int % 128;
    assert(cluster * 4 / 512 == k);
    assert(cluster * 4 % 512 == 4 * j);
    assert(k < l.fat) by {
        assert(l.fat == ((l.clusters + 2) * 4 + 511) / 512);
    }
    lemma_formatted(media, l, (25 + k) as u64);
    let sector = layout::fat_image(l, k);
    let value = l.fat_value(cluster as int);
    assert(sector.subrange(4 * j, 4 * j + 4) =~= bytes::le32(value)) by {
        assert(128 * k + j == cluster);
        assert((4 * j) / 4 == j && (4 * j + 1) / 4 == j && (4 * j + 2) / 4 == j && (4 * j + 3) / 4
            == j);
        assert((4 * j) % 4 == 0 && (4 * j + 1) % 4 == 1 && (4 * j + 2) % 4 == 2 && (4 * j + 3) % 4
            == 3);
    }
    bytes::lemma_le32_reads_back(sector, 4 * j, value);
}

/// The fields of the root directory's two entries.
proof fn lemma_root_image(l: VolumeLayout)
    ensures
        ({
            let sector = layout::root_image(l);
            let first = sector.subrange(0, 32);
            let second = sector.subrange(32, 64);
            let model = fresh_volume(l);
            &&& sector.len() == 512
            &&& first[0] == 0x81 && first[1] == 0
            &&& bytes::u32_at(first, 20) == 3
            &&& bytes::u64_at(first, 24) == l.bitmap_bytes() as u64
            &&& second[0] == 0x82
            &&& bytes::u32_at(second, 4) == model.upcase.checksum
            &&& bytes::u32_at(second, 20) == l.upcase_cluster() as u32
            &&& bytes::u64_at(second, 24) == UPCASE_BYTES
        }),
{
    let sector = layout::root_image(l);
    let first = sector.subrange(0, 32);
    let second = sector.subrange(32, 64);
    let sum = fresh_volume(l).upcase.checksum;
    assert(sector.len() == 512);
    assert(first.subrange(20, 24) =~= bytes::le32(3));
    bytes::lemma_le32_reads_back(first, 20, 3);
    assert(first.subrange(24, 32) =~= bytes::le64(l.bitmap_bytes() as u64));
    bytes::lemma_le64_reads_back(first, 24, l.bitmap_bytes() as u64);
    assert(second.subrange(4, 8) =~= bytes::le32(sum));
    bytes::lemma_le32_reads_back(second, 4, sum);
    assert(second.subrange(20, 24) =~= bytes::le32(l.upcase_cluster() as u32));
    bytes::lemma_le32_reads_back(second, 20, l.upcase_cluster() as u32);
    assert(second.subrange(24, 32) =~= bytes::le64(UPCASE_BYTES));
    bytes::lemma_le64_reads_back(second, 24, UPCASE_BYTES);
}

/// The root directory names bitmap and table.
proof fn lemma_fresh_root(media: Media, l: VolumeLayout)
    requires
        is_formattable(l),
    ensures
        system::root_system(fresh_geometry(l), formatted(media, l)) == Some(
            (fresh_volume(l).bitmap, fresh_volume(l).upcase, Seq::<u16>::empty()),
        ),
{
    let g = fresh_geometry(l);
    let after = formatted(media, l);
    layout::lemma_sizes(l);
    layout::lemma_places(l);
    lemma_fresh_geometry(l);
    lemma_formatted(media, l, l.lba(2) as u64);
    lemma_root_image(l);
    let spans = slots::root_spans(g, after, 2, l.clusters as nat);
    let lba = l.lba(2) as u64;
    assert(g.heap_lba(2) == l.lba(2));
    assert(spans[0] == (slots::Span { lba, usable: 512 }));
    let all = slots::span_slots(after, spans);
    let here = slots::sector_slots(after, lba, 512);
    assert(all == here + slots::span_slots(after, spans.drop_first()));
    assert(all[0] == slots::slot_at(after, lba, 0));
    assert(all.drop_first()[0] == slots::slot_at(after, lba, 1));
    assert(all.drop_first().drop_first()[0] == slots::slot_at(after, lba, 2));
    let sector = layout::root_image(l);
    let model = fresh_volume(l);
    let first = all[0].raw;
    let second = all[1].raw;
    assert(first =~= sector.subrange(0, 32));
    assert(second =~= sector.subrange(32, 64));
    let none = SystemModel::none();
    let one = none.seen(first);
    assert(one.bitmap == Some(model.bitmap) && one.upcase is None);
    let two = one.seen(second);
    assert(two.complete() == Some((model.bitmap, model.upcase, Seq::<u16>::empty())));
    assert(all[2].raw[0] == sector[64]);
    reveal_with_fuel(system::system_entries, 3);
}

/// The table's chain runs through adjacent clusters.
proof fn lemma_fresh_links(media: Media, l: VolumeLayout, j: nat)
    requires
        is_formattable(l),
        j < l.upcase_clusters(),
    ensures
        system::link(
            fresh_geometry(l),
            formatted(media, l),
            l.upcase_cluster() as u32,
            j,
        ) == l.upcase_cluster() + j,
    decreases j,
{
    layout::lemma_sizes(l);
    if j > 0 {
        lemma_fresh_links(media, l, (j - 1) as nat);
        lemma_fresh_fat(media, l, (l.upcase_cluster() + j - 1) as u32);
    }
}

/// The bytes of the table's clusters are those of the table.
proof fn lemma_fresh_table(media: Media, l: VolumeLayout, n: nat)
    requires
        is_formattable(l),
        n <= UPCASE_BYTES,
    ensures
        system::link_sum(
            fresh_geometry(l),
            formatted(media, l),
            l.upcase_cluster() as u32,
            n,
        ) == bytes::sum32(0, layout::upcase_bytes().take(n as int)),
    decreases n,
{
    let g = fresh_geometry(l);
    let after = formatted(media, l);
    let table = layout::upcase_bytes();
    layout::lemma_sizes(l);
    layout::lemma_places(l);
    lemma_fresh_geometry(l);
    if n > 0 {
        lemma_fresh_table(media, l, (n - 1) as nat);
        assert(table.take(n as int).drop_last() =~= table.take(n - 1));
        let o = n - 1;
        let per = l.per_cluster as int;
        let k = o / 512;
        let q = k / per;
        let r = k % per;
        vstd::arithmetic::div_mod::lemma_fundamental_div_mod(k, per);
        assert(0 <= q < l.upcase_clusters()) by (nonlinear_arith)
            requires
                0 <= k < 256,
                per >= 1,
                q == k / per,
                l.upcase_clusters() * per == 256,
        ;
        lemma_fresh_links(media, l, q as nat);
        let c = l.upcase_cluster() + q;
        assert(l.lba(c) + r == l.lba(l.upcase_cluster()) + k) by (nonlinear_arith)
            requires
                c == l.upcase_cluster() + q,
                l.lba(c) == 1 + l.heap + (c - 2) * l.per_cluster,
                l.lba(l.upcase_cluster()) == 1 + l.heap + (l.upcase_cluster() - 2) * l.per_cluster,
                k == per * q + r,
                per == l.per_cluster,
        ;
        lemma_formatted(media, l, (l.lba(l.upcase_cluster()) + k) as u64);
        assert(g.heap_lba(c) == l.lba(c));
        assert(0 <= l.bitmap_clusters() * l.per_cluster) by (nonlinear_arith)
            requires
                0 <= l.bitmap_clusters(),
        ;
        assert(system::link_byte(g, after, l.upcase_cluster() as u32, o) == layout::upcase_byte(o));
    } else {
        assert(table.take(0) =~= Seq::empty());
    }
}

/// The UpCase table is accepted.
proof fn lemma_fresh_upcase(media: Media, l: VolumeLayout)
    requires
        is_formattable(l),
    ensures
        system::upcase_valid(fresh_geometry(l), formatted(media, l), fresh_volume(l).upcase),
{
    let g = fresh_geometry(l);
    let after = formatted(media, l);
    let first = l.upcase_cluster() as u32;
    layout::lemma_sizes(l);
    lemma_fresh_geometry(l);
    lemma_fresh_table(media, l, UPCASE_BYTES as nat);
    assert(layout::upcase_bytes().take(UPCASE_BYTES as int) =~= layout::upcase_bytes());
    assert forall|j: nat| j * g.cluster_bytes() < UPCASE_BYTES implies #[trigger] system::link_ok(
        g,
        after,
        first,
        j,
    ) by {
        if j >= l.upcase_clusters() {
            arith::lemma_scaled(l.upcase_clusters(), j as int, l.cluster_bytes());
        }
        lemma_fresh_links(media, l, j);
    }
}

/// The bitmap's chain runs through adjacent clusters.
proof fn lemma_fresh_chain(media: Media, l: VolumeLayout, i: nat)
    requires
        is_formattable(l),
        i < l.bitmap_clusters(),
    ensures
        allocation::chain_at(fresh_geometry(l), formatted(media, l), 3, i) == Some(
            (3 + i) as u32,
        ),
    decreases i,
{
    layout::lemma_sizes(l);
    lemma_fresh_geometry(l);
    if i > 0 {
        lemma_fresh_chain(media, l, (i - 1) as nat);
        lemma_fresh_fat(media, l, (3 + i - 1) as u32);
    }
}

/// The bits of a byte whose lowest bits are set.
pub proof fn lemma_low_bits(n: int, bit: u8)
    requires
        bit < 8,
    ensures
        allocation::bit_set(layout::low_bits(n), bit) == (bit < n),
{
    if n <= 0 {
        assert(0u8 & (1u8 << bit) == 0) by (bit_vector);
    } else if n >= 8 {
        assert(bit < 8 ==> 0xffu8 & (1u8 << bit) != 0) by (bit_vector);
    } else {
        let k = n as u8;
        assert(0 < k < 8 && bit < 8 ==> (1u8 << k) >= 1 && ((((1u8 << k) - 1) as u8) & (1u8 << bit)
            != 0) == (bit < k)) by (bit_vector);
    }
}

/// The bitmap of a fresh volume marks the reserved clusters as used, and no
/// other.
proof fn lemma_fresh_used(media: Media, l: VolumeLayout, v: Volume, cluster: int)
    requires
        is_formattable(l),
        v@ == fresh_volume(l),
        2 <= cluster < l.clusters + 2,
    ensures
        allocation::is_used(v, formatted(media, l), cluster) == Some(cluster - 2 < l.reserved()),
{
    let g = fresh_geometry(l);
    let after = formatted(media, l);
    let per = l.per_cluster as int;
    layout::lemma_sizes(l);
    layout::lemma_places(l);
    lemma_fresh_geometry(l);
    let byte = (cluster - 2) / 8;
    let bit = ((cluster - 2) % 8) as u8;
    assert(v.geometry == g && v.bitmap == fresh_volume(l).bitmap);
    assert(byte < l.bitmap_bytes());
    arith::lemma_stream_offset(byte, 512, per);
    let k = byte / 512;
    let q = k / per;
    let r = k % per;
    vstd::arithmetic::div_mod::lemma_fundamental_div_mod(k, per);
    assert(byte / g.cluster_bytes() == q);
    assert(0 <= q < l.bitmap_clusters()) by {
        vstd::arithmetic::div_mod::lemma_fundamental_div_mod(byte, l.cluster_bytes());
        vstd::arithmetic::mul::lemma_mul_is_commutative(q, l.cluster_bytes());
        if q >= l.bitmap_clusters() {
            arith::lemma_scaled(l.bitmap_clusters(), q, l.cluster_bytes());
        }
    }
    lemma_fresh_chain(media, l, q as nat);
    let c = 3 + q;
    assert(l.lba(c) + r == l.lba(3) + k) by (nonlinear_arith)
        requires
            c == 3 + q,
            l.lba(c) == 1 + l.heap + (c - 2) * l.per_cluster,
            l.lba(3) == 1 + l.heap + (3 - 2) * l.per_cluster,
            k == per * q + r,
            per == l.per_cluster,
    ;
    assert(g.heap_lba(c) == l.lba(c));
    assert(k < layout::parts(l.bitmap_bytes(), 512));
    lemma_formatted(media, l, (l.lba(3) + k) as u64);
    lemma_low_bits(l.reserved() - 8 * byte, bit);
    assert(512 * k + byte % 512 == byte);
}

/// As many clusters of a fresh volume are used as are reserved.
proof fn lemma_fresh_count(media: Media, l: VolumeLayout, v: Volume, n: nat)
    requires
        is_formattable(l),
        v@ == fresh_volume(l),
        n <= l.clusters,
    ensures
        allocation::used_count(v, formatted(media, l), n) == Some(
            if n < l.reserved() {
                n
            } else {
                l.reserved() as nat
            },
        ),
    decreases n,
{
    layout::lemma_sizes(l);
    if n > 0 {
        lemma_fresh_count(media, l, v, (n - 1) as nat);
        lemma_fresh_used(media, l, v, n as int + 1);
    }
}

/// A device that was formatted mounts, whatever it held before: the volume
/// spans everything behind the first sector, has no label, and all its
/// clusters are free but those of root directory, bitmap and UpCase table. What
/// mounting reads is set apart, so that it mounts again once it was changed.
#[verifier::rlimit(20)]
pub proof fn law_formatted_device_mounts<E>(
    media: Media,
    total: u64,
    format_scratch: nat,
    mount_scratch: nat,
    l: VolumeLayout,
)
    requires
        layout::format_layout::<E>(512, total, format_scratch) == Ok::<VolumeLayout, Error<E>>(l),
        mount_scratch >= 512,
    ensures
        fs_mount::mount_result::<E>(
            device::applied(media, layout::format_run::<E>(512, total, format_scratch)),
            512,
            total,
            mount_scratch,
        ) == Ok::<(VolumeModel, u32), Error<E>>(
            (fresh_volume(l), (l.clusters - l.reserved()) as u32),
        ),
        l.sectors == total - 1,
        remounting::is_set_apart(
            fresh_geometry(l),
            device::applied(media, layout::format_run::<E>(512, total, format_scratch)),
            total,
        ),
{
    let sectors = (total - 1) as u64;
    layout::lemma_layout(sectors, layout::cluster_sectors_for(sectors), 1, 8);
    layout::lemma_sizes(l);
    layout::lemma_places(l);
    let after = formatted(media, l);
    let model = fresh_volume(l);
    lemma_partition::<E>(media, l, total);
    lemma_boot::<E>(media, l);
    lemma_fresh_root(media, l);
    lemma_fresh_upcase(media, l);
    assert(volume::mount_result::<E>(after, 512, total, mount_scratch) == Ok::<
        VolumeModel,
        Error<E>,
    >(model));
    let v = fs_mount::volume_of(model);
    assert(exists|label: system::VolumeLabel| label@ == model.label) by {
        let any = system::VolumeLabel { units: arbitrary(), len: 0 };
        assert(any@ =~= model.label);
    }
    assert(v@ == model);
    lemma_fresh_count(media, l, v, l.clusters as nat);
}

/// The root directory of a device that was formatted lists nothing.
pub proof fn law_formatted_root_is_empty<E>(
    media: Media,
    total: u64,
    scratch_len: nat,
    l: VolumeLayout,
)
    requires
        layout::format_layout::<E>(512, total, scratch_len) == Ok::<VolumeLayout, Error<E>>(l),
    ensures
        listing::listing(
            fresh_geometry(l),
            device::applied(media, layout::format_run::<E>(512, total, scratch_len)),
            entry::root_model(fresh_geometry(l)),
        ) == (listing::Listing { entries: Seq::empty(), sound: true }),
{
    reveal(entry::DecoderModel::push);
    let sectors = (total - 1) as u64;
    layout::lemma_layout(sectors, layout::cluster_sectors_for(sectors), 1, 8);
    layout::lemma_sizes(l);
    layout::lemma_places(l);
    lemma_fresh_geometry(l);
    let g = fresh_geometry(l);
    let after = formatted(media, l);
    let lba = l.lba(2) as u64;
    lemma_formatted(media, l, lba);
    let all = fs_walk::directory_slots(g, after, entry::root_model(g));
    let p = fs_walk::layout_of(entry::root_model(g));
    let walk = fs_walk::walk_into(g, after, p, 2, 0, l.clusters as nat);
    assert(g.heap_lba(2) == l.lba(2));
    assert(walk.spans[0] == (slots::Span { lba, usable: 512 }));
    let here = slots::sector_slots(after, lba, 512);
    assert(all.slots == here + slots::span_slots(after, walk.spans.drop_first()));
    let sector = layout::root_image(l);
    assert(sector.len() == 512);
    let s0 = all.slots;
    let s1 = s0.drop_first();
    let s2 = s1.drop_first();
    assert(s0[0] == slots::slot_at(after, lba, 0));
    assert(s1[0] == slots::slot_at(after, lba, 1));
    assert(s2[0] == slots::slot_at(after, lba, 2));
    assert(s0[0].raw[0] == 0x81);
    assert(s1[0].raw[0] == 0x82);
    assert(s2[0].raw[0] == 0);
    let idle = entry::idle_decoder();
    assert(idle.push(s0[0].raw, s0[0].at) == (idle, Some(None::<entry::EntryModel>)));
    assert(idle.push(s1[0].raw, s1[0].at) == (idle, Some(None::<entry::EntryModel>)));
    assert(listing::listing_from(s2, all.end, idle) == (listing::Listing {
        entries: Seq::empty(),
        sound: true,
    }));
    assert(listing::listing_from(s1, all.end, idle) == listing::listing_from(s2, all.end, idle));
    assert(listing::listing_from(s0, all.end, idle) == listing::listing_from(s1, all.end, idle));
}

/// What the formatter writes are whole sectors.
proof fn lemma_image_size(l: VolumeLayout, lba: int)
    requires
        0 <= lba,
    ensures
        layout::image(l, lba).len() == 512,
{
    lemma_boot_fields(l);
    lemma_root_image(l);
}

/// The table's chain, as a stream's clusters are found.
proof fn lemma_fresh_table_chain(media: Media, l: VolumeLayout, i: nat)
    requires
        is_formattable(l),
        i < l.upcase_clusters(),
    ensures
        allocation::chain_at(
            fresh_geometry(l),
            formatted(media, l),
            l.upcase_cluster() as u32,
            i,
        ) == Some((l.upcase_cluster() + i) as u32),
    decreases i,
{
    layout::lemma_sizes(l);
    lemma_fresh_geometry(l);
    if i > 0 {
        lemma_fresh_table_chain(media, l, (i - 1) as nat);
        lemma_fresh_fat(media, l, (l.upcase_cluster() + i - 1) as u32);
    }
}

/// The root directory of a fresh volume is one cluster.
proof fn lemma_root_chain(media: Media, l: VolumeLayout, v: Volume)
    requires
        is_formattable(l),
        v@ == fresh_volume(l),
        regions::apart(fresh_geometry(l)),
    ensures
        ({
            let g = fresh_geometry(l);
            let after = formatted(media, l);
            let root = entry::root_model(g);
            &&& extents::is_chain(v, after, root, 1)
            &&& extents::link(g, after, root, 0) == 2
            &&& directories::homes(g, after, root) == set![2u32]
        }),
{
    let g = fresh_geometry(l);
    let after = formatted(media, l);
    let root = entry::root_model(g);
    layout::lemma_sizes(l);
    lemma_fresh_geometry(l);
    assert(v.geometry == g);
    lemma_fresh_fat(media, l, 2);
    lemma_fresh_used(media, l, v, 2);
    lemma_root_plain(media, l, v);
    assert(extents::is_chain(v, after, root, 1)) by {
        reveal(extents::is_chain);
        assert(allocation::chain_at(g, after, 2, 0) == Some(2u32));
        assert(extents::link(g, after, root, 0) == 2);
    }
    assert(extents::link(g, after, root, 0) == 2);
    extents::lemma_chain_homes(v, after, root, 1);
    assert(directories::homes(g, after, root) =~= set![2u32]);
}

/// A cluster of a fresh volume is one of the bitmap, or of the UpCase table, if
/// it lies where the formatter puts them.
proof fn lemma_system_clusters(media: Media, l: VolumeLayout, v: Volume, c: u32)
    requires
        is_formattable(l),
        v@ == fresh_volume(l),
    ensures
        regions::is_bitmap(v, formatted(media, l), c) == (3 <= c < l.upcase_cluster()),
        regions::is_table(v, formatted(media, l), c) == (l.upcase_cluster() <= c < l.reserved()
            + 2),
{
    reveal(regions::in_chain);
    let g = fresh_geometry(l);
    let after = formatted(media, l);
    let cb = g.cluster_bytes();
    let table = l.upcase_cluster() as u32;
    layout::lemma_sizes(l);
    lemma_fresh_geometry(l);
    assert(v.geometry == g && v.bitmap == fresh_volume(l).bitmap && v.upcase
        == fresh_volume(l).upcase);
    assert forall|i: int| 0 <= i && i * cb < l.bitmap_bytes() implies
        #[trigger] allocation::cluster_of(g, after, 3, i) == Some((3 + i) as u32) && i
        < l.bitmap_clusters() by {
        if i >= l.bitmap_clusters() {
            arith::lemma_scaled(l.bitmap_clusters(), i, cb);
        }
        lemma_fresh_chain(media, l, i as nat);
    }
    assert forall|i: int| 0 <= i && i * cb < UPCASE_BYTES implies
        #[trigger] allocation::cluster_of(g, after, table, i) == Some((table + i) as u32) && i
        < l.upcase_clusters() by {
        if i >= l.upcase_clusters() {
            arith::lemma_scaled(l.upcase_clusters(), i, cb);
        }
        lemma_fresh_table_chain(media, l, i as nat);
    }
    if 3 <= c < l.upcase_cluster() {
        let i = c - 3;
        arith::lemma_scaled(i, l.bitmap_clusters() - 1, cb);
        vstd::arithmetic::div_mod::lemma_fundamental_div_mod(l.bitmap_bytes() + cb - 1, cb);
        vstd::arithmetic::mul::lemma_mul_is_commutative(cb, l.bitmap_clusters());
        vstd::arithmetic::mul::lemma_mul_is_distributive_sub_other_way(
            cb,
            l.bitmap_clusters(),
            1,
        );
        assert(allocation::cluster_of(g, after, 3, i) == Some(c));
    }
    if l.upcase_cluster() <= c < l.reserved() + 2 {
        let i = c - l.upcase_cluster();
        arith::lemma_scaled(i, l.upcase_clusters() - 1, cb);
        vstd::arithmetic::mul::lemma_mul_is_distributive_sub_other_way(
            cb,
            l.upcase_clusters(),
            1,
        );
        assert(allocation::cluster_of(g, after, table, i) == Some(c));
    }
}

/// A formatted volume is sound, as every mounted filesystem on it finds it: its
/// bitmap marks the root directory, itself and the UpCase table as used, and
/// nothing else.
pub proof fn law_formatted_volume_is_sound<E>(
    media: Media,
    total: u64,
    scratch_len: nat,
    l: VolumeLayout,
    v: Volume,
)
    requires
        layout::format_layout::<E>(512, total, scratch_len) == Ok::<VolumeLayout, Error<E>>(l),
        regions::sized(fresh_geometry(l), media),
        v@ == fresh_volume(l),
    ensures
        regions::sound(
            v,
            device::applied(media, layout::format_run::<E>(512, total, scratch_len)),
            (l.clusters - l.reserved()) as u32,
        ),
        ({
            let g = fresh_geometry(l);
            let m = device::applied(media, layout::format_run::<E>(512, total, scratch_len));
            forall|c: u32|
                g.in_heap(c) ==> #[trigger] allocation::is_used(v, m, c as int) == Some(
                    directories::homes(g, m, entry::root_model(g)).contains(c)
                        || regions::is_bitmap(v, m, c) || regions::is_table(v, m, c),
                )
        }),
{
    let sectors = (total - 1) as u64;
    layout::lemma_layout(sectors, layout::cluster_sectors_for(sectors), 1, 8);
    layout::lemma_sizes(l);
    lemma_fresh_geometry(l);
    let g = fresh_geometry(l);
    let after = formatted(media, l);
    let cb = g.cluster_bytes();
    assert(v.geometry == g && v.bitmap == fresh_volume(l).bitmap && v.upcase
        == fresh_volume(l).upcase);
    assert(regions::apart(g)) by {
        assert forall|c: u32| c < g.cluster_count + 2 implies #[trigger] g.fat_holds(c) by {
            lemma_fresh_fat(media, l, c);
        }
    }
    assert forall|lba: u64|
        g.partition.first_lba <= lba < g.partition.first_lba + g.partition.sector_count implies (
    #[trigger] after[lba]).len() == 512 by {
        lemma_formatted(media, l, lba);
        lemma_image_size(l, lba as int);
        assert(media[lba].len() == 512);
    }
    lemma_fresh_count(media, l, v, l.clusters as nat);
    assert forall|i: int| 0 <= i && i * cb < l.bitmap_bytes() implies
        #[trigger] allocation::cluster_of(g, after, 3, i) == Some((3 + i) as u32) && i
        < l.bitmap_clusters() by {
        if i >= l.bitmap_clusters() {
            arith::lemma_scaled(l.bitmap_clusters(), i, cb);
        }
        lemma_fresh_chain(media, l, i as nat);
    }
    let table = l.upcase_cluster() as u32;
    assert forall|i: int| 0 <= i && i * cb < UPCASE_BYTES implies
        #[trigger] allocation::cluster_of(g, after, table, i) == Some((table + i) as u32) && i
        < l.upcase_clusters() by {
        if i >= l.upcase_clusters() {
            arith::lemma_scaled(l.upcase_clusters(), i, cb);
        }
        lemma_fresh_table_chain(media, l, i as nat);
    }
    assert(regions::bitmap_sound(v, after)) by {
        reveal(regions::bitmap_sound);
        reveal(regions::in_chain);
        assert forall|c: u32| #[trigger] regions::is_bitmap(v, after, c) implies g.in_heap(c)
            && allocation::is_used(v, after, c as int) == Some(true) by {
            let i = choose|i: int|
                0 <= i && i * cb < l.bitmap_bytes() && #[trigger] allocation::cluster_of(
                    g,
                    after,
                    3,
                    i,
                ) == Some(c);
            lemma_fresh_used(media, l, v, c as int);
        }
        assert forall|c: u32| #[trigger] regions::is_table(v, after, c) implies g.in_heap(c)
            && !regions::is_bitmap(v, after, c) && allocation::is_used(v, after, c as int) == Some(true) by {
            let i = choose|i: int|
                0 <= i && i * cb < UPCASE_BYTES && #[trigger] allocation::cluster_of(
                    g,
                    after,
                    table,
                    i,
                ) == Some(c);
            lemma_fresh_used(media, l, v, c as int);
        }
    }
    lemma_root_chain(media, l, v);
    assert forall|c: u32| g.in_heap(c) implies #[trigger] allocation::is_used(v, after, c as int)
        == Some(
        directories::homes(g, after, entry::root_model(g)).contains(c) || regions::is_bitmap(
            v,
            after,
            c,
        ) || regions::is_table(v, after, c),
    ) by {
        lemma_fresh_used(media, l, v, c as int);
        lemma_system_clusters(media, l, v, c);
    }
}

/// Slots between sets, and then slots that were never used, are a tidy
/// directory.
proof fn lemma_head_tidy(a: Seq<Slot>, h: int)
    requires
        0 <= h <= a.len(),
        forall|k: int| 0 <= k < h ==> (#[trigger] a[k]).raw[0] != 0x85 && a[k].raw[0] != 0,
        forall|k: int| h <= k < a.len() ==> (#[trigger] a[k]).raw[0] == 0,
    ensures
        decoding::tidy(a),
{
    let idle = entry::idle_decoder();
    assert forall|k: nat| k <= a.len() && decoding::all_used(a, k as int) implies k <= h by {
        if k > h {
            assert(a[h].raw[0] == 0);
        }
    }
    assert forall|k: nat|
        k <= a.len() && decoding::all_used(a, k as int) && (k == a.len()
            || space::is_free(a[k as int])) implies (#[trigger] entries::after(
        idle,
        a,
        k,
    )).idle() by {
        expanding::lemma_idle_passed(idle, a, k);
    }
    assert forall|k: nat|
        k < a.len() && decoding::all_used(a, k as int + 1) implies #[trigger] entries::reply(
        idle,
        a,
        k,
    ) is Some by {
        assert(k + 1 <= h);
        expanding::lemma_idle_passed(idle, a, k + 1);
    }
}

/// The slots of a fresh root directory: those of bitmap and UpCase table, and
/// then slots that were never used.
proof fn lemma_root_slot(media: Media, l: VolumeLayout, k: int)
    requires
        is_formattable(l),
        0 <= k < slots::span_slots(
            formatted(media, l),
            slots::cluster_spans(fresh_geometry(l), 2),
        ).len(),
    ensures
        slots::span_slots(
            formatted(media, l),
            slots::cluster_spans(fresh_geometry(l), 2),
        )[k].raw[0] == if k == 0 {
            0x81u8
        } else if k == 1 {
            0x82u8
        } else {
            0u8
        },
{
    let g = fresh_geometry(l);
    let after = formatted(media, l);
    let spans = slots::cluster_spans(g, 2);
    layout::lemma_sizes(l);
    layout::lemma_places(l);
    lemma_fresh_geometry(l);
    assert(g.heap_lba(2) == l.lba(2));
    directories::lemma_slot_place(after, spans, k);
    expanding::lemma_whole_places(after, spans, 512, k);
    let (j, t) = directories::place_of(spans, k);
    assert(spans[j].lba == l.lba(2) + j);
    lemma_formatted(media, l, spans[j].lba);
    if j == 0 {
        vstd::arithmetic::div_mod::lemma_fundamental_div_mod(k, 16);
        assert(k == t);
        let sector = layout::root_image(l);
        assert(sector.len() == 512);
        assert(sector[32 * t] == if t == 0 {
            0x81u8
        } else if t == 1 {
            0x82u8
        } else {
            0u8
        });
    } else {
        assert(k >= 16);
        assert(after[spans[j].lba] == bytes::filled(512, 0));
    }
}

/// Files and directories can be created in the root directory of a freshly
/// formatted volume, which has one cluster and can grow.
pub proof fn law_formatted_root_takes_entries<E>(
    media: Media,
    total: u64,
    scratch_len: nat,
    l: VolumeLayout,
    v: Volume,
)
    requires
        layout::format_layout::<E>(512, total, scratch_len) == Ok::<VolumeLayout, Error<E>>(l),
        regions::sized(fresh_geometry(l), media),
        v@ == fresh_volume(l),
    ensures
        placing::is_dir_at::<E>(
            v,
            device::applied(media, layout::format_run::<E>(512, total, scratch_len)),
            Seq::empty(),
            entry::root_model(fresh_geometry(l)),
            1,
        ),
        extents::is_chain(
            v,
            device::applied(media, layout::format_run::<E>(512, total, scratch_len)),
            entry::root_model(fresh_geometry(l)),
            1,
        ),
{
    let sectors = (total - 1) as u64;
    layout::lemma_layout(sectors, layout::cluster_sectors_for(sectors), 1, 8);
    layout::lemma_sizes(l);
    lemma_fresh_geometry(l);
    law_formatted_volume_is_sound::<E>(media, total, scratch_len, l, v);
    let g = fresh_geometry(l);
    let after = formatted(media, l);
    let root = entry::root_model(g);
    assert(v.geometry == g);
    lemma_root_chain(media, l, v);
    extents::lemma_chain_housed(v, after, root, 1);
    extents::lemma_chain_longer(g, after, root, 0, 0);
    assert(extents::chain_spans(g, after, root, 0, 0) =~= Seq::empty());
    let spans = slots::cluster_spans(g, 2);
    assert(Seq::empty() + spans =~= spans);
    assert(extents::link(g, after, root, 0) == 2);
    let all = slots::span_slots(after, spans);
    assert(directories::slots_of(g, after, root) == all);
    expanding::lemma_whole_places(after, spans, 512, 0);
    assert(all.len() >= 16) by (nonlinear_arith)
        requires
            all.len() == spans.len() * 16,
            spans.len() >= 1,
    ;
    assert forall|k: int| 0 <= k < 2 implies (#[trigger] all[k]).raw[0] != 0x85 && all[k].raw[0]
        != 0 by {
        lemma_root_slot(media, l, k);
    }
    assert forall|k: int| 2 <= k < all.len() implies (#[trigger] all[k]).raw[0] == 0 by {
        lemma_root_slot(media, l, k);
    }
    lemma_head_tidy(all, 2);
}

/// The root directory has a cluster of its own.
proof fn lemma_root_plain(media: Media, l: VolumeLayout, v: Volume)
    requires
        is_formattable(l),
        v@ == fresh_volume(l),
    ensures
        regions::is_plain(v, formatted(media, l), 2),
{
    layout::lemma_sizes(l);
    lemma_fresh_geometry(l);
    lemma_system_clusters(media, l, v, 2);
}

/// A word of a fresh UpCase table.
#[verifier::rlimit(30)]
proof fn lemma_fresh_word(media: Media, l: VolumeLayout, v: Volume, code: int)
    requires
        is_formattable(l),
        v@ == fresh_volume(l),
        0 <= code < 0x1_0000,
    ensures
        names::upcase_word(v, formatted(media, l), 2 * code) == Some(
            names::ascii_upcase(code as u16),
        ),
{
    let g = fresh_geometry(l);
    let after = formatted(media, l);
    let per = l.per_cluster as int;
    let byte = 2 * code;
    let first = l.upcase_cluster();
    layout::lemma_sizes(l);
    layout::lemma_places(l);
    lemma_fresh_geometry(l);
    assert(v.geometry == g && v.upcase == fresh_volume(l).upcase);
    arith::lemma_stream_offset(byte, 512, per);
    let k = byte / 512;
    let q = k / per;
    let r = k % per;
    vstd::arithmetic::div_mod::lemma_fundamental_div_mod(k, per);
    assert(0 <= q < l.upcase_clusters()) by (nonlinear_arith)
        requires
            0 <= k < 256,
            per >= 1,
            q == k / per,
            l.upcase_clusters() * per == 256,
    ;
    assert(g.cluster_bytes() == 512 * per);
    lemma_fresh_table_chain(media, l, q as nat);
    let c = (first + q) as u32;
    allocation::lemma_place(g, c, byte);
    assert(l.lba(c as int) + r == l.lba(first) + k) by (nonlinear_arith)
        requires
            c == first + q,
            l.lba(c as int) == 1 + l.heap + (c - 2) * l.per_cluster,
            l.lba(first) == 1 + l.heap + (first - 2) * l.per_cluster,
            k == per * q + r,
            per == l.per_cluster,
    ;
    let lba = (l.lba(first) + k) as u64;
    lemma_formatted(media, l, lba);
    assert(g.heap_lba(c as int) == l.lba(c as int));
    assert(0 <= l.bitmap_clusters() * l.per_cluster) by (nonlinear_arith)
        requires
            0 <= l.bitmap_clusters(),
    ;
    let o = byte % 512;
    let image = layout::upcase_image(k);
    assert(after[lba] == image);
    assert(o % 2 == 0 && o + 2 <= 512);
    let unit = names::ascii_upcase(code as u16);
    assert(image[o] == (unit % 0x100) as u8);
    assert(image[o + 1] == (unit / 0x100) as u8) by {
        assert((byte + 1) / 2 == code && (byte + 1) % 2 == 1);
    }
    assert(names::upcase_word(v, after, byte) == Some(bytes::u16_at(image, o)));
}

/// A fresh UpCase table, read from the word of `code` on.
proof fn lemma_fresh_scan(media: Media, l: VolumeLayout, v: Volume, unit: u16, code: int)
    requires
        is_formattable(l),
        v@ == fresh_volume(l),
        0 <= code <= unit < 0xffff,
    ensures
        names::upcase_scan(v, formatted(media, l), unit, code, 2 * code) == Some(
            names::ascii_upcase(unit),
        ),
    decreases unit - code,
{
    lemma_fresh_word(media, l, v, code);
    if code < unit {
        lemma_fresh_scan(media, l, v, unit, code + 1);
    }
}

/// On a freshly formatted volume names ignore the case of ASCII letters and of
/// nothing else. The unit `0xffff`, which marks compressed ranges in the UpCase
/// table, has no mapping.
pub proof fn law_formatted_volume_folds_ascii<E>(
    media: Media,
    total: u64,
    scratch_len: nat,
    l: VolumeLayout,
    v: Volume,
    unit: u16,
)
    requires
        layout::format_layout::<E>(512, total, scratch_len) == Ok::<VolumeLayout, Error<E>>(l),
        v@ == fresh_volume(l),
        unit != 0xffff,
    ensures
        names::upcase(
            v,
            device::applied(media, layout::format_run::<E>(512, total, scratch_len)),
            unit,
        ) == Some(names::ascii_upcase(unit)),
{
    let sectors = (total - 1) as u64;
    layout::lemma_layout(sectors, layout::cluster_sectors_for(sectors), 1, 8);
    lemma_fresh_scan(media, l, v, unit, 0);
}

} // verus!
