//! What a format leaves on the media, byte by byte.

use crate::bytes;
use crate::device;
use crate::device::Media;
use crate::error::Error;
use crate::format::layout;
use crate::format::layout::VolumeLayout;
use crate::fs::allocation;
use crate::laws::booting;
use crate::laws::fresh;
use vstd::prelude::*;

verus! {

/// The media that a format of a device with `total` sectors leaves.
pub open spec fn after_format<E>(media: Media, total: u64, scratch_len: nat) -> Media {
    device::applied(media, layout::format_run::<E>(512, total, scratch_len))
}

/// The layout of a format that was carried out.
proof fn lemma_carried_out<E>(media: Media, total: u64, scratch_len: nat) -> (l: VolumeLayout)
    requires
        layout::format_result::<E>(512, total, scratch_len) is Ok,
    ensures
        fresh::is_formattable(l),
        l.sectors == total - 1,
        after_format::<E>(media, total, scratch_len) == fresh::formatted(media, l),
        layout::format_layout::<E>(512, total, scratch_len) == Ok::<VolumeLayout, Error<E>>(l),
{
    let l = layout::format_layout::<E>(512, total, scratch_len)->Ok_0;
    let sectors = (total - 1) as u64;
    layout::lemma_layout(sectors, layout::cluster_sectors_for(sectors), 1, 8);
    l
}

/// Which devices are refused, and how: those without sectors of 512 bytes, those
/// for which the scratch storage is too small, and those of 536 sectors or fewer
/// or with a partition of more than `u32::MAX` sectors. For any other the only
/// error is that nothing that fits was found.
pub proof fn law_format_refusals<E>(sector_size: usize, total: u64, scratch_len: nat)
    ensures
        ({
            let result = layout::format_result::<E>(sector_size, total, scratch_len);
            if sector_size != 512 {
                result == Err::<(), Error<E>>(Error::UnsupportedSectorSize)
            } else if scratch_len < 512 {
                result == Err::<(), Error<E>>(Error::InvalidSectorSize)
            } else if total <= 536 || total > 0x1_0000_0000 {
                result == Err::<(), Error<E>>(Error::InvalidPartitionTable)
            } else {
                result == Ok::<(), Error<E>>(()) || result == Err::<(), Error<E>>(Error::Corrupt)
            }
        }),
        layout::format_result::<E>(sector_size, total, scratch_len) is Err
            ==> layout::format_run::<E>(sector_size, total, scratch_len).len() == 0,
{
}

/// The first sector of a formatted device holds a partition table with one entry
/// of type 7 for all the sectors behind it, and nothing else.
pub proof fn law_formatted_partition_table<E>(media: Media, total: u64, scratch_len: nat)
    requires
        layout::format_result::<E>(512, total, scratch_len) is Ok,
    ensures
        ({
            let sector = after_format::<E>(media, total, scratch_len)[0];
            &&& sector.len() == 512
            &&& forall|i: int| 0 <= i < 450 ==> #[trigger] sector[i] == 0
            &&& sector[450] == 7
            &&& sector[451] == 0 && sector[452] == 0 && sector[453] == 0
            &&& bytes::u32_at(sector, 454) == 1
            &&& bytes::u32_at(sector, 458) == total - 1
            &&& forall|i: int| 462 <= i < 510 ==> #[trigger] sector[i] == 0
            &&& sector[510] == 0x55
            &&& sector[511] == 0xaa
        }),
{
    let l = lemma_carried_out::<E>(media, total, scratch_len);
    layout::lemma_sizes(l);
    layout::lemma_places(l);
    fresh::lemma_formatted(media, l, 0);
    let sector = layout::mbr_image(l);
    assert(sector.subrange(454, 458) =~= bytes::le32(1));
    bytes::lemma_le32_reads_back(sector, 454, 1);
    assert(sector.subrange(458, 462) =~= bytes::le32(l.sectors as u32));
    bytes::lemma_le32_reads_back(sector, 458, l.sectors as u32);
}

/// Each byte of a boot sector.
proof fn lemma_boot_bytes(l: VolumeLayout)
    ensures
        ({
            let sector = layout::boot_image(l, 0);
            &&& sector.len() == 512
            &&& sector[0] == 0xeb && sector[1] == 0x76 && sector[2] == 0x90
            &&& booting::is_named(sector)
            &&& forall|i: int| 11 <= i < 64 ==> #[trigger] sector[i] == 0
            &&& bytes::u64_at(sector, 64) == 1
            &&& bytes::u64_at(sector, 72) == l.sectors
            &&& bytes::u32_at(sector, 80) == 24
            &&& bytes::u32_at(sector, 84) == l.fat
            &&& bytes::u32_at(sector, 88) == l.heap
            &&& bytes::u32_at(sector, 92) == l.clusters
            &&& bytes::u32_at(sector, 96) == 2
            &&& bytes::u32_at(sector, 100) == 0x5445_5359
            &&& bytes::u16_at(sector, 104) == 0x0100
            &&& bytes::u16_at(sector, 106) == 0
            &&& sector[108] == 9
            &&& sector[109] == layout::cluster_shift(l.per_cluster)
            &&& sector[110] == 1
            &&& sector[111] == 0x80
            &&& forall|i: int| 112 <= i < 120 ==> #[trigger] sector[i] == 0
            &&& forall|i: int| 120 <= i < 510 ==> #[trigger] sector[i] == 0xf4
        }),
{
    fresh::lemma_boot_fields(l);
    let sector = layout::boot_image(l, 0);
    let fields = layout::boot_fields(l);
    assert(fields.len() == 120);
    assert forall|i: int| 0 <= i < 120 implies #[trigger] sector[i] == fields[i] by {}
    assert(bytes::u64_at(sector, 64) == 1) by {
        assert(sector.subrange(64, 72) =~= bytes::le64(1));
        bytes::lemma_le64_reads_back(sector, 64, 1);
    }
    assert(bytes::u32_at(sector, 100) == 0x5445_5359) by {
        assert(sector.subrange(100, 104) =~= bytes::le32(0x5445_5359));
        bytes::lemma_le32_reads_back(sector, 100, 0x5445_5359);
    }
    assert(bytes::u16_at(sector, 104) == 0x0100) by {
        assert(sector.subrange(104, 106) =~= bytes::le16(0x0100));
        bytes::lemma_le16_reads_back(sector, 104, 0x0100);
    }
}

/// The boot sector of a formatted device, and its copy twelve sectors behind, byte
/// by byte: the jump, the name, zeros, the partition's offset and length, the
/// offset and length of the FAT, the offset and number of the clusters, the root
/// directory's cluster, the serial number, revision 1.00, clear flags, the
/// logarithms of the sizes, one FAT, the drive number, zeros, halt instructions
/// and the mark at the end.
pub proof fn law_formatted_boot_sector<E>(media: Media, total: u64, scratch_len: nat, lba: u64)
    requires
        layout::format_result::<E>(512, total, scratch_len) is Ok,
        lba == 1 || lba == 13,
    ensures
        ({
            let sector = after_format::<E>(media, total, scratch_len)[lba];
            &&& sector.len() == 512
            &&& sector[0] == 0xeb && sector[1] == 0x76 && sector[2] == 0x90
            &&& sector[3] == 0x45 && sector[4] == 0x58 && sector[5] == 0x46 && sector[6] == 0x41
            &&& sector[7] == 0x54 && sector[8] == 0x20 && sector[9] == 0x20 && sector[10] == 0x20
            &&& forall|i: int| 11 <= i < 64 ==> #[trigger] sector[i] == 0
            &&& bytes::u64_at(sector, 64) == 1
            &&& bytes::u64_at(sector, 72) == total - 1
            &&& bytes::u32_at(sector, 80) == 24
            &&& bytes::u32_at(sector, 88) == 24 + bytes::u32_at(sector, 84)
            &&& bytes::u32_at(sector, 96) == 2
            &&& bytes::u32_at(sector, 100) == 0x5445_5359
            &&& bytes::u16_at(sector, 104) == 0x0100
            &&& bytes::u16_at(sector, 106) == 0
            &&& sector[108] == 9
            &&& sector[109] == if total > 1_048_576 {
                6u8
            } else if total > 131_072 {
                4u8
            } else {
                0u8
            }
            &&& sector[110] == 1
            &&& sector[111] == 0x80
            &&& forall|i: int| 112 <= i < 120 ==> #[trigger] sector[i] == 0
            &&& forall|i: int| 120 <= i < 510 ==> #[trigger] sector[i] == 0xf4
            &&& sector[510] == 0x55
            &&& sector[511] == 0xaa
        }),
        after_format::<E>(media, total, scratch_len)[1] == after_format::<E>(
            media,
            total,
            scratch_len,
        )[13],
{
    let l = lemma_carried_out::<E>(media, total, scratch_len);
    layout::lemma_sizes(l);
    layout::lemma_places(l);
    fresh::lemma_formatted(media, l, 1);
    fresh::lemma_formatted(media, l, 13);
    lemma_boot_bytes(l);
}

/// Sectors of a cluster on a device with `total` sectors: 64 from 512 MiB on, 16
/// from 64 MiB on, and 1 below.
pub open spec fn cluster_size(total: u64) -> int {
    if total > 1_048_576 {
        64
    } else if total > 131_072 {
        16
    } else {
        1
    }
}

/// The sizes that the boot sector of a formatted device records fit together: the
/// clusters are as many as there is room for behind the FAT, and the FAT has just
/// the sectors that its words for them need.
pub proof fn law_formatted_sizes<E>(media: Media, total: u64, scratch_len: nat)
    requires
        layout::format_result::<E>(512, total, scratch_len) is Ok,
    ensures
        ({
            let sector = after_format::<E>(media, total, scratch_len)[1];
            let fat = bytes::u32_at(sector, 84) as int;
            let heap = bytes::u32_at(sector, 88) as int;
            let clusters = bytes::u32_at(sector, 92) as int;
            &&& 128 * (fat - 1) < clusters + 2 <= 128 * fat
            &&& heap + clusters * cluster_size(total) <= total - 1
            &&& total - 1 < heap + (clusters + 1) * cluster_size(total)
        }),
{
    let l = lemma_carried_out::<E>(media, total, scratch_len);
    layout::lemma_sizes(l);
    layout::lemma_places(l);
    fresh::lemma_formatted(media, l, 1);
    lemma_boot_bytes(l);
    let rest = l.sectors - 24 - l.fat;
    assert(l.per_cluster == cluster_size(total));
    if l.per_cluster == 64 {
        assert(l.clusters == rest / 64);
    } else if l.per_cluster == 16 {
        assert(l.clusters == rest / 16);
    } else {
        assert(l.clusters == rest / 1);
    }
}

/// The other sectors of the boot region of a formatted device, and their copies:
/// eight that hold nothing but the mark at the end, and two that hold nothing.
pub proof fn law_formatted_extended_sectors<E>(
    media: Media,
    total: u64,
    scratch_len: nat,
    k: u64,
    i: int,
)
    requires
        layout::format_result::<E>(512, total, scratch_len) is Ok,
        2 <= k <= 11,
        0 <= i < 512,
    ensures
        ({
            let after = after_format::<E>(media, total, scratch_len);
            &&& after[k].len() == 512
            &&& after[(k + 12) as u64] == after[k]
            &&& after[k][i] == if k <= 9 && i == 510 {
                0x55u8
            } else if k <= 9 && i == 511 {
                0xaau8
            } else {
                0u8
            }
        }),
{
    let l = lemma_carried_out::<E>(media, total, scratch_len);
    layout::lemma_sizes(l);
    layout::lemma_places(l);
    fresh::lemma_formatted(media, l, k);
    fresh::lemma_formatted(media, l, (k + 12) as u64);
}

/// The twelfth sector of both boot regions of a formatted device holds, in every
/// word, the checksum of the eleven before it.
pub proof fn law_formatted_checksum_sectors<E>(
    media: Media,
    total: u64,
    scratch_len: nat,
    i: int,
)
    requires
        layout::format_result::<E>(512, total, scratch_len) is Ok,
        0 <= i < 128,
    ensures
        ({
            let after = after_format::<E>(media, total, scratch_len);
            &&& after[12].len() == 512
            &&& after[24] == after[12]
            &&& bytes::u32_at(after[12], 4 * i) == bytes::sum32(0, booting::covered(after, 1, 11))
        }),
{
    let l = lemma_carried_out::<E>(media, total, scratch_len);
    layout::lemma_sizes(l);
    layout::lemma_places(l);
    fresh::lemma_formatted(media, l, 12);
    fresh::lemma_formatted(media, l, 24);
    let after = after_format::<E>(media, total, scratch_len);
    assert forall|n: int| 0 <= n < 11 implies #[trigger] after[(1 + n) as u64].len() == 512 by {
        fresh::lemma_formatted(media, l, (1 + n) as u64);
        lemma_boot_bytes(l);
    }
    fresh::lemma_boot_sum(media, l, 11);
    booting::lemma_boot_sum(after, 1, 512, 11);
    fresh::lemma_sealed(layout::boot_image_sum(l, 11));
    assert(bytes::u32_at(layout::checksum_image(layout::boot_image_sum(l, 11)), 4 * i)
        == layout::boot_image_sum(l, 11));
}

/// Clusters that `count` bytes take on a device with `total` sectors.
pub open spec fn clusters_of(count: int, total: u64) -> int {
    (count + 512 * cluster_size(total) - 1) / (512 * cluster_size(total))
}

/// The layout of a format that was carried out, as the boot sector records it.
proof fn lemma_read_layout<E>(media: Media, total: u64, scratch_len: nat) -> (l: VolumeLayout)
    requires
        layout::format_result::<E>(512, total, scratch_len) is Ok,
    ensures
        fresh::is_formattable(l),
        after_format::<E>(media, total, scratch_len) == fresh::formatted(media, l),
        layout::format_run::<E>(512, total, scratch_len) == layout::format_writes(l),
        bytes::u32_at(after_format::<E>(media, total, scratch_len)[1], 84) == l.fat,
        bytes::u32_at(after_format::<E>(media, total, scratch_len)[1], 92) == l.clusters,
        cluster_size(total) == l.per_cluster,
        (l.clusters + 7) / 8 == l.bitmap_bytes(),
        clusters_of((l.clusters + 7) / 8, total) == l.bitmap_clusters(),
        clusters_of(131_072, total) == l.upcase_clusters(),
{
    let l = lemma_carried_out::<E>(media, total, scratch_len);
    layout::lemma_sizes(l);
    layout::lemma_places(l);
    fresh::lemma_formatted(media, l, 1);
    lemma_boot_bytes(l);
    l
}

/// A word of the FAT.
proof fn lemma_fat_word(l: VolumeLayout, k: int, j: int)
    requires
        0 <= j < 128,
    ensures
        bytes::u32_at(layout::fat_image(l, k), 4 * j) == l.fat_value(128 * k + j),
{
    let sector = layout::fat_image(l, k);
    let value = l.fat_value(128 * k + j);
    assert(sector.subrange(4 * j, 4 * j + 4) =~= bytes::le32(value)) by {
        assert((4 * j) / 4 == j && (4 * j + 1) / 4 == j && (4 * j + 2) / 4 == j && (4 * j + 3) / 4
            == j);
        assert((4 * j) % 4 == 0 && (4 * j + 1) % 4 == 1 && (4 * j + 2) % 4 == 2 && (4 * j + 3) % 4
            == 3);
    }
    bytes::lemma_le32_reads_back(sector, 4 * j, value);
}

/// A word of the UpCase table.
proof fn lemma_table_word(k: int, j: int)
    requires
        0 <= k < 256,
        0 <= j < 256,
    ensures
        bytes::u16_at(layout::upcase_image(k), 2 * j) == if 97 <= 256 * k + j <= 122 {
            256 * k + j - 32
        } else {
            256 * k + j
        },
{
    let sector = layout::upcase_image(k);
    let unit = 256 * k + j;
    assert((512 * k + 2 * j) / 2 == unit && (512 * k + 2 * j) % 2 == 0);
    assert((512 * k + (2 * j + 1)) / 2 == unit && (512 * k + (2 * j + 1)) % 2 == 1);
    assert(sector[2 * j] == layout::upcase_byte(512 * k + 2 * j));
    assert(sector[2 * j + 1] == layout::upcase_byte(512 * k + (2 * j + 1)));
}

/// The bytes of the table, by another formula.
proof fn lemma_letters()
    ensures
        letters() == layout::upcase_bytes(),
{
    assert forall|i: int| 0 <= i < 131_072 implies #[trigger] letters()[i] == layout::upcase_byte(
        i,
    ) by {
        assert(0 <= i / 2 < 0x1_0000);
    }
    assert(letters() =~= layout::upcase_bytes());
}

/// Each byte of the root directory's first sector.
proof fn lemma_root_bytes(l: VolumeLayout)
    ensures
        ({
            let sector = layout::root_image(l);
            &&& sector.len() == 512
            &&& sector[0] == 0x81
            &&& bytes::u32_at(sector, 20) == 3
            &&& bytes::u64_at(sector, 24) == l.bitmap_bytes() as u64
            &&& sector[32] == 0x82
            &&& bytes::u32_at(sector, 36) == bytes::sum32(0, layout::upcase_bytes())
            &&& bytes::u32_at(sector, 52) == l.upcase_cluster() as u32
            &&& bytes::u64_at(sector, 56) == 131_072
            &&& forall|i: int|
                1 <= i < 20 || 33 <= i < 36 || 40 <= i < 52 || 64 <= i < 512 ==> #[trigger] sector[i]
                    == 0
        }),
{
    let sector = layout::root_image(l);
    let sum = bytes::sum32(0, layout::upcase_bytes());
    assert(bytes::u32_at(sector, 20) == 3) by {
        assert(sector.subrange(20, 24) =~= bytes::le32(3));
        bytes::lemma_le32_reads_back(sector, 20, 3);
    }
    assert(bytes::u64_at(sector, 24) == l.bitmap_bytes() as u64) by {
        assert(sector.subrange(24, 32) =~= bytes::le64(l.bitmap_bytes() as u64));
        bytes::lemma_le64_reads_back(sector, 24, l.bitmap_bytes() as u64);
    }
    assert(bytes::u32_at(sector, 36) == sum) by {
        assert(sector.subrange(36, 40) =~= bytes::le32(sum));
        bytes::lemma_le32_reads_back(sector, 36, sum);
    }
    assert(bytes::u32_at(sector, 52) == l.upcase_cluster() as u32) by {
        assert(sector.subrange(52, 56) =~= bytes::le32(l.upcase_cluster() as u32));
        bytes::lemma_le32_reads_back(sector, 52, l.upcase_cluster() as u32);
    }
    assert(bytes::u64_at(sector, 56) == 131_072) by {
        assert(sector.subrange(56, 64) =~= bytes::le64(131_072));
        bytes::lemma_le64_reads_back(sector, 56, 131_072);
    }
}

/// The FAT of a formatted device, word by word: the media type, an end mark, the
/// root directory in one cluster, the allocation bitmap from cluster 3 on, the
/// UpCase table behind it, each linked to its end, and zero for every other
/// cluster.
pub proof fn law_formatted_fat<E>(media: Media, total: u64, scratch_len: nat, c: int)
    requires
        layout::format_result::<E>(512, total, scratch_len) is Ok,
        0 <= c < 128 * bytes::u32_at(after_format::<E>(media, total, scratch_len)[1], 84),
    ensures
        ({
            let after = after_format::<E>(media, total, scratch_len);
            let clusters = bytes::u32_at(after[1], 92) as int;
            let table = 3 + clusters_of((clusters + 7) / 8, total);
            let end = table + clusters_of(131_072, total);
            let word = bytes::u32_at(after[(25 + c / 128) as u64], 4 * (c % 128));
            &&& c == 0 ==> word == 0xffff_fff8
            &&& c == 1 || c == 2 ==> word == 0xffff_ffff
            &&& 3 <= c < end ==> word == if c == table - 1 || c == end - 1 {
                0xffff_ffff
            } else {
                c + 1
            }
            &&& end <= c ==> word == 0
            &&& end <= clusters + 2
        }),
{
    let l = lemma_read_layout::<E>(media, total, scratch_len);
    layout::lemma_sizes(l);
    layout::lemma_places(l);
    let k = c / 128;
    let j = c % 128;
    fresh::lemma_formatted(media, l, (25 + k) as u64);
    lemma_fat_word(l, k, j);
}

/// The allocation bitmap of a formatted device, bit by bit: the clusters of the
/// root directory, the bitmap and the UpCase table are in use, and no other is.
pub proof fn law_formatted_bitmap<E>(media: Media, total: u64, scratch_len: nat, byte: int, bit: u8)
    requires
        layout::format_result::<E>(512, total, scratch_len) is Ok,
        0 <= byte,
        byte / 512 * 4096 < bytes::u32_at(after_format::<E>(media, total, scratch_len)[1], 92),
        bit < 8,
    ensures
        ({
            let after = after_format::<E>(media, total, scratch_len);
            let fat = bytes::u32_at(after[1], 84) as int;
            let clusters = bytes::u32_at(after[1], 92) as int;
            let used = 1 + clusters_of((clusters + 7) / 8, total) + clusters_of(131_072, total);
            let sector = after[(25 + fat + cluster_size(total) + byte / 512) as u64];
            allocation::bit_set(sector[byte % 512], bit) <==> 8 * byte + bit < used
        }),
{
    let l = lemma_read_layout::<E>(media, total, scratch_len);
    layout::lemma_sizes(l);
    layout::lemma_places(l);
    let k = byte / 512;
    fresh::lemma_formatted(media, l, (l.lba(3) + k) as u64);
    assert(layout::bitmap_image(l, k)[byte % 512] == layout::low_bits(l.reserved() - 8 * byte));
    fresh::lemma_low_bits(l.reserved() - 8 * byte, bit);
}

/// The UpCase table of a formatted device, word by word: the letters `a` to `z`
/// have the letter 32 codes before, and every other unit has itself.
pub proof fn law_formatted_table<E>(media: Media, total: u64, scratch_len: nat, unit: int)
    requires
        layout::format_result::<E>(512, total, scratch_len) is Ok,
        0 <= unit < 0x1_0000,
    ensures
        ({
            let after = after_format::<E>(media, total, scratch_len);
            let fat = bytes::u32_at(after[1], 84) as int;
            let clusters = bytes::u32_at(after[1], 92) as int;
            let first = 25 + fat + (1 + clusters_of((clusters + 7) / 8, total)) * cluster_size(
                total,
            );
            bytes::u16_at(after[(first + unit / 256) as u64], 2 * (unit % 256)) == if 97 <= unit
                <= 122 {
                unit - 32
            } else {
                unit
            }
        }),
{
    let l = lemma_read_layout::<E>(media, total, scratch_len);
    layout::lemma_sizes(l);
    layout::lemma_places(l);
    let k = unit / 256;
    let j = unit % 256;
    let count = l.bitmap_clusters();
    let per = cluster_size(total);
    assert((1 + count) * per == per + count * per) by (nonlinear_arith);
    let lba = l.lba(l.upcase_cluster()) + k;
    fresh::lemma_formatted(media, l, lba as u64);
    lemma_table_word(k, j);
}

/// The root directory of a formatted device, byte by byte: the entry of the
/// allocation bitmap, that of the UpCase table with its checksum, and zeros.
pub proof fn law_formatted_root<E>(media: Media, total: u64, scratch_len: nat, i: int)
    requires
        layout::format_result::<E>(512, total, scratch_len) is Ok,
        0 <= i < 512,
    ensures
        ({
            let after = after_format::<E>(media, total, scratch_len);
            let clusters = bytes::u32_at(after[1], 92) as int;
            let sector = after[(25 + bytes::u32_at(after[1], 84)) as u64];
            &&& sector.len() == 512
            &&& sector[0] == 0x81
            &&& bytes::u32_at(sector, 20) == 3
            &&& bytes::u64_at(sector, 24) == (clusters + 7) / 8
            &&& sector[32] == 0x82
            &&& bytes::u32_at(sector, 36) == bytes::sum32(0, letters())
            &&& bytes::u32_at(sector, 52) == 3 + clusters_of((clusters + 7) / 8, total)
            &&& bytes::u64_at(sector, 56) == 131_072
            &&& 1 <= i < 20 || 33 <= i < 36 || 40 <= i < 52 || 64 <= i ==> sector[i] == 0
            &&& forall|s: int|
                1 <= s < cluster_size(total) ==> #[trigger] after[(25 + bytes::u32_at(after[1], 84)
                    + s) as u64] == Seq::new(512, |j: int| 0u8)
        }),
{
    let l = lemma_read_layout::<E>(media, total, scratch_len);
    let after = after_format::<E>(media, total, scratch_len);
    layout::lemma_sizes(l);
    layout::lemma_places(l);
    fresh::lemma_formatted(media, l, l.lba(2) as u64);
    lemma_root_bytes(l);
    lemma_letters();
    assert forall|s: int| 1 <= s < cluster_size(total) implies #[trigger] after[(25
        + bytes::u32_at(after[1], 84) + s) as u64] == Seq::new(512, |j: int| 0u8) by {
        fresh::lemma_formatted(media, l, (l.lba(2) + s) as u64);
        assert(bytes::filled(512, 0) =~= Seq::new(512, |j: int| 0u8));
    }
}

/// The bytes of an UpCase table that has a word for every unit, low byte first,
/// and changes the letters `a` to `z` alone.
pub open spec fn letters() -> Seq<u8> {
    Seq::new(
        131_072,
        |i: int|
            {
                let unit = if 97 <= i / 2 <= 122 {
                    i / 2 - 32
                } else {
                    i / 2
                };
                if i % 2 == 0 {
                    (unit % 256) as u8
                } else {
                    (unit / 256) as u8
                }
            },
    )
}

/// A format leaves alone every sector behind the UpCase table, and those of the
/// bitmap's clusters that no bit of it lies in.
pub proof fn law_format_leaves_the_rest_alone<E>(
    media: Media,
    total: u64,
    scratch_len: nat,
    lba: u64,
)
    requires
        layout::format_result::<E>(512, total, scratch_len) is Ok,
        ({
            let after = after_format::<E>(media, total, scratch_len);
            let clusters = bytes::u32_at(after[1], 92) as int;
            let bitmap = 25 + bytes::u32_at(after[1], 84) + cluster_size(total);
            let table = 25 + bytes::u32_at(after[1], 84) + (1 + clusters_of(
                (clusters + 7) / 8,
                total,
            )) * cluster_size(total);
            lba >= table + 256 || bitmap + ((clusters + 7) / 8 + 511) / 512 <= lba < table
        }),
    ensures
        after_format::<E>(media, total, scratch_len)[lba] == media[lba],
{
    let l = lemma_read_layout::<E>(media, total, scratch_len);
    layout::lemma_sizes(l);
    layout::lemma_places(l);
    let count = l.bitmap_clusters();
    let per = cluster_size(total);
    assert((1 + count) * per == per + count * per) by (nonlinear_arith);
    fresh::lemma_formatted(media, l, lba);
}

/// The root directory is written last, so a format that was broken off leaves no
/// new directory behind.
pub proof fn law_root_is_formatted_last<E>(media: Media, total: u64, scratch_len: nat)
    requires
        layout::format_result::<E>(512, total, scratch_len) is Ok,
    ensures
        ({
            let writes = layout::format_run::<E>(512, total, scratch_len);
            let after = after_format::<E>(media, total, scratch_len);
            let root = 25 + bytes::u32_at(after[1], 84);
            &&& writes.len() > 0
            &&& writes.last().lba == root
            &&& forall|i: int|
                0 <= i < writes.len() - 1 ==> (#[trigger] writes[i]).lba != root
        }),
{
    let l = lemma_read_layout::<E>(media, total, scratch_len);
    layout::lemma_sizes(l);
    layout::lemma_places(l);
    let head = layout::image_run(l, 0, 25 + l.fat);
    let bitmap = layout::image_run(l, l.lba(3), layout::parts(l.bitmap_bytes(), 512));
    let table = layout::image_run(l, l.lba(l.upcase_cluster()), 256);
    let blank = layout::image_run(l, l.lba(2) + 1, l.per_cluster - 1);
    let root = layout::image_run(l, l.lba(2), 1);
    let before = head + bitmap + table + blank;
    let writes = layout::format_writes(l);
    assert(writes == before + root);
    assert(writes.last() == root[0]);
    assert forall|i: int| 0 <= i < writes.len() - 1 implies (#[trigger] writes[i]).lba != l.lba(
        2,
    ) by {
        assert(writes[i] == before[i]);
        let a = head.len() as int;
        let b = a + bitmap.len();
        let c = b + table.len();
        if i < a {
            assert(before[i] == head[i]);
        } else if i < b {
            assert(before[i] == bitmap[i - a]);
        } else if i < c {
            assert(before[i] == table[i - b]);
        } else {
            assert(before[i] == blank[i - c]);
        }
    }
}

/// Sectors that the FAT needs where it takes `fat` sectors itself.
spec fn needed(sectors: u64, fat: int) -> int {
    layout::fat_sectors(
        layout::heap_clusters(sectors, layout::cluster_sectors_for(sectors), fat),
    )
}

/// A larger FAT leaves room for fewer clusters, but hardly for fewer words of its
/// own: where the two differ by `d` sectors, what they need differs by no more
/// than `d / 128` and one.
proof fn lemma_needed_close(sectors: u64, a: int, b: int)
    requires
        a <= b,
    ensures
        needed(sectors, b) <= needed(sectors, a) <= needed(sectors, b) + (b - a) / 128 + 1,
{
    let p = layout::cluster_sectors_for(sectors) as int;
    let x = sectors - 24 - a;
    let y = sectors - 24 - b;
    if p == 64 {
        assert(y / 64 <= x / 64 <= y / 64 + (b - a) / 64 + 1);
        lemma_words_close(x / 64, y / 64, b - a);
    } else if p == 16 {
        assert(y / 16 <= x / 16 <= y / 16 + (b - a) / 16 + 1);
        lemma_words_close(x / 16, y / 16, b - a);
    } else {
        assert(x / 1 == x && y / 1 == y);
        lemma_words_close(x, y, b - a);
    }
}

/// The sectors that close numbers of clusters need are close.
proof fn lemma_words_close(x: int, y: int, d: int)
    requires
        y <= x <= y + d || d >= 1 && y <= x <= y + d / 16 + 1,
        0 <= d,
    ensures
        layout::fat_sectors(y) <= layout::fat_sectors(x) <= layout::fat_sectors(y) + d / 128 + 1,
{
}

/// What a FAT needs is far less than a volume has.
proof fn lemma_needed_small(sectors: u64, fat: int)
    requires
        536 <= sectors <= u32::MAX,
        0 <= fat,
        24 + fat <= sectors,
    ensures
        1 <= needed(sectors, fat) <= 524_290,
        24 + needed(sectors, fat) + 1 <= sectors,
{
    let p = layout::cluster_sectors_for(sectors) as int;
    let rest = sectors - 24 - fat;
    if p == 64 {
        assert(needed(sectors, fat) == ((rest / 64 + 2) * 4 + 511) / 512);
    } else if p == 16 {
        assert(needed(sectors, fat) == ((rest / 16 + 2) * 4 + 511) / 512);
    } else {
        assert(rest / 1 == rest);
        assert(needed(sectors, fat) == ((rest + 2) * 4 + 511) / 512);
    }
}

/// The search for a layout ends at once where the FAT has the size it needs.
proof fn lemma_found_at_once(sectors: u64, goal: int, tries: nat)
    requires
        536 <= sectors <= u32::MAX,
        0 <= goal,
        24 + goal <= sectors,
        needed(sectors, goal) == goal,
        tries >= 1,
    ensures
        layout::layout_from(sectors, layout::cluster_sectors_for(sectors), goal, tries) is Some,
        layout::layout_from(
            sectors,
            layout::cluster_sectors_for(sectors),
            goal,
            tries,
        )->0.fat == goal,
{
    lemma_needed_small(sectors, goal);
}

/// The search goes on with the size that the FAT needs.
proof fn lemma_search_step(sectors: u64, fat: int, tries: nat)
    requires
        24 + fat <= sectors,
        tries >= 1,
        needed(sectors, fat) != fat,
    ensures
        layout::layout_from(sectors, layout::cluster_sectors_for(sectors), fat, tries)
            == layout::layout_from(
            sectors,
            layout::cluster_sectors_for(sectors),
            needed(sectors, fat),
            (tries - 1) as nat,
        ),
{
}

/// The search for a layout finds the one that there is from next to it.
proof fn lemma_found_nearby(sectors: u64, goal: int, fat: int, tries: nat)
    requires
        536 <= sectors <= u32::MAX,
        0 <= goal,
        24 + goal <= sectors,
        needed(sectors, goal) == goal,
        0 <= fat,
        24 + fat <= sectors,
        goal - 1 <= fat <= goal + 1,
        tries >= 3,
    ensures
        layout::layout_from(sectors, layout::cluster_sectors_for(sectors), fat, tries) is Some,
        layout::layout_from(
            sectors,
            layout::cluster_sectors_for(sectors),
            fat,
            tries,
        )->0.fat == goal,
{
    lemma_needed_small(sectors, goal);
    if fat == goal {
        lemma_found_at_once(sectors, goal, tries);
    } else {
        let next = needed(sectors, fat);
        if fat > goal {
            lemma_needed_close(sectors, goal, fat);
        } else {
            lemma_needed_close(sectors, fat, goal);
        }
        lemma_needed_small(sectors, fat);
        lemma_search_step(sectors, fat, tries);
        if next == goal {
            lemma_found_at_once(sectors, goal, (tries - 1) as nat);
        } else {
            if fat > goal {
                lemma_needed_close(sectors, goal - 1, goal);
                lemma_needed_close(sectors, goal - 1, fat);
            } else {
                lemma_needed_close(sectors, goal, goal + 1);
                lemma_needed_close(sectors, fat, goal + 1);
            }
            assert(needed(sectors, next) == goal);
            lemma_search_step(sectors, next, (tries - 1) as nat);
            lemma_found_at_once(sectors, goal, (tries - 2) as nat);
        }
    }
}

/// The search for a layout finds the one that there is from wherever it starts.
proof fn lemma_layout_found(sectors: u64, goal: int, fat: int, tries: nat)
    requires
        536 <= sectors <= u32::MAX,
        0 <= goal,
        24 + goal <= sectors,
        needed(sectors, goal) == goal,
        0 <= fat,
        24 + fat <= sectors,
        ({
            let d = if fat > goal {
                fat - goal
            } else {
                goal - fat
            };
            d <= 1 && tries >= 3 || d < 128 && tries >= 4 || d < 16_256 && tries >= 5 || d
                < 2_080_640 && tries >= 6
        }),
    ensures
        layout::layout_from(sectors, layout::cluster_sectors_for(sectors), fat, tries) is Some,
        layout::layout_from(
            sectors,
            layout::cluster_sectors_for(sectors),
            fat,
            tries,
        )->0.fat == goal,
    decreases tries,
{
    if goal - 1 <= fat <= goal + 1 {
        lemma_found_nearby(sectors, goal, fat, tries);
    } else {
        if fat > goal {
            lemma_needed_close(sectors, goal, fat);
        } else {
            lemma_needed_close(sectors, fat, goal);
        }
        lemma_needed_small(sectors, fat);
        lemma_search_step(sectors, fat, tries);
        lemma_layout_found(sectors, goal, needed(sectors, fat), (tries - 1) as nat);
    }
}

/// A format that was not refused for the device's size succeeds wherever it can:
/// where there is a length of the FAT that is just what the clusters behind it
/// need, and the root directory, the allocation bitmap and the UpCase table fit
/// those clusters, the device is formatted with it.
pub proof fn law_format_succeeds_where_it_can<E>(
    media: Media,
    total: u64,
    scratch_len: nat,
    fat: int,
)
    requires
        scratch_len >= 512,
        536 < total <= 0x1_0000_0000,
        ({
            let clusters = (total - 1 - 24 - fat) / cluster_size(total);
            &&& 0 < fat
            &&& 24 + fat <= total - 1
            &&& 128 * (fat - 1) < clusters + 2 <= 128 * fat
            &&& 1 + clusters_of((clusters + 7) / 8, total) + clusters_of(131_072, total)
                <= clusters
        }),
    ensures
        layout::format_result::<E>(512, total, scratch_len) is Ok,
        bytes::u32_at(after_format::<E>(media, total, scratch_len)[1], 84) == fat,
{
    let sectors = (total - 1) as u64;
    let clusters = (total - 1 - 24 - fat) / cluster_size(total);
    assert(layout::cluster_sectors_for(sectors) == cluster_size(total));
    assert(needed(sectors, fat) == fat);
    lemma_needed_small(sectors, fat);
    lemma_layout_found(sectors, fat, 1, 8);
    layout::lemma_layout(sectors, layout::cluster_sectors_for(sectors), 1, 8);
    let l = layout::layout_from(sectors, layout::cluster_sectors_for(sectors), 1, 8)->0;
    assert(l.clusters == clusters);
    assert(l.bitmap_bytes() == (clusters + 7) / 8);
    assert(l.fits());
    layout::lemma_sizes(l);
    layout::lemma_places(l);
    fresh::lemma_formatted(media, l, 1);
    lemma_boot_bytes(l);
}

} // verus!
