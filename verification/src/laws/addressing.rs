//! Where clusters, table entries and the bytes of streams lie.

use crate::bytes;
use crate::device::Media;
use crate::directory::slots;
use crate::error::Error;
use crate::fs::allocation;
use crate::fs::file::FileModel;
use crate::fs::names;
use crate::fs::stream;
use crate::geometry::{AllocationBitmap, Geometry};
use crate::mount::Volume;
use vstd::prelude::*;

verus! {

/// The clusters lie one behind the other from the start of the heap, the first
/// of which has number 2, and none overlaps the next.
pub proof fn law_clusters_follow_each_other(g: Geometry, a: u32, b: u32)
    requires
        g.wf(),
        2 <= a < b < g.cluster_count + 2,
        b < u32::MAX,
    ensures
        g.lba_of(2) == Some((g.partition.first_lba + g.cluster_heap_offset) as u64),
        g.lba_of(a) is Some,
        g.lba_of(b) is Some,
        g.lba_of(b)->0 - g.lba_of(a)->0 == (b - a) * g.sectors_per_cluster,
        g.lba_of(a)->0 + g.sectors_per_cluster <= g.lba_of(b)->0,
        g.lba_of(b)->0 + g.sectors_per_cluster <= g.partition.first_lba
            + g.partition.sector_count,
        g.lba_of(0) is None,
        g.lba_of(1) is None,
{
    let c = g.sectors_per_cluster as int;
    assert((2 - 2) * c == 0 && (b - 2) * c - (a - 2) * c == (b - a) * c && (a - 2) * c + c <= (b
        - 2) * c && (b - 2) * c + c <= g.cluster_count * c && 0 <= (a - 2) * c)
        by (nonlinear_arith)
        requires
            2 <= a < b < g.cluster_count + 2,
            c >= 1,
    ;
    assert(g.heap_lba(b as int) <= u64::MAX);
    assert(g.heap_lba(2) == g.partition.first_lba + g.cluster_heap_offset + (2 - 2) * c);
}

/// The number of bytes of a cluster is that of a sector times the sectors of a
/// cluster.
pub proof fn law_cluster_size(g: Geometry)
    ensures
        g.cluster_bytes() == g.bytes_per_sector * g.sectors_per_cluster,
{
}

/// The FAT holds one word of four bytes for each cluster number, in order from
/// the start of its first sector.
pub proof fn law_fat_is_an_array_of_words(g: Geometry, media: Media, cluster: u32, lba: u64, at: int)
    requires
        g.wf(),
        lba >= g.partition.first_lba + g.fat_offset,
        0 <= at,
        at + 4 <= g.bytes_per_sector,
        (lba - g.partition.first_lba - g.fat_offset) * g.bytes_per_sector + at == 4 * cluster,
    ensures
        slots::fat_entry(g, media, cluster) == bytes::u32_at(media[lba], at),
        allocation::next_of(g, media, cluster) == if lba < g.partition.first_lba + g.fat_offset
            + g.fat_length {
            Some(bytes::u32_at(media[lba], at))
        } else {
            None
        },
{
    let size = g.bytes_per_sector as int;
    let k = lba - g.partition.first_lba - g.fat_offset;
    assert(cluster * 4 == size * k + at) by (nonlinear_arith)
        requires
            k * size + at == 4 * cluster,
    ;
    vstd::arithmetic::div_mod::lemma_fundamental_div_mod_converse(cluster * 4, size, k, at);
}

/// Whether `chain` holds the first clusters of a FAT-linked stream that starts at
/// `first`, all of them clusters of the heap.
pub open spec fn is_chain(g: Geometry, media: Media, first: u32, chain: Seq<u32>) -> bool {
    &&& 0 < chain.len() <= g.cluster_count
    &&& chain[0] == first
    &&& forall|i: int| 0 <= i < chain.len() ==> g.in_heap(#[trigger] chain[i])
    &&& forall|i: int|
        0 <= i < chain.len() - 1 ==> allocation::next_of(g, media, #[trigger] chain[i]) == Some(
            chain[i + 1],
        )
}

/// The sector of byte `byte` of a stream whose clusters are `chain`: as many
/// sectors into the cluster as the byte is whole sectors into the cluster.
pub open spec fn chain_lba(g: Geometry, chain: Seq<u32>, byte: int) -> int {
    let size = g.bytes_per_sector * g.sectors_per_cluster;
    g.partition.first_lba + g.cluster_heap_offset + (chain[byte / size] - 2)
        * g.sectors_per_cluster + byte % size / (g.bytes_per_sector as int)
}

/// The clusters of a chain, counted from any one of them.
proof fn lemma_chain_at(g: Geometry, media: Media, first: u32, chain: Seq<u32>, from: int, n: nat)
    requires
        is_chain(g, media, first, chain),
        0 <= from,
        from + n < chain.len(),
    ensures
        allocation::chain_at(g, media, chain[from], n) == Some(chain[from + n]),
    decreases n,
{
    if n > 0 {
        lemma_chain_at(g, media, first, chain, from, (n - 1) as nat);
        let before = chain[from + n - 1];
        assert(allocation::next_of(g, media, before) == Some(chain[from + n - 1 + 1]));
        assert(g.in_heap(chain[from + n]));
    }
}

/// Where a byte lies in its sector.
proof fn lemma_in_sector(g: Geometry, byte: int)
    requires
        g.wf(),
        0 <= byte,
    ensures
        g.cluster_bytes() > 0,
        byte % g.cluster_bytes() % g.bytes_per_sector as int == byte % g.bytes_per_sector as int,
        0 <= byte / g.cluster_bytes(),
        0 <= byte % g.cluster_bytes() / (g.bytes_per_sector as int) < g.sectors_per_cluster,
{
    let size = g.bytes_per_sector as int;
    let count = g.sectors_per_cluster as int;
    assert(size * count > 0) by (nonlinear_arith)
        requires
            size > 0,
            count > 0,
    ;
    vstd::arithmetic::div_mod::lemma_mod_mod(byte, size, count);
    vstd::arithmetic::div_mod::lemma_div_pos_is_pos(byte, size * count);
    vstd::arithmetic::div_mod::lemma_mod_division_less_than_divisor(byte, size * count);
    let within = byte % (size * count);
    assert(0 <= within / size < count) by (nonlinear_arith)
        requires
            0 <= within < size * count,
            size > 0,
    ;
}

/// The byte of a stream lies in the cluster of its chain that its number falls
/// into, and in that cluster as far from the start as the number says.
proof fn lemma_chain_place(g: Geometry, cluster: u32, chain: Seq<u32>, byte: int)
    requires
        g.wf(),
        0 <= byte,
        byte / g.cluster_bytes() < chain.len(),
        cluster == chain[byte / g.cluster_bytes()],
        g.in_heap(cluster),
    ensures
        allocation::place(g, Some(cluster), byte) == Some(
            (chain_lba(g, chain, byte) as u64, byte % g.bytes_per_sector as int),
        ),
{
    lemma_in_sector(g, byte);
}

/// A file's byte lies where its cluster chain and its number say, with or
/// without a remembered cluster: in the cluster of the chain that the number
/// falls into, and as far into it as the number is past the cluster's start. The
/// chain is the one that the FAT links, or a run of clusters one behind the
/// other where the file says so.
pub proof fn law_file_bytes_follow_the_chain(
    g: Geometry,
    media: Media,
    f: FileModel,
    chain: Seq<u32>,
    byte: int,
)
    requires
        g.wf(),
        0 <= byte,
        byte / g.cluster_bytes() < chain.len() <= g.cluster_count,
        f.no_fat_chain ==> forall|i: int|
            0 <= i < chain.len() ==> #[trigger] chain[i] == f.first_cluster + i && g.in_heap(
                chain[i],
            ),
        !f.no_fat_chain ==> is_chain(g, media, f.first_cluster, chain),
        match f.cache {
            Some((index, cluster)) => index < chain.len() && chain[index as int] == cluster,
            None => true,
        },
    ensures
        stream::file_place(g, media, f, byte) == Some(
            (chain_lba(g, chain, byte) as u64, byte % g.bytes_per_sector as int),
        ),
        stream::file_byte(g, media, f, byte) == media[chain_lba(g, chain, byte) as u64][byte
            % g.bytes_per_sector as int],
{
    lemma_in_sector(g, byte);
    let k = byte / g.cluster_bytes();
    assert(g.in_heap(chain[k]));
    if !f.no_fat_chain {
        let (index, cluster) = stream::resume_at(f, k);
        assert(chain[index] == cluster);
        lemma_chain_at(g, media, f.first_cluster, chain, index, (k - index) as nat);
        assert(g.in_heap(chain[index]));
    }
    lemma_chain_place(g, chain[k], chain, byte);
}

/// A word of the UpCase table lies where the chain of the table and its number
/// say, low byte first, and no word lies in two sectors.
pub proof fn law_table_words_follow_the_chain(v: Volume, media: Media, chain: Seq<u32>, byte: int)
    requires
        v.geometry.wf(),
        0 <= byte,
        byte / v.geometry.cluster_bytes() < chain.len(),
        is_chain(v.geometry, media, v.upcase.first_cluster, chain),
    ensures
        byte % 2 == 0 ==> byte % v.geometry.bytes_per_sector as int + 2
            <= v.geometry.bytes_per_sector,
        names::upcase_word(v, media, byte) == if byte + 2 <= v.upcase.byte_length && byte
            % v.geometry.bytes_per_sector as int + 2 <= v.geometry.bytes_per_sector {
            Some(
                bytes::u16_at(
                    media[chain_lba(v.geometry, chain, byte) as u64],
                    byte % v.geometry.bytes_per_sector as int,
                ),
            )
        } else {
            None
        },
{
    let g = v.geometry;
    lemma_in_sector(g, byte);
    let k = byte / g.cluster_bytes();
    assert(g.in_heap(chain[k]));
    lemma_chain_at(g, media, v.upcase.first_cluster, chain, 0, k as nat);
    lemma_chain_place(g, chain[k], chain, byte);
    if byte % 2 == 0 {
        let size = g.bytes_per_sector as int;
        if size == 512 {
            assert(byte % 512 % 2 == 0);
        } else if size == 1024 {
            assert(byte % 1024 % 2 == 0);
        } else if size == 2048 {
            assert(byte % 2048 % 2 == 0);
        } else {
            assert(byte % 4096 % 2 == 0);
        }
    }
}

/// A bit of a byte, by arithmetic.
proof fn lemma_bit(byte: u8, bit: u8)
    requires
        bit < 8,
    ensures
        allocation::bit_set(byte, bit) <==> byte as int / vstd::arithmetic::power2::pow2(
            bit as nat,
        ) as int % 2 == 1,
{
    vstd::arithmetic::power2::lemma2_to64();
    assert((byte & (1u8 << bit) != 0) <==> ((bit == 0 ==> byte % 2 == 1) && (bit == 1 ==> byte / 2
        % 2 == 1) && (bit == 2 ==> byte / 4 % 2 == 1) && (bit == 3 ==> byte / 8 % 2 == 1) && (bit
        == 4 ==> byte / 16 % 2 == 1) && (bit == 5 ==> byte / 32 % 2 == 1) && (bit == 6 ==> byte
        / 64 % 2 == 1) && (bit == 7 ==> byte / 128 % 2 == 1))) by (bit_vector)
        requires
            bit < 8,
    ;
    let weight = vstd::arithmetic::power2::pow2(bit as nat) as int;
    if bit < 4 {
        assert(bit == 0 && weight == 1 || bit == 1 && weight == 2 || bit == 2 && weight == 4 || bit
            == 3 && weight == 8);
    } else {
        assert(bit == 4 && weight == 16 || bit == 5 && weight == 32 || bit == 6 && weight == 64
            || bit == 7 && weight == 128);
    }
}

/// A cluster is in use where its bit of the allocation bitmap is set: cluster 2
/// has the lowest bit of the first byte, eight clusters share a byte, and the
/// bytes follow the chain of the bitmap.
pub proof fn law_bitmap_has_a_bit_for_each_cluster(
    v: Volume,
    media: Media,
    chain: Seq<u32>,
    cluster: int,
)
    requires
        v.geometry.wf(),
        2 <= cluster,
        (cluster - 2) / 8 < v.bitmap.byte_length,
        (cluster - 2) / 8 / v.geometry.cluster_bytes() < chain.len(),
        is_chain(v.geometry, media, v.bitmap.first_cluster, chain),
    ensures
        ({
            let byte = (cluster - 2) / 8;
            let held = media[chain_lba(v.geometry, chain, byte) as u64][byte
                % v.geometry.bytes_per_sector as int] as int;
            let weight = vstd::arithmetic::power2::pow2(((cluster - 2) % 8) as nat) as int;
            allocation::is_used(v, media, cluster) == Some(held / weight % 2 == 1)
        }),
{
    let g = v.geometry;
    let byte = (cluster - 2) / 8;
    lemma_in_sector(g, byte);
    let k = byte / g.cluster_bytes();
    assert(g.in_heap(chain[k]));
    lemma_chain_at(g, media, v.bitmap.first_cluster, chain, 0, k as nat);
    lemma_chain_place(g, chain[k], chain, byte);
    let held = media[chain_lba(g, chain, byte) as u64][byte % g.bytes_per_sector as int];
    lemma_bit(held, ((cluster - 2) % 8) as u8);
}

/// The place that a bitmap names for a cluster: eight clusters to a byte, from
/// cluster 2 on, and none beyond its length.
pub proof fn law_bitmap_positions(bitmap: AllocationBitmap, cluster: u32)
    ensures
        match bitmap.position(cluster) {
            Some((byte, bit)) => bit < 8 && byte < bitmap.byte_length && cluster == 2 + 8 * byte
                + bit,
            None => cluster < 2 || cluster >= 2 + 8 * bitmap.byte_length,
        },
{
}

/// A chain that cannot be followed leads nowhere.
proof fn lemma_chain_broken(
    g: Geometry,
    media: Media,
    first: u32,
    chain: Seq<u32>,
    from: int,
    n: nat,
)
    requires
        is_chain(g, media, first, chain),
        match allocation::next_of(g, media, chain.last()) {
            Some(next) => !g.in_heap(next),
            None => true,
        },
        0 <= from < chain.len(),
        from + n >= chain.len(),
    ensures
        allocation::chain_at(g, media, chain[from], n) is None,
    decreases n,
{
    if from + n == chain.len() {
        lemma_chain_at(g, media, first, chain, from, (n - 1) as nat);
        assert(chain[from + (n - 1)] == chain.last());
    } else {
        lemma_chain_broken(g, media, first, chain, from, (n - 1) as nat);
    }
}

/// Behind the last cluster of a chain a file has no bytes: where the FAT leads to
/// no cluster of the heap, or the clusters one behind the other leave the heap,
/// there is no place for a byte.
pub proof fn law_no_byte_behind_the_chain(
    g: Geometry,
    media: Media,
    f: FileModel,
    chain: Seq<u32>,
    byte: int,
)
    requires
        g.wf(),
        0 <= byte,
        byte / g.cluster_bytes() >= chain.len(),
        f.no_fat_chain ==> f.first_cluster + byte / g.cluster_bytes() >= g.cluster_count + 2,
        !f.no_fat_chain ==> is_chain(g, media, f.first_cluster, chain) && match allocation::next_of(
            g,
            media,
            chain.last(),
        ) {
            Some(next) => !g.in_heap(next),
            None => true,
        },
        match f.cache {
            Some((index, cluster)) => index < chain.len() && chain[index as int] == cluster,
            None => true,
        },
    ensures
        stream::file_place(g, media, f, byte) is None,
{
    let k = byte / g.cluster_bytes();
    if !f.no_fat_chain && 0 <= k < g.cluster_count {
        let (index, cluster) = stream::resume_at(f, k);
        assert(chain[index] == cluster);
        lemma_chain_broken(g, media, f.first_cluster, chain, index, (k - index) as nat);
    }
}

/// Recording a value in the FAT writes one sector: the word of the cluster has the
/// value, low byte first, and every other byte of the sector is as it was.
pub proof fn law_fat_write_changes_one_word<E>(
    v: Volume,
    media: Media,
    free: u32,
    cluster: u32,
    value: u32,
    i: int,
)
    requires
        v.geometry.wf(),
        0 <= i < v.geometry.bytes_per_sector,
        media[v.geometry.fat_lba(cluster)].len() == v.geometry.bytes_per_sector,
    ensures
        ({
            let g = v.geometry;
            let plan = allocation::set_fat_plan::<E>(v, media, free, cluster, value);
            let at = cluster * 4 % (g.bytes_per_sector as int);
            let write = plan.writes[0];
            &&& plan.result is Ok
            &&& plan.free == free
            &&& plan.counts == seq![free]
            &&& plan.writes.len() == 1
            &&& write.lba == g.partition.first_lba + g.fat_offset + cluster * 4 / (
            g.bytes_per_sector as int)
            &&& write.data.len() == g.bytes_per_sector
            &&& bytes::u32_at(write.data, at) == value
            &&& !(at <= i < at + 4) ==> write.data[i] == media[write.lba][i]
        }),
{
    let g = v.geometry;
    g.lemma_fat_byte(cluster);
    let at = g.fat_byte(cluster);
    let data = bytes::splice(media[g.fat_lba(cluster)], at, bytes::le32(value));
    assert(data.subrange(at, at + 4) =~= bytes::le32(value));
    bytes::lemma_le32_reads_back(data, at, value);
}

/// A byte with one bit set or cleared, by arithmetic.
proof fn lemma_with_bit(byte: u8, bit: u8, other: u8, used: bool)
    requires
        bit < 8,
        other < 8,
    ensures
        allocation::bit_set(allocation::with_bit(byte, bit, used), other) == if other == bit {
            used
        } else {
            allocation::bit_set(byte, other)
        },
{
    if used {
        assert(((byte | (1u8 << bit)) & (1u8 << other) != 0) == (other == bit || byte & (1u8
            << other) != 0)) by (bit_vector)
            requires
                bit < 8,
                other < 8,
        ;
    } else {
        assert(((byte & !(1u8 << bit)) & (1u8 << other) != 0) == (other != bit && byte & (1u8
            << other) != 0)) by (bit_vector)
            requires
                bit < 8,
                other < 8,
        ;
    }
}

/// Marking a cluster in the allocation bitmap changes one bit and the count of
/// free clusters by one, and nothing where the bit is so already. It is refused
/// where the count would leave its range, and where the bitmap has no bit for the
/// cluster.
pub proof fn law_marking_changes_one_bit<E>(
    v: Volume,
    media: Media,
    free: u32,
    cluster: u32,
    used: bool,
    i: int,
    bit: u8,
)
    requires
        bit < 8,
    ensures
        ({
            let plan = allocation::set_bitmap_plan::<E>(v, media, free, cluster, used);
            match allocation::bitmap_slot(v, media, cluster as int) {
                None => plan.result == Err::<(), Error<E>>(Error::Corrupt)
                        && plan.writes.len() == 0 && plan.free == free,
                Some((lba, at, own)) => {
                    let sector = media[lba];
                    if allocation::is_used(v, media, cluster as int) == Some(used) {
                        plan.result is Ok && plan.writes.len() == 0 && plan.free == free
                    } else if used && free == 0 || !used && free >= v.geometry.cluster_count {
                        plan.result == Err::<(), Error<E>>(Error::Corrupt)
                        && plan.writes.len() == 0 && plan.free == free
                    } else {
                        &&& plan.result is Ok
                        &&& plan.free == if used {
                            free - 1
                        } else {
                            free + 1
                        }
                        &&& plan.writes.len() == 1
                        &&& plan.counts == seq![plan.free]
                        &&& plan.writes[0].lba == lba
                        &&& 0 <= at < sector.len() ==> {
                            let data = plan.writes[0].data;
                            &&& data.len() == sector.len()
                            &&& 0 <= i < sector.len() && i != at ==> data[i] == sector[i]
                            &&& allocation::bit_set(data[at], bit) == if bit == own {
                                used
                            } else {
                                allocation::bit_set(sector[at], bit)
                            }
                        }
                    }
                },
            }
        }),
{
    if let Some((lba, at, own)) = allocation::bitmap_slot(v, media, cluster as int) {
        assert(own < 8);
        lemma_with_bit(media[lba][at], own, bit, used);
    }
}

/// The bitmap has no bit for a cluster number below 2, nor for one beyond its
/// length.
pub proof fn law_no_bit_beyond_the_bitmap(v: Volume, media: Media, cluster: int)
    requires
        cluster < 2 || cluster >= 2 + 8 * v.bitmap.byte_length,
    ensures
        allocation::is_used(v, media, cluster) is None,
{
}

/// No chain is followed further than a volume has clusters, so that one that turns
/// back on itself comes to an end.
pub proof fn law_chains_are_limited(g: Geometry, media: Media, first: u32, i: int)
    requires
        i < 0 || i >= g.cluster_count,
    ensures
        allocation::cluster_of(g, media, first, i) is None,
{
}

} // verus!
