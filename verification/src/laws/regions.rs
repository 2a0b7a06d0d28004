//! The parts of a sound volume, and what a single metadata or data write does
//! to each of them.

use crate::arith;
use crate::device::Media;
use crate::directory::slots;
use crate::fs::allocation;
use crate::geometry::{Geometry, CHAIN_END};
use crate::mount::Volume;
use vstd::prelude::*;

verus! {

/// Whether a volume's FAT lies before its heap and has an entry for each of
/// its clusters, none of which has a number that ends a chain.
pub open spec fn apart(g: Geometry) -> bool {
    &&& g.wf()
    &&& g.cluster_count + 2 <= CHAIN_END
    &&& g.fat_offset + g.fat_length <= g.cluster_heap_offset
    &&& forall|c: u32| c < g.cluster_count + 2 ==> #[trigger] g.fat_holds(c)
}

/// Whether every sector of the partition has the sector size.
pub open spec fn sized(g: Geometry, media: Media) -> bool {
    forall|lba: u64|
        g.partition.first_lba <= lba < g.partition.first_lba + g.partition.sector_count
            ==> (#[trigger] media[lba]).len() == g.bytes_per_sector
}

/// The number of sector `s` of cluster `c`.
pub open spec fn sector_number(g: Geometry, c: u32, s: int) -> u64 {
    (g.heap_lba(c as int) + s) as u64
}

/// What sector `s` of cluster `c` holds.
pub open spec fn cluster_sector(g: Geometry, media: Media, c: u32, s: int) -> Seq<u8> {
    media[sector_number(g, c, s)]
}

/// Whether a cluster holds the same bytes.
pub open spec fn same_cluster(g: Geometry, m: Media, m2: Media, c: u32) -> bool {
    forall|s: int|
        0 <= s < g.sectors_per_cluster ==> #[trigger] cluster_sector(g, m2, c, s)
            == cluster_sector(g, m, c, s)
}

/// Whether `c` is a cluster of the chain for `length` bytes from `first` on.
#[verifier::opaque]
pub open spec fn in_chain(g: Geometry, media: Media, first: u32, length: int, c: u32) -> bool {
    exists|i: int|
        0 <= i && i * g.cluster_bytes() < length && #[trigger] allocation::cluster_of(
            g,
            media,
            first,
            i,
        ) == Some(c)
}

/// Whether `c` is a cluster of the allocation bitmap.
pub open spec fn is_bitmap(v: Volume, media: Media, c: u32) -> bool {
    in_chain(v.geometry, media, v.bitmap.first_cluster, v.bitmap.byte_length as int, c)
}

/// Whether `c` is a cluster of the UpCase table.
pub open spec fn is_table(v: Volume, media: Media, c: u32) -> bool {
    in_chain(v.geometry, media, v.upcase.first_cluster, v.upcase.byte_length as int, c)
}

/// Whether the allocation bitmap covers the heap, lies in clusters of its own,
/// and marks itself and the UpCase table as used.
#[verifier::opaque]
pub open spec fn bitmap_sound(v: Volume, media: Media) -> bool {
    let g = v.geometry;
    let first = v.bitmap.first_cluster;
    &&& g.cluster_count <= 8 * v.bitmap.byte_length
    &&& forall|i: int|
        0 <= i && i * g.cluster_bytes() < v.bitmap.byte_length ==> (
        #[trigger] allocation::cluster_of(g, media, first, i) matches Some(c) && g.in_heap(c))
    &&& forall|i: int, j: int|
        0 <= i && 0 <= j && i * g.cluster_bytes() < v.bitmap.byte_length && j * g.cluster_bytes()
            < v.bitmap.byte_length && #[trigger] allocation::cluster_of(g, media, first, i)
            == #[trigger] allocation::cluster_of(g, media, first, j) ==> i == j
    &&& forall|c: u32| #[trigger]
        is_bitmap(v, media, c) ==> g.in_heap(c) && allocation::is_used(v, media, c as int) == Some(
            true,
        )
    &&& forall|c: u32| #[trigger]
        is_table(v, media, c) ==> g.in_heap(c) && !is_bitmap(v, media, c) && allocation::is_used(
            v,
            media,
            c as int,
        ) == Some(true)
}

/// Whether a volume is in order and `free` its number of free clusters.
pub open spec fn sound(v: Volume, media: Media, free: u32) -> bool {
    &&& apart(v.geometry)
    &&& sized(v.geometry, media)
    &&& bitmap_sound(v, media)
    &&& allocation::used_count(v, media, v.geometry.cluster_count as nat) == Some(
        (v.geometry.cluster_count - free) as nat,
    )
    &&& free <= v.geometry.cluster_count
}

/// Whether `c` belongs to neither bitmap nor UpCase table.
pub open spec fn is_plain(v: Volume, media: Media, c: u32) -> bool {
    &&& v.geometry.in_heap(c)
    &&& !is_bitmap(v, media, c)
    &&& !is_table(v, media, c)
}

/// Whether the FAT says the same of every cluster.
pub open spec fn same_fat(g: Geometry, m: Media, m2: Media) -> bool {
    forall|c: u32|
        g.fat_holds(c) ==> #[trigger] slots::fat_entry(g, m2, c) == slots::fat_entry(g, m, c)
}

/// Whether the allocation bitmap says the same of every cluster.
pub open spec fn same_used(v: Volume, m: Media, m2: Media) -> bool {
    forall|c: int|
        2 <= c < v.geometry.cluster_count + 2 ==> #[trigger] allocation::is_used(v, m2, c)
            == allocation::is_used(v, m, c)
}

/// Whether the FAT says the same of every cluster but those of `touched`.
pub open spec fn fat_kept(g: Geometry, m: Media, m2: Media, touched: Set<u32>) -> bool {
    forall|c: u32|
        g.fat_holds(c) && !touched.contains(c) ==> #[trigger] slots::fat_entry(g, m2, c)
            == slots::fat_entry(g, m, c)
}

/// Whether the same clusters make up bitmap and UpCase table.
pub open spec fn same_system(v: Volume, m: Media, m2: Media) -> bool {
    &&& forall|c: u32| #[trigger] is_bitmap(v, m2, c) == is_bitmap(v, m, c)
    &&& forall|c: u32| #[trigger] is_table(v, m2, c) == is_table(v, m, c)
}

/// Whether the sectors before the FAT and those behind the partition hold the
/// same: partition tables and boot region among them.
#[verifier::opaque]
pub open spec fn front_kept(g: Geometry, m: Media, m2: Media) -> bool {
    forall|lba: u64|
        !(g.partition.first_lba + g.fat_offset <= lba < g.partition.first_lba
            + g.partition.sector_count) ==> #[trigger] m2[lba] == m[lba]
}

/// No change keeps the front.
pub proof fn lemma_front_still(g: Geometry, m: Media)
    ensures
        front_kept(g, m, m),
{
    reveal(front_kept);
}

/// Two changes that keep the front.
pub proof fn lemma_front_on(g: Geometry, m1: Media, m2: Media, m3: Media)
    requires
        front_kept(g, m1, m2),
        front_kept(g, m2, m3),
    ensures
        front_kept(g, m1, m3),
{
    reveal(front_kept);
    assert forall|lba: u64|
        !(g.partition.first_lba + g.fat_offset <= lba < g.partition.first_lba
            + g.partition.sector_count) implies #[trigger] m3[lba] == m1[lba] by {
        assert(m2[lba] == m1[lba]);
    }
}

/// A write to the FAT or the heap keeps the front.
pub proof fn lemma_front_written(g: Geometry, m: Media, lba: u64, data: Seq<u8>)
    requires
        g.partition.first_lba + g.fat_offset <= lba < g.partition.first_lba
            + g.partition.sector_count,
    ensures
        front_kept(g, m, m.insert(lba, data)),
{
    reveal(front_kept);
}

/// Writing to one cluster keeps the front.
pub proof fn lemma_front_cluster(g: Geometry, m: Media, m2: Media, c: u32)
    requires
        apart(g),
        g.in_heap(c),
        forall|lba: u64|
            !(g.heap_lba(c as int) <= lba < g.heap_lba(c as int) + g.sectors_per_cluster)
                ==> #[trigger] m2[lba] == m[lba],
    ensures
        front_kept(g, m, m2),
{
    reveal(front_kept);
    lemma_sector(g, c, 0);
    lemma_sector(g, c, g.sectors_per_cluster - 1);
}

/// Whether two media differ, as far as the volume goes, in the clusters
/// `touched` alone: in what they hold, in what the FAT says of them, and in
/// whether the bitmap marks them as used.
pub open spec fn changes_only(v: Volume, m: Media, m2: Media, touched: Set<u32>) -> bool {
    let g = v.geometry;
    &&& front_kept(g, m, m2)
    &&& fat_kept(g, m, m2, touched)
    &&& forall|c: u32|
        g.in_heap(c) && !touched.contains(c) && !is_bitmap(v, m, c) ==> #[trigger] same_cluster(
            g,
            m,
            m2,
            c,
        )
    &&& forall|c: int|
        2 <= c < g.cluster_count + 2 && !touched.contains(c as u32)
            ==> #[trigger] allocation::is_used(v, m2, c) == allocation::is_used(v, m, c)
}

/// Whether a sound volume has become another one by changes to the clusters
/// `touched` alone, none of them one of bitmap or UpCase table.
pub open spec fn evolves(v: Volume, m: Media, m2: Media, free: u32, touched: Set<u32>) -> bool {
    &&& sound(v, m2, free)
    &&& changes_only(v, m, m2, touched)
    &&& same_system(v, m, m2)
}

/// Facts that every valid geometry brings along.
pub proof fn lemma_geometry(g: Geometry)
    requires
        apart(g),
    ensures
        g.cluster_bytes() > 0,
        g.cluster_limit() == g.cluster_count + 2,
        g.sectors_per_cluster >= 1,
        forall|c: u32| #[trigger] g.in_heap(c) ==> g.fat_holds(c),
{
    arith::lemma_stream_offset(0, g.bytes_per_sector as int, g.sectors_per_cluster as int);
}

/// Where the sectors of a cluster lie.
pub proof fn lemma_sector(g: Geometry, c: u32, s: int)
    requires
        apart(g),
        g.in_heap(c),
        0 <= s < g.sectors_per_cluster,
    ensures
        sector_number(g, c, s) == g.heap_lba(c as int) + s,
        g.partition.first_lba + g.cluster_heap_offset <= sector_number(g, c, s),
        sector_number(g, c, s) < g.partition.first_lba + g.partition.sector_count,
{
    g.lemma_heap_bounds(c);
}

/// Every sector of the heap has a number of its own.
pub proof fn lemma_sectors_differ(g: Geometry, c: u32, s: int, d: u32, t: int)
    requires
        apart(g),
        g.in_heap(c),
        g.in_heap(d),
        0 <= s < g.sectors_per_cluster,
        0 <= t < g.sectors_per_cluster,
        sector_number(g, c, s) == sector_number(g, d, t),
    ensures
        c == d,
        s == t,
{
    lemma_sector(g, c, s);
    lemma_sector(g, d, t);
    let per = g.sectors_per_cluster as int;
    arith::lemma_split(c - 2, s, per);
    arith::lemma_split(d - 2, t, per);
}

/// Where FAT entries lie: before the heap.
pub proof fn lemma_fat_place(g: Geometry, c: u32)
    requires
        apart(g),
        g.fat_holds(c),
    ensures
        g.partition.first_lba + g.fat_offset <= g.fat_lba(c),
        g.fat_lba(c) < g.partition.first_lba + g.cluster_heap_offset,
        g.fat_lba(c) < g.partition.first_lba + g.partition.sector_count,
        0 <= g.fat_byte(c),
        g.fat_byte(c) + 4 <= g.bytes_per_sector,
{
    g.lemma_fat_byte(c);
    let q = c * 4 / (g.bytes_per_sector as int);
    assert(0 <= q) by (nonlinear_arith)
        requires
            q == c * 4 / (g.bytes_per_sector as int),
            g.bytes_per_sector > 0,
            0 <= c * 4,
    ;
    assert(0 <= g.cluster_count * g.sectors_per_cluster) by (nonlinear_arith);
}

/// FAT entries do not overlap.
pub proof fn lemma_fat_entries_differ(g: Geometry, a: u32, b: u32)
    requires
        apart(g),
        a != b,
        g.fat_holds(a),
        g.fat_holds(b),
        g.fat_lba(a) == g.fat_lba(b),
    ensures
        g.fat_byte(a) + 4 <= g.fat_byte(b) || g.fat_byte(b) + 4 <= g.fat_byte(a),
{
    let size = g.bytes_per_sector as int;
    g.lemma_fat_byte(a);
    g.lemma_fat_byte(b);
    vstd::arithmetic::div_mod::lemma_fundamental_div_mod(a * 4, size);
    vstd::arithmetic::div_mod::lemma_fundamental_div_mod(b * 4, size);
    lemma_fat_place(g, a);
    lemma_fat_place(g, b);
    assert(a * 4 / size == b * 4 / size);
}

/// A chain is the same wherever its FAT entries are.
pub proof fn lemma_chain_same(g: Geometry, m: Media, m2: Media, first: u32, n: nat)
    requires
        forall|j: nat|
            j < n && g.fat_holds((#[trigger] allocation::chain_at(g, m, first, j))->0)
                && allocation::chain_at(g, m, first, j) is Some ==> slots::fat_entry(
                g,
                m2,
                allocation::chain_at(g, m, first, j)->0,
            ) == slots::fat_entry(g, m, allocation::chain_at(g, m, first, j)->0),
    ensures
        allocation::chain_at(g, m2, first, n) == allocation::chain_at(g, m, first, n),
    decreases n,
{
    if n > 0 {
        lemma_chain_same(g, m, m2, first, (n - 1) as nat);
        let before = allocation::chain_at(g, m, first, (n - 1) as nat);
        assert(before is Some ==> g.fat_holds(before->0) ==> slots::fat_entry(g, m2, before->0)
            == slots::fat_entry(g, m, before->0));
    }
}

/// A chain whose clusters are all left alone is the same.
pub proof fn lemma_chain_kept(
    v: Volume,
    m: Media,
    m2: Media,
    touched: Set<u32>,
    first: u32,
    length: int,
    i: int,
)
    requires
        v.geometry.cluster_bytes() > 0,
        fat_kept(v.geometry, m, m2, touched),
        forall|c: u32| #[trigger]
            touched.contains(c) ==> !in_chain(v.geometry, m, first, length, c),
        0 <= i,
        i * v.geometry.cluster_bytes() < length,
    ensures
        allocation::cluster_of(v.geometry, m2, first, i) == allocation::cluster_of(
            v.geometry,
            m,
            first,
            i,
        ),
{
    reveal(in_chain);
    let g = v.geometry;
    let cb = g.cluster_bytes();
    if i < g.cluster_count {
        assert forall|j: nat|
            j < i && g.fat_holds((#[trigger] allocation::chain_at(g, m, first, j))->0)
                && allocation::chain_at(g, m, first, j) is Some implies slots::fat_entry(
            g,
            m2,
            allocation::chain_at(g, m, first, j)->0,
        ) == slots::fat_entry(g, m, allocation::chain_at(g, m, first, j)->0) by {
            let c = allocation::chain_at(g, m, first, j)->0;
            arith::lemma_scaled(j as int, i, cb);
            assert(allocation::cluster_of(g, m, first, j as int) == Some(c));
            assert(in_chain(g, m, first, length, c));
        }
        lemma_chain_same(g, m, m2, first, i as nat);
    }
}

/// What belongs to a chain whose clusters are all left alone.
pub proof fn lemma_in_chain_kept(
    v: Volume,
    m: Media,
    m2: Media,
    touched: Set<u32>,
    first: u32,
    length: int,
)
    requires
        v.geometry.cluster_bytes() > 0,
        fat_kept(v.geometry, m, m2, touched),
        forall|c: u32| #[trigger]
            touched.contains(c) ==> !in_chain(v.geometry, m, first, length, c),
    ensures
        forall|c: u32| #[trigger]
            in_chain(v.geometry, m2, first, length, c) == in_chain(
                v.geometry,
                m,
                first,
                length,
                c,
            ),
{
    reveal(in_chain);
    let g = v.geometry;
    let cb = g.cluster_bytes();
    assert forall|i: int| 0 <= i && i * cb < length implies #[trigger] allocation::cluster_of(
        g,
        m2,
        first,
        i,
    ) == allocation::cluster_of(g, m, first, i) by {
        lemma_chain_kept(v, m, m2, touched, first, length, i);
    }
    assert forall|c: u32| #[trigger] in_chain(g, m2, first, length, c) == in_chain(
        g,
        m,
        first,
        length,
        c,
    ) by {
        if in_chain(g, m, first, length, c) {
            let i = choose|i: int|
                0 <= i && i * cb < length && #[trigger] allocation::cluster_of(g, m, first, i)
                    == Some(c);
            assert(allocation::cluster_of(g, m2, first, i) == Some(c));
        }
        if in_chain(g, m2, first, length, c) {
            let i = choose|i: int|
                0 <= i && i * cb < length && #[trigger] allocation::cluster_of(g, m2, first, i)
                    == Some(c);
            assert(allocation::cluster_of(g, m, first, i) == Some(c));
        }
    }
}

/// Where the bit of a cluster lies: in a cluster of the bitmap.
pub proof fn lemma_slot(v: Volume, m: Media, c: int)
    requires
        apart(v.geometry),
        bitmap_sound(v, m),
        2 <= c < v.geometry.cluster_count + 2,
    ensures
        allocation::bitmap_slot(v, m, c) is Some,
        ({
            let g = v.geometry;
            let byte = (c - 2) / 8;
            let (lba, offset, bit) = allocation::bitmap_slot(v, m, c)->0;
            let index = byte / g.cluster_bytes();
            let s = byte % g.cluster_bytes() / (g.bytes_per_sector as int);
            &&& 0 <= index && index * g.cluster_bytes() <= byte < v.bitmap.byte_length
            &&& allocation::cluster_of(g, m, v.bitmap.first_cluster, index) matches Some(home)
            &&& g.in_heap(home)
            &&& is_bitmap(v, m, home)
            &&& 0 <= s < g.sectors_per_cluster
            &&& lba == sector_number(g, home, s)
            &&& offset == byte % g.cluster_bytes() % (g.bytes_per_sector as int)
            &&& 0 <= offset < g.bytes_per_sector
            &&& bit == (c - 2) % 8
            &&& byte == g.cluster_bytes() * index + g.bytes_per_sector * s + offset
        }),
{
    reveal(bitmap_sound);
    reveal(in_chain);
    let g = v.geometry;
    lemma_geometry(g);
    let byte = (c - 2) / 8;
    let size = g.bytes_per_sector as int;
    let per = g.sectors_per_cluster as int;
    let cb = g.cluster_bytes();
    let index = byte / cb;
    arith::lemma_stream_offset(byte, size, per);
    vstd::arithmetic::div_mod::lemma_fundamental_div_mod(byte, cb);
    vstd::arithmetic::div_mod::lemma_fundamental_div_mod(byte % cb, size);
    vstd::arithmetic::mul::lemma_mul_is_commutative(cb, index);
    vstd::arithmetic::div_mod::lemma_div_pos_is_pos(byte, cb);
    vstd::arithmetic::div_mod::lemma_mod_bound(byte, cb);
    assert(allocation::cluster_of(g, m, v.bitmap.first_cluster, index) is Some);
    let home = allocation::cluster_of(g, m, v.bitmap.first_cluster, index)->0;
    allocation::lemma_place(g, home, byte);
    lemma_sector(g, home, byte % cb / size);
}

/// Every cluster has a bit of its own.
pub proof fn lemma_slots_differ(v: Volume, m: Media, a: int, b: int)
    requires
        apart(v.geometry),
        bitmap_sound(v, m),
        2 <= a < v.geometry.cluster_count + 2,
        2 <= b < v.geometry.cluster_count + 2,
        allocation::bitmap_slot(v, m, a) == allocation::bitmap_slot(v, m, b),
    ensures
        a == b,
{
    reveal(bitmap_sound);
    let g = v.geometry;
    lemma_slot(v, m, a);
    lemma_slot(v, m, b);
    let cb = g.cluster_bytes();
    let size = g.bytes_per_sector as int;
    let x = (a - 2) / 8;
    let y = (b - 2) / 8;
    let first = v.bitmap.first_cluster;
    let home = allocation::cluster_of(g, m, first, x / cb)->0;
    let other = allocation::cluster_of(g, m, first, y / cb)->0;
    lemma_sectors_differ(g, home, x % cb / size, other, y % cb / size);
    assert(x / cb == y / cb);
}

/// A bit that is set or cleared, and the other bits of its byte.
pub proof fn lemma_with_bit(byte: u8, bit: u8, other: u8, set: bool)
    requires
        bit < 8,
        other < 8,
    ensures
        allocation::bit_set(allocation::with_bit(byte, bit, set), bit) == set,
        other != bit ==> allocation::bit_set(allocation::with_bit(byte, bit, set), other)
            == allocation::bit_set(byte, other),
{
    assert(bit < 8 ==> (byte | (1u8 << bit)) & (1u8 << bit) != 0) by (bit_vector);
    assert(bit < 8 ==> (byte & !(1u8 << bit)) & (1u8 << bit) == 0) by (bit_vector);
    assert(bit < 8 && other < 8 && other != bit ==> (byte | (1u8 << bit)) & (1u8 << other) == byte
        & (1u8 << other)) by (bit_vector);
    assert(bit < 8 && other < 8 && other != bit ==> (byte & !(1u8 << bit)) & (1u8 << other) == byte
        & (1u8 << other)) by (bit_vector);
}

/// The number of used clusters depends on the bitmap alone.
pub proof fn lemma_count_same(v: Volume, m: Media, m2: Media, n: nat)
    requires
        same_used(v, m, m2),
        n <= v.geometry.cluster_count,
    ensures
        allocation::used_count(v, m2, n) == allocation::used_count(v, m, n),
    decreases n,
{
    if n > 0 {
        lemma_count_same(v, m, m2, (n - 1) as nat);
    }
}

/// Marking one cluster changes the number of used clusters by one.
pub proof fn lemma_count_changes(v: Volume, m: Media, m2: Media, c: int, used: bool, n: nat)
    requires
        2 <= c < v.geometry.cluster_count + 2,
        forall|d: int|
            2 <= d < v.geometry.cluster_count + 2 && d != c ==> #[trigger] allocation::is_used(
                v,
                m2,
                d,
            ) == allocation::is_used(v, m, d),
        allocation::is_used(v, m, c) == Some(!used),
        allocation::is_used(v, m2, c) == Some(used),
        n <= v.geometry.cluster_count,
        allocation::used_count(v, m, n) is Some,
    ensures
        allocation::used_count(v, m2, n) is Some,
        allocation::used_count(v, m2, n)->0 == allocation::used_count(v, m, n)->0 + (if c - 2 >= n {
            0int
        } else if used {
            1
        } else {
            -1
        }),
    decreases n,
{
    if n > 0 {
        lemma_count_changes(v, m, m2, c, used, (n - 1) as nat);
    }
}

} // verus!
