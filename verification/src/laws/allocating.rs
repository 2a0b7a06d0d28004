//! What the allocation primitives do to a sound volume.

use crate::bytes;
use crate::device;
use crate::device::{Media, SectorWrite};
use crate::directory::slots;
use crate::error::Error;
use crate::fs::allocation;
use crate::fs::release;
use crate::fs::state::Plan;
use crate::laws::regions;
use crate::mount::Volume;
use vstd::prelude::*;

verus! {

/// The bits of the bitmap lie where they did.
proof fn lemma_slots_kept(v: Volume, m: Media, m2: Media, touched: Set<u32>)
    requires
        regions::apart(v.geometry),
        regions::fat_kept(v.geometry, m, m2, touched),
        forall|c: u32| #[trigger] touched.contains(c) ==> !regions::is_bitmap(v, m, c),
    ensures
        forall|c: int| #[trigger]
            allocation::bitmap_slot(v, m2, c) == allocation::bitmap_slot(v, m, c),
{
    let g = v.geometry;
    regions::lemma_geometry(g);
    let cb = g.cluster_bytes();
    assert forall|c: int| #[trigger]
        allocation::bitmap_slot(v, m2, c) == allocation::bitmap_slot(v, m, c) by {
        let byte = (c - 2) / 8;
        if c >= 2 && byte < v.bitmap.byte_length {
            vstd::arithmetic::div_mod::lemma_fundamental_div_mod(byte, cb);
            vstd::arithmetic::mul::lemma_mul_is_commutative(cb, byte / cb);
            vstd::arithmetic::div_mod::lemma_div_pos_is_pos(byte, cb);
            regions::lemma_chain_kept(
                v,
                m,
                m2,
                touched,
                v.bitmap.first_cluster,
                v.bitmap.byte_length as int,
                byte / cb,
            );
        }
    }
}

/// Changes that leave bitmap and UpCase table alone keep a volume sound.
proof fn lemma_sound_kept(v: Volume, m: Media, m2: Media, free: u32, free2: u32, touched: Set<u32>)
    requires
        regions::sound(v, m, free),
        regions::changes_only(v, m, m2, touched),
        forall|c: u32| #[trigger] touched.contains(c) ==> regions::is_plain(v, m, c),
        regions::sized(v.geometry, m2),
        free2 <= v.geometry.cluster_count,
        allocation::used_count(v, m2, v.geometry.cluster_count as nat) == Some(
            (v.geometry.cluster_count - free2) as nat,
        ),
    ensures
        regions::evolves(v, m, m2, free2, touched),
{
    reveal(regions::bitmap_sound);
    let g = v.geometry;
    let first = v.bitmap.first_cluster;
    let length = v.bitmap.byte_length as int;
    regions::lemma_geometry(g);
    let cb = g.cluster_bytes();
    regions::lemma_in_chain_kept(v, m, m2, touched, first, length);
    regions::lemma_in_chain_kept(
        v,
        m,
        m2,
        touched,
        v.upcase.first_cluster,
        v.upcase.byte_length as int,
    );
    assert forall|c: u32| #[trigger] regions::is_bitmap(v, m2, c) == regions::is_bitmap(v, m, c) by {
        assert(regions::in_chain(g, m2, first, length, c) == regions::in_chain(
            g,
            m,
            first,
            length,
            c,
        ));
    }
    assert forall|c: u32| #[trigger] regions::is_table(v, m2, c) == regions::is_table(v, m, c) by {
        let table = v.upcase.first_cluster;
        let end = v.upcase.byte_length as int;
        assert(regions::in_chain(g, m2, table, end, c) == regions::in_chain(g, m, table, end, c));
    }
    assert forall|i: int| 0 <= i && i * cb < length implies #[trigger] allocation::cluster_of(
        g,
        m2,
        first,
        i,
    ) == allocation::cluster_of(g, m, first, i) by {
        regions::lemma_chain_kept(v, m, m2, touched, first, length, i);
    }
    assert(regions::bitmap_sound(v, m2)) by {
        assert forall|c: u32| #[trigger] regions::is_bitmap(v, m2, c) implies allocation::is_used(
            v,
            m2,
            c as int,
        ) == Some(true) && g.in_heap(c) by {
            assert(regions::is_bitmap(v, m, c));
            assert(!touched.contains(c));
        }
        assert forall|c: u32| #[trigger] regions::is_table(v, m2, c) implies allocation::is_used(
            v,
            m2,
            c as int,
        ) == Some(true) && g.in_heap(c) && !regions::is_bitmap(v, m2, c) by {
            assert(regions::is_table(v, m, c));
            assert(!touched.contains(c));
        }
    }
}

/// Changes within one cluster, bitmap and FAT aside.
pub proof fn lemma_cluster_written(v: Volume, m: Media, m2: Media, free: u32, c: u32)
    requires
        regions::sound(v, m, free),
        regions::is_plain(v, m, c),
        forall|lba: u64|
            !(v.geometry.heap_lba(c as int) <= lba < v.geometry.heap_lba(c as int)
                + v.geometry.sectors_per_cluster) ==> #[trigger] m2[lba] == m[lba],
        forall|s: int|
            0 <= s < v.geometry.sectors_per_cluster ==> (#[trigger] regions::cluster_sector(
                v.geometry,
                m2,
                c,
                s,
            )).len() == v.geometry.bytes_per_sector,
    ensures
        regions::evolves(v, m, m2, free, set![c]),
        regions::same_fat(v.geometry, m, m2),
        regions::same_used(v, m, m2),
        forall|d: u32|
            v.geometry.in_heap(d) && d != c ==> #[trigger] regions::same_cluster(
                v.geometry,
                m,
                m2,
                d,
            ),
{
    let g = v.geometry;
    let touched = set![c];
    regions::lemma_geometry(g);
    regions::lemma_front_cluster(g, m, m2, c);
    assert forall|d: u32| g.fat_holds(d) implies #[trigger] slots::fat_entry(g, m2, d)
        == slots::fat_entry(g, m, d) by {
        regions::lemma_fat_place(g, d);
        regions::lemma_sector(g, c, 0);
    }
    assert forall|d: u32| g.in_heap(d) && d != c implies #[trigger] regions::same_cluster(
        g,
        m,
        m2,
        d,
    ) by {
        assert forall|s: int| 0 <= s < g.sectors_per_cluster implies
            #[trigger] regions::cluster_sector(g, m2, d, s) == regions::cluster_sector(
            g,
            m,
            d,
            s,
        ) by {
            let lba = regions::sector_number(g, d, s);
            regions::lemma_sector(g, d, s);
            regions::lemma_sector(g, c, 0);
            let t = lba - g.heap_lba(c as int);
            if 0 <= t < g.sectors_per_cluster {
                regions::lemma_sector(g, c, t);
                regions::lemma_sectors_differ(g, c, t, d, s);
            }
        }
    }
    lemma_slots_kept(v, m, m2, touched);
    assert forall|d: int| 2 <= d < g.cluster_count + 2 implies #[trigger] allocation::is_used(
        v,
        m2,
        d,
    ) == allocation::is_used(v, m, d) by {
        regions::lemma_slot(v, m, d);
        let (lba, offset, bit) = allocation::bitmap_slot(v, m, d)->0;
        let byte = (d - 2) / 8;
        let home = allocation::cluster_of(
            g,
            m,
            v.bitmap.first_cluster,
            byte / g.cluster_bytes(),
        )->0;
        let s = byte % g.cluster_bytes() / (g.bytes_per_sector as int);
        assert(home != c);
        assert(regions::same_cluster(g, m, m2, home));
        assert(regions::cluster_sector(g, m2, home, s) == regions::cluster_sector(g, m, home, s));
    }
    assert forall|lba: u64|
        g.partition.first_lba <= lba < g.partition.first_lba + g.partition.sector_count implies (
    #[trigger] m2[lba]).len() == g.bytes_per_sector by {
        let t = lba - g.heap_lba(c as int);
        if 0 <= t < g.sectors_per_cluster {
            regions::lemma_sector(g, c, t);
            assert(regions::cluster_sector(g, m2, c, t).len() == g.bytes_per_sector);
        } else {
            assert(m[lba].len() == g.bytes_per_sector);
        }
    }
    regions::lemma_count_same(v, m, m2, g.cluster_count as nat);
    lemma_sound_kept(v, m, m2, free, free, touched);
}

/// Writing a sector of a cluster.
pub proof fn lemma_sector_written(
    v: Volume,
    m: Media,
    free: u32,
    c: u32,
    s: int,
    data: Seq<u8>,
)
    requires
        regions::sound(v, m, free),
        regions::is_plain(v, m, c),
        0 <= s < v.geometry.sectors_per_cluster,
        data.len() == v.geometry.bytes_per_sector,
    ensures
        ({
            let g = v.geometry;
            let m2 = m.insert(regions::sector_number(g, c, s), data);
            &&& regions::evolves(v, m, m2, free, set![c])
            &&& regions::same_fat(g, m, m2)
            &&& regions::same_used(v, m, m2)
            &&& forall|d: u32|
                g.in_heap(d) && d != c ==> #[trigger] regions::same_cluster(g, m, m2, d)
            &&& regions::cluster_sector(g, m2, c, s) == data
            &&& forall|t: int|
                0 <= t < g.sectors_per_cluster && t != s ==> #[trigger] regions::cluster_sector(
                    g,
                    m2,
                    c,
                    t,
                ) == regions::cluster_sector(g, m, c, t)
        }),
{
    let g = v.geometry;
    let m2 = m.insert(regions::sector_number(g, c, s), data);
    regions::lemma_sector(g, c, s);
    assert forall|t: int| 0 <= t < g.sectors_per_cluster && t != s implies
        #[trigger] regions::cluster_sector(g, m2, c, t) == regions::cluster_sector(g, m, c, t) by {
        regions::lemma_sector(g, c, t);
    }
    assert forall|t: int| 0 <= t < g.sectors_per_cluster implies (
    #[trigger] regions::cluster_sector(g, m2, c, t)).len() == g.bytes_per_sector by {
        regions::lemma_sector(g, c, t);
        if t != s {
            assert(m[regions::sector_number(g, c, t)].len() == g.bytes_per_sector);
        }
    }
    lemma_cluster_written(v, m, m2, free, c);
}

/// Clearing a cluster.
pub proof fn lemma_cluster_cleared<E>(v: Volume, m: Media, free: u32, c: u32)
    requires
        regions::sound(v, m, free),
        regions::is_plain(v, m, c),
    ensures
        ({
            let g = v.geometry;
            let m2 = allocation::zero_plan::<E>(g, free, c).leaves(m);
            &&& regions::evolves(v, m, m2, free, set![c])
            &&& regions::same_fat(g, m, m2)
            &&& regions::same_used(v, m, m2)
            &&& forall|d: u32|
                g.in_heap(d) && d != c ==> #[trigger] regions::same_cluster(g, m, m2, d)
            &&& forall|s: int|
                0 <= s < g.sectors_per_cluster ==> #[trigger] regions::cluster_sector(g, m2, c, s)
                    == bytes::filled(g.bytes_per_sector as nat, 0)
        }),
{
    let g = v.geometry;
    let m2 = allocation::zero_plan::<E>(g, free, c).leaves(m);
    assert forall|lba: u64|
        !(g.heap_lba(c as int) <= lba < g.heap_lba(c as int)
            + g.sectors_per_cluster) implies #[trigger] m2[lba] == m[lba] by {
        allocation::lemma_zeroed(g, m, c, lba);
    }
    assert forall|s: int| 0 <= s < g.sectors_per_cluster implies
        #[trigger] regions::cluster_sector(g, m2, c, s) == bytes::filled(
        g.bytes_per_sector as nat,
        0,
    ) by {
        regions::lemma_sector(g, c, s);
        allocation::lemma_zeroed(g, m, c, regions::sector_number(g, c, s));
    }
    lemma_cluster_written(v, m, m2, free, c);
}

/// Recording a FAT value.
pub proof fn lemma_fat_written<E>(v: Volume, m: Media, free: u32, c: u32, value: u32)
    requires
        regions::sound(v, m, free),
        regions::is_plain(v, m, c),
    ensures
        ({
            let g = v.geometry;
            let m2 = allocation::set_fat_plan::<E>(v, m, free, c, value).leaves(m);
            &&& regions::evolves(v, m, m2, free, set![c])
            &&& regions::same_used(v, m, m2)
            &&& slots::fat_entry(g, m2, c) == value
            &&& forall|d: u32| g.in_heap(d) ==> #[trigger] regions::same_cluster(g, m, m2, d)
        }),
{
    let g = v.geometry;
    let touched = set![c];
    regions::lemma_geometry(g);
    regions::lemma_fat_place(g, c);
    let lba = g.fat_lba(c);
    let at = g.fat_byte(c);
    let sector = m[lba];
    let data = bytes::splice(sector, at, bytes::le32(value));
    let plan = allocation::set_fat_plan::<E>(v, m, free, c, value);
    let m2 = plan.leaves(m);
    device::lemma_applied_one(m, SectorWrite { lba, data });
    assert(m2 == m.insert(lba, data));
    regions::lemma_front_written(g, m, lba, data);
    assert(sector.len() == g.bytes_per_sector);
    assert(data.subrange(at, at + 4) =~= bytes::le32(value));
    bytes::lemma_le32_reads_back(data, at, value);
    assert forall|d: u32| g.fat_holds(d) && !touched.contains(d) implies
        #[trigger] slots::fat_entry(g, m2, d) == slots::fat_entry(g, m, d) by {
        regions::lemma_fat_place(g, d);
        if g.fat_lba(d) == lba {
            regions::lemma_fat_entries_differ(g, c, d);
        }
    }
    assert forall|d: u32| g.in_heap(d) implies #[trigger] regions::same_cluster(g, m, m2, d) by {
        assert forall|s: int| 0 <= s < g.sectors_per_cluster implies
            #[trigger] regions::cluster_sector(g, m2, d, s) == regions::cluster_sector(
            g,
            m,
            d,
            s,
        ) by {
            regions::lemma_sector(g, d, s);
        }
    }
    lemma_slots_kept(v, m, m2, touched);
    assert forall|d: int| 2 <= d < g.cluster_count + 2 implies #[trigger] allocation::is_used(
        v,
        m2,
        d,
    ) == allocation::is_used(v, m, d) by {
        regions::lemma_slot(v, m, d);
        let byte = (d - 2) / 8;
        let home = allocation::cluster_of(
            g,
            m,
            v.bitmap.first_cluster,
            byte / g.cluster_bytes(),
        )->0;
        let s = byte % g.cluster_bytes() / (g.bytes_per_sector as int);
        assert(regions::same_cluster(g, m, m2, home));
        assert(regions::cluster_sector(g, m2, home, s) == regions::cluster_sector(g, m, home, s));
    }
    regions::lemma_count_same(v, m, m2, g.cluster_count as nat);
    lemma_sound_kept(v, m, m2, free, free, touched);
}

/// A used cluster is counted as used, a free one is not.
proof fn lemma_count_includes(v: Volume, m: Media, c: int, n: nat)
    requires
        allocation::used_count(v, m, n) is Some,
        2 <= c < n + 2,
    ensures
        allocation::is_used(v, m, c) == Some(true) ==> allocation::used_count(v, m, n)->0 >= 1,
        allocation::is_used(v, m, c) == Some(false) ==> allocation::used_count(v, m, n)->0 < n,
    decreases n,
{
    let k = (n - 1) as nat;
    if c < k + 2 {
        lemma_count_includes(v, m, c, k);
    }
    allocation::lemma_used_bound(v, m, k);
}

/// Marking a cluster as used or free.
pub proof fn lemma_marked<E>(v: Volume, m: Media, free: u32, c: u32, used: bool)
    requires
        regions::sound(v, m, free),
        regions::is_plain(v, m, c),
    ensures
        ({
            let g = v.geometry;
            let plan = allocation::set_bitmap_plan::<E>(v, m, free, c, used);
            let m2 = plan.leaves(m);
            &&& plan.result == Ok::<(), Error<E>>(())
            &&& regions::evolves(v, m, m2, plan.free, set![c])
            &&& regions::same_fat(g, m, m2)
            &&& allocation::is_used(v, m2, c as int) == Some(used)
            &&& forall|d: u32|
                g.in_heap(d) && !regions::is_bitmap(v, m, d) ==> #[trigger] regions::same_cluster(
                    g,
                    m,
                    m2,
                    d,
                )
            &&& plan.free == free + (if allocation::is_used(v, m, c as int) == Some(used) {
                0int
            } else if used {
                -1
            } else {
                1
            })
        }),
{
    let g = v.geometry;
    let touched = set![c];
    let plan = allocation::set_bitmap_plan::<E>(v, m, free, c, used);
    let m2 = plan.leaves(m);
    regions::lemma_geometry(g);
    regions::lemma_slot(v, m, c as int);
    let (lba, offset, bit) = allocation::bitmap_slot(v, m, c as int)->0;
    let sector = m[lba];
    let byte = (c - 2) / 8;
    let home = allocation::cluster_of(g, m, v.bitmap.first_cluster, byte / g.cluster_bytes())->0;
    let s = byte % g.cluster_bytes() / (g.bytes_per_sector as int);
    regions::lemma_sector(g, home, s);
    assert(sector.len() == g.bytes_per_sector);
    if allocation::bit_set(sector[offset], bit) == used {
        regions::lemma_front_still(g, m);
        assert(m2 == m);
        assert(regions::sound(v, m2, free));
    } else {
        let data = sector.update(offset, allocation::with_bit(sector[offset], bit, used));
        lemma_count_includes(v, m, c as int, g.cluster_count as nat);
        assert(plan.writes == seq![SectorWrite { lba, data }]);
        device::lemma_applied_one(m, SectorWrite { lba, data });
        assert(m2 == m.insert(lba, data));
        regions::lemma_front_written(g, m, lba, data);
        assert forall|d: u32| g.fat_holds(d) implies #[trigger] slots::fat_entry(g, m2, d)
            == slots::fat_entry(g, m, d) by {
            regions::lemma_fat_place(g, d);
        }
        assert forall|d: u32| g.in_heap(d) && !regions::is_bitmap(v, m, d) implies
            #[trigger] regions::same_cluster(g, m, m2, d) by {
            assert forall|t: int| 0 <= t < g.sectors_per_cluster implies
                #[trigger] regions::cluster_sector(g, m2, d, t) == regions::cluster_sector(
                g,
                m,
                d,
                t,
            ) by {
                regions::lemma_sector(g, d, t);
                if regions::sector_number(g, d, t) == lba {
                    regions::lemma_sectors_differ(g, home, s, d, t);
                }
            }
        }
        lemma_slots_kept(v, m, m2, Set::<u32>::empty());
        assert forall|d: int| 2 <= d < g.cluster_count + 2 && d != c implies
            #[trigger] allocation::is_used(v, m2, d) == allocation::is_used(v, m, d) by {
            regions::lemma_slot(v, m, d);
            let (lba2, offset2, bit2) = allocation::bitmap_slot(v, m, d)->0;
            if lba2 == lba && offset2 == offset {
                if bit2 == bit {
                    regions::lemma_slots_differ(v, m, c as int, d);
                }
                regions::lemma_with_bit(sector[offset], bit, bit2, used);
            }
        }
        regions::lemma_with_bit(sector[offset], bit, bit, used);
        assert(allocation::is_used(v, m2, c as int) == Some(used));
        regions::lemma_count_changes(v, m, m2, c as int, used, g.cluster_count as nat);
        lemma_sound_kept(v, m, m2, free, plan.free, touched);
    }
}

/// One change after another.
pub proof fn lemma_evolves_on(
    v: Volume,
    m1: Media,
    m2: Media,
    m3: Media,
    free2: u32,
    free3: u32,
    first: Set<u32>,
    second: Set<u32>,
    all: Set<u32>,
)
    requires
        regions::evolves(v, m1, m2, free2, first),
        regions::evolves(v, m2, m3, free3, second),
        first.subset_of(all),
        second.subset_of(all),
    ensures
        regions::evolves(v, m1, m3, free3, all),
{
    let g = v.geometry;
    regions::lemma_front_on(g, m1, m2, m3);
    assert forall|c: u32| g.fat_holds(c) && !all.contains(c) implies #[trigger] slots::fat_entry(
        g,
        m3,
        c,
    ) == slots::fat_entry(g, m1, c) by {
        assert(slots::fat_entry(g, m2, c) == slots::fat_entry(g, m1, c));
    }
    assert forall|c: u32|
        g.in_heap(c) && !all.contains(c) && !regions::is_bitmap(v, m1, c) implies
        #[trigger] regions::same_cluster(g, m1, m3, c) by {
        assert(!regions::is_bitmap(v, m2, c));
        assert(regions::same_cluster(g, m1, m2, c));
        assert(regions::same_cluster(g, m2, m3, c));
        assert forall|s: int| 0 <= s < g.sectors_per_cluster implies
            #[trigger] regions::cluster_sector(g, m3, c, s) == regions::cluster_sector(
            g,
            m1,
            c,
            s,
        ) by {
            assert(regions::cluster_sector(g, m2, c, s) == regions::cluster_sector(g, m1, c, s));
        }
    }
    assert forall|c: int| 2 <= c < g.cluster_count + 2 && !all.contains(c as u32) implies
        #[trigger] allocation::is_used(v, m3, c) == allocation::is_used(v, m1, c) by {
        assert(allocation::is_used(v, m2, c) == allocation::is_used(v, m1, c));
    }
    assert forall|c: u32| #[trigger] regions::is_bitmap(v, m3, c) == regions::is_bitmap(
        v,
        m1,
        c,
    ) by {
        assert(regions::is_bitmap(v, m2, c) == regions::is_bitmap(v, m1, c));
    }
    assert forall|c: u32| #[trigger] regions::is_table(v, m3, c) == regions::is_table(v, m1, c) by {
        assert(regions::is_table(v, m2, c) == regions::is_table(v, m1, c));
    }
}

/// A cluster that nothing uses belongs to neither bitmap nor UpCase table.
pub proof fn lemma_unused_is_plain(v: Volume, m: Media, free: u32, c: u32)
    requires
        regions::sound(v, m, free),
        v.geometry.in_heap(c),
        allocation::is_used(v, m, c as int) == Some(false),
    ensures
        regions::is_plain(v, m, c),
{
    reveal(regions::bitmap_sound);
}

/// Whether a plan has claimed cluster `c`: it holds zeros, is marked as used
/// and ends a chain, and nothing else has changed but the number of free
/// clusters.
pub open spec fn has_claimed<T, E>(v: Volume, m: Media, free: u32, plan: Plan<T, E>, c: u32) -> bool {
    let g = v.geometry;
    let m2 = plan.leaves(m);
    &&& regions::evolves(v, m, m2, plan.free, set![c])
    &&& plan.free == free - 1
    &&& slots::fat_entry(g, m2, c) == 0xffff_ffff
    &&& allocation::is_used(v, m2, c as int) == Some(true)
    &&& forall|s: int|
        0 <= s < g.sectors_per_cluster ==> #[trigger] regions::cluster_sector(g, m2, c, s)
            == bytes::filled(g.bytes_per_sector as nat, 0)
}

/// Claiming a free cluster.
pub proof fn lemma_claimed<E>(v: Volume, m: Media, free: u32, c: u32)
    requires
        regions::sound(v, m, free),
        v.geometry.in_heap(c),
        allocation::is_used(v, m, c as int) == Some(false),
    ensures
        ({
            let plan = allocation::take_plan::<E>(v, m, free, c);
            &&& plan.result == Ok::<(), Error<E>>(())
            &&& has_claimed(v, m, free, plan, c)
        }),
{
    let g = v.geometry;
    let touched = set![c];
    let plan = allocation::take_plan::<E>(v, m, free, c);
    let m4 = plan.leaves(m);
    let zero = allocation::zero_plan::<E>(g, free, c);
    let m2 = zero.leaves(m);
    lemma_unused_is_plain(v, m, free, c);
    lemma_cluster_cleared::<E>(v, m, free, c);
    let mark = allocation::set_bitmap_plan::<E>(v, m2, free, c, true);
    let m3 = mark.leaves(m2);
    lemma_marked::<E>(v, m2, free, c, true);
    let end = allocation::set_fat_plan::<E>(v, m3, mark.free, c, 0xffff_ffff);
    lemma_fat_written::<E>(v, m3, mark.free, c, 0xffff_ffff);
    device::lemma_applied_concat(m2, mark.writes, end.writes);
    device::lemma_applied_concat(m, zero.writes, mark.writes + end.writes);
    assert(m4 == end.leaves(m3));
    lemma_evolves_on(v, m, m2, m3, free, mark.free, touched, touched, touched);
    lemma_evolves_on(v, m, m3, m4, mark.free, mark.free, touched, touched, touched);
    assert forall|s: int| 0 <= s < g.sectors_per_cluster implies
        #[trigger] regions::cluster_sector(g, m4, c, s) == bytes::filled(
        g.bytes_per_sector as nat,
        0,
    ) by {
        assert(regions::same_cluster(g, m2, m3, c));
        assert(regions::same_cluster(g, m3, m4, c));
        assert(regions::cluster_sector(g, m3, c, s) == regions::cluster_sector(g, m2, c, s));
    }
    assert(allocation::is_used(v, m4, c as int) == allocation::is_used(v, m3, c as int));
}

/// A search that finds nothing has seen nothing but used clusters.
proof fn lemma_none_free(v: Volume, m: Media, from: int, to: int)
    requires
        regions::apart(v.geometry),
        regions::bitmap_sound(v, m),
        2 <= from,
        to <= v.geometry.cluster_count + 2,
    ensures
        allocation::first_free(v, m, from, to) is Some,
        allocation::first_free(v, m, from, to)->0 is None ==> forall|c: int|
            from <= c < to ==> #[trigger] allocation::is_used(v, m, c) == Some(true),
    decreases to - from,
{
    if from < to {
        regions::lemma_slot(v, m, from);
        lemma_none_free(v, m, from + 1, to);
    }
}

/// Where all clusters are used, all are counted.
proof fn lemma_count_all(v: Volume, m: Media, n: nat)
    requires
        forall|c: int| 2 <= c < n + 2 ==> #[trigger] allocation::is_used(v, m, c) == Some(true),
    ensures
        allocation::used_count(v, m, n) == Some(n),
    decreases n,
{
    if n > 0 {
        lemma_count_all(v, m, (n - 1) as nat);
    }
}

/// As long as the free-cluster count is not zero, allocation succeeds: it
/// claims a cluster that was free, and that cluster alone changes. With no
/// free cluster it reports that there is no space.
pub proof fn law_allocation_claims_a_free_cluster<E>(
    v: Volume,
    m: Media,
    free: u32,
    preferred: u32,
)
    requires
        regions::sound(v, m, free),
    ensures
        ({
            let plan = allocation::allocate_plan::<E>(v, m, free, preferred);
            match plan.result {
                Ok(c) => {
                    &&& free > 0
                    &&& v.geometry.in_heap(c)
                    &&& allocation::is_used(v, m, c as int) == Some(false)
                    &&& regions::is_plain(v, m, c)
                    &&& has_claimed(v, m, free, plan, c)
                },
                Err(error) => {
                    &&& free == 0
                    &&& error == Error::<E>::NoSpace
                    &&& plan.leaves(m) == m
                    &&& plan.free == free
                },
            }
        }),
{
    let g = v.geometry;
    let n = g.cluster_count as nat;
    let start = allocation::search_start(g, preferred) as int;
    let plan = allocation::allocate_plan::<E>(v, m, free, preferred);
    regions::lemma_geometry(g);
    lemma_none_free(v, m, start, g.cluster_count + 2);
    lemma_none_free(v, m, 2, start);
    allocation::lemma_first_free(v, m, start, g.cluster_count + 2);
    allocation::lemma_first_free(v, m, 2, start);
    match allocation::choice(v, m, preferred)->0 {
        Some(c) => {
            let take = allocation::take_plan::<E>(v, m, free, c);
            lemma_count_includes(v, m, c as int, n);
            lemma_unused_is_plain(v, m, free, c);
            lemma_claimed::<E>(v, m, free, c);
            assert(plan.writes =~= take.writes);
        },
        None => {
            assert forall|c: int| 2 <= c < n + 2 implies #[trigger] allocation::is_used(v, m, c)
                == Some(true) by {}
            lemma_count_all(v, m, n);
        },
    }
}

/// Giving back a used cluster frees it, and changes nothing else but what the
/// FAT says of it and the free-cluster count.
pub proof fn law_freed_cluster_is_free<E>(v: Volume, m: Media, free: u32, c: u32)
    requires
        regions::sound(v, m, free),
        regions::is_plain(v, m, c),
        allocation::is_used(v, m, c as int) == Some(true),
    ensures
        ({
            let g = v.geometry;
            let plan = release::free_plan::<E>(v, m, free, c);
            let m2 = plan.leaves(m);
            &&& plan.result == Ok::<(), Error<E>>(())
            &&& plan.free == free + 1
            &&& regions::evolves(v, m, m2, plan.free, set![c])
            &&& slots::fat_entry(g, m2, c) == 0
            &&& allocation::is_used(v, m2, c as int) == Some(false)
            &&& forall|d: u32|
                g.in_heap(d) && !regions::is_bitmap(v, m, d) ==> #[trigger] regions::same_cluster(
                    g,
                    m,
                    m2,
                    d,
                )
        }),
{
    let g = v.geometry;
    let touched = set![c];
    let plan = release::free_plan::<E>(v, m, free, c);
    let m3 = plan.leaves(m);
    let clear = allocation::set_fat_plan::<E>(v, m, free, c, 0);
    let m2 = clear.leaves(m);
    regions::lemma_geometry(g);
    lemma_fat_written::<E>(v, m, free, c, 0);
    let mark = allocation::set_bitmap_plan::<E>(v, m2, free, c, false);
    lemma_marked::<E>(v, m2, free, c, false);
    device::lemma_applied_concat(m, clear.writes, mark.writes);
    assert(m3 == mark.leaves(m2));
    lemma_evolves_on(v, m, m2, m3, free, mark.free, touched, touched, touched);
    assert forall|d: u32| g.in_heap(d) && !regions::is_bitmap(v, m, d) implies
        #[trigger] regions::same_cluster(g, m, m3, d) by {
        assert(!regions::is_bitmap(v, m2, d));
        assert(regions::same_cluster(g, m, m2, d));
        assert(regions::same_cluster(g, m2, m3, d));
        assert forall|s: int| 0 <= s < g.sectors_per_cluster implies
            #[trigger] regions::cluster_sector(g, m3, d, s) == regions::cluster_sector(
            g,
            m,
            d,
            s,
        ) by {
            assert(regions::cluster_sector(g, m2, d, s) == regions::cluster_sector(g, m, d, s));
        }
    }
}

/// Giving back a cluster that was just allocated leaves the free-cluster count
/// and the bitmap as they were.
pub proof fn law_freeing_undoes_allocating<E>(v: Volume, m: Media, free: u32, preferred: u32)
    requires
        regions::sound(v, m, free),
        free > 0,
    ensures
        ({
            let take = allocation::allocate_plan::<E>(v, m, free, preferred);
            let taken = take.leaves(m);
            let give = release::free_plan::<E>(v, taken, take.free, take.result->Ok_0);
            let given = give.leaves(taken);
            &&& take.result is Ok
            &&& give.result is Ok
            &&& give.free == free
            &&& regions::sound(v, given, free)
            &&& regions::same_used(v, m, given)
        }),
{
    let take = allocation::allocate_plan::<E>(v, m, free, preferred);
    let taken = take.leaves(m);
    law_allocation_claims_a_free_cluster::<E>(v, m, free, preferred);
    let c = take.result->Ok_0;
    law_freed_cluster_is_free::<E>(v, taken, take.free, c);
    let given = release::free_plan::<E>(v, taken, take.free, c).leaves(taken);
    assert forall|d: int| 2 <= d < v.geometry.cluster_count + 2 implies
        #[trigger] allocation::is_used(v, given, d) == allocation::is_used(v, m, d) by {
        if d != c {
            assert(allocation::is_used(v, taken, d) == allocation::is_used(v, m, d));
        }
    }
}

} // verus!
