//! Mounting a volume anew: it is what it was, with the free clusters that it
//! has now.

use crate::device;
use crate::device::{BlockDevice, Media};
use crate::directory::slots;
use crate::error::Error;
use crate::fs::allocation;
use crate::fs::mount as fs_mount;
use crate::fs::state::FileSystem;
use crate::geometry::Geometry;
use crate::laws::regions;
use crate::laws::systems;
use crate::mount::Volume;
use crate::mount::boot;
use crate::mount::partition;
use crate::mount::partition::EntryTable;
use crate::mount::system;
use crate::mount::volume;
use crate::mount::volume::VolumeModel;
use vstd::prelude::*;

verus! {

/// Whether sectors from `lba` on, `count` of them, lie before the FAT or behind
/// the partition.
pub open spec fn is_aside(g: Geometry, lba: int, count: int) -> bool {
    ||| lba + count <= g.partition.first_lba + g.fat_offset
    ||| g.partition.first_lba + g.partition.sector_count <= lba
}

/// Whether partition tables and boot region lie aside: the boot region before
/// the FAT, and the entries of a GUID partition table where no file can be.
pub open spec fn is_set_apart(g: Geometry, media: Media, total: u64) -> bool {
    let size = g.bytes_per_sector as nat;
    &&& 12 <= g.fat_offset
    &&& partition::is_protective(media[0]) ==> match partition::gpt_header(media[1], size, total) {
        Some(table) => is_aside(g, table.lba as int, table.sectors(size) as int),
        None => true,
    }
}

/// The entries of a partition table that lies aside are what they were.
proof fn lemma_table_kept(g: Geometry, m: Media, m2: Media, table: EntryTable, size: nat, k: nat)
    requires
        regions::front_kept(g, m, m2),
        k <= table.sectors(size),
        table.lba + table.sectors(size) <= u64::MAX,
        is_aside(g, table.lba as int, table.sectors(size) as int),
    ensures
        table.register(m2, size, k) == table.register(m, size, k),
        table.candidate(m2, size, k) == table.candidate(m, size, k),
    decreases k,
{
    reveal(regions::front_kept);
    if k > 0 {
        lemma_table_kept(g, m, m2, table, size, (k - 1) as nat);
        let lba = (table.lba + k - 1) as u64;
        assert(m2[lba] == m[lba]);
    }
}

/// The partition is found where it was.
proof fn lemma_partition_kept<E>(g: Geometry, m: Media, m2: Media, total: u64)
    requires
        g.wf(),
        regions::front_kept(g, m, m2),
        is_set_apart(g, m, total),
    ensures
        volume::partition_result::<E>(m2, g.bytes_per_sector as nat, total)
            == volume::partition_result::<E>(m, g.bytes_per_sector as nat, total),
{
    let size = g.bytes_per_sector as nat;
    assert(m2[0u64] == m[0u64] && m2[1u64] == m[1u64]) by {
        reveal(regions::front_kept);
    }
    if partition::is_protective(m[0]) {
        if let Some(table) = partition::gpt_header(m[1], size, total) {
            lemma_table_kept(g, m, m2, table, size, table.sectors(size));
        }
    }
}

/// The boot region has the checksum that it had.
proof fn lemma_boot_kept(g: Geometry, m: Media, m2: Media, k: nat)
    requires
        g.wf(),
        regions::front_kept(g, m, m2),
        12 <= g.fat_offset,
        k <= 12,
    ensures
        boot::boot_sum(m2, g.partition.first_lba, g.bytes_per_sector as nat, k) == boot::boot_sum(
            m,
            g.partition.first_lba,
            g.bytes_per_sector as nat,
            k,
        ),
        k > 0 ==> m2[(g.partition.first_lba + k - 1) as u64] == m[(g.partition.first_lba + k
            - 1) as u64],
    decreases k,
{
    reveal(regions::front_kept);
    if k > 0 {
        lemma_boot_kept(g, m, m2, (k - 1) as nat);
        let lba = (g.partition.first_lba + k - 1) as u64;
        assert(m2[lba] == m[lba]);
    }
}

/// The clusters of a valid UpCase table belong to it.
proof fn lemma_table_link(v: Volume, m: Media, i: nat)
    requires
        regions::apart(v.geometry),
        system::upcase_valid(v.geometry, m, v.upcase),
        i * v.geometry.cluster_bytes() < v.upcase.byte_length,
    ensures
        allocation::cluster_of(v.geometry, m, v.upcase.first_cluster, i as int) == Some(
            system::link(v.geometry, m, v.upcase.first_cluster, i),
        ),
        regions::is_table(v, m, system::link(v.geometry, m, v.upcase.first_cluster, i)),
        v.geometry.in_heap(system::link(v.geometry, m, v.upcase.first_cluster, i)),
    decreases i,
{
    let g = v.geometry;
    let first = v.upcase.first_cluster;
    let cb = g.cluster_bytes();
    regions::lemma_geometry(g);
    assert(system::link_ok(g, m, first, i));
    assert(allocation::chain_at(g, m, first, i) == Some(system::link(g, m, first, i))) by {
        if i > 0 {
            let j = (i - 1) as nat;
            assert(j * cb < i * cb) by (nonlinear_arith)
                requires
                    j + 1 == i,
                    cb > 0,
            ;
            lemma_table_link(v, m, j);
            assert(g.fat_holds(system::link(g, m, first, j)));
        }
    }
    reveal(regions::in_chain);
    assert(allocation::cluster_of(g, m, first, i as int) is Some);
}

/// The clusters of the UpCase table are linked as they were.
proof fn lemma_links_kept(v: Volume, m: Media, m2: Media, touched: Set<u32>, i: nat)
    requires
        regions::apart(v.geometry),
        system::upcase_valid(v.geometry, m, v.upcase),
        regions::changes_only(v, m, m2, touched),
        forall|c: u32| #[trigger] touched.contains(c) ==> !regions::is_table(v, m, c),
        i * v.geometry.cluster_bytes() < v.upcase.byte_length,
    ensures
        system::link(v.geometry, m2, v.upcase.first_cluster, i) == system::link(
            v.geometry,
            m,
            v.upcase.first_cluster,
            i,
        ),
    decreases i,
{
    if i > 0 {
        let g = v.geometry;
        let cb = g.cluster_bytes();
        let j = (i - 1) as nat;
        regions::lemma_geometry(g);
        assert(j * cb < i * cb) by (nonlinear_arith)
            requires
                j + 1 == i,
                cb > 0,
        ;
        lemma_links_kept(v, m, m2, touched, j);
        lemma_table_link(v, m, j);
        let c = system::link(g, m, v.upcase.first_cluster, j);
        assert(g.fat_holds(c));
        assert(slots::fat_entry(g, m2, c) == slots::fat_entry(g, m, c));
    }
}

/// The UpCase table has the checksum that it had.
proof fn lemma_sum_kept(v: Volume, m: Media, m2: Media, touched: Set<u32>, n: nat)
    requires
        regions::apart(v.geometry),
        regions::bitmap_sound(v, m),
        system::upcase_valid(v.geometry, m, v.upcase),
        regions::changes_only(v, m, m2, touched),
        forall|c: u32| #[trigger] touched.contains(c) ==> !regions::is_table(v, m, c),
        n <= v.upcase.byte_length,
    ensures
        system::link_sum(v.geometry, m2, v.upcase.first_cluster, n) == system::link_sum(
            v.geometry,
            m,
            v.upcase.first_cluster,
            n,
        ),
    decreases n,
{
    if n > 0 {
        let g = v.geometry;
        let first = v.upcase.first_cluster;
        let o = n - 1;
        let size = g.bytes_per_sector as int;
        let per = g.sectors_per_cluster as int;
        let k = o / size;
        let i = (k / per) as nat;
        let s = k % per;
        regions::lemma_geometry(g);
        lemma_sum_kept(v, m, m2, touched, o as nat);
        lemma_within_table(g, o);
        assert(i * g.cluster_bytes() < v.upcase.byte_length);
        lemma_links_kept(v, m, m2, touched, i);
        lemma_table_link(v, m, i);
        let c = system::link(g, m, first, i);
        assert(!regions::is_bitmap(v, m, c)) by {
            reveal(regions::bitmap_sound);
        }
        assert(regions::same_cluster(g, m, m2, c));
        assert(regions::cluster_sector(g, m2, c, s) == regions::cluster_sector(g, m, c, s));
    }
}

/// The cluster in which byte `o` of a run lies does not begin behind it.
proof fn lemma_within_table(g: Geometry, o: int)
    requires
        regions::apart(g),
        0 <= o,
    ensures
        ({
            let k = o / g.bytes_per_sector as int;
            let i = k / g.sectors_per_cluster as int;
            &&& 0 <= i
            &&& i * g.cluster_bytes() <= o
            &&& 0 <= k % (g.sectors_per_cluster as int) < g.sectors_per_cluster
        }),
{
    let size = g.bytes_per_sector as int;
    let per = g.sectors_per_cluster as int;
    let k = o / size;
    let i = k / per;
    vstd::arithmetic::div_mod::lemma_fundamental_div_mod(o, size);
    vstd::arithmetic::div_mod::lemma_fundamental_div_mod(k, per);
    vstd::arithmetic::div_mod::lemma_mod_bound(o, size);
    vstd::arithmetic::div_mod::lemma_mod_bound(k, per);
    vstd::arithmetic::div_mod::lemma_div_pos_is_pos(o, size);
    vstd::arithmetic::div_mod::lemma_div_pos_is_pos(k, per);
    assert(i * (size * per) <= o) by (nonlinear_arith)
        requires
            o == size * k + o % size,
            k == per * i + k % per,
            0 <= o % size,
            0 <= k % per,
            size > 0,
    ;
}

/// A sound volume that was changed is found again by mounting it, unless the
/// change reached its UpCase table or the system entries of its root directory,
/// which no operation does. The free clusters are those of now.
pub proof fn law_changed_volume_mounts<E>(
    v: Volume,
    m: Media,
    m2: Media,
    free: u32,
    free2: u32,
    touched: Set<u32>,
    total: u64,
    scratch_len: nat,
)
    requires
        regions::sound(v, m, free),
        fs_mount::mount_result::<E>(m, v.geometry.bytes_per_sector as usize, total, scratch_len)
            == Ok::<(VolumeModel, u32), Error<E>>((v@, free)),
        is_set_apart(v.geometry, m, total),
        regions::evolves(v, m, m2, free2, touched),
        forall|c: u32| #[trigger] touched.contains(c) ==> !regions::is_table(v, m, c),
        system::root_system(v.geometry, m2) == system::root_system(v.geometry, m),
    ensures
        fs_mount::mount_result::<E>(m2, v.geometry.bytes_per_sector as usize, total, scratch_len)
            == Ok::<(VolumeModel, u32), Error<E>>((v@, free2)),
{
    let g = v.geometry;
    let size = g.bytes_per_sector as nat;
    let part = volume::partition_result::<E>(m, size, total)->Ok_0;
    lemma_partition_kept::<E>(g, m, m2, total);
    assert(g.partition == part);
    lemma_boot_kept(g, m, m2, 1);
    lemma_boot_kept(g, m, m2, 11);
    lemma_boot_kept(g, m, m2, 12);
    let table = v.upcase;
    assert(system::upcase_valid(g, m, table));
    lemma_sum_kept(v, m, m2, touched, table.byte_length as nat);
    assert(system::upcase_valid(g, m2, table)) by {
        assert forall|j: nat| j * g.cluster_bytes() < table.byte_length implies
            #[trigger] system::link_ok(g, m2, table.first_cluster, j) by {
            assert(system::link_ok(g, m, table.first_cluster, j));
            lemma_links_kept(v, m, m2, touched, j);
        }
    }
    fs_mount::lemma_same_count(v, m2, g.cluster_count as nat);
}

/// Mounting a device answers the same however often it is tried, and whether or
/// not a failure returns the device: unless the device reports an error, the same
/// volume with the same number of free clusters, or the same error.
pub proof fn law_mounting_answers_the_same<D: BlockDevice>(
    device: D,
    scratch_len: nat,
    first: Result<FileSystem<D>, Error<D::Error>>,
    second: Result<FileSystem<D>, Error<D::Error>>,
)
    requires
        fs_mount::is_answered(device, scratch_len, first),
        fs_mount::is_answered(device, scratch_len, second),
        !(first matches Err(Error::Device(_))),
        !(second matches Err(Error::Device(_))),
    ensures
        match (first, second) {
            (Ok(a), Ok(b)) => {
                &&& a.volume@ == b.volume@
                &&& a.free_clusters == b.free_clusters
                &&& a.media() == b.media()
            },
            (Err(a), Err(b)) => a == b,
            _ => false,
        },
{
}

/// Mounting a device fails or not, and with the same error, whether or not a
/// failure returns the device, where the device reports the same errors both
/// times. A device that is returned holds what it did, so that mounting can be
/// tried again with it. Here `left` is the device once it was mounted without
/// being returned.
pub proof fn law_mounting_fails_alike<D: BlockDevice>(
    device: D,
    scratch_len: nat,
    first: Result<FileSystem<D>, (D, Error<D::Error>)>,
    second: Result<FileSystem<D>, Error<D::Error>>,
    left: D,
)
    requires
        match first {
            Ok(fs) => fs_mount::is_mounted(device, scratch_len, fs) && left.failures()
                == fs.device.failures(),
            Err((returned, error)) => fs_mount::is_returned(device, scratch_len, returned, error)
                && left.failures() == returned.failures(),
        },
        match second {
            Ok(fs) => fs_mount::is_mounted(device, scratch_len, fs) && left == fs.device,
            Err(error) => fs_mount::is_returned(device, scratch_len, left, error),
        },
    ensures
        match (first, second) {
            (Ok(a), Ok(b)) => {
                &&& a.volume@ == b.volume@
                &&& a.free_clusters == b.free_clusters
                &&& a.media() == b.media()
            },
            (Err((returned, a)), Err(b)) => {
                &&& a == b
                &&& device::same_shape(device, returned)
                &&& returned.media() == device.media()
                &&& returned.stable() == device.stable()
            },
            _ => false,
        },
{
    let before = device.failures();
    assert forall|a: D::Error, b: D::Error| #[trigger] before.push(a) == #[trigger] before.push(
        b,
    ) implies a == b by {
        assert(before.push(a).last() == a);
        assert(before.push(b).last() == b);
    }
    assert forall|a: D::Error| #[trigger] before.push(a) != before by {
        assert(before.push(a).len() == before.len() + 1);
    }
}

/// Whether a volume that mounted with `free` free clusters on `m` does so with
/// `free2` of them on `m2`, and is the same volume otherwise.
#[verifier::opaque]
pub open spec fn mounts_again<E>(v: Volume, m: Media, m2: Media, free: u32, free2: u32) -> bool {
    let size = v.geometry.bytes_per_sector as usize;
    forall|total: u64, scratch_len: nat|
        is_set_apart(v.geometry, m, total) && #[trigger] fs_mount::mount_result::<E>(
            m,
            size,
            total,
            scratch_len,
        ) == Ok::<(VolumeModel, u32), Error<E>>((v@, free)) ==> {
            &&& is_set_apart(v.geometry, m2, total)
            &&& fs_mount::mount_result::<E>(m2, size, total, scratch_len) == Ok::<
                (VolumeModel, u32),
                Error<E>,
            >((v@, free2))
        }
}

/// A volume that mounts again after each of two changes does so after both.
pub proof fn lemma_mounts_on<E>(
    v: Volume,
    m1: Media,
    m2: Media,
    m3: Media,
    free1: u32,
    free2: u32,
    free3: u32,
)
    requires
        mounts_again::<E>(v, m1, m2, free1, free2),
        mounts_again::<E>(v, m2, m3, free2, free3),
    ensures
        mounts_again::<E>(v, m1, m3, free1, free3),
{
    reveal(mounts_again);
}

/// A volume that was not changed mounts again.
pub proof fn lemma_mounts_still<E>(v: Volume, m: Media, free: u32)
    ensures
        mounts_again::<E>(v, m, m, free, free),
{
    reveal(mounts_again);
}

/// A change that keeps UpCase table and system entries.
pub proof fn lemma_mounts_again<E>(
    v: Volume,
    m: Media,
    m2: Media,
    free: u32,
    free2: u32,
    touched: Set<u32>,
)
    requires
        regions::sound(v, m, free),
        regions::evolves(v, m, m2, free2, touched),
        forall|c: u32| #[trigger] touched.contains(c) ==> !regions::is_table(v, m, c),
        systems::is_kept(v.geometry, m, m2),
    ensures
        mounts_again::<E>(v, m, m2, free, free2),
{
    reveal(mounts_again);
    let g = v.geometry;
    let size = g.bytes_per_sector as usize;
    assert forall|total: u64, scratch_len: nat|
        is_set_apart(g, m, total) && #[trigger] fs_mount::mount_result::<E>(
            m,
            size,
            total,
            scratch_len,
        ) == Ok::<(VolumeModel, u32), Error<E>>((v@, free)) implies is_set_apart(g, m2, total)
        && fs_mount::mount_result::<E>(m2, size, total, scratch_len) == Ok::<
        (VolumeModel, u32),
        Error<E>,
    >((v@, free2)) by {
        assert(system::root_system(g, m2) == system::root_system(g, m)) by {
            reveal(systems::is_kept);
        }
        assert(m2[0u64] == m[0u64] && m2[1u64] == m[1u64]) by {
            reveal(regions::front_kept);
        }
        law_changed_volume_mounts::<E>(v, m, m2, free, free2, touched, total, scratch_len);
    }
}

} // verus!
