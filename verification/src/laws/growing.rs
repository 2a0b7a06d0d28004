//! Growing a file: allocating clusters for it and appending to it.

use crate::arith;
use crate::device;
use crate::device::Media;
use crate::directory::slots;
use crate::error::Error;
use crate::fs::allocation;
use crate::fs::file::FileModel;
use crate::fs::growth;
use crate::fs::release;
use crate::fs::state::Plan;
use crate::geometry::Geometry;
use crate::laws::allocating;
use crate::laws::files;
use crate::laws::regions;
use crate::mount::Volume;
use vstd::prelude::*;

verus! {

/// The clusters from `first` on, `count` of them.
pub open spec fn run_of(first: int, count: nat) -> Set<u32> {
    Set::new(|c: u32| first <= c < first + count)
}

/// What a change to the FAT alone leaves as it was.
pub open spec fn only_fat(v: Volume, m: Media, m2: Media) -> bool {
    &&& regions::same_used(v, m, m2)
    &&& forall|d: u32|
        v.geometry.in_heap(d) ==> #[trigger] regions::same_cluster(v.geometry, m, m2, d)
}

/// One change to the FAT alone after another.
proof fn lemma_only_fat_on(v: Volume, m1: Media, m2: Media, m3: Media)
    requires
        only_fat(v, m1, m2),
        only_fat(v, m2, m3),
    ensures
        only_fat(v, m1, m3),
{
    let g = v.geometry;
    assert forall|c: int| 2 <= c < g.cluster_count + 2 implies #[trigger] allocation::is_used(
        v,
        m3,
        c,
    ) == allocation::is_used(v, m1, c) by {
        assert(allocation::is_used(v, m2, c) == allocation::is_used(v, m1, c));
    }
    assert forall|d: u32| g.in_heap(d) implies #[trigger] regions::same_cluster(g, m1, m3, d) by {
        assert(regions::same_cluster(g, m1, m2, d));
        assert(regions::same_cluster(g, m2, m3, d));
        assert forall|s: int| 0 <= s < g.sectors_per_cluster implies
            #[trigger] regions::cluster_sector(g, m3, d, s) == regions::cluster_sector(
            g,
            m1,
            d,
            s,
        ) by {
            assert(regions::cluster_sector(g, m2, d, s) == regions::cluster_sector(g, m1, d, s));
        }
    }
}

/// Linking contiguous clusters.
pub proof fn lemma_linked<E>(v: Volume, m: Media, free: u32, first: int, count: nat)
    requires
        regions::sound(v, m, free),
        0 <= first,
        first + count < u32::MAX,
        forall|k: int|
            first <= k < first + count ==> #[trigger] regions::is_plain(v, m, k as u32),
    ensures
        ({
            let plan = growth::link_plan::<E>(v, m, free, first, count);
            let m2 = plan.leaves(m);
            &&& plan.result == Ok::<(), Error<E>>(())
            &&& plan.free == free
            &&& regions::evolves(v, m, m2, free, run_of(first, count))
            &&& only_fat(v, m, m2)
            &&& forall|k: int|
                first <= k < first + count ==> #[trigger] slots::fat_entry(
                    v.geometry,
                    m2,
                    k as u32,
                ) == k + 1
        }),
    decreases count,
{
    let g = v.geometry;
    let plan = growth::link_plan::<E>(v, m, free, first, count);
    let m3 = plan.leaves(m);
    if count == 0 {
        regions::lemma_front_still(g, m);
        assert(m3 == m);
    } else {
        let c = first as u32;
        let set = allocation::set_fat_plan::<E>(v, m, free, c, (first + 1) as u32);
        let m2 = set.leaves(m);
        assert(regions::is_plain(v, m, first as u32));
        allocating::lemma_fat_written::<E>(v, m, free, c, (first + 1) as u32);
        assert forall|k: int| first + 1 <= k < first + 1 + (count - 1) implies
            #[trigger] regions::is_plain(v, m2, k as u32) by {
            assert(regions::is_plain(v, m, k as u32));
        }
        lemma_linked::<E>(v, m2, free, first + 1, (count - 1) as nat);
        let next = growth::link_plan::<E>(v, m2, free, first + 1, (count - 1) as nat);
        assert(plan == set.and(next));
        device::lemma_applied_concat(m, set.writes, next.writes);
        assert(m3 == next.leaves(m2));
        allocating::lemma_evolves_on(
            v,
            m,
            m2,
            m3,
            free,
            free,
            set![c],
            run_of(first + 1, (count - 1) as nat),
            run_of(first, count),
        );
        lemma_only_fat_on(v, m, m2, m3);
        regions::lemma_geometry(g);
        assert(slots::fat_entry(g, m3, c) == slots::fat_entry(g, m2, c)) by {
            assert(!run_of(first + 1, (count - 1) as nat).contains(c));
            assert(g.fat_holds(c));
        }
    }
}

/// A chain of linked contiguous clusters.
proof fn lemma_linked_chain(g: Geometry, m: Media, first: u32, i: nat)
    requires
        regions::apart(g),
        first + i < g.cluster_count + 2,
        2 <= first,
        forall|k: int|
            first <= k < first + i ==> #[trigger] slots::fat_entry(g, m, k as u32) == k + 1,
    ensures
        allocation::chain_at(g, m, first, i) == Some((first + i) as u32),
    decreases i,
{
    if i > 0 {
        lemma_linked_chain(g, m, first, (i - 1) as nat);
        let k = first + i - 1;
        assert(slots::fat_entry(g, m, k as u32) == k + 1);
        assert(g.fat_holds(k as u32));
    }
}

/// A file that can still grow has fewer clusters than the volume.
proof fn lemma_fewer(v: Volume, m: Media, f: FileModel, new: u32)
    requires
        regions::apart(v.geometry),
        files::file_sound(v, m, f),
        v.geometry.in_heap(new),
        !files::owns(v.geometry, m, f, new),
        0 <= files::count_of(v.geometry, f),
    ensures
        files::count_of(v.geometry, f) < v.geometry.cluster_count,
{
    let g = v.geometry;
    let n = files::count_of(g, f);
    regions::lemma_geometry(g);
    let all = Seq::new(
        (n + 1) as nat,
        |i: int|
            if i < n {
                files::cluster_at(g, m, f, i)->0 as int
            } else {
                new as int
            },
    );
    let range = vstd::set_lib::set_int_range(2, g.cluster_count + 2);
    assert(all.no_duplicates()) by {
        assert forall|i: int, j: int|
            0 <= i < all.len() && 0 <= j < all.len() && i != j implies all[i] != all[j] by {
            if i < n {
                assert(files::cluster_at(g, m, f, i) is Some);
                assert(files::owns(g, m, f, files::cluster_at(g, m, f, i)->0));
            }
            if j < n {
                assert(files::cluster_at(g, m, f, j) is Some);
                assert(files::owns(g, m, f, files::cluster_at(g, m, f, j)->0));
            }
        }
    }
    all.unique_seq_to_set();
    assert(all.to_set().subset_of(range)) by {
        assert forall|x: int| all.to_set().contains(x) implies range.contains(x) by {
            let i = choose|i: int| 0 <= i < all.len() && all[i] == x;
            if i < n {
                assert(files::cluster_at(g, m, f, i) is Some);
            }
        }
    }
    vstd::set_lib::lemma_int_range(2, g.cluster_count + 2);
    vstd::set_lib::lemma_len_subset(all.to_set(), range);
}

/// How many clusters a file takes, and how many one that is a cluster longer.
pub proof fn lemma_count(g: Geometry, f: FileModel)
    requires
        regions::apart(g),
    ensures
        0 <= files::count_of(g, f),
        f.data_length > 0 <==> files::count_of(g, f) > 0,
        release::clusters_for(g, f.data_length + g.cluster_bytes()) == files::count_of(g, f) + 1,
        f.data_length <= files::count_of(g, f) * g.cluster_bytes(),
{
    let cb = g.cluster_bytes();
    let length = f.data_length as int;
    regions::lemma_geometry(g);
    release::lemma_clusters(g, length);
    if length > 0 {
        let q = (length - 1) / cb;
        let r = (length - 1) % cb;
        vstd::arithmetic::div_mod::lemma_fundamental_div_mod(length - 1, cb);
        vstd::arithmetic::div_mod::lemma_mod_bound(length - 1, cb);
        vstd::arithmetic::mul::lemma_mul_is_commutative(cb, q);
        assert((q + 1) * cb == q * cb + cb) by (nonlinear_arith);
        arith::lemma_split(q + 1, r, cb);
        assert(length + cb - 1 == (q + 1) * cb + r);
    } else {
        vstd::arithmetic::div_mod::lemma_basic_div(cb - 1, cb);
        vstd::arithmetic::div_mod::lemma_basic_div(0, cb);
    }
}

/// Whether a plan has joined the cluster `new` to a file: the file's clusters
/// are the old ones and then the new one.
pub open spec fn has_joined<E>(
    v: Volume,
    m: Media,
    free: u32,
    f: FileModel,
    tail: u32,
    new: u32,
    plan: Plan<(), E>,
) -> bool {
    let g = v.geometry;
    let n = files::count_of(g, f);
    let m2 = plan.leaves(m);
    let f2 = growth::grown(g, f, Some(tail), new);
    &&& plan.result == Ok::<(), Error<E>>(())
    &&& plan.free == free
    &&& regions::evolves(v, m, m2, free, files::owned(g, m, f))
    &&& only_fat(v, m, m2)
    &&& forall|i: int|
        0 <= i < n ==> #[trigger] files::cluster_at(g, m2, f2, i) == files::cluster_at(g, m, f, i)
    &&& files::cluster_at(g, m2, f2, n) == Some(new)
}

/// Whether `tail` is the last cluster of a sound file that `new` can join.
pub open spec fn can_join(
    v: Volume,
    m: Media,
    free: u32,
    f: FileModel,
    tail: u32,
    new: u32,
) -> bool {
    let g = v.geometry;
    &&& regions::sound(v, m, free)
    &&& files::file_sound(v, m, f)
    &&& f.cache is None
    &&& files::count_of(g, f) >= 1
    &&& files::cluster_at(g, m, f, files::count_of(g, f) - 1) == Some(tail)
    &&& g.in_heap(new)
    &&& !files::owns(g, m, f, new)
}

/// Joining a new cluster to a FAT chain.
proof fn lemma_joined_chain<E>(v: Volume, m: Media, free: u32, f: FileModel, tail: u32, new: u32)
    requires
        can_join(v, m, free, f, tail, new),
        !f.no_fat_chain,
    ensures
        has_joined(v, m, free, f, tail, new, growth::join_plan::<E>(v, m, free, f, tail, new)),
{
    let g = v.geometry;
    let n = files::count_of(g, f);
    let first = f.first_cluster;
    let plan = growth::join_plan::<E>(v, m, free, f, tail, new);
    let m3 = plan.leaves(m);
    let f2 = growth::grown(g, f, Some(tail), new);
    regions::lemma_geometry(g);
    lemma_fewer(v, m, f, new);
    files::lemma_first_in_heap(v, m, f);
    assert(files::owns(g, m, f, tail));
    let set = allocation::set_fat_plan::<E>(v, m, free, tail, new);
    let none = Plan::<(), E>::answer(free, Ok(()));
    assert(none.leaves(m) == m);
    assert(plan.writes =~= set.writes);
    allocating::lemma_fat_written::<E>(v, m, free, tail, new);
    files::lemma_wider(v, m, m3, free, set![tail], files::owned(g, m, f));
    assert forall|i: int| 0 <= i < n implies #[trigger] files::cluster_at(g, m3, f2, i)
        == files::cluster_at(g, m, f, i) by {
        assert forall|j: int| 0 <= j < i implies !set![tail].contains(
            (#[trigger] files::cluster_at(g, m, f, j))->0,
        ) by {
            assert(files::cluster_at(g, m, f, j) is Some);
        }
        files::lemma_clusters_kept(v, m, m3, f, set![tail], i);
        assert(files::cluster_at(g, m3, f2, i) == files::cluster_at(g, m3, f, i));
    }
    assert(files::cluster_at(g, m3, f2, n - 1) == Some(tail));
    assert(allocation::chain_at(g, m3, first, (n - 1) as nat) == Some(tail));
    assert(allocation::chain_at(g, m3, first, n as nat) == Some(new));
}

/// Which clusters a contiguous file has.
pub proof fn lemma_contiguous(v: Volume, m: Media, f: FileModel)
    requires
        regions::apart(v.geometry),
        files::file_sound(v, m, f),
        f.no_fat_chain,
    ensures
        forall|i: int|
            0 <= i < files::count_of(v.geometry, f) ==> (#[trigger] files::cluster_at(
                v.geometry,
                m,
                f,
                i,
            )) == Some((f.first_cluster + i) as u32) && f.first_cluster + i
                < v.geometry.cluster_count + 2,
        forall|c: int|
            f.first_cluster <= c < f.first_cluster + files::count_of(v.geometry, f)
                ==> #[trigger] regions::is_plain(v, m, c as u32) && files::owns(
                v.geometry,
                m,
                f,
                c as u32,
            ),
{
    let g = v.geometry;
    let first = f.first_cluster;
    let n = files::count_of(g, f);
    regions::lemma_geometry(g);
    assert forall|i: int| 0 <= i < n implies (#[trigger] files::cluster_at(g, m, f, i)) == Some(
        (first + i) as u32,
    ) && first + i < g.cluster_count + 2 by {
        assert(files::cluster_at(g, m, f, i) is Some);
    }
    assert forall|c: int| first <= c < first + n implies #[trigger] regions::is_plain(
        v,
        m,
        c as u32,
    ) && files::owns(g, m, f, c as u32) by {
        assert(files::cluster_at(g, m, f, c - first) == Some(c as u32));
    }
}

/// Joining a new cluster that lies elsewhere to contiguous ones.
proof fn lemma_joined_run<E>(v: Volume, m: Media, free: u32, f: FileModel, tail: u32, new: u32)
    requires
        can_join(v, m, free, f, tail, new),
        f.no_fat_chain,
        new != tail + 1,
    ensures
        has_joined(v, m, free, f, tail, new, growth::join_plan::<E>(v, m, free, f, tail, new)),
{
    let g = v.geometry;
    let n = files::count_of(g, f);
    let first = f.first_cluster;
    let plan = growth::join_plan::<E>(v, m, free, f, tail, new);
    let m3 = plan.leaves(m);
    let f2 = growth::grown(g, f, Some(tail), new);
    let all = files::owned(g, m, f);
    let k = (n - 1) as nat;
    let link = growth::link_plan::<E>(v, m, free, first as int, k);
    let m2 = link.leaves(m);
    let run = run_of(first as int, k);
    regions::lemma_geometry(g);
    lemma_count(g, f);
    lemma_fewer(v, m, f, new);
    files::lemma_first_in_heap(v, m, f);
    lemma_contiguous(v, m, f);
    assert(files::cluster_at(g, m, f, n - 1) == Some((first + (n - 1)) as u32));
    assert(tail == first + k);
    lemma_linked::<E>(v, m, free, first as int, k);
    assert(regions::is_plain(v, m, tail as int as u32));
    let set = allocation::set_fat_plan::<E>(v, m2, free, tail, new);
    allocating::lemma_fat_written::<E>(v, m2, free, tail, new);
    device::lemma_applied_concat(m, link.writes, set.writes);
    assert(link.writes + set.writes =~= plan.writes);
    assert(m3 == set.leaves(m2));
    assert(run.subset_of(all)) by {
        assert forall|c: u32| run.contains(c) implies all.contains(c) by {
            assert(regions::is_plain(v, m, c as int as u32));
        }
    }
    assert(set![tail].subset_of(all));
    allocating::lemma_evolves_on(v, m, m2, m3, free, free, run, set![tail], all);
    lemma_only_fat_on(v, m, m2, m3);
    assert forall|c: int| first <= c < first + k implies #[trigger] slots::fat_entry(
        g,
        m3,
        c as u32,
    ) == c + 1 by {
        assert(slots::fat_entry(g, m2, c as u32) == c + 1);
        assert(regions::is_plain(v, m, c as u32));
        assert(!set![tail].contains(c as u32));
        assert(g.fat_holds(c as u32));
    }
    assert forall|i: int| 0 <= i < n implies #[trigger] files::cluster_at(g, m3, f2, i)
        == files::cluster_at(g, m, f, i) by {
        assert(files::cluster_at(g, m, f, i) == Some((first + i) as u32));
        lemma_linked_chain(g, m3, first, i as nat);
    }
    assert(files::cluster_at(g, m3, f2, n - 1) == Some(tail));
    assert(allocation::chain_at(g, m3, first, (n - 1) as nat) == Some(tail));
    assert(allocation::chain_at(g, m3, first, n as nat) == Some(new));
}

/// Joining a new cluster to a file.
pub proof fn lemma_joined<E>(v: Volume, m: Media, free: u32, f: FileModel, tail: u32, new: u32)
    requires
        can_join(v, m, free, f, tail, new),
    ensures
        has_joined(v, m, free, f, tail, new, growth::join_plan::<E>(v, m, free, f, tail, new)),
{
    if !f.no_fat_chain {
        lemma_joined_chain::<E>(v, m, free, f, tail, new);
    } else if new != tail + 1 {
        lemma_joined_run::<E>(v, m, free, f, tail, new);
    } else {
        let g = v.geometry;
        let n = files::count_of(g, f);
        let plan = growth::join_plan::<E>(v, m, free, f, tail, new);
        let f2 = growth::grown(g, f, Some(tail), new);
        regions::lemma_geometry(g);
        lemma_fewer(v, m, f, new);
        lemma_contiguous(v, m, f);
        assert(plan.leaves(m) == m);
        files::lemma_unchanged(v, m, free, files::owned(g, m, f));
        assert(files::cluster_at(g, m, f, n - 1) == Some((f.first_cluster + (n - 1)) as u32));
        assert forall|i: int| 0 <= i < n implies #[trigger] files::cluster_at(g, m, f2, i)
            == files::cluster_at(g, m, f, i) by {}
    }
}

/// Whether `f2` is the handle `f` with more clusters: the old ones keep their
/// places and bytes, the new ones were free before, and nothing but the file's
/// own clusters has changed.
#[verifier::opaque]
pub open spec fn extends(
    v: Volume,
    m: Media,
    m2: Media,
    free: u32,
    free2: u32,
    f: FileModel,
    f2: FileModel,
) -> bool {
    let g = v.geometry;
    &&& regions::evolves(v, m, m2, free2, files::owned(g, m2, f2))
    &&& files::file_sound(v, m2, f2)
    &&& f2 == (FileModel {
        first_cluster: f2.first_cluster,
        data_length: f2.data_length,
        no_fat_chain: f2.no_fat_chain,
        cache: None,
        ..f
    })
    &&& f.data_length <= f2.data_length
    &&& f2.no_fat_chain ==> f.no_fat_chain
    &&& files::count_of(g, f2) - files::count_of(g, f) == free - free2
    &&& free2 <= free
    &&& forall|i: int|
        0 <= i < files::count_of(g, f) ==> #[trigger] files::cluster_at(g, m2, f2, i)
            == files::cluster_at(g, m, f, i)
    &&& forall|i: int|
        files::count_of(g, f) <= i < files::count_of(g, f2) ==> allocation::is_used(
            v,
            m,
            (#[trigger] files::cluster_at(g, m2, f2, i))->0 as int,
        ) == Some(false)
    &&& forall|i: int|
        0 <= i < files::count_of(g, f) ==> regions::same_cluster(
            g,
            m,
            m2,
            (#[trigger] files::cluster_at(g, m, f, i))->0,
        )
}

/// A file with one more cluster.
proof fn lemma_one_more(
    v: Volume,
    m: Media,
    m1: Media,
    m2: Media,
    free: u32,
    f: FileModel,
    f2: FileModel,
    new: u32,
)
    requires
        free > 0,
        regions::sound(v, m, free),
        files::file_sound(v, m, f),
        f.cache is None,
        regions::is_plain(v, m, new),
        allocation::is_used(v, m, new as int) == Some(false),
        regions::evolves(v, m, m1, (free - 1) as u32, set![new]),
        allocation::is_used(v, m1, new as int) == Some(true),
        files::owned(v.geometry, m1, f) == files::owned(v.geometry, m, f),
        forall|i: int|
            0 <= i < files::count_of(v.geometry, f) ==> #[trigger] files::cluster_at(
                v.geometry,
                m1,
                f,
                i,
            ) == files::cluster_at(v.geometry, m, f, i),
        regions::evolves(v, m1, m2, (free - 1) as u32, files::owned(v.geometry, m1, f)),
        only_fat(v, m1, m2),
        f2 == (FileModel {
            first_cluster: f2.first_cluster,
            data_length: f2.data_length,
            no_fat_chain: f2.no_fat_chain,
            cache: None,
            ..f
        }),
        f2.data_length == f.data_length + v.geometry.cluster_bytes(),
        f2.first_cluster != 0,
        f2.no_fat_chain ==> f.no_fat_chain,
        forall|i: int|
            0 <= i < files::count_of(v.geometry, f) ==> #[trigger] files::cluster_at(
                v.geometry,
                m2,
                f2,
                i,
            ) == files::cluster_at(v.geometry, m1, f, i),
        files::cluster_at(v.geometry, m2, f2, files::count_of(v.geometry, f)) == Some(new),
    ensures
        extends(v, m, m2, free, (free - 1) as u32, f, f2),
{
    reveal(extends);
    let g = v.geometry;
    let n = files::count_of(g, f);
    regions::lemma_geometry(g);
    lemma_no_less(g, f);
    lemma_old_clusters(v, m, m1, m2, (free - 1) as u32, f, new);
    assert(allocation::is_used(v, m2, new as int) == allocation::is_used(v, m1, new as int));
    lemma_one_more_evolves(v, m, m1, m2, (free - 1) as u32, f, f2, new);
    assert forall|i: int| 0 <= i < n implies (#[trigger] files::cluster_at(g, m2, f2, i))
        == files::cluster_at(g, m, f, i) by {
        assert(files::cluster_at(g, m1, f, i) == files::cluster_at(g, m, f, i));
    }
    lemma_more_clusters(v, m, m2, f, f2, new);
    assert(f2 =~= (FileModel {
        first_cluster: f2.first_cluster,
        data_length: f2.data_length,
        no_fat_chain: f2.no_fat_chain,
        cache: None,
        ..f
    }));
    assert(f.data_length <= f2.data_length);
    assert forall|i: int| n <= i < files::count_of(g, f2) implies allocation::is_used(
        v,
        m,
        (#[trigger] files::cluster_at(g, m2, f2, i))->0 as int,
    ) == Some(false) by {
        assert(i == n);
    }
}

/// The clusters that change when a file gets another one are all its own.
proof fn lemma_one_more_evolves(
    v: Volume,
    m: Media,
    m1: Media,
    m2: Media,
    free: u32,
    f: FileModel,
    f2: FileModel,
    new: u32,
)
    requires
        regions::evolves(v, m, m1, free, set![new]),
        regions::evolves(v, m1, m2, free, files::owned(v.geometry, m1, f)),
        forall|i: int|
            0 <= i < files::count_of(v.geometry, f) ==> #[trigger] files::cluster_at(
                v.geometry,
                m2,
                f2,
                i,
            ) == files::cluster_at(v.geometry, m1, f, i),
        files::cluster_at(v.geometry, m2, f2, files::count_of(v.geometry, f)) == Some(new),
        f2.data_length == f.data_length + v.geometry.cluster_bytes(),
    ensures
        regions::evolves(v, m, m2, free, files::owned(v.geometry, m2, f2)),
{
    let g = v.geometry;
    let n = files::count_of(g, f);
    let all = files::owned(g, m2, f2);
    let old = files::owned(g, m1, f);
    lemma_count(g, f);
    assert(files::count_of(g, f2) == n + 1);
    assert(old.subset_of(all)) by {
        assert forall|c: u32| old.contains(c) implies all.contains(c) by {
            let i = choose|i: int|
                0 <= i < n && #[trigger] files::cluster_at(g, m1, f, i) == Some(c);
            assert(files::cluster_at(g, m2, f2, i) == Some(c));
        }
    }
    assert(set![new].subset_of(all)) by {
        assert(files::owns(g, m2, f2, new));
    }
    allocating::lemma_evolves_on(v, m, m1, m2, free, free, set![new], old, all);
}

/// What becomes of a file's clusters when another one is claimed and joined to
/// it.
proof fn lemma_old_clusters(
    v: Volume,
    m: Media,
    m1: Media,
    m2: Media,
    free: u32,
    f: FileModel,
    new: u32,
)
    requires
        regions::apart(v.geometry),
        files::file_sound(v, m, f),
        allocation::is_used(v, m, new as int) == Some(false),
        regions::evolves(v, m, m1, free, set![new]),
        only_fat(v, m1, m2),
        regions::same_system(v, m1, m2),
    ensures
        forall|i: int|
            0 <= i < files::count_of(v.geometry, f) ==> allocation::is_used(
                v,
                m2,
                (#[trigger] files::cluster_at(v.geometry, m, f, i))->0 as int,
            ) == Some(true) && files::cluster_at(v.geometry, m, f, i)->0 != new,
        forall|i: int|
            0 <= i < files::count_of(v.geometry, f) ==> regions::same_cluster(
                v.geometry,
                m,
                m2,
                (#[trigger] files::cluster_at(v.geometry, m, f, i))->0,
            ),
        forall|c: u32| #[trigger] regions::is_plain(v, m, c) ==> regions::is_plain(v, m2, c),
{
    let g = v.geometry;
    let n = files::count_of(g, f);
    regions::lemma_geometry(g);
    assert forall|i: int| 0 <= i < n implies allocation::is_used(
        v,
        m2,
        (#[trigger] files::cluster_at(g, m, f, i))->0 as int,
    ) == Some(true) && files::cluster_at(g, m, f, i)->0 != new && regions::same_cluster(
        g,
        m,
        m2,
        files::cluster_at(g, m, f, i)->0,
    ) by {
        let c = files::cluster_at(g, m, f, i)->0;
        assert(files::cluster_at(g, m, f, i) is Some);
        assert(allocation::is_used(v, m, c as int) == Some(true));
        assert(!set![new].contains(c));
        assert(allocation::is_used(v, m1, c as int) == allocation::is_used(v, m, c as int));
        assert(allocation::is_used(v, m2, c as int) == allocation::is_used(v, m1, c as int));
        lemma_same_cluster_on(g, m, m1, m2, c);
    }
    assert forall|c: u32| #[trigger] regions::is_plain(v, m, c) implies regions::is_plain(
        v,
        m2,
        c,
    ) by {
        assert(!regions::is_bitmap(v, m1, c) && !regions::is_table(v, m1, c));
        assert(!regions::is_bitmap(v, m2, c) && !regions::is_table(v, m2, c));
    }
}

/// A file has no fewer than zero clusters.
proof fn lemma_no_less(g: Geometry, f: FileModel)
    requires
        regions::apart(g),
    ensures
        0 <= files::count_of(g, f),
{
    lemma_count(g, f);
}

/// A cluster that is kept twice is kept.
pub proof fn lemma_same_cluster_on(g: Geometry, m1: Media, m2: Media, m3: Media, c: u32)
    requires
        regions::same_cluster(g, m1, m2, c),
        regions::same_cluster(g, m2, m3, c),
    ensures
        regions::same_cluster(g, m1, m3, c),
{
    assert forall|s: int| 0 <= s < g.sectors_per_cluster implies
        #[trigger] regions::cluster_sector(g, m3, c, s) == regions::cluster_sector(g, m1, c, s) by {
        assert(regions::cluster_sector(g, m2, c, s) == regions::cluster_sector(g, m1, c, s));
    }
}

/// A file with one more cluster is sound.
proof fn lemma_more_clusters(
    v: Volume,
    m: Media,
    m2: Media,
    f: FileModel,
    f2: FileModel,
    new: u32,
)
    requires
        regions::apart(v.geometry),
        files::file_sound(v, m, f),
        f2.cache is None,
        f2.valid_length == f.valid_length,
        f2.data_length == f.data_length + v.geometry.cluster_bytes(),
        f2.first_cluster != 0,
        f2.no_fat_chain ==> f.no_fat_chain,
        forall|i: int|
            0 <= i < files::count_of(v.geometry, f) ==> #[trigger] files::cluster_at(
                v.geometry,
                m2,
                f2,
                i,
            ) == files::cluster_at(v.geometry, m, f, i),
        forall|i: int|
            0 <= i < files::count_of(v.geometry, f) ==> allocation::is_used(
                v,
                m2,
                (#[trigger] files::cluster_at(v.geometry, m, f, i))->0 as int,
            ) == Some(true) && files::cluster_at(v.geometry, m, f, i)->0 != new,
        files::cluster_at(v.geometry, m2, f2, files::count_of(v.geometry, f)) == Some(new),
        regions::is_plain(v, m2, new),
        allocation::is_used(v, m2, new as int) == Some(true),
        forall|c: u32| #[trigger] regions::is_plain(v, m, c) ==> regions::is_plain(v, m2, c),
    ensures
        files::file_sound(v, m2, f2),
        files::count_of(v.geometry, f2) == files::count_of(v.geometry, f) + 1,
{
    let g = v.geometry;
    let n = files::count_of(g, f);
    regions::lemma_geometry(g);
    lemma_count(g, f);
    assert forall|i: int| 0 <= i < n + 1 implies (#[trigger] files::cluster_at(g, m2, f2, i)
        matches Some(c) && regions::is_plain(v, m2, c) && allocation::is_used(v, m2, c as int)
        == Some(true)) by {
        if i < n {
            assert(files::cluster_at(g, m, f, i) is Some);
            assert(regions::is_plain(v, m, files::cluster_at(g, m, f, i)->0));
        }
    }
    assert forall|i: int, j: int|
        0 <= i < n + 1 && 0 <= j < n + 1 && #[trigger] files::cluster_at(g, m2, f2, i)
            == #[trigger] files::cluster_at(g, m2, f2, j) implies i == j by {
        if i < n && j < n {
            assert(files::cluster_at(g, m, f, i) == files::cluster_at(g, m, f, j));
        } else if i < n {
            assert(files::cluster_at(g, m, f, i) is Some);
        } else if j < n {
            assert(files::cluster_at(g, m, f, j) is Some);
        }
    }
}

/// The last cluster of a sound file is found.
pub proof fn lemma_tail<E>(v: Volume, m: Media, f: FileModel)
    requires
        regions::apart(v.geometry),
        files::file_sound(v, m, f),
    ensures
        ({
            let g = v.geometry;
            let n = files::count_of(g, f);
            growth::tail_result::<E>(g, m, f) == if n == 0 {
                Ok::<Option<u32>, Error<E>>(None)
            } else {
                Ok(files::cluster_at(g, m, f, n - 1))
            }
        }),
{
    let g = v.geometry;
    let n = files::count_of(g, f);
    regions::lemma_geometry(g);
    lemma_count(g, f);
    if n > 0 {
        files::lemma_first_in_heap(v, m, f);
        assert(files::cluster_at(g, m, f, n - 1) is Some);
    }
}

/// A sound file is not so long that another cluster would not fit in 64 bits.
proof fn lemma_length_fits(v: Volume, m: Media, f: FileModel)
    requires
        regions::apart(v.geometry),
        files::file_sound(v, m, f),
    ensures
        files::count_of(v.geometry, f) <= v.geometry.cluster_count,
        f.data_length + v.geometry.cluster_bytes() <= u64::MAX,
{
    let g = v.geometry;
    let n = files::count_of(g, f);
    let cb = g.cluster_bytes();
    regions::lemma_geometry(g);
    lemma_count(g, f);
    if n > 0 {
        assert(files::cluster_at(g, m, f, n - 1) is Some);
    }
    assert(n * cb <= 0x1_0000_0000 * 0x200_0000) by (nonlinear_arith)
        requires
            0 <= n <= 0x1_0000_0000,
            0 <= cb <= 0x200_0000,
    ;
}

/// Giving a sound file one more cluster succeeds as long as one is free.
pub proof fn lemma_extended<E>(v: Volume, m: Media, free: u32, f: FileModel)
    requires
        regions::sound(v, m, free),
        files::file_sound(v, m, f),
        f.cache is None,
    ensures
        ({
            let plan = growth::extend_plan::<E>(v, m, free, f);
            match plan.result {
                Ok(f2) => {
                    &&& free > 0
                    &&& plan.free == free - 1
                    &&& f2.data_length == f.data_length + v.geometry.cluster_bytes()
                    &&& extends(v, m, plan.leaves(m), free, plan.free, f, f2)
                },
                Err(error) => {
                    &&& free == 0
                    &&& error == Error::<E>::NoSpace
                    &&& plan.leaves(m) == m
                    &&& plan.free == free
                },
            }
        }),
{
    reveal(growth::extend_plan);
    let g = v.geometry;
    let n = files::count_of(g, f);
    let plan = growth::extend_plan::<E>(v, m, free, f);
    regions::lemma_geometry(g);
    lemma_count(g, f);
    lemma_tail::<E>(v, m, f);
    lemma_length_fits(v, m, f);
    if n > 0 {
        assert(files::cluster_at(g, m, f, n - 1) is Some);
    }
    let tail = growth::tail_result::<E>(g, m, f)->Ok_0;
    let preferred = match tail {
        Some(last) => (last + 1) as u32,
        None => 2u32,
    };
    let take = allocation::allocate_plan::<E>(v, m, free, preferred);
    let m1 = take.leaves(m);
    allocating::law_allocation_claims_a_free_cluster::<E>(v, m, free, preferred);
    if free > 0 {
        let new = take.result->Ok_0;
        let f2 = growth::grown(g, f, tail, new);
        assert(set![new].disjoint(files::owned(g, m, f))) by {
            assert forall|c: u32| files::owned(g, m, f).contains(c) implies c != new by {
                let i = choose|i: int|
                    0 <= i < n && #[trigger] files::cluster_at(g, m, f, i) == Some(c);
                assert(allocation::is_used(v, m, c as int) == Some(true));
            }
        }
        files::law_untouched_file_keeps_its_bytes(v, m, m1, f, set![new]);
        lemma_clusters_found(v, m, m1, f, new);
        match tail {
            Some(last) => {
                assert(!files::owned(g, m1, f).contains(new));
                lemma_joined::<E>(v, m1, take.free, f, last, new);
                let join = growth::join_plan::<E>(v, m1, take.free, f, last, new);
                let m2 = join.leaves(m1);
                device::lemma_applied_concat(m, take.writes, join.writes);
                assert(plan.writes =~= take.writes + join.writes);
                assert(plan.leaves(m) == m2);
                lemma_one_more(v, m, m1, m2, free, f, f2, new);
            },
            None => {
                assert(plan.writes =~= take.writes);
                files::lemma_unchanged(v, m1, take.free, files::owned(g, m1, f));
                lemma_one_more(v, m, m1, m1, free, f, f2, new);
            },
        }
    }
}

/// A newly claimed cluster can join a file.
pub proof fn lemma_joinable(
    v: Volume,
    m: Media,
    m1: Media,
    free: u32,
    free1: u32,
    f: FileModel,
    tail: u32,
    new: u32,
)
    requires
        regions::sound(v, m, free),
        files::file_sound(v, m, f),
        f.cache is None,
        files::count_of(v.geometry, f) >= 1,
        files::cluster_at(v.geometry, m, f, files::count_of(v.geometry, f) - 1) == Some(tail),
        v.geometry.in_heap(new),
        allocation::is_used(v, m, new as int) == Some(false),
        regions::evolves(v, m, m1, free1, set![new]),
    ensures
        can_join(v, m1, free1, f, tail, new),
{
    let g = v.geometry;
    let n = files::count_of(g, f);
    assert(set![new].disjoint(files::owned(g, m, f))) by {
        assert forall|c: u32| files::owned(g, m, f).contains(c) implies c != new by {
            let i = choose|i: int|
                0 <= i < n && #[trigger] files::cluster_at(g, m, f, i) == Some(c);
            assert(allocation::is_used(v, m, c as int) == Some(true));
        }
    }
    files::law_untouched_file_keeps_its_bytes(v, m, m1, f, set![new]);
    lemma_clusters_found(v, m, m1, f, new);
    assert(!files::owned(g, m1, f).contains(new));
}

/// Claiming another cluster leaves a file's clusters where they were.
pub proof fn lemma_clusters_found(v: Volume, m: Media, m1: Media, f: FileModel, new: u32)
    requires
        regions::apart(v.geometry),
        files::file_sound(v, m, f),
        regions::changes_only(v, m, m1, set![new]),
        set![new].disjoint(files::owned(v.geometry, m, f)),
    ensures
        forall|i: int|
            0 <= i < files::count_of(v.geometry, f) ==> #[trigger] files::cluster_at(
                v.geometry,
                m1,
                f,
                i,
            ) == files::cluster_at(v.geometry, m, f, i),
{
    let g = v.geometry;
    assert forall|i: int| 0 <= i < files::count_of(g, f) implies #[trigger] files::cluster_at(
        g,
        m1,
        f,
        i,
    ) == files::cluster_at(g, m, f, i) by {
        assert forall|j: int| 0 <= j < i implies !set![new].contains(
            (#[trigger] files::cluster_at(g, m, f, j))->0,
        ) by {
            let c = files::cluster_at(g, m, f, j)->0;
            assert(files::owns(g, m, f, c));
            assert(files::owned(g, m, f).contains(c));
        }
        files::lemma_clusters_kept(v, m, m1, f, set![new], i);
    }
}

/// A file that is extended twice is extended.
proof fn lemma_extends_on(
    v: Volume,
    m1: Media,
    m2: Media,
    m3: Media,
    free1: u32,
    free2: u32,
    free3: u32,
    f1: FileModel,
    f2: FileModel,
    f3: FileModel,
)
    requires
        regions::apart(v.geometry),
        extends(v, m1, m2, free1, free2, f1, f2),
        extends(v, m2, m3, free2, free3, f2, f3),
        0 <= files::count_of(v.geometry, f1),
    ensures
        extends(v, m1, m3, free1, free3, f1, f3),
{
    reveal(extends);
    let g = v.geometry;
    let n1 = files::count_of(g, f1);
    let n2 = files::count_of(g, f2);
    let n3 = files::count_of(g, f3);
    let old = files::owned(g, m2, f2);
    let all = files::owned(g, m3, f3);
    regions::lemma_geometry(g);
    assert(old.subset_of(all)) by {
        assert forall|c: u32| old.contains(c) implies all.contains(c) by {
            let i = choose|i: int|
                0 <= i < n2 && #[trigger] files::cluster_at(g, m2, f2, i) == Some(c);
            assert(files::cluster_at(g, m3, f3, i) == Some(c));
        }
    }
    assert(regions::evolves(v, m1, m3, free3, all)) by {
        allocating::lemma_evolves_on(v, m1, m2, m3, free2, free3, old, all, all);
    }
    assert(f3 =~= (FileModel {
        first_cluster: f3.first_cluster,
        data_length: f3.data_length,
        no_fat_chain: f3.no_fat_chain,
        cache: None,
        ..f1
    }));
    assert forall|i: int| 0 <= i < n1 implies #[trigger] files::cluster_at(g, m3, f3, i)
        == files::cluster_at(g, m1, f1, i) by {
        assert(files::cluster_at(g, m2, f2, i) == files::cluster_at(g, m1, f1, i));
    }
    assert forall|i: int| n1 <= i < n3 implies allocation::is_used(
        v,
        m1,
        (#[trigger] files::cluster_at(g, m3, f3, i))->0 as int,
    ) == Some(false) by {
        let c = files::cluster_at(g, m3, f3, i)->0;
        assert(files::cluster_at(g, m3, f3, i) is Some);
        if i < n2 {
            assert(files::cluster_at(g, m2, f2, i) == Some(c));
        } else {
            assert(allocation::is_used(v, m2, c as int) == Some(false));
            assert(!old.contains(c)) by {
                if files::owns(g, m2, f2, c) {
                    let j = choose|j: int|
                        0 <= j < n2 && #[trigger] files::cluster_at(g, m2, f2, j) == Some(c);
                    assert(allocation::is_used(v, m2, c as int) == Some(true));
                }
            }
        }
    }
    assert forall|i: int| 0 <= i < n1 implies regions::same_cluster(
        g,
        m1,
        m3,
        (#[trigger] files::cluster_at(g, m1, f1, i))->0,
    ) by {
        assert(files::cluster_at(g, m2, f2, i) == files::cluster_at(g, m1, f1, i));
        lemma_same_cluster_on(g, m1, m2, m3, files::cluster_at(g, m1, f1, i)->0);
    }
}

/// What an extended file is.
pub proof fn lemma_extends_facts(
    v: Volume,
    m: Media,
    m2: Media,
    free: u32,
    free2: u32,
    f: FileModel,
    f2: FileModel,
)
    requires
        extends(v, m, m2, free, free2, f, f2),
    ensures
        regions::evolves(v, m, m2, free2, files::owned(v.geometry, m2, f2)),
        files::file_sound(v, m2, f2),
        f2 == (FileModel {
            first_cluster: f2.first_cluster,
            data_length: f2.data_length,
            no_fat_chain: f2.no_fat_chain,
            cache: None,
            ..f
        }),
        f.data_length <= f2.data_length,
{
    reveal(extends);
}

/// How many clusters a file lacks for `end` bytes.
pub open spec fn lacking(g: Geometry, f: FileModel, end: int) -> int {
    if f.data_length >= end {
        0
    } else {
        (end - f.data_length - 1) / g.cluster_bytes() + 1
    }
}

/// A file that lacks clusters lacks one less with one more.
proof fn lemma_lacking(g: Geometry, f: FileModel, f2: FileModel, end: int)
    requires
        regions::apart(g),
        f.data_length < end,
        f2.data_length == f.data_length + g.cluster_bytes(),
    ensures
        lacking(g, f2, end) == lacking(g, f, end) - 1,
        lacking(g, f, end) >= 1,
        lacking(g, f2, end) >= 0,
{
    let cb = g.cluster_bytes();
    regions::lemma_geometry(g);
    let rest = end - f.data_length - 1;
    vstd::arithmetic::div_mod::lemma_fundamental_div_mod(rest, cb);
    vstd::arithmetic::div_mod::lemma_div_pos_is_pos(rest, cb);
    if rest < cb {
        vstd::arithmetic::div_mod::lemma_basic_div(rest, cb);
    } else {
        vstd::arithmetic::div_mod::lemma_div_minus_one(rest, cb);
        vstd::arithmetic::div_mod::lemma_div_pos_is_pos(rest - cb, cb);
    }
}

/// An extension by nothing.
proof fn lemma_extends_by_nothing(v: Volume, m: Media, free: u32, f: FileModel)
    requires
        regions::sound(v, m, free),
        files::file_sound(v, m, f),
        f.cache is None,
    ensures
        extends(v, m, m, free, free, f, f),
{
    reveal(extends);
    let g = v.geometry;
    files::lemma_unchanged(v, m, free, files::owned(g, m, f));
    assert(f =~= (FileModel {
        first_cluster: f.first_cluster,
        data_length: f.data_length,
        no_fat_chain: f.no_fat_chain,
        cache: None,
        ..f
    }));
}

/// Whether a plan has given a file clusters for `end` bytes, or all that there
/// were.
pub open spec fn has_reserved<E>(
    v: Volume,
    m: Media,
    free: u32,
    f: FileModel,
    end: int,
    plan: Plan<FileModel, E>,
) -> bool {
    match plan.result {
        Ok(f2) => {
            &&& lacking(v.geometry, f, end) <= free
            &&& plan.free == free - lacking(v.geometry, f, end)
            &&& extends(v, m, plan.leaves(m), free, plan.free, f, f2)
            &&& f2.data_length >= end
        },
        Err(error) => {
            &&& lacking(v.geometry, f, end) > free
            &&& plan.free == 0
            &&& error == Error::<E>::NoSpace
            &&& exists|f2: FileModel| #[trigger] extends(v, m, plan.leaves(m), free, 0, f, f2)
        },
    }
}

/// Reserving on after a first cluster.
proof fn lemma_reserved_on<E>(
    v: Volume,
    m: Media,
    m1: Media,
    free: u32,
    free1: u32,
    f: FileModel,
    f1: FileModel,
    end: int,
    plan: Plan<FileModel, E>,
    rest: Plan<FileModel, E>,
)
    requires
        regions::apart(v.geometry),
        f.data_length < end,
        f1.data_length == f.data_length + v.geometry.cluster_bytes(),
        free > 0,
        free1 == free - 1,
        extends(v, m, m1, free, free1, f, f1),
        has_reserved(v, m1, free1, f1, end, rest),
        plan.leaves(m) == rest.leaves(m1),
        plan.result == rest.result,
        plan.free == rest.free,
    ensures
        has_reserved(v, m, free, f, end, plan),
{
    let g = v.geometry;
    let m2 = rest.leaves(m1);
    lemma_lacking(g, f, f1, end);
    lemma_no_less(g, f);
    match rest.result {
        Ok(f2) => {
            lemma_extends_on(v, m, m1, m2, free, free1, rest.free, f, f1, f2);
        },
        Err(_) => {
            let f2 = choose|f2: FileModel| #[trigger] extends(v, m1, m2, free1, 0, f1, f2);
            lemma_extends_on(v, m, m1, m2, free, free1, 0, f, f1, f2);
        },
    }
}

/// Giving a sound file clusters for `end` bytes succeeds where enough of them
/// are free. Where not, the file has got them all.
pub proof fn lemma_reserved<E>(v: Volume, m: Media, free: u32, f: FileModel, end: int)
    requires
        regions::sound(v, m, free),
        files::file_sound(v, m, f),
        f.cache is None,
    ensures
        has_reserved(v, m, free, f, end, growth::reserve_plan::<E>(v, m, free, f, end)),
    decreases
            if f.data_length < end {
                end - f.data_length
            } else {
                0
            },
{
    let g = v.geometry;
    let plan = growth::reserve_plan::<E>(v, m, free, f, end);
    regions::lemma_geometry(g);
    if f.data_length >= end {
        lemma_extends_by_nothing(v, m, free, f);
        assert(plan.leaves(m) == m);
    } else {
        let extend = growth::extend_plan::<E>(v, m, free, f);
        let m1 = extend.leaves(m);
        lemma_extended::<E>(v, m, free, f);
        match extend.result {
            Ok(f1) => {
                lemma_extends_facts(v, m, m1, free, extend.free, f, f1);
                lemma_reserved::<E>(v, m1, extend.free, f1, end);
                let rest = growth::reserve_plan::<E>(v, m1, extend.free, f1, end);
                assert(plan == extend.and(rest));
                device::lemma_applied_concat(m, extend.writes, rest.writes);
                lemma_reserved_on(v, m, m1, free, extend.free, f, f1, end, plan, rest);
            },
            Err(_) => {
                assert(plan == extend);
                lemma_extends_by_nothing(v, m, free, f);
                lemma_lacks_some(g, f, end);
            },
        }
    }
}

/// A file that is too short lacks clusters.
proof fn lemma_lacks_some(g: Geometry, f: FileModel, end: int)
    requires
        regions::apart(g),
        f.data_length < end,
    ensures
        lacking(g, f, end) >= 1,
{
    regions::lemma_geometry(g);
    vstd::arithmetic::div_mod::lemma_div_pos_is_pos(end - f.data_length - 1, g.cluster_bytes());
}

/// An extended file keeps its bytes, and the clusters it got were free.
pub proof fn lemma_extends_content(
    v: Volume,
    m: Media,
    m2: Media,
    free: u32,
    free2: u32,
    f: FileModel,
    f2: FileModel,
)
    requires
        regions::sound(v, m, free),
        files::file_sound(v, m, f),
        extends(v, m, m2, free, free2, f, f2),
    ensures
        forall|offset: int|
            0 <= offset < f.data_length ==> #[trigger] files::content(v.geometry, m2, f2, offset)
                == files::content(v.geometry, m, f, offset),
        forall|c: u32| #[trigger]
            files::owned(v.geometry, m2, f2).contains(c) ==> files::owned(
                v.geometry,
                m,
                f,
            ).contains(c) || allocation::is_used(v, m, c as int) == Some(false),
        files::owned(v.geometry, m, f).subset_of(files::owned(v.geometry, m2, f2)),
{
    reveal(extends);
    let g = v.geometry;
    let n = files::count_of(g, f);
    regions::lemma_geometry(g);
    lemma_no_less(g, f);
    assert forall|offset: int| 0 <= offset < f.data_length implies #[trigger] files::content(
        g,
        m2,
        f2,
        offset,
    ) == files::content(g, m, f, offset) by {
        files::lemma_offset(g, f, offset);
        files::lemma_placed(v, m, f, offset);
        files::lemma_placed(v, m2, f2, offset);
        let i = offset / g.cluster_bytes();
        let s = offset % g.cluster_bytes() / (g.bytes_per_sector as int);
        let c = files::cluster_at(g, m, f, i)->0;
        assert(files::cluster_at(g, m2, f2, i) == files::cluster_at(g, m, f, i));
        assert(regions::same_cluster(g, m, m2, c));
        assert(regions::cluster_sector(g, m2, c, s) == regions::cluster_sector(g, m, c, s));
    }
    assert forall|c: u32| #[trigger] files::owned(g, m2, f2).contains(c) implies files::owned(
        g,
        m,
        f,
    ).contains(c) || allocation::is_used(v, m, c as int) == Some(false) by {
        let i = choose|i: int|
            0 <= i < files::count_of(g, f2) && #[trigger] files::cluster_at(g, m2, f2, i) == Some(
                c,
            );
        if i < n {
            assert(files::cluster_at(g, m, f, i) == Some(c));
            assert(files::owns(g, m, f, c));
        }
    }
    assert forall|c: u32| files::owned(g, m, f).contains(c) implies files::owned(
        g,
        m2,
        f2,
    ).contains(c) by {
        let i = choose|i: int| 0 <= i < n && #[trigger] files::cluster_at(g, m, f, i) == Some(c);
        assert(files::cluster_at(g, m2, f2, i) == Some(c));
        assert(files::owns(g, m2, f2, c));
    }
}

/// The handle from before an extension still finds the file's old clusters.
pub proof fn lemma_old_handle(
    v: Volume,
    m: Media,
    m2: Media,
    free: u32,
    free2: u32,
    f: FileModel,
    f2: FileModel,
)
    requires
        regions::sound(v, m, free),
        files::file_sound(v, m, f),
        extends(v, m, m2, free, free2, files::uncached(f), f2),
    ensures
        files::file_sound(v, m2, f),
        forall|offset: int|
            0 <= offset < f.data_length ==> #[trigger] files::content(v.geometry, m2, f, offset)
                == files::content(v.geometry, m, f, offset),
{
    let g = v.geometry;
    let f0 = files::uncached(f);
    let n = files::count_of(g, f);
    regions::lemma_geometry(g);
    files::lemma_same_file(v, m, f, f0);
    files::lemma_same_file(v, m2, f, f0);
    lemma_old_places(v, m, m2, free, free2, f0, f2);
    assert forall|i: int| 0 <= i < n implies #[trigger] files::cluster_at(g, m2, f, i)
        == files::cluster_at(g, m, f, i) by {
        assert(files::cluster_at(g, m2, f0, i) == files::cluster_at(g, m, f0, i));
    }
    files::lemma_cache_kept(v, m, m2, f);
    files::lemma_same_file(v, m2, f0, f);
    assert forall|offset: int| 0 <= offset < f.data_length implies #[trigger] files::content(
        g,
        m2,
        f,
        offset,
    ) == files::content(g, m, f, offset) by {
        assert(files::content(g, m2, f0, offset) == files::content(g, m, f0, offset));
    }
}

/// An extended file's old clusters, as the handle from before finds them.
proof fn lemma_old_places(
    v: Volume,
    m: Media,
    m2: Media,
    free: u32,
    free2: u32,
    f: FileModel,
    f2: FileModel,
)
    requires
        regions::sound(v, m, free),
        files::file_sound(v, m, f),
        f.cache is None,
        extends(v, m, m2, free, free2, f, f2),
    ensures
        files::file_sound(v, m2, f),
        forall|i: int|
            0 <= i < files::count_of(v.geometry, f) ==> #[trigger] files::cluster_at(
                v.geometry,
                m2,
                f,
                i,
            ) == files::cluster_at(v.geometry, m, f, i),
        forall|offset: int|
            0 <= offset < f.data_length ==> #[trigger] files::content(v.geometry, m2, f, offset)
                == files::content(v.geometry, m, f, offset),
{
    reveal(extends);
    let g = v.geometry;
    let n = files::count_of(g, f);
    regions::lemma_geometry(g);
    assert forall|i: int| 0 <= i < n implies #[trigger] files::cluster_at(g, m2, f, i)
        == files::cluster_at(g, m, f, i) by {
        assert(files::cluster_at(g, m, f, i) is Some);
        assert(files::cluster_at(g, m2, f2, i) == files::cluster_at(g, m, f, i));
        if !f.no_fat_chain {
            lemma_prefix_chain(v, m, m2, free, free2, f, f2, i);
        }
    }
    assert forall|i: int| 0 <= i < n implies (#[trigger] files::cluster_at(g, m2, f, i)
        matches Some(c) && regions::is_plain(v, m2, c) && allocation::is_used(v, m2, c as int)
        == Some(true)) by {
        assert(files::cluster_at(g, m2, f2, i) == files::cluster_at(g, m, f, i));
        assert(files::count_of(g, f2) >= n);
    }
    assert(files::file_sound(v, m2, f)) by {
        assert forall|i: int, j: int|
            0 <= i < n && 0 <= j < n && #[trigger] files::cluster_at(g, m2, f, i)
                == #[trigger] files::cluster_at(g, m2, f, j) implies i == j by {
            assert(files::cluster_at(g, m, f, i) == files::cluster_at(g, m, f, j));
        }
    }
    assert forall|offset: int| 0 <= offset < f.data_length implies #[trigger] files::content(
        g,
        m2,
        f,
        offset,
    ) == files::content(g, m, f, offset) by {
        files::lemma_offset(g, f, offset);
        files::lemma_placed(v, m, f, offset);
        files::lemma_placed(v, m2, f, offset);
        let i = offset / g.cluster_bytes();
        let s = offset % g.cluster_bytes() / (g.bytes_per_sector as int);
        let c = files::cluster_at(g, m, f, i)->0;
        assert(regions::same_cluster(g, m, m2, c));
        assert(regions::cluster_sector(g, m2, c, s) == regions::cluster_sector(g, m, c, s));
    }
}

/// A FAT chain that was extended starts as it did.
proof fn lemma_prefix_chain(
    v: Volume,
    m: Media,
    m2: Media,
    free: u32,
    free2: u32,
    f: FileModel,
    f2: FileModel,
    i: int,
)
    requires
        files::file_sound(v, m, f),
        f.cache is None,
        !f.no_fat_chain,
        extends(v, m, m2, free, free2, f, f2),
        0 <= i < files::count_of(v.geometry, f),
    ensures
        files::cluster_at(v.geometry, m2, f, i) == files::cluster_at(v.geometry, m2, f2, i),
{
    reveal(extends);
    let g = v.geometry;
    files::lemma_first_in_heap(v, m, f);
    files::lemma_first_in_heap(v, m2, f2);
    assert(files::cluster_at(g, m, f, 0) == Some(f.first_cluster));
    assert(files::cluster_at(g, m2, f2, 0) == files::cluster_at(g, m, f, 0));
    assert(files::cluster_at(g, m2, f2, 0) == Some(f2.first_cluster));
    assert(!f2.no_fat_chain);
}

} // verus!
