//! Shortening a file.

use crate::arith;
use crate::device;
use crate::device::Media;
use crate::directory::slots;
use crate::error::Error;
use crate::fs::allocation;
use crate::fs::file::FileModel;
use crate::fs::metadata;
use crate::fs::release;
use crate::fs::state::Plan;
use crate::fs::stream;
use crate::geometry::Geometry;
use crate::laws::allocating;
use crate::laws::appending;
use crate::laws::files;
use crate::laws::regions;
use crate::mount::Volume;
use vstd::prelude::*;

verus! {

/// Whether `cs` are used clusters of a stream, each found from the one before.
pub open spec fn is_run(v: Volume, m: Media, contiguous: bool, cs: Seq<u32>) -> bool {
    let g = v.geometry;
    &&& forall|i: int| 0 <= i < cs.len() ==> #[trigger] appending::is_taken(v, m, cs[i])
    &&& forall|i: int, j: int| 0 <= i < j < cs.len() ==> #[trigger] cs[i] != #[trigger] cs[j]
    &&& forall|i: int|
        0 < i < cs.len() ==> release::successor(g, m, contiguous, cs[i - 1]) == Some(
            #[trigger] cs[i],
        )
}

/// Whether a plan has given back the clusters `cs`, and done nothing else.
pub open spec fn has_freed<E>(v: Volume, m: Media, free: u32, cs: Seq<u32>, plan: Plan<(), E>) -> bool {
    let g = v.geometry;
    let m2 = plan.leaves(m);
    &&& plan.result == Ok::<(), Error<E>>(())
    &&& plan.free == free + cs.len()
    &&& regions::evolves(v, m, m2, plan.free, cs.to_set())
    &&& forall|i: int|
        0 <= i < cs.len() ==> allocation::is_used(v, m2, #[trigger] cs[i] as int) == Some(false)
    &&& forall|i: int| 0 <= i < cs.len() ==> slots::fat_entry(g, m2, #[trigger] cs[i]) == 0
    &&& forall|c: u32|
        g.in_heap(c) && !regions::is_bitmap(v, m, c) ==> #[trigger] regions::same_cluster(
            g,
            m,
            m2,
            c,
        )
}

/// After the first cluster of a run was given back, the rest is a run.
pub proof fn lemma_rest_of_run<E>(v: Volume, m: Media, free: u32, contiguous: bool, cs: Seq<u32>)
    requires
        regions::sound(v, m, free),
        cs.len() > 0,
        is_run(v, m, contiguous, cs),
    ensures
        ({
            let give = release::free_plan::<E>(v, m, free, cs[0]);
            is_run(v, give.leaves(m), contiguous, cs.drop_first())
        }),
{
    let g = v.geometry;
    let give = release::free_plan::<E>(v, m, free, cs[0]);
    let m1 = give.leaves(m);
    let rest = cs.drop_first();
    regions::lemma_geometry(g);
    assert(appending::is_taken(v, m, cs[0]));
    allocating::law_freed_cluster_is_free::<E>(v, m, free, cs[0]);
    assert forall|i: int| 0 <= i < rest.len() implies #[trigger] appending::is_taken(
        v,
        m1,
        rest[i],
    ) by {
        assert(appending::is_taken(v, m, cs[i + 1]));
        assert(cs[0] != cs[i + 1]);
        assert(!set![cs[0]].contains(rest[i]));
        assert(allocation::is_used(v, m1, rest[i] as int) == allocation::is_used(
            v,
            m,
            rest[i] as int,
        ));
        assert(!regions::is_bitmap(v, m1, rest[i]) && !regions::is_table(v, m1, rest[i]));
    }
    assert forall|i: int, j: int| 0 <= i < j < rest.len() implies #[trigger] rest[i]
        != #[trigger] rest[j] by {
        assert(cs[i + 1] != cs[j + 1]);
    }
    assert forall|i: int| 0 < i < rest.len() implies release::successor(
        g,
        m1,
        contiguous,
        rest[i - 1],
    ) == Some(#[trigger] rest[i]) by {
        assert(release::successor(g, m, contiguous, cs[i]) == Some(cs[i + 1]));
        assert(cs[0] != cs[i]);
        assert(!set![cs[0]].contains(cs[i]));
        assert(appending::is_taken(v, m, cs[i]));
        assert(slots::fat_entry(g, m1, cs[i]) == slots::fat_entry(g, m, cs[i]));
    }
}

/// Giving back a run after its first cluster.
pub proof fn lemma_freed_on<E>(
    v: Volume,
    m: Media,
    free: u32,
    cs: Seq<u32>,
    plan: Plan<(), E>,
    rest: Plan<(), E>,
)
    requires
        regions::sound(v, m, free),
        cs.len() > 0,
        appending::is_taken(v, m, cs[0]),
        !cs.drop_first().contains(cs[0]),
        ({
            let give = release::free_plan::<E>(v, m, free, cs[0]);
            let m1 = give.leaves(m);
            &&& has_freed(v, m1, give.free, cs.drop_first(), rest)
            &&& plan.leaves(m) == rest.leaves(m1)
        }),
        plan.result == rest.result,
        plan.free == rest.free,
    ensures
        has_freed(v, m, free, cs, plan),
{
    let g = v.geometry;
    let give = release::free_plan::<E>(v, m, free, cs[0]);
    let m1 = give.leaves(m);
    let m2 = rest.leaves(m1);
    let tail = cs.drop_first();
    regions::lemma_geometry(g);
    allocating::law_freed_cluster_is_free::<E>(v, m, free, cs[0]);
    assert(tail.to_set().subset_of(cs.to_set())) by {
        assert forall|c: u32| tail.to_set().contains(c) implies cs.to_set().contains(c) by {
            let i = choose|i: int| 0 <= i < tail.len() && tail[i] == c;
            assert(cs[i + 1] == c);
        }
    }
    assert(set![cs[0]].subset_of(cs.to_set()));
    allocating::lemma_evolves_on(
        v,
        m,
        m1,
        m2,
        give.free,
        rest.free,
        set![cs[0]],
        tail.to_set(),
        cs.to_set(),
    );
    assert forall|i: int| 0 <= i < cs.len() implies allocation::is_used(
        v,
        m2,
        #[trigger] cs[i] as int,
    ) == Some(false) by {
        if i == 0 {
            assert(!tail.to_set().contains(cs[0]));
            assert(allocation::is_used(v, m2, cs[0] as int) == allocation::is_used(
                v,
                m1,
                cs[0] as int,
            ));
        } else {
            assert(tail[i - 1] == cs[i]);
        }
    }
    assert forall|i: int| 0 <= i < cs.len() implies slots::fat_entry(g, m2, #[trigger] cs[i])
        == 0 by {
        if i == 0 {
            assert(!tail.to_set().contains(cs[0]));
            assert(g.fat_holds(cs[0]));
            assert(slots::fat_entry(g, m2, cs[0]) == slots::fat_entry(g, m1, cs[0]));
        } else {
            assert(tail[i - 1] == cs[i]);
        }
    }
    assert forall|c: u32| g.in_heap(c) && !regions::is_bitmap(v, m, c) implies
        #[trigger] regions::same_cluster(g, m, m2, c) by {
        assert(!regions::is_bitmap(v, m1, c));
        assert(regions::same_cluster(g, m, m1, c));
        assert(regions::same_cluster(g, m1, m2, c));
        assert forall|s: int| 0 <= s < g.sectors_per_cluster implies
            #[trigger] regions::cluster_sector(g, m2, c, s) == regions::cluster_sector(
            g,
            m,
            c,
            s,
        ) by {
            assert(regions::cluster_sector(g, m1, c, s) == regions::cluster_sector(g, m, c, s));
        }
    }
}

/// Giving back a run of clusters frees all of them and changes nothing else.
pub proof fn lemma_freed<E>(v: Volume, m: Media, free: u32, contiguous: bool, cs: Seq<u32>)
    requires
        regions::sound(v, m, free),
        cs.len() > 0,
        is_run(v, m, contiguous, cs),
    ensures
        has_freed(
            v,
            m,
            free,
            cs,
            release::free_run_plan::<E>(v, m, free, contiguous, cs[0], cs.len()),
        ),
    decreases cs.len(),
{
    let g = v.geometry;
    let plan = release::free_run_plan::<E>(v, m, free, contiguous, cs[0], cs.len());
    let tail = cs.drop_first();
    regions::lemma_geometry(g);
    assert(appending::is_taken(v, m, cs[0]));
    let give = release::free_plan::<E>(v, m, free, cs[0]);
    let m1 = give.leaves(m);
    allocating::law_freed_cluster_is_free::<E>(v, m, free, cs[0]);
    let next = release::successor(g, m, contiguous, cs[0]);
    assert(next is Some);
    let rest = release::free_run_plan::<E>(
        v,
        m1,
        give.free,
        contiguous,
        next->0,
        (cs.len() - 1) as nat,
    );
    if cs.len() == 1 {
        assert(rest.leaves(m1) == m1);
        files::lemma_unchanged(v, m1, give.free, tail.to_set());
    } else {
        lemma_rest_of_run::<E>(v, m, free, contiguous, cs);
        lemma_freed::<E>(v, m1, give.free, contiguous, tail);
        assert(next == Some(cs[1]));
        assert(tail[0] == cs[1]);
    }
    assert(plan == give.and(rest));
    device::lemma_applied_concat(m, give.writes, rest.writes);
    assert(!tail.contains(cs[0])) by {
        if tail.contains(cs[0]) {
            let i = choose|i: int| 0 <= i < tail.len() && tail[i] == cs[0];
            assert(cs[i + 1] == cs[0]);
        }
    }
    lemma_freed_on(v, m, free, cs, plan, rest);
}

/// The clusters of a file from number `from` on.
pub open spec fn clusters_from(g: Geometry, m: Media, f: FileModel, from: int) -> Seq<u32> {
    Seq::new(
        (files::count_of(g, f) - from) as nat,
        |i: int| files::cluster_at(g, m, f, from + i)->0,
    )
}

/// The clusters of a file are found one from the other.
pub proof fn lemma_file_run(v: Volume, m: Media, f: FileModel, from: int)
    requires
        regions::apart(v.geometry),
        files::file_sound(v, m, f),
        0 <= from < files::count_of(v.geometry, f),
    ensures
        is_run(v, m, f.no_fat_chain, clusters_from(v.geometry, m, f, from)),
        from > 0 ==> release::successor(
            v.geometry,
            m,
            f.no_fat_chain,
            files::cluster_at(v.geometry, m, f, from - 1)->0,
        ) == files::cluster_at(v.geometry, m, f, from),
{
    let g = v.geometry;
    let n = files::count_of(g, f);
    let cs = clusters_from(g, m, f, from);
    regions::lemma_geometry(g);
    files::lemma_first_in_heap(v, m, f);
    assert forall|i: int| 0 <= i < cs.len() implies #[trigger] appending::is_taken(v, m, cs[i]) by {
        assert(files::cluster_at(g, m, f, from + i) is Some);
    }
    assert forall|i: int, j: int| 0 <= i < j < cs.len() implies #[trigger] cs[i]
        != #[trigger] cs[j] by {
        assert(files::cluster_at(g, m, f, from + i) is Some);
        assert(files::cluster_at(g, m, f, from + j) is Some);
    }
    assert forall|k: int| 0 < k < n implies release::successor(
        g,
        m,
        f.no_fat_chain,
        files::cluster_at(g, m, f, k - 1)->0,
    ) == #[trigger] files::cluster_at(g, m, f, k) by {
        assert(files::cluster_at(g, m, f, k - 1) is Some);
        assert(files::cluster_at(g, m, f, k) is Some);
    }
    assert forall|i: int| 0 < i < cs.len() implies release::successor(
        g,
        m,
        f.no_fat_chain,
        cs[i - 1],
    ) == Some(#[trigger] cs[i]) by {
        assert(files::cluster_at(g, m, f, from + i) is Some);
    }
}

/// Whether a plan has given back all but the first `keep` clusters of a file.
pub open spec fn has_shrunk<E>(
    v: Volume,
    m: Media,
    free: u32,
    f: FileModel,
    keep: int,
    plan: Plan<(), E>,
) -> bool {
    let g = v.geometry;
    let n = files::count_of(g, f);
    let m2 = plan.leaves(m);
    &&& plan.result == Ok::<(), Error<E>>(())
    &&& plan.free == free + (n - keep)
    &&& regions::evolves(v, m, m2, plan.free, files::owned(g, m, f))
    &&& forall|i: int|
        0 <= i < keep ==> #[trigger] files::cluster_at(g, m2, f, i) == files::cluster_at(
            g,
            m,
            f,
            i,
        )
    &&& forall|i: int|
        0 <= i < n ==> allocation::is_used(
            v,
            m2,
            (#[trigger] files::cluster_at(g, m, f, i))->0 as int,
        ) == Some(i < keep)
    &&& forall|c: u32|
        g.in_heap(c) && !regions::is_bitmap(v, m, c) ==> #[trigger] regions::same_cluster(
            g,
            m,
            m2,
            c,
        )
}

/// A run is one as long as its clusters are left alone.
proof fn lemma_run_kept(
    v: Volume,
    m: Media,
    m1: Media,
    free: u32,
    contiguous: bool,
    cs: Seq<u32>,
    last: u32,
)
    requires
        regions::sound(v, m, free),
        is_run(v, m, contiguous, cs),
        regions::changes_only(v, m, m1, set![last]),
        regions::same_system(v, m, m1),
        !cs.contains(last),
    ensures
        is_run(v, m1, contiguous, cs),
{
    let g = v.geometry;
    regions::lemma_geometry(g);
    assert forall|i: int| 0 <= i < cs.len() implies !set![last].contains(#[trigger] cs[i]) by {
        assert(cs.contains(cs[i]));
    }
    assert forall|i: int| 0 <= i < cs.len() implies #[trigger] appending::is_taken(
        v,
        m1,
        cs[i],
    ) by {
        assert(appending::is_taken(v, m, cs[i]));
        appending::lemma_still_taken(v, m, m1, free, set![last], cs[i]);
    }
    assert forall|i: int| 0 < i < cs.len() implies release::successor(
        g,
        m1,
        contiguous,
        cs[i - 1],
    ) == Some(#[trigger] cs[i]) by {
        assert(release::successor(g, m, contiguous, cs[i - 1]) == Some(cs[i]));
        assert(appending::is_taken(v, m, cs[i - 1]));
        assert(!set![last].contains(cs[i - 1]));
        assert(slots::fat_entry(g, m1, cs[i - 1]) == slots::fat_entry(g, m, cs[i - 1]));
    }
}

/// What giving back a file's last clusters leaves of it.
proof fn lemma_shrunk_from<E>(
    v: Volume,
    m: Media,
    m1: Media,
    free: u32,
    f: FileModel,
    keep: int,
    touched: Set<u32>,
    plan: Plan<(), E>,
    give: Plan<(), E>,
)
    requires
        regions::sound(v, m, free),
        files::file_sound(v, m, f),
        0 <= keep < files::count_of(v.geometry, f),
        regions::evolves(v, m, m1, free, touched),
        regions::same_used(v, m, m1),
        forall|c: u32|
            v.geometry.in_heap(c) ==> #[trigger] regions::same_cluster(v.geometry, m, m1, c),
        touched.subset_of(files::owned(v.geometry, m, f)),
        forall|i: int|
            0 <= i < keep - 1 ==> !touched.contains(
                (#[trigger] files::cluster_at(v.geometry, m, f, i))->0,
            ),
        has_freed(v, m1, free, clusters_from(v.geometry, m, f, keep), give),
        plan.leaves(m) == give.leaves(m1),
        plan.result == give.result,
        plan.free == give.free,
    ensures
        has_shrunk(v, m, free, f, keep, plan),
{
    let g = v.geometry;
    let n = files::count_of(g, f);
    let m2 = give.leaves(m1);
    let cs = clusters_from(g, m, f, keep);
    let all = files::owned(g, m, f);
    let both = touched.union(cs.to_set());
    regions::lemma_geometry(g);
    assert forall|i: int| 0 <= i < keep implies !cs.to_set().contains(
        (#[trigger] files::cluster_at(g, m, f, i))->0,
    ) by {
        let c = files::cluster_at(g, m, f, i)->0;
        assert(files::cluster_at(g, m, f, i) is Some);
        if cs.to_set().contains(c) {
            let j = choose|j: int| 0 <= j < cs.len() && cs[j] == c;
            assert(files::cluster_at(g, m, f, keep + j) is Some);
        }
    }
    assert(cs.to_set().subset_of(all)) by {
        assert forall|c: u32| cs.to_set().contains(c) implies all.contains(c) by {
            let j = choose|j: int| 0 <= j < cs.len() && cs[j] == c;
            assert(files::cluster_at(g, m, f, keep + j) is Some);
            assert(files::owns(g, m, f, c));
        }
    }
    allocating::lemma_evolves_on(v, m, m1, m2, free, give.free, touched, cs.to_set(), both);
    files::lemma_wider(v, m, m2, give.free, both, all);
    assert forall|i: int| 0 <= i < keep implies #[trigger] files::cluster_at(g, m2, f, i)
        == files::cluster_at(g, m, f, i) by {
        assert forall|j: int| 0 <= j < i implies !both.contains(
            (#[trigger] files::cluster_at(g, m, f, j))->0,
        ) by {}
        files::lemma_clusters_kept(v, m, m2, f, both, i);
    }
    assert forall|i: int| 0 <= i < n implies allocation::is_used(
        v,
        m2,
        (#[trigger] files::cluster_at(g, m, f, i))->0 as int,
    ) == Some(i < keep) by {
        let c = files::cluster_at(g, m, f, i)->0;
        assert(files::cluster_at(g, m, f, i) is Some);
        if i < keep {
            assert(allocation::is_used(v, m1, c as int) == allocation::is_used(v, m, c as int));
            assert(allocation::is_used(v, m2, c as int) == allocation::is_used(v, m1, c as int));
        } else {
            assert(cs[i - keep] == c);
        }
    }
    assert forall|c: u32| g.in_heap(c) && !regions::is_bitmap(v, m, c) implies
        #[trigger] regions::same_cluster(g, m, m2, c) by {
        assert(!regions::is_bitmap(v, m1, c));
        assert(regions::same_cluster(g, m, m1, c));
        assert(regions::same_cluster(g, m1, m2, c));
        assert forall|s: int| 0 <= s < g.sectors_per_cluster implies
            #[trigger] regions::cluster_sector(g, m2, c, s) == regions::cluster_sector(
            g,
            m,
            c,
            s,
        ) by {
            assert(regions::cluster_sector(g, m1, c, s) == regions::cluster_sector(g, m, c, s));
        }
    }
}

/// Giving back all but the first clusters of a file.
pub proof fn lemma_shrunk<E>(v: Volume, m: Media, free: u32, f: FileModel, keep: int)
    requires
        regions::sound(v, m, free),
        files::file_sound(v, m, f),
        0 <= keep < files::count_of(v.geometry, f),
    ensures
        has_shrunk(
            v,
            m,
            free,
            f,
            keep,
            release::shrink_plan::<E>(v, m, free, f, keep, files::count_of(v.geometry, f)),
        ),
{
    let g = v.geometry;
    let n = files::count_of(g, f);
    let plan = release::shrink_plan::<E>(v, m, free, f, keep, n);
    let cs = clusters_from(g, m, f, keep);
    regions::lemma_geometry(g);
    files::lemma_first_in_heap(v, m, f);
    lemma_file_run(v, m, f, keep);
    assert(files::cluster_at(g, m, f, keep) is Some);
    assert(cs[0] == files::cluster_at(g, m, f, keep)->0);
    if keep == 0 {
        assert(cs[0] == f.first_cluster);
        lemma_freed::<E>(v, m, free, f.no_fat_chain, cs);
        files::lemma_unchanged(v, m, free, Set::<u32>::empty());
        lemma_shrunk_from(v, m, m, free, f, keep, Set::<u32>::empty(), plan, plan);
    } else {
        let last = files::cluster_at(g, m, f, keep - 1)->0;
        assert(files::cluster_at(g, m, f, keep - 1) is Some);
        assert(release::kept_tail(g, m, f, keep) == Some(last));
        let end = allocation::set_fat_plan::<E>(v, m, free, last, 0xffff_ffff);
        let m1 = end.leaves(m);
        allocating::lemma_fat_written::<E>(v, m, free, last, 0xffff_ffff);
        assert(!cs.contains(last)) by {
            if cs.contains(last) {
                let j = choose|j: int| 0 <= j < cs.len() && cs[j] == last;
                assert(files::cluster_at(g, m, f, keep + j) is Some);
            }
        }
        lemma_run_kept(v, m, m1, free, f.no_fat_chain, cs, last);
        lemma_freed::<E>(v, m1, free, f.no_fat_chain, cs);
        let give = release::free_run_plan::<E>(v, m1, free, f.no_fat_chain, cs[0], cs.len());
        assert(plan == end.and(give));
        device::lemma_applied_concat(m, end.writes, give.writes);
        assert(set![last].subset_of(files::owned(g, m, f))) by {
            assert(files::owns(g, m, f, last));
        }
        assert forall|i: int| 0 <= i < keep - 1 implies !set![last].contains(
            (#[trigger] files::cluster_at(g, m, f, i))->0,
        ) by {
            assert(files::cluster_at(g, m, f, i) is Some);
        }
        lemma_shrunk_from(v, m, m1, free, f, keep, set![last], plan, give);
    }
}

/// A whole number of clusters takes that many.
proof fn lemma_whole(g: Geometry, keep: int)
    requires
        regions::apart(g),
        0 <= keep,
    ensures
        release::clusters_for(g, keep * g.cluster_bytes()) == keep,
        keep * g.cluster_bytes() >= 0,
        keep * g.cluster_bytes() == 0 <==> keep == 0,
{
    let cb = g.cluster_bytes();
    regions::lemma_geometry(g);
    if keep > 0 {
        assert(keep * cb >= cb) by (nonlinear_arith)
            requires
                keep >= 1,
                cb > 0,
        ;
        assert(keep * cb - 1 == (keep - 1) * cb + (cb - 1)) by (nonlinear_arith);
        arith::lemma_split(keep - 1, cb - 1, cb);
    } else {
        assert(keep * cb == 0);
    }
}

/// Whether a file has been shortened to `len` bytes: the bytes up to there are
/// as they were, and it owns just the clusters for them.
pub open spec fn has_shortened(
    v: Volume,
    m: Media,
    m2: Media,
    free: u32,
    free2: u32,
    f: FileModel,
    f2: FileModel,
    len: u64,
    touched: Set<u32>,
) -> bool {
    let g = v.geometry;
    let n = files::count_of(g, f);
    let keep = release::clusters_for(g, len as int);
    &&& free2 == free + (n - keep)
    &&& regions::evolves(v, m, m2, free2, touched)
    &&& files::file_sound(v, m2, f2)
    &&& f2.valid_length == len
    &&& f2.position == if f.position < len {
        f.position
    } else {
        len
    }
    &&& f2.locs == f.locs && f2.stream == f.stream && f2.primary == f.primary
    &&& files::count_of(g, f2) == keep
    &&& files::owned(g, m2, f2).subset_of(files::owned(g, m, f))
    &&& forall|i: int|
        0 <= i < n ==> allocation::is_used(
            v,
            m2,
            (#[trigger] files::cluster_at(g, m, f, i))->0 as int,
        ) == Some(i < keep)
    &&& forall|offset: int|
        0 <= offset < len ==> #[trigger] files::content(g, m2, f2, offset) == files::content(
            g,
            m,
            f,
            offset,
        )
}

/// A shortened file has no more clusters than before.
proof fn lemma_keeps_no_more(g: Geometry, f: FileModel, len: u64)
    requires
        regions::apart(g),
        len <= f.data_length,
    ensures
        0 <= release::clusters_for(g, len as int) <= files::count_of(g, f),
        len <= release::clusters_for(g, len as int) * g.cluster_bytes(),
        (release::clusters_for(g, len as int) - 1) * g.cluster_bytes() < f.data_length
            || release::clusters_for(g, len as int) == 0,
{
    let cb = g.cluster_bytes();
    regions::lemma_geometry(g);
    release::lemma_clusters(g, len as int);
    release::lemma_clusters(g, f.data_length as int);
    if len > 0 {
        vstd::arithmetic::div_mod::lemma_div_is_ordered(len - 1, f.data_length - 1, cb);
    }
}

/// The clusters of a file that was given fewer of them.
proof fn lemma_fewer_clusters(
    v: Volume,
    m: Media,
    m2: Media,
    f: FileModel,
    f2: FileModel,
    keep: int,
)
    requires
        regions::apart(v.geometry),
        files::file_sound(v, m, f),
        0 <= keep < files::count_of(v.geometry, f),
        regions::same_system(v, m, m2),
        forall|i: int|
            0 <= i < keep ==> #[trigger] files::cluster_at(v.geometry, m2, f, i)
                == files::cluster_at(v.geometry, m, f, i),
        forall|i: int|
            0 <= i < keep ==> allocation::is_used(
                v,
                m2,
                (#[trigger] files::cluster_at(v.geometry, m, f, i))->0 as int,
            ) == Some(true),
        forall|c: u32|
            v.geometry.in_heap(c) && !regions::is_bitmap(v, m, c)
                ==> #[trigger] regions::same_cluster(v.geometry, m, m2, c),
        f2.no_fat_chain == f.no_fat_chain,
        f2.first_cluster == if keep == 0 {
            0
        } else {
            f.first_cluster
        },
        f2.data_length == keep * v.geometry.cluster_bytes(),
        f2.valid_length <= f2.data_length,
        f2.valid_length <= f.data_length,
        f2.cache is None,
    ensures
        files::file_sound(v, m2, f2),
        files::count_of(v.geometry, f2) == keep,
        files::owned(v.geometry, m2, f2).subset_of(files::owned(v.geometry, m, f)),
        forall|offset: int|
            0 <= offset < f2.valid_length ==> #[trigger] files::content(
                v.geometry,
                m2,
                f2,
                offset,
            ) == files::content(v.geometry, m, f, offset),
{
    let g = v.geometry;
    regions::lemma_geometry(g);
    lemma_whole(g, keep);
    files::lemma_first_in_heap(v, m, f);
    assert forall|i: int| 0 <= i < keep implies #[trigger] files::cluster_at(g, m2, f2, i)
        == files::cluster_at(g, m, f, i) by {
        assert(files::cluster_at(g, m2, f, i) == files::cluster_at(g, m, f, i));
    }
    assert forall|i: int| 0 <= i < keep implies (#[trigger] files::cluster_at(g, m2, f2, i)
        matches Some(c) && regions::is_plain(v, m2, c) && allocation::is_used(v, m2, c as int)
        == Some(true)) by {
        let c = files::cluster_at(g, m, f, i)->0;
        assert(files::cluster_at(g, m, f, i) is Some);
        assert(!regions::is_bitmap(v, m2, c) && !regions::is_table(v, m2, c));
    }
    assert forall|i: int, j: int|
        0 <= i < keep && 0 <= j < keep && #[trigger] files::cluster_at(g, m2, f2, i)
            == #[trigger] files::cluster_at(g, m2, f2, j) implies i == j by {
        assert(files::cluster_at(g, m, f, i) == files::cluster_at(g, m, f, j));
    }
    assert(files::file_sound(v, m2, f2));
    assert forall|c: u32| files::owned(g, m2, f2).contains(c) implies files::owned(
        g,
        m,
        f,
    ).contains(c) by {
        let i = choose|i: int|
            0 <= i < keep && #[trigger] files::cluster_at(g, m2, f2, i) == Some(c);
        assert(files::cluster_at(g, m, f, i) == Some(c));
        assert(files::owns(g, m, f, c));
    }
    assert forall|offset: int| 0 <= offset < f2.valid_length implies #[trigger] files::content(
        g,
        m2,
        f2,
        offset,
    ) == files::content(g, m, f, offset) by {
        files::lemma_offset(g, f2, offset);
        files::lemma_placed(v, m, f, offset);
        files::lemma_placed(v, m2, f2, offset);
        let i = offset / g.cluster_bytes();
        let s = offset % g.cluster_bytes() / (g.bytes_per_sector as int);
        let c = files::cluster_at(g, m, f, i)->0;
        assert(files::cluster_at(g, m2, f2, i) == Some(c));
        assert(regions::same_cluster(g, m, m2, c));
        assert(regions::cluster_sector(g, m2, c, s) == regions::cluster_sector(g, m, c, s));
    }
}

/// Giving clusters back, the first part of a truncation.
proof fn lemma_cut<E>(v: Volume, m: Media, free: u32, f: FileModel, len: u64)
    requires
        regions::sound(v, m, free),
        files::file_sound(v, m, f),
        len <= f.valid_length,
    ensures
        ({
            let g = v.geometry;
            let shrink = release::shrink_plan::<E>(
                v,
                m,
                free,
                f,
                release::clusters_for(g, len as int),
                release::clusters_for(g, f.data_length as int),
            );
            &&& shrink.result == Ok::<(), Error<E>>(())
            &&& has_shortened(
                v,
                m,
                shrink.leaves(m),
                free,
                shrink.free,
                f,
                release::truncated(g, f, len),
                len,
                files::owned(g, m, f),
            )
        }),
{
    let g = v.geometry;
    let n = files::count_of(g, f);
    let keep = release::clusters_for(g, len as int);
    let shrink = release::shrink_plan::<E>(v, m, free, f, keep, n);
    let m2 = shrink.leaves(m);
    let f2 = release::truncated(g, f, len);
    regions::lemma_geometry(g);
    lemma_keeps_no_more(g, f, len);
    if keep < n {
        lemma_shrunk::<E>(v, m, free, f, keep);
        lemma_whole(g, keep);
        lemma_kept_fits(v, m, f, keep);
        lemma_fewer_clusters(v, m, m2, f, f2, keep);
    } else {
        assert(m2 == m);
        files::lemma_unchanged(v, m, free, files::owned(g, m, f));
        let f1 = FileModel { cache: f2.cache, ..f };
        assert(stream::same_file(f, f1));
        files::lemma_same_file(v, m, f, f1);
        assert(f2 =~= (FileModel { position: f2.position, valid_length: f2.valid_length, ..f1 }));
        appending::lemma_relength(v, m, f1, f2);
        assert forall|i: int| 0 <= i < n implies allocation::is_used(
            v,
            m2,
            (#[trigger] files::cluster_at(g, m, f, i))->0 as int,
        ) == Some(i < keep) by {
            assert(files::cluster_at(g, m, f, i) is Some);
        }
        assert forall|offset: int| 0 <= offset < len implies #[trigger] files::content(
            g,
            m2,
            f2,
            offset,
        ) == files::content(g, m, f, offset) by {
            assert(files::content(g, m, f2, offset) == files::content(g, m, f1, offset));
            assert(files::content(g, m, f1, offset) == files::content(g, m, f, offset));
        }
    }
}

/// The bytes of some of a file's clusters fit in 64 bits.
proof fn lemma_kept_fits(v: Volume, m: Media, f: FileModel, keep: int)
    requires
        regions::apart(v.geometry),
        files::file_sound(v, m, f),
        0 <= keep < files::count_of(v.geometry, f),
    ensures
        0 <= keep * v.geometry.cluster_bytes() <= u64::MAX,
{
    let g = v.geometry;
    let cb = g.cluster_bytes();
    regions::lemma_geometry(g);
    assert(files::cluster_at(g, m, f, keep) is Some);
    assert(0 <= keep * cb <= 0x1_0000_0000 * 0x200_0000) by (nonlinear_arith)
        requires
            0 <= keep <= 0x1_0000_0000,
            0 <= cb <= 0x200_0000,
    ;
}

/// A file that was shortened to `len` bytes holds just the bytes it held up to
/// there. The clusters that it no longer needs are free, and counted so; apart
/// from the file's own clusters and the sectors of its entry set, nothing on
/// the volume changes, and the volume stays sound. Nothing is done, and the
/// end of the file reported, where the file is shorter than that.
pub proof fn law_truncated_file_keeps_its_start<E>(
    v: Volume,
    m: Media,
    free: u32,
    f: FileModel,
    len: u64,
    d: u32,
    e: u32,
)
    requires
        regions::sound(v, m, free),
        files::file_sound(v, m, f),
        appending::stored_in(v, m, f, d, e),
    ensures
        ({
            let g = v.geometry;
            let plan = release::truncate_plan::<E>(v, m, free, f, len);
            let m2 = plan.leaves(m);
            if len <= f.valid_length {
                &&& plan.result == Ok::<(), Error<E>>(())
                &&& has_shortened(
                    v,
                    m,
                    m2,
                    free,
                    plan.free,
                    f,
                    release::truncated(g, f, len),
                    len,
                    files::owned(g, m, f).union(set![d, e]),
                )
            } else {
                &&& plan.result == Err::<(), Error<E>>(Error::EndOfFile)
                &&& m2 == m
                &&& plan.free == free
            }
        }),
{
    let g = v.geometry;
    let plan = release::truncate_plan::<E>(v, m, free, f, len);
    if len <= f.valid_length {
        let all = files::owned(g, m, f);
        let homes = set![d, e];
        let f2 = release::truncated(g, f, len);
        let shrink = release::shrink_plan::<E>(
            v,
            m,
            free,
            f,
            release::clusters_for(g, len as int),
            release::clusters_for(g, f.data_length as int),
        );
        let m1 = shrink.leaves(m);
        lemma_cut::<E>(v, m, free, f, len);
        assert(!all.contains(d) && !all.contains(e));
        appending::lemma_still_taken(v, m, m1, free, all, d);
        appending::lemma_still_taken(v, m, m1, free, all, e);
        assert(!files::owned(g, m1, f2).contains(d) && !files::owned(g, m1, f2).contains(e));
        assert(appending::stored_in(v, m1, f2, d, e));
        let update = metadata::update_plan::<E>(v, m1, shrink.free, f2);
        let m2 = update.leaves(m1);
        appending::lemma_recorded::<E>(v, m1, shrink.free, f2, d, e);
        assert(homes.disjoint(files::owned(g, m1, f2)));
        files::law_untouched_file_keeps_its_bytes(v, m1, m2, f2, homes);
        device::lemma_applied_concat(m, shrink.writes, update.writes);
        assert(plan.leaves(m) == m2);
        allocating::lemma_evolves_on(
            v,
            m,
            m1,
            m2,
            shrink.free,
            shrink.free,
            all,
            homes,
            all.union(homes),
        );
        lemma_shortened_on(v, m, m1, m2, free, shrink.free, f, f2, len, d, e);
    }
}

/// The media between the last cluster that a truncation gives back and the
/// record of the new length.
pub proof fn lemma_before_record<E>(
    v: Volume,
    m: Media,
    free: u32,
    f: FileModel,
    len: u64,
    d: u32,
    e: u32,
) -> (m1: Media)
    requires
        regions::sound(v, m, free),
        files::file_sound(v, m, f),
        appending::stored_in(v, m, f, d, e),
        len <= f.valid_length,
    ensures
        ({
            let g = v.geometry;
            let plan = release::truncate_plan::<E>(v, m, free, f, len);
            let f2 = release::truncated(g, f, len);
            let all = files::owned(g, m, f);
            &&& plan.leaves(m) == appending::recorded(g, m1, f2)
            &&& has_shortened(v, m, m1, free, plan.free, f, f2, len, all)
        }),
{
    let g = v.geometry;
    let all = files::owned(g, m, f);
    let f2 = release::truncated(g, f, len);
    let shrink = release::shrink_plan::<E>(
        v,
        m,
        free,
        f,
        release::clusters_for(g, len as int),
        release::clusters_for(g, f.data_length as int),
    );
    let m1 = shrink.leaves(m);
    lemma_cut::<E>(v, m, free, f, len);
    assert(!all.contains(d) && !all.contains(e));
    appending::lemma_still_taken(v, m, m1, free, all, d);
    appending::lemma_still_taken(v, m, m1, free, all, e);
    assert(!files::owned(g, m1, f2).contains(d) && !files::owned(g, m1, f2).contains(e));
    assert(appending::stored_in(v, m1, f2, d, e));
    let update = metadata::update_plan::<E>(v, m1, shrink.free, f2);
    appending::lemma_recorded::<E>(v, m1, shrink.free, f2, d, e);
    device::lemma_applied_concat(m, shrink.writes, update.writes);
    m1
}

/// Recording the new length after the clusters were given back.
proof fn lemma_shortened_on(
    v: Volume,
    m: Media,
    m1: Media,
    m2: Media,
    free: u32,
    free2: u32,
    f: FileModel,
    f2: FileModel,
    len: u64,
    d: u32,
    e: u32,
)
    requires
        files::file_sound(v, m, f),
        has_shortened(v, m, m1, free, free2, f, f2, len, files::owned(v.geometry, m, f)),
        regions::same_used(v, m1, m2),
        regions::evolves(
            v,
            m,
            m2,
            free2,
            files::owned(v.geometry, m, f).union(set![d, e]),
        ),
        files::file_sound(v, m2, f2),
        files::owned(v.geometry, m2, f2) == files::owned(v.geometry, m1, f2),
        forall|offset: int|
            0 <= offset < f2.data_length ==> #[trigger] files::content(v.geometry, m2, f2, offset)
                == files::content(v.geometry, m1, f2, offset),
    ensures
        has_shortened(
            v,
            m,
            m2,
            free,
            free2,
            f,
            f2,
            len,
            files::owned(v.geometry, m, f).union(set![d, e]),
        ),
{
    let g = v.geometry;
    let n = files::count_of(g, f);
    regions::lemma_geometry(g);
    assert forall|i: int| 0 <= i < n implies allocation::is_used(
        v,
        m2,
        (#[trigger] files::cluster_at(g, m, f, i))->0 as int,
    ) == Some(i < release::clusters_for(g, len as int)) by {
        let c = files::cluster_at(g, m, f, i)->0;
        assert(files::cluster_at(g, m, f, i) is Some);
        assert(allocation::is_used(v, m2, c as int) == allocation::is_used(v, m1, c as int));
    }
    assert forall|offset: int| 0 <= offset < len implies #[trigger] files::content(
        g,
        m2,
        f2,
        offset,
    ) == files::content(g, m, f, offset) by {
        assert(files::content(g, m1, f2, offset) == files::content(g, m, f, offset));
    }
}

/// Ending the chain of a file behind its first clusters, and then giving back the
/// others.
proof fn lemma_cut_then_freed<E>(v: Volume, m: Media, free: u32, f: FileModel, keep: int)
    requires
        regions::sound(v, m, free),
        files::file_sound(v, m, f),
        0 < keep < files::count_of(v.geometry, f),
    ensures
        ({
            let g = v.geometry;
            let n = files::count_of(g, f);
            let last = files::cluster_at(g, m, f, keep - 1)->0;
            let cs = clusters_from(g, m, f, keep);
            let m1 = allocation::set_fat_plan::<E>(v, m, free, last, 0xffff_ffff).leaves(m);
            let give = release::free_run_plan::<E>(v, m1, free, f.no_fat_chain, cs[0], cs.len());
            &&& files::cluster_at(g, m, f, keep - 1) is Some
            &&& g.fat_holds(last)
            &&& slots::fat_entry(g, m1, last) == 0xffff_ffff
            &&& !cs.to_set().contains(last)
            &&& has_freed(v, m1, free, cs, give)
            &&& release::shrink_plan::<E>(v, m, free, f, keep, n).leaves(m) == give.leaves(m1)
        }),
{
    let g = v.geometry;
    let n = files::count_of(g, f);
    let plan = release::shrink_plan::<E>(v, m, free, f, keep, n);
    let cs = clusters_from(g, m, f, keep);
    regions::lemma_geometry(g);
    files::lemma_first_in_heap(v, m, f);
    lemma_file_run(v, m, f, keep);
    assert(files::cluster_at(g, m, f, keep) is Some);
    assert(cs[0] == files::cluster_at(g, m, f, keep)->0);
    let last = files::cluster_at(g, m, f, keep - 1)->0;
    assert(files::cluster_at(g, m, f, keep - 1) is Some);
    assert(release::kept_tail(g, m, f, keep) == Some(last));
    let end = allocation::set_fat_plan::<E>(v, m, free, last, 0xffff_ffff);
    let m1 = end.leaves(m);
    allocating::lemma_fat_written::<E>(v, m, free, last, 0xffff_ffff);
    assert(!cs.contains(last)) by {
        if cs.contains(last) {
            let j = choose|j: int| 0 <= j < cs.len() && cs[j] == last;
            assert(files::cluster_at(g, m, f, keep + j) is Some);
        }
    }
    lemma_run_kept(v, m, m1, free, f.no_fat_chain, cs, last);
    lemma_freed::<E>(v, m1, free, f.no_fat_chain, cs);
    let give = release::free_run_plan::<E>(v, m1, free, f.no_fat_chain, cs[0], cs.len());
    assert(plan == end.and(give));
    device::lemma_applied_concat(m, end.writes, give.writes);
}

/// What the FAT says of the cluster at which a file was cut.
proof fn lemma_cut_word<E>(v: Volume, m: Media, free: u32, f: FileModel, keep: int)
    requires
        regions::sound(v, m, free),
        files::file_sound(v, m, f),
        0 < keep < files::count_of(v.geometry, f),
    ensures
        ({
            let g = v.geometry;
            let n = files::count_of(g, f);
            let m2 = release::shrink_plan::<E>(v, m, free, f, keep, n).leaves(m);
            slots::fat_entry(g, m2, files::cluster_at(g, m, f, keep - 1)->0) == 0xffff_ffff
        }),
{
    let g = v.geometry;
    let cs = clusters_from(g, m, f, keep);
    lemma_cut_then_freed::<E>(v, m, free, f, keep);
    let last = files::cluster_at(g, m, f, keep - 1)->0;
    let m1 = allocation::set_fat_plan::<E>(v, m, free, last, 0xffff_ffff).leaves(m);
    let give = release::free_run_plan::<E>(v, m1, free, f.no_fat_chain, cs[0], cs.len());
    lemma_word_kept(v, m1, free, cs, give, last);
}

/// Giving back clusters leaves the words of other clusters alone.
proof fn lemma_word_kept<E>(
    v: Volume,
    m: Media,
    free: u32,
    cs: Seq<u32>,
    give: Plan<(), E>,
    last: u32,
)
    requires
        has_freed(v, m, free, cs, give),
        v.geometry.fat_holds(last),
        !cs.to_set().contains(last),
    ensures
        slots::fat_entry(v.geometry, give.leaves(m), last) == slots::fat_entry(
            v.geometry,
            m,
            last,
        ),
{
    assert(regions::fat_kept(v.geometry, m, give.leaves(m), cs.to_set()));
}

/// Giving back all clusters of a file.
proof fn lemma_all_freed<E>(v: Volume, m: Media, free: u32, f: FileModel)
    requires
        regions::sound(v, m, free),
        files::file_sound(v, m, f),
        0 < files::count_of(v.geometry, f),
    ensures
        ({
            let g = v.geometry;
            let n = files::count_of(g, f);
            has_freed(
                v,
                m,
                free,
                clusters_from(g, m, f, 0),
                release::shrink_plan::<E>(v, m, free, f, 0, n),
            )
        }),
{
    let g = v.geometry;
    let n = files::count_of(g, f);
    let cs = clusters_from(g, m, f, 0);
    files::lemma_first_in_heap(v, m, f);
    lemma_file_run(v, m, f, 0);
    assert(files::cluster_at(g, m, f, 0) is Some);
    assert(cs[0] == files::cluster_at(g, m, f, 0)->0);
    assert(cs[0] == f.first_cluster);
    assert(cs.len() == n);
    lemma_freed::<E>(v, m, free, f.no_fat_chain, cs);
}

/// The FAT holds zero for each cluster that was given back.
proof fn lemma_zero_words<E>(v: Volume, m: Media, free: u32, cs: Seq<u32>, plan: Plan<(), E>, j: int)
    requires
        has_freed(v, m, free, cs, plan),
        0 <= j < cs.len(),
    ensures
        slots::fat_entry(v.geometry, plan.leaves(m), cs[j]) == 0,
{
}

/// What the FAT says of the clusters that a file gave back.
proof fn lemma_freed_word<E>(v: Volume, m: Media, free: u32, f: FileModel, keep: int, i: int)
    requires
        regions::sound(v, m, free),
        files::file_sound(v, m, f),
        0 <= keep <= i < files::count_of(v.geometry, f),
    ensures
        ({
            let g = v.geometry;
            let n = files::count_of(g, f);
            let m2 = release::shrink_plan::<E>(v, m, free, f, keep, n).leaves(m);
            slots::fat_entry(g, m2, files::cluster_at(g, m, f, i)->0) == 0
        }),
{
    let g = v.geometry;
    let n = files::count_of(g, f);
    let cs = clusters_from(g, m, f, keep);
    assert(cs.len() == n - keep);
    assert(cs[i - keep] == files::cluster_at(g, m, f, i)->0);
    if keep == 0 {
        lemma_all_freed::<E>(v, m, free, f);
        let plan = release::shrink_plan::<E>(v, m, free, f, 0, n);
        lemma_zero_words::<E>(v, m, free, cs, plan, i - keep);
    } else {
        lemma_cut_then_freed::<E>(v, m, free, f, keep);
        let last = files::cluster_at(g, m, f, keep - 1)->0;
        let m1 = allocation::set_fat_plan::<E>(v, m, free, last, 0xffff_ffff).leaves(m);
        let give = release::free_run_plan::<E>(v, m1, free, f.no_fat_chain, cs[0], cs.len());
        lemma_zero_words::<E>(v, m1, free, cs, give, i - keep);
    }
}

/// A file that was cut is still recorded where it was.
proof fn lemma_still_stored<E>(
    v: Volume,
    m: Media,
    free: u32,
    f: FileModel,
    len: u64,
    d: u32,
    e: u32,
)
    requires
        regions::sound(v, m, free),
        files::file_sound(v, m, f),
        appending::stored_in(v, m, f, d, e),
        len <= f.valid_length,
    ensures
        ({
            let g = v.geometry;
            let shrink = release::shrink_plan::<E>(
                v,
                m,
                free,
                f,
                release::clusters_for(g, len as int),
                release::clusters_for(g, f.data_length as int),
            );
            let m1 = shrink.leaves(m);
            &&& shrink.result is Ok
            &&& regions::sound(v, m1, shrink.free)
            &&& appending::stored_in(v, m1, release::truncated(g, f, len), d, e)
            &&& !files::owned(g, m, f).contains(d)
            &&& !files::owned(g, m, f).contains(e)
        }),
{
    let g = v.geometry;
    let all = files::owned(g, m, f);
    let f2 = release::truncated(g, f, len);
    lemma_cut::<E>(v, m, free, f, len);
    let shrink = release::shrink_plan::<E>(
        v,
        m,
        free,
        f,
        release::clusters_for(g, len as int),
        release::clusters_for(g, f.data_length as int),
    );
    let m1 = shrink.leaves(m);
    assert(!all.contains(d) && !all.contains(e));
    appending::lemma_still_taken(v, m, m1, free, all, d);
    appending::lemma_still_taken(v, m, m1, free, all, e);
    assert(!files::owned(g, m1, f2).contains(d) && !files::owned(g, m1, f2).contains(e));
}

/// Recording a file leaves the words of other clusters alone.
proof fn lemma_word_recorded<E>(
    v: Volume,
    m: Media,
    free: u32,
    f: FileModel,
    d: u32,
    e: u32,
    c: u32,
)
    requires
        regions::sound(v, m, free),
        appending::stored_in(v, m, f, d, e),
        v.geometry.fat_holds(c),
        c != d,
        c != e,
    ensures
        slots::fat_entry(
            v.geometry,
            metadata::update_plan::<E>(v, m, free, f).leaves(m),
            c,
        ) == slots::fat_entry(v.geometry, m, c),
{
    appending::lemma_recorded::<E>(v, m, free, f, d, e);
    assert(!set![d, e].contains(c));
    assert(regions::fat_kept(
        v.geometry,
        m,
        metadata::update_plan::<E>(v, m, free, f).leaves(m),
        set![d, e],
    ));
}

/// Once a file was shortened, the FAT ends the chain at the last cluster that the
/// file keeps, and holds zero for every cluster that it gave back.
#[verifier::rlimit(40)]
pub proof fn law_shortened_file_leaves_the_fat_clean<E>(
    v: Volume,
    m: Media,
    free: u32,
    f: FileModel,
    len: u64,
    d: u32,
    e: u32,
    i: int,
)
    requires
        regions::sound(v, m, free),
        files::file_sound(v, m, f),
        appending::stored_in(v, m, f, d, e),
        len <= f.valid_length,
        ({
            let keep = release::clusters_for(v.geometry, len as int);
            &&& keep < files::count_of(v.geometry, f)
            &&& keep - 1 <= i < files::count_of(v.geometry, f)
        }),
        0 <= i,
    ensures
        ({
            let g = v.geometry;
            let m2 = release::truncate_plan::<E>(v, m, free, f, len).leaves(m);
            let c = files::cluster_at(g, m, f, i)->0;
            &&& files::cluster_at(g, m, f, i) is Some
            &&& slots::fat_entry(g, m2, c) == if i < release::clusters_for(g, len as int) {
                0xffff_ffffu32
            } else {
                0u32
            }
        }),
{
    let g = v.geometry;
    let n = files::count_of(g, f);
    let keep = release::clusters_for(g, len as int);
    let c = files::cluster_at(g, m, f, i)->0;
    let f2 = release::truncated(g, f, len);
    let shrink = release::shrink_plan::<E>(v, m, free, f, keep, n);
    let m1 = shrink.leaves(m);
    let update = metadata::update_plan::<E>(v, m1, shrink.free, f2);
    assert(files::cluster_at(g, m, f, i) is Some);
    assert(files::owns(g, m, f, c));
    assert(files::owned(g, m, f).contains(c));
    assert(g.fat_holds(c)) by {
        regions::lemma_geometry(g);
    }
    lemma_still_stored::<E>(v, m, free, f, len, d, e);
    lemma_word_recorded::<E>(v, m1, shrink.free, f2, d, e, c);
    assert(release::truncate_plan::<E>(v, m, free, f, len) == shrink.and(update));
    device::lemma_applied_concat(m, shrink.writes, update.writes);
    if i < keep {
        lemma_cut_word::<E>(v, m, free, f, keep);
    } else {
        lemma_freed_word::<E>(v, m, free, f, keep, i);
    }
}

} // verus!
