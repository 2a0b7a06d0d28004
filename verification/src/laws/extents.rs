//! The sectors of directories, and what one more cluster adds to those of
//! FAT-linked ones.

use crate::arith;
use crate::device::Media;
use crate::directory::entry::DirectoryModel;
use crate::directory::slots;
use crate::directory::slots::Span;
use crate::fs::allocation;
use crate::fs::walk;
use crate::fs::walk::{End, Layout, Walk};
use crate::geometry::{Geometry, CHAIN_END};
use crate::laws::appending;
use crate::laws::directories;
use crate::laws::regions;
use crate::laws::trails;
use crate::mount::Volume;
use vstd::prelude::*;

verus! {

/// Cluster number `i` of a FAT-linked directory.
pub open spec fn link(g: Geometry, media: Media, d: DirectoryModel, i: int) -> u32 {
    allocation::chain_at(g, media, d.first_cluster, i as nat)->0
}

/// Whether a directory is linked by the FAT and has `n` clusters of its own,
/// all of them in full.
#[verifier::opaque]
pub open spec fn is_chain(v: Volume, media: Media, d: DirectoryModel, n: int) -> bool {
    let g = v.geometry;
    &&& !d.no_fat_chain
    &&& 1 <= n <= g.cluster_count
    &&& forall|i: nat|
        i < n ==> (#[trigger] allocation::chain_at(g, media, d.first_cluster, i) matches Some(c)
            && appending::is_taken(v, media, c))
    &&& forall|i: nat, j: nat|
        i < n && j < n && #[trigger] allocation::chain_at(g, media, d.first_cluster, i)
            == #[trigger] allocation::chain_at(g, media, d.first_cluster, j) ==> i == j
    &&& slots::fat_entry(g, media, link(g, media, d, n - 1)) >= CHAIN_END
    &&& d.data_length == 0 || d.data_length == n * g.cluster_bytes()
}

/// Whether a directory ends where its length, or its first contiguous cluster,
/// ends: it takes entries as long as it has slots, and does not grow.
#[verifier::opaque]
pub open spec fn is_fixed(v: Volume, media: Media, d: DirectoryModel) -> bool {
    let end = walk::directory_slots(v.geometry, media, d).end;
    &&& directories::dir_housed(v, media, d)
    &&& end == End::Bytes || end == End::Contiguous
}

/// Whether the sectors of a directory are its own, and it either is linked by
/// the FAT with `n` clusters or does not grow.
pub open spec fn is_extent(v: Volume, media: Media, d: DirectoryModel, n: int) -> bool {
    is_chain(v, media, d, n) || is_fixed(v, media, d)
}

/// The sectors of a directory's clusters from number `i` up to `n`.
pub open spec fn chain_spans(g: Geometry, media: Media, d: DirectoryModel, i: int, n: int) -> Seq<
    Span,
>
    decreases n - i,
{
    if i >= n {
        Seq::empty()
    } else {
        slots::cluster_spans(g, link(g, media, d, i)) + chain_spans(g, media, d, i + 1, n)
    }
}

/// The walk through one whole cluster.
pub proof fn lemma_cluster_walk(
    g: Geometry,
    m: Media,
    p: Layout,
    c: u32,
    sector: nat,
    remaining: nat,
    budget: nat,
)
    requires
        sector <= g.sectors_per_cluster,
        p.whole || remaining >= (g.sectors_per_cluster - sector) * g.bytes_per_sector,
        g.bytes_per_sector > 0,
    ensures
        ({
            let left = if p.whole {
                remaining
            } else {
                (remaining - (g.sectors_per_cluster - sector) * g.bytes_per_sector) as nat
            };
            let rest = walk::walk_from(
                g,
                m,
                p,
                c,
                g.sectors_per_cluster as nat,
                left,
                budget,
            );
            walk::walk_from(g, m, p, c, sector, remaining, budget) == (Walk {
                spans: slots::cluster_spans(g, c).skip(sector as int) + rest.spans,
                end: rest.end,
            })
        }),
    decreases g.sectors_per_cluster - sector,
{
    let size = g.bytes_per_sector as int;
    let per = g.sectors_per_cluster as int;
    let spans = slots::cluster_spans(g, c);
    let all = walk::walk_from(g, m, p, c, sector, remaining, budget);
    if sector < per {
        assert((per - sector) * size == (per - sector - 1) * size + size) by (nonlinear_arith);
        assert((per - sector - 1) * size >= 0) by (nonlinear_arith)
            requires
                per - sector - 1 >= 0,
                size > 0,
        ;
        let used = walk::usable(g, p, remaining);
        assert(used == size);
        let left = if p.whole {
            remaining
        } else {
            (remaining - used) as nat
        };
        lemma_cluster_walk(g, m, p, c, sector + 1, left, budget);
        let later = walk::walk_from(g, m, p, c, sector + 1, left, budget);
        assert(spans.skip(sector as int) =~= seq![spans[sector as int]] + spans.skip(
            sector as int + 1,
        ));
        let end = if p.whole {
            remaining
        } else {
            (remaining - (per - sector) * size) as nat
        };
        let rest = walk::walk_from(g, m, p, c, per as nat, end, budget);
        assert(all.spans =~= seq![spans[sector as int]] + later.spans);
        assert(all.spans =~= spans.skip(sector as int) + rest.spans);
    } else {
        assert(spans.skip(sector as int) =~= Seq::empty());
        assert((per - sector) * size == 0) by (nonlinear_arith)
            requires
                per == sector,
        ;
        assert(Seq::<Span>::empty() + all.spans =~= all.spans);
    }
}

/// The walk through a FAT-linked directory visits all sectors of its clusters.
proof fn lemma_chain_walk(
    v: Volume,
    m: Media,
    d: DirectoryModel,
    n: int,
    i: int,
    p: Layout,
    remaining: nat,
    budget: nat,
)
    requires
        regions::apart(v.geometry),
        is_chain(v, m, d, n),
        0 <= i < n,
        !p.contiguous,
        p.whole || remaining == (n - i) * v.geometry.cluster_bytes(),
        budget >= n - i,
    ensures
        walk::walk_into(v.geometry, m, p, link(v.geometry, m, d, i), remaining, budget) == (Walk {
            spans: chain_spans(v.geometry, m, d, i, n),
            end: End::Tail(link(v.geometry, m, d, n - 1)),
        }),
    decreases n - i,
{
    reveal(is_chain);
    let g = v.geometry;
    let per = g.sectors_per_cluster as int;
    let size = g.bytes_per_sector as int;
    let cb = g.cluster_bytes();
    let c = link(g, m, d, i);
    regions::lemma_geometry(g);
    assert(allocation::chain_at(g, m, d.first_cluster, i as nat) is Some);
    assert(per * size == cb) by (nonlinear_arith)
        requires
            cb == g.bytes_per_sector * g.sectors_per_cluster,
            per == g.sectors_per_cluster,
            size == g.bytes_per_sector,
    ;
    assert((n - i) * cb == (n - i - 1) * cb + cb) by (nonlinear_arith);
    assert((n - i - 1) * cb >= 0) by (nonlinear_arith)
        requires
            n - i - 1 >= 0,
            cb > 0,
    ;
    let less = (budget - 1) as nat;
    lemma_cluster_walk(g, m, p, c, 0, remaining, less);
    let spans = slots::cluster_spans(g, c);
    assert(spans.skip(0) =~= spans);
    let left = if p.whole {
        remaining
    } else {
        (remaining - cb) as nat
    };
    let rest = walk::walk_from(g, m, p, c, per as nat, left, less);
    assert(g.fat_holds(c));
    if i == n - 1 {
        assert(rest.spans =~= Seq::empty());
        assert(chain_spans(g, m, d, i + 1, n) =~= Seq::empty());
    } else {
        assert(allocation::chain_at(g, m, d.first_cluster, (i + 1) as nat) is Some);
        let next = link(g, m, d, i + 1);
        assert(slots::fat_entry(g, m, c) == next);
        assert(g.in_heap(next) && next < CHAIN_END);
        lemma_chain_walk(v, m, d, n, i + 1, p, left, less);
    }
}

/// Where each sector of a FAT-linked directory lies.
pub proof fn lemma_chain_span(
    v: Volume,
    m: Media,
    d: DirectoryModel,
    n: int,
    i: int,
    k: int,
)
    requires
        regions::apart(v.geometry),
        0 <= i <= n,
        0 <= k < chain_spans(v.geometry, m, d, i, n).len(),
    ensures
        chain_spans(v.geometry, m, d, i, n).len() == (n - i) * v.geometry.sectors_per_cluster,
        ({
            let g = v.geometry;
            let per = g.sectors_per_cluster as int;
            &&& 0 <= k / per < n - i
            &&& 0 <= k % per < per
            &&& chain_spans(g, m, d, i, n)[k] == (Span {
                lba: regions::sector_number(g, link(g, m, d, i + k / per), k % per),
                usable: g.bytes_per_sector as nat,
            })
        }),
    decreases n - i,
{
    let g = v.geometry;
    let per = g.sectors_per_cluster as int;
    regions::lemma_geometry(g);
    lemma_chain_len(g, m, d, i, n);
    let here = slots::cluster_spans(g, link(g, m, d, i));
    assert(here.len() == per);
    if k < per {
        vstd::arithmetic::div_mod::lemma_basic_div(k, per);
        vstd::arithmetic::div_mod::lemma_small_mod(k as nat, per as nat);
    } else {
        lemma_chain_span(v, m, d, n, i + 1, k - per);
        vstd::arithmetic::div_mod::lemma_div_minus_one(k, per);
        vstd::arithmetic::div_mod::lemma_mod_sub_multiples_vanish(k, per);
        assert(chain_spans(g, m, d, i, n)[k] == chain_spans(g, m, d, i + 1, n)[k - per]);
        assert(i + 1 + (k - per) / per == i + k / per);
    }
}

/// How many sectors a FAT-linked directory has.
pub proof fn lemma_chain_len(g: Geometry, m: Media, d: DirectoryModel, i: int, n: int)
    requires
        0 <= i <= n,
    ensures
        chain_spans(g, m, d, i, n).len() == (n - i) * g.sectors_per_cluster,
    decreases n - i,
{
    let per = g.sectors_per_cluster as int;
    if i < n {
        lemma_chain_len(g, m, d, i + 1, n);
        assert((n - i) * per == (n - i - 1) * per + per) by (nonlinear_arith);
    } else {
        assert((n - i) * per == 0) by (nonlinear_arith)
            requires
                n == i,
        ;
    }
}

/// One more cluster adds its sectors at the end.
pub proof fn lemma_chain_longer(g: Geometry, m: Media, d: DirectoryModel, i: int, n: int)
    requires
        0 <= i <= n,
    ensures
        chain_spans(g, m, d, i, n + 1) == chain_spans(g, m, d, i, n) + slots::cluster_spans(
            g,
            link(g, m, d, n),
        ),
    decreases n - i,
{
    let last = slots::cluster_spans(g, link(g, m, d, n));
    if i < n {
        lemma_chain_longer(g, m, d, i + 1, n);
        let here = slots::cluster_spans(g, link(g, m, d, i));
        assert(here + (chain_spans(g, m, d, i + 1, n) + last) =~= here + chain_spans(
            g,
            m,
            d,
            i + 1,
            n,
        ) + last);
    } else {
        assert(chain_spans(g, m, d, n + 1, n + 1) =~= Seq::empty());
        assert(last + Seq::<Span>::empty() =~= Seq::<Span>::empty() + last);
    }
}

/// The sectors of a directory depend on its clusters alone.
pub proof fn lemma_chain_same(
    g: Geometry,
    m: Media,
    m2: Media,
    d: DirectoryModel,
    d2: DirectoryModel,
    i: int,
    n: int,
)
    requires
        0 <= i <= n,
        forall|k: int| i <= k < n ==> #[trigger] link(g, m2, d2, k) == link(g, m, d, k),
    ensures
        chain_spans(g, m2, d2, i, n) == chain_spans(g, m, d, i, n),
    decreases n - i,
{
    if i < n {
        lemma_chain_same(g, m, m2, d, d2, i + 1, n);
        assert(link(g, m2, d2, i) == link(g, m, d, i));
    }
}

/// The sectors of a FAT-linked directory are all sectors of its clusters, each
/// of them its own.
pub proof fn lemma_chain_housed(v: Volume, m: Media, d: DirectoryModel, n: int)
    requires
        regions::apart(v.geometry),
        is_chain(v, m, d, n),
    ensures
        directories::spans_of(v.geometry, m, d) == chain_spans(v.geometry, m, d, 0, n),
        walk::directory_slots(v.geometry, m, d).end == End::Tail(
            link(v.geometry, m, d, n - 1),
        ),
        directories::dir_housed(v, m, d),
        forall|c: u32| #[trigger]
            directories::homes(v.geometry, m, d).contains(c) ==> exists|i: nat|
                i < n && #[trigger] allocation::chain_at(v.geometry, m, d.first_cluster, i)
                    == Some(c),
        forall|i: nat|
            i < n ==> directories::homes(v.geometry, m, d).contains(
                (#[trigger] allocation::chain_at(v.geometry, m, d.first_cluster, i))->0,
            ),
{
    reveal(is_chain);
    let g = v.geometry;
    let per = g.sectors_per_cluster as int;
    let first = d.first_cluster;
    regions::lemma_geometry(g);
    assert(allocation::chain_at(g, m, first, 0) is Some);
    let p = walk::layout_of(d);
    lemma_chain_walk(v, m, d, n, 0, p, d.data_length as nat, g.cluster_count as nat);
    assert(link(g, m, d, 0) == first);
    let spans = directories::spans_of(g, m, d);
    assert(spans == chain_spans(g, m, d, 0, n));
    lemma_chain_len(g, m, d, 0, n);
    assert forall|k: int| 0 <= k < spans.len() implies directories::is_housed(
        v,
        m,
        (#[trigger] spans[k]).lba,
    ) && directories::home(g, spans[k].lba) == link(g, m, d, k / per) by {
        lemma_chain_span(v, m, d, n, 0, k);
        let c = link(g, m, d, k / per);
        assert(allocation::chain_at(g, m, first, (k / per) as nat) is Some);
        trails::lemma_home(g, c, k % per);
    }
    assert forall|a: int, b: int| 0 <= a < b < spans.len() implies (#[trigger] spans[a]).lba != (
    #[trigger] spans[b]).lba by {
        lemma_chain_span(v, m, d, n, 0, a);
        lemma_chain_span(v, m, d, n, 0, b);
        if spans[a].lba == spans[b].lba {
            let x = link(g, m, d, a / per);
            let y = link(g, m, d, b / per);
            assert(allocation::chain_at(g, m, first, (a / per) as nat) is Some);
            assert(allocation::chain_at(g, m, first, (b / per) as nat) is Some);
            regions::lemma_sectors_differ(g, x, a % per, y, b % per);
            vstd::arithmetic::div_mod::lemma_fundamental_div_mod(a, per);
            vstd::arithmetic::div_mod::lemma_fundamental_div_mod(b, per);
            assert(a / per == b / per);
        }
    }
    assert forall|c: u32| #[trigger] directories::homes(g, m, d).contains(c) implies exists|i: nat|
        i < n && #[trigger] allocation::chain_at(g, m, first, i) == Some(c) by {
        let j = choose|j: int|
            0 <= j < spans.len() && c == directories::home(g, (#[trigger] spans[j]).lba);
        lemma_chain_span(v, m, d, n, 0, j);
        assert(allocation::chain_at(g, m, first, (j / per) as nat) is Some);
        assert(allocation::chain_at(g, m, first, (j / per) as nat) == Some(c));
    }
    assert forall|i: nat| i < n implies directories::homes(g, m, d).contains(
        (#[trigger] allocation::chain_at(g, m, first, i))->0,
    ) by {
        let k = i * per;
        assert(k < n * per) by (nonlinear_arith)
            requires
                i < n,
                k == i * per,
                per >= 1,
        ;
        assert(k >= 0) by (nonlinear_arith)
            requires
                i >= 0,
                k == i * per,
                per >= 1,
        ;
        arith::lemma_split(i as int, 0, per);
        assert(directories::home(g, spans[k].lba) == link(g, m, d, k / per));
    }
}

/// The sectors of a directory are its own.
pub proof fn lemma_extent_housed(v: Volume, m: Media, d: DirectoryModel, n: int)
    requires
        regions::apart(v.geometry),
        is_extent(v, m, d, n),
    ensures
        directories::dir_housed(v, m, d),
        walk::directory_slots(v.geometry, m, d).end != End::Corrupt,
{
    if is_chain(v, m, d, n) {
        lemma_chain_housed(v, m, d, n);
    } else {
        reveal(is_fixed);
    }
}

/// The clusters of a FAT-linked directory.
pub proof fn lemma_chain_homes(v: Volume, m: Media, d: DirectoryModel, n: int)
    requires
        regions::apart(v.geometry),
        is_chain(v, m, d, n),
    ensures
        forall|c: u32| #[trigger]
            directories::homes(v.geometry, m, d).contains(c) ==> exists|i: int|
                0 <= i < n && #[trigger] link(v.geometry, m, d, i) == c,
        forall|i: int|
            0 <= i < n ==> directories::homes(v.geometry, m, d).contains(
                #[trigger] link(v.geometry, m, d, i),
            ),
{
    let g = v.geometry;
    lemma_chain_housed(v, m, d, n);
    assert forall|c: u32| #[trigger] directories::homes(g, m, d).contains(c) implies exists|i: int|
        0 <= i < n && #[trigger] link(g, m, d, i) == c by {
        let i = choose|i: nat|
            i < n && #[trigger] allocation::chain_at(g, m, d.first_cluster, i) == Some(c);
        assert(link(g, m, d, i as int) == c);
    }
    assert forall|i: int| 0 <= i < n implies directories::homes(g, m, d).contains(
        #[trigger] link(g, m, d, i),
    ) by {
        assert(directories::homes(g, m, d).contains(
            allocation::chain_at(g, m, d.first_cluster, i as nat)->0,
        ));
    }
}

} // verus!
