//! Paths: they lead where they did as long as the directories on the way are
//! left alone.

use crate::arith;
use crate::device::Media;
use crate::directory::codec;
use crate::directory::entry::{DirectoryModel, EntryModel};
use crate::directory::slots;
use crate::directory::slots::Span;
use crate::error;
use crate::error::Error;
use crate::fs::listing;
use crate::fs::lookup;
use crate::fs::walk;
use crate::fs::walk::Layout;
use crate::geometry::Geometry;
use crate::laws::appending;
use crate::laws::directories;
use crate::laws::regions;
use crate::mount::Volume;
use vstd::prelude::*;

verus! {

/// The cluster of a sector of the heap.
pub proof fn lemma_home(g: Geometry, c: u32, s: int)
    requires
        regions::apart(g),
        g.in_heap(c),
        0 <= s < g.sectors_per_cluster,
    ensures
        directories::home(g, regions::sector_number(g, c, s)) == c,
        appending::in_cluster(g, regions::sector_number(g, c, s), c),
{
    regions::lemma_sector(g, c, s);
    arith::lemma_split(c - 2, s, g.sectors_per_cluster as int);
}

/// Whether none of the clusters `touched` holds one of `spans`.
pub open spec fn are_clear(g: Geometry, spans: Seq<Span>, touched: Set<u32>) -> bool {
    forall|j: int|
        0 <= j < spans.len() ==> !touched.contains(
            directories::home(g, (#[trigger] spans[j]).lba),
        )
}

/// A walk is the same where the clusters that it visits are left alone.
proof fn lemma_walk_kept(
    g: Geometry,
    m: Media,
    m2: Media,
    touched: Set<u32>,
    p: Layout,
    cluster: u32,
    sector: nat,
    remaining: nat,
    budget: nat,
)
    requires
        regions::apart(g),
        regions::fat_kept(g, m, m2, touched),
        sector <= g.sectors_per_cluster,
        g.in_heap(cluster),
        !touched.contains(cluster),
        are_clear(
            g,
            walk::walk_from(g, m, p, cluster, sector, remaining, budget).spans,
            touched,
        ),
    ensures
        walk::walk_from(g, m2, p, cluster, sector, remaining, budget) == walk::walk_from(
            g,
            m,
            p,
            cluster,
            sector,
            remaining,
            budget,
        ),
    decreases budget, g.sectors_per_cluster - sector + 1,
{
    let all = walk::walk_from(g, m, p, cluster, sector, remaining, budget);
    if sector < g.sectors_per_cluster {
        if p.whole || remaining != 0 {
            let used = walk::usable(g, p, remaining);
            let left = if p.whole {
                remaining
            } else {
                (remaining - used) as nat
            };
            let rest = walk::walk_from(g, m, p, cluster, sector + 1, left, budget);
            assert(are_clear(g, rest.spans, touched)) by {
                assert forall|j: int| 0 <= j < rest.spans.len() implies !touched.contains(
                    directories::home(g, (#[trigger] rest.spans[j]).lba),
                ) by {
                    assert(all.spans[j + 1] == rest.spans[j]);
                }
            }
            lemma_walk_kept(g, m, m2, touched, p, cluster, sector + 1, left, budget);
        }
    } else if p.contiguous {
        if remaining != 0 {
            lemma_walk_kept_into(
                g,
                m,
                m2,
                touched,
                p,
                (cluster + 1) as u32,
                remaining,
                budget,
            );
        }
    } else {
        assert(g.fat_holds(cluster)) by {
            regions::lemma_geometry(g);
        }
        let next = slots::fat_entry(g, m, cluster);
        assert(slots::fat_entry(g, m2, cluster) == next);
        if next < crate::geometry::CHAIN_END {
            lemma_walk_kept_into(g, m, m2, touched, p, next, remaining, budget);
        }
    }
}

/// A walk into a cluster is the same where the clusters that it visits are left
/// alone.
proof fn lemma_walk_kept_into(
    g: Geometry,
    m: Media,
    m2: Media,
    touched: Set<u32>,
    p: Layout,
    cluster: u32,
    remaining: nat,
    budget: nat,
)
    requires
        regions::apart(g),
        regions::fat_kept(g, m, m2, touched),
        are_clear(g, walk::walk_into(g, m, p, cluster, remaining, budget).spans, touched),
    ensures
        walk::walk_into(g, m2, p, cluster, remaining, budget) == walk::walk_into(
            g,
            m,
            p,
            cluster,
            remaining,
            budget,
        ),
    decreases budget, 0int,
{
    if budget > 0 && g.in_heap(cluster) {
        let rest = (budget - 1) as nat;
        regions::lemma_geometry(g);
        if p.whole || remaining != 0 {
            let all = walk::walk_from(g, m, p, cluster, 0, remaining, rest);
            assert(all.spans.len() > 0);
            assert(all.spans[0].lba == regions::sector_number(g, cluster, 0));
            lemma_home(g, cluster, 0);
            lemma_walk_kept(g, m, m2, touched, p, cluster, 0, remaining, rest);
        }
    }
}

/// A directory whose clusters are left alone is as sound as it was, and has the
/// same slots.
pub proof fn lemma_dir_kept(
    v: Volume,
    m: Media,
    m2: Media,
    free: u32,
    d: DirectoryModel,
    touched: Set<u32>,
)
    requires
        regions::sound(v, m, free),
        directories::dir_housed(v, m, d),
        regions::changes_only(v, m, m2, touched),
        regions::same_system(v, m, m2),
        touched.disjoint(directories::homes(v.geometry, m, d)),
    ensures
        walk::directory_slots(v.geometry, m2, d) == walk::directory_slots(v.geometry, m, d),
        directories::dir_housed(v, m2, d),
        directories::dir_sound(v, m, d) ==> directories::dir_sound(v, m2, d),
        directories::homes(v.geometry, m2, d) == directories::homes(v.geometry, m, d),
        directories::spans_of(v.geometry, m2, d) == directories::spans_of(v.geometry, m, d),
{
    let g = v.geometry;
    let spans = directories::spans_of(g, m, d);
    regions::lemma_geometry(g);
    assert(are_clear(g, spans, touched)) by {
        assert forall|j: int| 0 <= j < spans.len() implies !touched.contains(
            directories::home(g, (#[trigger] spans[j]).lba),
        ) by {
            assert(directories::homes(g, m, d).contains(directories::home(g, spans[j].lba)));
        }
    }
    lemma_walk_kept_into(
        g,
        m,
        m2,
        touched,
        walk::layout_of(d),
        d.first_cluster,
        d.data_length as nat,
        g.cluster_count as nat,
    );
    assert(directories::spans_of(g, m2, d) == spans);
    assert(directories::homes(g, m2, d) =~= directories::homes(g, m, d));
    assert forall|j: int| 0 <= j < spans.len() implies directories::is_housed(
        v,
        m2,
        (#[trigger] spans[j]).lba,
    ) && m2[spans[j].lba] == m[spans[j].lba] by {
        let lba = spans[j].lba;
        let c = directories::home(g, lba);
        assert(directories::is_housed(v, m, lba));
        appending::lemma_still_taken(v, m, m2, free, touched, c);
        assert(regions::same_cluster(g, m, m2, c));
        let s = lba - g.heap_lba(c as int);
        regions::lemma_sector(g, c, s);
        assert(regions::cluster_sector(g, m2, c, s) == regions::cluster_sector(g, m, c, s));
    }
    lemma_slots_kept(m, m2, spans);
}

/// Sectors with the same bytes have the same slots.
pub proof fn lemma_slots_kept(m: Media, m2: Media, spans: Seq<Span>)
    requires
        forall|j: int| 0 <= j < spans.len() ==> m2[(#[trigger] spans[j]).lba] == m[spans[j].lba],
    ensures
        slots::span_slots(m2, spans) == slots::span_slots(m, spans),
    decreases spans.len(),
{
    if spans.len() > 0 {
        let rest = spans.drop_first();
        assert forall|j: int| 0 <= j < rest.len() implies m2[(#[trigger] rest[j]).lba]
            == m[rest[j].lba] by {
            assert(rest[j] == spans[j + 1]);
        }
        lemma_slots_kept(m, m2, rest);
        assert(m2[spans[0].lba] == m[spans[0].lba]);
        assert(slots::sector_slots(m2, spans[0].lba, spans[0].usable) =~= slots::sector_slots(
            m,
            spans[0].lba,
            spans[0].usable,
        ));
    }
}

/// The directory that the first of `parts` names in `d`, if there is one.
pub open spec fn below<E>(v: Volume, media: Media, d: DirectoryModel, part: Seq<char>) -> Option<
    DirectoryModel,
> {
    match codec::name_result::<E>(part) {
        Ok(units) => match listing::child(v, media, d, units) {
            Some(Some(found)) => found.directory(),
            _ => None,
        },
        Err(_) => None,
    }
}

/// Whether all but the last of `parts` name directories, one below the other.
pub open spec fn leads<E>(v: Volume, media: Media, d: DirectoryModel, parts: Seq<Seq<char>>) -> bool
    decreases parts.len(),
{
    if parts.len() <= 1 {
        parts.len() == 1
    } else {
        match below::<E>(v, media, d, parts[0]) {
            Some(next) => leads::<E>(v, media, next, parts.drop_first()),
            None => false,
        }
    }
}

/// The directories that a path passes on its way to the last one.
pub open spec fn passed<E>(v: Volume, media: Media, d: DirectoryModel, parts: Seq<Seq<char>>) -> Seq<
    DirectoryModel,
>
    decreases parts.len(),
{
    if parts.len() <= 1 {
        Seq::empty()
    } else {
        match below::<E>(v, media, d, parts[0]) {
            Some(next) => seq![d] + passed::<E>(v, media, next, parts.drop_first()),
            None => Seq::empty(),
        }
    }
}

/// The directory in which the last part of a path is looked up.
pub open spec fn last_dir<E>(v: Volume, media: Media, d: DirectoryModel, parts: Seq<Seq<char>>) -> DirectoryModel
    decreases parts.len(),
{
    if parts.len() <= 1 {
        d
    } else {
        match below::<E>(v, media, d, parts[0]) {
            Some(next) => last_dir::<E>(v, media, next, parts.drop_first()),
            None => d,
        }
    }
}

/// Whether the directories that a path passes are sound, and apart from the
/// clusters `touched`.
pub open spec fn is_clear<E>(
    v: Volume,
    media: Media,
    d: DirectoryModel,
    parts: Seq<Seq<char>>,
    touched: Set<u32>,
) -> bool {
    let way = passed::<E>(v, media, d, parts);
    forall|k: int|
        0 <= k < way.len() ==> directories::dir_sound(v, media, #[trigger] way[k])
            && touched.disjoint(directories::homes(v.geometry, media, way[k]))
}

/// What a path names is what its last part names in the last directory.
pub proof fn lemma_resolve<E>(
    v: Volume,
    m: Media,
    d: DirectoryModel,
    parts: Seq<Seq<char>>,
    scratch_len: nat,
)
    requires
        leads::<E>(v, m, d, parts),
        scratch_len >= v.geometry.bytes_per_sector,
    ensures
        parts.len() > 0,
        lookup::resolve::<E>(v, m, d, parts, scratch_len) == match codec::name_result::<E>(
            parts.last(),
        ) {
            Err(error) => Err::<EntryModel, Error<E>>(error),
            Ok(units) => match listing::child(
                v,
                m,
                last_dir::<E>(v, m, d, parts),
                units,
            ) {
                None => Err(Error::Corrupt),
                Some(None) => Err(Error::PathNotFound),
                Some(Some(found)) => Ok(found),
            },
        },
    decreases parts.len(),
{
    if parts.len() > 1 {
        let next = below::<E>(v, m, d, parts[0])->0;
        lemma_resolve::<E>(v, m, next, parts.drop_first(), scratch_len);
        assert(parts.drop_first().last() == parts.last());
    }
}

/// A path whose directories are left alone leads where it did.
pub proof fn lemma_trail<E>(
    v: Volume,
    m: Media,
    m2: Media,
    free: u32,
    d: DirectoryModel,
    parts: Seq<Seq<char>>,
    touched: Set<u32>,
)
    requires
        regions::sound(v, m, free),
        leads::<E>(v, m, d, parts),
        is_clear::<E>(v, m, d, parts, touched),
        regions::changes_only(v, m, m2, touched),
        regions::same_system(v, m, m2),
        directories::same_names(v, m, m2),
    ensures
        leads::<E>(v, m2, d, parts),
        last_dir::<E>(v, m2, d, parts) == last_dir::<E>(v, m, d, parts),
        passed::<E>(v, m2, d, parts) == passed::<E>(v, m, d, parts),
        is_clear::<E>(v, m2, d, parts, touched),
    decreases parts.len(),
{
    if parts.len() > 1 {
        let way = passed::<E>(v, m, d, parts);
        let next = below::<E>(v, m, d, parts[0])->0;
        let rest = parts.drop_first();
        let later = passed::<E>(v, m, next, rest);
        assert(way[0] == d);
        assert forall|k: int| 0 <= k < later.len() implies directories::dir_sound(
            v,
            m,
            #[trigger] later[k],
        ) && touched.disjoint(directories::homes(v.geometry, m, later[k])) by {
            assert(way[k + 1] == later[k]);
        }
        lemma_dir_kept(v, m, m2, free, d, touched);
        let units = codec::name_result::<E>(parts[0])->Ok_0;
        lemma_find_kept(
            v,
            m,
            m2,
            listing::listing(v.geometry, m, d),
            units,
            0,
        );
        assert(below::<E>(v, m2, d, parts[0]) == below::<E>(v, m, d, parts[0]));
        lemma_trail::<E>(v, m, m2, free, next, rest, touched);
        assert forall|k: int| 0 <= k < way.len() implies directories::dir_sound(
            v,
            m2,
            #[trigger] way[k],
        ) && touched.disjoint(directories::homes(v.geometry, m2, way[k])) by {
            if k > 0 {
                assert(way[k] == later[k - 1]);
            }
        }
    }
}

/// Where names mean the same, they find the same in a listing.
pub proof fn lemma_find_kept(
    v: Volume,
    m: Media,
    m2: Media,
    list: listing::Listing,
    name: Seq<u16>,
    i: int,
)
    requires
        directories::same_names(v, m, m2),
        0 <= i,
    ensures
        listing::find_from(v, m2, list, name, i) == listing::find_from(v, m, list, name, i),
    decreases list.entries.len() - i,
{
    if i < list.entries.len() {
        directories::lemma_matches_kept(v, m, m2, list.entries[i].name, name);
        lemma_find_kept(v, m, m2, list, name, i + 1);
    }
}

} // verus!
