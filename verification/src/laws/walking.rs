//! Where the slots of a directory lie.

use crate::bytes;
use crate::device::Media;
use crate::directory::entry;
use crate::directory::entry::{DecoderModel, DirectoryModel};
use crate::directory::slots;
use crate::directory::slots::{Slot, Span};
use crate::fs::allocation;
use crate::fs::listing;
use crate::fs::walk;
use crate::fs::walk::{End, Layout};
use crate::geometry::{Geometry, UpCaseTable};
use crate::laws::addressing;
use crate::laws::directories;
use crate::laws::regions;
use crate::laws::systems;
use crate::mount::system;
use crate::mount::system::SystemModel;
use vstd::prelude::*;

verus! {

/// Sector number `t` of a stream whose clusters are `chain`.
pub open spec fn sector_lba(g: Geometry, chain: Seq<u32>, t: int) -> int {
    g.partition.first_lba + g.cluster_heap_offset + (chain[t / (g.sectors_per_cluster as int)] - 2)
        * g.sectors_per_cluster + t % (g.sectors_per_cluster as int)
}

/// Whether `chain` holds the clusters of a directory, all of them: a run of
/// clusters one behind the other where it is contiguous, and else the clusters
/// that the FAT links up to a value of `0xffff_fff8` or more.
pub open spec fn is_trail(g: Geometry, media: Media, p: Layout, first: u32, chain: Seq<u32>) -> bool {
    &&& 0 < chain.len() <= g.cluster_count
    &&& chain[0] == first
    &&& forall|i: int| 0 <= i < chain.len() ==> g.in_heap(#[trigger] chain[i])
    &&& if p.contiguous {
        &&& !p.whole
        &&& forall|i: int| 0 <= i < chain.len() ==> #[trigger] chain[i] == first + i
    } else {
        &&& forall|i: int| 0 <= i < chain.len() ==> #[trigger] chain[i] < 0xffff_fff8
        &&& forall|i: int|
            0 <= i < chain.len() - 1 ==> allocation::next_of(g, media, #[trigger] chain[i]) == Some(
                chain[i + 1],
            )
        &&& match allocation::next_of(g, media, chain.last()) {
            Some(next) => next >= 0xffff_fff8,
            None => false,
        }
    }
}

/// Sectors that a directory with the clusters `chain` and a length of `length`
/// bytes takes: all of them where it has no length of its own.
pub open spec fn sectors_of(g: Geometry, p: Layout, chain: Seq<u32>, length: int) -> int {
    if p.whole {
        chain.len() * g.sectors_per_cluster
    } else {
        (length + g.bytes_per_sector - 1) / (g.bytes_per_sector as int)
    }
}

/// Sector number `t` of a directory, with the bytes of it that belong to it.
pub open spec fn span_at(g: Geometry, p: Layout, chain: Seq<u32>, length: int, t: int) -> Span {
    Span {
        lba: sector_lba(g, chain, t) as u64,
        usable: if p.whole || length - t * g.bytes_per_sector >= g.bytes_per_sector {
            g.bytes_per_sector as nat
        } else {
            (length - t * g.bytes_per_sector) as nat
        },
    }
}

/// What is left of a directory behind its first `t` sectors.
spec fn left_behind(g: Geometry, p: Layout, length: int, t: int) -> nat {
    if p.whole {
        length as nat
    } else if length <= t * g.bytes_per_sector {
        0
    } else {
        (length - t * g.bytes_per_sector) as nat
    }
}

/// Whether the sectors `w` are those of a directory from number `t` on.
#[verifier::opaque]
spec fn covers(g: Geometry, p: Layout, chain: Seq<u32>, length: int, t: int, w: Seq<Span>) -> bool {
    let n = sectors_of(g, p, chain, length);
    &&& w.len() == if t < n {
        n - t
    } else {
        0
    }
    &&& forall|i: int| 0 <= i < w.len() ==> #[trigger] w[i] == span_at(g, p, chain, length, t + i)
}

/// One more sector in front.
proof fn lemma_covers_one(g: Geometry, p: Layout, chain: Seq<u32>, length: int, t: int, w: Seq<Span>)
    requires
        covers(g, p, chain, length, t + 1, w),
        t < sectors_of(g, p, chain, length),
    ensures
        covers(g, p, chain, length, t, seq![span_at(g, p, chain, length, t)] + w),
{
    reveal(covers);
    let all = seq![span_at(g, p, chain, length, t)] + w;
    assert forall|i: int| 0 <= i < all.len() implies #[trigger] all[i] == span_at(
        g,
        p,
        chain,
        length,
        t + i,
    ) by {
        if i > 0 {
            assert(all[i] == w[i - 1]);
            assert(t + 1 + (i - 1) == t + i);
        }
    }
}

/// No sector is left.
proof fn lemma_covers_none(g: Geometry, p: Layout, chain: Seq<u32>, length: int, t: int)
    requires
        t >= sectors_of(g, p, chain, length),
    ensures
        covers(g, p, chain, length, t, Seq::empty()),
{
    reveal(covers);
}

/// Whether sector number `t` is one of a directory's.
proof fn lemma_is_sector(g: Geometry, p: Layout, chain: Seq<u32>, length: int, j: int, s: int)
    requires
        g.wf(),
        p.whole <==> length == 0,
        0 <= length,
        0 <= j < chain.len(),
        0 <= s <= g.sectors_per_cluster,
    ensures
        ({
            let t = j * g.sectors_per_cluster + s;
            let n = sectors_of(g, p, chain, length);
            &&& 0 <= t
            &&& p.whole && s < g.sectors_per_cluster ==> t < n
            &&& !p.whole ==> (t < n <==> left_behind(g, p, length, t) > 0)
            &&& s < g.sectors_per_cluster ==> t / (g.sectors_per_cluster as int) == j && t % (
            g.sectors_per_cluster as int) == s
            &&& (j + 1) * g.sectors_per_cluster == j * g.sectors_per_cluster
                + g.sectors_per_cluster
            &&& (j + 1) * g.sectors_per_cluster <= chain.len() * g.sectors_per_cluster
        }),
{
    let per = g.sectors_per_cluster as int;
    let t = j * per + s;
    assert(0 <= j * per && (j + 1) * per == j * per + per && (j + 1) * per <= chain.len() * per)
        by (nonlinear_arith)
        requires
            0 <= j,
            j + 1 <= chain.len(),
            per >= 1,
    ;
    if !p.whole {
        lemma_sector_count(g, p, length, t);
    }
    if s < per {
        vstd::arithmetic::div_mod::lemma_fundamental_div_mod_converse(t, per, j, s);
    }
}

/// The sectors that a walk visits from a sector of a directory on.
#[verifier::opaque]
spec fn walked(
    g: Geometry,
    media: Media,
    p: Layout,
    cluster: u32,
    s: nat,
    left: nat,
    budget: nat,
) -> Seq<Span> {
    walk::walk_from(g, media, p, cluster, s, left, budget).spans
}

/// A walk within a cluster.
proof fn lemma_step_within(
    g: Geometry,
    media: Media,
    p: Layout,
    cluster: u32,
    s: nat,
    left: nat,
    budget: nat,
)
    requires
        s < g.sectors_per_cluster,
    ensures
        walked(g, media, p, cluster, s, left, budget) == if !p.whole && left == 0 {
            Seq::empty()
        } else {
            let used = walk::usable(g, p, left);
            seq![Span { lba: (g.heap_lba(cluster as int) + s) as u64, usable: used }] + walked(
                g,
                media,
                p,
                cluster,
                s + 1,
                if p.whole {
                    left
                } else {
                    (left - used) as nat
                },
                budget,
            )
        },
{
    reveal(walked);
}

/// A walk from one cluster of a trail to the next.
proof fn lemma_step_over(
    g: Geometry,
    media: Media,
    p: Layout,
    first: u32,
    chain: Seq<u32>,
    j: int,
    left: nat,
    budget: nat,
)
    requires
        is_trail(g, media, p, first, chain),
        0 <= j < chain.len(),
        budget >= chain.len() - j - 1,
    ensures
        ({
            let w = walked(g, media, p, chain[j], g.sectors_per_cluster as nat, left, budget);
            if p.contiguous && left == 0 {
                w == Seq::<Span>::empty()
            } else if j + 1 < chain.len() {
                w == walked(g, media, p, chain[j + 1], 0, left, (budget - 1) as nat)
            } else {
                p.contiguous || w == Seq::<Span>::empty()
            }
        }),
{
    reveal(walked);
    if p.contiguous && left == 0 {
    } else if j + 1 < chain.len() {
        lemma_next_cluster(g, media, p, first, chain, j);
        let next = chain[j + 1];
        let into = walk::walk_into(g, media, p, next, left, budget);
        assert(walk::walk_from(g, media, p, chain[j], g.sectors_per_cluster as nat, left, budget)
            == into);
        assert(into == walk::walk_from(g, media, p, next, 0, left, (budget - 1) as nat));
    } else {
        assert(chain[j] == chain.last());
    }
}

/// The walk from a sector of a directory on.
proof fn lemma_walk_on(
    g: Geometry,
    media: Media,
    p: Layout,
    first: u32,
    chain: Seq<u32>,
    length: int,
    j: int,
    s: nat,
    budget: nat,
)
    requires
        g.wf(),
        is_trail(g, media, p, first, chain),
        p.whole <==> length == 0,
        0 <= length,
        sectors_of(g, p, chain, length) <= chain.len() * g.sectors_per_cluster,
        0 <= j < chain.len(),
        s <= g.sectors_per_cluster,
        budget >= chain.len() - j - 1,
    ensures
        covers(
            g,
            p,
            chain,
            length,
            j * g.sectors_per_cluster + s,
            walked(
                g,
                media,
                p,
                chain[j],
                s,
                left_behind(g, p, length, j * g.sectors_per_cluster + s),
                budget,
            ),
        ),
    decreases chain.len() - j, g.sectors_per_cluster - s + 1,
{
    let per = g.sectors_per_cluster as int;
    let t = j * per + s;
    let left = left_behind(g, p, length, t);
    lemma_is_sector(g, p, chain, length, j, s as int);
    if s < per {
        lemma_step_within(g, media, p, chain[j], s, left, budget);
        if p.whole || left > 0 {
            lemma_walk_on(g, media, p, first, chain, length, j, s + 1, budget);
            lemma_less_left(g, p, length, t);
            assert(j * per + (s + 1) == t + 1);
            let rest = walked(
                g,
                media,
                p,
                chain[j],
                s + 1,
                left_behind(g, p, length, t + 1),
                budget,
            );
            lemma_covers_one(g, p, chain, length, t, rest);
        } else {
            lemma_covers_none(g, p, chain, length, t);
        }
    } else {
        lemma_step_over(g, media, p, first, chain, j, left, budget);
        if p.contiguous && left == 0 {
            lemma_covers_none(g, p, chain, length, t);
        } else if j + 1 < chain.len() {
            lemma_walk_on(g, media, p, first, chain, length, j + 1, 0, (budget - 1) as nat);
            assert((j + 1) * per + 0 == t);
        } else {
            lemma_covers_none(g, p, chain, length, t);
        }
    }
}

/// The cluster that follows one of a trail.
proof fn lemma_next_cluster(
    g: Geometry,
    media: Media,
    p: Layout,
    first: u32,
    chain: Seq<u32>,
    j: int,
)
    requires
        is_trail(g, media, p, first, chain),
        0 <= j < chain.len() - 1,
    ensures
        g.in_heap(chain[j + 1]),
        p.contiguous ==> chain[j + 1] == chain[j] + 1,
        !p.contiguous ==> allocation::next_of(g, media, chain[j]) == Some(chain[j + 1]) && chain[j
            + 1] < 0xffff_fff8,
{
    if p.contiguous {
        assert(chain[j] == first + j);
        assert(chain[j + 1] == first + (j + 1));
    } else {
        assert(allocation::next_of(g, media, chain[j]) == Some(chain[j + 1]));
    }
}

/// How many sectors a length takes.
proof fn lemma_sector_count(g: Geometry, p: Layout, length: int, t: int)
    requires
        g.wf(),
        !p.whole,
        0 <= length,
        0 <= t,
    ensures
        t < (length + g.bytes_per_sector - 1) / (g.bytes_per_sector as int) <==> t
            * g.bytes_per_sector < length,
        left_behind(g, p, length, t) > 0 <==> t * g.bytes_per_sector < length,
{
    let size = g.bytes_per_sector as int;
    let n = (length + size - 1) / size;
    vstd::arithmetic::div_mod::lemma_fundamental_div_mod(length + size - 1, size);
    assert(t < n <==> t * size < length) by (nonlinear_arith)
        requires
            length + size - 1 == size * n + (length + size - 1) % size,
            0 <= (length + size - 1) % size < size,
            size > 0,
            0 <= t,
    ;
}

/// What is left behind one more sector.
proof fn lemma_less_left(g: Geometry, p: Layout, length: int, t: int)
    requires
        g.wf(),
        0 <= length,
        0 <= t,
        p.whole || left_behind(g, p, length, t) > 0,
    ensures
        ({
            let left = left_behind(g, p, length, t);
            let used = walk::usable(g, p, left);
            &&& !p.whole ==> left_behind(g, p, length, t + 1) == left - used
            &&& p.whole ==> left_behind(g, p, length, t + 1) == left
            &&& used == if p.whole || length - t * g.bytes_per_sector >= g.bytes_per_sector {
                g.bytes_per_sector as int
            } else {
                length - t * g.bytes_per_sector
            }
        }),
{
    let size = g.bytes_per_sector as int;
    assert((t + 1) * size == t * size + size) by (nonlinear_arith);
}

/// Where the slots lie of sectors that are all used in full but for the last.
proof fn lemma_places_in_order(m: Media, spans: Seq<Span>, size: int, k: int)
    requires
        size >= 32,
        forall|j: int| 0 <= j < spans.len() - 1 ==> (#[trigger] spans[j]).usable == size,
        spans.len() > 0,
        spans.last().usable <= size,
        0 <= k,
    ensures
        slots::span_slots(m, spans).len() == (spans.len() - 1) * (size / 32) + spans.last().usable
            / 32,
        k < slots::span_slots(m, spans).len() ==> directories::place_of(spans, k) == (
            k / (size / 32),
            k % (size / 32),
        ),
    decreases spans.len(),
{
    let q = size / 32;
    let rest = spans.drop_first();
    assert(slots::sector_slots(m, spans[0].lba, spans[0].usable).len() == spans[0].usable / 32);
    if spans.len() > 1 {
        assert forall|j: int| 0 <= j < rest.len() - 1 implies (#[trigger] rest[j]).usable
            == size by {
            assert(rest[j] == spans[j + 1]);
        }
        assert(spans[0].usable == size);
        assert(rest.last() == spans.last());
        assert((spans.len() - 1) * q == (rest.len() - 1) * q + q) by (nonlinear_arith)
            requires
                rest.len() == spans.len() - 1,
        ;
        if k < q {
            lemma_places_in_order(m, rest, size, 0);
            vstd::arithmetic::div_mod::lemma_basic_div(k, q);
            vstd::arithmetic::div_mod::lemma_small_mod(k as nat, q as nat);
        } else {
            lemma_places_in_order(m, rest, size, k - q);
            vstd::arithmetic::div_mod::lemma_div_minus_one(k, q);
            vstd::arithmetic::div_mod::lemma_mod_sub_multiples_vanish(k, q);
        }
    } else {
        assert(rest =~= Seq::empty());
        assert(slots::span_slots(m, rest).len() == 0);
        assert((spans.len() - 1) * q == 0) by (nonlinear_arith)
            requires
                spans.len() == 1,
        ;
        if k < q {
            vstd::arithmetic::div_mod::lemma_basic_div(k, q);
            vstd::arithmetic::div_mod::lemma_small_mod(k as nat, q as nat);
        }
    }
}

/// Slot number `k` of a directory lies in the sector of its clusters, and in the
/// 32 bytes of that sector, that its number falls into, and a directory has a
/// slot for every 32 bytes of its length, or of its clusters where it has no
/// length of its own, as the root has none.
pub proof fn law_slots_follow_the_chain(
    g: Geometry,
    media: Media,
    d: DirectoryModel,
    chain: Seq<u32>,
    k: int,
)
    requires
        g.wf(),
        is_trail(g, media, walk::layout_of(d), d.first_cluster, chain),
        d.data_length <= chain.len() * (g.bytes_per_sector * g.sectors_per_cluster),
        0 <= k,
    ensures
        ({
            let all = walk::directory_slots(g, media, d).slots;
            let length = if d.data_length == 0 {
                chain.len() * (g.bytes_per_sector * g.sectors_per_cluster)
            } else {
                d.data_length as int
            };
            let per = g.bytes_per_sector as int / 32;
            let lba = sector_lba(g, chain, k / per) as u64;
            let at = 32 * (k % per);
            &&& all.len() == length / 32
            &&& k < all.len() ==> all[k].raw == media[lba].subrange(at, at + 32) && all[k].at.lba
                == lba && all[k].at.offset == at
        }),
{
    let p = walk::layout_of(d);
    let size = g.bytes_per_sector as int;
    let length = d.data_length as int;
    let n = sectors_of(g, p, chain, length);
    let spans = directories::spans_of(g, media, d);
    lemma_walk(g, media, d, chain);
    let last = spans.len() - 1;
    assert(spans[last] == span_at(g, p, chain, length, last));
    lemma_places_in_order(media, spans, size, k);
    lemma_slot_total(g, p, chain, length, n);
    if k < slots::span_slots(media, spans).len() {
        directories::lemma_slot_place(media, spans, k);
        let (j, t) = directories::place_of(spans, k);
        assert(spans[j] == span_at(g, p, chain, length, j));
    }
}

/// The sectors of a directory.
proof fn lemma_walk(g: Geometry, media: Media, d: DirectoryModel, chain: Seq<u32>)
    requires
        g.wf(),
        is_trail(g, media, walk::layout_of(d), d.first_cluster, chain),
        d.data_length <= chain.len() * (g.bytes_per_sector * g.sectors_per_cluster),
    ensures
        ({
            let p = walk::layout_of(d);
            let length = d.data_length as int;
            let spans = directories::spans_of(g, media, d);
            &&& spans.len() == sectors_of(g, p, chain, length)
            &&& spans.len() >= 1
            &&& forall|j: int|
                0 <= j < spans.len() ==> #[trigger] spans[j] == span_at(g, p, chain, length, j)
            &&& forall|j: int|
                0 <= j < spans.len() - 1 ==> (#[trigger] spans[j]).usable == g.bytes_per_sector
            &&& spans.last().usable <= g.bytes_per_sector
            &&& chain.len() * (g.bytes_per_sector * g.sectors_per_cluster) == (chain.len()
                * g.sectors_per_cluster) * g.bytes_per_sector
        }),
{
    let p = walk::layout_of(d);
    let size = g.bytes_per_sector as int;
    let per = g.sectors_per_cluster as int;
    let length = d.data_length as int;
    let n = sectors_of(g, p, chain, length);
    let count = chain.len() as int;
    let spans = directories::spans_of(g, media, d);
    assert(count * (size * per) == (count * per) * size && count * per >= 1) by (nonlinear_arith)
        requires
            count >= 1,
            per >= 1,
    ;
    if !p.whole {
        lemma_sector_count(g, p, length, count * per);
        lemma_sector_count(g, p, length, 0);
        assert(0 * size == 0);
    }
    assert(g.in_heap(chain[0]));
    lemma_walk_on(
        g,
        media,
        p,
        d.first_cluster,
        chain,
        length,
        0,
        0,
        (g.cluster_count - 1) as nat,
    );
    assert(0 * per + 0 == 0);
    assert(0 * size == 0);
    assert(left_behind(g, p, length, 0) == length);
    assert(covers(g, p, chain, length, 0, spans)) by {
        reveal(walked);
    }
    reveal(covers);
    assert forall|j: int| 0 <= j < spans.len() implies #[trigger] spans[j] == span_at(
        g,
        p,
        chain,
        length,
        j,
    ) by {
        assert(spans[j] == span_at(g, p, chain, length, 0 + j));
    }
    assert forall|j: int| 0 <= j < spans.len() - 1 implies (#[trigger] spans[j]).usable == size by {
        assert(spans[j] == span_at(g, p, chain, length, j));
        if !p.whole {
            lemma_sector_count(g, p, length, j + 1);
            assert((j + 1) * size == j * size + size) by (nonlinear_arith);
        }
    }
    if !p.whole {
        lemma_sector_count(g, p, length, n - 1);
    }
}

/// The slots of a directory are as many as its length holds.
proof fn lemma_slot_total(g: Geometry, p: Layout, chain: Seq<u32>, length: int, n: int)
    requires
        g.wf(),
        0 <= length,
        p.whole <==> length == 0,
        n == sectors_of(g, p, chain, length),
        n >= 1,
    ensures
        ({
            let size = g.bytes_per_sector as int;
            let last = span_at(g, p, chain, length, n - 1).usable as int;
            let total = if p.whole {
                (chain.len() * g.sectors_per_cluster) * size
            } else {
                length
            };
            (n - 1) * (size / 32) + last / 32 == total / 32
        }),
{
    let size = g.bytes_per_sector as int;
    let last = span_at(g, p, chain, length, n - 1).usable as int;
    let total = if p.whole {
        (chain.len() * g.sectors_per_cluster) * size
    } else {
        length
    };
    if !p.whole {
        lemma_sector_count(g, p, length, n);
        lemma_sector_count(g, p, length, n - 1);
        assert(n * size == (n - 1) * size + size) by (nonlinear_arith);
    } else {
        assert(n * size == (n - 1) * size + size) by (nonlinear_arith);
    }
    assert(total == (n - 1) * size + last);
    let q = size / 32;
    assert(size == 32 * q);
    assert((n - 1) * size == 32 * ((n - 1) * q)) by (nonlinear_arith)
        requires
            size == 32 * q,
    ;
}

/// What a search for system entries has found once it went through `slots`.
proof fn lemma_seen(all: Seq<Slot>, found: SystemModel, end: int)
    requires
        0 <= end <= all.len(),
        forall|i: int| 0 <= i < end ==> (#[trigger] all[i]).raw[0] != 0,
        end < all.len() ==> all[end].raw[0] == 0,
    ensures
        ({
            let after = system::system_entries(all, found);
            &&& found.bitmap is Some ==> after.bitmap == found.bitmap
            &&& found.bitmap is None ==> match after.bitmap {
                Some(bitmap) => exists|i: int|
                    {
                        &&& 0 <= i < end
                        &&& is_bitmap(#[trigger] all[i].raw)
                        &&& bitmap.first_cluster == bytes::u32_at(all[i].raw, 20)
                        &&& bitmap.byte_length == bytes::u64_at(all[i].raw, 24)
                        &&& forall|j: int| 0 <= j < i ==> !is_bitmap(#[trigger] all[j].raw)
                    },
                None => forall|j: int| 0 <= j < end ==> !is_bitmap(#[trigger] all[j].raw),
            }
            &&& found.upcase is Some ==> after.upcase == found.upcase
            &&& found.upcase is None ==> match after.upcase {
                Some(table) => exists|i: int|
                    {
                        &&& 0 <= i < end
                        &&& #[trigger] all[i].raw[0] == 0x82
                        &&& table.checksum == bytes::u32_at(all[i].raw, 4)
                        &&& table.first_cluster == bytes::u32_at(all[i].raw, 20)
                        &&& table.byte_length == bytes::u64_at(all[i].raw, 24)
                        &&& forall|j: int| 0 <= j < i ==> #[trigger] all[j].raw[0] != 0x82
                    },
                None => forall|j: int| 0 <= j < end ==> #[trigger] all[j].raw[0] != 0x82,
            }
        }),
    decreases all.len(),
{
    let after = system::system_entries(all, found);
    if end > 0 {
        assert(all[0].raw[0] != 0);
        let rest = all.drop_first();
        let next = found.seen(all[0].raw);
        assert forall|i: int| 0 <= i < end - 1 implies (#[trigger] rest[i]).raw[0] != 0 by {
            assert(rest[i] == all[i + 1]);
        }
        lemma_seen(rest, next, end - 1);
        if found.bitmap is None {
            if is_bitmap(all[0].raw) {
                assert(after.bitmap == next.bitmap);
                assert(is_bitmap(all[0].raw));
            } else {
                assert(next.bitmap is None);
                match after.bitmap {
                    Some(bitmap) => {
                        let i = choose|i: int|
                            {
                                &&& 0 <= i < end - 1
                                &&& is_bitmap(#[trigger] rest[i].raw)
                                &&& bitmap.first_cluster == bytes::u32_at(rest[i].raw, 20)
                                &&& bitmap.byte_length == bytes::u64_at(rest[i].raw, 24)
                                &&& forall|j: int|
                                    0 <= j < i ==> !is_bitmap(#[trigger] rest[j].raw)
                            };
                        assert(rest[i] == all[i + 1]);
                        assert forall|j: int| 0 <= j < i + 1 implies !is_bitmap(
                            #[trigger] all[j].raw,
                        ) by {
                            if j > 0 {
                                assert(!is_bitmap(rest[j - 1].raw));
                            }
                        }
                        assert(is_bitmap(all[i + 1].raw));
                    },
                    None => {
                        assert forall|j: int| 0 <= j < end implies !is_bitmap(
                            #[trigger] all[j].raw,
                        ) by {
                            if j > 0 {
                                assert(!is_bitmap(rest[j - 1].raw));
                            }
                        }
                    },
                }
            }
        }
        if found.upcase is None {
            if all[0].raw[0] == 0x82 {
                assert(after.upcase == next.upcase);
                assert(all[0].raw[0] == 0x82);
            } else {
                assert(next.upcase is None);
                match after.upcase {
                    Some(table) => {
                        let i = choose|i: int|
                            {
                                &&& 0 <= i < end - 1
                                &&& #[trigger] rest[i].raw[0] == 0x82
                                &&& table.checksum == bytes::u32_at(rest[i].raw, 4)
                                &&& table.first_cluster == bytes::u32_at(rest[i].raw, 20)
                                &&& table.byte_length == bytes::u64_at(rest[i].raw, 24)
                                &&& forall|j: int|
                                    0 <= j < i ==> #[trigger] rest[j].raw[0] != 0x82
                            };
                        assert(rest[i] == all[i + 1]);
                        assert forall|j: int| 0 <= j < i + 1 implies #[trigger] all[j].raw[0]
                            != 0x82 by {
                            if j > 0 {
                                assert(rest[j - 1].raw[0] != 0x82);
                            }
                        }
                        assert(all[i + 1].raw[0] == 0x82);
                    },
                    None => {
                        assert forall|j: int| 0 <= j < end implies #[trigger] all[j].raw[0]
                            != 0x82 by {
                            if j > 0 {
                                assert(rest[j - 1].raw[0] != 0x82);
                            }
                        }
                    },
                }
            }
        }
    }
}

/// Whether an entry is that of the first allocation bitmap.
pub open spec fn is_bitmap(raw: Seq<u8>) -> bool {
    raw[0] == 0x81 && raw[1] % 2 == 0
}

/// The system entries of a volume are those of the root directory before its end
/// mark: the first one of an active allocation bitmap and the first one of an
/// UpCase table, each with the fields at their own places. Where one of the two
/// is missing the volume has none.
pub proof fn law_system_entries_are_the_first(g: Geometry, media: Media, end: int)
    requires
        regions::apart(g),
        ({
            let all = walk::directory_slots(g, media, entry::root_model(g)).slots;
            &&& 0 <= end <= all.len()
            &&& forall|i: int| 0 <= i < end ==> (#[trigger] all[i]).raw[0] != 0
            &&& end < all.len() ==> all[end].raw[0] == 0
        }),
    ensures
        ({
            let all = walk::directory_slots(g, media, entry::root_model(g)).slots;
            match system::root_system(g, media) {
                Some((bitmap, table, label)) => {
                    &&& exists|i: int|
                        {
                            &&& 0 <= i < end
                            &&& is_bitmap(#[trigger] all[i].raw)
                            &&& bitmap.first_cluster == bytes::u32_at(all[i].raw, 20)
                            &&& bitmap.byte_length == bytes::u64_at(all[i].raw, 24)
                            &&& forall|j: int| 0 <= j < i ==> !is_bitmap(#[trigger] all[j].raw)
                        }
                    &&& exists|i: int|
                        {
                            &&& 0 <= i < end
                            &&& #[trigger] all[i].raw[0] == 0x82
                            &&& table.checksum == bytes::u32_at(all[i].raw, 4)
                            &&& table.first_cluster == bytes::u32_at(all[i].raw, 20)
                            &&& table.byte_length == bytes::u64_at(all[i].raw, 24)
                            &&& forall|j: int| 0 <= j < i ==> #[trigger] all[j].raw[0] != 0x82
                        }
                },
                None => {
                    ||| forall|j: int| 0 <= j < end ==> !is_bitmap(#[trigger] all[j].raw)
                    ||| forall|j: int| 0 <= j < end ==> #[trigger] all[j].raw[0] != 0x82
                },
            }
        }),
{
    let all = walk::directory_slots(g, media, entry::root_model(g)).slots;
    systems::lemma_root_slots(g, media);
    lemma_seen(all, SystemModel::none(), end);
}

/// A label has as many units as its entry says, but no more than eleven, two
/// bytes each from byte 2 on.
pub proof fn law_label_units(raw: Seq<u8>, i: int)
    ensures
        system::label_of(raw).len() == if raw[1] <= 11 {
            raw[1] as int
        } else {
            11
        },
        0 <= i < system::label_of(raw).len() ==> system::label_of(raw)[i] == bytes::u16_at(
            raw,
            2 + 2 * i,
        ),
{
}

/// The clusters of a table, by the FAT.
proof fn lemma_links(g: Geometry, media: Media, first: u32, chain: Seq<u32>, j: nat)
    requires
        addressing::is_chain(g, media, first, chain),
        j < chain.len(),
    ensures
        system::link(g, media, first, j) == chain[j as int],
        system::link_ok(g, media, first, j),
    decreases j,
{
    assert(g.in_heap(chain[j as int]));
    if j > 0 {
        lemma_links(g, media, first, chain, (j - 1) as nat);
        assert(allocation::next_of(g, media, chain[j - 1]) == Some(chain[j - 1 + 1]));
    }
}

/// The checksum of the first bytes of a table.
proof fn lemma_table_sum(g: Geometry, media: Media, first: u32, chain: Seq<u32>, data: Seq<u8>, n: nat)
    requires
        g.wf(),
        addressing::is_chain(g, media, first, chain),
        n <= data.len() <= chain.len() * g.cluster_bytes(),
        forall|i: int|
            0 <= i < data.len() ==> #[trigger] data[i] == media[sector_lba(
                g,
                chain,
                i / (g.bytes_per_sector as int),
            ) as u64][i % (g.bytes_per_sector as int)],
    ensures
        system::link_sum(g, media, first, n) == bytes::sum32(0, data.take(n as int)),
    decreases n,
{
    let size = g.bytes_per_sector as int;
    let per = g.sectors_per_cluster as int;
    if n > 0 {
        lemma_table_sum(g, media, first, chain, data, (n - 1) as nat);
        assert(data.take(n as int).drop_last() =~= data.take(n - 1));
        let o = n - 1;
        let t = o / size;
        let j = t / per;
        assert(0 <= j < chain.len()) by (nonlinear_arith)
            requires
                0 <= o < chain.len() * (size * per),
                size > 0,
                per > 0,
                t == o / size,
                j == t / per,
        ;
        lemma_links(g, media, first, chain, j as nat);
        assert(data[o] == media[sector_lba(g, chain, t) as u64][o % size]);
    }
}

/// A volume's UpCase table is accepted where it has a byte at least, its clusters
/// can be followed as far as its length reaches, and the 32-bit checksum of its
/// bytes is the one that its entry records.
pub proof fn law_table_is_checked(
    g: Geometry,
    media: Media,
    table: UpCaseTable,
    chain: Seq<u32>,
    data: Seq<u8>,
)
    requires
        g.wf(),
        addressing::is_chain(g, media, table.first_cluster, chain),
        data.len() == table.byte_length,
        data.len() <= chain.len() * g.cluster_bytes(),
        forall|i: int|
            0 <= i < data.len() ==> #[trigger] data[i] == media[sector_lba(
                g,
                chain,
                i / (g.bytes_per_sector as int),
            ) as u64][i % (g.bytes_per_sector as int)],
    ensures
        system::upcase_valid(g, media, table) <==> data.len() > 0 && bytes::sum32(0, data)
            == table.checksum,
{
    lemma_table_sum(g, media, table.first_cluster, chain, data, data.len());
    assert(data.take(data.len() as int) =~= data);
    assert forall|j: nat| j * g.cluster_bytes() < table.byte_length implies #[trigger]
        system::link_ok(g, media, table.first_cluster, j) by {
        let size = g.cluster_bytes();
        assert(j < chain.len()) by (nonlinear_arith)
            requires
                j * size < chain.len() * size,
                size >= 0,
        ;
        lemma_links(g, media, table.first_cluster, chain, j);
    }
}

/// A walk over a chain that breaks off.
proof fn lemma_breaks_off(
    g: Geometry,
    media: Media,
    p: Layout,
    chain: Seq<u32>,
    j: int,
    s: nat,
    left: nat,
    budget: nat,
)
    requires
        !p.contiguous,
        p.whole || left + (j * g.sectors_per_cluster + s) * g.bytes_per_sector > chain.len()
            * g.sectors_per_cluster * g.bytes_per_sector,
        is_broken(g, media, chain),
        0 <= j < chain.len(),
        s <= g.sectors_per_cluster,
    ensures
        walk::walk_from(g, media, p, chain[j], s, left, budget).end == End::Corrupt,
    decreases chain.len() - j, g.sectors_per_cluster - s + 1,
{
    let per = g.sectors_per_cluster as int;
    let size = g.bytes_per_sector as int;
    let n = chain.len() as int;
    let t = j * per + s;
    assert((j + 1) * per == j * per + per && (j + 1) * per <= n * per) by (nonlinear_arith)
        requires
            j + 1 <= n,
            per >= 0,
    ;
    assert((t + 1) * size == t * size + size) by (nonlinear_arith);
    assert(t * size <= n * per * size) by (nonlinear_arith)
        requires
            t <= n * per,
            size >= 0,
    ;
    if s < per {
        assert((t + 1) * size <= n * per * size) by (nonlinear_arith)
            requires
                t + 1 <= n * per,
                size >= 0,
        ;
        let used = walk::usable(g, p, left);
        let less = if p.whole {
            left
        } else {
            (left - used) as nat
        };
        assert(j * per + (s + 1) == t + 1);
        lemma_breaks_off(g, media, p, chain, j, s + 1, less, budget);
    } else {
        assert(t == (j + 1) * per);
        if j + 1 < n {
            assert(allocation::next_of(g, media, chain[j]) == Some(chain[j + 1]));
            assert(g.in_heap(chain[j + 1]) && chain[j + 1] < 0xffff_fff8);
            if budget > 0 {
                assert((j + 1) * per + 0 == t);
                lemma_breaks_off(g, media, p, chain, j + 1, 0, left, (budget - 1) as nat);
            }
            let into = walk::walk_into(g, media, p, chain[j + 1], left, budget);
            assert(walk::walk_from(g, media, p, chain[j], s, left, budget) == into);
        } else {
            assert(chain[j] == chain.last());
            match allocation::next_of(g, media, chain[j]) {
                Some(next) => {
                    let into = walk::walk_into(g, media, p, next, left, budget);
                    assert(walk::walk_from(g, media, p, chain[j], s, left, budget) == into);
                },
                None => {},
            }
        }
    }
}

/// Whether the FAT links the clusters `chain`, and leads from the last of them to
/// neither a cluster nor the end of a chain.
pub open spec fn is_broken(g: Geometry, media: Media, chain: Seq<u32>) -> bool {
    &&& chain.len() > 0
    &&& forall|i: int|
        0 <= i < chain.len() ==> g.in_heap(#[trigger] chain[i]) && chain[i] < 0xffff_fff8
    &&& forall|i: int|
        0 <= i < chain.len() - 1 ==> allocation::next_of(g, media, #[trigger] chain[i]) == Some(
            chain[i + 1],
        )
    &&& match allocation::next_of(g, media, chain.last()) {
        Some(next) => next < 0xffff_fff8 && !g.in_heap(next),
        None => true,
    }
}

/// A directory whose clusters break off before its length is reached, or before
/// an end mark where it has no length, is not passed off as a shorter one: unless
/// the listing ends at a slot that was never used, or at a damaged set, it is
/// reported as damaged.
pub proof fn law_broken_directory_is_reported(
    g: Geometry,
    media: Media,
    d: DirectoryModel,
    chain: Seq<u32>,
)
    requires
        !d.no_fat_chain,
        is_broken(g, media, chain),
        chain[0] == d.first_cluster,
        d.data_length == 0 || d.data_length > chain.len() * g.sectors_per_cluster
            * g.bytes_per_sector,
    ensures
        walk::directory_slots(g, media, d).end == End::Corrupt,
        (forall|i: int|
            0 <= i < walk::directory_slots(g, media, d).slots.len() ==> (
            #[trigger] walk::directory_slots(g, media, d).slots[i]).raw[0] != 0)
            ==> !listing::listing(g, media, d).sound,
{
    let p = walk::layout_of(d);
    assert(g.in_heap(chain[0]));
    assert(0 * g.sectors_per_cluster + 0 == 0);
    assert(0 * g.bytes_per_sector == 0);
    if g.cluster_count > 0 {
        lemma_breaks_off(
            g,
            media,
            p,
            chain,
            0,
            0,
            d.data_length as nat,
            (g.cluster_count - 1) as nat,
        );
    }
    let all = walk::directory_slots(g, media, d);
    if forall|i: int| 0 <= i < all.slots.len() ==> (#[trigger] all.slots[i]).raw[0] != 0 {
        lemma_unsound(all.slots, entry::idle_decoder());
    }
}

/// A damaged directory without an end mark has no sound listing.
proof fn lemma_unsound(all: Seq<Slot>, decoder: DecoderModel)
    requires
        forall|i: int| 0 <= i < all.len() ==> (#[trigger] all[i]).raw[0] != 0,
    ensures
        !listing::listing_from(all, End::Corrupt, decoder).sound,
    decreases all.len(),
{
    if all.len() > 0 {
        assert(all[0].raw[0] != 0);
        let rest = all.drop_first();
        assert forall|i: int| 0 <= i < rest.len() implies (#[trigger] rest[i]).raw[0] != 0 by {
            assert(rest[i] == all[i + 1]);
        }
        let (next, _) = decoder.push(all[0].raw, all[0].at);
        lemma_unsound(rest, next);
    }
}

/// A search for the label that a volume has.
proof fn lemma_label(all: Seq<Slot>, found: SystemModel, end: int)
    requires
        0 <= end <= all.len(),
        forall|i: int| 0 <= i < end ==> (#[trigger] all[i]).raw[0] != 0,
        end < all.len() ==> all[end].raw[0] == 0,
    ensures
        ({
            let label = system::system_entries(all, found).label;
            ||| label == found.label && forall|j: int|
                0 <= j < end ==> #[trigger] all[j].raw[0] != 0x83
            ||| exists|i: int|
                {
                    &&& 0 <= i < end
                    &&& #[trigger] all[i].raw[0] == 0x83
                    &&& label == system::label_of(all[i].raw)
                    &&& forall|j: int| i < j < end ==> #[trigger] all[j].raw[0] != 0x83
                }
        }),
    decreases all.len(),
{
    if end > 0 {
        assert(all[0].raw[0] != 0);
        let rest = all.drop_first();
        let next = found.seen(all[0].raw);
        let label = system::system_entries(all, found).label;
        assert forall|i: int| 0 <= i < end - 1 implies (#[trigger] rest[i]).raw[0] != 0 by {
            assert(rest[i] == all[i + 1]);
        }
        lemma_label(rest, next, end - 1);
        if label == next.label && forall|j: int|
            0 <= j < end - 1 ==> #[trigger] rest[j].raw[0] != 0x83 {
            assert forall|j: int| 0 < j < end implies #[trigger] all[j].raw[0] != 0x83 by {
                assert(rest[j - 1].raw[0] != 0x83);
            }
            if all[0].raw[0] == 0x83 {
                assert(label == system::label_of(all[0].raw));
            }
        } else {
            let i = choose|i: int|
                {
                    &&& 0 <= i < end - 1
                    &&& #[trigger] rest[i].raw[0] == 0x83
                    &&& label == system::label_of(rest[i].raw)
                    &&& forall|j: int| i < j < end - 1 ==> #[trigger] rest[j].raw[0] != 0x83
                };
            assert(rest[i] == all[i + 1]);
            assert forall|j: int| i + 1 < j < end implies #[trigger] all[j].raw[0] != 0x83 by {
                assert(rest[j - 1].raw[0] != 0x83);
            }
            assert(all[i + 1].raw[0] == 0x83);
        }
    }
}

/// The label of a volume is that of the last label entry of the root directory
/// before its end mark, and empty where there is none.
pub proof fn law_last_label_counts(g: Geometry, media: Media, end: int)
    requires
        regions::apart(g),
        ({
            let all = walk::directory_slots(g, media, entry::root_model(g)).slots;
            &&& 0 <= end <= all.len()
            &&& forall|i: int| 0 <= i < end ==> (#[trigger] all[i]).raw[0] != 0
            &&& end < all.len() ==> all[end].raw[0] == 0
        }),
        system::root_system(g, media) is Some,
    ensures
        ({
            let all = walk::directory_slots(g, media, entry::root_model(g)).slots;
            let (_, _, label) = system::root_system(g, media)->0;
            ||| label.len() == 0 && forall|j: int|
                0 <= j < end ==> #[trigger] all[j].raw[0] != 0x83
            ||| exists|i: int|
                {
                    &&& 0 <= i < end
                    &&& #[trigger] all[i].raw[0] == 0x83
                    &&& label == system::label_of(all[i].raw)
                    &&& forall|j: int| i < j < end ==> #[trigger] all[j].raw[0] != 0x83
                }
        }),
{
    let all = walk::directory_slots(g, media, entry::root_model(g)).slots;
    systems::lemma_root_slots(g, media);
    lemma_label(all, SystemModel::none(), end);
}

/// An UpCase table whose clusters break off before its length is reached is not
/// accepted, and neither is one without bytes.
pub proof fn law_broken_table_is_refused(
    g: Geometry,
    media: Media,
    table: UpCaseTable,
    chain: Seq<u32>,
)
    requires
        g.wf(),
        addressing::is_chain(g, media, table.first_cluster, chain),
        chain.len() * g.cluster_bytes() < table.byte_length,
        !g.in_heap(slots::fat_entry(g, media, chain.last())),
    ensures
        !system::upcase_valid(g, media, table),
{
    let n = chain.len();
    lemma_links(g, media, table.first_cluster, chain, (n - 1) as nat);
    assert(system::link(g, media, table.first_cluster, n) == slots::fat_entry(
        g,
        media,
        chain.last(),
    ));
    assert(!system::link_ok(g, media, table.first_cluster, n));
}

} // verus!
