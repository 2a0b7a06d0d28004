//! Growing a directory by a cluster.

use crate::bytes;
use crate::device;
use crate::device::{Media, SectorWrite};
use crate::directory::entry;
use crate::directory::entry::{DecoderModel, DirectoryModel, EntryModel};
use crate::directory::slots;
use crate::directory::slots::{Slot, Span};
use crate::fs::allocation;
use crate::fs::listing;
use crate::fs::metadata;
use crate::fs::space;
use crate::fs::walk::End;
use crate::geometry::Geometry;
use crate::laws::allocating;
use crate::laws::appending;
use crate::laws::decoding;
use crate::laws::directories;
use crate::laws::entries;
use crate::laws::extents;
use crate::laws::regions;
use crate::laws::sets;
use crate::laws::trails;
use crate::mount::Volume;
use vstd::prelude::*;

verus! {

/// A decoder between sets passes over everything but primary entries.
pub proof fn lemma_idle_passed(decoder: DecoderModel, slots: Seq<Slot>, k: nat)
    requires
        decoder.idle(),
        k <= slots.len(),
        forall|i: int| 0 <= i < k ==> (#[trigger] slots[i]).raw[0] != 0x85,
    ensures
        entries::after(decoder, slots, k) == decoder,
        decoding::completed(decoder, slots, k) == Seq::<EntryModel>::empty(),
        forall|i: nat| i < k ==> #[trigger] entries::reply(decoder, slots, i) == Some(
            None::<EntryModel>,
        ),
    decreases k,
{
    reveal(DecoderModel::push);
    if k > 0 {
        let p = (k - 1) as nat;
        lemma_idle_passed(decoder, slots, p);
        assert(slots[p as int].raw[0] != 0x85);
    }
}

/// A directory whose never-used slots among the last `q` were marked as used.
pub open spec fn marked_up(a: Seq<Slot>, q: int) -> Seq<Slot> {
    Seq::new(
        a.len(),
        |k: int|
            if k >= a.len() - q && a[k].raw[0] == 0 {
                Slot { raw: a[k].raw.update(0, 0x80), ..a[k] }
            } else {
                a[k]
            },
    )
}

/// Whether slots were all never used.
pub open spec fn are_blank(z: Seq<Slot>) -> bool {
    forall|k: int| 0 <= k < z.len() ==> (#[trigger] z[k]).raw[0] == 0
}

/// A directory with blank slots behind it lists what it did.
pub proof fn lemma_with_blank(a: Seq<Slot>, z: Seq<Slot>, before: End, after: End)
    requires
        decoding::tidy(a),
        are_blank(z),
        z.len() > 0,
        before != End::Corrupt,
    ensures
        decoding::tidy(a + z),
        listing::listing_from(a + z, after, entry::idle_decoder()) == listing::listing_from(
            a,
            before,
            entry::idle_decoder(),
        ),
{
    lemma_marked_with_blank(a, a, z, before, after);
}

/// A directory whose never-used slots were marked as used, with blank slots
/// behind it, lists what it did.
pub proof fn lemma_marked_with_blank(
    a: Seq<Slot>,
    b: Seq<Slot>,
    z: Seq<Slot>,
    before: End,
    after: End,
)
    requires
        decoding::tidy(a),
        are_blank(z),
        z.len() > 0,
        before != End::Corrupt,
        b.len() == a.len(),
        forall|k: int| 0 <= k < a.len() && a[k].raw[0] != 0 ==> #[trigger] b[k] == a[k],
        forall|k: int|
            0 <= k < a.len() && a[k].raw[0] == 0 ==> (#[trigger] b[k]).raw[0] == 0 || b[k].raw[0]
                == 0x80,
        b == a || decoding::all_used(b, b.len() as int),
    ensures
        decoding::tidy(b + z),
        listing::listing_from(b + z, after, entry::idle_decoder()) == listing::listing_from(
            a,
            before,
            entry::idle_decoder(),
        ),
{
    let idle = entry::idle_decoder();
    let t = b + z;
    let n = a.len() as int;
    let e = sets::used_from(a, 0);
    sets::lemma_used_from(a, 0);
    sets::lemma_listing_completed(a, before);
    let state = entries::after(idle, a, e as nat);
    assert(state.idle()) by {
        if e < n {
            assert(space::is_free(a[e]));
        }
    }
    assert forall|k: int| 0 <= k < e implies #[trigger] t[k] == a[k] by {
        assert(a[k].raw[0] != 0);
        assert(b[k] == a[k]);
    }
    decoding::lemma_after_same(idle, a, t, e as nat);
    assert forall|k: int| e <= k < t.len() implies (#[trigger] t[k]).raw[0] != 0x85 && t[k].raw[0]
        <= 0x80 by {
        if k < n {
            if a[k].raw[0] == 0 {
                assert(b[k].raw[0] == 0 || b[k].raw[0] == 0x80);
            } else {
                assert(b[k] == a[k]);
                assert(a[e].raw[0] == 0);
                assert(space::is_free(a[k]));
            }
        } else {
            assert(t[k] == z[k - n]);
        }
    }
    let rest = t.skip(e);
    assert forall|j: int| 0 <= j < rest.len() implies (#[trigger] rest[j]).raw[0] != 0x85 by {
        assert(rest[j] == t[e + j]);
    }
    assert forall|i: int, j: int|
        0 <= i < j < t.len() && (#[trigger] t[i]).raw[0] == 0 implies space::is_free(
        #[trigger] t[j],
    ) by {
        if j >= n {
            assert(t[j] == z[j - n]);
        } else {
            assert(b[i] == t[i] && b[j] == t[j]);
            assert(b == a);
        }
    }
    assert forall|k: nat| e <= k <= t.len() implies #[trigger] entries::after(idle, t, k)
        == state by {
        lemma_idle_passed(state, rest, (k - e) as nat);
        decoding::lemma_after_on(idle, t, e as nat, (k - e) as nat);
    }
    assert forall|k: nat|
        k <= t.len() && decoding::all_used(t, k as int) && (k == t.len() || space::is_free(
            t[k as int],
        )) implies (#[trigger] entries::after(idle, t, k)).idle() by {
        if k < e {
            decoding::lemma_after_same(idle, a, t, k);
            assert(t[k as int] == a[k as int]);
            assert(decoding::all_used(a, k as int));
            assert(entries::after(idle, a, k).idle());
        }
    }
    assert forall|k: nat|
        k < t.len() && decoding::all_used(t, k as int + 1) implies #[trigger] entries::reply(
        idle,
        t,
        k,
    ) is Some by {
        if k < e {
            decoding::lemma_after_same(idle, a, t, k);
            assert(t[k as int] == a[k as int]);
            assert(decoding::all_used(a, k as int + 1));
            assert(entries::reply(idle, a, k) is Some);
        } else {
            let i = (k - e) as nat;
            lemma_idle_passed(state, rest, i + 1);
            assert(rest[i as int] == t[k as int]);
            assert(entries::after(idle, t, k) == state);
            assert(entries::after(state, rest, i) == state) by {
                lemma_idle_passed(state, rest, i);
            }
            assert(entries::reply(state, rest, i) is Some);
        }
    }
    sets::lemma_listing_completed(t, after);
    let end = sets::used_from(t, 0);
    sets::lemma_used_from(t, 0);
    assert(end < t.len()) by {
        if end == t.len() {
            assert(t[n] == z[0]);
        }
    }
    assert(end >= e) by {
        if end < e {
            assert(t[end] == a[end]);
        }
    }
    lemma_idle_passed(state, rest, (end - e) as nat);
    decoding::lemma_after_on(idle, t, e as nat, (end - e) as nat);
    let done = decoding::completed(idle, a, e as nat);
    assert(done + Seq::<EntryModel>::empty() =~= done);
}

/// The slots of two runs of sectors, one behind the other.
pub proof fn lemma_slots_joined(m: Media, a: Seq<Span>, b: Seq<Span>)
    ensures
        slots::span_slots(m, a + b) == slots::span_slots(m, a) + slots::span_slots(m, b),
    decreases a.len(),
{
    if a.len() == 0 {
        assert(a + b =~= b);
        assert(Seq::<Slot>::empty() + slots::span_slots(m, b) =~= slots::span_slots(m, b));
    } else {
        assert((a + b).drop_first() =~= a.drop_first() + b);
        lemma_slots_joined(m, a.drop_first(), b);
        let here = slots::sector_slots(m, a[0].lba, a[0].usable);
        assert(here + (slots::span_slots(m, a.drop_first()) + slots::span_slots(m, b)) =~= here
            + slots::span_slots(m, a.drop_first()) + slots::span_slots(m, b));
    }
}

/// Where the slots of whole sectors lie.
pub proof fn lemma_whole_places(m: Media, spans: Seq<Span>, size: int, k: int)
    requires
        size >= 32,
        forall|j: int| 0 <= j < spans.len() ==> (#[trigger] spans[j]).usable == size,
        0 <= k,
    ensures
        slots::span_slots(m, spans).len() == spans.len() * (size / 32),
        k < spans.len() * (size / 32) ==> directories::place_of(spans, k) == (
            k / (size / 32),
            k % (size / 32),
        ),
    decreases spans.len(),
{
    let q = size / 32;
    if spans.len() > 0 {
        let rest = spans.drop_first();
        assert forall|j: int| 0 <= j < rest.len() implies (#[trigger] rest[j]).usable == size by {
            assert(rest[j] == spans[j + 1]);
        }
        assert(spans[0].usable == size);
        assert(spans.len() * q == (spans.len() - 1) * q + q) by (nonlinear_arith);
        if k < q {
            lemma_whole_places(m, rest, size, 0);
            vstd::arithmetic::div_mod::lemma_basic_div(k, q);
            vstd::arithmetic::div_mod::lemma_small_mod(k as nat, q as nat);
        } else {
            lemma_whole_places(m, rest, size, k - q);
            vstd::arithmetic::div_mod::lemma_div_minus_one(k, q);
            vstd::arithmetic::div_mod::lemma_mod_sub_multiples_vanish(k, q);
        }
    } else {
        assert(spans.len() * q == 0) by (nonlinear_arith)
            requires
                spans.len() == 0,
        ;
    }
}

/// A volume has more clusters than a directory to which one that is not its own
/// can be added.
proof fn lemma_fewer(v: Volume, m: Media, d: DirectoryModel, n: int, new: u32)
    requires
        regions::apart(v.geometry),
        extents::is_chain(v, m, d, n),
        v.geometry.in_heap(new),
        forall|i: nat|
            i < n ==> #[trigger] allocation::chain_at(v.geometry, m, d.first_cluster, i) != Some(
                new,
            ),
    ensures
        n < v.geometry.cluster_count,
{
    reveal(extents::is_chain);
    let g = v.geometry;
    let first = d.first_cluster;
    regions::lemma_geometry(g);
    let all = Seq::new(
        (n + 1) as nat,
        |i: int|
            if i < n {
                extents::link(g, m, d, i) as int
            } else {
                new as int
            },
    );
    let range = vstd::set_lib::set_int_range(2, g.cluster_count + 2);
    assert(all.no_duplicates()) by {
        assert forall|i: int, j: int|
            0 <= i < all.len() && 0 <= j < all.len() && i != j implies all[i] != all[j] by {
            if i < n {
                assert(allocation::chain_at(g, m, first, i as nat) is Some);
            }
            if j < n {
                assert(allocation::chain_at(g, m, first, j as nat) is Some);
            }
        }
    }
    all.unique_seq_to_set();
    assert(all.to_set().subset_of(range)) by {
        assert forall|x: int| all.to_set().contains(x) implies range.contains(x) by {
            let i = choose|i: int| 0 <= i < all.len() && all[i] == x;
            if i < n {
                assert(allocation::chain_at(g, m, first, i as nat) is Some);
            }
        }
    }
    vstd::set_lib::lemma_int_range(2, g.cluster_count + 2);
    vstd::set_lib::lemma_len_subset(all.to_set(), range);
}

/// Whether the directory `d` of `n` clusters has become one of `n + 1`: `new`
/// follows its last cluster, whose last sector has no never-used slots left.
#[verifier::opaque]
pub open spec fn is_linked_on(
    v: Volume,
    m: Media,
    m2: Media,
    free2: u32,
    d: DirectoryModel,
    n: int,
    new: u32,
) -> bool {
    let g = v.geometry;
    let d2 = space::longer(g, d);
    let tail = extents::link(g, m, d, n - 1);
    &&& regions::is_plain(v, m, new)
    &&& allocation::is_used(v, m, new as int) == Some(false)
    &&& regions::evolves(v, m, m2, free2, set![new, tail])
    &&& extents::is_chain(v, m2, d2, n + 1)
    &&& forall|i: int|
        0 <= i < n ==> #[trigger] extents::link(g, m2, d2, i) == extents::link(g, m, d, i)
    &&& extents::link(g, m2, d2, n) == new
    &&& forall|c: u32|
        g.in_heap(c) && c != new && c != tail && !regions::is_bitmap(v, m, c)
            ==> #[trigger] regions::same_cluster(g, m, m2, c)
    &&& forall|s: int|
        0 <= s < g.sectors_per_cluster ==> #[trigger] regions::cluster_sector(g, m2, tail, s)
            == if s == g.sectors_per_cluster - 1 {
            space::filled_up(regions::cluster_sector(g, m, tail, s))
        } else {
            regions::cluster_sector(g, m, tail, s)
        }
    &&& forall|s: int|
        0 <= s < g.sectors_per_cluster ==> #[trigger] regions::cluster_sector(g, m2, new, s)
            == bytes::filled(g.bytes_per_sector as nat, 0)
}

/// The cluster chain of a directory whose last cluster was linked to a new one.
#[verifier::rlimit(30)]
pub proof fn lemma_chain_on(
    v: Volume,
    m: Media,
    m2: Media,
    free: u32,
    d: DirectoryModel,
    n: int,
    new: u32,
)
    requires
        regions::sound(v, m, free),
        extents::is_chain(v, m, d, n),
        allocation::is_used(v, m, new as int) == Some(false),
        v.geometry.in_heap(new),
        ({
            let g = v.geometry;
            let tail = extents::link(g, m, d, n - 1);
            &&& regions::fat_kept(g, m, m2, set![new, tail])
            &&& regions::changes_only(v, m, m2, set![new, tail])
            &&& regions::same_system(v, m, m2)
            &&& slots::fat_entry(g, m2, tail) == new
            &&& slots::fat_entry(g, m2, new) == 0xffff_ffff
            &&& appending::is_taken(v, m2, tail)
            &&& appending::is_taken(v, m2, new)
        }),
    ensures
        ({
            let g = v.geometry;
            let d2 = space::longer(g, d);
            &&& extents::is_chain(v, m2, d2, n + 1)
            &&& forall|i: int|
                0 <= i < n ==> #[trigger] extents::link(g, m2, d2, i) == extents::link(g, m, d, i)
            &&& extents::link(g, m2, d2, n) == new
        }),
{
    reveal(extents::is_chain);
    let g = v.geometry;
    let d2 = space::longer(g, d);
    let first = d.first_cluster;
    let tail = extents::link(g, m, d, n - 1);
    regions::lemma_geometry(g);
    assert forall|i: nat| i < n implies #[trigger] allocation::chain_at(g, m2, first, i)
        == allocation::chain_at(g, m, first, i) by {
        assert forall|j: nat|
            j < i && g.fat_holds((#[trigger] allocation::chain_at(g, m, first, j))->0)
                && allocation::chain_at(g, m, first, j) is Some implies slots::fat_entry(
            g,
            m2,
            allocation::chain_at(g, m, first, j)->0,
        ) == slots::fat_entry(g, m, allocation::chain_at(g, m, first, j)->0) by {
            let c = allocation::chain_at(g, m, first, j)->0;
            assert(allocation::chain_at(g, m, first, (n - 1) as nat) is Some);
            assert(appending::is_taken(v, m, c));
            assert(c != tail && c != new);
        }
        regions::lemma_chain_same(g, m, m2, first, i);
    }
    assert forall|i: nat| i < n implies #[trigger] allocation::chain_at(g, m, first, i) != Some(
        new,
    ) by {}
    lemma_fewer(v, m, d, n, new);
    assert(allocation::chain_at(g, m, first, (n - 1) as nat) == Some(tail));
    assert(allocation::chain_at(g, m2, first, (n - 1) as nat) == Some(tail));
    assert(g.fat_holds(tail));
    assert(allocation::chain_at(g, m2, first, n as nat) == Some(new));
    assert forall|i: nat| i < n + 1 implies (#[trigger] allocation::chain_at(
        g,
        m2,
        first,
        i,
    ) matches Some(c) && appending::is_taken(v, m2, c)) by {
        if i < n - 1 {
            let c = allocation::chain_at(g, m, first, i)->0;
            assert(allocation::chain_at(g, m, first, i) is Some);
            assert(c != tail && c != new);
            appending::lemma_still_taken(v, m, m2, free, set![new, tail], c);
        }
    }
    assert forall|i: nat, j: nat|
        i < n + 1 && j < n + 1 && #[trigger] allocation::chain_at(g, m2, first, i)
            == #[trigger] allocation::chain_at(g, m2, first, j) implies i == j by {
        if i < n {
            assert(allocation::chain_at(g, m, first, i) != Some(new));
        }
        if j < n {
            assert(allocation::chain_at(g, m, first, j) != Some(new));
        }
    }
    let cb = g.cluster_bytes();
    assert((n + 1) * cb == n * cb + cb) by (nonlinear_arith);
    assert((n + 1) * cb <= 0x1_0000_0000 * 0x200_0000) by (nonlinear_arith)
        requires
            0 <= n + 1 <= 0x1_0000_0000,
            0 <= cb <= 0x200_0000,
    ;
    assert forall|i: int| 0 <= i < n implies #[trigger] extents::link(g, m2, d2, i)
        == extents::link(g, m, d, i) by {
        assert(allocation::chain_at(g, m2, first, i as nat) == allocation::chain_at(
            g,
            m,
            first,
            i as nat,
        ));
    }
}

/// Growing a directory, before its length is recorded.
pub proof fn lemma_linked_on<E>(v: Volume, m: Media, free: u32, d: DirectoryModel, n: int)
    requires
        regions::sound(v, m, free),
        extents::is_chain(v, m, d, n),
        free > 0,
    ensures
        ({
            let g = v.geometry;
            let tail = extents::link(g, m, d, n - 1);
            let take = allocation::allocate_plan::<E>(v, m, free, (tail + 1) as u32);
            let taken = take.leaves(m);
            let new = take.result->Ok_0;
            let link = allocation::set_fat_plan::<E>(v, taken, take.free, tail, new);
            let linked = link.leaves(taken);
            let open = metadata::sector_plan::<E>(
                take.free,
                space::last_lba(g, tail),
                space::filled_up(linked[space::last_lba(g, tail)]),
            );
            &&& take.result is Ok
            &&& link.result is Ok
            &&& take.free == free - 1
            &&& is_linked_on(v, m, open.leaves(linked), take.free, d, n, new)
        }),
{
    reveal(extents::is_chain);
    reveal(is_linked_on);
    let g = v.geometry;
    let first = d.first_cluster;
    let per = g.sectors_per_cluster as int;
    let tail = extents::link(g, m, d, n - 1);
    let take = allocation::allocate_plan::<E>(v, m, free, (tail + 1) as u32);
    let m1 = take.leaves(m);
    let new = take.result->Ok_0;
    let less = take.free;
    regions::lemma_geometry(g);
    assert(allocation::chain_at(g, m, first, (n - 1) as nat) is Some);
    allocating::law_allocation_claims_a_free_cluster::<E>(v, m, free, (tail + 1) as u32);
    appending::lemma_still_taken(v, m, m1, free, set![new], tail);
    let link = allocation::set_fat_plan::<E>(v, m1, less, tail, new);
    let m2 = link.leaves(m1);
    allocating::lemma_fat_written::<E>(v, m1, less, tail, new);
    assert(regions::is_plain(v, m2, tail));
    let lba = space::last_lba(g, tail);
    regions::lemma_sector(g, tail, per - 1);
    assert(lba == regions::sector_number(g, tail, per - 1));
    assert(m2[lba].len() == g.bytes_per_sector);
    let data = space::filled_up(m2[lba]);
    let open = metadata::sector_plan::<E>(less, lba, data);
    let m3 = open.leaves(m2);
    device::lemma_applied_one(m2, SectorWrite { lba, data });
    allocating::lemma_sector_written(v, m2, less, tail, per - 1, data);
    let both = set![new, tail];
    allocating::lemma_evolves_on(v, m, m1, m2, less, less, set![new], set![tail], both);
    allocating::lemma_evolves_on(v, m, m2, m3, less, less, both, set![tail], both);
    assert(g.fat_holds(new) && g.fat_holds(tail));
    assert(slots::fat_entry(g, m2, new) == slots::fat_entry(g, m1, new));
    assert(slots::fat_entry(g, m3, new) == slots::fat_entry(g, m2, new));
    assert(slots::fat_entry(g, m3, tail) == slots::fat_entry(g, m2, tail));
    assert(allocation::is_used(v, m3, tail as int) == allocation::is_used(v, m2, tail as int));
    assert(allocation::is_used(v, m2, tail as int) == allocation::is_used(v, m1, tail as int));
    assert(allocation::is_used(v, m3, new as int) == allocation::is_used(v, m2, new as int));
    assert(allocation::is_used(v, m2, new as int) == allocation::is_used(v, m1, new as int));
    assert(regions::is_plain(v, m3, tail) && regions::is_plain(v, m3, new));
    lemma_chain_on(v, m, m3, free, d, n, new);
    assert(regions::same_cluster(g, m1, m2, tail) && regions::same_cluster(g, m1, m2, new));
    assert(regions::same_cluster(g, m2, m3, new));
    assert(regions::same_cluster(g, m, m1, tail));
    assert forall|s: int| 0 <= s < per implies #[trigger] regions::cluster_sector(g, m3, tail, s)
        == if s == per - 1 {
        space::filled_up(regions::cluster_sector(g, m, tail, s))
    } else {
        regions::cluster_sector(g, m, tail, s)
    } by {
        assert(regions::cluster_sector(g, m2, tail, s) == regions::cluster_sector(g, m1, tail, s));
        assert(regions::cluster_sector(g, m1, tail, s) == regions::cluster_sector(g, m, tail, s));
    }
    assert forall|s: int| 0 <= s < per implies #[trigger] regions::cluster_sector(g, m3, new, s)
        == bytes::filled(g.bytes_per_sector as nat, 0) by {
        assert(regions::cluster_sector(g, m2, new, s) == regions::cluster_sector(g, m1, new, s));
        assert(regions::cluster_sector(g, m3, new, s) == regions::cluster_sector(g, m2, new, s));
    }
}

/// A slot of a sector whose never-used slots were marked as used.
proof fn lemma_filled_slot(m: Media, m2: Media, lba: u64, size: int, t: int)
    requires
        m[lba].len() == size,
        m2[lba] == space::filled_up(m[lba]),
        0 <= t < size / 32,
    ensures
        ({
            let a = slots::slot_at(m, lba, t);
            slots::slot_at(m2, lba, t) == if a.raw[0] == 0 {
                Slot { raw: a.raw.update(0, 0x80), ..a }
            } else {
                a
            }
        }),
{
    let a = slots::slot_at(m, lba, t);
    let b = slots::slot_at(m2, lba, t);
    assert(a.raw[0] == m[lba][32 * t]);
    if a.raw[0] == 0 {
        assert(b.raw =~= a.raw.update(0, 0x80));
    } else {
        assert(b.raw =~= a.raw);
    }
}

/// The slots of a zeroed cluster were never used.
pub proof fn lemma_blank_cluster(g: Geometry, m: Media, c: u32)
    requires
        regions::apart(g),
        g.in_heap(c),
        forall|s: int|
            0 <= s < g.sectors_per_cluster ==> #[trigger] regions::cluster_sector(g, m, c, s)
                == bytes::filled(g.bytes_per_sector as nat, 0),
    ensures
        ({
            let z = slots::span_slots(m, slots::cluster_spans(g, c));
            let q = g.bytes_per_sector as int / 32;
            &&& are_blank(z)
            &&& z.len() == g.sectors_per_cluster * q
            &&& z.len() >= q
            &&& forall|k: int|
                0 <= k < q ==> (#[trigger] z[k]).at == space::first_slots(g, c, q as nat)[k]
        }),
{
    let spans = slots::cluster_spans(g, c);
    let z = slots::span_slots(m, spans);
    let size = g.bytes_per_sector as int;
    let q = size / 32;
    let per = g.sectors_per_cluster as int;
    regions::lemma_geometry(g);
    lemma_whole_places(m, spans, size, 0);
    assert(per * q >= q) by (nonlinear_arith)
        requires
            per >= 1,
            q >= 0,
    ;
    assert forall|k: int| 0 <= k < z.len() implies (#[trigger] z[k]).raw[0] == 0 by {
        directories::lemma_slot_place(m, spans, k);
        let (j, t) = directories::place_of(spans, k);
        assert(spans[j].lba == regions::sector_number(g, c, j));
        assert(regions::cluster_sector(g, m, c, j) == bytes::filled(size as nat, 0));
    }
    assert forall|k: int| 0 <= k < q implies (#[trigger] z[k]).at == space::first_slots(
        g,
        c,
        q as nat,
    )[k] by {
        directories::lemma_slot_place(m, spans, k);
        lemma_whole_places(m, spans, size, k);
        vstd::arithmetic::div_mod::lemma_basic_div(k, q);
        vstd::arithmetic::div_mod::lemma_small_mod(k as nat, q as nat);
        assert(spans[0].lba == regions::sector_number(g, c, 0));
    }
}

/// The slots of a directory that grew: those it had, with the never-used ones
/// of the last sector marked as used, and then those of the new cluster.
pub proof fn lemma_grown_slots(
    v: Volume,
    m: Media,
    m2: Media,
    free: u32,
    free2: u32,
    d: DirectoryModel,
    n: int,
    new: u32,
)
    requires
        regions::sound(v, m, free),
        extents::is_chain(v, m, d, n),
        is_linked_on(v, m, m2, free2, d, n, new),
    ensures
        ({
            let g = v.geometry;
            let q = g.bytes_per_sector as int / 32;
            let a = directories::slots_of(g, m, d);
            let b = directories::slots_of(g, m2, space::longer(g, d));
            let z = b.skip(a.len() as int);
            &&& b == marked_up(a, q) + z
            &&& are_blank(z)
            &&& z.len() >= q
            &&& forall|k: int|
                0 <= k < q ==> (#[trigger] z[k]).at == space::first_slots(g, new, q as nat)[k]
        }),
{
    reveal(extents::is_chain);
    reveal(is_linked_on);
    let g = v.geometry;
    let size = g.bytes_per_sector as int;
    let q = size / 32;
    let per = g.sectors_per_cluster as int;
    let d2 = space::longer(g, d);
    let tail = extents::link(g, m, d, n - 1);
    regions::lemma_geometry(g);
    extents::lemma_chain_housed(v, m, d, n);
    extents::lemma_chain_housed(v, m2, d2, n + 1);
    extents::lemma_chain_longer(g, m2, d2, 0, n);
    extents::lemma_chain_same(g, m, m2, d, d2, 0, n);
    let spans = extents::chain_spans(g, m, d, 0, n);
    let added = slots::cluster_spans(g, new);
    lemma_slots_joined(m2, spans, added);
    let a = directories::slots_of(g, m, d);
    let b = directories::slots_of(g, m2, d2);
    let c = slots::span_slots(m2, spans);
    let z = slots::span_slots(m2, added);
    assert(b == c + z);
    lemma_blank_cluster(g, m2, new);
    directories::lemma_slot_count(m, m2, spans);
    assert forall|j: int| 0 <= j < spans.len() implies (#[trigger] spans[j]).usable == size by {
        extents::lemma_chain_span(v, m, d, n, 0, j);
    }
    extents::lemma_chain_len(g, m, d, 0, n);
    lemma_whole_places(m, spans, size, 0);
    assert(c =~= marked_up(a, q)) by {
        assert forall|k: int| 0 <= k < a.len() implies c[k] == marked_up(a, q)[k] by {
            lemma_grown_slot(v, m, m2, free, free2, d, n, new, k);
        }
    }
    assert(b.skip(a.len() as int) =~= z);
}

/// A slot that a directory had before it grew.
#[verifier::rlimit(30)]
pub proof fn lemma_grown_slot(
    v: Volume,
    m: Media,
    m2: Media,
    free: u32,
    free2: u32,
    d: DirectoryModel,
    n: int,
    new: u32,
    k: int,
)
    requires
        regions::sound(v, m, free),
        extents::is_chain(v, m, d, n),
        is_linked_on(v, m, m2, free2, d, n, new),
        0 <= k < slots::span_slots(m, extents::chain_spans(v.geometry, m, d, 0, n)).len(),
    ensures
        ({
            let g = v.geometry;
            let spans = extents::chain_spans(g, m, d, 0, n);
            let q = g.bytes_per_sector as int / 32;
            slots::span_slots(m2, spans)[k] == marked_up(slots::span_slots(m, spans), q)[k]
        }),
{
    reveal(extents::is_chain);
    reveal(is_linked_on);
    let g = v.geometry;
    let size = g.bytes_per_sector as int;
    let q = size / 32;
    let per = g.sectors_per_cluster as int;
    let first = d.first_cluster;
    let spans = extents::chain_spans(g, m, d, 0, n);
    let a = slots::span_slots(m, spans);
    let tail = extents::link(g, m, d, n - 1);
    regions::lemma_geometry(g);
    directories::lemma_slot_count(m, m2, spans);
    directories::lemma_slot_place(m, spans, k);
    directories::lemma_slot_place(m2, spans, k);
    assert forall|j: int| 0 <= j < spans.len() implies (#[trigger] spans[j]).usable == size by {
        extents::lemma_chain_span(v, m, d, n, 0, j);
    }
    extents::lemma_chain_len(g, m, d, 0, n);
    lemma_whole_places(m, spans, size, k);
    let (j, t) = directories::place_of(spans, k);
    extents::lemma_chain_span(v, m, d, n, 0, j);
    let i = j / per;
    let s = j % per;
    let c = extents::link(g, m, d, i);
    assert(allocation::chain_at(g, m, first, i as nat) is Some);
    assert(allocation::chain_at(g, m, first, (n - 1) as nat) is Some);
    let lba = regions::sector_number(g, c, s);
    regions::lemma_sector(g, c, s);
    vstd::arithmetic::div_mod::lemma_fundamental_div_mod(j, per);
    vstd::arithmetic::div_mod::lemma_fundamental_div_mod(k, q);
    assert(k == q * j + t);
    assert(per * (n - 1) == n * per - per) by (nonlinear_arith);
    assert(q * (n * per) == (n * per) * q) by (nonlinear_arith);
    if c == tail && s == per - 1 {
        assert(i == n - 1);
        assert(j == n * per - 1);
        assert(q * j == q * (n * per) - q) by (nonlinear_arith)
            requires
                j == n * per - 1,
        ;
        assert(k >= a.len() - q);
        assert(regions::cluster_sector(g, m2, tail, s) == space::filled_up(
            regions::cluster_sector(g, m, tail, s),
        ));
        lemma_filled_slot(m, m2, lba, size, t);
    } else {
        assert(j < n * per - 1) by {
            if i < n - 1 {
                assert(per * i <= per * (n - 2)) by (nonlinear_arith)
                    requires
                        i <= n - 2,
                        per >= 1,
                ;
                assert(per * (n - 2) == n * per - 2 * per) by (nonlinear_arith);
            }
        }
        assert(q * j + q <= q * (n * per) - q) by (nonlinear_arith)
            requires
                j + 1 <= n * per - 1,
                q >= 0,
        ;
        assert(k < a.len() - q);
        assert(m2[lba] == m[lba]) by {
            if c == tail {
                assert(regions::cluster_sector(g, m2, tail, s) == regions::cluster_sector(
                    g,
                    m,
                    tail,
                    s,
                ));
            } else {
                assert(appending::is_taken(v, m, c));
                assert(c != new);
                assert(regions::same_cluster(g, m, m2, c));
                assert(regions::cluster_sector(g, m2, c, s) == regions::cluster_sector(
                    g,
                    m,
                    c,
                    s,
                ));
            }
        }
    }
}

/// A FAT-linked directory whose clusters are left alone is one still.
pub proof fn lemma_chain_kept(
    v: Volume,
    m: Media,
    m2: Media,
    free: u32,
    d: DirectoryModel,
    n: int,
    touched: Set<u32>,
)
    requires
        regions::sound(v, m, free),
        extents::is_chain(v, m, d, n),
        regions::changes_only(v, m, m2, touched),
        regions::same_system(v, m, m2),
        touched.disjoint(directories::homes(v.geometry, m, d)),
    ensures
        extents::is_chain(v, m2, d, n),
{
    reveal(extents::is_chain);
    let g = v.geometry;
    let first = d.first_cluster;
    regions::lemma_geometry(g);
    extents::lemma_chain_housed(v, m, d, n);
    assert forall|i: nat| i < n implies #[trigger] allocation::chain_at(g, m2, first, i)
        == allocation::chain_at(g, m, first, i) by {
        assert forall|j: nat|
            j < i && g.fat_holds((#[trigger] allocation::chain_at(g, m, first, j))->0)
                && allocation::chain_at(g, m, first, j) is Some implies slots::fat_entry(
            g,
            m2,
            allocation::chain_at(g, m, first, j)->0,
        ) == slots::fat_entry(g, m, allocation::chain_at(g, m, first, j)->0) by {
            let c = allocation::chain_at(g, m, first, j)->0;
            assert(directories::homes(g, m, d).contains(c));
        }
        regions::lemma_chain_same(g, m, m2, first, i);
    }
    assert forall|i: nat| i < n implies (#[trigger] allocation::chain_at(
        g,
        m2,
        first,
        i,
    ) matches Some(c) && appending::is_taken(v, m2, c)) by {
        let c = allocation::chain_at(g, m, first, i)->0;
        assert(allocation::chain_at(g, m, first, i) is Some);
        assert(directories::homes(g, m, d).contains(c));
        appending::lemma_still_taken(v, m, m2, free, touched, c);
    }
    let tail = allocation::chain_at(g, m, first, (n - 1) as nat)->0;
    assert(allocation::chain_at(g, m, first, (n - 1) as nat) is Some);
    assert(directories::homes(g, m, d).contains(tail));
    assert(extents::link(g, m2, d, n - 1) == tail) by {
        assert(allocation::chain_at(g, m2, first, (n - 1) as nat) == allocation::chain_at(
            g,
            m,
            first,
            (n - 1) as nat,
        ));
    }
}

/// A directory whose clusters are left alone has the same extent.
pub proof fn lemma_extent_kept(
    v: Volume,
    m: Media,
    m2: Media,
    free: u32,
    d: DirectoryModel,
    n: int,
    touched: Set<u32>,
)
    requires
        regions::sound(v, m, free),
        extents::is_extent(v, m, d, n),
        regions::changes_only(v, m, m2, touched),
        regions::same_system(v, m, m2),
        touched.disjoint(directories::homes(v.geometry, m, d)),
    ensures
        extents::is_extent(v, m2, d, n),
{
    if extents::is_chain(v, m, d, n) {
        lemma_chain_kept(v, m, m2, free, d, n, touched);
    } else {
        reveal(extents::is_fixed);
        trails::lemma_dir_kept(v, m, m2, free, d, touched);
    }
}

/// What linking a directory to a new cluster brings.
pub proof fn lemma_linked_facts(
    v: Volume,
    m: Media,
    m2: Media,
    free2: u32,
    d: DirectoryModel,
    n: int,
    new: u32,
)
    requires
        is_linked_on(v, m, m2, free2, d, n, new),
    ensures
        regions::is_plain(v, m, new),
        allocation::is_used(v, m, new as int) == Some(false),
        regions::evolves(
            v,
            m,
            m2,
            free2,
            set![new, extents::link(v.geometry, m, d, n - 1)],
        ),
        extents::is_chain(v, m2, space::longer(v.geometry, d), n + 1),
        forall|i: int|
            0 <= i < n ==> #[trigger] extents::link(v.geometry, m2, space::longer(v.geometry, d), i)
                == extents::link(v.geometry, m, d, i),
        extents::link(v.geometry, m2, space::longer(v.geometry, d), n) == new,
        d.data_length != 0 && extents::is_chain(v, m, d, n) && regions::apart(v.geometry)
            ==> space::longer(v.geometry, d).data_length != 0,
{
    reveal(extents::is_chain);
    reveal(is_linked_on);
    let g = v.geometry;
    if extents::is_chain(v, m, d, n) && regions::apart(g) {
        let cb = g.cluster_bytes();
        regions::lemma_geometry(g);
        assert(n * cb + cb == (n + 1) * cb) by (nonlinear_arith);
        assert(0 < (n + 1) * cb <= 0x1_0000_0000 * 0x200_0000) by (nonlinear_arith)
            requires
                0 < n + 1 <= 0x1_0000_0000,
                0 < cb <= 0x200_0000,
        ;
    }
}

/// The clusters of a directory that grew are those it had and the new one.
pub proof fn lemma_grown_homes(
    v: Volume,
    m: Media,
    m2: Media,
    free2: u32,
    d: DirectoryModel,
    n: int,
    new: u32,
)
    requires
        regions::apart(v.geometry),
        extents::is_chain(v, m, d, n),
        is_linked_on(v, m, m2, free2, d, n, new),
    ensures
        directories::homes(v.geometry, m2, space::longer(v.geometry, d)) == directories::homes(
            v.geometry,
            m,
            d,
        ).insert(new),
        directories::homes(v.geometry, m, d).contains(extents::link(v.geometry, m, d, n - 1)),
{
    let g = v.geometry;
    let d2 = space::longer(g, d);
    let old = directories::homes(g, m, d);
    let all = directories::homes(g, m2, d2);
    lemma_linked_facts(v, m, m2, free2, d, n, new);
    extents::lemma_chain_homes(v, m, d, n);
    extents::lemma_chain_homes(v, m2, d2, n + 1);
    lemma_chain_size(v, m, d, n);
    assert forall|c: u32| all.contains(c) implies old.insert(new).contains(c) by {
        let i = choose|i: int| 0 <= i < n + 1 && #[trigger] extents::link(g, m2, d2, i) == c;
        if i < n {
            assert(old.contains(extents::link(g, m, d, i)));
        }
    }
    assert forall|c: u32| old.insert(new).contains(c) implies all.contains(c) by {
        if old.contains(c) {
            let i = choose|i: int| 0 <= i < n && #[trigger] extents::link(g, m, d, i) == c;
            assert(all.contains(extents::link(g, m2, d2, i)));
        } else {
            assert(all.contains(extents::link(g, m2, d2, n)));
        }
    }
    assert(all =~= old.insert(new));
    assert(old.contains(extents::link(g, m, d, n - 1)));
}

/// A directory has a cluster.
proof fn lemma_chain_size(v: Volume, m: Media, d: DirectoryModel, n: int)
    requires
        extents::is_chain(v, m, d, n),
    ensures
        1 <= n <= v.geometry.cluster_count,
{
    reveal(extents::is_chain);
}

} // verus!
