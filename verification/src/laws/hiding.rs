//! A directory that has begun to grow: until its new length is recorded, it
//! lists what it did.

use crate::bytes;
use crate::device;
use crate::device::Media;
use crate::directory::entry;
use crate::directory::entry::{DecoderModel, DirectoryModel};
use crate::directory::slots;
use crate::directory::slots::{EntryLocator, Slot};
use crate::fs::allocation;
use crate::fs::file::FileModel;
use crate::fs::listing;
use crate::fs::listing::Listing;
use crate::fs::metadata;
use crate::fs::space;
use crate::fs::walk;
use crate::fs::walk::{End, Layout, Walk};
use crate::geometry::CHAIN_END;
use crate::laws::adding;
use crate::laws::allocating;
use crate::laws::appending;
use crate::laws::decoding;
use crate::laws::directories;
use crate::laws::entries;
use crate::laws::expanding;
use crate::laws::extents;
use crate::laws::files;
use crate::laws::growing;
use crate::laws::interrupting;
use crate::laws::placing;
use crate::laws::regions;
use crate::laws::reopening;
use crate::laws::sets;
use crate::laws::trails;
use crate::mount::Volume;
use vstd::prelude::*;

verus! {

/// A decoder between sets finds nothing in slots that are not in use.
proof fn lemma_nothing_more(slots: Seq<Slot>, end: End, decoder: DecoderModel)
    requires
        decoder.idle(),
        end != End::Corrupt,
        forall|k: int| 0 <= k < slots.len() ==> (#[trigger] slots[k]).raw[0] <= 0x80,
    ensures
        listing::listing_from(slots, end, decoder) == (Listing {
            entries: Seq::empty(),
            sound: true,
        }),
    decreases slots.len(),
{
    reveal(DecoderModel::push);
    if slots.len() > 0 && slots[0].raw[0] != 0 {
        let rest = slots.drop_first();
        assert forall|k: int| 0 <= k < rest.len() implies (#[trigger] rest[k]).raw[0] <= 0x80 by {
            assert(rest[k] == slots[k + 1]);
        }
        lemma_nothing_more(rest, end, decoder);
    }
}

/// Two directories list the same where they start with the same `e` slots, and
/// nothing behind them is in use.
proof fn lemma_listing_cut(
    a: Seq<Slot>,
    b: Seq<Slot>,
    e: nat,
    before: End,
    after: End,
    decoder: DecoderModel,
)
    requires
        before != End::Corrupt,
        after != End::Corrupt,
        e <= a.len(),
        e <= b.len(),
        forall|k: int| 0 <= k < e ==> #[trigger] a[k] == b[k],
        forall|k: int| e <= k < a.len() ==> (#[trigger] a[k]).raw[0] <= 0x80,
        forall|k: int| e <= k < b.len() ==> (#[trigger] b[k]).raw[0] <= 0x80,
        entries::after(decoder, a, e).idle(),
    ensures
        listing::listing_from(b, after, decoder) == listing::listing_from(a, before, decoder),
    decreases e,
{
    if e == 0 {
        lemma_nothing_more(a, before, decoder);
        lemma_nothing_more(b, after, decoder);
    } else {
        assert(a[0] == b[0]);
        let x = a.drop_first();
        let y = b.drop_first();
        let next = decoder.push(a[0].raw, a[0].at).0;
        assert(a.skip(1) =~= x);
        decoding::lemma_after_on(decoder, a, 1, (e - 1) as nat);
        assert(entries::after(decoder, a, 0) == decoder);
        assert(entries::after(decoder, a, 1) == next);
        assert forall|k: int| 0 <= k < e - 1 implies #[trigger] x[k] == y[k] by {
            assert(a[k + 1] == b[k + 1]);
        }
        assert forall|k: int| e - 1 <= k < x.len() implies (#[trigger] x[k]).raw[0] <= 0x80 by {
            assert(x[k] == a[k + 1]);
        }
        assert forall|k: int| e - 1 <= k < y.len() implies (#[trigger] y[k]).raw[0] <= 0x80 by {
            assert(y[k] == b[k + 1]);
        }
        lemma_listing_cut(x, y, (e - 1) as nat, before, after, next);
    }
}

/// A tidy directory lists the same where only slots change that are not in use,
/// and none of them is put to use.
proof fn lemma_listing_stays(a: Seq<Slot>, b: Seq<Slot>, before: End, after: End)
    requires
        decoding::tidy(a),
        before != End::Corrupt,
        after != End::Corrupt,
        a.len() <= b.len(),
        forall|k: int| 0 <= k < a.len() && a[k].raw[0] != 0 ==> #[trigger] b[k] == a[k],
        forall|k: int|
            0 <= k < a.len() && a[k].raw[0] == 0 ==> (#[trigger] b[k]).raw[0] <= 0x80,
        forall|k: int| a.len() <= k < b.len() ==> (#[trigger] b[k]).raw[0] <= 0x80,
    ensures
        listing::listing_from(b, after, entry::idle_decoder()) == listing::listing_from(
            a,
            before,
            entry::idle_decoder(),
        ),
{
    let e = sets::used_from(a, 0);
    sets::lemma_used_from(a, 0);
    assert forall|k: int| 0 <= k < e implies #[trigger] a[k] == b[k] by {
        assert(a[k].raw[0] != 0);
        assert(b[k] == a[k]);
    }
    assert forall|k: int| e <= k < a.len() implies (#[trigger] a[k]).raw[0] <= 0x80 by {
        assert(a[e].raw[0] == 0);
        if k > e {
            assert(space::is_free(a[k]));
        }
    }
    assert forall|k: int| e <= k < b.len() implies (#[trigger] b[k]).raw[0] <= 0x80 by {
        if k < a.len() && a[k].raw[0] != 0 {
            assert(b[k] == a[k]);
        }
    }
    assert(entries::after(entry::idle_decoder(), a, e as nat).idle()) by {
        if e < a.len() {
            assert(space::is_free(a[e]));
        }
    }
    lemma_listing_cut(a, b, e as nat, before, after, entry::idle_decoder());
}

/// The walk through a directory that has one cluster more than its length says
/// stops before it.
proof fn lemma_short_walk(
    v: Volume,
    m: Media,
    d: DirectoryModel,
    n: int,
    i: int,
    p: Layout,
    budget: nat,
)
    requires
        regions::apart(v.geometry),
        extents::is_chain(v, m, d, n + 1),
        0 <= i < n,
        !p.contiguous,
        !p.whole,
        budget >= n + 1 - i,
    ensures
        walk::walk_into(
            v.geometry,
            m,
            p,
            extents::link(v.geometry, m, d, i),
            ((n - i) * v.geometry.cluster_bytes()) as nat,
            budget,
        ) == (Walk { spans: extents::chain_spans(v.geometry, m, d, i, n), end: End::Bytes }),
    decreases n - i,
{
    reveal(extents::is_chain);
    let g = v.geometry;
    let per = g.sectors_per_cluster as int;
    let size = g.bytes_per_sector as int;
    let cb = g.cluster_bytes();
    let c = extents::link(g, m, d, i);
    regions::lemma_geometry(g);
    assert(allocation::chain_at(g, m, d.first_cluster, i as nat) is Some);
    assert(allocation::chain_at(g, m, d.first_cluster, (i + 1) as nat) is Some);
    assert(per * size == cb) by (nonlinear_arith)
        requires
            cb == g.bytes_per_sector * g.sectors_per_cluster,
            per == g.sectors_per_cluster,
            size == g.bytes_per_sector,
    ;
    assert((n - i) * cb == (n - i - 1) * cb + cb) by (nonlinear_arith);
    assert((n - i - 1) * cb >= 0) by (nonlinear_arith)
        requires
            n - i - 1 >= 0,
            cb > 0,
    ;
    let remaining = ((n - i) * cb) as nat;
    let left = (remaining - cb) as nat;
    let less = (budget - 1) as nat;
    extents::lemma_cluster_walk(g, m, p, c, 0, remaining, less);
    let spans = slots::cluster_spans(g, c);
    assert(spans.skip(0) =~= spans);
    let rest = walk::walk_from(g, m, p, c, per as nat, left, less);
    let next = extents::link(g, m, d, i + 1);
    assert(g.fat_holds(c));
    assert(slots::fat_entry(g, m, c) == next);
    assert(g.in_heap(next) && next < CHAIN_END);
    if i == n - 1 {
        assert((n - i - 1) * cb == 0) by (nonlinear_arith)
            requires
                i == n - 1,
        ;
        assert(rest.spans =~= Seq::empty());
        assert(extents::chain_spans(g, m, d, i + 1, n) =~= Seq::empty());
    } else {
        lemma_short_walk(v, m, d, n, i + 1, p, less);
    }
}

/// The slots of a directory that was linked to a new cluster of zeros, with its
/// old length.
proof fn lemma_linked_slots(
    v: Volume,
    m: Media,
    m2: Media,
    d: DirectoryModel,
    n: int,
    new: u32,
)
    requires
        regions::apart(v.geometry),
        extents::is_chain(v, m, d, n),
        extents::is_chain(v, m2, space::longer(v.geometry, d), n + 1),
        v.geometry.in_heap(new),
        forall|i: int|
            0 <= i < n ==> #[trigger] extents::link(v.geometry, m2, space::longer(v.geometry, d), i)
                == extents::link(v.geometry, m, d, i),
        extents::link(v.geometry, m2, space::longer(v.geometry, d), n) == new,
        forall|s: int|
            0 <= s < v.geometry.sectors_per_cluster ==> #[trigger] regions::cluster_sector(
                v.geometry,
                m2,
                new,
                s,
            ) == bytes::filled(v.geometry.bytes_per_sector as nat, 0),
    ensures
        ({
            let g = v.geometry;
            let after = walk::directory_slots(g, m2, d);
            let c = slots::span_slots(m2, extents::chain_spans(g, m, d, 0, n));
            &&& after.end != End::Corrupt
            &&& c.len() <= after.slots.len()
            &&& forall|k: int| 0 <= k < c.len() ==> #[trigger] after.slots[k] == c[k]
            &&& forall|k: int|
                c.len() <= k < after.slots.len() ==> (#[trigger] after.slots[k]).raw[0] == 0
        }),
{
    let g = v.geometry;
    let d2 = space::longer(g, d);
    let spans = extents::chain_spans(g, m, d, 0, n);
    regions::lemma_geometry(g);
    assert(1 <= n) by {
        reveal(extents::is_chain);
    }
    extents::lemma_chain_same(g, m, m2, d, d2, 0, n);
    if d.data_length == 0 {
        assert(d2 == d);
        extents::lemma_chain_housed(v, m2, d, n + 1);
        extents::lemma_chain_longer(g, m2, d, 0, n);
        let added = slots::cluster_spans(g, new);
        expanding::lemma_slots_joined(m2, spans, added);
        expanding::lemma_blank_cluster(g, m2, new);
        let z = slots::span_slots(m2, added);
        let c = slots::span_slots(m2, spans);
        let all = walk::directory_slots(g, m2, d).slots;
        assert(all == c + z);
        assert forall|k: int| c.len() <= k < all.len() implies (#[trigger] all[k]).raw[0] == 0 by {
            assert(all[k] == z[k - c.len()]);
        }
    } else {
        assert(d2.first_cluster == d.first_cluster);
        let p = walk::layout_of(d);
        assert(n + 1 <= g.cluster_count && d.data_length == n * g.cluster_bytes()
            && !d.no_fat_chain && extents::link(g, m2, d2, 0) == d.first_cluster) by {
            reveal(extents::is_chain);
            assert(allocation::chain_at(g, m2, d2.first_cluster, 0) is Some);
        }
        lemma_short_walk(v, m2, d2, n, 0, p, g.cluster_count as nat);
    }
}

/// A directory whose last cluster was linked to a new one, which holds zeros.
proof fn lemma_linked<E>(v: Volume, m: Media, free: u32, d: DirectoryModel, n: int)
    requires
        regions::sound(v, m, free),
        extents::is_chain(v, m, d, n),
        free > 0,
    ensures
        ({
            let g = v.geometry;
            let d2 = space::longer(g, d);
            let tail = extents::link(g, m, d, n - 1);
            let take = allocation::allocate_plan::<E>(v, m, free, (tail + 1) as u32);
            let taken = take.leaves(m);
            let new = take.result->Ok_0;
            let linked = allocation::set_fat_plan::<E>(v, taken, take.free, tail, new).leaves(
                taken,
            );
            &&& g.in_heap(new)
            &&& extents::is_chain(v, linked, d2, n + 1)
            &&& forall|i: int|
                0 <= i < n ==> #[trigger] extents::link(g, linked, d2, i) == extents::link(
                    g,
                    m,
                    d,
                    i,
                )
            &&& extents::link(g, linked, d2, n) == new
            &&& forall|s: int|
                0 <= s < g.sectors_per_cluster ==> #[trigger] regions::cluster_sector(
                    g,
                    linked,
                    new,
                    s,
                ) == bytes::filled(g.bytes_per_sector as nat, 0)
            &&& forall|c: u32| #[trigger]
                appending::is_taken(v, m, c) ==> regions::same_cluster(g, m, linked, c)
        }),
{
    let g = v.geometry;
    let tail = extents::link(g, m, d, n - 1);
    let take = allocation::allocate_plan::<E>(v, m, free, (tail + 1) as u32);
    let m1 = take.leaves(m);
    let new = take.result->Ok_0;
    let less = take.free;
    regions::lemma_geometry(g);
    assert(appending::is_taken(v, m, tail)) by {
        reveal(extents::is_chain);
        assert(allocation::chain_at(g, m, d.first_cluster, (n - 1) as nat) is Some);
    }
    allocating::law_allocation_claims_a_free_cluster::<E>(v, m, free, (tail + 1) as u32);
    appending::lemma_still_taken(v, m, m1, free, set![new], tail);
    let m2 = allocation::set_fat_plan::<E>(v, m1, less, tail, new).leaves(m1);
    allocating::lemma_fat_written::<E>(v, m1, less, tail, new);
    allocating::lemma_evolves_on(
        v,
        m,
        m1,
        m2,
        less,
        less,
        set![new],
        set![tail],
        set![new, tail],
    );
    assert(g.fat_holds(new) && g.fat_holds(tail));
    assert(slots::fat_entry(g, m2, new) == slots::fat_entry(g, m1, new));
    assert(allocation::is_used(v, m2, tail as int) == allocation::is_used(v, m1, tail as int));
    assert(allocation::is_used(v, m2, new as int) == allocation::is_used(v, m1, new as int));
    assert(regions::is_plain(v, m2, tail) && regions::is_plain(v, m2, new));
    expanding::lemma_chain_on(v, m, m2, free, d, n, new);
    assert forall|s: int| 0 <= s < g.sectors_per_cluster implies #[trigger] regions::cluster_sector(
        g,
        m2,
        new,
        s,
    ) == bytes::filled(g.bytes_per_sector as nat, 0) by {
        assert(regions::same_cluster(g, m1, m2, new));
        assert(regions::cluster_sector(g, m2, new, s) == regions::cluster_sector(g, m1, new, s));
    }
    assert forall|c: u32| #[trigger] appending::is_taken(v, m, c) implies regions::same_cluster(
        g,
        m,
        m2,
        c,
    ) by {
        assert(regions::same_cluster(g, m, m1, c));
        assert(regions::same_cluster(g, m1, m2, c));
        growing::lemma_same_cluster_on(g, m, m1, m2, c);
    }
}

/// A directory whose last cluster was linked to a new one lists what it did.
proof fn lemma_linked_lists<E>(v: Volume, m: Media, free: u32, d: DirectoryModel, n: int)
    requires
        regions::sound(v, m, free),
        extents::is_chain(v, m, d, n),
        decoding::tidy(directories::slots_of(v.geometry, m, d)),
        free > 0,
    ensures
        ({
            let g = v.geometry;
            let tail = extents::link(g, m, d, n - 1);
            let take = allocation::allocate_plan::<E>(v, m, free, (tail + 1) as u32);
            let taken = take.leaves(m);
            let new = take.result->Ok_0;
            let linked = allocation::set_fat_plan::<E>(v, taken, take.free, tail, new).leaves(
                taken,
            );
            listing::listing(g, linked, d) == listing::listing(g, m, d)
        }),
{
    let g = v.geometry;
    let tail = extents::link(g, m, d, n - 1);
    let take = allocation::allocate_plan::<E>(v, m, free, (tail + 1) as u32);
    let m1 = take.leaves(m);
    let new = take.result->Ok_0;
    let m2 = allocation::set_fat_plan::<E>(v, m1, take.free, tail, new).leaves(m1);
    lemma_linked::<E>(v, m, free, d, n);
    extents::lemma_chain_housed(v, m, d, n);
    lemma_linked_slots(v, m, m2, d, n, new);
    let spans = extents::chain_spans(g, m, d, 0, n);
    assert forall|j: int| 0 <= j < spans.len() implies m2[(#[trigger] spans[j]).lba]
        == m[spans[j].lba] by {
        let lba = spans[j].lba;
        let c = directories::home(g, lba);
        assert(directories::is_housed(v, m, lba));
        assert(appending::is_taken(v, m, c));
        let s = lba - g.heap_lba(c as int);
        regions::lemma_sector(g, c, s);
        assert(regions::cluster_sector(g, m2, c, s) == regions::cluster_sector(g, m, c, s));
    }
    trails::lemma_slots_kept(m, m2, spans);
    lemma_listing_stays(
        directories::slots_of(g, m, d),
        walk::directory_slots(g, m2, d).slots,
        walk::directory_slots(g, m, d).end,
        walk::directory_slots(g, m2, d).end,
    );
}

/// A directory whose readers may go on into a new cluster lists what it did.
proof fn lemma_opened_lists(
    v: Volume,
    m: Media,
    m2: Media,
    free: u32,
    free2: u32,
    d: DirectoryModel,
    n: int,
    new: u32,
)
    requires
        regions::sound(v, m, free),
        extents::is_chain(v, m, d, n),
        decoding::tidy(directories::slots_of(v.geometry, m, d)),
        expanding::is_linked_on(v, m, m2, free2, d, n, new),
    ensures
        listing::listing(v.geometry, m2, d) == listing::listing(v.geometry, m, d),
{
    let g = v.geometry;
    let q = g.bytes_per_sector as int / 32;
    let spans = extents::chain_spans(g, m, d, 0, n);
    let a = directories::slots_of(g, m, d);
    let c = slots::span_slots(m2, spans);
    expanding::lemma_linked_facts(v, m, m2, free2, d, n, new);
    extents::lemma_chain_housed(v, m, d, n);
    assert(forall|s: int|
        0 <= s < g.sectors_per_cluster ==> #[trigger] regions::cluster_sector(g, m2, new, s)
            == bytes::filled(g.bytes_per_sector as nat, 0)) by {
        reveal(expanding::is_linked_on);
    }
    lemma_linked_slots(v, m, m2, d, n, new);
    directories::lemma_slot_count(m, m2, spans);
    assert forall|k: int| 0 <= k < a.len() implies #[trigger] c[k] == expanding::marked_up(
        a,
        q,
    )[k] by {
        expanding::lemma_grown_slot(v, m, m2, free, free2, d, n, new, k);
    }
    let b = walk::directory_slots(g, m2, d).slots;
    assert forall|k: int| 0 <= k < a.len() && a[k].raw[0] != 0 implies #[trigger] b[k] == a[k] by {
        assert(b[k] == c[k]);
    }
    assert forall|k: int| 0 <= k < a.len() && a[k].raw[0] == 0 implies (#[trigger] b[k]).raw[0]
        <= 0x80 by {
        assert(b[k] == c[k]);
        adding::lemma_slot(v, m, d, k);
        appending::lemma_home_length(
            v,
            m,
            free,
            a[k].at.lba,
            directories::home(g, a[k].at.lba),
        );
        assert(a[k].raw.update(0, 0x80)[0] == 0x80);
    }
    lemma_listing_stays(
        a,
        b,
        walk::directory_slots(g, m, d).end,
        walk::directory_slots(g, m2, d).end,
    );
}

/// A handle of no file at all.
pub open spec fn no_file(at: EntryLocator) -> FileModel {
    FileModel {
        primary: at,
        stream: at,
        locs: Seq::empty(),
        first_cluster: 0,
        data_length: 0,
        valid_length: 0,
        position: 0,
        no_fat_chain: true,
        cache: None,
    }
}

/// A directory lists what it did wherever the allocation of another cluster
/// stops.
proof fn lemma_claiming_lists<E>(
    v: Volume,
    m: Media,
    free: u32,
    d: DirectoryModel,
    preferred: u32,
    k: int,
)
    requires
        regions::sound(v, m, free),
        directories::dir_sound(v, m, d),
        free > 0,
        0 <= k <= allocation::allocate_plan::<E>(v, m, free, preferred).writes.len(),
    ensures
        ({
            let writes = allocation::allocate_plan::<E>(v, m, free, preferred).writes;
            listing::listing(v.geometry, device::applied(m, writes.take(k)), d)
                == listing::listing(v.geometry, m, d)
        }),
{
    let g = v.geometry;
    let plan = allocation::allocate_plan::<E>(v, m, free, preferred);
    let f = no_file(EntryLocator { lba: 0, offset: 0 });
    regions::lemma_geometry(g);
    growing::lemma_count(g, f);
    assert(files::file_sound(v, m, f));
    allocating::law_allocation_claims_a_free_cluster::<E>(v, m, free, preferred);
    let c = plan.result->Ok_0;
    let touched = interrupting::reach(v, m, f);
    assert(!files::owns(g, m, f, c));
    assert(plan.writes =~= allocation::take_plan::<E>(v, m, free, c).writes);
    interrupting::lemma_claim_calm::<E>(v, m, f, m, free, c);
    let m2 = device::applied(m, plan.writes.take(k));
    assert(interrupting::keeps(v, m, f, m, m2));
    assert(regions::changes_only(v, m, m2, touched) && regions::same_system(v, m, m2)) by {
        reveal(interrupting::keeps);
    }
    reopening::lemma_grown_apart(v, m, touched, Set::empty(), d);
    trails::lemma_dir_kept(v, m, m2, free, d, touched);
}

/// Wherever the growth of a directory stops between two writes before its new
/// length is recorded, the directory lists what it did: its old end hides the
/// cluster that it was linked to. The root directory has no length to record,
/// and lists the same throughout.
pub proof fn law_growing_directory_lists_the_same<E>(
    v: Volume,
    m: Media,
    free: u32,
    above: Seq<Seq<char>>,
    d: DirectoryModel,
    n: int,
    k: int,
)
    requires
        regions::sound(v, m, free),
        placing::is_dir_at::<E>(v, m, above, d, n),
        extents::is_chain(v, m, d, n),
        free > 0,
        ({
            let tail = extents::link(v.geometry, m, d, n - 1);
            let plan = space::grow_plan::<E>(v, m, free, d, tail);
            0 <= k <= plan.writes.len() - (if d.data_length == 0 {
                0int
            } else {
                2
            })
        }),
    ensures
        ({
            let tail = extents::link(v.geometry, m, d, n - 1);
            let plan = space::grow_plan::<E>(v, m, free, d, tail);
            let m2 = device::applied(m, plan.writes.take(k));
            listing::listing(v.geometry, m2, d) == listing::listing(v.geometry, m, d)
        }),
{
    reveal(space::grow_plan);
    let g = v.geometry;
    let tail = extents::link(g, m, d, n - 1);
    let plan = space::grow_plan::<E>(v, m, free, d, tail);
    let take = allocation::allocate_plan::<E>(v, m, free, (tail + 1) as u32);
    let m1 = take.leaves(m);
    extents::lemma_chain_housed(v, m, d, n);
    expanding::lemma_linked_on::<E>(v, m, free, d, n);
    let new = take.result->Ok_0;
    let link = allocation::set_fat_plan::<E>(v, m1, take.free, tail, new);
    let m2 = link.leaves(m1);
    let lba = space::last_lba(g, tail);
    let open = metadata::sector_plan::<E>(take.free, lba, space::filled_up(m2[lba]));
    let m3 = open.leaves(m2);
    let record = space::record_plan::<E>(v, m3, take.free, d);
    assert(plan.writes =~= take.writes + link.writes + open.writes + record.writes);
    let count = take.writes.len() as int;
    if k <= count {
        assert(plan.writes.take(k) =~= take.writes.take(k));
        lemma_claiming_lists::<E>(v, m, free, d, (tail + 1) as u32, k);
    } else if k == count + 1 {
        assert(plan.writes.take(k) =~= take.writes + link.writes);
        device::lemma_applied_concat(m, take.writes, link.writes);
        lemma_linked_lists::<E>(v, m, free, d, n);
    } else {
        assert(record.writes.len() <= if d.data_length == 0 {
            0int
        } else {
            2
        });
        assert(k == count + 2);
        assert(plan.writes.take(k) =~= take.writes + (link.writes + open.writes));
        device::lemma_applied_concat(m1, link.writes, open.writes);
        device::lemma_applied_concat(m, take.writes, link.writes + open.writes);
        lemma_opened_lists(v, m, m3, free, take.free, d, n, new);
    }
}

} // verus!
