//! Which cluster an allocation takes, which slots an entry set is put into, and
//! how many clusters are free.

use crate::device::Media;
use crate::directory::slots::{EntryLocator, Slot};
use crate::error::Error;
use crate::fs::allocation;
use crate::fs::space;
use crate::fs::space::Search;
use crate::mount::Volume;
use vstd::prelude::*;

verus! {

/// What a search for a free cluster says.
proof fn lemma_first_free(v: Volume, media: Media, from: int, to: int)
    requires
        0 <= from,
        to <= u32::MAX,
    ensures
        match allocation::first_free(v, media, from, to) {
            Some(Some(c)) => {
                &&& from <= c < to
                &&& allocation::is_used(v, media, c as int) == Some(false)
                &&& forall|k: int|
                    from <= k < c ==> #[trigger] allocation::is_used(v, media, k) == Some(true)
            },
            Some(None) => forall|k: int|
                from <= k < to ==> #[trigger] allocation::is_used(v, media, k) == Some(true),
            None => exists|k: int|
                from <= k < to && #[trigger] allocation::is_used(v, media, k) is None,
        },
    decreases to - from,
{
    if from < to {
        lemma_first_free(v, media, from + 1, to);
    }
}

/// An allocation takes the preferred cluster where it is free, and else the next
/// free one behind it; only where there is none behind it does it take the first
/// one before it. It reports that there is no space only where every cluster is
/// in use.
pub proof fn law_allocation_takes_the_next_free_cluster<E>(
    v: Volume,
    media: Media,
    free: u32,
    preferred: u32,
)
    ensures
        ({
            let limit = v.geometry.cluster_count + 2;
            let start = if 2 <= preferred < limit {
                preferred as int
            } else {
                2
            };
            match allocation::allocate_plan::<E>(v, media, free, preferred).result {
                Ok(c) => {
                    &&& 2 <= c < limit
                    &&& allocation::is_used(v, media, c as int) == Some(false)
                    &&& if c >= start {
                        forall|k: int|
                            start <= k < c ==> #[trigger] allocation::is_used(v, media, k) == Some(
                                true,
                            )
                    } else {
                        forall|k: int|
                            2 <= k < c || start <= k < limit ==> #[trigger] allocation::is_used(
                                v,
                                media,
                                k,
                            ) == Some(true)
                    }
                },
                Err(Error::NoSpace) => forall|k: int|
                    2 <= k < limit ==> #[trigger] allocation::is_used(v, media, k) == Some(true),
                Err(error) => error == Error::<E>::Corrupt,
            }
        }),
{
    let limit = v.geometry.cluster_count + 2;
    let start = allocation::search_start(v.geometry, preferred) as int;
    if limit <= u32::MAX {
        lemma_first_free(v, media, start, limit);
        lemma_first_free(v, media, 2, start);
    }
}

/// The free clusters among the first `n`.
spec fn free_below(v: Volume, media: Media, n: int) -> Set<int> {
    Set::new(|c: int| 2 <= c < n + 2 && allocation::is_used(v, media, c) == Some(false))
}

/// Used and free clusters are all there are.
proof fn lemma_counted(v: Volume, media: Media, n: nat)
    ensures
        match allocation::used_count(v, media, n) {
            Some(used) => {
                &&& free_below(v, media, n as int).finite()
                &&& used <= n
                &&& free_below(v, media, n as int).len() == n - used
            },
            None => exists|c: int|
                2 <= c < n + 2 && #[trigger] allocation::is_used(v, media, c) is None,
        },
    decreases n,
{
    if n == 0 {
        assert(free_below(v, media, 0) =~= Set::empty());
    } else {
        let p = (n - 1) as nat;
        lemma_counted(v, media, p);
        let before = free_below(v, media, p as int);
        let c = n + 1;
        let used = allocation::is_used(v, media, c as int);
        if used == Some(false) {
            assert(free_below(v, media, n as int) =~= before.insert(c as int));
        } else if used == Some(true) {
            assert(free_below(v, media, n as int) =~= before);
        }
    }
}

/// Counting the free clusters finds as many as there are: the clusters of the
/// heap whose bits are clear. It fails only where a bit cannot be read.
pub proof fn law_free_clusters_are_counted<E>(v: Volume, media: Media)
    ensures
        match allocation::count_result::<E>(v, media) {
            Ok(count) => count == Set::new(
                |c: int|
                    2 <= c < v.geometry.cluster_count + 2 && allocation::is_used(v, media, c)
                        == Some(false),
            ).len(),
            Err(error) => error == Error::<E>::Corrupt && exists|c: int|
                2 <= c < v.geometry.cluster_count + 2 && #[trigger] allocation::is_used(
                    v,
                    media,
                    c,
                ) is None,
        },
{
    let n = v.geometry.cluster_count as nat;
    lemma_counted(v, media, n);
    assert(free_below(v, media, n as int) =~= Set::new(
        |c: int|
            2 <= c < v.geometry.cluster_count + 2 && allocation::is_used(v, media, c) == Some(
                false,
            ),
    ));
}

/// Whether the `wanted` slots from number `i` on are all free: the highest bit of
/// the first byte of each is clear.
pub open spec fn is_room(all: Seq<Slot>, i: int, wanted: int) -> bool {
    &&& 0 <= i
    &&& i + wanted <= all.len()
    &&& forall|j: int| i <= j < i + wanted ==> (#[trigger] all[j]).raw[0] < 128
}

/// A search from slot number `k` on, with the `r` free slots before it.
proof fn lemma_search(all: Seq<Slot>, wanted: nat, k: int, r: nat, run: Seq<EntryLocator>)
    requires
        0 <= k <= all.len(),
        r <= k,
        r < wanted,
        run.len() == r,
        forall|j: int| 0 <= j < r ==> #[trigger] run[j] == all[k - r + j].at,
        is_room(all, k - r, r as int),
        r < k ==> all[k - r - 1].raw[0] >= 128,
        forall|i: int| i + wanted <= k ==> !#[trigger] is_room(all, i, wanted as int),
    ensures
        match space::search(all.skip(k), wanted, run) {
            Search::Found(locs) => exists|i: int|
                {
                    &&& #[trigger] is_room(all, i, wanted as int)
                    &&& forall|h: int| h < i ==> !#[trigger] is_room(all, h, wanted as int)
                    &&& locs.len() == wanted
                    &&& forall|j: int| 0 <= j < wanted ==> #[trigger] locs[j] == all[i + j].at
                },
            Search::Short(rest) => {
                let s = all.len() - rest.len();
                &&& forall|h: int| !#[trigger] is_room(all, h, wanted as int)
                &&& is_room(all, s, rest.len() as int)
                &&& s > 0 ==> all[s - 1].raw[0] >= 128
                &&& forall|j: int| 0 <= j < rest.len() ==> #[trigger] rest[j] == all[s + j].at
            },
        },
    decreases all.len() - k,
{
    let part = all.skip(k);
    if k == all.len() {
        assert forall|h: int| !#[trigger] is_room(all, h, wanted as int) by {
            if h + wanted <= all.len() {
                assert(!is_room(all, h, wanted as int));
            }
        }
    } else {
        assert(part[0] == all[k]);
        assert(part.drop_first() =~= all.skip(k + 1));
        if all[k].raw[0] < 128 {
            let longer = run.push(all[k].at);
            assert forall|j: int| 0 <= j < r + 1 implies #[trigger] longer[j] == all[k + 1 - (r + 1)
                + j].at by {
                if j < r {
                    assert(run[j] == all[k - r + j].at);
                }
            }
            assert(is_room(all, k - r, (r + 1) as int)) by {
                assert forall|j: int| k - r <= j < k - r + (r + 1) implies (#[trigger]
                all[j]).raw[0] < 128 by {
                    if j < k {
                        assert(all[j].raw[0] < 128);
                    }
                }
            }
            if r + 1 == wanted {
                assert forall|h: int| h < k - r implies !#[trigger] is_room(
                    all,
                    h,
                    wanted as int,
                ) by {
                    assert(!is_room(all, h, wanted as int));
                }
                assert(is_room(all, k - r, wanted as int));
            } else {
                assert forall|i: int| i + wanted <= k + 1 implies !#[trigger] is_room(
                    all,
                    i,
                    wanted as int,
                ) by {
                    if i + wanted == k + 1 {
                        assert(i < k - r);
                        assert(all[k - r - 1].raw[0] >= 128 || i < 0);
                    }
                }
                lemma_search(all, wanted, k + 1, r + 1, longer);
            }
        } else {
            assert forall|i: int| i + wanted <= k + 1 implies !#[trigger] is_room(
                all,
                i,
                wanted as int,
            ) by {
                if i + wanted == k + 1 && is_room(all, i, wanted as int) {
                    assert(all[k].raw[0] < 128);
                }
            }
            lemma_search(all, wanted, k + 1, 0, Seq::empty());
        }
    }
}

/// An entry set is put into the first adjacent slots that are free, as many as
/// it needs; where no run of slots is long enough, the free slots at the end are
/// those that a longer directory adds to.
pub proof fn law_first_room_is_taken(all: Seq<Slot>, wanted: nat)
    requires
        wanted > 0,
    ensures
        match space::search(all, wanted, Seq::empty()) {
            Search::Found(locs) => exists|i: int|
                {
                    &&& #[trigger] is_room(all, i, wanted as int)
                    &&& forall|h: int| h < i ==> !#[trigger] is_room(all, h, wanted as int)
                    &&& locs.len() == wanted
                    &&& forall|j: int| 0 <= j < wanted ==> #[trigger] locs[j] == all[i + j].at
                },
            Search::Short(rest) => {
                let s = all.len() - rest.len();
                &&& forall|h: int| !#[trigger] is_room(all, h, wanted as int)
                &&& is_room(all, s, rest.len() as int)
                &&& s > 0 ==> all[s - 1].raw[0] >= 128
                &&& forall|j: int| 0 <= j < rest.len() ==> #[trigger] rest[j] == all[s + j].at
            },
        },
{
    assert(all.skip(0) =~= all);
    lemma_search(all, wanted, 0, 0, Seq::empty());
}

/// A full directory sector has no end mark: each slot that was never used starts
/// with byte 128, and every other byte is as it was.
pub proof fn law_end_marks_are_filled(sector: Seq<u8>, i: int)
    requires
        sector.len() % 32 == 0,
        0 <= i < sector.len(),
    ensures
        space::filled_up(sector).len() == sector.len(),
        i % 32 == 0 && sector[i] == 0 ==> space::filled_up(sector)[i] == 128,
        i % 32 != 0 || sector[i] != 0 ==> space::filled_up(sector)[i] == sector[i],
{
}

} // verus!
