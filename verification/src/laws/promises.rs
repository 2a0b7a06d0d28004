//! What the contracts of the operations come to.

use crate::device;
use crate::device::{BlockDevice, Media, SectorWrite};
use crate::error;
use crate::error::Error;
use crate::fs::allocation;
use crate::fs::state;
use crate::fs::state::{FileSystem, Plan};
use crate::laws::choosing;
use vstd::prelude::*;

verus! {

/// A run of writes leaves in every sector what the last write to it put there,
/// and in every other sector what was there before.
pub proof fn law_last_write_counts(media: Media, writes: Seq<SectorWrite>, lba: u64, k: int)
    requires
        0 <= k < writes.len(),
        writes[k].lba == lba,
        forall|j: int| k < j < writes.len() ==> (#[trigger] writes[j]).lba != lba,
    ensures
        device::applied(media, writes)[lba] == writes[k].data,
{
    device::lemma_applied_last(media, writes, k);
}

/// A sector that no write of a run names stays as it was.
pub proof fn law_unnamed_sectors_stay(media: Media, writes: Seq<SectorWrite>, lba: u64)
    requires
        forall|j: int| 0 <= j < writes.len() ==> (#[trigger] writes[j]).lba != lba,
    ensures
        device::applied(media, writes)[lba] == media[lba],
{
    device::lemma_applied_untouched(media, writes, lba);
}

/// An operation that keeps to its plan leaves the media that the plan's writes
/// leave and answers what the plan answers, unless the device reports an error:
/// then that error is the answer, the writes before some point have landed, and
/// of the others at most the sector of the next one has changed. The count of free
/// clusters is then the one behind the last write that has landed.
pub proof fn law_operations_keep_to_their_plan<D: BlockDevice, T>(
    before: FileSystem<D>,
    after: FileSystem<D>,
    result: Result<T, Error<D::Error>>,
    plan: Plan<T, D::Error>,
)
    requires
        state::performs(before, after, result, plan),
    ensures
        after.volume == before.volume,
        match result {
            Err(Error::Device(error)) => {
                &&& after.device.failures() == before.device.failures().push(error)
                &&& exists|k: int|
                    {
                        &&& 0 <= k <= plan.writes.len()
                        &&& forall|lba: u64|
                            k == plan.writes.len() || lba != plan.writes[k].lba
                                ==> #[trigger] after.device.media()[lba] == device::applied(
                                before.device.media(),
                                #[trigger] plan.writes.take(k),
                            )[lba]
                        &&& after.free_clusters == if k == 0 {
                            before.free_clusters
                        } else {
                            plan.counts[k - 1]
                        }
                    }
            },
            _ => {
                &&& after.device.failures() == before.device.failures()
                &&& after.device.media() == device::applied(before.device.media(), plan.writes)
                &&& after.free_clusters == plan.free
                &&& result == plan.result
            },
        },
{
    if let Err(Error::Device(error)) = result {
        let k = choose|k: int| #[trigger]
            state::is_stopped_at(
                plan.writes,
                plan.counts,
                before.media(),
                before.free_clusters,
                after.media(),
                after.free_clusters,
                k,
            );
        let reached = device::applied(before.device.media(), plan.writes.take(k));
        assert forall|lba: u64|
            k == plan.writes.len() || lba != plan.writes[k].lba implies #[trigger] after.device.media()[lba]
            == reached[lba] by {
            if after.device.media() != reached {
                let at = plan.writes[k].lba;
                assert(after.device.media().remove(at)[lba] == reached.remove(at)[lba]);
            }
        }
    }
}

/// An operation that only reads leaves media and state as they were, and answers
/// what it is to answer unless the device reports an error.
pub proof fn law_reading_changes_nothing<D: BlockDevice, T>(
    before: FileSystem<D>,
    after: FileSystem<D>,
    result: Result<T, Error<D::Error>>,
    expected: Result<T, Error<D::Error>>,
)
    requires
        state::answers(before, after, result, expected),
    ensures
        after.volume == before.volume,
        after.free_clusters == before.free_clusters,
        after.device.media() == before.device.media(),
        after.device.stable() == before.device.stable(),
        match result {
            Err(Error::Device(error)) => after.device.failures()
                == before.device.failures().push(error),
            _ => result == expected && after.device.failures() == before.device.failures(),
        },
{
}

/// One plan after another: the second is carried out where the first succeeds,
/// and gives the answer then; where the first fails, nothing of the second is
/// done.
pub proof fn law_plans_follow_each_other<T, U, E>(
    first: Plan<T, E>,
    second: Plan<U, E>,
    media: Media,
)
    ensures
        first.result is Ok ==> {
            &&& first.and(second).leaves(media) == second.leaves(first.leaves(media))
            &&& first.and(second).result == second.result
            &&& first.and(second).free == second.free
            &&& first.and(second).counts == first.counts + second.counts
        },
        first.result is Err ==> {
            &&& first.and(second).leaves(media) == first.leaves(media)
            &&& first.and(second).result is Err
            &&& first.and(second).result->Err_0 == first.result->Err_0
            &&& first.and(second).free == first.free
            &&& first.and(second).counts == first.counts
        },
{
    device::lemma_applied_concat(media, first.writes, second.writes);
}

/// An operation on a bare device that keeps to its writes leaves what they leave
/// and answers what it is to answer, unless the device reports an error: then that
/// error is the answer, the writes before some point have landed, and of the
/// others at most the sector of the next one has changed.
pub proof fn law_device_operations_keep_to_their_writes<D: BlockDevice, T>(
    before: D,
    after: D,
    result: Result<T, Error<D::Error>>,
    writes: Seq<SectorWrite>,
    expected: Result<T, Error<D::Error>>,
)
    requires
        device::performs(before, after, result, writes, expected),
    ensures
        after.sector_bytes() == before.sector_bytes(),
        after.sector_total() == before.sector_total(),
        match result {
            Err(Error::Device(error)) => {
                &&& after.failures() == before.failures().push(error)
                &&& exists|k: int|
                    {
                        &&& 0 <= k <= writes.len()
                        &&& forall|lba: u64|
                            k == writes.len() || lba != writes[k].lba ==> #[trigger] after.media()[lba]
                                == device::applied(before.media(), #[trigger] writes.take(k))[lba]
                    }
            },
            _ => {
                &&& after.failures() == before.failures()
                &&& after.media() == device::applied(before.media(), writes)
                &&& result == expected
            },
        },
{
    if let Err(Error::Device(error)) = result {
        let k = choose|k: int|
            0 <= k <= writes.len() && #[trigger] device::stopped_at(
                before.media(),
                after.media(),
                writes,
                k,
            );
        let reached = device::applied(before.media(), writes.take(k));
        assert forall|lba: u64| k == writes.len() || lba != writes[k].lba implies #[trigger]
            after.media()[lba] == reached[lba] by {
            if after.media() != reached {
                let at = writes[k].lba;
                assert(after.media().remove(at)[lba] == reached.remove(at)[lba]);
            }
        }
    }
}

/// What is damaged is reported as such, and what is not is handed on.
pub proof fn law_damage_is_reported<T, E>(found: Option<T>)
    ensures
        match found {
            Some(value) => error::or_corrupt::<T, E>(found) == Ok::<T, Error<E>>(value),
            None => error::or_corrupt::<T, E>(found) == Err::<T, Error<E>>(Error::Corrupt),
        },
{
}

/// Counting the free clusters anew changes nothing but the count, which is then
/// the number of clusters whose bits are clear; where it fails, the count stays.
pub proof fn law_recounting_finds_the_free_clusters<D: BlockDevice>(
    before: FileSystem<D>,
    after: FileSystem<D>,
    result: Result<(), Error<D::Error>>,
)
    requires
        allocation::refreshes(before, after, result),
    ensures
        after.volume == before.volume,
        after.device.media() == before.device.media(),
        after.device.stable() == before.device.stable(),
        match result {
            Ok(()) => after.free_clusters == Set::new(
                |c: int|
                    2 <= c < before.volume.geometry.cluster_count + 2 && allocation::is_used(
                        before.volume,
                        before.device.media(),
                        c,
                    ) == Some(false),
            ).len(),
            Err(_) => after.free_clusters == before.free_clusters,
        },
{
    choosing::law_free_clusters_are_counted::<D::Error>(before.volume, before.device.media());
}

} // verus!
