//! The mounted filesystem, and how its operations are described: by the sector
//! writes that they carry out, the free-cluster count that they leave, and the
//! answer that they give.

use crate::device;
use crate::device::{BlockDevice, Media, SectorWrite};
use crate::error::Error;
use crate::mount::Volume;
use vstd::prelude::*;

verus! {

/// A mounted filesystem which owns its block device, but never an implicit
/// cache or scratch buffer. Callers keep sector-sized scratch storage where
/// their execution model permits it.
pub struct FileSystem<D> {
    /// The block device.
    pub device: D,
    /// Metadata of the mounted volume.
    pub volume: Volume,
    /// Clusters that the allocation bitmap marks as free, as far as known.
    pub free_clusters: u32,
}

impl<D: BlockDevice> FileSystem<D> {
    /// What every mounted filesystem has.
    pub open spec fn wf(self) -> bool {
        &&& self.volume.wf()
        &&& self.device.sector_bytes() == self.volume.geometry.bytes_per_sector
        &&& self.free_clusters <= self.volume.geometry.cluster_count
    }

    /// What the device stores.
    pub open spec fn media(self) -> Media {
        self.device.media()
    }
}

/// What an operation does when no device error stops it.
#[verifier::ext_equal]
pub struct Plan<T, E> {
    /// The sector writes that it carries out, in order.
    pub writes: Seq<SectorWrite>,
    /// The free-cluster count once each of them was carried out.
    pub counts: Seq<u32>,
    /// The free-cluster count that it leaves.
    pub free: u32,
    /// Its answer.
    pub result: Result<T, Error<E>>,
}

impl<T, E> Plan<T, E> {
    /// Answer without writing.
    pub open spec fn answer(free: u32, result: Result<T, Error<E>>) -> Self {
        Plan { writes: Seq::empty(), counts: Seq::empty(), free, result }
    }

    /// Go on with `next`, unless this plan fails.
    pub open spec fn and<U>(self, next: Plan<U, E>) -> Plan<U, E> {
        match self.result {
            Ok(_) => Plan {
                writes: self.writes + next.writes,
                counts: self.counts + next.counts,
                free: next.free,
                result: next.result,
            },
            Err(error) => Plan {
                writes: self.writes,
                counts: self.counts,
                free: self.free,
                result: Err(error),
            },
        }
    }

    /// A plan that makes one write, behind which `free` clusters are free.
    pub open spec fn write(free: u32, write: SectorWrite, result: Result<T, Error<E>>) -> Self {
        Plan { writes: seq![write], counts: seq![free], free, result }
    }

    /// The media that the plan leaves.
    pub open spec fn leaves(self, media: Media) -> Media {
        device::applied(media, self.writes)
    }
}

/// Whether `after` is the same filesystem as `before`, by device size and
/// volume.
pub open spec fn same_volume<D: BlockDevice>(before: FileSystem<D>, after: FileSystem<D>) -> bool {
    &&& after.volume == before.volume
    &&& device::same_shape(before.device, after.device)
}

/// What a filesystem operation that only reads promises: it changes neither
/// media nor state, flushes nothing, hands an error of the device on, and
/// without one answers `expected`.
pub open spec fn answers<D: BlockDevice, T>(
    before: FileSystem<D>,
    after: FileSystem<D>,
    result: Result<T, Error<D::Error>>,
    expected: Result<T, Error<D::Error>>,
) -> bool {
    &&& after.device.stable() == before.device.stable()
    &&& replies(before, after, result, expected)
}

/// What a filesystem operation that writes nothing, but may flush, promises.
pub open spec fn replies<D: BlockDevice, T>(
    before: FileSystem<D>,
    after: FileSystem<D>,
    result: Result<T, Error<D::Error>>,
    expected: Result<T, Error<D::Error>>,
) -> bool {
    &&& after.volume == before.volume
    &&& after.free_clusters == before.free_clusters
    &&& device::replies(before.device, after.device, result, expected)
}

/// What a filesystem operation that writes promises: without an error of the
/// device it does exactly what `plan` says; on the first error of the device
/// it stops and hands the error on, and media and free-cluster count are what
/// the writes of the plan up to there left.
pub open spec fn performs<D: BlockDevice, T>(
    before: FileSystem<D>,
    after: FileSystem<D>,
    result: Result<T, Error<D::Error>>,
    plan: Plan<T, D::Error>,
) -> bool {
    &&& same_volume(before, after)
    &&& after.free_clusters <= after.volume.geometry.cluster_count
    &&& match result {
        Err(Error::Device(error)) => {
            &&& after.device.failures() == before.device.failures().push(error)
            &&& is_stopped(
                plan.writes,
                plan.counts,
                before.media(),
                before.free_clusters,
                after.media(),
                after.free_clusters,
            )
        },
        _ => {
            &&& after.device.failures() == before.device.failures()
            &&& after.media() == plan.leaves(before.media())
            &&& after.free_clusters == plan.free
            &&& result == plan.result
            &&& plan.counts.len() == plan.writes.len()
            &&& plan.free == count_at(
                plan.counts,
                before.free_clusters,
                plan.writes.len() as int,
            )
        },
    }
}

/// The free-cluster count once the first `k` of some writes were carried out,
/// where it was `free` at first.
pub open spec fn count_at(counts: Seq<u32>, free: u32, k: int) -> u32 {
    if k <= 0 {
        free
    } else {
        counts[k - 1]
    }
}

/// Whether `media2` and `free2` are left when `writes`, with the free-cluster
/// counts behind them, were started on `media` and `free` and stopped after `k`
/// of them.
pub open spec fn is_stopped_at(
    writes: Seq<SectorWrite>,
    counts: Seq<u32>,
    media: Media,
    free: u32,
    media2: Media,
    free2: u32,
    k: int,
) -> bool {
    &&& 0 <= k <= writes.len()
    &&& k <= counts.len()
    &&& device::stopped_at(media, media2, writes, k)
    &&& free2 == count_at(counts, free, k)
}

/// Whether `media2` and `free2` are left when `writes`, with the free-cluster
/// counts behind them, were started on `media` and `free` and stopped somewhere
/// on the way.
pub open spec fn is_stopped(
    writes: Seq<SectorWrite>,
    counts: Seq<u32>,
    media: Media,
    free: u32,
    media2: Media,
    free2: u32,
) -> bool {
    exists|k: int| #[trigger] is_stopped_at(writes, counts, media, free, media2, free2, k)
}

/// A read is a plan without writes.
pub proof fn lemma_answer<D: BlockDevice, T>(
    before: FileSystem<D>,
    after: FileSystem<D>,
    result: Result<T, Error<D::Error>>,
    expected: Result<T, Error<D::Error>>,
)
    requires
        before.wf(),
        replies(before, after, result, expected),
    ensures
        performs(before, after, result, Plan::answer(before.free_clusters, expected)),
{
    let plan = Plan::<T, D::Error>::answer(before.free_clusters, expected);
    assert(plan.writes.take(0) =~= Seq::empty());
    assert(device::applied(before.media(), plan.writes) == before.media());
    if result matches Err(Error::Device(_)) {
        assert(is_stopped_at(
            plan.writes,
            plan.counts,
            before.media(),
            before.free_clusters,
            after.media(),
            after.free_clusters,
            0,
        ));
    }
}

/// A read that the device stopped leaves any plan interrupted at its start.
pub proof fn lemma_read_failed<D: BlockDevice, T, U>(
    before: FileSystem<D>,
    after: FileSystem<D>,
    failed: Result<T, Error<D::Error>>,
    expected: Result<T, Error<D::Error>>,
    result: Result<U, Error<D::Error>>,
    plan: Plan<U, D::Error>,
)
    requires
        before.wf(),
        replies(before, after, failed, expected),
        failed matches Err(Error::Device(error)) && result == Err::<U, Error<D::Error>>(
            Error::Device(error),
        ),
    ensures
        performs(before, after, result, plan),
{
    assert(plan.writes.take(0) =~= Seq::empty());
    assert(device::applied(before.media(), plan.writes.take(0)) == before.media());
    assert(is_stopped_at(
            plan.writes,
            plan.counts,
            before.media(),
            before.free_clusters,
            after.media(),
            after.free_clusters,
            0,
        ));
}

/// A plan whose first part fails fails as that part does.
pub proof fn lemma_and_fails<D: BlockDevice, T, U>(
    before: FileSystem<D>,
    after: FileSystem<D>,
    failed: Result<T, Error<D::Error>>,
    first: Plan<T, D::Error>,
    result: Result<U, Error<D::Error>>,
    next: Plan<U, D::Error>,
)
    requires
        performs(before, after, failed, first),
        failed matches Err(error) && result == Err::<U, Error<D::Error>>(error),
    ensures
        performs(before, after, result, first.and(next)),
{
    let error = failed->Err_0;
    if error is Device {
        let k = choose|k: int| #[trigger] is_stopped_at(
            first.writes,
            first.counts,
            before.media(),
            before.free_clusters,
            after.media(),
            after.free_clusters,
            k,
        );
        assert(first.and(next).writes.take(k) =~= first.writes.take(k));
        assert(is_stopped_at(
            first.and(next).writes,
            first.and(next).counts,
            before.media(),
            before.free_clusters,
            after.media(),
            after.free_clusters,
            k,
        ));
    }
}

/// A plan whose first part succeeds goes on with its second.
pub proof fn lemma_and_succeeds<D: BlockDevice, T, U>(
    before: FileSystem<D>,
    middle: FileSystem<D>,
    after: FileSystem<D>,
    value: Result<T, Error<D::Error>>,
    first: Plan<T, D::Error>,
    result: Result<U, Error<D::Error>>,
    next: Plan<U, D::Error>,
)
    requires
        performs(before, middle, value, first),
        value is Ok,
        performs(middle, after, result, next),
    ensures
        performs(before, after, result, first.and(next)),
{
    device::lemma_applied_concat(before.media(), first.writes, next.writes);
    match result {
        Err(Error::Device(_)) => {
            let all = first.and(next);
            let k = choose|k: int| #[trigger] is_stopped_at(
            next.writes,
            next.counts,
            middle.media(),
            middle.free_clusters,
            after.media(),
            after.free_clusters,
            k,
        );
            let n = first.writes.len() + k;
            assert(all.writes.take(n) =~= first.writes + next.writes.take(k));
            device::lemma_applied_concat(before.media(), first.writes, next.writes.take(k));
            if k < next.writes.len() {
                assert(all.writes[n] == next.writes[k]);
            }
            assert(is_stopped_at(
            all.writes,
            all.counts,
            before.media(),
            before.free_clusters,
            after.media(),
            after.free_clusters,
            n,
        ));
        },
        _ => {},
    }
}

/// A plan that is stopped right behind `finished`, at the first write of `rest`
/// or before it.
pub proof fn lemma_stopped_behind<D: BlockDevice, T, U>(
    before: FileSystem<D>,
    reached: FileSystem<D>,
    after: FileSystem<D>,
    finished: Plan<T, D::Error>,
    rest: Plan<U, D::Error>,
)
    requires
        finished.result is Ok,
        performs(before, reached, finished.result, finished),
        after.free_clusters == reached.free_clusters,
        after.media() == reached.media() || rest.writes.len() > 0 && after.media().remove(
            rest.writes[0].lba,
        ) == reached.media().remove(rest.writes[0].lba),
    ensures
        is_stopped_at(
            finished.and(rest).writes,
            finished.and(rest).counts,
            before.media(),
            before.free_clusters,
            after.media(),
            after.free_clusters,
            finished.writes.len() as int,
        ),
        device::applied(
            before.media(),
            finished.and(rest).writes.take(finished.writes.len() as int),
        ) == reached.media(),
{
    let all = finished.and(rest);
    let k = finished.writes.len() as int;
    assert(all.writes.take(k) =~= finished.writes);
    if k > 0 {
        assert(all.counts[k - 1] == finished.counts[k - 1]);
    }
    if rest.writes.len() > 0 {
        assert(all.writes[k] == rest.writes[0]);
    }
}

/// How plans are grouped makes no difference.
pub proof fn lemma_and_assoc<T, U, V, E>(
    first: Plan<T, E>,
    second: Plan<U, E>,
    third: Plan<V, E>,
)
    ensures
        first.and(second).and(third) == first.and(second.and(third)),
{
    assert(first.and(second).and(third) =~= first.and(second.and(third)));
}

/// One step of a plan, after `done` and before `rest`: the step extends what
/// is done, and where it fails the whole plan has failed as it did.
pub proof fn lemma_step<D: BlockDevice, T, U, V>(
    before: FileSystem<D>,
    middle: FileSystem<D>,
    after: FileSystem<D>,
    done: Plan<T, D::Error>,
    value: Result<T, Error<D::Error>>,
    step: Plan<U, D::Error>,
    result: Result<U, Error<D::Error>>,
    rest: Plan<V, D::Error>,
)
    requires
        performs(before, middle, value, done),
        value is Ok,
        performs(middle, after, result, step),
    ensures
        performs(before, after, result, done.and(step)),
        done.and(step).and(rest) == done.and(step.and(rest)),
        result matches Err(error) ==> performs(
            before,
            after,
            Err::<V, Error<D::Error>>(error),
            done.and(step.and(rest)),
        ),
{
    lemma_and_succeeds(before, middle, after, value, done, result, step);
    lemma_and_assoc(done, step, rest);
    if let Err(error) = result {
        lemma_and_fails(
            before,
            after,
            result,
            done.and(step),
            Err::<V, Error<D::Error>>(error),
            rest,
        );
    }
}

/// A read within a plan, after `done` and before `rest`.
pub proof fn lemma_read_within<D: BlockDevice, T, U, V>(
    before: FileSystem<D>,
    middle: FileSystem<D>,
    after: FileSystem<D>,
    done: Plan<T, D::Error>,
    value: Result<T, Error<D::Error>>,
    expected: Result<U, Error<D::Error>>,
    result: Result<U, Error<D::Error>>,
    rest: Plan<V, D::Error>,
)
    requires
        performs(before, middle, value, done),
        value is Ok,
        middle.wf(),
        replies(middle, after, result, expected),
    ensures
        result matches Err(Error::Device(error)) ==> performs(
            before,
            after,
            Err::<V, Error<D::Error>>(Error::Device(error)),
            done.and(rest),
        ),
        !(result matches Err(Error::Device(_))) ==> performs(before, after, value, done),
        result matches Err(error) ==> !(error is Device) && rest == Plan::<V, D::Error>::answer(
            middle.free_clusters,
            Err(error),
        ) ==> performs(before, after, Err::<V, Error<D::Error>>(error), done.and(rest)),
{
    match result {
        Err(Error::Device(error)) => {
            let failed = Err::<V, Error<D::Error>>(Error::Device(error));
            lemma_read_failed(middle, after, result, expected, failed, rest);
            lemma_and_succeeds(before, middle, after, value, done, failed, rest);
        },
        Err(error) => {
            let failed = Err::<V, Error<D::Error>>(error);
            lemma_answer(middle, after, failed, failed);
            if rest == Plan::<V, D::Error>::answer(middle.free_clusters, failed) {
                lemma_and_succeeds(before, middle, after, value, done, failed, rest);
            }
        },
        Ok(_) => {},
    }
}

/// The first step of a plan: where it fails the whole plan has failed as it
/// did.
pub proof fn lemma_first_step<D: BlockDevice, U, V>(
    before: FileSystem<D>,
    after: FileSystem<D>,
    step: Plan<U, D::Error>,
    result: Result<U, Error<D::Error>>,
    rest: Plan<V, D::Error>,
)
    requires
        performs(before, after, result, step),
    ensures
        result matches Err(error) ==> performs(
            before,
            after,
            Err::<V, Error<D::Error>>(error),
            step.and(rest),
        ),
{
    if let Err(error) = result {
        lemma_and_fails(before, after, result, step, Err::<V, Error<D::Error>>(error), rest);
    }
}

} // verus!
