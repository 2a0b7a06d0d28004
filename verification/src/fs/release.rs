//! Giving clusters back: shortening files and releasing removed streams.

use crate::arith;
use crate::device::{BlockDevice, Media, Scratch};
use crate::directory::entry::{DirectoryEntry, EntryModel};
use crate::error;
use crate::error::Error;
use crate::fs::allocation;
use crate::fs::file::{File, FileModel};
use crate::fs::metadata;
use crate::fs::state;
use crate::fs::state::{FileSystem, Plan};
use crate::geometry::Geometry;
use crate::mount::Volume;
use vstd::prelude::*;

verus! {

/// Number of clusters that `length` bytes take.
pub open spec fn clusters_for(g: Geometry, length: int) -> int {
    if length == 0 {
        0
    } else {
        (length - 1) / g.cluster_bytes() + 1
    }
}

/// What giving one cluster back does: clear its FAT entry, then mark it as
/// free.
pub open spec fn free_plan<E>(v: Volume, media: Media, free: u32, cluster: u32) -> Plan<(), E> {
    let clear = allocation::set_fat_plan::<E>(v, media, free, cluster, 0);
    clear.and(allocation::set_bitmap_plan(v, clear.leaves(media), free, cluster, false))
}

/// The cluster behind `cluster` in a stream.
pub open spec fn successor(g: Geometry, media: Media, contiguous: bool, cluster: u32) -> Option<u32> {
    if contiguous {
        if cluster < u32::MAX {
            Some((cluster + 1) as u32)
        } else {
            None
        }
    } else {
        allocation::next_of(g, media, cluster)
    }
}

/// What giving back `count` clusters of a stream, from `cluster` on, does.
pub open spec fn free_run_plan<E>(
    v: Volume,
    media: Media,
    free: u32,
    contiguous: bool,
    cluster: u32,
    count: nat,
) -> Plan<(), E>
    decreases count,
{
    if count == 0 {
        Plan::answer(free, Ok(()))
    } else {
        match successor(v.geometry, media, contiguous, cluster) {
            None => Plan::answer(free, Err(Error::Corrupt)),
            Some(next) => {
                let give = free_plan::<E>(v, media, free, cluster);
                give.and(
                    free_run_plan(
                        v,
                        give.leaves(media),
                        give.free,
                        contiguous,
                        next,
                        (count - 1) as nat,
                    ),
                )
            },
        }
    }
}

/// The last of the first `keep` clusters of a file.
pub open spec fn kept_tail(g: Geometry, media: Media, f: FileModel, keep: int) -> Option<u32> {
    if f.no_fat_chain {
        if f.first_cluster + keep <= u32::MAX {
            Some((f.first_cluster + keep - 1) as u32)
        } else {
            None
        }
    } else {
        allocation::cluster_of(g, media, f.first_cluster, keep - 1)
    }
}

/// What giving back all but the first `keep` of a file's `allocated` clusters
/// does.
pub open spec fn shrink_plan<E>(
    v: Volume,
    media: Media,
    free: u32,
    f: FileModel,
    keep: int,
    allocated: int,
) -> Plan<(), E> {
    let g = v.geometry;
    if keep >= allocated {
        Plan::answer(free, Ok(()))
    } else if keep == 0 {
        free_run_plan(v, media, free, f.no_fat_chain, f.first_cluster, allocated as nat)
    } else {
        match kept_tail(g, media, f, keep) {
            None => Plan::answer(free, Err(Error::Corrupt)),
            Some(last) => match successor(g, media, f.no_fat_chain, last) {
                None => Plan::answer(free, Err(Error::Corrupt)),
                Some(next) => {
                    let end = allocation::set_fat_plan::<E>(v, media, free, last, 0xffff_ffff);
                    end.and(
                        free_run_plan(
                            v,
                            end.leaves(media),
                            free,
                            f.no_fat_chain,
                            next,
                            (allocated - keep) as nat,
                        ),
                    )
                },
            },
        }
    }
}

/// The handle of a file that was shortened to `len` bytes.
pub open spec fn truncated(g: Geometry, f: FileModel, len: u64) -> FileModel {
    let keep = clusters_for(g, len as int);
    let shrunk = if keep < clusters_for(g, f.data_length as int) {
        FileModel {
            first_cluster: if keep == 0 {
                0
            } else {
                f.first_cluster
            },
            data_length: (keep * g.cluster_bytes()) as u64,
            cache: None,
            ..f
        }
    } else {
        FileModel {
            cache: match f.cache {
                Some((index, cluster)) => if index < keep {
                    Some((index, cluster))
                } else {
                    None
                },
                None => None,
            },
            ..f
        }
    };
    FileModel {
        valid_length: len,
        position: if f.position < len {
            f.position
        } else {
            len
        },
        ..shrunk
    }
}

/// What shortening a file to `len` bytes does: give clusters back, then record
/// the new length.
pub open spec fn truncate_plan<E>(v: Volume, media: Media, free: u32, f: FileModel, len: u64) -> Plan<
    (),
    E,
> {
    let g = v.geometry;
    if len > f.valid_length {
        Plan::answer(free, Err(Error::EndOfFile))
    } else {
        let shrink = shrink_plan::<E>(
            v,
            media,
            free,
            f,
            clusters_for(g, len as int),
            clusters_for(g, f.data_length as int),
        );
        shrink.and(
            metadata::update_plan(v, shrink.leaves(media), shrink.free, truncated(g, f, len)),
        )
    }
}

/// Whether giving back the clusters that a file needs no more once it is `len`
/// bytes long left `after` and came to `freed`.
pub open spec fn is_shrunk<D: BlockDevice>(
    before: FileSystem<D>,
    after: FileSystem<D>,
    f: FileModel,
    len: u64,
    freed: Result<(), Error<D::Error>>,
) -> bool {
    let g = before.volume.geometry;
    state::performs(
        before,
        after,
        freed,
        shrink_plan(
            before.volume,
            before.media(),
            before.free_clusters,
            f,
            clusters_for(g, len as int),
            clusters_for(g, f.data_length as int),
        ),
    )
}

/// Whether shortening a file to `len` bytes left `after` and the handle `now`,
/// and came to `result`: where giving clusters back failed, the handle is as it
/// was; otherwise it is the shorter one, also where its new length could not be
/// recorded.
pub open spec fn shortens<D: BlockDevice>(
    before: FileSystem<D>,
    after: FileSystem<D>,
    f: FileModel,
    now: FileModel,
    len: u64,
    result: Result<(), Error<D::Error>>,
) -> bool {
    exists|middle: FileSystem<D>, freed: Result<(), Error<D::Error>>|
        {
            &&& #[trigger] is_shrunk(before, middle, f, len, freed)
            &&& match freed {
                Err(_) => result == freed && after == middle && now == f,
                Ok(()) => {
                    let short = truncated(before.volume.geometry, f, len);
                    &&& now == short
                    &&& state::performs(
                        middle,
                        after,
                        result,
                        metadata::update_plan(
                            before.volume,
                            middle.media(),
                            middle.free_clusters,
                            short,
                        ),
                    )
                },
            }
        }
}

/// What releasing `count` clusters of a removed stream, from `cluster` on,
/// does.
pub open spec fn release_run_plan<E>(
    v: Volume,
    media: Media,
    free: u32,
    contiguous: bool,
    cluster: u32,
    count: nat,
) -> Plan<(), E>
    decreases count,
{
    let give = free_plan::<E>(v, media, free, cluster);
    let next = successor(v.geometry, media, contiguous, cluster);
    if count == 0 {
        Plan::answer(free, Ok(()))
    } else if count == 1 {
        give
    } else if next is None {
        Plan::answer(free, Err(Error::Corrupt))
    } else if !v.geometry.in_heap(next->0) {
        give.and(Plan::answer(give.free, Err(Error::Corrupt)))
    } else {
        give.and(
            release_run_plan(
                v,
                give.leaves(media),
                give.free,
                contiguous,
                next->0,
                (count - 1) as nat,
            ),
        )
    }
}

/// What releasing the clusters of a removed file or directory does.
pub open spec fn release_plan<E>(v: Volume, media: Media, free: u32, entry: EntryModel) -> Plan<
    (),
    E,
> {
    if entry.first_cluster < 2 || entry.data_length == 0 {
        Plan::answer(free, Ok(()))
    } else {
        release_run_plan(
            v,
            media,
            free,
            entry.no_fat_chain,
            entry.first_cluster,
            clusters_for(v.geometry, entry.data_length as int) as nat,
        )
    }
}

/// Facts about how many clusters a length takes.
pub proof fn lemma_clusters(g: Geometry, length: int)
    requires
        g.wf(),
        0 <= length <= u64::MAX,
    ensures
        0 <= clusters_for(g, length) <= length,
        g.cluster_bytes() > 0,
        length > 0 ==> clusters_for(g, length) >= 1,
        length <= clusters_for(g, length) * g.cluster_bytes(),
        length > 0 ==> (clusters_for(g, length) - 1) * g.cluster_bytes() < length,
{
    let cb = g.cluster_bytes();
    arith::lemma_stream_offset(0, g.bytes_per_sector as int, g.sectors_per_cluster as int);
    if length > 0 {
        let q = (length - 1) / cb;
        vstd::arithmetic::div_mod::lemma_fundamental_div_mod(length - 1, cb);
        vstd::arithmetic::div_mod::lemma_div_is_ordered_by_denominator(length - 1, 1, cb);
        vstd::arithmetic::div_mod::lemma_div_pos_is_pos(length - 1, cb);
        assert((q + 1) * cb == cb * q + cb) by (nonlinear_arith);
        assert(q * cb == cb * q) by (nonlinear_arith);
    }
}

impl<D: BlockDevice> FileSystem<D> {
    /// Give one cluster back.
    pub fn free_cluster(&mut self, cluster: u32, scratch: &mut Scratch<'_>) -> (result: Result<
        (),
        Error<D::Error>,
    >)
        requires
            old(self).wf(),
            old(scratch)@.len() >= old(self).volume.geometry.bytes_per_sector,
        ensures
            final(self).wf(),
            final(scratch)@.len() == old(scratch)@.len(),
            state::performs(
                *old(self),
                *final(self),
                result,
                free_plan(
                    old(self).volume,
                    old(self).media(),
                    old(self).free_clusters,
                    cluster,
                ),
            ),
    {
        let ghost before = *self;
        let ghost clear = allocation::set_fat_plan::<D::Error>(
            self.volume,
            self.media(),
            self.free_clusters,
            cluster,
            0,
        );
        let ghost unmark = allocation::set_bitmap_plan::<D::Error>(
            self.volume,
            clear.leaves(self.media()),
            self.free_clusters,
            cluster,
            false,
        );
        let cleared = self.set_fat(cluster, 0, scratch);
        let ghost s1 = *self;
        proof {
            state::lemma_first_step(before, s1, clear, cleared, unmark);
        }
        match cleared {
            Ok(()) => {},
            Err(error) => return Err(error),
        }
        let unmarked = self.set_bitmap(cluster, false, scratch);
        proof {
            state::lemma_and_succeeds(before, s1, *self, cleared, clear, unmarked, unmark);
        }
        unmarked
    }

    /// Find the cluster behind `cluster` in a stream.
    fn successor_of(&mut self, contiguous: bool, cluster: u32, scratch: &mut Scratch<'_>) -> (
    result: Result<u32, Error<D::Error>>)
        requires
            old(self).wf(),
            old(scratch)@.len() >= old(self).volume.geometry.bytes_per_sector,
        ensures
            final(self).wf(),
            final(scratch)@.len() == old(scratch)@.len(),
            state::answers(
                *old(self),
                *final(self),
                result,
                error::or_corrupt(
                    successor(
                        old(self).volume.geometry,
                        old(self).media(),
                        contiguous,
                        cluster,
                    ),
                ),
            ),
    {
        if contiguous {
            match cluster.checked_add(1) {
                Some(next) => Ok(next),
                None => Err(Error::Corrupt),
            }
        } else {
            self.next_cluster(cluster, scratch)
        }
    }

    /// Give back `count` clusters of a stream, from `first` on.
    fn free_run(
        &mut self,
        contiguous: bool,
        first: u32,
        count: u64,
        scratch: &mut Scratch<'_>,
    ) -> (result: Result<(), Error<D::Error>>)
        requires
            old(self).wf(),
            old(scratch)@.len() >= old(self).volume.geometry.bytes_per_sector,
        ensures
            final(self).wf(),
            final(scratch)@.len() == old(scratch)@.len(),
            state::performs(
                *old(self),
                *final(self),
                result,
                free_run_plan(
                    old(self).volume,
                    old(self).media(),
                    old(self).free_clusters,
                    contiguous,
                    first,
                    count as nat,
                ),
            ),
    {
        let ghost before = *self;
        let ghost v = self.volume;
        let ghost free = self.free_clusters;
        let ghost plan = free_run_plan::<D::Error>(
            v,
            self.media(),
            free,
            contiguous,
            first,
            count as nat,
        );
        let ghost mut done = Plan::<(), D::Error>::answer(free, Ok(()));
        proof {
            state::lemma_answer(before, before, Ok::<(), Error<D::Error>>(()), Ok(()));
            assert(done.and(plan) =~= plan);
        }
        let mut cluster: u32 = first;
        let mut left: u64 = count;
        while left > 0
            invariant
                self.wf(),
                before == *old(self),
                v == before.volume,
                v == self.volume,
                free == before.free_clusters,
                scratch@.len() == old(scratch)@.len(),
                scratch@.len() >= v.geometry.bytes_per_sector,
                done.result == Ok::<(), Error<D::Error>>(()),
                state::performs(before, *self, Ok(()), done),
                plan == free_run_plan::<D::Error>(
                    v,
                    before.media(),
                    free,
                    contiguous,
                    first,
                    count as nat,
                ),
                plan == done.and(
                    free_run_plan::<D::Error>(
                        v,
                        self.media(),
                        self.free_clusters,
                        contiguous,
                        cluster,
                        left as nat,
                    ),
                ),
            decreases left,
        {
            let ghost s0 = *self;
            let ghost media = self.media();
            let ghost rest = free_run_plan::<D::Error>(
                v,
                media,
                self.free_clusters,
                contiguous,
                cluster,
                left as nat,
            );
            let found = self.successor_of(contiguous, cluster, scratch);
            let ghost s1 = *self;
            proof {
                state::lemma_read_within(
                    before,
                    s0,
                    s1,
                    done,
                    Ok(()),
                    error::or_corrupt(successor(v.geometry, media, contiguous, cluster)),
                    found,
                    rest,
                );
            }
            let next: u32 = match found {
                Ok(next) => next,
                Err(error) => return Err(error),
            };
            let given = self.free_cluster(cluster, scratch);
            proof {
                let give = free_plan::<D::Error>(v, media, s0.free_clusters, cluster);
                let after = free_run_plan::<D::Error>(
                    v,
                    give.leaves(media),
                    give.free,
                    contiguous,
                    next,
                    (left - 1) as nat,
                );
                state::lemma_step(before, s1, *self, done, Ok(()), give, given, after);
                done = done.and(give);
            }
            match given {
                Ok(()) => {},
                Err(error) => return Err(error),
            }
            cluster = next;
            left = left - 1;
        }
        assert(done =~= plan);
        Ok(())
    }

    /// Give back all but the first `keep` of a file's `allocated` clusters.
    fn shrink(
        &mut self,
        file: &File,
        keep: u64,
        allocated: u64,
        scratch: &mut Scratch<'_>,
    ) -> (result: Result<(), Error<D::Error>>)
        requires
            old(self).wf(),
            old(scratch)@.len() >= old(self).volume.geometry.bytes_per_sector,
        ensures
            final(self).wf(),
            final(scratch)@.len() == old(scratch)@.len(),
            state::performs(
                *old(self),
                *final(self),
                result,
                shrink_plan(
                    old(self).volume,
                    old(self).media(),
                    old(self).free_clusters,
                    file@,
                    keep as int,
                    allocated as int,
                ),
            ),
    {
        let g = self.volume.geometry;
        let ghost before = *self;
        let ghost v = self.volume;
        let ghost media = self.media();
        let ghost free = self.free_clusters;
        let ghost f = file@;
        let ghost plan = shrink_plan::<D::Error>(v, media, free, f, keep as int, allocated as int);
        let ghost idle = Plan::<(), D::Error>::answer(free, Ok(()));
        proof {
            state::lemma_answer(before, before, Ok::<(), Error<D::Error>>(()), Ok(()));
            state::lemma_answer(
                before,
                before,
                Err::<(), Error<D::Error>>(Error::Corrupt),
                Err(Error::Corrupt),
            );
            assert(idle.and(plan) =~= plan);
        }
        if keep >= allocated {
            return Ok(());
        }
        if keep == 0 {
            return self.free_run(file.no_fat_chain, file.first_cluster, allocated, scratch);
        }
        let last: u32;
        if file.no_fat_chain {
            if keep > (u32::MAX - file.first_cluster) as u64 {
                return Err(Error::Corrupt);
            }
            last = file.first_cluster + (keep - 1) as u32;
        } else {
            let found = self.cluster_at(file.first_cluster, keep - 1, scratch);
            proof {
                state::lemma_read_within(
                    before,
                    before,
                    *self,
                    idle,
                    Ok(()),
                    error::or_corrupt(
                        allocation::cluster_of(g, media, f.first_cluster, keep - 1),
                    ),
                    found,
                    plan,
                );
            }
            last = match found {
                Ok(last) => last,
                Err(error) => return Err(error),
            };
        }
        let ghost s1 = *self;
        let found = self.successor_of(file.no_fat_chain, last, scratch);
        let ghost s2 = *self;
        proof {
            state::lemma_read_within(
                before,
                s1,
                s2,
                idle,
                Ok(()),
                error::or_corrupt(successor(g, media, f.no_fat_chain, last)),
                found,
                plan,
            );
        }
        let next: u32 = match found {
            Ok(next) => next,
            Err(error) => return Err(error),
        };
        let ghost end = allocation::set_fat_plan::<D::Error>(v, media, free, last, 0xffff_ffff);
        let ghost rest = free_run_plan::<D::Error>(
            v,
            end.leaves(media),
            free,
            f.no_fat_chain,
            next,
            (allocated - keep) as nat,
        );
        let ended = self.set_fat(last, 0xffff_ffff, scratch);
        let ghost s3 = *self;
        proof {
            state::lemma_first_step(s2, s3, end, ended, rest);
        }
        match ended {
            Ok(()) => {},
            Err(error) => return Err(error),
        }
        let freed = self.free_run(file.no_fat_chain, next, allocated - keep, scratch);
        proof {
            state::lemma_and_succeeds(s2, s3, *self, ended, end, freed, rest);
        }
        freed
    }

    /// Shorten a file and immediately return no-longer-needed clusters to the
    /// allocation bitmap. Growing through `truncate` is intentionally not
    /// supported; callers append initialized bytes instead.
    pub fn truncate(&mut self, file: &mut File, len: u64, scratch: &mut Scratch<'_>) -> (result:
        Result<(), Error<D::Error>>)
        requires
            old(self).wf(),
            old(file).wf(),
            old(file)@.cache_behind(old(self).volume.geometry),
            old(scratch)@.len() >= old(self).volume.geometry.bytes_per_sector,
        ensures
            final(self).wf(),
            final(file).wf(),
            final(file)@.cache_behind(old(self).volume.geometry),
            final(scratch)@.len() == old(scratch)@.len(),
            state::performs(
                *old(self),
                *final(self),
                result,
                truncate_plan(
                    old(self).volume,
                    old(self).media(),
                    old(self).free_clusters,
                    old(file)@,
                    len,
                ),
            ),
            result is Ok ==> final(file)@ == truncated(
                old(self).volume.geometry,
                old(file)@,
                len,
            ),
            len <= old(file)@.valid_length ==> shortens(
                *old(self),
                *final(self),
                old(file)@,
                final(file)@,
                len,
                result,
            ),
            len > old(file)@.valid_length ==> {
                &&& result == Err::<(), Error<D::Error>>(Error::EndOfFile)
                &&& *final(file) == *old(file)
                &&& *final(self) == *old(self)
            },
    {
        let g = self.volume.geometry;
        let cluster_bytes: u64 = g.bytes_per_cluster() as u64;
        let ghost before = *self;
        let ghost v = self.volume;
        let ghost media = self.media();
        let ghost free = self.free_clusters;
        let ghost f = file@;
        proof {
            state::lemma_answer(
                before,
                before,
                Err::<(), Error<D::Error>>(Error::EndOfFile),
                Err(Error::EndOfFile),
            );
            lemma_clusters(g, len as int);
            lemma_clusters(g, file.data_length as int);
        }
        if len > file.valid_length {
            return Err(Error::EndOfFile);
        }
        let keep: u64 = if len == 0 {
            0
        } else {
            (len - 1) / cluster_bytes + 1
        };
        let allocated: u64 = if file.data_length == 0 {
            0
        } else {
            (file.data_length - 1) / cluster_bytes + 1
        };
        let ghost shrink = shrink_plan::<D::Error>(
            v,
            media,
            free,
            f,
            keep as int,
            allocated as int,
        );
        let ghost short = truncated(g, f, len);
        let ghost update = metadata::update_plan::<D::Error>(
            v,
            shrink.leaves(media),
            shrink.free,
            short,
        );
        let shrunk = self.shrink(file, keep, allocated, scratch);
        let ghost s1 = *self;
        proof {
            state::lemma_first_step(before, s1, shrink, shrunk, update);
            if keep < allocated {
                arith::lemma_scaled(keep as int, allocated - 1, cluster_bytes as int);
                assert(0 <= keep * cluster_bytes) by (nonlinear_arith);
            }
            if let Some((index, _)) = f.cache {
                if index < keep {
                    arith::lemma_scaled(index as int, keep - 1, cluster_bytes as int);
                }
            }
        }
        match shrunk {
            Ok(()) => {},
            Err(error) => {
                assert(is_shrunk(before, s1, f, len, shrunk));
                return Err(error);
            },
        }
        if keep < allocated {
            if keep == 0 {
                file.first_cluster = 0;
            }
            file.data_length = keep * cluster_bytes;
            file.cached_cluster_index = None;
        } else if let Some(index) = file.cached_cluster_index {
            if index >= keep {
                file.cached_cluster_index = None;
            }
        }
        file.valid_length = len;
        if file.position > len {
            file.position = len;
        }
        assert(file@ =~= short);
        let updated = self.update_stream(file, scratch);
        proof {
            state::lemma_and_succeeds(before, s1, *self, shrunk, shrink, updated, update);
            assert(is_shrunk(before, s1, f, len, shrunk));
        }
        updated
    }

    /// Release the clusters of a removed file or directory.
    pub fn release_entry_clusters(&mut self, entry: &DirectoryEntry, scratch: &mut Scratch<'_>) -> (
    result: Result<(), Error<D::Error>>)
        requires
            old(self).wf(),
            old(scratch)@.len() >= old(self).volume.geometry.bytes_per_sector,
        ensures
            final(self).wf(),
            final(scratch)@.len() == old(scratch)@.len(),
            state::performs(
                *old(self),
                *final(self),
                result,
                release_plan(
                    old(self).volume,
                    old(self).media(),
                    old(self).free_clusters,
                    entry@,
                ),
            ),
    {
        let g = self.volume.geometry;
        let cluster_bytes: u64 = g.bytes_per_cluster() as u64;
        let ghost before = *self;
        let ghost v = self.volume;
        let ghost free = self.free_clusters;
        let contiguous: bool = entry.no_fat_chain;
        proof {
            state::lemma_answer(before, before, Ok::<(), Error<D::Error>>(()), Ok(()));
            lemma_clusters(g, entry.data_length as int);
        }
        if entry.first_cluster < 2 || entry.data_length == 0 {
            return Ok(());
        }
        let count: u64 = (entry.data_length - 1) / cluster_bytes + 1;
        let ghost plan = release_run_plan::<D::Error>(
            v,
            self.media(),
            free,
            contiguous,
            entry.first_cluster,
            count as nat,
        );
        let ghost mut done = Plan::<(), D::Error>::answer(free, Ok(()));
        assert(done.and(plan) =~= plan);
        let mut cluster: u32 = entry.first_cluster;
        let mut left: u64 = count;
        while left > 0
            invariant
                self.wf(),
                before == *old(self),
                v == before.volume,
                v == self.volume,
                g == v.geometry,
                free == before.free_clusters,
                scratch@.len() == old(scratch)@.len(),
                scratch@.len() >= g.bytes_per_sector,
                entry.first_cluster >= 2,
                entry.data_length != 0,
                contiguous == entry.no_fat_chain,
                count == clusters_for(g, entry.data_length as int),
                done.result == Ok::<(), Error<D::Error>>(()),
                state::performs(before, *self, Ok(()), done),
                plan == release_run_plan::<D::Error>(
                    v,
                    before.media(),
                    free,
                    contiguous,
                    entry.first_cluster,
                    count as nat,
                ),
                plan == done.and(
                    release_run_plan::<D::Error>(
                        v,
                        self.media(),
                        self.free_clusters,
                        contiguous,
                        cluster,
                        left as nat,
                    ),
                ),
            decreases left,
        {
            let ghost s0 = *self;
            let ghost media = self.media();
            let ghost give = free_plan::<D::Error>(v, media, s0.free_clusters, cluster);
            if left == 1 {
                let given = self.free_cluster(cluster, scratch);
                proof {
                    state::lemma_and_succeeds(before, s0, *self, Ok(()), done, given, give);
                }
                return given;
            }
            let ghost rest = release_run_plan::<D::Error>(
                v,
                media,
                s0.free_clusters,
                contiguous,
                cluster,
                left as nat,
            );
            let found = self.successor_of(contiguous, cluster, scratch);
            let ghost s1 = *self;
            proof {
                state::lemma_read_within(
                    before,
                    s0,
                    s1,
                    done,
                    Ok(()),
                    error::or_corrupt(successor(g, media, contiguous, cluster)),
                    found,
                    rest,
                );
            }
            let next: u32 = match found {
                Ok(next) => next,
                Err(error) => return Err(error),
            };
            let given = self.free_cluster(cluster, scratch);
            let ghost s2 = *self;
            let ghost after = if g.in_heap(next) {
                release_run_plan::<D::Error>(
                    v,
                    give.leaves(media),
                    give.free,
                    contiguous,
                    next,
                    (left - 1) as nat,
                )
            } else {
                Plan::answer(give.free, Err(Error::Corrupt))
            };
            proof {
                state::lemma_step(before, s1, s2, done, Ok(()), give, given, after);
                done = done.and(give);
            }
            match given {
                Ok(()) => {},
                Err(error) => return Err(error),
            }
            if !g.contains_cluster(next) {
                proof {
                    state::lemma_read_within(
                        before,
                        s2,
                        s2,
                        done,
                        Ok(()),
                        Err::<(), Error<D::Error>>(Error::Corrupt),
                        Err::<(), Error<D::Error>>(Error::Corrupt),
                        after,
                    );
                }
                return Err(Error::Corrupt);
            }
            cluster = next;
            left = left - 1;
        }
        assert(done =~= plan);
        Ok(())
    }
}

} // verus!
