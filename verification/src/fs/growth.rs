//! Growing and shortening files.

use crate::arith;
use crate::device::{BlockDevice, Media, Scratch};
use crate::error;
use crate::error::Error;
use crate::fs::allocation;
use crate::fs::file::{File, FileModel};
use crate::fs::metadata;
use crate::fs::state;
use crate::fs::state::{FileSystem, Plan};
use crate::fs::stream;
use crate::geometry::Geometry;
use crate::mount::Volume;
use vstd::prelude::*;

verus! {

/// The number of the last cluster of a file that has one.
pub open spec fn last_index(g: Geometry, f: FileModel) -> int {
    if f.data_length == 0 {
        0
    } else {
        (f.data_length - 1) / g.cluster_bytes()
    }
}

/// The last cluster of a file: `Ok(None)` for a file without one.
pub open spec fn tail_result<E>(g: Geometry, media: Media, f: FileModel) -> Result<
    Option<u32>,
    Error<E>,
> {
    let steps = last_index(g, f);
    if f.first_cluster == 0 {
        Ok(None)
    } else if f.no_fat_chain {
        if steps > u32::MAX {
            Err(Error::Corrupt)
        } else if f.first_cluster + steps > u32::MAX {
            Err(Error::NoSpace)
        } else {
            Ok(Some((f.first_cluster + steps) as u32))
        }
    } else {
        match allocation::cluster_of(g, media, f.first_cluster, steps) {
            Some(cluster) => Ok(Some(cluster)),
            None => Err(Error::Corrupt),
        }
    }
}

/// What linking the contiguous clusters from `cluster` on, `count` of them
/// each to the next, does.
pub open spec fn link_plan<E>(v: Volume, media: Media, free: u32, cluster: int, count: nat) -> Plan<
    (),
    E,
>
    decreases count,
{
    if count == 0 {
        Plan::answer(free, Ok(()))
    } else if cluster + 1 > u32::MAX {
        Plan::answer(free, Err(Error::Corrupt))
    } else {
        let set = allocation::set_fat_plan::<E>(
            v,
            media,
            free,
            cluster as u32,
            (cluster + 1) as u32,
        );
        set.and(link_plan(v, set.leaves(media), free, cluster + 1, (count - 1) as nat))
    }
}

/// What joining the newly allocated cluster `new` to a file with the last
/// cluster `tail` does. Contiguous clusters stay unlinked as long as the new
/// one is the next; otherwise they are linked first.
pub open spec fn join_plan<E>(v: Volume, media: Media, free: u32, f: FileModel, tail: u32, new: u32) -> Plan<
    (),
    E,
> {
    if f.no_fat_chain && new == tail + 1 {
        Plan::answer(free, Ok(()))
    } else {
        let link = if f.no_fat_chain {
            link_plan::<E>(
                v,
                media,
                free,
                f.first_cluster as int,
                last_index(v.geometry, f) as nat,
            )
        } else {
            Plan::answer(free, Ok(()))
        };
        link.and(allocation::set_fat_plan(v, link.leaves(media), free, tail, new))
    }
}

/// The handle with one more cluster, `new`.
pub open spec fn grown(g: Geometry, f: FileModel, tail: Option<u32>, new: u32) -> FileModel {
    FileModel {
        first_cluster: if tail is None {
            new
        } else {
            f.first_cluster
        },
        no_fat_chain: f.no_fat_chain && (tail matches Some(last) ==> new == last + 1),
        data_length: (f.data_length + g.cluster_bytes()) as u64,
        cache: None,
        ..f
    }
}

/// What giving a file one more cluster does.
#[verifier::opaque]
pub open spec fn extend_plan<E>(v: Volume, media: Media, free: u32, f: FileModel) -> Plan<
    FileModel,
    E,
> {
    let g = v.geometry;
    match tail_result::<E>(g, media, f) {
        Err(error) => Plan::answer(free, Err(error)),
        Ok(tail) => if tail matches Some(last) && last == u32::MAX {
            Plan::answer(free, Err(Error::NoSpace))
        } else {
            let preferred = match tail {
                Some(last) => (last + 1) as u32,
                None => 2u32,
            };
            let take = allocation::allocate_plan::<E>(v, media, free, preferred);
            let taken = take.leaves(media);
            let new = take.result->Ok_0;
            let join = match tail {
                Some(last) => join_plan::<E>(v, taken, take.free, f, last, new),
                None => Plan::answer(take.free, Ok(())),
            };
            take.and(
                join.and(
                    Plan::answer(
                        take.free,
                        if f.data_length + g.cluster_bytes() > u64::MAX {
                            Err(Error::NoSpace)
                        } else {
                            Ok(grown(g, f, tail, new))
                        },
                    ),
                ),
            )
        },
    }
}

/// What giving a file clusters for `end` bytes does.
pub open spec fn reserve_plan<E>(v: Volume, media: Media, free: u32, f: FileModel, end: int) -> Plan<
    FileModel,
    E,
>
    decreases
            if f.data_length < end {
                end - f.data_length
            } else {
                0
            },
{
    if f.data_length >= end {
        Plan::answer(free, Ok(f))
    } else {
        let extend = extend_plan::<E>(v, media, free, f);
        match extend.result {
            Ok(next) => if next.data_length > f.data_length {
                extend.and(
                    reserve_plan(v, extend.leaves(media), extend.free, next, end),
                )
            } else {
                extend
            },
            Err(_) => extend,
        }
    }
}

/// The handle about to write the bytes behind its end.
pub open spec fn at_end(f: FileModel, end: int) -> FileModel {
    FileModel { position: f.valid_length, valid_length: end as u64, ..f }
}

/// What appending `data` to a file does, in this order: allocate clusters,
/// write the bytes, record the new length.
pub open spec fn append_plan<E>(v: Volume, media: Media, free: u32, f: FileModel, data: Seq<u8>) -> Plan<
    usize,
    E,
> {
    let end = f.valid_length + data.len();
    if data.len() == 0 {
        Plan::answer(free, Ok(0))
    } else if end > u64::MAX {
        Plan::answer(free, Err(Error::NoSpace))
    } else {
        let reserve = reserve_plan::<E>(v, media, free, FileModel { cache: None, ..f }, end);
        let reserved = reserve.leaves(media);
        let ready = at_end(reserve.result->Ok_0, end);
        let write = stream::write_plan::<E>(v, reserved, reserve.free, ready, data);
        let written = write.leaves(reserved);
        let file = stream::write_file(v, reserved, ready, data);
        let update = metadata::update_plan::<E>(v, written, reserve.free, file);
        reserve.and(
            write.and(update.and(Plan::answer(reserve.free, Ok(data.len() as usize)))),
        )
    }
}

/// The handle after such an append.
pub open spec fn append_file<E>(v: Volume, media: Media, free: u32, f: FileModel, data: Seq<u8>) -> FileModel {
    let end = f.valid_length + data.len();
    let reserve = reserve_plan::<E>(v, media, free, FileModel { cache: None, ..f }, end);
    stream::write_file(
        v,
        reserve.leaves(media),
        at_end(reserve.result->Ok_0, end),
        data,
    )
}

impl<D: BlockDevice> FileSystem<D> {
    /// Find the last cluster of a file.
    fn tail_cluster(&mut self, file: &File, scratch: &mut Scratch<'_>) -> (result: Result<
        Option<u32>,
        Error<D::Error>,
    >)
        requires
            old(self).wf(),
            old(scratch)@.len() >= old(self).volume.geometry.bytes_per_sector,
        ensures
            final(self).wf(),
            final(scratch)@.len() == old(scratch)@.len(),
            state::answers(
                *old(self),
                *final(self),
                result,
                tail_result(old(self).volume.geometry, old(self).media(), file@),
            ),
    {
        let g = self.volume.geometry;
        let cluster_bytes: u64 = g.bytes_per_cluster() as u64;
        proof {
            arith::lemma_stream_offset(
                file.data_length as int,
                g.bytes_per_sector as int,
                g.sectors_per_cluster as int,
            );
        }
        if file.first_cluster == 0 {
            return Ok(None);
        }
        let steps: u64 = if file.data_length == 0 {
            0
        } else {
            (file.data_length - 1) / cluster_bytes
        };
        if file.no_fat_chain {
            if steps > u32::MAX as u64 {
                return Err(Error::Corrupt);
            }
            return match file.first_cluster.checked_add(steps as u32) {
                Some(tail) => Ok(Some(tail)),
                None => Err(Error::NoSpace),
            };
        }
        match self.cluster_at(file.first_cluster, steps, scratch) {
            Ok(cluster) => Ok(Some(cluster)),
            Err(error) => Err(error),
        }
    }

    /// Link contiguous clusters, each to the next.
    fn link_contiguous(&mut self, first: u32, count: u64, scratch: &mut Scratch<'_>) -> (result:
        Result<(), Error<D::Error>>)
        requires
            old(self).wf(),
            old(scratch)@.len() >= old(self).volume.geometry.bytes_per_sector,
        ensures
            final(self).wf(),
            final(scratch)@.len() == old(scratch)@.len(),
            state::performs(
                *old(self),
                *final(self),
                result,
                link_plan(
                    old(self).volume,
                    old(self).media(),
                    old(self).free_clusters,
                    first as int,
                    count as nat,
                ),
            ),
    {
        let ghost before = *self;
        let ghost v = self.volume;
        let ghost free = self.free_clusters;
        let ghost plan = link_plan::<D::Error>(v, self.media(), free, first as int, count as nat);
        let ghost mut done = Plan::<(), D::Error>::answer(free, Ok(()));
        proof {
            state::lemma_answer(before, before, Ok::<(), Error<D::Error>>(()), Ok(()));
            assert(done.and(plan) =~= plan);
        }
        let mut cluster: u32 = first;
        let mut left: u64 = count;
        while left > 0
            invariant
                self.wf(),
                before == *old(self),
                v == before.volume,
                v == self.volume,
                free == before.free_clusters,
                self.free_clusters == free,
                scratch@.len() == old(scratch)@.len(),
                scratch@.len() >= v.geometry.bytes_per_sector,
                done.result == Ok::<(), Error<D::Error>>(()),
                state::performs(before, *self, Ok(()), done),
                plan == link_plan::<D::Error>(
                    v,
                    before.media(),
                    free,
                    first as int,
                    count as nat,
                ),
                plan == done.and(
                    link_plan::<D::Error>(
                        v,
                        self.media(),
                        free,
                        cluster as int,
                        left as nat,
                    ),
                ),
            decreases left,
        {
            let ghost s0 = *self;
            let ghost media = self.media();
            let ghost rest = link_plan::<D::Error>(v, media, free, cluster as int, left as nat);
            let next: u32 = match cluster.checked_add(1) {
                Some(next) => next,
                None => {
                    proof {
                        state::lemma_read_within(
                            before,
                            s0,
                            s0,
                            done,
                            Ok(()),
                            Err::<(), Error<D::Error>>(Error::Corrupt),
                            Err::<(), Error<D::Error>>(Error::Corrupt),
                            rest,
                        );
                    }
                    return Err(Error::Corrupt);
                },
            };
            let linked = self.set_fat(cluster, next, scratch);
            proof {
                let set = allocation::set_fat_plan::<D::Error>(v, media, free, cluster, next);
                let after = link_plan::<D::Error>(
                    v,
                    set.leaves(media),
                    free,
                    next as int,
                    (left - 1) as nat,
                );
                state::lemma_step(before, s0, *self, done, Ok(()), set, linked, after);
                done = done.and(set);
            }
            match linked {
                Ok(()) => {},
                Err(error) => return Err(error),
            }
            cluster = next;
            left = left - 1;
        }
        assert(done =~= plan);
        Ok(())
    }

    /// Join a newly allocated cluster to a file with the last cluster `tail`.
    fn join_cluster(
        &mut self,
        file: &File,
        tail: u32,
        new: u32,
        scratch: &mut Scratch<'_>,
    ) -> (result: Result<(), Error<D::Error>>)
        requires
            old(self).wf(),
            tail < u32::MAX,
            old(scratch)@.len() >= old(self).volume.geometry.bytes_per_sector,
        ensures
            final(self).wf(),
            final(scratch)@.len() == old(scratch)@.len(),
            state::performs(
                *old(self),
                *final(self),
                result,
                join_plan(
                    old(self).volume,
                    old(self).media(),
                    old(self).free_clusters,
                    file@,
                    tail,
                    new,
                ),
            ),
    {
        let g = self.volume.geometry;
        let ghost before = *self;
        let ghost v = self.volume;
        let ghost media = self.media();
        let ghost free = self.free_clusters;
        proof {
            state::lemma_answer(before, before, Ok::<(), Error<D::Error>>(()), Ok(()));
            arith::lemma_stream_offset(
                file.data_length as int,
                g.bytes_per_sector as int,
                g.sectors_per_cluster as int,
            );
        }
        if file.no_fat_chain && new == tail + 1 {
            return Ok(());
        }
        let steps: u64 = if file.data_length == 0 {
            0
        } else {
            (file.data_length - 1) / g.bytes_per_cluster() as u64
        };
        let ghost link = if file.no_fat_chain {
            link_plan::<D::Error>(v, media, free, file.first_cluster as int, steps as nat)
        } else {
            Plan::answer(free, Ok(()))
        };
        let ghost set = allocation::set_fat_plan::<D::Error>(
            v,
            link.leaves(media),
            free,
            tail,
            new,
        );
        let linked = if file.no_fat_chain {
            self.link_contiguous(file.first_cluster, steps, scratch)
        } else {
            Ok(())
        };
        let ghost s1 = *self;
        proof {
            state::lemma_first_step(before, s1, link, linked, set);
            if file.no_fat_chain {
                lemma_link_free::<D::Error>(
                    v,
                    media,
                    free,
                    file.first_cluster as int,
                    steps as nat,
                );
            }
        }
        match linked {
            Ok(()) => {},
            Err(error) => return Err(error),
        }
        let joined = self.set_fat(tail, new, scratch);
        proof {
            state::lemma_and_succeeds(before, s1, *self, linked, link, joined, set);
        }
        joined
    }
}

impl<D: BlockDevice> FileSystem<D> {
    /// Give a file one more cluster. Where this fails the handle may have
    /// changed.
    fn extend_file(&mut self, file: &mut File, scratch: &mut Scratch<'_>) -> (result: Result<
        (),
        Error<D::Error>,
    >)
        requires
            old(self).wf(),
            old(file).wf(),
            old(scratch)@.len() >= old(self).volume.geometry.bytes_per_sector,
        ensures
            final(self).wf(),
            final(file).wf(),
            final(scratch)@.len() == old(scratch)@.len(),
            state::performs(
                *old(self),
                *final(self),
                handed(result, final(file)@),
                extend_plan(
                    old(self).volume,
                    old(self).media(),
                    old(self).free_clusters,
                    old(file)@,
                ),
            ),
    {
        let g = self.volume.geometry;
        let cluster_bytes: u64 = g.bytes_per_cluster() as u64;
        let ghost before = *self;
        let ghost v = self.volume;
        let ghost media = self.media();
        let ghost free = self.free_clusters;
        let ghost f = file@;
        let ghost plan = extend_plan::<D::Error>(v, media, free, f);
        reveal(extend_plan);
        let ghost idle = Plan::<(), D::Error>::answer(free, Ok(()));
        proof {
            state::lemma_answer(before, before, Ok::<(), Error<D::Error>>(()), Ok(()));
            assert(idle.and(plan) =~= plan);
        }
        let found = self.tail_cluster(file, scratch);
        let ghost s1 = *self;
        proof {
            state::lemma_read_within(
                before,
                before,
                s1,
                idle,
                Ok(()),
                tail_result(g, media, f),
                found,
                plan,
            );
        }
        let tail: Option<u32> = match found {
            Ok(tail) => tail,
            Err(error) => return Err(error),
        };
        let preferred: u32 = match tail {
            Some(last) => match last.checked_add(1) {
                Some(next) => next,
                None => return Err(Error::NoSpace),
            },
            None => 2,
        };
        let ghost take = allocation::allocate_plan::<D::Error>(v, media, free, preferred);
        let ghost taken_media = take.leaves(media);
        let ghost wanted = take.result->Ok_0;
        let ghost join = match tail {
            Some(last) => join_plan::<D::Error>(v, taken_media, take.free, f, last, wanted),
            None => Plan::answer(take.free, Ok(())),
        };
        let ghost reply = Plan::<FileModel, D::Error>::answer(
            take.free,
            if f.data_length + g.cluster_bytes() > u64::MAX {
                Err(Error::NoSpace)
            } else {
                Ok(grown(g, f, tail, wanted))
            },
        );
        let taken = self.allocate_cluster_preferred(preferred, scratch);
        let ghost s2 = *self;
        proof {
            state::lemma_first_step(s1, s2, take, taken, join.and(reply));
        }
        let new: u32 = match taken {
            Ok(new) => new,
            Err(error) => return Err(error),
        };
        let joined = match tail {
            Some(last) => self.join_cluster(file, last, new, scratch),
            None => Ok(()),
        };
        let ghost s3 = *self;
        proof {
            if tail is None {
                state::lemma_answer(s2, s3, Ok::<(), Error<D::Error>>(()), Ok(()));
            } else {
                lemma_join_free::<D::Error>(v, taken_media, take.free, f, tail->0, wanted);
            }
            state::lemma_step(s1, s2, s3, take, taken, join, joined, reply);
        }
        match joined {
            Ok(()) => {},
            Err(error) => return Err(error),
        }
        match tail {
            Some(last) => {
                if new != last + 1 {
                    file.no_fat_chain = false;
                }
            },
            None => {
                file.first_cluster = new;
            },
        }
        file.cached_cluster_index = None;
        let longer = file.data_length.checked_add(cluster_bytes);
        proof {
            state::lemma_answer(s3, s3, reply.result, reply.result);
            state::lemma_and_succeeds(s1, s3, s3, joined, take.and(join), reply.result, reply);
        }
        match longer {
            Some(length) => {
                file.data_length = length;
                assert(file@ =~= grown(g, f, tail, wanted));
                Ok(())
            },
            None => Err(Error::NoSpace),
        }
    }

    /// Give a file clusters for `end` bytes. Where this fails the handle may
    /// have changed.
    fn reserve(&mut self, file: &mut File, end: u64, scratch: &mut Scratch<'_>) -> (result: Result<
        (),
        Error<D::Error>,
    >)
        requires
            old(self).wf(),
            old(file).wf(),
            old(scratch)@.len() >= old(self).volume.geometry.bytes_per_sector,
        ensures
            final(self).wf(),
            final(file).wf(),
            final(scratch)@.len() == old(scratch)@.len(),
            state::performs(
                *old(self),
                *final(self),
                handed(result, final(file)@),
                reserve_plan(
                    old(self).volume,
                    old(self).media(),
                    old(self).free_clusters,
                    old(file)@,
                    end as int,
                ),
            ),
    {
        let g = self.volume.geometry;
        let ghost before = *self;
        let ghost v = self.volume;
        let ghost free = self.free_clusters;
        let ghost f = file@;
        let ghost plan = reserve_plan::<D::Error>(v, self.media(), free, f, end as int);
        let ghost mut done = Plan::<(), D::Error>::answer(free, Ok(()));
        proof {
            state::lemma_answer(before, before, Ok::<(), Error<D::Error>>(()), Ok(()));
            assert(done.and(plan) =~= plan);
            arith::lemma_stream_offset(0, g.bytes_per_sector as int, g.sectors_per_cluster as int);
        }
        while file.data_length < end
            invariant
                self.wf(),
                file.wf(),
                before == *old(self),
                v == before.volume,
                v == self.volume,
                g == v.geometry,
                g.cluster_bytes() > 0,
                free == before.free_clusters,
                f == old(file)@,
                scratch@.len() == old(scratch)@.len(),
                scratch@.len() >= g.bytes_per_sector,
                done.result == Ok::<(), Error<D::Error>>(()),
                state::performs(before, *self, Ok(()), done),
                plan == reserve_plan::<D::Error>(v, before.media(), free, f, end as int),
                plan == done.and(
                    reserve_plan::<D::Error>(
                        v,
                        self.media(),
                        self.free_clusters,
                        file@,
                        end as int,
                    ),
                ),
            decreases
                    if file.data_length < end {
                        end - file.data_length
                    } else {
                        0
                    },
        {
            let ghost s0 = *self;
            let ghost now = file@;
            let ghost extend = extend_plan::<D::Error>(v, s0.media(), s0.free_clusters, now);
            let extended = self.extend_file(file, scratch);
            proof {
                lemma_reserve_step(before, s0, *self, done, now, extended, file@, end as int);
                lemma_extended::<D::Error>(v, s0.media(), s0.free_clusters, now);
                done = done.and(silent(extend));
            }
            match extended {
                Ok(()) => {},
                Err(error) => return Err(error),
            }
        }
        proof {
            let reply = Plan::<FileModel, D::Error>::answer(self.free_clusters, Ok(file@));
            assert(plan =~= done.and(reply));
        }
        Ok(())
    }

    /// Append initialized bytes, allocating clusters and committing metadata.
    ///
    /// The bytes reach their clusters before the new length is recorded, and
    /// a successful append has been flushed to stable media. Where it fails
    /// the handle stays as it was.
    pub fn append(&mut self, file: &mut File, input: &[u8], scratch: &mut Scratch<'_>) -> (result:
        Result<usize, Error<D::Error>>)
        requires
            old(self).wf(),
            old(file).wf(),
            old(file)@.cache_behind(old(self).volume.geometry),
            old(scratch)@.len() >= old(self).volume.geometry.bytes_per_sector,
        ensures
            final(self).wf(),
            final(file).wf(),
            final(file)@.cache_behind(old(self).volume.geometry),
            final(scratch)@.len() == old(scratch)@.len(),
            state::performs(
                *old(self),
                *final(self),
                result,
                append_plan(
                    old(self).volume,
                    old(self).media(),
                    old(self).free_clusters,
                    old(file)@,
                    input@,
                ),
            ),
            match result {
                Ok(_) => final(file)@ == if input@.len() == 0 {
                    old(file)@
                } else {
                    append_file::<D::Error>(
                        old(self).volume,
                        old(self).media(),
                        old(self).free_clusters,
                        old(file)@,
                        input@,
                    )
                },
                Err(_) => *final(file) == *old(file),
            },
            result is Ok && input@.len() > 0 ==> final(self).device.stable()
                == final(self).media(),
            input@.len() == 0 ==> {
                &&& result == Ok::<usize, Error<D::Error>>(0)
                &&& *final(self) == *old(self)
            },
            old(file)@.valid_length + input@.len() > u64::MAX ==> {
                &&& result == Err::<usize, Error<D::Error>>(Error::NoSpace)
                &&& *final(self) == *old(self)
            },
    {
        let g = self.volume.geometry;
        let ghost before = *self;
        let ghost v = self.volume;
        let ghost media = self.media();
        let ghost free = self.free_clusters;
        let ghost f = file@;
        let ghost plan = append_plan::<D::Error>(v, media, free, f, input@);
        proof {
            state::lemma_answer(before, before, Ok::<usize, Error<D::Error>>(0), Ok(0));
        }
        if input.len() == 0 {
            return Ok(0);
        }
        let original = *file;
        let end: u64 = match file.valid_length.checked_add(input.len() as u64) {
            Some(end) => end,
            None => return Err(Error::NoSpace),
        };
        file.cached_cluster_index = None;
        let ghost start = FileModel { cache: None, ..f };
        assert(file@ =~= start);
        let ghost reserve = reserve_plan::<D::Error>(v, media, free, start, end as int);
        let ghost reserved_media = reserve.leaves(media);
        let ghost ready = at_end(reserve.result->Ok_0, end as int);
        let ghost write = stream::write_plan::<D::Error>(
            v,
            reserved_media,
            reserve.free,
            ready,
            input@,
        );
        let ghost written_media = write.leaves(reserved_media);
        let ghost done_file = stream::write_file(v, reserved_media, ready, input@);
        let ghost update = metadata::update_plan::<D::Error>(
            v,
            written_media,
            reserve.free,
            done_file,
        );
        let ghost reply = Plan::<usize, D::Error>::answer(reserve.free, Ok(input@.len() as usize));
        let reserved = self.reserve(file, end, scratch);
        let ghost s1 = *self;
        proof {
            state::lemma_first_step(
                before,
                s1,
                reserve,
                handed(reserved, file@),
                write.and(update.and(reply)),
            );
            lemma_reserved::<D::Error>(v, media, free, start, end as int);
        }
        match reserved {
            Ok(()) => {},
            Err(error) => {
                *file = original;
                return Err(error);
            },
        }
        file.position = file.valid_length;
        file.valid_length = end;
        assert(file@ =~= ready);
        let ghost handle = handed(reserved, reserve.result->Ok_0);
        let wrote = self.write(file, input, scratch);
        let ghost s2 = *self;
        let ghost wrote_all = unit_of(wrote);
        proof {
            stream::lemma_write_free::<D::Error>(
                v,
                reserved_media,
                reserve.free,
                ready,
                input@,
            );
            assert(stream::transfer(ready, input@.len()) == input@.len());
            assert(input@.take(input@.len() as int) =~= input@);
            let counted = Plan::<usize, D::Error>::answer(
                write.free,
                Ok(input@.len() as usize),
            );
            lemma_uncounted(s1, s2, wrote, write, counted);
            state::lemma_step(
                before,
                s1,
                s2,
                reserve,
                handle,
                write,
                wrote_all,
                update.and(reply),
            );
        }
        match wrote {
            Ok(_) => {},
            Err(error) => {
                *file = original;
                return Err(error);
            },
        }
        let updated = self.update_stream(file, scratch);
        let ghost s3 = *self;
        proof {
            lemma_update_free::<D::Error>(v, written_media, reserve.free, done_file);
            state::lemma_step(
                before,
                s2,
                s3,
                reserve.and(write),
                wrote_all,
                update,
                updated,
                reply,
            );
            state::lemma_and_assoc(reserve, write, update.and(reply));
            state::lemma_and_assoc(reserve.and(write), update, reply);
        }
        match updated {
            Ok(()) => {},
            Err(error) => {
                *file = original;
                return Err(error);
            },
        }
        let flushed = self.flush(scratch);
        proof {
            let all = reserve.and(write).and(update);
            state::lemma_read_within(before, s3, *self, all, updated, Ok(()), flushed, reply);
            assert(all.and(reply).writes =~= all.writes);
        }
        match flushed {
            Ok(()) => Ok(input.len()),
            Err(error) => {
                *file = original;
                Err(error)
            },
        }
    }
}

/// A plan without the file in its answer.
pub open spec fn silent<E>(plan: Plan<FileModel, E>) -> Plan<(), E> {
    Plan { writes: plan.writes, counts: plan.counts, free: plan.free, result: Ok(()) }
}

/// One more cluster of a reservation, after `done`.
proof fn lemma_reserve_step<D: BlockDevice>(
    before: FileSystem<D>,
    middle: FileSystem<D>,
    after: FileSystem<D>,
    done: Plan<(), D::Error>,
    f: FileModel,
    result: Result<(), Error<D::Error>>,
    next: FileModel,
    end: int,
)
    requires
        middle.wf(),
        f.data_length < end,
        state::performs(before, middle, Ok(()), done),
        state::performs(
            middle,
            after,
            handed(result, next),
            extend_plan::<D::Error>(middle.volume, middle.media(), middle.free_clusters, f),
        ),
    ensures
        ({
            let v = middle.volume;
            let extend = extend_plan::<D::Error>(v, middle.media(), middle.free_clusters, f);
            let now = reserve_plan::<D::Error>(v, middle.media(), middle.free_clusters, f, end);
            match result {
                Ok(()) => {
                    let rest = reserve_plan::<D::Error>(
                        v,
                        after.media(),
                        after.free_clusters,
                        next,
                        end,
                    );
                    &&& state::performs(before, after, Ok(()), done.and(silent(extend)))
                    &&& done.and(silent(extend)).and(rest) == done.and(now)
                },
                Err(error) => state::performs(
                    before,
                    after,
                    Err::<FileModel, Error<D::Error>>(error),
                    done.and(now),
                ),
            }
        }),
{
    let v = middle.volume;
    let extend = extend_plan::<D::Error>(v, middle.media(), middle.free_clusters, f);
    let shown = handed(result, next);
    lemma_extended::<D::Error>(v, middle.media(), middle.free_clusters, f);
    arith::lemma_stream_offset(
        0,
        v.geometry.bytes_per_sector as int,
        v.geometry.sectors_per_cluster as int,
    );
    if result is Ok {
        let rest = reserve_plan::<D::Error>(v, after.media(), after.free_clusters, next, end);
        state::lemma_and_succeeds(
            before,
            middle,
            after,
            Ok(()),
            done,
            Ok(()),
            silent(extend),
        );
        state::lemma_and_assoc(done, silent(extend), rest);
        assert(silent(extend).and(rest) =~= extend.and(rest));
    } else {
        let rest = reserve_plan::<D::Error>(
            v,
            extend.leaves(middle.media()),
            extend.free,
            extend.result->Ok_0,
            end,
        );
        state::lemma_step(before, middle, after, done, Ok(()), extend, shown, rest);
        assert(extend.result is Err ==> extend.and(rest) =~= extend);
    }
}

/// An answer that hands over a file.
pub open spec fn handed<E>(result: Result<(), Error<E>>, file: FileModel) -> Result<
    FileModel,
    Error<E>,
> {
    match result {
        Ok(()) => Ok(file),
        Err(error) => Err(error),
    }
}

/// An answer without its count.
pub open spec fn unit_of<E>(result: Result<usize, Error<E>>) -> Result<(), Error<E>> {
    match result {
        Ok(_) => Ok(()),
        Err(error) => Err(error),
    }
}

/// A plan that only adds a count to the answer does the same without it.
proof fn lemma_uncounted<D: BlockDevice>(
    before: FileSystem<D>,
    after: FileSystem<D>,
    result: Result<usize, Error<D::Error>>,
    plan: Plan<(), D::Error>,
    counted: Plan<usize, D::Error>,
)
    requires
        state::performs(before, after, result, plan.and(counted)),
        counted.writes.len() == 0,
        counted.counts.len() == 0,
        counted.result is Ok,
        counted.free == plan.free,
    ensures
        state::performs(before, after, unit_of(result), plan),
{
    assert(plan.and(counted).writes =~= plan.writes);
    assert(plan.and(counted).counts =~= plan.counts);
    if let Ok(unit) = plan.result {
        assert(unit == ());
    }
}

/// Giving a file one more cluster makes it one cluster longer, and leaves the
/// rest of the handle alone.
proof fn lemma_extended<E>(v: Volume, media: Media, free: u32, f: FileModel)
    requires
        v.geometry.wf(),
    ensures
        extend_plan::<E>(v, media, free, f).result matches Ok(next) ==> {
            &&& next.data_length == f.data_length + v.geometry.cluster_bytes()
            &&& next == (FileModel {
                first_cluster: next.first_cluster,
                no_fat_chain: next.no_fat_chain,
                data_length: next.data_length,
                cache: None,
                ..f
            })
        },
{
    reveal(extend_plan);
    arith::lemma_stream_offset(
        0,
        v.geometry.bytes_per_sector as int,
        v.geometry.sectors_per_cluster as int,
    );
}

/// Reserving clusters leaves position and visible length alone.
proof fn lemma_reserved<E>(v: Volume, media: Media, free: u32, f: FileModel, end: int)
    requires
        v.geometry.wf(),
        f.cache is None,
    ensures
        reserve_plan::<E>(v, media, free, f, end).result matches Ok(next) ==> {
            &&& next.data_length >= end
            &&& next == (FileModel {
                first_cluster: next.first_cluster,
                no_fat_chain: next.no_fat_chain,
                data_length: next.data_length,
                ..f
            })
        },
    decreases
            if f.data_length < end {
                end - f.data_length
            } else {
                0
            },
{
    if f.data_length < end {
        lemma_extended::<E>(v, media, free, f);
        arith::lemma_stream_offset(
            0,
            v.geometry.bytes_per_sector as int,
            v.geometry.sectors_per_cluster as int,
        );
        let extend = extend_plan::<E>(v, media, free, f);
        if let Ok(next) = extend.result {
            lemma_reserved::<E>(v, extend.leaves(media), extend.free, next, end);
        }
    }
}

/// Joining a cluster leaves the free-cluster count alone.
proof fn lemma_join_free<E>(v: Volume, media: Media, free: u32, f: FileModel, tail: u32, new: u32)
    ensures
        join_plan::<E>(v, media, free, f, tail, new).free == free,
{
    if f.no_fat_chain {
        lemma_link_free::<E>(
            v,
            media,
            free,
            f.first_cluster as int,
            last_index(v.geometry, f) as nat,
        );
    }
}

/// Updating a stream leaves the free-cluster count alone.
proof fn lemma_update_free<E>(v: Volume, media: Media, free: u32, f: FileModel)
    ensures
        metadata::update_plan::<E>(v, media, free, f).free == free,
{
}

/// Linking leaves the free-cluster count alone.
proof fn lemma_link_free<E>(v: Volume, media: Media, free: u32, cluster: int, count: nat)
    ensures
        link_plan::<E>(v, media, free, cluster, count).free == free,
    decreases count,
{
    if count > 0 && cluster + 1 <= u32::MAX {
        let set = allocation::set_fat_plan::<E>(
            v,
            media,
            free,
            cluster as u32,
            (cluster + 1) as u32,
        );
        lemma_link_free::<E>(v, set.leaves(media), free, cluster + 1, (count - 1) as nat);
    }
}

} // verus!
