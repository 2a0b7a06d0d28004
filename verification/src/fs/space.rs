//! Finding directory slots for a new entry set, and growing directories that
//! have too few.

use crate::bytes;
use crate::device::{BlockDevice, Media, Scratch};
use crate::directory::entry::{Directory, DirectoryModel, Workspace};
use crate::directory::slots;
use crate::directory::slots::{EntryLocator, Slot};
use crate::error::Error;
use crate::fs::allocation;
use crate::fs::file::{File, FileModel};
use crate::fs::metadata;
use crate::fs::state;
use crate::fs::state::{FileSystem, Plan};
use crate::fs::walk;
use crate::fs::walk::{Cursor, End, Step};
use crate::geometry::Geometry;
use crate::mount::Volume;
use vstd::prelude::*;

verus! {

/// The outcome of a search for adjacent free slots.
#[verifier::ext_equal]
pub enum Search {
    /// As many as were wanted.
    Found(Seq<EntryLocator>),
    /// Only these, at the end of the directory.
    Short(Seq<EntryLocator>),
}

/// Whether a slot holds no entry in use.
pub open spec fn is_free(slot: Slot) -> bool {
    slot.raw[0] < 0x80
}

/// The first `wanted` adjacent free slots, where `run` precedes `slots`.
pub open spec fn search(slots: Seq<Slot>, wanted: nat, run: Seq<EntryLocator>) -> Search
    decreases slots.len(),
{
    if slots.len() == 0 {
        Search::Short(run)
    } else if is_free(slots[0]) {
        let longer = run.push(slots[0].at);
        if longer.len() == wanted {
            Search::Found(longer)
        } else {
            search(slots.drop_first(), wanted, longer)
        }
    } else {
        search(slots.drop_first(), wanted, Seq::empty())
    }
}

/// A directory sector whose never-used slots were marked as used, so that
/// readers go on behind it.
pub open spec fn filled_up(sector: Seq<u8>) -> Seq<u8> {
    Seq::new(
        sector.len(),
        |i: int|
            if i % 32 == 0 && i + 32 <= sector.len() && sector[i] == 0 {
                0x80
            } else {
                sector[i]
            },
    )
}

/// The last sector of `cluster`.
pub open spec fn last_lba(g: Geometry, cluster: u32) -> u64 {
    (g.heap_lba(cluster as int) + g.sectors_per_cluster - 1) as u64
}

/// The directory with one more cluster. The root has no length to record.
pub open spec fn longer(g: Geometry, d: DirectoryModel) -> DirectoryModel {
    if d.data_length == 0 {
        d
    } else {
        DirectoryModel { data_length: (d.data_length + g.cluster_bytes()) as u64, ..d }
    }
}

/// A directory as a file whose stream extension is to be updated.
pub open spec fn as_file(d: DirectoryModel) -> FileModel {
    FileModel {
        primary: d.primary->0,
        stream: d.stream->0,
        locs: d.locs,
        first_cluster: d.first_cluster,
        data_length: d.data_length,
        valid_length: d.data_length,
        position: 0,
        no_fat_chain: false,
        cache: None,
    }
}

/// What recording the length of a directory that grew does.
pub open spec fn record_plan<E>(v: Volume, media: Media, free: u32, d: DirectoryModel) -> Plan<
    (),
    E,
> {
    if d.data_length == 0 {
        Plan::answer(free, Ok(()))
    } else if d.data_length + v.geometry.cluster_bytes() > u64::MAX {
        Plan::answer(free, Err(Error::NoSpace))
    } else if d.primary is None || d.stream is None {
        Plan::answer(free, Err(Error::Corrupt))
    } else {
        metadata::update_plan(v, media, free, as_file(longer(v.geometry, d)))
    }
}

/// What growing a directory with the last cluster `tail` does, in this order:
/// allocate a zeroed cluster, link it, let readers go on into it, record the
/// new length. If the last step fails, the old end mark still hides the linked
/// cluster. Answers the new cluster.
#[verifier::opaque]
pub open spec fn grow_plan<E>(v: Volume, media: Media, free: u32, d: DirectoryModel, tail: u32) -> Plan<
    u32,
    E,
> {
    let g = v.geometry;
    let take = allocation::allocate_plan::<E>(v, media, free, (tail + 1) as u32);
    let taken = take.leaves(media);
    let new = take.result->Ok_0;
    let link = allocation::set_fat_plan::<E>(v, taken, take.free, tail, new);
    let linked = link.leaves(taken);
    let open = metadata::sector_plan::<E>(
        take.free,
        last_lba(g, tail),
        filled_up(linked[last_lba(g, tail)]),
    );
    let record = record_plan::<E>(v, open.leaves(linked), take.free, d);
    take.and(link.and(open.and(record.and(Plan::answer(take.free, Ok(new))))))
}

/// The first `count` slots of `cluster`.
pub open spec fn first_slots(g: Geometry, cluster: u32, count: nat) -> Seq<EntryLocator> {
    Seq::new(
        count,
        |i: int|
            EntryLocator {
                lba: g.heap_lba(cluster as int) as u64,
                offset: (32 * i) as u16,
            },
    )
}

/// What finding `wanted` adjacent free slots in the directory `d` does.
///
/// A FAT-linked directory that has too few grows. An entry set may begin in
/// its old last cluster and end in the new one; where that leaves too much for
/// one sector of the new cluster, the longer directory is searched again.
pub open spec fn find_plan<E>(v: Volume, media: Media, free: u32, d: DirectoryModel, wanted: nat) -> Plan<
    Seq<EntryLocator>,
    E,
>
    decreases free,
{
    let g = v.geometry;
    let all = walk::directory_slots(g, media, d);
    match search(all.slots, wanted, Seq::empty()) {
        Search::Found(locs) => Plan::answer(free, Ok(locs)),
        Search::Short(run) => match all.end {
            End::Corrupt => Plan::answer(free, Err(Error::Corrupt)),
            End::Bytes => Plan::answer(free, Err(Error::NoSpace)),
            End::Contiguous => Plan::answer(free, Err(Error::NoSpace)),
            End::Tail(tail) => {
                let grow = grow_plan::<E>(v, media, free, d, tail);
                let needed = (wanted - run.len()) as nat;
                let rest = if run.len() != 0 && needed <= g.bytes_per_sector as nat / 32 {
                    Plan::answer(
                        grow.free,
                        Ok(run + first_slots(g, grow.result->Ok_0, needed)),
                    )
                } else if grow.free < free {
                    find_plan(v, grow.leaves(media), grow.free, longer(g, d), wanted)
                } else {
                    Plan::answer(grow.free, Err(Error::Corrupt))
                };
                grow.and(rest)
            },
        },
    }
}

/// What finding slots for an entry set of `wanted` entries does.
pub open spec fn find_entries_plan<E>(
    v: Volume,
    media: Media,
    free: u32,
    d: DirectoryModel,
    wanted: nat,
) -> Plan<Seq<EntryLocator>, E> {
    if 3 <= wanted <= 19 {
        find_plan(v, media, free, d, wanted)
    } else {
        Plan::answer(free, Err(Error::Corrupt))
    }
}

/// What a search answers, with the first `wanted` locators as a sequence.
pub open spec fn found_view<E>(result: Result<[EntryLocator; 19], Error<E>>, wanted: int) -> Result<
    Seq<EntryLocator>,
    Error<E>,
> {
    match result {
        Ok(locators) => Ok(locators@.take(wanted)),
        Err(error) => Err(error),
    }
}

impl<D: BlockDevice> FileSystem<D> {
    /// Mark the never-used slots of a sector as used.
    fn fill_up_sector(&mut self, lba: u64, scratch: &mut Scratch<'_>) -> (result: Result<
        (),
        Error<D::Error>,
    >)
        requires
            old(self).wf(),
            old(scratch)@.len() >= old(self).volume.geometry.bytes_per_sector,
        ensures
            final(self).wf(),
            final(scratch)@.len() == old(scratch)@.len(),
            state::performs(
                *old(self),
                *final(self),
                result,
                metadata::sector_plan(
                    old(self).free_clusters,
                    lba,
                    filled_up(old(self).media()[lba]),
                ),
            ),
    {
        let size: usize = self.volume.geometry.bytes_per_sector as usize;
        let ghost before = *self;
        let ghost sector = self.media()[lba];
        let ghost plan = metadata::sector_plan::<D::Error>(
            self.free_clusters,
            lba,
            filled_up(sector),
        );
        let read = self.fetch(lba, scratch);
        if read.is_err() {
            proof {
                state::lemma_read_failed(before, *self, read, Ok(()), read, plan);
            }
            return read;
        }
        let bytes = scratch.sector(size);
        let mut slot: usize = 0;
        while slot < size / 32
            invariant
                slot <= size / 32,
                bytes@.len() == size,
                bytes.len() == size,
                size <= 4096,
                sector.len() == size,
                forall|i: int|
                    0 <= i < size ==> #[trigger] bytes@[i] == if i < 32 * slot {
                        filled_up(sector)[i]
                    } else {
                        sector[i]
                    },
            decreases size / 32 - slot,
        {
            if bytes[32 * slot] == 0 {
                bytes[32 * slot] = 0x80;
            }
            slot = slot + 1;
        }
        assert(bytes@ =~= filled_up(sector)) by {
            assert forall|i: int| 0 <= i < size implies bytes@[i] == filled_up(sector)[i] by {
                if i >= 32 * slot {
                    assert(!(i % 32 == 0 && i + 32 <= size));
                }
            }
        }
        assert(scratch@.take(size as int) =~= filled_up(sector));
        self.put(lba, scratch)
    }

    /// Record the length of a directory that grew.
    fn record_growth(&mut self, directory: &Directory, scratch: &mut Scratch<'_>) -> (result:
        Result<(), Error<D::Error>>)
        requires
            old(self).wf(),
            directory.wf(),
            old(scratch)@.len() >= old(self).volume.geometry.bytes_per_sector,
        ensures
            final(self).wf(),
            final(scratch)@.len() == old(scratch)@.len(),
            state::performs(
                *old(self),
                *final(self),
                result,
                record_plan(
                    old(self).volume,
                    old(self).media(),
                    old(self).free_clusters,
                    directory@,
                ),
            ),
    {
        let g = self.volume.geometry;
        let ghost before = *self;
        proof {
            state::lemma_answer(before, before, Ok::<(), Error<D::Error>>(()), Ok(()));
            state::lemma_answer(
                before,
                before,
                Err::<(), Error<D::Error>>(Error::NoSpace),
                Err(Error::NoSpace),
            );
            state::lemma_answer(
                before,
                before,
                Err::<(), Error<D::Error>>(Error::Corrupt),
                Err(Error::Corrupt),
            );
        }
        if directory.data_length == 0 {
            return Ok(());
        }
        let length: u64 = match directory.data_length.checked_add(g.bytes_per_cluster() as u64) {
            Some(length) => length,
            None => return Err(Error::NoSpace),
        };
        let (primary, stream) = match (directory.primary, directory.stream) {
            (Some(primary), Some(stream)) => (primary, stream),
            _ => return Err(Error::Corrupt),
        };
        let meta = File {
            primary,
            stream,
            entry_locs: directory.entry_locs,
            entry_count: directory.entry_count,
            first_cluster: directory.first_cluster,
            data_length: length,
            valid_length: length,
            position: 0,
            no_fat_chain: false,
            cached_cluster_index: None,
            cached_cluster: 0,
        };
        assert(meta@ =~= as_file(longer(g, directory@)));
        self.update_stream(&meta, scratch)
    }

    /// Grow a directory with the last cluster `tail`; answers the new
    /// cluster.
    fn grow_directory(&mut self, directory: &Directory, tail: u32, scratch: &mut Scratch<'_>) -> (
    result: Result<u32, Error<D::Error>>)
        requires
            old(self).wf(),
            directory.wf(),
            old(self).volume.geometry.in_heap(tail),
            old(scratch)@.len() >= old(self).volume.geometry.bytes_per_sector,
        ensures
            final(self).wf(),
            final(scratch)@.len() == old(scratch)@.len(),
            state::performs(
                *old(self),
                *final(self),
                result,
                grow_plan(
                    old(self).volume,
                    old(self).media(),
                    old(self).free_clusters,
                    directory@,
                    tail,
                ),
            ),
    {
        let g = self.volume.geometry;
        let ghost before = *self;
        let ghost v = self.volume;
        let ghost media = self.media();
        let ghost free = self.free_clusters;
        let ghost d = directory@;
        reveal(grow_plan);
        let ghost take = allocation::allocate_plan::<D::Error>(v, media, free, (tail + 1) as u32);
        let ghost m1 = take.leaves(media);
        let ghost wanted = take.result->Ok_0;
        let ghost link = allocation::set_fat_plan::<D::Error>(v, m1, take.free, tail, wanted);
        let ghost m2 = link.leaves(m1);
        let ghost open = metadata::sector_plan::<D::Error>(
            take.free,
            last_lba(g, tail),
            filled_up(m2[last_lba(g, tail)]),
        );
        let ghost m3 = open.leaves(m2);
        let ghost record = record_plan::<D::Error>(v, m3, take.free, d);
        let ghost reply = Plan::<u32, D::Error>::answer(take.free, Ok(wanted));
        let taken = self.allocate_cluster_preferred(tail + 1, scratch);
        let ghost s1 = *self;
        proof {
            state::lemma_first_step(before, s1, take, taken, link.and(open.and(record.and(reply))));
        }
        let new: u32 = match taken {
            Ok(new) => new,
            Err(error) => return Err(error),
        };
        let linked = self.set_fat(tail, new, scratch);
        let ghost s2 = *self;
        proof {
            state::lemma_step(
                before,
                s1,
                s2,
                take,
                taken,
                link,
                linked,
                open.and(record.and(reply)),
            );
        }
        match linked {
            Ok(()) => {},
            Err(error) => return Err(error),
        }
        proof {
            g.lemma_heap_bounds(tail);
        }
        let base: u64 = g.partition.first_lba + g.cluster_heap_offset as u64 + (tail - 2) as u64
            * g.sectors_per_cluster as u64;
        let opened = self.fill_up_sector(base + (g.sectors_per_cluster - 1) as u64, scratch);
        let ghost s3 = *self;
        proof {
            state::lemma_step(
                before,
                s2,
                s3,
                take.and(link),
                linked,
                open,
                opened,
                record.and(reply),
            );
        }
        match opened {
            Ok(()) => {},
            Err(error) => return Err(error),
        }
        let recorded = self.record_growth(directory, scratch);
        let ghost s4 = *self;
        proof {
            state::lemma_step(
                before,
                s3,
                s4,
                take.and(link).and(open),
                opened,
                record,
                recorded,
                reply,
            );
            let all = take.and(link).and(open).and(record);
            state::lemma_answer(s4, s4, reply.result, reply.result);
            if recorded is Ok {
                state::lemma_and_succeeds(before, s4, s4, recorded, all, reply.result, reply);
            }
        }
        match recorded {
            Ok(()) => Ok(new),
            Err(error) => Err(error),
        }
    }
}

/// Put the first slots of sector `lba` behind the first `run` locators, up to
/// `wanted` of them in all.
fn join_slots(locators: &mut [EntryLocator; 19], run: usize, wanted: usize, lba: u64)
    requires
        run <= wanted <= 19,
    ensures
        final(locators)@.take(run as int) == old(locators)@.take(run as int),
        forall|i: int|
            run <= i < wanted ==> #[trigger] final(locators)@[i] == (EntryLocator {
                lba,
                offset: (32 * (i - run)) as u16,
            }),
{
    let mut i: usize = run;
    while i < wanted
        invariant
            run <= i <= wanted <= 19,
            locators@.take(run as int) == old(locators)@.take(run as int),
            forall|k: int|
                run <= k < i ==> #[trigger] locators@[k] == (EntryLocator {
                    lba,
                    offset: (32 * (k - run)) as u16,
                }),
        decreases wanted - i,
    {
        let ghost head = locators@.take(run as int);
        locators[i] = EntryLocator { lba, offset: (32 * (i - run)) as u16 };
        assert(locators@.take(run as int) =~= head);
        i = i + 1;
    }
}

impl<D: BlockDevice> FileSystem<D> {
    /// Search a directory for adjacent free slots. Answers nothing where
    /// `wanted` of them were found, and otherwise how many there are at the
    /// end of the directory and why it ends there.
    fn search_slots(
        &mut self,
        directory: &Directory,
        wanted: usize,
        scratch: &mut Scratch<'_>,
        locators: &mut [EntryLocator; 19],
    ) -> (result: Result<Option<(usize, End)>, Error<D::Error>>)
        requires
            old(self).wf(),
            0 < wanted <= 19,
            old(scratch)@.len() >= old(self).volume.geometry.bytes_per_sector,
        ensures
            final(self).wf(),
            final(scratch)@.len() == old(scratch)@.len(),
            state::answers(*old(self), *final(self), result, result),
            search_shows(
                old(self).volume.geometry,
                old(self).media(),
                directory@,
                wanted as nat,
                final(locators)@,
                result,
            ),
    {
        let g = self.volume.geometry;
        let size: usize = g.bytes_per_sector as usize;
        let ghost media = self.media();
        let ghost all = walk::directory_slots(g, media, directory@);
        let mut cursor = Cursor::start(directory, g);
        let mut run: usize = 0;
        assert(cursor.pending(g, media) == all);
        assert(locators@.take(0) =~= Seq::empty());
        loop
            invariant
                self.wf(),
                g == self.volume.geometry,
                g == old(self).volume.geometry,
                size == g.bytes_per_sector,
                media == old(self).media(),
                state::answers(*old(self), *self, Ok::<(), Error<D::Error>>(()), Ok(())),
                scratch@.len() == old(scratch)@.len(),
                scratch@.len() >= size,
                cursor.wf(g),
                cursor.ready(media, scratch@, size as int),
                run < wanted <= 19,
                all == walk::directory_slots(g, media, directory@),
                cursor.pending(g, media).end == all.end,
                search(all.slots, wanted as nat, Seq::empty()) == search(
                    cursor.pending(g, media).slots,
                    wanted as nat,
                    locators@.take(run as int),
                ),
            decreases cursor.pending(g, media).slots.len(),
        {
            let ghost pending = cursor.pending(g, media);
            let at = match self.next_slot(&mut cursor, scratch) {
                Ok(Step::Slot(at)) => at,
                Ok(Step::End(end)) => return Ok(Some((run, end))),
                Err(error) => return Err(error),
            };
            assert(pending.slots[0].raw[0] == scratch@.take(size as int)[at.offset as int]);
            let ghost before = locators@.take(run as int);
            if scratch.head(size)[at.offset as usize] < 0x80 {
                locators[run] = at;
                run = run + 1;
                assert(locators@.take(run as int) =~= before.push(at));
                if run == wanted {
                    return Ok(None);
                }
            } else {
                run = 0;
                assert(locators@.take(0) =~= Seq::empty());
            }
        }
    }

    /// Find slots for an entry set, growing the directory where it has too
    /// few.
    #[verifier::rlimit(40)]
    pub fn find_free_entries(
        &mut self,
        directory: &Directory,
        wanted: usize,
        scratch: &mut Scratch<'_>,
        workspace: &mut Workspace,
    ) -> (result: Result<[EntryLocator; 19], Error<D::Error>>)
        requires
            old(self).wf(),
            directory.wf(),
            old(workspace).wf(),
            old(scratch)@.len() >= old(self).volume.geometry.bytes_per_sector,
        ensures
            final(self).wf(),
            final(workspace).wf(),
            final(workspace).utf16 == old(workspace).utf16,
            final(scratch)@.len() == old(scratch)@.len(),
            state::performs(
                *old(self),
                *final(self),
                found_view(result, wanted as int),
                find_entries_plan(
                    old(self).volume,
                    old(self).media(),
                    old(self).free_clusters,
                    directory@,
                    wanted as nat,
                ),
            ),
            !(3 <= wanted <= 19) ==> {
                &&& result == Err::<[EntryLocator; 19], Error<D::Error>>(Error::Corrupt)
                &&& *final(self) == *old(self)
            },
    {
        let g = self.volume.geometry;
        let size: usize = g.bytes_per_sector as usize;
        let ghost before = *self;
        let ghost v = self.volume;
        let ghost free = self.free_clusters;
        proof {
            state::lemma_answer(before, before, Ok::<(), Error<D::Error>>(()), Ok(()));
            state::lemma_answer(
                before,
                before,
                Err::<Seq<EntryLocator>, Error<D::Error>>(Error::Corrupt),
                Err(Error::Corrupt),
            );
        }
        if wanted < 3 || wanted > 19 {
            return Err(Error::Corrupt);
        }
        let ghost want = wanted as nat;
        let ghost plan = find_plan::<D::Error>(v, self.media(), free, directory@, want);
        let ghost mut done = Plan::<(), D::Error>::answer(free, Ok(()));
        assert(done.and(plan) =~= plan);
        let mut current = *directory;
        loop
            invariant
                self.wf(),
                workspace.wf(),
                workspace.utf16 == old(workspace).utf16,
                3 <= wanted <= 19,
                want == wanted,
                before == *old(self),
                v == before.volume,
                v == self.volume,
                g == v.geometry,
                size == g.bytes_per_sector,
                free == before.free_clusters,
                current.wf(),
                scratch@.len() == old(scratch)@.len(),
                scratch@.len() >= size,
                done.result == Ok::<(), Error<D::Error>>(()),
                state::performs(before, *self, Ok(()), done),
                plan == find_plan::<D::Error>(v, before.media(), free, directory@, want),
                plan == done.and(
                    find_plan::<D::Error>(
                        v,
                        self.media(),
                        self.free_clusters,
                        current@,
                        want,
                    ),
                ),
            decreases self.free_clusters,
        {
            let ghost s0 = *self;
            let ghost media = self.media();
            let ghost d = current@;
            let ghost rest = find_plan::<D::Error>(v, media, s0.free_clusters, d, want);
            let searched = self.search_slots(&current, wanted, scratch, &mut workspace.locators);
            let ghost s1 = *self;
            proof {
                state::lemma_read_within(
                    before,
                    s0,
                    s1,
                    done,
                    Ok(()),
                    searched,
                    searched,
                    rest,
                );
                if searched is Ok && !(rest.result matches Err(Error::Device(_))) {
                    state::lemma_answer(s1, s1, rest.result, rest.result);
                    state::lemma_and_succeeds(
                        before,
                        s1,
                        s1,
                        Ok(()),
                        done,
                        rest.result,
                        Plan::answer(s1.free_clusters, rest.result),
                    );
                }
                walk::lemma_tail_into(
                    g,
                    media,
                    walk::layout_of(d),
                    d.first_cluster,
                    d.data_length as nat,
                    g.cluster_count as nat,
                );
            }
            let (run, end) = match searched {
                Ok(Some(short)) => short,
                Ok(None) => return Ok(workspace.locators),
                Err(error) => return Err(error),
            };
            let tail: u32 = match end {
                End::Tail(tail) => tail,
                End::Corrupt => return Err(Error::Corrupt),
                _ => return Err(Error::NoSpace),
            };
            let ghost grow = grow_plan::<D::Error>(v, media, s0.free_clusters, d, tail);
            let ghost run_locs = workspace.locators@.take(run as int);
            let ghost needed_slots = (want - run) as nat;
            let ghost joins = run != 0 && needed_slots <= g.bytes_per_sector as nat / 32;
            let ghost after = if joins {
                Plan::<Seq<EntryLocator>, D::Error>::answer(
                    grow.free,
                    Ok(run_locs + first_slots(g, grow.result->Ok_0, needed_slots)),
                )
            } else if grow.free < s0.free_clusters {
                find_plan::<D::Error>(
                    v,
                    grow.leaves(media),
                    grow.free,
                    longer(g, d),
                    want,
                )
            } else {
                Plan::answer(grow.free, Err(Error::Corrupt))
            };
            assert(rest == grow.and(after));
            let grown = self.grow_directory(&current, tail, scratch);
            let ghost s2 = *self;
            proof {
                state::lemma_step(before, s1, s2, done, Ok(()), grow, grown, after);
                lemma_grow::<D::Error>(v, media, s0.free_clusters, d, tail);
            }
            let new: u32 = match grown {
                Ok(new) => new,
                Err(error) => return Err(error),
            };
            // A long entry set may begin in the old tail sector and end in
            // the new cluster. Its old zero entries were retired above so
            // directory readers can cross the new FAT link; the caller
            // immediately overwrites them with the complete set.
            if run != 0 && wanted - run <= size / 32 {
                proof {
                    g.lemma_heap_bounds(new);
                }
                let lba: u64 = g.partition.first_lba + g.cluster_heap_offset as u64 + (new
                    - 2) as u64 * g.sectors_per_cluster as u64;
                join_slots(&mut workspace.locators, run, wanted, lba);
                assert(workspace.locators@.take(wanted as int) =~= run_locs + first_slots(
                    g,
                    new,
                    needed_slots,
                ));
                proof {
                    state::lemma_answer(s2, s2, after.result, after.result);
                    state::lemma_and_succeeds(
                        before,
                        s2,
                        s2,
                        grown,
                        done.and(grow),
                        after.result,
                        after,
                    );
                }
                return Ok(workspace.locators);
            }
            if current.data_length != 0 {
                current.data_length = current.data_length + g.bytes_per_cluster() as u64;
            }
            assert(current@ =~= longer(g, d));
            proof {
                let quiet = quiet_plan(grow);
                assert(done.and(quiet).and(after) =~= done.and(grow).and(after));
                done = done.and(quiet);
            }
        }
    }
}

/// A plan without the cluster in its answer.
pub open spec fn quiet_plan<E>(plan: Plan<u32, E>) -> Plan<(), E> {
    Plan { writes: plan.writes, counts: plan.counts, free: plan.free, result: Ok(()) }
}

/// Whether the locators and the answer of a search are what the directory
/// holds.
pub open spec fn search_shows<E>(
    g: Geometry,
    media: Media,
    d: DirectoryModel,
    wanted: nat,
    locators: Seq<EntryLocator>,
    result: Result<Option<(usize, End)>, Error<E>>,
) -> bool {
    let all = walk::directory_slots(g, media, d);
    match result {
        Ok(None) => search(all.slots, wanted, Seq::empty()) == Search::Found(
            locators.take(wanted as int),
        ),
        Ok(Some((run, end))) => {
            &&& run < wanted
            &&& end == all.end
            &&& search(all.slots, wanted, Seq::empty()) == Search::Short(
                locators.take(run as int),
            )
        },
        Err(error) => error is Device,
    }
}

/// A directory that grew took one free cluster of the heap.
pub proof fn lemma_grow<E>(v: Volume, media: Media, free: u32, d: DirectoryModel, tail: u32)
    requires
        v.geometry.wf(),
    ensures
        grow_plan::<E>(v, media, free, d, tail).result matches Ok(new) ==> {
            &&& v.geometry.in_heap(new)
            &&& grow_plan::<E>(v, media, free, d, tail).free == free - 1
            &&& d.data_length == 0 || d.data_length + v.geometry.cluster_bytes() <= u64::MAX
        },
{
    reveal(grow_plan);
    allocation::lemma_allocate_counts::<E>(v, media, free, (tail + 1) as u32);
}

} // verus!
