//! Walking the slots of a directory, one sector at a time.

use crate::device::{BlockDevice, Media, Scratch};
use crate::directory::entry::{Directory, DirectoryModel};
use crate::directory::slots;
use crate::directory::slots::{EntryLocator, Slot, Span};
use crate::error::Error;
use crate::fs::allocation;
use crate::fs::state;
use crate::fs::state::FileSystem;
use crate::geometry::{Geometry, CHAIN_END};
use vstd::prelude::*;

verus! {

/// Why a walk ended.
#[derive(Clone, Copy, Debug, Eq, PartialEq)]
pub enum End {
    /// The directory's length was used up.
    Bytes,
    /// The last contiguous cluster was left.
    Contiguous,
    /// The FAT ends the chain behind this cluster.
    Tail(u32),
    /// The cluster chain is damaged.
    Corrupt,
}

/// How a directory is laid out.
#[derive(Clone, Copy, Debug, Eq, PartialEq)]
pub struct Layout {
    /// Whether the directory has no length of its own, as the root has none.
    pub whole: bool,
    /// Whether its clusters are contiguous rather than FAT linked.
    pub contiguous: bool,
}

/// The sectors that a walk visits, and why it ends.
#[verifier::ext_equal]
pub struct Walk {
    /// The sectors, in order.
    pub spans: Seq<Span>,
    /// Why the walk ends behind them.
    pub end: End,
}

/// The slots that a walk visits, and why it ends.
#[verifier::ext_equal]
pub struct Pending {
    /// The slots, in order.
    pub slots: Seq<Slot>,
    /// Why the walk ends behind them.
    pub end: End,
}

/// Bytes of a sector that belong to a directory with `remaining` bytes left.
pub open spec fn usable(g: Geometry, p: Layout, remaining: nat) -> nat {
    if p.whole || remaining >= g.bytes_per_sector {
        g.bytes_per_sector as nat
    } else {
        remaining
    }
}

/// The walk from sector number `sector` of `cluster` on, where `remaining`
/// bytes of the directory and `budget` clusters are left.
pub open spec fn walk_from(
    g: Geometry,
    media: Media,
    p: Layout,
    cluster: u32,
    sector: nat,
    remaining: nat,
    budget: nat,
) -> Walk
    decreases budget, g.sectors_per_cluster - sector + 1,
    when sector <= g.sectors_per_cluster
{
    if sector < g.sectors_per_cluster {
        if !p.whole && remaining == 0 {
            Walk { spans: Seq::empty(), end: End::Bytes }
        } else {
            let used = usable(g, p, remaining);
            let left = if p.whole {
                remaining
            } else {
                (remaining - used) as nat
            };
            let rest = walk_from(g, media, p, cluster, sector + 1, left, budget);
            let here = Span { lba: (g.heap_lba(cluster as int) + sector) as u64, usable: used };
            Walk { spans: seq![here] + rest.spans, end: rest.end }
        }
    } else if p.contiguous {
        if remaining == 0 {
            Walk { spans: Seq::empty(), end: End::Contiguous }
        } else {
            walk_into(g, media, p, (cluster + 1) as u32, remaining, budget)
        }
    } else {
        match allocation::next_of(g, media, cluster) {
            Some(next) => if next >= CHAIN_END {
                Walk { spans: Seq::empty(), end: End::Tail(cluster) }
            } else {
                walk_into(g, media, p, next, remaining, budget)
            },
            None => Walk { spans: Seq::empty(), end: End::Corrupt },
        }
    }
}

/// The walk from the first sector of `cluster` on.
pub open spec fn walk_into(
    g: Geometry,
    media: Media,
    p: Layout,
    cluster: u32,
    remaining: nat,
    budget: nat,
) -> Walk
    decreases budget, 0int,
{
    if budget == 0 || !g.in_heap(cluster) {
        Walk { spans: Seq::empty(), end: End::Corrupt }
    } else {
        walk_from(g, media, p, cluster, 0, remaining, (budget - 1) as nat)
    }
}

/// How the directory `d` is laid out.
pub open spec fn layout_of(d: DirectoryModel) -> Layout {
    Layout { whole: d.data_length == 0, contiguous: d.no_fat_chain }
}

/// The slots of the directory `d`.
pub open spec fn directory_slots(g: Geometry, media: Media, d: DirectoryModel) -> Pending {
    let walk = walk_into(
        g,
        media,
        layout_of(d),
        d.first_cluster,
        d.data_length as nat,
        g.cluster_count as nat,
    );
    Pending { slots: slots::span_slots(media, walk.spans), end: walk.end }
}

/// A position within a directory.
#[derive(Clone, Copy, Debug, Eq, PartialEq)]
pub struct Cursor {
    /// How the directory is laid out.
    pub layout: Layout,
    /// Cluster that the cursor is in, or about to enter.
    pub cluster: u32,
    /// Whether it is in that cluster.
    pub entered: bool,
    /// Sectors of the cluster that were entered so far.
    pub sector: u32,
    /// Bytes of the directory behind them.
    pub remaining: u64,
    /// Clusters that may still be entered.
    pub budget: u32,
    /// Sector that the cursor is in.
    pub lba: u64,
    /// Slots of that sector.
    pub slots: usize,
    /// Slots of that sector that were handed out.
    pub slot: usize,
    /// Whether the scratch storage holds that sector.
    pub loaded: bool,
}

/// One step of a walk.
#[derive(Clone, Copy, Debug, Eq, PartialEq)]
pub enum Step {
    /// The next slot.
    Slot(EntryLocator),
    /// The end of the walk.
    End(End),
}

impl Cursor {
    /// The slots that are still to come.
    pub open spec fn pending(self, g: Geometry, media: Media) -> Pending {
        let walk = if self.entered {
            walk_from(
                g,
                media,
                self.layout,
                self.cluster,
                self.sector as nat,
                self.remaining as nat,
                self.budget as nat,
            )
        } else {
            walk_into(
                g,
                media,
                self.layout,
                self.cluster,
                self.remaining as nat,
                self.budget as nat,
            )
        };
        Pending {
            slots: slots::sector_slots(media, self.lba, (32 * self.slots) as nat).skip(
                self.slot as int,
            ) + slots::span_slots(media, walk.spans),
            end: walk.end,
        }
    }

    /// What every cursor on a volume with this geometry has.
    pub open spec fn wf(self, g: Geometry) -> bool {
        &&& self.slot <= self.slots
        &&& 32 * self.slots <= g.bytes_per_sector
        &&& self.entered ==> g.in_heap(self.cluster) && self.sector <= g.sectors_per_cluster
    }

    /// Whether the scratch storage holds what the cursor expects there.
    pub open spec fn ready(self, media: Media, scratch: Seq<u8>, size: int) -> bool {
        self.loaded ==> scratch.take(size) == media[self.lba]
    }

    /// A position before the first slot of a directory.
    pub fn start(directory: &Directory, geometry: Geometry) -> (cursor: Self)
        requires
            geometry.wf(),
        ensures
            cursor.wf(geometry),
            !cursor.loaded,
            forall|media: Media|
                #[trigger] cursor.pending(geometry, media) == directory_slots(
                    geometry,
                    media,
                    directory@,
                ),
    {
        let cursor = Cursor {
            layout: Layout {
                whole: directory.data_length == 0,
                contiguous: directory.no_fat_chain,
            },
            cluster: directory.first_cluster,
            entered: false,
            sector: 0,
            remaining: directory.data_length,
            budget: geometry.cluster_count,
            lba: 0,
            slots: 0,
            slot: 0,
            loaded: false,
        };
        assert forall|media: Media|
            #[trigger] cursor.pending(geometry, media) == directory_slots(
                geometry,
                media,
                directory@,
            ) by {
            assert(cursor.pending(geometry, media) =~= directory_slots(
                geometry,
                media,
                directory@,
            ));
        }
        cursor
    }
}

/// What a step answers, given the slots that were still to come.
pub open spec fn step_of(before: Pending) -> Step {
    if before.slots.len() == 0 {
        Step::End(before.end)
    } else {
        Step::Slot(before.slots[0].at)
    }
}

impl<D: BlockDevice> FileSystem<D> {
    /// Enter the next sector of the directory; answers why the walk ends
    /// where there is none.
    fn next_sector(&mut self, cursor: &mut Cursor, scratch: &mut Scratch<'_>) -> (result: Result<
        Option<End>,
        Error<D::Error>,
    >)
        requires
            old(self).wf(),
            old(scratch)@.len() >= old(self).volume.geometry.bytes_per_sector,
            old(cursor).wf(old(self).volume.geometry),
            old(cursor).slot == old(cursor).slots,
        ensures
            final(self).wf(),
            final(scratch)@.len() == old(scratch)@.len(),
            state::answers(*old(self), *final(self), result, result),
            final(cursor).wf(old(self).volume.geometry),
            match result {
                Ok(None) => {
                    &&& final(cursor).loaded
                    &&& final(cursor).ready(
                        old(self).media(),
                        final(scratch)@,
                        old(self).volume.geometry.bytes_per_sector as int,
                    )
                    &&& final(cursor).slot == 0
                    &&& final(cursor).pending(old(self).volume.geometry, old(self).media())
                        == old(cursor).pending(old(self).volume.geometry, old(self).media())
                    &&& walk_measure(*final(cursor), old(self).volume.geometry)
                        < walk_measure(*old(cursor), old(self).volume.geometry)
                },
                Ok(Some(end)) => {
                    let pending = old(cursor).pending(
                        old(self).volume.geometry,
                        old(self).media(),
                    );
                    &&& pending.slots.len() == 0
                    &&& pending.end == end
                },
                Err(error) => error is Device,
            },
    {
        let g = self.volume.geometry;
        let size: usize = g.bytes_per_sector as usize;
        let ghost media = self.media();
        let ghost start = *cursor;
        let ghost goal = cursor.pending(g, media);
        assert(slots::sector_slots(media, cursor.lba, (32 * cursor.slots) as nat).skip(
            cursor.slot as int,
        ) =~= Seq::empty());
        cursor.slots = 0;
        cursor.slot = 0;
        cursor.loaded = false;
        assert(cursor.pending(g, media) =~= goal);
        if cursor.entered && cursor.sector >= g.sectors_per_cluster {
            if cursor.layout.contiguous {
                if cursor.remaining == 0 {
                    return Ok(Some(End::Contiguous));
                }
                cursor.cluster = cursor.cluster + 1;
            } else {
                let next: u32 = match self.next_cluster(cursor.cluster, scratch) {
                    Ok(next) => next,
                    Err(Error::Corrupt) => return Ok(Some(End::Corrupt)),
                    Err(error) => return Err(error),
                };
                if next >= CHAIN_END {
                    return Ok(Some(End::Tail(cursor.cluster)));
                }
                cursor.cluster = next;
            }
            cursor.entered = false;
        }
        assert(cursor.pending(g, media) =~= goal);
        if !cursor.entered {
            if cursor.budget == 0 || !g.contains_cluster(cursor.cluster) {
                return Ok(Some(End::Corrupt));
            }
            cursor.budget = cursor.budget - 1;
            cursor.entered = true;
            cursor.sector = 0;
        }
        assert(cursor.pending(g, media) =~= goal);
        if !cursor.layout.whole && cursor.remaining == 0 {
            return Ok(Some(End::Bytes));
        }
        proof {
            g.lemma_heap_bounds(cursor.cluster);
        }
        let base: u64 = g.partition.first_lba + g.cluster_heap_offset as u64 + (cursor.cluster
            - 2) as u64 * g.sectors_per_cluster as u64;
        let lba: u64 = base + cursor.sector as u64;
        match self.fetch(lba, scratch) {
            Ok(()) => {},
            Err(error) => return Err(error),
        }
        let used: usize = if cursor.layout.whole || cursor.remaining >= size as u64 {
            size
        } else {
            cursor.remaining as usize
        };
        let ghost entering = *cursor;
        if !cursor.layout.whole {
            cursor.remaining = cursor.remaining - used as u64;
        }
        cursor.sector = cursor.sector + 1;
        cursor.lba = lba;
        cursor.slots = used / 32;
        cursor.slot = 0;
        cursor.loaded = true;
        proof {
            let walk = walk_from(
                g,
                media,
                entering.layout,
                entering.cluster,
                entering.sector as nat,
                entering.remaining as nat,
                entering.budget as nat,
            );
            assert(walk.spans[0] == (Span { lba, usable: used as nat }));
            let rest = walk_from(
                g,
                media,
                cursor.layout,
                cursor.cluster,
                cursor.sector as nat,
                cursor.remaining as nat,
                cursor.budget as nat,
            );
            assert(walk.spans.drop_first() =~= rest.spans);
            assert(slots::sector_slots(media, lba, (32 * cursor.slots) as nat).skip(0)
                =~= slots::sector_slots(media, lba, used as nat));
            assert(cursor.pending(g, media) =~= entering.pending(g, media));
            lemma_measure(start, *cursor, g);
        }
        Ok(None)
    }

    /// Hand out the next slot of a directory. The scratch storage then holds
    /// the slot's sector.
    pub fn next_slot(&mut self, cursor: &mut Cursor, scratch: &mut Scratch<'_>) -> (result: Result<
        Step,
        Error<D::Error>,
    >)
        requires
            old(self).wf(),
            old(scratch)@.len() >= old(self).volume.geometry.bytes_per_sector,
            old(cursor).wf(old(self).volume.geometry),
            old(cursor).ready(
                old(self).media(),
                old(scratch)@,
                old(self).volume.geometry.bytes_per_sector as int,
            ),
        ensures
            final(self).wf(),
            final(scratch)@.len() == old(scratch)@.len(),
            final(cursor).wf(old(self).volume.geometry),
            state::answers(
                *old(self),
                *final(self),
                result,
                Ok(
                    step_of(
                        old(cursor).pending(old(self).volume.geometry, old(self).media()),
                    ),
                ),
            ),
            result matches Ok(Step::Slot(at)) ==> {
                let before = old(cursor).pending(old(self).volume.geometry, old(self).media());
                let after = final(cursor).pending(old(self).volume.geometry, old(self).media());
                let size = old(self).volume.geometry.bytes_per_sector as int;
                &&& before.slots.len() > 0
                &&& after.slots == before.slots.drop_first()
                &&& after.end == before.end
                &&& final(cursor).ready(old(self).media(), final(scratch)@, size)
                &&& final(scratch)@.take(size) == old(self).media()[at.lba]
                &&& at.offset + 32 <= size
                &&& before.slots[0].raw == final(scratch)@.subrange(
                    at.offset as int,
                    at.offset + 32,
                )
            },
    {
        let g = self.volume.geometry;
        let size: usize = g.bytes_per_sector as usize;
        let ghost media = self.media();
        let ghost goal = cursor.pending(g, media);
        while cursor.slot >= cursor.slots
            invariant
                self.wf(),
                g == self.volume.geometry,
                g == old(self).volume.geometry,
                size == g.bytes_per_sector,
                media == old(self).media(),
                state::answers(*old(self), *self, Ok::<(), Error<D::Error>>(()), Ok(())),
                scratch@.len() == old(scratch)@.len(),
                scratch@.len() >= size,
                cursor.wf(g),
                cursor.ready(media, scratch@, size as int),
                cursor.pending(g, media) == goal,
                goal == old(cursor).pending(g, media),
            decreases walk_measure(*cursor, g),
        {
            match self.next_sector(cursor, scratch) {
                Ok(None) => {},
                Ok(Some(end)) => return Ok(Step::End(end)),
                Err(error) => return Err(error),
            }
        }
        if !cursor.loaded {
            match self.fetch(cursor.lba, scratch) {
                Ok(()) => {},
                Err(error) => return Err(error),
            }
            cursor.loaded = true;
        }
        let at = EntryLocator { lba: cursor.lba, offset: (32 * cursor.slot) as u16 };
        let ghost before = *cursor;
        cursor.slot = cursor.slot + 1;
        proof {
            let here = slots::sector_slots(media, cursor.lba, (32 * cursor.slots) as nat);
            assert(goal.slots[0] == here[before.slot as int]);
            assert(here[before.slot as int] == slots::slot_at(
                media,
                cursor.lba,
                before.slot as int,
            ));
            assert(cursor.pending(g, media).slots =~= goal.slots.drop_first());
            assert(goal.slots[0].raw =~= scratch@.subrange(at.offset as int, at.offset + 32));
        }
        Ok(Step::Slot(at))
    }
}

/// A walk that ends at the end of a chain ends in a cluster of the heap.
pub proof fn lemma_tail_from(
    g: Geometry,
    media: Media,
    p: Layout,
    cluster: u32,
    sector: nat,
    remaining: nat,
    budget: nat,
)
    requires
        g.in_heap(cluster),
        sector <= g.sectors_per_cluster,
    ensures
        walk_from(g, media, p, cluster, sector, remaining, budget).end matches End::Tail(tail)
            ==> g.in_heap(tail),
    decreases budget, g.sectors_per_cluster - sector + 1,
{
    if sector < g.sectors_per_cluster {
        if p.whole || remaining != 0 {
            let left = if p.whole {
                remaining
            } else {
                (remaining - usable(g, p, remaining)) as nat
            };
            lemma_tail_from(g, media, p, cluster, sector + 1, left, budget);
        }
    } else if p.contiguous {
        lemma_tail_into(g, media, p, (cluster + 1) as u32, remaining, budget);
    } else if let Some(next) = allocation::next_of(g, media, cluster) {
        lemma_tail_into(g, media, p, next, remaining, budget);
    }
}

/// A walk that ends at the end of a chain ends in a cluster of the heap.
pub proof fn lemma_tail_into(
    g: Geometry,
    media: Media,
    p: Layout,
    cluster: u32,
    remaining: nat,
    budget: nat,
)
    ensures
        walk_into(g, media, p, cluster, remaining, budget).end matches End::Tail(tail)
            ==> g.in_heap(tail),
    decreases budget, 0int,
{
    if budget > 0 && g.in_heap(cluster) {
        lemma_tail_from(g, media, p, cluster, 0, remaining, (budget - 1) as nat);
    }
}

/// An upper bound of the sectors that a cursor may still enter.
pub open spec fn walk_measure(cursor: Cursor, g: Geometry) -> nat {
    (cursor.budget * (g.sectors_per_cluster + 1) + if cursor.entered {
        g.sectors_per_cluster - cursor.sector
    } else {
        0
    }) as nat
}

/// Entering a sector leaves fewer to enter.
proof fn lemma_measure(before: Cursor, after: Cursor, g: Geometry)
    requires
        g.wf(),
        after.entered,
        before.entered ==> before.sector <= g.sectors_per_cluster,
        after.sector <= g.sectors_per_cluster,
        after.budget == before.budget && before.entered && after.sector == before.sector + 1
            || after.budget == before.budget - 1 && after.sector == 1,
    ensures
        walk_measure(after, g) < walk_measure(before, g),
{
    let per = g.sectors_per_cluster + 1;
    if after.budget != before.budget {
        assert((before.budget - 1) * per == before.budget * per - per) by (nonlinear_arith);
    }
    assert(0 <= after.budget * per) by (nonlinear_arith)
        requires
            0 <= per,
    ;
}

} // verus!
