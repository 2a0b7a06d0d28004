//! Directory sectors as sequences of 32-byte entry slots.

use crate::bytes;
use crate::device::Media;
use crate::geometry::{Geometry, CHAIN_END};
use vstd::prelude::*;

verus! {

/// Where a directory entry lies on the media.
#[derive(Clone, Copy, Debug, Eq, PartialEq)]
pub struct EntryLocator {
    /// Sector that holds the entry.
    pub lba: u64,
    /// Byte of that sector at which the entry starts.
    pub offset: u16,
}

/// One 32-byte entry slot of a directory.
pub struct Slot {
    /// Where the slot lies.
    pub at: EntryLocator,
    /// Its 32 bytes.
    pub raw: Seq<u8>,
}

/// A directory sector and how many of its bytes belong to the directory.
pub struct Span {
    /// The sector.
    pub lba: u64,
    /// Bytes of it that belong to the directory.
    pub usable: nat,
}

/// Slot number `j` of sector `lba`.
pub open spec fn slot_at(media: Media, lba: u64, j: int) -> Slot {
    Slot {
        at: EntryLocator { lba, offset: (32 * j) as u16 },
        raw: media[lba].subrange(32 * j, 32 * j + 32),
    }
}

/// The complete slots in the first `usable` bytes of sector `lba`.
pub open spec fn sector_slots(media: Media, lba: u64, usable: nat) -> Seq<Slot> {
    Seq::new(usable / 32, |j: int| slot_at(media, lba, j))
}

/// The slots of a run of directory sectors, in order.
pub open spec fn span_slots(media: Media, spans: Seq<Span>) -> Seq<Slot>
    decreases spans.len(),
{
    if spans.len() == 0 {
        Seq::empty()
    } else {
        sector_slots(media, spans[0].lba, spans[0].usable) + span_slots(media, spans.drop_first())
    }
}

/// The sectors of `cluster`, each of them used in full.
pub open spec fn cluster_spans(g: Geometry, cluster: u32) -> Seq<Span> {
    Seq::new(
        g.sectors_per_cluster as nat,
        |i: int|
            Span {
                lba: (g.heap_lba(cluster as int) + i) as u64,
                usable: g.bytes_per_sector as nat,
            },
    )
}

/// The value that the FAT records for `cluster`.
pub open spec fn fat_entry(g: Geometry, media: Media, cluster: u32) -> u32 {
    bytes::u32_at(media[g.fat_lba(cluster)], g.fat_byte(cluster))
}

/// The sectors of the FAT-linked directory that starts at `cluster`, as far as
/// `budget` clusters reach.
pub open spec fn root_spans(g: Geometry, media: Media, cluster: u32, budget: nat) -> Seq<Span>
    decreases budget,
{
    if budget == 0 || !g.in_heap(cluster) {
        Seq::empty()
    } else {
        cluster_spans(g, cluster) + root_spans_after(g, media, cluster, budget)
    }
}

/// The sectors that follow those of `cluster`.
pub open spec fn root_spans_after(g: Geometry, media: Media, cluster: u32, budget: nat) -> Seq<Span>
    decreases budget, 0nat,
    when budget > 0
{
    let next = fat_entry(g, media, cluster);
    if next >= CHAIN_END {
        Seq::empty()
    } else {
        root_spans(g, media, next, (budget - 1) as nat)
    }
}

} // verus!
