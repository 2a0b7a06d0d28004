//! Sequential reading.

use crate::device::Media;
use crate::fs::allocation;
use crate::fs::file::FileModel;
use crate::fs::stream;
use crate::geometry::{AllocationBitmap, Geometry};
use vstd::prelude::*;

verus! {

/// Two reads, one after the other, read what one long read does: where a
/// later byte lies does not depend on how far the handle has been read.
pub proof fn law_reads_are_sequential(
    g: Geometry,
    media: Media,
    f: FileModel,
    first: int,
    second: int,
)
    requires
        g.wf(),
        f.cache_behind(g),
        0 <= first,
        0 <= second,
        f.position + first + second <= u64::MAX,
        stream::all_placed(g, media, f, first),
    ensures
        ({
            let middle = stream::advanced(g, media, f, first);
            &&& middle.position == f.position + first
            &&& stream::all_placed(g, media, middle, second) == stream::all_placed(
                g,
                media,
                f,
                first + second,
            )
            &&& forall|j: int|
                0 <= j ==> #[trigger] stream::file_byte(g, media, middle, middle.position + j)
                    == stream::file_byte(g, media, f, f.position + first + j)
        }),
{
    let middle = stream::advanced(g, media, f, first);
    if first > 0 {
        assert(stream::file_place(g, media, f, f.position + (first - 1)) is Some);
    }
    assert forall|j: int| 0 <= j implies #[trigger] stream::file_place(
        g,
        media,
        middle,
        middle.position + j,
    ) == stream::file_place(g, media, f, f.position + first + j) by {
        stream::lemma_advanced(g, media, f, first, f.position + first + j);
    }
    if stream::all_placed(g, media, middle, second) {
        assert forall|j: int| 0 <= j < first + second implies #[trigger] stream::file_place(
            g,
            media,
            f,
            f.position + j,
        ) is Some by {
            if j >= first {
                assert(stream::file_place(g, media, middle, middle.position + (j - first)) is Some);
                assert(f.position + first + (j - first) == f.position + j);
            }
        }
    }
    if stream::all_placed(g, media, f, first + second) {
        assert forall|j: int| 0 <= j < second implies #[trigger] stream::file_place(
            g,
            media,
            middle,
            middle.position + j,
        ) is Some by {
            assert(stream::file_place(g, media, f, f.position + (first + j)) is Some);
        }
    }
    assert forall|j: int| 0 <= j implies #[trigger] stream::file_byte(
        g,
        media,
        middle,
        middle.position + j,
    ) == stream::file_byte(g, media, f, f.position + first + j) by {
        assert(stream::file_place(g, media, middle, middle.position + j) == stream::file_place(
            g,
            media,
            f,
            f.position + first + j,
        ));
    }
}

/// Remembering a cluster changes nothing but the effort: with a cache that
/// agrees with the FAT, a file's clusters are those of its chain.
pub proof fn law_cache_is_transparent(g: Geometry, media: Media, f: FileModel, wanted: int)
    requires
        !f.no_fat_chain,
        g.in_heap(f.first_cluster),
        0 <= wanted < g.cluster_count,
        f.cache matches Some((index, cluster)) ==> allocation::chain_at(
            g,
            media,
            f.first_cluster,
            index as nat,
        ) == Some(cluster),
    ensures
        stream::file_cluster(g, media, f, wanted) == allocation::chain_at(
            g,
            media,
            f.first_cluster,
            wanted as nat,
        ),
{
    if let Some((index, cluster)) = f.cache {
        if index <= wanted {
            stream::lemma_chain_in_heap(g, media, f.first_cluster, index as nat);
            stream::lemma_chain_join(
                g,
                media,
                f.first_cluster,
                index as nat,
                (wanted - index) as nat,
            );
        }
    }
}

/// Every cluster has a bitmap bit of its own.
pub proof fn law_bitmap_positions_are_distinct(bitmap: AllocationBitmap, a: u32, b: u32)
    requires
        bitmap.position(a) is Some,
        bitmap.position(a) == bitmap.position(b),
    ensures
        a == b,
{
}

} // verus!
