//! The system entries of the root directory: allocation bitmap, UpCase table
//! and volume label.

use crate::arith;
use crate::bytes;
use crate::device;
use crate::device::{BlockDevice, Media, Scratch};
use crate::directory::slots;
use crate::directory::slots::Slot;
use crate::error;
use crate::error::Error;
use crate::geometry::{AllocationBitmap, Geometry, UpCaseTable, CHAIN_END};
use vstd::prelude::*;

verus! {

/// UTF-16 exFAT volume label (at most 11 code units).
#[derive(Clone, Copy, Debug, Eq, PartialEq)]
pub struct VolumeLabel {
    /// Storage for the units.
    pub units: [u16; 11],
    /// Number of units in use.
    pub len: u8,
}

impl VolumeLabel {
    /// The label's units.
    pub open spec fn view(&self) -> Seq<u16> {
        self.units@.take(self.len as int)
    }

    /// Whether the units in use fit the storage.
    pub open spec fn wf(self) -> bool {
        self.len <= 11
    }

    /// Empty label used when the volume has no label entry.
    pub fn empty() -> (label: Self)
        ensures
            label.wf(),
            label@ == Seq::<u16>::empty(),
    {
        let label = VolumeLabel { units: [0;11], len: 0 };
        assert(label@ =~= Seq::<u16>::empty());
        label
    }

    /// Label as UTF-16 units.
    pub fn utf16(&self) -> (units: &[u16])
        requires
            self.wf(),
        ensures
            units@ == self@,
    {
        vstd::slice::slice_subrange(self.units.as_slice(), 0, self.len as usize)
    }
}

/// The label that a label entry holds.
pub open spec fn label_of(entry: Seq<u8>) -> Seq<u16> {
    Seq::new(
        if entry[1] < 11 {
            entry[1] as nat
        } else {
            11
        },
        |i: int| bytes::u16_at(entry, 2 + 2 * i),
    )
}

/// Read the label that a label entry holds.
fn read_label(entry: &[u8]) -> (label: VolumeLabel)
    requires
        entry.len() == 32,
    ensures
        label.wf(),
        label@ == label_of(entry@),
{
    let len: u8 = if entry[1] < 11 {
        entry[1]
    } else {
        11
    };
    let mut units: [u16; 11] = [0;11];
    let mut i: usize = 0;
    while i < len as usize
        invariant
            i <= len <= 11,
            entry.len() == 32,
            forall|k: int| 0 <= k < i ==> units@[k] == bytes::u16_at(entry@, 2 + 2 * k),
        decreases len - i,
    {
        units[i] = bytes::le_u16(entry, 2 + 2 * i);
        i = i + 1;
    }
    let label = VolumeLabel { units, len };
    assert(label@ =~= label_of(entry@));
    label
}

/// The system entries that were seen so far.
#[verifier::ext_equal]
pub struct SystemModel {
    /// Active allocation bitmap.
    pub bitmap: Option<AllocationBitmap>,
    /// UpCase table.
    pub upcase: Option<UpCaseTable>,
    /// Volume label.
    pub label: Seq<u16>,
}

impl SystemModel {
    /// Nothing seen yet.
    pub open spec fn none() -> Self {
        SystemModel { bitmap: None, upcase: None, label: Seq::empty() }
    }

    /// What was found, once both required entries have been seen.
    pub open spec fn complete(self) -> Option<(AllocationBitmap, UpCaseTable, Seq<u16>)> {
        match (self.bitmap, self.upcase) {
            (Some(bitmap), Some(upcase)) => Some((bitmap, upcase, self.label)),
            _ => None,
        }
    }

    /// What has been seen after one more entry. The first active bitmap, the
    /// first UpCase table and the last label count.
    pub open spec fn seen(self, entry: Seq<u8>) -> Self {
        if entry[0] == 0x81 && entry[1] % 2 == 0 && self.bitmap is None {
            SystemModel {
                bitmap: Some(
                    AllocationBitmap {
                        first_cluster: bytes::u32_at(entry, 20),
                        byte_length: bytes::u64_at(entry, 24),
                    },
                ),
                ..self
            }
        } else if entry[0] == 0x82 && self.upcase is None {
            SystemModel {
                upcase: Some(
                    UpCaseTable {
                        checksum: bytes::u32_at(entry, 4),
                        first_cluster: bytes::u32_at(entry, 20),
                        byte_length: bytes::u64_at(entry, 24),
                    },
                ),
                ..self
            }
        } else if entry[0] == 0x83 {
            SystemModel { label: label_of(entry), ..self }
        } else {
            self
        }
    }
}

/// What has been seen once a search that has seen `found` before went through
/// `entries`, up to the end mark.
pub open spec fn system_entries(entries: Seq<Slot>, found: SystemModel) -> SystemModel
    decreases entries.len(),
{
    if entries.len() == 0 || entries[0].raw[0] == 0 {
        found
    } else {
        system_entries(entries.drop_first(), found.seen(entries[0].raw))
    }
}

/// The system entries of the volume's root directory, wherever in it they are.
pub open spec fn root_system(g: Geometry, media: Media) -> Option<
    (AllocationBitmap, UpCaseTable, Seq<u16>),
> {
    system_entries(
        slots::span_slots(
            media,
            slots::root_spans(g, media, g.root_cluster, g.cluster_count as nat),
        ),
        SystemModel::none(),
    ).complete()
}

/// The system entries that were seen so far.
struct SystemEntries {
    bitmap: Option<AllocationBitmap>,
    upcase: Option<UpCaseTable>,
    label: VolumeLabel,
}

impl SystemEntries {
    spec fn model(&self) -> SystemModel {
        SystemModel { bitmap: self.bitmap, upcase: self.upcase, label: self.label@ }
    }

    /// Take one more entry into account.
    fn see(&mut self, entry: &[u8])
        requires
            entry.len() == 32,
            old(self).label.wf(),
        ensures
            final(self).label.wf(),
            final(self).model() == old(self).model().seen(entry@),
    {
        if entry[0] == 0x81 && entry[1] % 2 == 0 && self.bitmap.is_none() {
            self.bitmap = Some(
                AllocationBitmap {
                    first_cluster: bytes::le_u32(entry, 20),
                    byte_length: bytes::le_u64(entry, 24),
                },
            );
        } else if entry[0] == 0x82 && self.upcase.is_none() {
            self.upcase = Some(
                UpCaseTable {
                    checksum: bytes::le_u32(entry, 4),
                    first_cluster: bytes::le_u32(entry, 20),
                    byte_length: bytes::le_u64(entry, 24),
                },
            );
        } else if entry[0] == 0x83 {
            self.label = read_label(entry);
        }
    }

    /// What was found, where both required entries have been seen.
    fn complete<E>(&self) -> (result: Result<SystemFound, Error<E>>)
        requires
            self.label.wf(),
        ensures
            found_view(result) == error::or_corrupt::<_, E>(self.model().complete()),
            result matches Ok(found) ==> found.2.wf(),
    {
        match (self.bitmap, self.upcase) {
            (Some(bitmap), Some(upcase)) => Ok((bitmap, upcase, self.label)),
            _ => Err(Error::Corrupt),
        }
    }
}

/// Read the FAT entry of a cluster.
pub fn next_cluster_on<D: BlockDevice>(
    device: &mut D,
    geometry: Geometry,
    cluster: u32,
    scratch: &mut Scratch<'_>,
) -> (result: Result<u32, Error<D::Error>>)
    requires
        geometry.wf(),
        old(device).sector_bytes() == geometry.bytes_per_sector,
        geometry.bytes_per_sector <= old(scratch)@.len(),
    ensures
        final(scratch)@.len() == old(scratch)@.len(),
        device::answers(
            *old(device),
            *final(device),
            result,
            Ok(slots::fat_entry(geometry, old(device).media(), cluster)),
        ),
{
    let size: usize = geometry.bytes_per_sector as usize;
    let byte: u64 = cluster as u64 * 4;
    proof {
        geometry.lemma_fat_byte(cluster);
    }
    let lba: u64 = geometry.partition.first_lba + geometry.fat_offset as u64 + byte / size as u64;
    let offset: usize = (byte % size as u64) as usize;
    match device::load(device, lba, scratch, size) {
        Ok(()) => Ok(bytes::le_u32(scratch.head(size), offset)),
        Err(error) => Err(error),
    }
}

/// A system search result as the volume keeps it.
pub type SystemFound = (AllocationBitmap, UpCaseTable, VolumeLabel);

/// What a system search answers, with the label as a sequence.
pub open spec fn found_view<E>(result: Result<SystemFound, Error<E>>) -> Result<
    (AllocationBitmap, UpCaseTable, Seq<u16>),
    Error<E>,
> {
    match result {
        Ok((bitmap, upcase, label)) => Ok((bitmap, upcase, label@)),
        Err(error) => Err(error),
    }
}

/// Search the root directory for the system entries, up to its end mark or the
/// end of its chain.
pub fn discover_root_system_entries<D: BlockDevice>(
    device: &mut D,
    geometry: Geometry,
    scratch: &mut Scratch<'_>,
) -> (result: Result<SystemFound, Error<D::Error>>)
    requires
        geometry.wf(),
        old(device).sector_bytes() == geometry.bytes_per_sector,
        geometry.bytes_per_sector <= old(scratch)@.len(),
    ensures
        final(scratch)@.len() == old(scratch)@.len(),
        device::answers(
            *old(device),
            *final(device),
            found_view(result),
            error::or_corrupt(root_system(geometry, old(device).media())),
        ),
        result matches Ok(found) ==> found.2.wf(),
{
    let size: usize = geometry.bytes_per_sector as usize;
    let ghost media = device.media();
    let ghost expected = root_system(geometry, media);
    let mut found = SystemEntries { bitmap: None, upcase: None, label: VolumeLabel::empty() };
    let mut cluster: u32 = geometry.root_cluster;
    let mut visited: u32 = 0;
    assert(found.model() == SystemModel::none());
    while visited < geometry.cluster_count
        invariant
            visited <= geometry.cluster_count,
            geometry.wf(),
            size == geometry.bytes_per_sector,
            size <= scratch@.len(),
            scratch@.len() == old(scratch)@.len(),
            device::same_shape(*old(device), *device),
            device.sector_bytes() == size,
            media == old(device).media(),
            device.media() == media,
            device.failures() == old(device).failures(),
            device.stable() == old(device).stable(),
            found.label.wf(),
            expected == root_system(geometry, media),
            expected == system_entries(
                slots::span_slots(
                    media,
                    slots::root_spans(
                        geometry,
                        media,
                        cluster,
                        (geometry.cluster_count - visited) as nat,
                    ),
                ),
                found.model(),
            ).complete(),
        decreases geometry.cluster_count - visited,
    {
        let ghost budget = (geometry.cluster_count - visited) as nat;
        visited = visited + 1;
        if !geometry.contains_cluster(cluster) {
            return found.complete();
        }
        proof {
            geometry.lemma_heap_bounds(cluster);
        }
        let first: u64 = geometry.partition.first_lba + geometry.cluster_heap_offset as u64 + (
        cluster - 2) as u64 * geometry.sectors_per_cluster as u64;
        let ghost own = slots::cluster_spans(geometry, cluster);
        let ghost after = slots::root_spans_after(geometry, media, cluster, budget);
        let mut sector: u32 = 0;
        assert(own.skip(0) =~= own);
        while sector < geometry.sectors_per_cluster
            invariant
                sector <= geometry.sectors_per_cluster,
                geometry.wf(),
                size == geometry.bytes_per_sector,
                size <= scratch@.len(),
                scratch@.len() == old(scratch)@.len(),
                device::same_shape(*old(device), *device),
                device.sector_bytes() == size,
                media == old(device).media(),
                device.media() == media,
                device.failures() == old(device).failures(),
                device.stable() == old(device).stable(),
                found.label.wf(),
                    own == slots::cluster_spans(geometry, cluster),
                first == geometry.heap_lba(cluster as int),
                first + geometry.sectors_per_cluster <= u64::MAX,
                expected == root_system(geometry, media),
                expected == system_entries(
                    slots::span_slots(media, own.skip(sector as int) + after),
                    found.model(),
                ).complete(),
            decreases geometry.sectors_per_cluster - sector,
        {
            let lba: u64 = first + sector as u64;
            match device::load(device, lba, scratch, size) {
                Ok(()) => {},
                Err(error) => return Err(error),
            }
            let ghost here = slots::sector_slots(media, lba, size as nat);
            let ghost rest = slots::span_slots(media, own.skip(sector + 1) + after);
            proof {
                let spans = own.skip(sector as int) + after;
                assert(spans.drop_first() =~= own.skip(sector + 1) + after);
                assert(spans[0] == own[sector as int]);
                assert(here.skip(0) =~= here);
            }
            let mut j: usize = 0;
            while j < size / 32
                invariant
                    j <= size / 32,
                    geometry.wf(),
                    size == geometry.bytes_per_sector,
                    size <= scratch@.len(),
                    scratch@.len() == old(scratch)@.len(),
                    scratch@.take(size as int) == media[lba],
                    device::same_shape(*old(device), *device),
                    device.sector_bytes() == size,
                    media == old(device).media(),
                    device.media() == media,
                    device.failures() == old(device).failures(),
                    device.stable() == old(device).stable(),
                    found.label.wf(),
                            here == slots::sector_slots(media, lba, size as nat),
                    expected == root_system(geometry, media),
                    expected == system_entries(here.skip(j as int) + rest, found.model()).complete(),
                decreases size / 32 - j,
            {
                let at: usize = 32 * j;
                let entry = vstd::slice::slice_subrange(scratch.head(size), at, at + 32);
                proof {
                    let entries = here.skip(j as int) + rest;
                    assert(entries[0] == slots::slot_at(media, lba, j as int));
                    assert(entries[0].raw =~= entry@);
                    assert(entries.drop_first() =~= here.skip(j + 1) + rest);
                }
                if entry[0] == 0 {
                    return found.complete();
                }
                found.see(entry);
                j = j + 1;
            }
            assert(here.skip(j as int) + rest =~= rest);
            sector = sector + 1;
        }
        assert(own.skip(sector as int) + after =~= after);
        let next = match next_cluster_on(device, geometry, cluster, scratch) {
            Ok(next) => next,
            Err(error) => return Err(error),
        };
        if next >= CHAIN_END {
            return found.complete();
        }
        cluster = next;
    }
    found.complete()
}

/// Cluster number `i` of the FAT-linked run that starts at `first`.
pub open spec fn link(g: Geometry, media: Media, first: u32, i: nat) -> u32
    decreases i,
{
    if i == 0 {
        first
    } else {
        slots::fat_entry(g, media, link(g, media, first, (i - 1) as nat))
    }
}

/// Byte number `o` of the FAT-linked run that starts at `first`.
pub open spec fn link_byte(g: Geometry, media: Media, first: u32, o: int) -> u8 {
    let k = o / g.bytes_per_sector as int;
    let cluster = link(g, media, first, (k / g.sectors_per_cluster as int) as nat);
    let lba = (g.heap_lba(cluster as int) + k % g.sectors_per_cluster as int) as u64;
    media[lba][o % g.bytes_per_sector as int]
}

/// The checksum of the first `n` bytes of the FAT-linked run that starts at
/// `first`.
pub open spec fn link_sum(g: Geometry, media: Media, first: u32, n: nat) -> u32
    decreases n,
{
    if n == 0 {
        0
    } else {
        bytes::rolled32(
            link_sum(g, media, first, (n - 1) as nat),
            link_byte(g, media, first, n - 1),
        )
    }
}

/// Whether cluster number `j` of the run is one that a volume can have.
pub open spec fn link_ok(g: Geometry, media: Media, first: u32, j: nat) -> bool {
    j < g.cluster_count && g.in_heap(link(g, media, first, j))
}

/// Whether the UpCase table is where its entry says and has the checksum that
/// the entry records.
pub open spec fn upcase_valid(g: Geometry, media: Media, table: UpCaseTable) -> bool {
    &&& table.byte_length != 0
    &&& forall|j: nat|
        j * g.cluster_bytes() < table.byte_length ==> #[trigger] link_ok(
            g,
            media,
            table.first_cluster,
            j,
        )
    &&& link_sum(g, media, table.first_cluster, table.byte_length as nat) == table.checksum
}

/// The checksum grows by the bytes of one sector.
proof fn lemma_link_sum_sector(
    g: Geometry,
    media: Media,
    first: u32,
    i: nat,
    s: nat,
    count: nat,
)
    requires
        g.wf(),
        s < g.sectors_per_cluster,
        count <= g.bytes_per_sector,
        count <= media[(g.heap_lba(link(g, media, first, i) as int) + s) as u64].len(),
    ensures
        link_sum(
            g,
            media,
            first,
            ((i * g.sectors_per_cluster + s) * g.bytes_per_sector + count) as nat,
        ) == bytes::sum32(
            link_sum(
                g,
                media,
                first,
                ((i * g.sectors_per_cluster + s) * g.bytes_per_sector) as nat,
            ),
            media[(g.heap_lba(link(g, media, first, i) as int) + s) as u64].take(count as int),
        ),
    decreases count,
{
    let data = media[(g.heap_lba(link(g, media, first, i) as int) + s) as u64];
    let spc = g.sectors_per_cluster as int;
    let size = g.bytes_per_sector as int;
    let k = i * spc + s;
    assert(0 <= i * spc) by (nonlinear_arith)
        requires
            0 <= spc,
    ;
    assert(0 <= k * size) by (nonlinear_arith)
        requires
            0 <= k,
            0 <= size,
    ;
    if count > 0 {
        let c = (count - 1) as nat;
        lemma_link_sum_sector(g, media, first, i, s, c);
        arith::lemma_split(k, c as int, size);
        arith::lemma_split(i as int, s as int, spc);
        assert(link_byte(g, media, first, k * size + c) == data[c as int]);
        assert(data.take(count as int).drop_last() =~= data.take(c as int));
    } else {
        assert(data.take(0) =~= Seq::<u8>::empty());
    }
}

/// Check that the UpCase table has the checksum that its entry records.
pub fn validate_upcase_table<D: BlockDevice>(
    device: &mut D,
    geometry: Geometry,
    table: UpCaseTable,
    scratch: &mut Scratch<'_>,
) -> (result: Result<(), Error<D::Error>>)
    requires
        geometry.wf(),
        old(device).sector_bytes() == geometry.bytes_per_sector,
        geometry.bytes_per_sector <= old(scratch)@.len(),
    ensures
        final(scratch)@.len() == old(scratch)@.len(),
        device::answers(
            *old(device),
            *final(device),
            result,
            if upcase_valid(geometry, old(device).media(), table) {
                Ok(())
            } else {
                Err(Error::Corrupt)
            },
        ),
{
    let ghost media = device.media();
    let ghost g = geometry;
    let ghost first = table.first_cluster;
    let ghost total = table.byte_length as int;
    let ghost cb = g.cluster_bytes();
    let ghost spc = g.sectors_per_cluster as int;
    if table.first_cluster < 2 || table.byte_length == 0 {
        proof {
            if table.byte_length != 0 {
                assert(0nat * cb < table.byte_length);
                assert(!link_ok(g, media, first, 0));
            }
        }
        return Err(Error::Corrupt);
    }
    let size: usize = geometry.bytes_per_sector as usize;
    let mut remaining: u64 = table.byte_length;
    let mut cluster: u32 = table.first_cluster;
    let mut visited: u32 = 0;
    let mut checksum: u32 = 0;
    while remaining != 0
        invariant
            visited <= geometry.cluster_count,
            remaining <= table.byte_length,
            table.byte_length != 0,
            g == geometry,
            geometry.wf(),
            cb == g.cluster_bytes(),
            spc == g.sectors_per_cluster,
            total == table.byte_length,
            first == table.first_cluster,
            size == geometry.bytes_per_sector,
            size <= scratch@.len(),
            scratch@.len() == old(scratch)@.len(),
            device::same_shape(*old(device), *device),
            device.sector_bytes() == size,
            media == old(device).media(),
            device.media() == media,
            device.failures() == old(device).failures(),
            device.stable() == old(device).stable(),
            checksum == link_sum(g, media, first, (total - remaining) as nat),
            remaining != 0 ==> total - remaining == visited * cb,
            remaining != 0 ==> cluster == link(g, media, first, visited as nat),
            remaining == 0 ==> total <= visited * cb,
            forall|j: nat| j < visited ==> #[trigger] link_ok(g, media, first, j),
        decreases geometry.cluster_count - visited,
    {
        if visited >= geometry.cluster_count || !geometry.contains_cluster(cluster) {
            assert(!link_ok(g, media, first, visited as nat));
            assert(visited as nat * cb < total);
            return Err(Error::Corrupt);
        }
        proof {
            geometry.lemma_heap_bounds(cluster);
        }
        let start: u64 = geometry.partition.first_lba + geometry.cluster_heap_offset as u64 + (
        cluster - 2) as u64 * geometry.sectors_per_cluster as u64;
        let mut sector: u32 = 0;
        proof {
            assert(visited * cb == (visited * spc + sector) * size) by (nonlinear_arith)
                requires
                    cb == size * spc,
                    sector == 0,
            ;
        }
        while sector < geometry.sectors_per_cluster && remaining != 0
            invariant
                sector <= geometry.sectors_per_cluster,
                visited < geometry.cluster_count,
                remaining <= table.byte_length,
                g == geometry,
                geometry.wf(),
                spc == g.sectors_per_cluster,
                total == table.byte_length,
                size == geometry.bytes_per_sector,
                size <= scratch@.len(),
                scratch@.len() == old(scratch)@.len(),
                device::same_shape(*old(device), *device),
                device.sector_bytes() == size,
                media == old(device).media(),
                device.media() == media,
                device.failures() == old(device).failures(),
                device.stable() == old(device).stable(),
                cluster == link(g, media, first, visited as nat),
                start == g.heap_lba(cluster as int),
                start + geometry.sectors_per_cluster <= u64::MAX,
                checksum == link_sum(g, media, first, (total - remaining) as nat),
                remaining != 0 ==> total - remaining == (visited * spc + sector) * size,
                remaining == 0 ==> total <= (visited * spc + sector) * size,
            decreases geometry.sectors_per_cluster - sector,
        {
            let lba: u64 = start + sector as u64;
            match device::load(device, lba, scratch, size) {
                Ok(()) => {},
                Err(error) => return Err(error),
            }
            let count: u64 = if remaining < size as u64 {
                remaining
            } else {
                size as u64
            };
            proof {
                lemma_link_sum_sector(
                    g,
                    media,
                    first,
                    visited as nat,
                    sector as nat,
                    count as nat,
                );
                assert(scratch@.take(size as int).take(count as int) =~= media[lba].take(
                    count as int,
                ));
                assert((visited * spc + sector + 1) * size == (visited * spc + sector) * size
                    + size) by (nonlinear_arith);
            }
            checksum = bytes::roll32_bytes(checksum, scratch.head(size), count as usize);
            remaining = remaining - count;
            sector = sector + 1;
        }
        proof {
            assert(link_ok(g, media, first, visited as nat));
            assert((visited * spc + sector) * size <= (visited + 1) * cb) by (nonlinear_arith)
                requires
                    cb == size * spc,
                    sector <= spc,
                    0 <= size,
            ;
            assert(sector == spc ==> (visited * spc + sector) * size == (visited + 1) * cb)
                by (nonlinear_arith)
                requires
                    cb == size * spc,
            ;
        }
        visited = visited + 1;
        if remaining != 0 {
            cluster = match next_cluster_on(device, geometry, cluster, scratch) {
                Ok(next) => next,
                Err(error) => return Err(error),
            };
        }
    }
    proof {
        assert forall|j: nat| j * cb < total implies #[trigger] link_ok(g, media, first, j) by {
            if j >= visited {
                arith::lemma_scaled(visited as int, j as int, cb);
            }
        }
    }
    if checksum != table.checksum {
        return Err(Error::Corrupt);
    }
    Ok(())
}

} // verus!
