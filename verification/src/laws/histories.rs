//! Operations one after the other, from a device that is formatted on.

use crate::device;
use crate::device::{BlockDevice, Media};
use crate::directory::codec;
use crate::directory::entry;
use crate::directory::entry::{DirectoryModel, EntryModel};
use crate::error::Error;
use crate::format::layout;
use crate::format::layout::VolumeLayout;
use crate::fs::create;
use crate::fs::file::FileModel;
use crate::fs::growth;
use crate::fs::listing;
use crate::fs::lookup;
use crate::fs::mount as fs_mount;
use crate::fs::names;
use crate::fs::paths;
use crate::fs::rename;
use crate::fs::state;
use crate::fs::state::{FileSystem, Plan};
use crate::fs::stream;
use crate::laws::adding;
use crate::laws::components;
use crate::laws::creating;
use crate::laws::directories;
use crate::laws::entries;
use crate::laws::extents;
use crate::laws::fresh;
use crate::laws::growing;
use crate::laws::making;
use crate::laws::names as name_laws;
use crate::laws::placing;
use crate::laws::regions;
use crate::laws::remounting;
use crate::laws::renaming;
use crate::laws::reopening;
use crate::laws::trails;
use crate::mount::volume::VolumeModel;
use crate::mount::Volume;
use vstd::prelude::*;

verus! {

/// Whether a name can be written, and hashed on a fresh volume: the unit `0xffff`
/// cannot stand in it.
pub open spec fn is_hashable_name<E>(name: Seq<char>) -> bool {
    codec::name_result::<E>(name) matches Ok(units) && !units.contains(0xffff)
}

/// A name without the unit that has no mapping can be hashed on a fresh volume.
proof fn lemma_fresh_hash<E>(
    media: Media,
    total: u64,
    scratch_len: nat,
    l: VolumeLayout,
    v: Volume,
    name: Seq<u16>,
)
    requires
        layout::format_layout::<E>(512, total, scratch_len) == Ok::<VolumeLayout, Error<E>>(l),
        v@ == fresh::fresh_volume(l),
        !name.contains(0xffff),
    ensures
        names::name_hash(
            v,
            device::applied(media, layout::format_run::<E>(512, total, scratch_len)),
            name,
        ) is Some,
    decreases name.len(),
{
    if name.len() > 0 {
        assert(name.contains(name.last()));
        assert(!name.drop_last().contains(0xffff)) by {
            if name.drop_last().contains(0xffff) {
                let i = choose|i: int|
                    0 <= i < name.len() - 1 && name.drop_last()[i] == 0xffff;
                assert(name[i] == 0xffff);
            }
        }
        lemma_fresh_hash::<E>(media, total, scratch_len, l, v, name.drop_last());
        fresh::law_formatted_volume_folds_ascii::<E>(
            media,
            total,
            scratch_len,
            l,
            v,
            name.last(),
        );
    }
}

/// Nothing is found in the root directory of a fresh volume.
proof fn lemma_fresh_missing<E>(
    media: Media,
    total: u64,
    scratch_len: nat,
    l: VolumeLayout,
    v: Volume,
    name: Seq<char>,
    parts: Seq<Seq<char>>,
    lookup_scratch: nat,
)
    requires
        layout::format_layout::<E>(512, total, scratch_len) == Ok::<VolumeLayout, Error<E>>(l),
        v@ == fresh::fresh_volume(l),
        parts == seq![name],
        is_hashable_name::<E>(name),
        lookup_scratch >= 512,
    ensures
        lookup::resolve::<E>(
            v,
            device::applied(media, layout::format_run::<E>(512, total, scratch_len)),
            entry::root_model(v.geometry),
            parts,
            lookup_scratch,
        ) == Err::<EntryModel, Error<E>>(Error::PathNotFound),
{
    let units = codec::name_result::<E>(name)->Ok_0;
    fresh::law_formatted_root_is_empty::<E>(media, total, scratch_len, l);
    lemma_fresh_hash::<E>(media, total, scratch_len, l, v, units);
    assert(parts[0] == name);
}

/// Whether `f` is the handle of an empty file that a path with these parts names
/// on a volume that was `m` before, and mounts again.
spec fn is_created<E>(
    v: Volume,
    m: Media,
    m1: Media,
    free: u32,
    free1: u32,
    parts: Seq<Seq<char>>,
    f: FileModel,
) -> bool {
    &&& regions::sound(v, m1, free1)
    &&& reopening::is_file_at::<E>(v, m1, parts, f)
    &&& f.valid_length == 0
    &&& remounting::mounts_again::<E>(v, m, m1, free, free1)
}

/// Creating a file in the root directory of a fresh volume.
proof fn lemma_fresh_created<E>(
    media: Media,
    total: u64,
    format_scratch: nat,
    l: VolumeLayout,
    v: Volume,
    scratch_len: nat,
    path: Seq<char>,
)
    requires
        layout::format_layout::<E>(512, total, format_scratch) == Ok::<VolumeLayout, Error<E>>(l),
        regions::sized(fresh::fresh_geometry(l), media),
        v@ == fresh::fresh_volume(l),
        scratch_len >= 512,
        paths::components(path).len() == 1,
        is_hashable_name::<E>(paths::components(path)[0]),
    ensures
        ({
            let m = device::applied(media, layout::format_run::<E>(512, total, format_scratch));
            let free = (l.clusters - l.reserved()) as u32;
            let made = create::create_plan::<E>(v, m, free, path, scratch_len);
            match made.result {
                Ok(f) => is_created::<E>(
                    v,
                    m,
                    made.leaves(m),
                    free,
                    made.free,
                    paths::components(path),
                    f,
                ),
                Err(error) => error == Error::<E>::NoSpace && made.free == 0,
            }
        }),
{
    let g = v.geometry;
    let m = device::applied(media, layout::format_run::<E>(512, total, format_scratch));
    let free = (l.clusters - l.reserved()) as u32;
    let inner = paths::trimmed(path);
    let parts = paths::components(path);
    let units = codec::name_result::<E>(parts[0])->Ok_0;
    fresh::law_formatted_volume_is_sound::<E>(media, total, format_scratch, l, v);
    fresh::law_formatted_root_takes_entries::<E>(media, total, format_scratch, l, v);
    components::law_surrounding_slashes_do_not_matter(path);
    assert(inner.len() > 0) by {
        if inner.len() == 0 {
            assert(paths::components(inner) =~= Seq::empty());
        }
    }
    assert(parts.drop_last() =~= Seq::empty());
    assert(parts =~= seq![parts[0]]);
    assert(parts.last() == parts[0]);
    lemma_fresh_missing::<E>(
        media,
        total,
        format_scratch,
        l,
        v,
        parts[0],
        parts,
        scratch_len,
    );
    lemma_fresh_hash::<E>(media, total, format_scratch, l, v, units);
    creating::law_created_file_is_found::<E>(
        v,
        m,
        free,
        path,
        scratch_len,
        entry::root_model(g),
        1,
    );
}

/// Appending to a file that was created.
proof fn lemma_then_appended<E>(
    v: Volume,
    m: Media,
    m1: Media,
    free: u32,
    free1: u32,
    scratch_len: nat,
    path: Seq<char>,
    f: FileModel,
    data: Seq<u8>,
)
    requires
        is_created::<E>(v, m, m1, free, free1, paths::components(path), f),
        scratch_len >= v.geometry.bytes_per_sector,
        0 < data.len() <= usize::MAX,
        growing::lacking(v.geometry, f, data.len() as int) <= free1,
    ensures
        ({
            let g = v.geometry;
            let append = growth::append_plan::<E>(v, m1, free1, f, data);
            let m2 = append.leaves(m1);
            &&& append.result == Ok::<usize, Error<E>>(data.len() as usize)
            &&& remounting::mounts_again::<E>(v, m, m2, free, append.free)
            &&& lookup::open_result::<E>(v, m2, path, scratch_len) matches Ok(again)
            &&& again.position == 0
            &&& again.valid_length == data.len()
            &&& forall|offset: int|
                0 <= offset < data.len() ==> #[trigger] stream::file_place(g, m2, again, offset)
                    is Some && stream::file_byte(g, m2, again, offset) == data[offset]
        }),
{
    let append = growth::append_plan::<E>(v, m1, free1, f, data);
    reopening::law_appended_file_reopens::<E>(v, m1, free1, path, scratch_len, f, data);
    remounting::lemma_mounts_on::<E>(
        v,
        m,
        m1,
        append.leaves(m1),
        free,
        free1,
        append.free,
    );
}

/// A volume that mounts again does so.
proof fn lemma_mounts_later<E>(
    v: Volume,
    m: Media,
    m2: Media,
    free: u32,
    free2: u32,
    total: u64,
    scratch_len: nat,
)
    requires
        remounting::mounts_again::<E>(v, m, m2, free, free2),
        remounting::is_set_apart(v.geometry, m, total),
        fs_mount::mount_result::<E>(m, v.geometry.bytes_per_sector as usize, total, scratch_len)
            == Ok::<(VolumeModel, u32), Error<E>>((v@, free)),
    ensures
        fs_mount::mount_result::<E>(m2, v.geometry.bytes_per_sector as usize, total, scratch_len)
            == Ok::<(VolumeModel, u32), Error<E>>((v@, free2)),
{
    reveal(remounting::mounts_again);
}

/// A device that is formatted and mounted keeps what is appended to a file that
/// is created in its root directory: mounted again, it has the same volume, with
/// the free clusters that were counted, and the file that the path names has the
/// bytes that were appended, and no others. The file is created, whatever its
/// name, as long as a cluster is free, and the bytes are appended as long as
/// there are clusters for them. The unit `0xffff` cannot stand in a name.
pub proof fn law_appended_bytes_survive_mounting<E>(
    media: Media,
    total: u64,
    format_scratch: nat,
    l: VolumeLayout,
    v: Volume,
    scratch_len: nat,
    path: Seq<char>,
    data: Seq<u8>,
)
    requires
        layout::format_layout::<E>(512, total, format_scratch) == Ok::<VolumeLayout, Error<E>>(l),
        regions::sized(fresh::fresh_geometry(l), media),
        v@ == fresh::fresh_volume(l),
        scratch_len >= 512,
        paths::components(path).len() == 1,
        is_hashable_name::<E>(paths::components(path)[0]),
        0 < data.len() <= usize::MAX,
    ensures
        ({
            let g = v.geometry;
            let m = device::applied(media, layout::format_run::<E>(512, total, format_scratch));
            let free = (l.clusters - l.reserved()) as u32;
            let made = create::create_plan::<E>(v, m, free, path, scratch_len);
            let m1 = made.leaves(m);
            &&& fs_mount::mount_result::<E>(m, 512, total, scratch_len) == Ok::<
                (VolumeModel, u32),
                Error<E>,
            >((v@, free))
            &&& match made.result {
                Ok(f) => growing::lacking(g, f, data.len() as int) <= made.free ==> {
                    let append = growth::append_plan::<E>(v, m1, made.free, f, data);
                    let m2 = append.leaves(m1);
                    &&& append.result == Ok::<usize, Error<E>>(data.len() as usize)
                    &&& fs_mount::mount_result::<E>(m2, 512, total, scratch_len) == Ok::<
                        (VolumeModel, u32),
                        Error<E>,
                    >((v@, append.free))
                    &&& lookup::open_result::<E>(v, m2, path, scratch_len) matches Ok(again)
                    &&& again.position == 0
                    &&& again.valid_length == data.len()
                    &&& forall|offset: int|
                        0 <= offset < data.len() ==> #[trigger] stream::file_place(
                            g,
                            m2,
                            again,
                            offset,
                        ) is Some && stream::file_byte(g, m2, again, offset) == data[offset]
                },
                Err(error) => error == Error::<E>::NoSpace && made.free == 0,
            }
        }),
{
    let g = v.geometry;
    let m = device::applied(media, layout::format_run::<E>(512, total, format_scratch));
    let free = (l.clusters - l.reserved()) as u32;
    let made = create::create_plan::<E>(v, m, free, path, scratch_len);
    let m1 = made.leaves(m);
    fresh::law_formatted_device_mounts::<E>(media, total, format_scratch, scratch_len, l);
    lemma_fresh_created::<E>(media, total, format_scratch, l, v, scratch_len, path);
    if let Ok(f) = made.result {
        if growing::lacking(g, f, data.len() as int) <= made.free {
            let append = growth::append_plan::<E>(v, m1, made.free, f, data);
            lemma_then_appended::<E>(v, m, m1, free, made.free, scratch_len, path, f, data);
            lemma_mounts_later::<E>(
                v,
                m,
                append.leaves(m1),
                free,
                append.free,
                total,
                scratch_len,
            );
        }
    }
}
/// Whether two volumes differ in how their labels are stored alone.
pub open spec fn same_but_label(a: Volume, b: Volume) -> bool {
    &&& b.geometry == a.geometry
    &&& b.bitmap == a.bitmap
    &&& b.upcase == a.upcase
}

/// The label has no part in the mapping of a unit.
proof fn lemma_scan_alike(a: Volume, b: Volume, m: Media, unit: u16, code: int, byte: int)
    requires
        same_but_label(a, b),
    ensures
        names::upcase_scan(b, m, unit, code, byte) == names::upcase_scan(a, m, unit, code, byte),
    decreases a.upcase.byte_length - byte,
{
    assert(names::upcase_word(b, m, byte) == names::upcase_word(a, m, byte));
    assert(names::upcase_word(b, m, byte + 2) == names::upcase_word(a, m, byte + 2));
    if byte + 2 <= a.upcase.byte_length && code <= u32::MAX {
        if let Some(value) = names::upcase_word(a, m, byte) {
            if value == 0xffff {
                if let Some(skipped) = names::upcase_word(a, m, byte + 2) {
                    lemma_scan_alike(a, b, m, unit, code + skipped, byte + 4);
                }
            } else {
                lemma_scan_alike(a, b, m, unit, code + 1, byte + 2);
            }
        }
    }
}

/// The label has no part in whether names match.
proof fn lemma_match_alike(
    a: Volume,
    b: Volume,
    m: Media,
    left: Seq<u16>,
    right: Seq<u16>,
    i: int,
)
    requires
        same_but_label(a, b),
    ensures
        names::match_from(b, m, left, right, i) == names::match_from(a, m, left, right, i),
    decreases left.len() - i,
{
    if i < left.len() {
        lemma_scan_alike(a, b, m, left[i], 0, 0);
        lemma_scan_alike(a, b, m, right[i], 0, 0);
        lemma_match_alike(a, b, m, left, right, i + 1);
    }
}

/// The label has no part in what a name finds.
proof fn lemma_find_alike(
    a: Volume,
    b: Volume,
    m: Media,
    list: listing::Listing,
    name: Seq<u16>,
    i: int,
)
    requires
        same_but_label(a, b),
        0 <= i,
    ensures
        listing::find_from(b, m, list, name, i) == listing::find_from(a, m, list, name, i),
    decreases list.entries.len() - i,
{
    if i < list.entries.len() {
        lemma_match_alike(a, b, m, list.entries[i].name, name, 0);
        lemma_find_alike(a, b, m, list, name, i + 1);
    }
}

/// The label has no part in what a path leads to.
proof fn lemma_resolve_alike<E>(
    a: Volume,
    b: Volume,
    m: Media,
    d: DirectoryModel,
    parts: Seq<Seq<char>>,
    scratch_len: nat,
)
    requires
        same_but_label(a, b),
    ensures
        lookup::resolve::<E>(b, m, d, parts, scratch_len) == lookup::resolve::<E>(
            a,
            m,
            d,
            parts,
            scratch_len,
        ),
    decreases parts.len(),
{
    if parts.len() > 0 {
        if let Ok(units) = codec::name_result::<E>(parts[0]) {
            lemma_find_alike(a, b, m, listing::listing(a.geometry, m, d), units, 0);
            if let Ok(Some(found)) = listing::child_result::<E>(a, m, d, units, scratch_len) {
                if let Some(below) = found.directory() {
                    lemma_resolve_alike::<E>(a, b, m, below, parts.drop_first(), scratch_len);
                }
            }
        }
    }
}

/// What formatting a device and mounting it come to.
proof fn lemma_first_calls<D: BlockDevice>(
    blank: D,
    formatted: D,
    mounted: FileSystem<D>,
    scratch_len: nat,
) -> (l: VolumeLayout)
    requires
        forall|lba: u64|
            lba < blank.sector_total() ==> (#[trigger] blank.media()[lba]).len()
                == blank.sector_bytes(),
        device::performs(
            blank,
            formatted,
            Ok::<(), Error<D::Error>>(()),
            layout::format_run::<D::Error>(
                blank.sector_bytes(),
                blank.sector_total(),
                scratch_len,
            ),
            layout::format_result(blank.sector_bytes(), blank.sector_total(), scratch_len),
        ),
        fs_mount::is_mounted(formatted, scratch_len, mounted),
    ensures
        blank.sector_bytes() == 512,
        scratch_len >= 512,
        layout::format_layout::<D::Error>(512, blank.sector_total(), scratch_len) == Ok::<
            VolumeLayout,
            Error<D::Error>,
        >(l),
        regions::sized(fresh::fresh_geometry(l), blank.media()),
        mounted.volume@ == fresh::fresh_volume(l),
        mounted.free_clusters == (l.clusters - l.reserved()) as u32,
        mounted.media() == device::applied(
            blank.media(),
            layout::format_run::<D::Error>(512, blank.sector_total(), scratch_len),
        ),
        device::same_shape(blank, mounted.device),
{
    let total = blank.sector_total();
    let l = layout::format_layout::<D::Error>(512, total, scratch_len)->Ok_0;
    fresh::law_formatted_device_mounts::<D::Error>(
        blank.media(),
        total,
        scratch_len,
        scratch_len,
        l,
    );
    l
}

/// What mounting a device again comes to.
proof fn lemma_mounted_again<D: BlockDevice>(
    device: D,
    again: FileSystem<D>,
    v: Volume,
    free: u32,
    scratch_len: nat,
)
    requires
        fs_mount::is_mounted(device, scratch_len, again),
        fs_mount::mount_result::<D::Error>(
            device.media(),
            device.sector_bytes(),
            device.sector_total(),
            scratch_len,
        ) == Ok::<(VolumeModel, u32), Error<D::Error>>((v@, free)),
    ensures
        again.volume@ == v@,
        again.free_clusters == free,
        same_but_label(v, again.volume),
        again.media() == device.media(),
        again.device.stable() == device.stable(),
{
}

/// What opening a path and reading come to.
proof fn lemma_last_calls<D: BlockDevice>(
    v: Volume,
    again: FileSystem<D>,
    opened: FileSystem<D>,
    read: FileSystem<D>,
    scratch_len: nat,
    path: Seq<char>,
    data: Seq<u8>,
    reader: FileModel,
    count: usize,
    before: Seq<u8>,
    after: Seq<u8>,
)
    requires
        same_but_label(v, again.volume),
        ({
            let g = v.geometry;
            let m = again.media();
            &&& lookup::open_result::<D::Error>(v, m, path, scratch_len) matches Ok(f)
            &&& f.position == 0
            &&& f.valid_length == data.len()
            &&& forall|offset: int|
                0 <= offset < data.len() ==> #[trigger] stream::file_place(g, m, f, offset) is Some
                    && stream::file_byte(g, m, f, offset) == data[offset]
        }),
        data.len() <= usize::MAX,
        state::answers(
            again,
            opened,
            Ok(reader),
            lookup::open_result(again.volume, again.media(), path, scratch_len),
        ),
        state::answers(
            opened,
            read,
            Ok(count),
            stream::read_result(opened.volume.geometry, opened.media(), reader, before.len()),
        ),
        stream::has_read(
            opened.volume.geometry,
            opened.media(),
            reader,
            before,
            after,
            count as int,
        ),
    ensures
        reader.valid_length == data.len(),
        count == if before.len() < data.len() {
            before.len()
        } else {
            data.len()
        },
        after.len() == before.len(),
        after.take(count as int) == data.take(count as int),
        after.skip(count as int) == before.skip(count as int),
        read.media() == again.media(),
        read.device.stable() == again.device.stable(),
{
    lemma_resolve_alike::<D::Error>(
        v,
        again.volume,
        again.media(),
        entry::root_model(v.geometry),
        paths::components(path),
        scratch_len,
    );
    let g = v.geometry;
    let m = again.media();
    let n = stream::transfer(reader, before.len());
    assert(stream::all_placed(g, m, reader, n)) by {
        assert forall|j: int| 0 <= j < n implies #[trigger] stream::file_place(
            g,
            m,
            reader,
            reader.position + j,
        ) is Some by {
            assert(stream::file_place(g, m, reader, j) is Some);
        }
    }
    assert forall|j: int| 0 <= j < count implies #[trigger] after[j] == data[j] by {
        assert(after[j] == stream::file_byte(g, m, reader, reader.position + j));
        assert(stream::file_place(g, m, reader, j) is Some);
    }
    assert(after.take(count as int) =~= data.take(count as int));
    assert(after.skip(count as int) =~= before.skip(count as int));
}

/// What one call after another on a device comes to, where each of them succeeds:
/// `formatted` is `blank` once it was formatted, `mounted` is that device
/// mounted; a file is created in the root directory, which leaves `created` and
/// the handle `file`, and `data` is appended to it, which leaves `appended` and
/// flushes; its device is taken back and mounted again, which gives `again`; the
/// path is opened, which leaves `opened` and the handle `reader`, and `count`
/// bytes are read into storage that held `before` and holds `after`. Then these
/// bytes are those of `data`, as many as there are and fit. The volume is the
/// same, and so is the number of free clusters, and the device has all of it on
/// stable media.
pub proof fn law_calls_in_a_row_read_back<D: BlockDevice>(
    blank: D,
    formatted: D,
    mounted: FileSystem<D>,
    created: FileSystem<D>,
    appended: FileSystem<D>,
    again: FileSystem<D>,
    opened: FileSystem<D>,
    read: FileSystem<D>,
    scratch_len: nat,
    path: Seq<char>,
    data: Seq<u8>,
    file: FileModel,
    reader: FileModel,
    count: usize,
    before: Seq<u8>,
    after: Seq<u8>,
)
    requires
        forall|lba: u64|
            lba < blank.sector_total() ==> (#[trigger] blank.media()[lba]).len()
                == blank.sector_bytes(),
        device::performs(
            blank,
            formatted,
            Ok::<(), Error<D::Error>>(()),
            layout::format_run::<D::Error>(
                blank.sector_bytes(),
                blank.sector_total(),
                scratch_len,
            ),
            layout::format_result(blank.sector_bytes(), blank.sector_total(), scratch_len),
        ),
        fs_mount::is_mounted(formatted, scratch_len, mounted),
        paths::components(path).len() == 1,
        is_hashable_name::<D::Error>(paths::components(path)[0]),
        state::performs(
            mounted,
            created,
            Ok(file),
            create::create_plan(
                mounted.volume,
                mounted.media(),
                mounted.free_clusters,
                path,
                scratch_len,
            ),
        ),
        0 < data.len() <= usize::MAX,
        growing::lacking(created.volume.geometry, file, data.len() as int)
            <= created.free_clusters,
        state::performs(
            created,
            appended,
            Ok(data.len() as usize),
            growth::append_plan(
                created.volume,
                created.media(),
                created.free_clusters,
                file,
                data,
            ),
        ),
        appended.device.stable() == appended.media(),
        fs_mount::is_mounted(appended.device, scratch_len, again),
        state::answers(
            again,
            opened,
            Ok(reader),
            lookup::open_result(again.volume, again.media(), path, scratch_len),
        ),
        state::answers(
            opened,
            read,
            Ok(count),
            stream::read_result(opened.volume.geometry, opened.media(), reader, before.len()),
        ),
        stream::has_read(
            opened.volume.geometry,
            opened.media(),
            reader,
            before,
            after,
            count as int,
        ),
    ensures
        again.volume@ == mounted.volume@,
        again.free_clusters == appended.free_clusters,
        reader.valid_length == data.len(),
        count == if before.len() < data.len() {
            before.len()
        } else {
            data.len()
        },
        after.len() == before.len(),
        after.take(count as int) == data.take(count as int),
        after.skip(count as int) == before.skip(count as int),
        read.device.stable() == read.media(),
{
    let total = blank.sector_total();
    let v = mounted.volume;
    let l = lemma_first_calls(blank, formatted, mounted, scratch_len);
    law_appended_bytes_survive_mounting::<D::Error>(
        blank.media(),
        total,
        scratch_len,
        l,
        v,
        scratch_len,
        path,
        data,
    );
    lemma_mounted_again(appended.device, again, v, appended.free_clusters, scratch_len);
    lemma_last_calls(
        v,
        again,
        opened,
        read,
        scratch_len,
        path,
        data,
        reader,
        count,
        before,
        after,
    );
}

/// Whether a path with the one part `name` leads to the empty directory `d` on a
/// volume that was `m` before, and mounts again.
spec fn is_made<E>(
    v: Volume,
    m: Media,
    m1: Media,
    free: u32,
    free1: u32,
    name: Seq<char>,
    d: DirectoryModel,
) -> bool {
    &&& regions::sound(v, m1, free1)
    &&& placing::is_dir_at::<E>(v, m1, seq![name], d, 1)
    &&& extents::is_chain(v, m1, d, 1)
    &&& directories::same_names(v, m, m1)
    &&& listing::listing(v.geometry, m1, d).entries == Seq::<EntryModel>::empty()
    &&& listing::listing(v.geometry, m1, d).sound
    &&& remounting::mounts_again::<E>(v, m, m1, free, free1)
}

/// Making a directory in the root directory of a fresh volume.
proof fn lemma_fresh_made<E>(
    media: Media,
    total: u64,
    format_scratch: nat,
    l: VolumeLayout,
    v: Volume,
    scratch_len: nat,
    path: Seq<char>,
) -> (d: DirectoryModel)
    requires
        layout::format_layout::<E>(512, total, format_scratch) == Ok::<VolumeLayout, Error<E>>(l),
        regions::sized(fresh::fresh_geometry(l), media),
        v@ == fresh::fresh_volume(l),
        scratch_len >= 512,
        paths::components(path).len() == 1,
        is_hashable_name::<E>(paths::components(path)[0]),
    ensures
        ({
            let m = device::applied(media, layout::format_run::<E>(512, total, format_scratch));
            let free = (l.clusters - l.reserved()) as u32;
            let made = create::create_dir_all_plan::<E>(v, m, free, path, scratch_len);
            match made.result {
                Ok(_) => is_made::<E>(
                    v,
                    m,
                    made.leaves(m),
                    free,
                    made.free,
                    paths::components(path)[0],
                    d,
                ),
                Err(error) => error == Error::<E>::NoSpace && made.free == 0,
            }
        }),
{
    let g = v.geometry;
    let m = device::applied(media, layout::format_run::<E>(512, total, format_scratch));
    let free = (l.clusters - l.reserved()) as u32;
    let root = entry::root_model(g);
    let inner = paths::trimmed(path);
    let parts = paths::components(path);
    let name = parts[0];
    let units = codec::name_result::<E>(name)->Ok_0;
    fresh::law_formatted_volume_is_sound::<E>(media, total, format_scratch, l, v);
    fresh::law_formatted_root_takes_entries::<E>(media, total, format_scratch, l, v);
    fresh::law_formatted_root_is_empty::<E>(media, total, format_scratch, l);
    components::law_surrounding_slashes_do_not_matter(path);
    assert(inner.len() > 0) by {
        if inner.len() == 0 {
            assert(paths::components(inner) =~= Seq::empty());
        }
    }
    lemma_fresh_hash::<E>(media, total, format_scratch, l, v, units);
    assert(listing::child(v, m, root, units) == Some(None::<EntryModel>));
    making::law_made_directory_is_found::<E>(v, m, free, Seq::empty(), name, root, 1);
    assert(Seq::<Seq<char>>::empty().push(name) =~= seq![name]);
    let make = create::make_dir_plan::<E>(v, m, free, root, units);
    let rest = create::make_dirs_plan::<E>(
        v,
        make.leaves(m),
        make.free,
        make.result->Ok_0,
        parts.drop_first(),
        scratch_len,
    );
    assert(parts.drop_first() =~= Seq::empty());
    assert(rest == Plan::<(), E>::answer(make.free, Ok(())));
    assert(rest.leaves(make.leaves(m)) == make.leaves(m));
    placing::lemma_and_leaves(make, rest, m);
    make.result->Ok_0
}

/// Whether a directory that a path with the one part `name` leads to lists the
/// one entry `found`, which has the name `units`.
spec fn is_single<E>(
    v: Volume,
    m: Media,
    m2: Media,
    free: u32,
    free2: u32,
    name: Seq<char>,
    d: DirectoryModel,
    n: int,
    found: EntryModel,
) -> bool {
    &&& regions::sound(v, m2, free2)
    &&& placing::is_dir_at::<E>(v, m2, seq![name], d, n)
    &&& directories::same_names(v, m, m2)
    &&& listing::listing(v.geometry, m2, d).entries == seq![found]
    &&& remounting::mounts_again::<E>(v, m, m2, free, free2)
}

/// Creating a file in a directory that was made.
proof fn lemma_made_filled<E>(
    v: Volume,
    m: Media,
    m1: Media,
    free: u32,
    free1: u32,
    scratch_len: nat,
    path: Seq<char>,
    d: DirectoryModel,
) -> (r: (DirectoryModel, int))
    requires
        paths::components(path).len() == 2,
        is_made::<E>(v, m, m1, free, free1, paths::components(path)[0], d),
        scratch_len >= v.geometry.bytes_per_sector,
        codec::name_result::<E>(paths::components(path)[1]) is Ok,
        names::name_hash(
            v,
            m,
            codec::name_result::<E>(paths::components(path)[1])->Ok_0,
        ) is Some,
    ensures
        ({
            let plan = create::create_plan::<E>(v, m1, free1, path, scratch_len);
            let units = codec::name_result::<E>(paths::components(path)[1])->Ok_0;
            match plan.result {
                Ok(f) => is_single::<E>(
                    v,
                    m,
                    plan.leaves(m1),
                    free,
                    plan.free,
                    paths::components(path)[0],
                    r.0,
                    r.1,
                    entries::described(create::fresh_set(units, 0, 0, 0, true), f.locs),
                ),
                Err(error) => error == Error::<E>::NoSpace && plan.free == 0,
            }
        }),
{
    let g = v.geometry;
    let root = entry::root_model(g);
    let inner = paths::trimmed(path);
    let parts = paths::components(path);
    let units = codec::name_result::<E>(parts[1])->Ok_0;
    let plan = create::create_plan::<E>(v, m1, free1, path, scratch_len);
    let m2 = plan.leaves(m1);
    components::law_surrounding_slashes_do_not_matter(path);
    assert(inner.len() > 0) by {
        if inner.len() == 0 {
            assert(paths::components(inner) =~= Seq::empty());
        }
    }
    assert(parts.drop_last() =~= seq![parts[0]]);
    assert(parts =~= seq![parts[0]].push(parts[1]));
    assert(parts.last() == parts[1]);
    directories::lemma_hash_kept(v, m, m1, units);
    creating::lemma_dir_leads::<E>(v, m1, seq![parts[0]], parts[1], d, 1);
    trails::lemma_resolve::<E>(v, m1, root, parts, scratch_len);
    assert(listing::child(v, m1, d, units) == Some(None::<EntryModel>));
    creating::law_created_file_is_found::<E>(v, m1, free1, path, scratch_len, d, 1);
    let d2 = trails::last_dir::<E>(v, m2, root, parts);
    let n = choose|n: int| #[trigger] placing::is_dir_at::<E>(v, m2, parts.drop_last(), d2, n);
    if let Ok(f) = plan.result {
        let found = entries::described(create::fresh_set(units, 0, 0, 0, true), f.locs);
        let p = choose|p: int| #[trigger]
            adding::is_listed(
                listing::listing(g, m1, d),
                listing::listing(g, m2, d2),
                found,
                p,
            );
        assert(listing::listing(g, m2, d2).entries =~= seq![found]);
        placing::lemma_same_names_on(v, m, m1, m2);
        remounting::lemma_mounts_on::<E>(v, m, m1, m2, free, free1, plan.free);
    }
    (d2, n)
}

/// Renaming the one entry of a directory.
proof fn lemma_single_renamed<E>(
    v: Volume,
    m: Media,
    m2: Media,
    free: u32,
    free2: u32,
    scratch_len: nat,
    path: Seq<char>,
    new_name: Seq<char>,
    d: DirectoryModel,
    n: int,
    found: EntryModel,
)
    requires
        paths::components(path).len() == 2,
        is_single::<E>(v, m, m2, free, free2, paths::components(path)[0], d, n, found),
        scratch_len >= v.geometry.bytes_per_sector,
        codec::name_result::<E>(paths::components(path)[1]) == Ok::<Seq<u16>, Error<E>>(found.name),
        names::name_hash(v, m, found.name) is Some,
        rename::is_component(new_name),
        codec::name_result::<E>(new_name) is Ok,
        names::name_hash(v, m, codec::name_result::<E>(new_name)->Ok_0) is Some,
    ensures
        ({
            let plan = rename::rename_plan::<E>(v, m2, free2, path, new_name, scratch_len);
            let m3 = plan.leaves(m2);
            match plan.result {
                Ok(_) => {
                    &&& is_renamed::<E>(v, m, m3, path, new_name, scratch_len, found)
                    &&& remounting::mounts_again::<E>(v, m, m3, free, plan.free)
                },
                Err(error) => error == Error::<E>::NoSpace,
            }
        }),
{
    let g = v.geometry;
    let root = entry::root_model(g);
    let inner = paths::trimmed(path);
    let parts = paths::components(path);
    let new = codec::name_result::<E>(new_name)->Ok_0;
    let plan = rename::rename_plan::<E>(v, m2, free2, path, new_name, scratch_len);
    let m3 = plan.leaves(m2);
    let list = listing::listing(g, m2, d);
    components::law_surrounding_slashes_do_not_matter(path);
    assert(inner.len() > 0) by {
        if inner.len() == 0 {
            assert(paths::components(inner) =~= Seq::empty());
        }
    }
    assert(parts.drop_last() =~= seq![parts[0]]);
    assert(parts.last() == parts[1]);
    directories::lemma_hash_kept(v, m, m2, found.name);
    directories::lemma_hash_kept(v, m, m2, new);
    name_laws::law_hashed_name_matches_itself(v, m2, found.name);
    assert(list.entries[0] == found);
    renaming::law_renamed_entry_is_found::<E>(
        v,
        m2,
        free2,
        path,
        new_name,
        scratch_len,
        d,
        n,
        0,
    );
    if plan.result is Ok {
        let renamed = seq![parts[0]].push(new_name);
        let e2 = lookup::resolve::<E>(v, m3, root, renamed, scratch_len)->Ok_0;
        let d2 = trails::last_dir::<E>(v, m3, root, renamed);
        let after = listing::listing(g, m3, d2);
        let p = choose|p: int| #[trigger] renaming::is_moved(list, after, 0, e2, p);
        assert(list.entries.remove(0) =~= Seq::empty());
        assert(after.entries.remove(p).len() == after.entries.len() - 1);
        assert(after.entries =~= seq![e2]);
        directories::lemma_matches_kept(v, m, m2, new, found.name);
        remounting::lemma_mounts_on::<E>(v, m, m2, m3, free, free2, plan.free);
    }
}

/// Whether the path with `new_name` in place of its second and last part names
/// what `found` described, which is all that the directory lists, and the path
/// itself names nothing, unless the two names differ in case alone.
pub open spec fn is_renamed<E>(
    v: Volume,
    m: Media,
    m3: Media,
    path: Seq<char>,
    new_name: Seq<char>,
    scratch_len: nat,
    found: EntryModel,
) -> bool {
    let root = entry::root_model(v.geometry);
    let parts = paths::components(path);
    let renamed = seq![parts[0]].push(new_name);
    let new = codec::name_result::<E>(new_name)->Ok_0;
    &&& lookup::resolve::<E>(v, m3, root, renamed, scratch_len) matches Ok(e2)
    &&& e2.name == new
    &&& renaming::same_stream(found, e2)
    &&& names::same_name(v, m, new, found.name) == Some(false) ==> lookup::resolve::<E>(
        v,
        m3,
        root,
        parts,
        scratch_len,
    ) == Err::<EntryModel, Error<E>>(Error::PathNotFound)
    &&& listing::listing(
        v.geometry,
        m3,
        trails::last_dir::<E>(v, m3, root, renamed),
    ).entries == seq![e2]
}

/// On a device that is formatted and mounted, a directory is made, a file created
/// in it and renamed there: it is found under its new name, as the empty file
/// that it is, and nothing under the old one, and the directory lists nothing
/// else. The device mounts again, as the same volume with the free clusters that
/// were counted. Each step succeeds unless there is no space.
pub proof fn law_renamed_file_survives_mounting<E>(
    media: Media,
    total: u64,
    format_scratch: nat,
    l: VolumeLayout,
    v: Volume,
    scratch_len: nat,
    dir_path: Seq<char>,
    path: Seq<char>,
    new_name: Seq<char>,
)
    requires
        layout::format_layout::<E>(512, total, format_scratch) == Ok::<VolumeLayout, Error<E>>(l),
        regions::sized(fresh::fresh_geometry(l), media),
        v@ == fresh::fresh_volume(l),
        scratch_len >= 512,
        paths::components(dir_path).len() == 1,
        paths::components(path).len() == 2,
        paths::components(path)[0] == paths::components(dir_path)[0],
        is_hashable_name::<E>(paths::components(path)[0]),
        is_hashable_name::<E>(paths::components(path)[1]),
        is_hashable_name::<E>(new_name),
        rename::is_component(new_name),
    ensures
        ({
            let m = device::applied(media, layout::format_run::<E>(512, total, format_scratch));
            let free = (l.clusters - l.reserved()) as u32;
            let made = create::create_dir_all_plan::<E>(v, m, free, dir_path, scratch_len);
            let m1 = made.leaves(m);
            let filled = create::create_plan::<E>(v, m1, made.free, path, scratch_len);
            let m2 = filled.leaves(m1);
            let named = rename::rename_plan::<E>(v, m2, filled.free, path, new_name, scratch_len);
            let m3 = named.leaves(m2);
            let units = codec::name_result::<E>(paths::components(path)[1])->Ok_0;
            match (made.result, filled.result, named.result) {
                (Err(error), _, _) => error == Error::<E>::NoSpace && made.free == 0,
                (Ok(_), Err(error), _) => error == Error::<E>::NoSpace && filled.free == 0,
                (Ok(_), Ok(_), Err(error)) => error == Error::<E>::NoSpace,
                (Ok(_), Ok(f), Ok(_)) => {
                    &&& is_renamed::<E>(
                        v,
                        m,
                        m3,
                        path,
                        new_name,
                        scratch_len,
                        entries::described(create::fresh_set(units, 0, 0, 0, true), f.locs),
                    )
                    &&& fs_mount::mount_result::<E>(m3, 512, total, scratch_len) == Ok::<
                        (VolumeModel, u32),
                        Error<E>,
                    >((v@, named.free))
                },
            }
        }),
{
    let m = device::applied(media, layout::format_run::<E>(512, total, format_scratch));
    let free = (l.clusters - l.reserved()) as u32;
    let parts = paths::components(path);
    let units = codec::name_result::<E>(parts[1])->Ok_0;
    let new = codec::name_result::<E>(new_name)->Ok_0;
    lemma_fresh_hash::<E>(media, total, format_scratch, l, v, units);
    lemma_fresh_hash::<E>(media, total, format_scratch, l, v, new);
    let made = create::create_dir_all_plan::<E>(v, m, free, dir_path, scratch_len);
    let m1 = made.leaves(m);
    let d = lemma_fresh_made::<E>(media, total, format_scratch, l, v, scratch_len, dir_path);
    if made.result is Ok {
        let filled = create::create_plan::<E>(v, m1, made.free, path, scratch_len);
        let m2 = filled.leaves(m1);
        let (d2, n) = lemma_made_filled::<E>(
            v,
            m,
            m1,
            free,
            made.free,
            scratch_len,
            path,
            d,
        );
        if let Ok(f) = filled.result {
            let found = entries::described(create::fresh_set(units, 0, 0, 0, true), f.locs);
            let named = rename::rename_plan::<E>(v, m2, filled.free, path, new_name, scratch_len);
            lemma_single_renamed::<E>(
                v,
                m,
                m2,
                free,
                filled.free,
                scratch_len,
                path,
                new_name,
                d2,
                n,
                found,
            );
            if named.result is Ok {
                lemma_fresh_mounts_later::<E>(
                    media,
                    total,
                    format_scratch,
                    l,
                    v,
                    scratch_len,
                    named.leaves(m2),
                    named.free,
                );
            }
        }
    }
}

/// A fresh volume that mounts again does so.
proof fn lemma_fresh_mounts_later<E>(
    media: Media,
    total: u64,
    format_scratch: nat,
    l: VolumeLayout,
    v: Volume,
    scratch_len: nat,
    m2: Media,
    free2: u32,
)
    requires
        layout::format_layout::<E>(512, total, format_scratch) == Ok::<VolumeLayout, Error<E>>(l),
        v@ == fresh::fresh_volume(l),
        scratch_len >= 512,
        remounting::mounts_again::<E>(
            v,
            device::applied(media, layout::format_run::<E>(512, total, format_scratch)),
            m2,
            (l.clusters - l.reserved()) as u32,
            free2,
        ),
    ensures
        fs_mount::mount_result::<E>(m2, 512, total, scratch_len) == Ok::<
            (VolumeModel, u32),
            Error<E>,
        >((v@, free2)),
{
    fresh::law_formatted_device_mounts::<E>(media, total, format_scratch, scratch_len, l);
    lemma_mounts_later::<E>(
        v,
        device::applied(media, layout::format_run::<E>(512, total, format_scratch)),
        m2,
        (l.clusters - l.reserved()) as u32,
        free2,
        total,
        scratch_len,
    );
}

} // verus!
