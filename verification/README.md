# exfat-embedded

An exFAT filesystem for embedded systems, written in Verus. It reads and writes
one sector at a time, takes every temporary buffer from the caller, and neither
allocates nor keeps a cache. Media may have an MBR or a GPT, sectors of 512 to
4096 bytes, and clusters of any size that exFAT allows.

## Layout

- `src/device.rs`: the `BlockDevice` trait, `Scratch`, and what a device stores.
- `src/mount/`: partition tables, boot region, root system entries, `Volume`.
- `src/directory/`: directory entry sets, their decoder, names in UTF-16.
- `src/format/`: a fresh volume on a whole device.
- `src/fs/`: `FileSystem` and its operations.
- `src/laws/`: properties that hold across operations.
- `app/`: asynchronous transports below the filesystem.

## How contracts read

A device is modelled by its media, a map from sector numbers to bytes. An
operation that only reads answers what a spec function says of the media, and
neither writes nor flushes. An operation that writes has a `Plan`: the sector
writes in order, the free-cluster count that they leave, and the answer. Without
a device error the operation carries the plan out to the end; with one, the media
are those of a plan that stopped on the way, at a write whose own sector may hold
anything, and the count is that behind the writes that were made. What is refused
without a look at the device is refused with a certain error, and the device is
left as it was.

## Laws

Each is a public proof function whose name starts with `law_`. Those on files and
directories speak of a sound volume (`regions::sound`): FAT and cluster heap lie
apart within the partition, the bitmap can be read, counts as many free clusters
as the filesystem does and shares no clusters with the UpCase table. The file or
directory in question has clusters of its own, all in use (`files::file_sound`),
and the directories on the way to it are in order and share no clusters with it
(`reopening::is_file_at`, `placing::is_dir_at`). Under these premises, among
others:

- What was written or appended is read back, also after opening the file anew,
  and other files keep their bytes.
- What was created or made is found under its path, and what was renamed under
  its new name, which no other entry of the directory may have; what was removed
  is gone, and its clusters are free. Whatever else the directory listed it lists
  still, and nothing else on the volume changes.
- After each of these the volume mounts again, with the free clusters that were
  counted. What mounting reads has to lie apart from the heap, as it does on a
  device that was formatted.
- An append for which there is no space shows the old file, and a directory
  without room for another entry lists what it did.
- Allocation claims a free cluster and clears it first; freeing undoes it.
- An append that stops between two writes before it records the new length shows
  the old file, and a directory that began to grow lists what it did.

Without such premises:

- A device that was formatted mounts, as a sound volume with an empty root. What
  is appended to a file on it is read back once it is mounted again, and a file
  that is renamed in a directory on it is found there.
- What a directory yields, or a decoder answers, are complete entry sets. Those
  that are not recognised are passed over whole. A set that was written into
  whatever slots reads back.
- Making directories that exist writes nothing, and none is made below a file.
- Mounting answers the same, whether or not a failure returns the device.
- An entry that a directory lists is found by its name, unless an earlier one has
  the same name, whatever the case of the path, as the UpCase table of the volume
  folds it.
- The label is that of the label entry, wherever in the root directory it is.
