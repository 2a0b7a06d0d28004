//! Creating, growing, shortening, renaming and removing on a fresh volume.

use exfat_embedded::directory::EntrySet;
use exfat_embedded::fs::metadata::NewEntrySet;
use exfat_embedded::{
    format_exfat, BlockDevice, EntryLocator, Error, ExfatTimestamp, FileSystem, Scratch, Workspace,
};

/// A device in memory.
struct Disk {
    sectors: Vec<[u8; 512]>,
    writes_left: Option<usize>,
    unreadable: bool,
    flushes: usize,
}

impl BlockDevice for Disk {
    type Error = &'static str;
    fn sector_size(&self) -> usize {
        512
    }
    fn sector_count(&self) -> u64 {
        self.sectors.len() as u64
    }
    fn read_sector(&mut self, lba: u64, out: &mut [u8]) -> Result<(), &'static str> {
        if self.unreadable {
            return Err("unreadable");
        }
        out.copy_from_slice(&self.sectors[lba as usize]);
        Ok(())
    }
    fn write_sector(&mut self, lba: u64, data: &[u8]) -> Result<(), &'static str> {
        if let Some(left) = &mut self.writes_left {
            if *left == 0 {
                return Err("worn out");
            }
            *left -= 1;
        }
        self.sectors[lba as usize].copy_from_slice(data);
        Ok(())
    }
    fn flush(&mut self) -> Result<(), &'static str> {
        self.flushes += 1;
        Ok(())
    }
}

fn fresh(count: usize) -> FileSystem<Disk> {
    let mut device = Disk {
        sectors: vec![[0u8; 512]; count],
        writes_left: None,
        unreadable: false,
        flushes: 0,
    };
    let mut buf = [0u8; 512];
    format_exfat(&mut device, &mut Scratch::new(&mut buf)).unwrap();
    FileSystem::mount(device, &mut Scratch::new(&mut buf)).unwrap()
}

fn remounted(fs: FileSystem<Disk>) -> FileSystem<Disk> {
    let mut buf = [0u8; 512];
    FileSystem::mount(fs.into_device(), &mut Scratch::new(&mut buf)).unwrap()
}

fn store(fs: &mut FileSystem<Disk>, path: &str, data: &[u8]) {
    let mut buf = [0u8; 512];
    let mut file = fs.create(path, &mut Scratch::new(&mut buf)).unwrap();
    assert_eq!(
        fs.append(&mut file, data, &mut Scratch::new(&mut buf)),
        Ok(data.len())
    );
}

fn load(fs: &mut FileSystem<Disk>, path: &str) -> Vec<u8> {
    let mut buf = [0u8; 512];
    let mut file = fs.open(path, &mut Scratch::new(&mut buf)).unwrap();
    let mut data = vec![0u8; file.len() as usize + 10];
    let count = fs
        .read(&mut file, &mut data, &mut Scratch::new(&mut buf))
        .unwrap();
    assert_eq!(count as u64, file.len());
    data.truncate(count);
    data
}

fn names(fs: &mut FileSystem<Disk>, path: &str) -> Vec<String> {
    let mut buf = [0u8; 512];
    let mut found = Vec::new();
    let directory = fs
        .lookup(path, &mut Scratch::new(&mut buf))
        .unwrap()
        .directory()
        .unwrap();
    fs.read_directory(directory, &mut Scratch::new(&mut buf), |entry| {
        found.push(String::from_utf16(entry.name_utf16()).unwrap());
        true
    })
    .unwrap();
    found
}

fn root_names(fs: &mut FileSystem<Disk>) -> Vec<String> {
    let mut buf = [0u8; 512];
    let mut found = Vec::new();
    fs.read_root(&mut Scratch::new(&mut buf), |entry| {
        found.push(String::from_utf16(entry.name_utf16()).unwrap());
        true
    })
    .unwrap();
    found
}

/// Change the stream extension of the entry set with a short name, wherever it
/// lies, and record the checksum of the set.
fn patch_stream(fs: &mut FileSystem<Disk>, name: &str, change: impl Fn(&mut [u8])) {
    let mut wanted: Vec<u8> = name.encode_utf16().flat_map(u16::to_le_bytes).collect();
    wanted.resize(30, 0);
    let mut found = 0;
    for sector in &mut fs.device_mut().sectors {
        for at in (0..=512 - 96).step_by(32) {
            let set = &mut sector[at..at + 96];
            if set[0] != 0x85 || set[1] != 2 || set[66..96] != wanted[..] {
                continue;
            }
            change(&mut set[32..64]);
            let sum = (0..96)
                .filter(|i| *i != 2 && *i != 3)
                .fold(0u16, |sum, i| sum.rotate_right(1).wrapping_add(set[i].into()));
            set[2..4].copy_from_slice(&sum.to_le_bytes());
            found += 1;
        }
    }
    assert_eq!(found, 1);
}

fn pattern(len: usize) -> Vec<u8> {
    (0..len).map(|i| (i * 7 % 251) as u8).collect()
}

#[test]
fn appended_bytes_are_read_back_after_remounting() {
    let mut fs = fresh(2048);
    let data = pattern(3000);
    store(&mut fs, "LOG", &data[..100]);
    let mut buf = [0u8; 512];
    let mut file = fs.open("LOG", &mut Scratch::new(&mut buf)).unwrap();
    for part in [&data[100..101], &data[101..700], &data[700..]] {
        assert_eq!(
            fs.append(&mut file, part, &mut Scratch::new(&mut buf)),
            Ok(part.len())
        );
    }
    assert_eq!(file.len(), 3000);
    assert_eq!(file.position(), 3000);
    let mut fs = remounted(fs);
    assert_eq!(load(&mut fs, "LOG"), data);
}

#[test]
fn a_successful_append_was_flushed() {
    let mut fs = fresh(2048);
    let mut buf = [0u8; 512];
    let mut file = fs.create("LOG", &mut Scratch::new(&mut buf)).unwrap();
    let before = fs.device().flushes;
    fs.append(&mut file, b"x", &mut Scratch::new(&mut buf))
        .unwrap();
    assert!(fs.device().flushes > before);
}

#[test]
fn appending_nothing_changes_nothing() {
    let mut fs = fresh(2048);
    let mut buf = [0u8; 512];
    let mut file = fs.create("LOG", &mut Scratch::new(&mut buf)).unwrap();
    let before = file;
    let sectors = fs.device().sectors.clone();
    assert_eq!(
        fs.append(&mut file, b"", &mut Scratch::new(&mut buf)),
        Ok(0)
    );
    assert_eq!(file, before);
    assert!(fs.device().sectors == sectors);
}

#[test]
fn growth_takes_just_the_clusters_it_needs() {
    let mut fs = fresh(2048);
    let mut buf = [0u8; 512];
    let free = fs.free_space_bytes();
    let mut file = fs.create("LOG", &mut Scratch::new(&mut buf)).unwrap();
    assert_eq!(fs.free_space_bytes(), free);
    fs.append(&mut file, &pattern(513), &mut Scratch::new(&mut buf))
        .unwrap();
    assert_eq!(fs.free_space_bytes(), free - 1024);
    assert_eq!(file.data_length, 1024);
    fs.append(&mut file, &pattern(511), &mut Scratch::new(&mut buf))
        .unwrap();
    assert_eq!(fs.free_space_bytes(), free - 1024);
    fs.refresh_free_space(&mut Scratch::new(&mut buf)).unwrap();
    assert_eq!(fs.free_space_bytes(), free - 1024);
}

#[test]
fn append_leaves_other_files_alone() {
    let mut fs = fresh(2048);
    let one = pattern(700);
    let two = vec![9u8; 900];
    store(&mut fs, "ONE", &one);
    store(&mut fs, "TWO", &two);
    let mut buf = [0u8; 512];
    // The second file lies behind the first, so the first becomes fragmented.
    let mut file = fs.open("ONE", &mut Scratch::new(&mut buf)).unwrap();
    assert!(file.no_fat_chain);
    fs.append(&mut file, &[1u8; 2000], &mut Scratch::new(&mut buf))
        .unwrap();
    assert!(!file.no_fat_chain);
    assert_eq!(load(&mut fs, "TWO"), two);
    let all = load(&mut fs, "ONE");
    assert_eq!(&all[..700], &one[..]);
    assert_eq!(&all[700..], &[1u8; 2000]);
}

#[test]
fn reads_are_sequential() {
    let mut fs = fresh(2048);
    let data = pattern(1500);
    store(&mut fs, "LOG", &data);
    let mut buf = [0u8; 512];
    let mut file = fs.open("LOG", &mut Scratch::new(&mut buf)).unwrap();
    let mut read = Vec::new();
    let mut part = [0u8; 333];
    loop {
        let count = fs
            .read(&mut file, &mut part, &mut Scratch::new(&mut buf))
            .unwrap();
        if count == 0 {
            break;
        }
        read.extend_from_slice(&part[..count]);
        assert_eq!(file.position(), read.len() as u64);
    }
    assert_eq!(read, data);
}

#[test]
fn written_bytes_replace_what_was_there() {
    let mut fs = fresh(2048);
    let mut data = pattern(1200);
    store(&mut fs, "LOG", &data);
    let mut buf = [0u8; 512];
    let mut file = fs.open("LOG", &mut Scratch::new(&mut buf)).unwrap();
    let mut skipped = [0u8; 500];
    fs.read(&mut file, &mut skipped, &mut Scratch::new(&mut buf))
        .unwrap();
    assert_eq!(
        fs.write(&mut file, &[0xee; 30], &mut Scratch::new(&mut buf)),
        Ok(30)
    );
    assert_eq!(file.position(), 530);
    data[500..530].fill(0xee);
    assert_eq!(load(&mut fs, "LOG"), data);
    // Writing stops at the end of the file.
    assert_eq!(
        fs.write(&mut file, &[1u8; 1000], &mut Scratch::new(&mut buf)),
        Ok(670)
    );
    assert_eq!(
        fs.write(&mut file, &[1u8; 5], &mut Scratch::new(&mut buf)),
        Ok(0)
    );
    assert_eq!(file.len(), 1200);
}

#[test]
fn truncated_file_keeps_its_start_and_frees_the_rest() {
    let mut fs = fresh(2048);
    let data = pattern(2000);
    let free = fs.free_space_bytes();
    store(&mut fs, "LOG", &data);
    let mut buf = [0u8; 512];
    let mut file = fs.open("LOG", &mut Scratch::new(&mut buf)).unwrap();
    fs.truncate(&mut file, 600, &mut Scratch::new(&mut buf))
        .unwrap();
    assert_eq!(file.len(), 600);
    assert_eq!(fs.free_space_bytes(), free - 1024);
    assert_eq!(load(&mut fs, "LOG"), &data[..600]);
    assert_eq!(
        fs.truncate(&mut file, 601, &mut Scratch::new(&mut buf)),
        Err(Error::EndOfFile)
    );
    fs.truncate(&mut file, 0, &mut Scratch::new(&mut buf))
        .unwrap();
    assert!(file.is_empty());
    assert_eq!(file.first_cluster, 0);
    assert_eq!(fs.free_space_bytes(), free);
    assert_eq!(load(&mut remounted(fs), "LOG"), b"");
}

#[test]
fn creating_over_a_file_empties_it() {
    let mut fs = fresh(2048);
    let free = fs.free_space_bytes();
    store(&mut fs, "LOG", &pattern(5000));
    let mut buf = [0u8; 512];
    let before = fs.lookup("LOG", &mut Scratch::new(&mut buf)).unwrap();
    let file = fs.create("/log/", &mut Scratch::new(&mut buf)).unwrap();
    assert!(file.is_empty());
    assert_eq!(file.primary, before.primary);
    assert_eq!(fs.free_space_bytes(), free);
    assert_eq!(load(&mut fs, "LOG"), b"");
}

#[test]
fn paths_ignore_case_and_surrounding_slashes() {
    let mut fs = fresh(2048);
    let mut buf = [0u8; 512];
    fs.create_dir_all("//Logs/Today/", &mut Scratch::new(&mut buf))
        .unwrap();
    store(&mut fs, "logs//today/A.csv", b"abc");
    assert_eq!(load(&mut fs, "/LOGS/TODAY/a.CSV/"), b"abc");
    assert_eq!(names(&mut fs, "logs"), ["Today"]);
    assert_eq!(names(&mut fs, "logs/today"), ["A.csv"]);
}

#[test]
fn made_directories_are_empty_until_something_is_created() {
    let mut fs = fresh(2048);
    let mut buf = [0u8; 512];
    let free = fs.free_space_bytes();
    fs.create_dir_all("A/B/C", &mut Scratch::new(&mut buf))
        .unwrap();
    assert_eq!(fs.free_space_bytes(), free - 3 * 512);
    assert_eq!(
        fs.is_dir_empty("A/B/C", &mut Scratch::new(&mut buf)),
        Ok(true)
    );
    assert_eq!(
        fs.is_dir_empty("A/B", &mut Scratch::new(&mut buf)),
        Ok(false)
    );
    // What exists is passed through.
    fs.create_dir_all("a/b/D", &mut Scratch::new(&mut buf))
        .unwrap();
    assert_eq!(fs.free_space_bytes(), free - 4 * 512);
    assert_eq!(names(&mut fs, "A/B"), ["C", "D"]);
}

#[test]
fn contiguous_directories_are_searched_in_every_cluster() {
    let mut fs = fresh(2048);
    let mut buf = [0u8; 512];
    fs.create_dir_all("DIR", &mut Scratch::new(&mut buf))
        .unwrap();
    // Five entry sets of three slots, and one more that the next cluster ends.
    let wanted: Vec<String> = (0..9).map(|i| format!("F{i}")).collect();
    for name in &wanted {
        fs.create(&format!("DIR/{name}"), &mut Scratch::new(&mut buf))
            .unwrap();
    }
    let entry = fs.lookup("DIR", &mut Scratch::new(&mut buf)).unwrap();
    assert_eq!(entry.directory().unwrap().data_length, 1024);
    patch_stream(&mut fs, "DIR", |stream| stream[1] = 3);
    let mut fs = remounted(fs);
    let entry = fs.lookup("DIR", &mut Scratch::new(&mut buf)).unwrap();
    assert!(entry.directory().unwrap().no_fat_chain);
    assert_eq!(names(&mut fs, "DIR"), wanted);
    for name in &wanted {
        fs.open(&format!("DIR/{name}"), &mut Scratch::new(&mut buf))
            .unwrap();
    }
    // A file that is there is emptied, and not created a second time.
    store(&mut fs, "DIR/F8", b"eight");
    fs.create("DIR/f8", &mut Scratch::new(&mut buf)).unwrap();
    assert_eq!(names(&mut fs, "DIR"), wanted);
    // There is room in the second cluster, and no way to get a third.
    fs.create("DIR/F9", &mut Scratch::new(&mut buf)).unwrap();
    assert_eq!(names(&mut fs, "DIR").len(), 10);
    assert_eq!(
        fs.create("DIR/F10", &mut Scratch::new(&mut buf)),
        Err(Error::NoSpace)
    );
    assert_eq!(names(&mut fs, "DIR").len(), 10);
}

#[test]
fn unrecognised_sets_are_passed_over() {
    let mut fs = fresh(2048);
    store(&mut fs, "A", b"a");
    store(&mut fs, "B", b"b");
    store(&mut fs, "C", b"c");
    assert_eq!(root_names(&mut fs), ["A", "B", "C"]);
    // A secondary entry of another kind.
    patch_stream(&mut fs, "A", |stream| stream[0] = 0xe1);
    assert_eq!(root_names(&mut fs), ["B", "C"]);
    assert_eq!(load(&mut fs, "C"), b"c");
    let mut fs = fresh(2048);
    let mut buf = [0u8; 512];
    store(&mut fs, "A", b"a");
    fs.create_dir_all("D", &mut Scratch::new(&mut buf)).unwrap();
    store(&mut fs, "D/Z", b"z");
    // More secondary entries than a set can have.
    let first = fs.lookup("D", &mut Scratch::new(&mut buf)).unwrap();
    let cluster = first.directory().unwrap().first_cluster;
    let lba = fs.geometry().cluster_lba(cluster).unwrap() as usize;
    let sets = fs.device_mut().sectors[lba];
    let mut long = [0u8; 512];
    long[0] = 0x85;
    long[1] = 19;
    for at in (32..512).step_by(32) {
        long[at] = 0xe1;
    }
    fs.device_mut().sectors[lba] = long;
    let mut rest = [0u8; 512];
    for at in (0..128).step_by(32) {
        rest[at] = 0xe1;
    }
    rest[128..224].copy_from_slice(&sets[..96]);
    fs.device_mut().sectors[lba + 1] = rest;
    patch_stream(&mut fs, "D", |stream| {
        stream[1] = 3;
        stream[8..16].copy_from_slice(&1024u64.to_le_bytes());
        stream[24..32].copy_from_slice(&1024u64.to_le_bytes());
    });
    assert_eq!(names(&mut fs, "D"), ["Z"]);
}

#[test]
fn contiguous_files_of_any_length_grow() {
    for (stored, length) in [(300usize, 300u64), (700, 700), (1024, 1024)] {
        let mut fs = fresh(2048);
        let mut buf = [0u8; 512];
        let data = pattern(3000);
        store(&mut fs, "LOG", &data[..stored]);
        patch_stream(&mut fs, "LOG", |stream| {
            stream[1] = 3;
            stream[24..32].copy_from_slice(&length.to_le_bytes());
        });
        let mut fs = remounted(fs);
        // Another file takes the cluster behind the last one.
        store(&mut fs, "TWO", b"two");
        let mut file = fs.open("LOG", &mut Scratch::new(&mut buf)).unwrap();
        assert_eq!(
            fs.append(&mut file, &data[stored..], &mut Scratch::new(&mut buf)),
            Ok(3000 - stored)
        );
        let mut fs = remounted(fs);
        assert_eq!(load(&mut fs, "LOG"), data);
        assert_eq!(load(&mut fs, "TWO"), b"two");
    }
}

#[test]
fn what_is_refused_is_refused_without_the_device() {
    let mut fs = fresh(2048);
    let mut buf = [0u8; 512];
    let mut short = [0u8; 511];
    store(&mut fs, "LOG", &pattern(100));
    let mut file = fs.open("LOG", &mut Scratch::new(&mut buf)).unwrap();
    let before = file;
    fs.device_mut().unreadable = true;
    fs.device_mut().writes_left = Some(0);
    assert_eq!(
        fs.truncate(&mut file, 101, &mut Scratch::new(&mut buf)),
        Err(Error::EndOfFile)
    );
    assert_eq!(
        fs.append(&mut file, b"", &mut Scratch::new(&mut buf)),
        Ok(0)
    );
    assert_eq!(file, before);
    assert_eq!(
        fs.rename("LOG", "A/B", &mut Scratch::new(&mut buf)),
        Err(Error::InvalidPath)
    );
    assert_eq!(
        fs.create("//", &mut Scratch::new(&mut buf)),
        Err(Error::InvalidPath)
    );
    assert_eq!(
        fs.create_dir_all("", &mut Scratch::new(&mut buf)),
        Err(Error::InvalidPath)
    );
    assert_eq!(
        fs.open("LOG", &mut Scratch::new(&mut short)),
        Err(Error::InvalidSectorSize)
    );
    assert_eq!(
        fs.remove("LOG", &mut Scratch::new(&mut short)),
        Err(Error::InvalidSectorSize)
    );
    assert_eq!(
        fs.create("A/B", &mut Scratch::new(&mut short)),
        Err(Error::InvalidSectorSize)
    );
    assert_eq!(
        fs.create_dir_all("A/B", &mut Scratch::new(&mut short)),
        Err(Error::InvalidSectorSize)
    );
    let long = "N".repeat(256);
    assert_eq!(
        fs.create(&long, &mut Scratch::new(&mut buf)),
        Err(Error::NameTooLong)
    );
    assert_eq!(
        fs.create_dir_all(&long, &mut Scratch::new(&mut buf)),
        Err(Error::NameTooLong)
    );
    assert_eq!(
        fs.is_dir_empty("/", &mut Scratch::new(&mut buf)),
        Err(Error::PathNotFound)
    );
    assert_eq!(
        fs.open("LOG", &mut Scratch::new(&mut buf)),
        Err(Error::Device("unreadable"))
    );
}

#[test]
fn device_errors_leave_the_count_of_the_writes_that_were_made() {
    let mut fs = fresh(2048);
    let mut buf = [0u8; 512];
    store(&mut fs, "LOG", &pattern(2000));
    let free = fs.free_space_bytes();
    fs.device_mut().unreadable = true;
    assert_eq!(
        fs.refresh_free_space(&mut Scratch::new(&mut buf)),
        Err(Error::Device("unreadable"))
    );
    assert_eq!(fs.free_space_bytes(), free);
    fs.device_mut().unreadable = false;
    for writes in 0..20 {
        fs.device_mut().writes_left = Some(writes);
        let result = fs.remove("LOG", &mut Scratch::new(&mut buf));
        fs.device_mut().writes_left = None;
        let counted = fs.free_space_bytes();
        fs.refresh_free_space(&mut Scratch::new(&mut buf)).unwrap();
        assert_eq!(fs.free_space_bytes(), counted);
        if result.is_ok() {
            assert_eq!(counted, free + 2048);
            return;
        }
        fs = fresh(2048);
        store(&mut fs, "LOG", &pattern(2000));
    }
    unreachable!();
}

#[test]
fn directories_grow_for_many_entries() {
    let mut fs = fresh(2048);
    let mut buf = [0u8; 512];
    fs.create_dir_all("DIR", &mut Scratch::new(&mut buf))
        .unwrap();
    let free = fs.free_space_bytes();
    let mut workspace = Workspace::new();
    let mut wanted = Vec::new();
    for i in 0..40 {
        let name = format!("file number {i}");
        fs.create_with_workspace(
            &format!("DIR/{name}"),
            &mut Scratch::new(&mut buf),
            &mut workspace,
        )
        .unwrap();
        wanted.push(name);
    }
    // Forty sets of three entries fill 120 slots, sixteen to a cluster.
    assert_eq!(fs.free_space_bytes(), free - 7 * 512);
    assert_eq!(names(&mut fs, "DIR"), wanted);
    let length = fs
        .lookup("DIR", &mut Scratch::new(&mut buf))
        .unwrap()
        .data_length;
    assert_eq!(length, 8 * 512);
    let mut fs = remounted(fs);
    assert_eq!(names(&mut fs, "DIR"), wanted);
    assert_eq!(load(&mut fs, "DIR/FILE NUMBER 39"), b"");
}

#[test]
fn longest_names_cross_clusters() {
    let mut fs = fresh(2048);
    let mut buf = [0u8; 512];
    for letter in ["a", "b", "c"] {
        let name = letter.repeat(255);
        fs.create(&name, &mut Scratch::new(&mut buf)).unwrap();
        let found = fs
            .lookup(&name.to_uppercase(), &mut Scratch::new(&mut buf))
            .unwrap();
        assert_eq!(found.entry_count, 19);
        assert_eq!(found.name_utf16().len(), 255);
    }
    assert_eq!(
        fs.create(&"d".repeat(256), &mut Scratch::new(&mut buf)),
        Err(Error::NameTooLong)
    );
}

#[test]
fn renamed_file_keeps_its_bytes() {
    let mut fs = fresh(2048);
    let mut buf = [0u8; 512];
    let data = pattern(1000);
    fs.create_dir_all("DIR", &mut Scratch::new(&mut buf))
        .unwrap();
    store(&mut fs, "DIR/OLD", &data);
    store(&mut fs, "DIR/OTHER", b"other");
    let before = fs.lookup("DIR/OLD", &mut Scratch::new(&mut buf)).unwrap();
    // A name of as many entries is written over the old one.
    fs.rename("DIR/OLD", "NEWER", &mut Scratch::new(&mut buf))
        .unwrap();
    let after = fs.lookup("dir/newer", &mut Scratch::new(&mut buf)).unwrap();
    assert_eq!(after.primary, before.primary);
    assert_eq!(after.first_cluster, before.first_cluster);
    assert_eq!(after.data_length, before.data_length);
    assert_eq!(after.valid_length, before.valid_length);
    assert_eq!(
        fs.lookup("DIR/OLD", &mut Scratch::new(&mut buf)),
        Err(Error::PathNotFound)
    );
    // A longer one takes other slots.
    fs.rename(
        "DIR/NEWER",
        "a name of more than fifteen units",
        &mut Scratch::new(&mut buf),
    )
    .unwrap();
    let moved = fs
        .lookup(
            "DIR/A NAME OF MORE THAN FIFTEEN UNITS",
            &mut Scratch::new(&mut buf),
        )
        .unwrap();
    assert_ne!(moved.primary, before.primary);
    assert_eq!(moved.entry_count, 5);
    assert_eq!(moved.valid_length, 1000);
    assert_eq!(
        fs.lookup("DIR/NEWER", &mut Scratch::new(&mut buf)),
        Err(Error::PathNotFound)
    );
    let mut fs = remounted(fs);
    assert_eq!(load(&mut fs, "DIR/a name of more than fifteen units"), data);
    assert_eq!(load(&mut fs, "DIR/OTHER"), b"other");
    // And a shorter one again.
    fs.rename(
        "DIR/a name of more than fifteen units",
        "S",
        &mut Scratch::new(&mut buf),
    )
    .unwrap();
    assert_eq!(load(&mut fs, "DIR/S"), data);
}

#[test]
fn renaming_can_change_case_alone() {
    let mut fs = fresh(2048);
    let mut buf = [0u8; 512];
    store(&mut fs, "log", b"x");
    fs.rename("log", "LOG", &mut Scratch::new(&mut buf))
        .unwrap();
    let found = fs.lookup("log", &mut Scratch::new(&mut buf)).unwrap();
    assert_eq!(String::from_utf16(found.name_utf16()).unwrap(), "LOG");
}

#[test]
fn renamed_directory_keeps_what_is_in_it() {
    let mut fs = fresh(2048);
    let mut buf = [0u8; 512];
    fs.create_dir_all("A/B", &mut Scratch::new(&mut buf))
        .unwrap();
    store(&mut fs, "A/B/F", b"kept");
    fs.rename(
        "A",
        "another name that is quite long",
        &mut Scratch::new(&mut buf),
    )
    .unwrap();
    assert_eq!(
        load(&mut fs, "another name that is quite long/b/f"),
        b"kept"
    );
}

#[test]
fn renaming_refuses_what_is_no_name() {
    let mut fs = fresh(2048);
    let mut buf = [0u8; 512];
    store(&mut fs, "F", b"");
    for name in ["", "a/b", ".", "..", "a\\b", "a\0"] {
        assert_eq!(
            fs.rename("F", name, &mut Scratch::new(&mut buf)),
            Err(Error::InvalidPath)
        );
    }
    assert_eq!(
        fs.rename("F", &"n".repeat(256), &mut Scratch::new(&mut buf)),
        Err(Error::NameTooLong)
    );
    assert_eq!(
        fs.rename("G", "H", &mut Scratch::new(&mut buf)),
        Err(Error::PathNotFound)
    );
}

#[test]
fn removed_entries_are_gone_and_their_clusters_free() {
    let mut fs = fresh(2048);
    let mut buf = [0u8; 512];
    let free = fs.free_space_bytes();
    store(&mut fs, "ONE", &pattern(2000));
    store(&mut fs, "TWO", b"two");
    fs.create_dir_all("DIR", &mut Scratch::new(&mut buf))
        .unwrap();
    store(&mut fs, "DIR/F", b"f");
    assert_eq!(
        fs.remove("DIR", &mut Scratch::new(&mut buf)),
        Err(Error::DirectoryNotEmpty)
    );
    fs.remove("DIR/F", &mut Scratch::new(&mut buf)).unwrap();
    fs.remove("DIR", &mut Scratch::new(&mut buf)).unwrap();
    fs.remove("ONE", &mut Scratch::new(&mut buf)).unwrap();
    assert_eq!(
        fs.open("ONE", &mut Scratch::new(&mut buf)),
        Err(Error::PathNotFound)
    );
    assert_eq!(load(&mut fs, "TWO"), b"two");
    assert_eq!(fs.free_space_bytes(), free - 512);
    fs.refresh_free_space(&mut Scratch::new(&mut buf)).unwrap();
    assert_eq!(fs.free_space_bytes(), free - 512);
    assert_eq!(
        fs.remove("ONE", &mut Scratch::new(&mut buf)),
        Err(Error::PathNotFound)
    );
    // Slots of what was removed are used again.
    store(&mut fs, "ONE", b"again");
    assert_eq!(load(&mut fs, "ONE"), b"again");
}

#[test]
fn a_changed_volume_mounts_again_with_its_count() {
    let again = |fs: FileSystem<Disk>| {
        let free = fs.free_space_bytes();
        let volume = fs.volume;
        let fs = remounted(fs);
        assert_eq!(fs.free_space_bytes(), free);
        assert_eq!(fs.volume, volume);
        fs
    };
    let mut buf = [0u8; 512];
    let mut fs = again(fresh(2048));
    fs.create_dir_all("A/B", &mut Scratch::new(&mut buf))
        .unwrap();
    let mut fs = again(fs);
    store(&mut fs, "A/B/LOG", &pattern(1500));
    let mut fs = again(fs);
    let mut file = fs.open("A/B/LOG", &mut Scratch::new(&mut buf)).unwrap();
    fs.write(&mut file, &[0xee; 600], &mut Scratch::new(&mut buf))
        .unwrap();
    let mut fs = again(fs);
    let mut data = pattern(1500);
    data[..600].fill(0xee);
    assert_eq!(load(&mut fs, "A/B/LOG"), data);
    fs.rename("A/B/LOG", "NOTES", &mut Scratch::new(&mut buf))
        .unwrap();
    let mut fs = again(fs);
    fs.rename(
        "A/B/NOTES",
        "A NAME OF MORE THAN FIFTEEN UNITS",
        &mut Scratch::new(&mut buf),
    )
    .unwrap();
    let mut fs = again(fs);
    let path = "A/B/A NAME OF MORE THAN FIFTEEN UNITS";
    assert_eq!(load(&mut fs, path), data);
    let mut file = fs.open(path, &mut Scratch::new(&mut buf)).unwrap();
    fs.truncate(&mut file, 700, &mut Scratch::new(&mut buf))
        .unwrap();
    let mut fs = again(fs);
    assert_eq!(load(&mut fs, path), &data[..700]);
    fs.remove(path, &mut Scratch::new(&mut buf)).unwrap();
    let mut fs = again(fs);
    assert_eq!(names(&mut fs, "A/B"), Vec::<String>::new());
}

#[test]
fn contiguous_files_are_removed_whole() {
    let mut fs = fresh(2048);
    let mut buf = [0u8; 512];
    let free = fs.free_space_bytes();
    store(&mut fs, "BIG", &pattern(512 * 9));
    assert!(
        fs.open("BIG", &mut Scratch::new(&mut buf))
            .unwrap()
            .no_fat_chain
    );
    fs.remove("BIG", &mut Scratch::new(&mut buf)).unwrap();
    assert_eq!(fs.free_space_bytes(), free);
    fs.refresh_free_space(&mut Scratch::new(&mut buf)).unwrap();
    assert_eq!(fs.free_space_bytes(), free);
}

#[test]
fn files_and_directories_are_told_apart() {
    let mut fs = fresh(2048);
    let mut buf = [0u8; 512];
    store(&mut fs, "F", b"");
    fs.create_dir_all("D", &mut Scratch::new(&mut buf)).unwrap();
    assert_eq!(
        fs.open("D", &mut Scratch::new(&mut buf)),
        Err(Error::IsDirectory)
    );
    assert_eq!(
        fs.create("D", &mut Scratch::new(&mut buf)),
        Err(Error::IsDirectory)
    );
    assert_eq!(
        fs.lookup("F/x", &mut Scratch::new(&mut buf)),
        Err(Error::NotDirectory)
    );
    assert_eq!(
        fs.create("F/x", &mut Scratch::new(&mut buf)),
        Err(Error::NotDirectory)
    );
    assert_eq!(
        fs.create_dir_all("F/x", &mut Scratch::new(&mut buf)),
        Err(Error::NotDirectory)
    );
    assert_eq!(
        fs.is_dir_empty("F", &mut Scratch::new(&mut buf)),
        Err(Error::NotDirectory)
    );
}

#[test]
fn empty_and_missing_paths_are_refused() {
    let mut fs = fresh(2048);
    let mut buf = [0u8; 512];
    for path in ["", "/", "///"] {
        assert_eq!(
            fs.create(path, &mut Scratch::new(&mut buf)),
            Err(Error::InvalidPath)
        );
        assert_eq!(
            fs.create_dir_all(path, &mut Scratch::new(&mut buf)),
            Err(Error::InvalidPath)
        );
        assert_eq!(
            fs.lookup(path, &mut Scratch::new(&mut buf)),
            Err(Error::PathNotFound)
        );
    }
    assert_eq!(
        fs.create("missing/file", &mut Scratch::new(&mut buf)),
        Err(Error::PathNotFound)
    );
    assert_eq!(
        fs.create("a/./b", &mut Scratch::new(&mut buf)),
        Err(Error::PathNotFound)
    );
    assert_eq!(
        fs.lookup("..", &mut Scratch::new(&mut buf)),
        Err(Error::InvalidPath)
    );
}

#[test]
fn a_full_volume_refuses_growth_and_keeps_the_file() {
    let mut fs = fresh(537);
    let mut buf = [0u8; 512];
    let data = pattern(600);
    store(&mut fs, "LOG", &data);
    let mut file = fs.open("LOG", &mut Scratch::new(&mut buf)).unwrap();
    let before = file;
    let more = vec![5u8; 1_000_000];
    assert_eq!(
        fs.append(&mut file, &more, &mut Scratch::new(&mut buf)),
        Err(Error::NoSpace)
    );
    assert_eq!(file, before);
    assert_eq!(load(&mut fs, "LOG"), data);
    assert_eq!(fs.free_space_bytes(), 0);
    assert_eq!(
        fs.create_dir_all("DIR", &mut Scratch::new(&mut buf)),
        Err(Error::NoSpace)
    );
}

#[test]
fn a_full_directory_refuses_entries_and_lists_the_same() {
    let mut fs = fresh(537);
    let mut buf = [0u8; 512];
    store(&mut fs, "LOG", &pattern(600));
    let mut file = fs.open("LOG", &mut Scratch::new(&mut buf)).unwrap();
    fs.append(&mut file, &vec![5u8; 1_000_000], &mut Scratch::new(&mut buf))
        .unwrap_err();
    // The root directory has room for a few entry sets, and cannot grow.
    let mut made = 0;
    let refused = loop {
        match fs.create(&format!("F{made}"), &mut Scratch::new(&mut buf)) {
            Ok(_) => made += 1,
            Err(error) => break error,
        }
    };
    assert_eq!(refused, Error::NoSpace);
    let listed = root_names(&mut fs);
    assert_eq!(listed.len(), 1 + made);
    let long = "A NAME OF MORE THAN FIFTEEN UNITS, AND OF MORE THAN THIRTY";
    assert_eq!(
        fs.rename("LOG", long, &mut Scratch::new(&mut buf)),
        Err(Error::NoSpace)
    );
    let mut fs = remounted(fs);
    assert_eq!(root_names(&mut fs), listed);
    assert_eq!(fs.free_space_bytes(), 0);
    assert_eq!(load(&mut fs, "LOG"), pattern(600));
}

#[test]
fn interrupted_append_leaves_the_handle_and_the_old_bytes() {
    let data = pattern(700);
    for writes in 0..12 {
        let mut fs = fresh(2048);
        let mut buf = [0u8; 512];
        store(&mut fs, "LOG", &data);
        let mut file = fs.open("LOG", &mut Scratch::new(&mut buf)).unwrap();
        let before = file;
        fs.device_mut().writes_left = Some(writes);
        let result = fs.append(&mut file, &[3u8; 2000], &mut Scratch::new(&mut buf));
        fs.device_mut().writes_left = None;
        assert_eq!(result, Err(Error::Device("worn out")));
        assert_eq!(file, before);
        let mut fs = remounted(fs);
        assert_eq!(load(&mut fs, "LOG"), data);
    }
}

#[test]
fn new_clusters_are_cleared_before_they_are_claimed() {
    let mut claimed = 0;
    for writes in 0..12 {
        let mut fs = fresh(2048);
        let mut buf = [0u8; 512];
        store(&mut fs, "OLD", &[0xaau8; 8192]);
        fs.remove("OLD", &mut Scratch::new(&mut buf)).unwrap();
        let mut file = fs.create("LOG", &mut Scratch::new(&mut buf)).unwrap();
        let free = fs.free_space_bytes();
        let dirty = |fs: &mut FileSystem<Disk>| {
            let sectors = &fs.device_mut().sectors;
            sectors.iter().filter(|s| **s == [0xaau8; 512]).count() as u64
        };
        let before = dirty(&mut fs);
        assert_eq!(before, 16);
        fs.device_mut().writes_left = Some(writes);
        let _ = fs.append(&mut file, b"x", &mut Scratch::new(&mut buf));
        fs.device_mut().writes_left = None;
        let mut fs = remounted(fs);
        let taken = free - fs.free_space_bytes();
        if taken > 0 {
            claimed += 1;
            assert_eq!(dirty(&mut fs), before - taken / 512);
        }
    }
    assert!(claimed > 1);
}

#[test]
fn a_longer_name_is_there_before_the_old_one_goes() {
    let data = pattern(700);
    let long = "a name of more than fifteen units";
    let mut both = 0;
    for writes in 0..20 {
        let mut fs = fresh(2048);
        let mut buf = [0u8; 512];
        store(&mut fs, "SHORT", &data);
        fs.device_mut().writes_left = Some(writes);
        let done = fs.rename("SHORT", long, &mut Scratch::new(&mut buf));
        fs.device_mut().writes_left = None;
        let mut fs = remounted(fs);
        let old = fs.lookup("SHORT", &mut Scratch::new(&mut buf));
        let new = fs.lookup(long, &mut Scratch::new(&mut buf));
        if old.is_ok() && new.is_ok() {
            both += 1;
            assert!(done.is_err());
            assert_eq!(load(&mut fs, "SHORT"), data);
            assert_eq!(load(&mut fs, long), data);
        }
        if done.is_ok() {
            assert_eq!(old, Err(Error::PathNotFound));
            assert_eq!(load(&mut fs, long), data);
        }
    }
    assert!(both > 0);
}

#[test]
fn a_directory_that_began_to_grow_lists_the_same() {
    let files = ["A", "B", "C", "D", "E"];
    for writes in 0..=5 {
        let mut fs = fresh(2048);
        let mut buf = [0u8; 512];
        fs.create_dir_all("DIR", &mut Scratch::new(&mut buf))
            .unwrap();
        for name in files {
            store(&mut fs, &format!("DIR/{name}"), b"");
        }
        let free = fs.free_space_bytes();
        fs.device_mut().writes_left = Some(writes);
        assert_eq!(
            fs.create("DIR/F", &mut Scratch::new(&mut buf)),
            Err(Error::Device("worn out"))
        );
        fs.device_mut().writes_left = None;
        let mut fs = remounted(fs);
        assert_eq!(names(&mut fs, "DIR"), files);
        // The cluster was cleared and then marked as used.
        assert_eq!(fs.free_space_bytes() < free, writes >= 2);
    }
}

#[test]
fn visitors_can_stop_a_listing() {
    let mut fs = fresh(2048);
    let mut buf = [0u8; 512];
    for name in ["A", "B", "C"] {
        store(&mut fs, name, b"");
    }
    let mut seen = Vec::new();
    fs.read_root(&mut Scratch::new(&mut buf), |entry| {
        seen.push(String::from_utf16(entry.name_utf16()).unwrap());
        seen.len() < 2
    })
    .unwrap();
    assert_eq!(seen, ["A", "B"]);
}

#[test]
fn workspace_methods_agree_with_the_plain_ones() {
    let mut fs = fresh(2048);
    let mut buf = [0u8; 512];
    let mut workspace = Workspace::new();
    fs.create_dir_all_with_workspace("D/E", &mut Scratch::new(&mut buf), &mut workspace)
        .unwrap();
    fs.create_with_workspace("D/E/F", &mut Scratch::new(&mut buf), &mut workspace)
        .unwrap();
    assert_eq!(
        fs.open("D/E/F", &mut Scratch::new(&mut buf)),
        fs.open_with_workspace("D/E/F", &mut Scratch::new(&mut buf), &mut workspace)
    );
    fs.rename_with_workspace("D/E/F", "G", &mut Scratch::new(&mut buf), &mut workspace)
        .unwrap();
    assert_eq!(
        fs.is_dir_empty_with_workspace("D/E", &mut Scratch::new(&mut buf), &mut workspace),
        Ok(false)
    );
    fs.remove_with_workspace("D/E/G", &mut Scratch::new(&mut buf), &mut workspace)
        .unwrap();
    assert_eq!(
        fs.is_dir_empty_with_workspace("D/E", &mut Scratch::new(&mut buf), &mut workspace),
        Ok(true)
    );
}

#[test]
fn a_failed_write_leaves_the_position_behind_what_was_stored() {
    let mut fs = fresh(2048);
    let mut buf = [0u8; 512];
    store(&mut fs, "LOG", &[0u8; 2000]);
    let data = pattern(1500);
    let mut file = fs.open("LOG", &mut Scratch::new(&mut buf)).unwrap();
    fs.read(&mut file, &mut [0u8; 100], &mut Scratch::new(&mut buf))
        .unwrap();
    fs.device_mut().writes_left = Some(0);
    assert_eq!(
        fs.write(&mut file, &data, &mut Scratch::new(&mut buf)),
        Err(Error::Device("worn out"))
    );
    assert_eq!(file.position(), 100);
    fs.device_mut().writes_left = Some(2);
    assert_eq!(
        fs.write(&mut file, &data, &mut Scratch::new(&mut buf)),
        Err(Error::Device("worn out"))
    );
    assert_eq!(file.position(), 1024);
    fs.device_mut().writes_left = None;
    assert_eq!(
        fs.write(&mut file, &data[924..], &mut Scratch::new(&mut buf)),
        Ok(576)
    );
    assert_eq!(file.position(), 1600);
    let mut expected = vec![0u8; 2000];
    expected[100..1600].copy_from_slice(&data);
    assert_eq!(load(&mut fs, "LOG"), expected);
}

#[test]
fn a_failed_read_leaves_the_position_where_it_was() {
    let mut fs = fresh(2048);
    let mut buf = [0u8; 512];
    let data = pattern(2000);
    store(&mut fs, "LOG", &data);
    let mut file = fs.open("LOG", &mut Scratch::new(&mut buf)).unwrap();
    fs.device_mut().unreadable = true;
    assert_eq!(
        fs.read(&mut file, &mut [0u8; 100], &mut Scratch::new(&mut buf)),
        Err(Error::Device("unreadable"))
    );
    assert_eq!(file.position(), 0);
    fs.device_mut().unreadable = false;
    let mut out = [0u8; 2000];
    assert_eq!(
        fs.read(&mut file, &mut out, &mut Scratch::new(&mut buf)),
        Ok(2000)
    );
    assert_eq!(out[..], data[..]);
}

#[test]
fn a_handle_is_shortened_once_its_clusters_are_given_back() {
    let mut old = 0;
    let mut short = 0;
    for writes in 0..40 {
        let mut fs = fresh(2048);
        let mut buf = [0u8; 512];
        store(&mut fs, "LOG", &pattern(2000));
        let mut file = fs.open("LOG", &mut Scratch::new(&mut buf)).unwrap();
        let before = file;
        let free = fs.free_space_bytes();
        fs.device_mut().writes_left = Some(writes);
        match fs.truncate(&mut file, 100, &mut Scratch::new(&mut buf)) {
            Ok(()) => {
                assert_eq!(file.len(), 100);
                assert!(old > 0 && short > 0);
                return;
            }
            Err(error) => assert_eq!(error, Error::Device("worn out")),
        }
        if fs.free_space_bytes() == free + 3 * 512 {
            assert_eq!(file.len(), 100);
            short += 1;
        } else {
            assert_eq!(file, before);
            old += 1;
        }
    }
    unreachable!();
}

#[test]
fn directories_are_made_once() {
    let mut fs = fresh(4096);
    let mut buf = [0u8; 512];
    fs.create_dir_all("A/B/C", &mut Scratch::new(&mut buf))
        .unwrap();
    store(&mut fs, "A/F", b"x");
    for path in ["A", "A/B", "A/B/C"] {
        let found = fs.lookup(path, &mut Scratch::new(&mut buf)).unwrap();
        assert!(found.directory().is_some());
    }
    fs.device_mut().writes_left = Some(0);
    assert_eq!(
        fs.create_dir_all("/A/B/C/", &mut Scratch::new(&mut buf)),
        Ok(())
    );
    assert_eq!(fs.create_dir_all("A/B", &mut Scratch::new(&mut buf)), Ok(()));
    assert_eq!(
        fs.create_dir_all("A/F/G", &mut Scratch::new(&mut buf)),
        Err(Error::NotDirectory)
    );
    assert_eq!(
        fs.create_dir_all("A/F", &mut Scratch::new(&mut buf)),
        Err(Error::NotDirectory)
    );
}

#[test]
fn reading_never_flushes() {
    let mut fs = fresh(2048);
    let mut buf = [0u8; 512];
    store(&mut fs, "LOG", &pattern(700));
    let flushes = fs.device().flushes;
    let mut fs = remounted(fs);
    assert_eq!(load(&mut fs, "LOG"), pattern(700));
    assert_eq!(root_names(&mut fs), ["LOG"]);
    fs.refresh_free_space(&mut Scratch::new(&mut buf)).unwrap();
    assert_eq!(
        fs.lookup("NONE", &mut Scratch::new(&mut buf)).err(),
        Some(Error::PathNotFound)
    );
    assert_eq!(fs.device().flushes, flushes);
}

#[test]
fn emptying_and_removing_leave_everything_else() {
    let mut fs = fresh(2048);
    let mut buf = [0u8; 512];
    store(&mut fs, "ONE", &pattern(600));
    store(&mut fs, "TWO", &pattern(700));
    store(&mut fs, "THREE", &pattern(800));
    let emptied = fs.create("TWO", &mut Scratch::new(&mut buf)).unwrap();
    assert!(emptied.is_empty());
    let mut fs = remounted(fs);
    assert_eq!(root_names(&mut fs), ["ONE", "TWO", "THREE"]);
    assert_eq!(load(&mut fs, "ONE"), pattern(600));
    assert_eq!(load(&mut fs, "THREE"), pattern(800));
    fs.remove("ONE", &mut Scratch::new(&mut buf)).unwrap();
    let mut fs = remounted(fs);
    assert_eq!(root_names(&mut fs), ["TWO", "THREE"]);
    assert_eq!(load(&mut fs, "TWO"), Vec::<u8>::new());
    assert_eq!(load(&mut fs, "THREE"), pattern(800));
}

#[test]
fn a_file_in_a_directory_gets_a_longer_name() {
    let mut fs = fresh(2048);
    let mut buf = [0u8; 512];
    fs.create_dir_all("DIR", &mut Scratch::new(&mut buf)).unwrap();
    store(&mut fs, "DIR/A", b"abc");
    store(&mut fs, "DIR/B", b"other");
    let before = fs.lookup("DIR/A", &mut Scratch::new(&mut buf)).unwrap();
    fs.rename("DIR/A", "NEW_NAME_16CHARS", &mut Scratch::new(&mut buf))
        .unwrap();
    let mut fs = remounted(fs);
    let after = fs
        .lookup("DIR/NEW_NAME_16CHARS", &mut Scratch::new(&mut buf))
        .unwrap();
    assert_eq!(after.valid_length, 3);
    assert_eq!(after.data_length, 512);
    assert_eq!(after.first_cluster, before.first_cluster);
    assert_eq!(after.no_fat_chain, before.no_fat_chain);
    assert_eq!(after.created, before.created);
    assert_eq!(after.modified, before.modified);
    assert_eq!(after.accessed, before.accessed);
    assert_eq!(
        fs.lookup("DIR/A", &mut Scratch::new(&mut buf)).err(),
        Some(Error::PathNotFound)
    );
    assert_eq!(names(&mut fs, "DIR"), ["B", "NEW_NAME_16CHARS"]);
    assert_eq!(load(&mut fs, "DIR/NEW_NAME_16CHARS"), b"abc");
    assert_eq!(load(&mut fs, "DIR/B"), b"other");
    let directory = fs
        .lookup("DIR", &mut Scratch::new(&mut buf))
        .unwrap();
    let extent = directory.directory().unwrap();
    assert_eq!(extent.entry_locs, directory.entry_locs);
    assert_eq!(extent.entry_count, 3);
}

#[test]
fn a_fresh_bitmap_marks_what_formatting_took() {
    let fs = fresh(2048);
    let g = fs.geometry();
    let lba = g.partition.first_lba
        + u64::from(g.cluster_heap_offset)
        + u64::from(g.sectors_per_cluster);
    let bitmap = &fs.device().sectors[lba as usize];
    assert_eq!(bitmap[..32], [0xff; 32]);
    assert_eq!(bitmap[32], 0b11);
    assert_eq!(bitmap[33..], [0; 479]);
    assert_eq!(
        fs.free_space_bytes(),
        u64::from(g.cluster_count - 258) * 512
    );
}

#[test]
fn an_entry_set_reads_back_from_any_slots() {
    let mut fs = fresh(2048);
    let mut buf = [0u8; 512];
    let mut locs = [EntryLocator { lba: 0, offset: 0 }; 19];
    locs[0] = EntryLocator { lba: 1900, offset: 64 };
    locs[1] = EntryLocator { lba: 1901, offset: 480 };
    locs[2] = EntryLocator { lba: 1900, offset: 0 };
    locs[3] = EntryLocator { lba: 1900, offset: 32 };
    let name: Vec<u16> = "sixteen-units-00".encode_utf16().collect();
    let time = ExfatTimestamp {
        date_time: 0x1234_5678,
        ten_millis: 0,
        utc_offset: 0x80,
    };
    let contents = NewEntrySet {
        name: &name,
        attributes: 0x10,
        first_cluster: 9,
        valid_length: 300,
        data_length: 512,
        no_fat_chain: true,
        created: time,
        modified: time,
        accessed: time,
    };
    for lba in [1900, 1901] {
        fs.device_mut().sectors[lba] = [0xa5; 512];
    }
    fs.write_entry_set(&locs, 4, &contents, &mut Scratch::new(&mut buf))
        .unwrap();
    let mut set = EntrySet::new();
    let mut found = None;
    for at in &locs[..4] {
        assert!(found.is_none());
        let from = at.offset as usize;
        let raw = &fs.device().sectors[at.lba as usize][from..from + 32];
        found = set.push::<()>(raw, *at).unwrap();
    }
    let found = found.unwrap();
    assert_eq!(found.name_utf16(), &name[..]);
    assert!(found.is_directory && found.no_fat_chain);
    assert_eq!((found.first_cluster, found.valid_length, found.data_length), (9, 300, 512));
    assert_eq!((found.created, found.modified, found.accessed), (time, time, time));
    assert_eq!(found.entry_locs[..4], locs[..4]);
    assert_eq!(fs.device().sectors[1900][96..], [0xa5; 416]);
    assert_eq!(fs.device().sectors[1901][..480], [0xa5; 480]);
}
