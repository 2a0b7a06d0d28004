//! Formatting devices, and mounting what was formatted.

use std::collections::HashMap;

use exfat_embedded::{format_exfat, BlockDevice, Error, FileSystem, Partition, Scratch, Volume};

/// A device that stores the sectors that were written; all others are zero.
struct Sparse {
    size: usize,
    count: u64,
    sectors: HashMap<u64, Vec<u8>>,
    writes_left: Option<usize>,
    flushes: usize,
}

impl Sparse {
    fn new(count: u64) -> Self {
        Self {
            size: 512,
            count,
            sectors: HashMap::new(),
            writes_left: None,
            flushes: 0,
        }
    }

    fn sector(&self, lba: u64) -> Vec<u8> {
        self.sectors
            .get(&lba)
            .cloned()
            .unwrap_or_else(|| vec![0; self.size])
    }

    fn patch(&mut self, lba: u64, at: usize, bytes: &[u8]) {
        let mut sector = self.sector(lba);
        sector[at..at + bytes.len()].copy_from_slice(bytes);
        self.sectors.insert(lba, sector);
    }
}

impl BlockDevice for Sparse {
    type Error = u8;
    fn sector_size(&self) -> usize {
        self.size
    }
    fn sector_count(&self) -> u64 {
        self.count
    }
    fn read_sector(&mut self, lba: u64, out: &mut [u8]) -> Result<(), u8> {
        if lba >= self.count {
            return Err(1);
        }
        out.copy_from_slice(&self.sector(lba));
        Ok(())
    }
    fn write_sector(&mut self, lba: u64, data: &[u8]) -> Result<(), u8> {
        if lba >= self.count {
            return Err(2);
        }
        if let Some(left) = &mut self.writes_left {
            if *left == 0 {
                return Err(3);
            }
            *left -= 1;
        }
        self.sectors.insert(lba, data.to_vec());
        Ok(())
    }
    fn flush(&mut self) -> Result<(), u8> {
        self.flushes += 1;
        Ok(())
    }
}

fn formatted(count: u64) -> Sparse {
    let mut device = Sparse::new(count);
    let mut buf = [0u8; 512];
    format_exfat(&mut device, &mut Scratch::new(&mut buf)).unwrap();
    device
}

fn mount_error(device: Sparse) -> Error<u8> {
    let mut buf = [0u8; 512];
    match FileSystem::mount(device, &mut Scratch::new(&mut buf)) {
        Ok(_) => panic!("the device was mounted"),
        Err(error) => error,
    }
}

/// Record the checksum of a patched boot region, as a formatter does.
fn seal_boot(device: &mut Sparse) {
    let mut sum = 0u32;
    for k in 0..11u64 {
        for (i, byte) in device.sector(1 + k).into_iter().enumerate() {
            if k == 0 && (i == 106 || i == 107 || i == 112) {
                continue;
            }
            sum = sum.rotate_right(1).wrapping_add(u32::from(byte));
        }
    }
    for word in 0..128 {
        device.patch(12, 4 * word, &sum.to_le_bytes());
    }
}

#[test]
fn formatted_device_mounts_with_its_layout() {
    let mut buf = [0u8; 512];
    let device = formatted(2048);
    assert!(device.flushes > 0);
    let fs = FileSystem::mount(device, &mut Scratch::new(&mut buf)).unwrap();
    let g = fs.geometry();
    assert_eq!(
        g.partition,
        Partition {
            first_lba: 1,
            sector_count: 2047
        }
    );
    assert_eq!(g.bytes_per_sector, 512);
    assert_eq!(g.sectors_per_cluster, 1);
    assert_eq!(g.bytes_per_cluster(), 512);
    assert_eq!(g.fat_offset, 24);
    assert_eq!(g.fat_length, 16);
    assert_eq!(g.cluster_heap_offset, 40);
    assert_eq!(g.cluster_count, 2007);
    assert_eq!(g.root_cluster, 2);
    assert_eq!(g.cluster_lba(1), None);
    assert_eq!(g.cluster_lba(2), Some(41));
    assert_eq!(g.cluster_lba(2008), Some(2047));
    assert_eq!(g.cluster_lba(2009), None);
    assert_eq!(fs.capacity_bytes(), 2007 * 512);
    // Root directory, one bitmap cluster and 256 clusters of the UpCase table
    // are in use.
    assert_eq!(fs.free_space_bytes(), (2007 - 258) * 512);
}

#[test]
fn larger_devices_have_larger_clusters() {
    let mut buf = [0u8; 512];
    let fs = FileSystem::mount(formatted(131_073), &mut Scratch::new(&mut buf)).unwrap();
    let g = fs.geometry();
    assert_eq!(g.sectors_per_cluster, 16);
    assert_eq!(g.bytes_per_cluster(), 8192);
    assert_eq!(g.fat_length, 64);
    assert_eq!(g.cluster_heap_offset, 88);
    assert_eq!(g.cluster_count, 8186);
    assert_eq!(fs.free_space_bytes(), (8186 - 18) * 8192);

    let fs = FileSystem::mount(formatted(1_048_577), &mut Scratch::new(&mut buf)).unwrap();
    assert_eq!(fs.geometry().bytes_per_cluster(), 32_768);
}

#[test]
fn formatted_device_carries_the_exfat_structures() {
    let device = formatted(2048);
    let mbr = device.sector(0);
    assert_eq!(mbr[450], 7);
    assert_eq!(&mbr[454..458], &1u32.to_le_bytes());
    assert_eq!(&mbr[458..462], &2047u32.to_le_bytes());
    assert_eq!(&mbr[510..], &[0x55, 0xaa]);
    // The backup boot region is a copy.
    for k in 0..12 {
        assert_eq!(device.sector(1 + k), device.sector(13 + k));
    }
    let fat = device.sector(25);
    assert_eq!(&fat[0..4], &0xffff_fff8u32.to_le_bytes());
    assert_eq!(&fat[8..12], &0xffff_ffffu32.to_le_bytes());
    assert_eq!(&fat[12..16], &0xffff_ffffu32.to_le_bytes());
    assert_eq!(&fat[16..20], &5u32.to_le_bytes());
    let root = device.sector(41);
    assert_eq!(root[0], 0x81);
    assert_eq!(&root[20..24], &3u32.to_le_bytes());
    assert_eq!(&root[24..32], &251u64.to_le_bytes());
    assert_eq!(root[32], 0x82);
    assert_eq!(&root[52..56], &4u32.to_le_bytes());
    assert_eq!(&root[56..64], &131_072u64.to_le_bytes());
    // 258 clusters in use: 32 full bytes, then two bits.
    let bitmap = device.sector(42);
    assert!(bitmap[..32].iter().all(|byte| *byte == 0xff));
    assert_eq!(bitmap[32], 0b11);
    assert!(bitmap[33..].iter().all(|byte| *byte == 0));
    // The table changes ASCII letters only.
    let table = device.sector(43);
    assert_eq!(&table[2 * 0x61..2 * 0x61 + 2], &0x41u16.to_le_bytes());
    assert_eq!(&table[2 * 0x7a..2 * 0x7a + 2], &0x5au16.to_le_bytes());
    assert_eq!(&table[2 * 0x7b..2 * 0x7b + 2], &0x7bu16.to_le_bytes());
    assert_eq!(&table[2 * 0xe4..2 * 0xe4 + 2], &0xe4u16.to_le_bytes());
}

#[test]
fn format_writes_runs_of_scratch_sectors_alike() {
    let one = formatted(2048);
    let mut buf = [0u8; 512 * 7 + 100];
    let mut many = Sparse::new(2048);
    format_exfat(&mut many, &mut Scratch::new(&mut buf)).unwrap();
    for lba in 0..2048 {
        assert_eq!(one.sector(lba), many.sector(lba));
    }
}

#[test]
fn format_refuses_unsuitable_devices() {
    let mut buf = [0u8; 512];
    let mut device = Sparse::new(2048);
    device.size = 1024;
    assert_eq!(
        format_exfat(&mut device, &mut Scratch::new(&mut buf)),
        Err(Error::UnsupportedSectorSize)
    );
    let mut device = Sparse::new(2048);
    assert_eq!(
        format_exfat(&mut device, &mut Scratch::new(&mut buf[..511])),
        Err(Error::InvalidSectorSize)
    );
    for count in [0, 536, 0x1_0000_0001] {
        let mut device = Sparse::new(count);
        assert_eq!(
            format_exfat(&mut device, &mut Scratch::new(&mut buf)),
            Err(Error::InvalidPartitionTable)
        );
        assert!(device.sectors.is_empty());
    }
    let mut device = Sparse::new(537);
    assert_eq!(
        format_exfat(&mut device, &mut Scratch::new(&mut buf)),
        Ok(())
    );
}

#[test]
fn format_hands_on_device_errors() {
    let mut buf = [0u8; 512];
    let mut device = Sparse::new(2048);
    device.writes_left = Some(30);
    assert_eq!(
        format_exfat(&mut device, &mut Scratch::new(&mut buf)),
        Err(Error::Device(3))
    );
    assert_eq!(device.sectors.len(), 30);
}

#[test]
fn fresh_volume_has_no_label_and_no_entries() {
    let mut buf = [0u8; 512];
    let mut device = formatted(2048);
    let volume = Volume::mount(&mut device, &mut Scratch::new(&mut buf)).unwrap();
    assert!(volume.label().utf16().is_empty());
    assert_eq!(volume.allocation_bitmap().first_cluster, 3);
    assert_eq!(volume.allocation_bitmap().byte_length, 251);
    assert_eq!(volume.upcase_table().first_cluster, 4);
    assert_eq!(volume.upcase_table().byte_length, 131_072);
    let mut fs = FileSystem::mount(device, &mut Scratch::new(&mut buf)).unwrap();
    let mut seen = 0;
    fs.read_root(&mut Scratch::new(&mut buf), |_| {
        seen += 1;
        true
    })
    .unwrap();
    assert_eq!(seen, 0);
}

#[test]
fn label_before_the_other_system_entries_is_read() {
    let mut buf = [0u8; 512];
    let mut device = formatted(2048);
    let system = device.sector(41)[..64].to_vec();
    let mut entry = [0u8; 32];
    entry[0] = 0x83;
    entry[1] = 3;
    for (i, unit) in "SD1".encode_utf16().enumerate() {
        entry[2 + 2 * i..4 + 2 * i].copy_from_slice(&unit.to_le_bytes());
    }
    device.patch(41, 0, &entry);
    device.patch(41, 32, &system);
    let volume = Volume::mount(&mut device, &mut Scratch::new(&mut buf)).unwrap();
    let label: Vec<u16> = "SD1".encode_utf16().collect();
    assert_eq!(volume.label().utf16(), &label[..]);
}

#[test]
fn label_behind_the_other_system_entries_is_read() {
    let mut buf = [0u8; 512];
    let mut device = formatted(2048);
    let mut entry = [0u8; 32];
    entry[0] = 0x83;
    entry[1] = 3;
    for (i, unit) in "SD1".encode_utf16().enumerate() {
        entry[2 + 2 * i..4 + 2 * i].copy_from_slice(&unit.to_le_bytes());
    }
    device.patch(41, 64, &entry);
    let volume = Volume::mount(&mut device, &mut Scratch::new(&mut buf)).unwrap();
    let label: Vec<u16> = "SD1".encode_utf16().collect();
    assert_eq!(volume.label().utf16(), &label[..]);
    assert_eq!(volume.upcase_table().first_cluster, 4);
    // What lies behind the end mark is no label.
    let mut device = formatted(2048);
    device.patch(41, 96, &entry);
    let volume = Volume::mount(&mut device, &mut Scratch::new(&mut buf)).unwrap();
    assert!(volume.label().utf16().is_empty());
}

#[test]
fn mount_and_mount_recoverable_answer_the_same() {
    let mut buf = [0u8; 512];
    let plain = FileSystem::mount(formatted(2048), &mut Scratch::new(&mut buf)).unwrap();
    let other = FileSystem::mount_recoverable(formatted(2048), &mut Scratch::new(&mut buf));
    let other = match other {
        Ok(fs) => fs,
        Err(_) => panic!("it mounts"),
    };
    assert_eq!(plain.volume, other.volume);
    assert_eq!(plain.free_space_bytes(), other.free_space_bytes());
    let mut device = formatted(2048);
    device.patch(43, 0, &[7]);
    assert!(matches!(
        FileSystem::mount_recoverable(device, &mut Scratch::new(&mut buf)),
        Err((_, Error::Corrupt))
    ));
}

#[test]
fn mount_refuses_damaged_partition_tables() {
    let mut device = formatted(2048);
    device.patch(0, 510, &[0, 0]);
    assert_eq!(mount_error(device), Error::InvalidPartitionTable);
    let mut device = formatted(2048);
    device.patch(0, 450, &[0x0c]);
    assert_eq!(mount_error(device), Error::PartitionNotFound);
    let mut device = formatted(2048);
    device.patch(0, 450, &[0xee]);
    assert_eq!(mount_error(device), Error::InvalidGpt);
}

#[test]
fn mount_refuses_damaged_boot_regions() {
    let mut device = formatted(2048);
    device.patch(1, 3, b"NTFS    ");
    seal_boot(&mut device);
    assert_eq!(mount_error(device), Error::InvalidBootSector);
    // A region that does not match its checksum.
    let mut device = formatted(2048);
    device.patch(5, 100, &[1]);
    assert_eq!(mount_error(device), Error::InvalidBootSector);
    // Volume flags and the percentage in use are not covered.
    let mut device = formatted(2048);
    device.patch(1, 106, &[2, 0]);
    device.patch(1, 112, &[50]);
    let mut buf = [0u8; 512];
    assert!(FileSystem::mount(device, &mut Scratch::new(&mut buf)).is_ok());
}

#[test]
fn mount_refuses_a_damaged_upcase_table() {
    let mut device = formatted(2048);
    device.patch(43, 0, &[7]);
    assert_eq!(mount_error(device), Error::Corrupt);
}

#[test]
fn mount_refuses_unsupported_sector_sizes_and_short_scratch() {
    let mut device = Sparse::new(2048);
    device.size = 256;
    assert_eq!(mount_error(device), Error::UnsupportedSectorSize);
    let mut buf = [0u8; 511];
    assert!(matches!(
        FileSystem::mount(formatted(2048), &mut Scratch::new(&mut buf)),
        Err(Error::InvalidSectorSize)
    ));
}

#[test]
fn failed_mount_returns_the_device() {
    let mut buf = [0u8; 512];
    let mut device = formatted(2048);
    device.patch(0, 510, &[0, 0]);
    let (mut device, error) =
        match FileSystem::mount_recoverable(device, &mut Scratch::new(&mut buf)) {
            Ok(_) => panic!("the device was mounted"),
            Err(failed) => failed,
        };
    assert_eq!(error, Error::InvalidPartitionTable);
    device.patch(0, 510, &[0x55, 0xaa]);
    assert!(FileSystem::mount_recoverable(device, &mut Scratch::new(&mut buf)).is_ok());
}

#[test]
fn refreshing_counts_the_bitmap_again() {
    let mut buf = [0u8; 512];
    let mut fs = FileSystem::mount(formatted(2048), &mut Scratch::new(&mut buf)).unwrap();
    let before = fs.free_space_bytes();
    fs.device_mut().patch(42, 40, &[0b101]);
    assert_eq!(fs.free_space_bytes(), before);
    fs.refresh_free_space(&mut Scratch::new(&mut buf)).unwrap();
    assert_eq!(fs.free_space_bytes(), before - 2 * 512);
}

#[test]
fn scratch_reports_its_capacity() {
    let mut buf = [0u8; 700];
    assert_eq!(Scratch::new(&mut buf).len(), 700);
    assert!(!Scratch::new(&mut buf).is_empty());
    assert!(Scratch::new(&mut []).is_empty());
}
