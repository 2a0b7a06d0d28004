//! Mounting through partition tables, and handing on device errors.

use exfat_embedded::{BlockDevice, Error, FileSystem, Scratch, Volume};

#[test]
fn mounts_minimal_gpt_exfat() {
    struct Mem {
        sectors: [[u8; 512]; 64],
    }
    impl BlockDevice for Mem {
        type Error = ();
        fn sector_size(&self) -> usize {
            512
        }
        fn sector_count(&self) -> u64 {
            64
        }
        fn read_sector(&mut self, lba: u64, out: &mut [u8]) -> Result<(), ()> {
            out.copy_from_slice(&self.sectors[lba as usize]);
            Ok(())
        }
        fn write_sector(&mut self, lba: u64, data: &[u8]) -> Result<(), ()> {
            self.sectors[lba as usize].copy_from_slice(data);
            Ok(())
        }
        fn flush(&mut self) -> Result<(), ()> {
            Ok(())
        }
    }

    let mut sectors = [[0u8; 512]; 64];
    sectors[0][446 + 4] = 0xee;
    sectors[0][510..].copy_from_slice(&[0x55, 0xaa]);
    sectors[1][..8].copy_from_slice(b"EFI PART");
    sectors[1][12..16].copy_from_slice(&92u32.to_le_bytes());
    sectors[1][72..80].copy_from_slice(&2u64.to_le_bytes());
    sectors[1][80..84].copy_from_slice(&1u32.to_le_bytes());
    sectors[1][84..88].copy_from_slice(&128u32.to_le_bytes());
    // Microsoft basic-data partition type GUID, encoded as GPT bytes.
    sectors[2][..16].copy_from_slice(&[
        0xa2, 0xa0, 0xd0, 0xeb, 0xe5, 0xb9, 0x33, 0x44, 0x87, 0xc0, 0x68, 0xb6, 0xb7, 0x26, 0x99,
        0xc7,
    ]);
    sectors[2][32..40].copy_from_slice(&16u64.to_le_bytes());
    sectors[2][40..48].copy_from_slice(&63u64.to_le_bytes());
    let entries_crc = gpt_crc32(&sectors[2][..128]);
    sectors[1][88..92].copy_from_slice(&entries_crc.to_le_bytes());
    let header_crc = gpt_crc32(&sectors[1][..92]);
    sectors[1][16..20].copy_from_slice(&header_crc.to_le_bytes());

    let boot = &mut sectors[16];
    boot[3..11].copy_from_slice(b"EXFAT   ");
    boot[72..80].copy_from_slice(&48u64.to_le_bytes());
    boot[80..84].copy_from_slice(&24u32.to_le_bytes());
    boot[84..88].copy_from_slice(&8u32.to_le_bytes());
    boot[88..92].copy_from_slice(&32u32.to_le_bytes());
    boot[92..96].copy_from_slice(&16u32.to_le_bytes());
    boot[96..100].copy_from_slice(&2u32.to_le_bytes());
    boot[108] = 9;
    boot[109] = 0;
    boot[510..].copy_from_slice(&[0x55, 0xaa]);
    let checksum = boot_checksum(&sectors[16..27]);
    for word in sectors[27].chunks_exact_mut(4) {
        word.copy_from_slice(&checksum.to_le_bytes());
    }
    sectors[40][8..12].copy_from_slice(&0xffff_ffffu32.to_le_bytes());
    sectors[48][0] = 0x81;
    sectors[48][20..24].copy_from_slice(&3u32.to_le_bytes());
    sectors[48][24..32].copy_from_slice(&16u64.to_le_bytes());
    sectors[48][32] = 0x82;
    sectors[48][20 + 32..24 + 32].copy_from_slice(&4u32.to_le_bytes());
    sectors[48][24 + 32..32 + 32].copy_from_slice(&512u64.to_le_bytes());

    let mut scratch = [0u8; 512];
    let volume = Volume::mount(&mut Mem { sectors }, &mut Scratch::new(&mut scratch)).unwrap();
    assert_eq!(volume.geometry().partition.first_lba, 16);

    let mut corrupt = sectors;
    corrupt[1][16] ^= 1;
    assert!(matches!(
        Volume::mount(
            &mut Mem { sectors: corrupt },
            &mut Scratch::new(&mut scratch)
        ),
        Err(Error::InvalidGpt)
    ));
}

#[test]
fn mount_propagates_block_device_errors() {
    struct FailingDevice;

    impl BlockDevice for FailingDevice {
        type Error = u8;

        fn sector_size(&self) -> usize {
            512
        }

        fn sector_count(&self) -> u64 {
            1
        }

        fn read_sector(&mut self, _: u64, _: &mut [u8]) -> Result<(), Self::Error> {
            Err(7)
        }

        fn write_sector(&mut self, _: u64, _: &[u8]) -> Result<(), Self::Error> {
            Err(7)
        }

        fn flush(&mut self) -> Result<(), Self::Error> {
            Err(7)
        }
    }

    let mut scratch_bytes = [0u8; 512];
    assert!(matches!(
        FileSystem::mount(FailingDevice, &mut Scratch::new(&mut scratch_bytes)),
        Err(Error::Device(7))
    ));
}

fn gpt_crc32(bytes: &[u8]) -> u32 {
    let mut state = 0xffff_ffffu32;
    for byte in bytes.iter().copied() {
        state ^= u32::from(byte);
        for _ in 0..8 {
            state = if state & 1 != 0 {
                (state >> 1) ^ 0xedb8_8320
            } else {
                state >> 1
            };
        }
    }
    state ^ 0xffff_ffff
}

fn boot_checksum(sectors: &[[u8; 512]]) -> u32 {
    let mut checksum = 0u32;
    for (sector_index, sector) in sectors.iter().enumerate() {
        for (offset, byte) in sector.iter().copied().enumerate() {
            if sector_index == 0 && matches!(offset, 106 | 107 | 112) {
                continue;
            }
            checksum = checksum.rotate_right(1).wrapping_add(u32::from(byte));
        }
    }
    checksum
}
