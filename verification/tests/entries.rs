//! Directory entry sets and bitmap positions.

use exfat_embedded::directory::codec::entry_set_checksum_step;
use exfat_embedded::directory::EntrySet;
use exfat_embedded::{AllocationBitmap, EntryLocator, Error};

#[test]
fn bitmap_positions_follow_exfat_cluster_numbering() {
    let bitmap = AllocationBitmap {
        first_cluster: 7,
        byte_length: 2,
    };
    assert_eq!(bitmap.position_for(2), Some((0, 0)));
    assert_eq!(bitmap.position_for(9), Some((0, 7)));
    assert_eq!(bitmap.position_for(10), Some((1, 0)));
    assert_eq!(bitmap.position_for(18), None);
    assert_eq!(bitmap.position_for(1), None);
}

#[test]
fn entry_set_keeps_each_sector_locator() {
    let mut entries = EntrySet::new();
    let mut primary = [0u8; 32];
    primary[0] = 0x85;
    primary[1] = 2;
    let mut stream = [0u8; 32];
    stream[0] = 0xc0;
    stream[3] = 1;
    let mut name = [0u8; 32];
    name[0] = 0xc1;
    name[2..4].copy_from_slice(&(b'X' as u16).to_le_bytes());
    let checksum = entry_set_checksum_step(
        entry_set_checksum_step(entry_set_checksum_step(0, &primary, true), &stream, false),
        &name,
        false,
    );
    primary[2..4].copy_from_slice(&checksum.to_le_bytes());

    assert!(
        entries
            .push::<()>(
                &primary,
                EntryLocator {
                    lba: 40,
                    offset: 480
                }
            )
            .unwrap()
            .is_none()
    );
    assert!(
        entries
            .push::<()>(&stream, EntryLocator { lba: 91, offset: 0 })
            .unwrap()
            .is_none()
    );
    let parsed = entries
        .push::<()>(
            &name,
            EntryLocator {
                lba: 91,
                offset: 32,
            },
        )
        .unwrap()
        .unwrap();
    assert_eq!(parsed.entry_count, 3);
    assert_eq!(
        parsed.primary,
        EntryLocator {
            lba: 40,
            offset: 480
        }
    );
    assert_eq!(parsed.stream, EntryLocator { lba: 91, offset: 0 });
    assert_eq!(
        parsed.entry_locs[2],
        EntryLocator {
            lba: 91,
            offset: 32
        }
    );

    // A damaged secondary entry must never be returned as a valid file: its
    // stream metadata could otherwise later be overwritten by `flush`.
    name[2] ^= 1;
    let mut damaged = EntrySet::new();
    assert!(
        damaged
            .push::<()>(
                &primary,
                EntryLocator {
                    lba: 40,
                    offset: 480
                }
            )
            .unwrap()
            .is_none()
    );
    assert!(
        damaged
            .push::<()>(&stream, EntryLocator { lba: 91, offset: 0 })
            .unwrap()
            .is_none()
    );
    assert!(matches!(
        damaged.push::<()>(
            &name,
            EntryLocator {
                lba: 91,
                offset: 32
            }
        ),
        Err(Error::Corrupt)
    ));
}

/// The three entries of a set with a name of one unit.
fn small_set(unit: u8) -> [[u8; 32]; 3] {
    let mut set = [[0u8; 32]; 3];
    set[0][0] = 0x85;
    set[0][1] = 2;
    set[1][0] = 0xc0;
    set[1][1] = 1;
    set[1][3] = 1;
    set[2][0] = 0xc1;
    set[2][2] = unit;
    let sum = entry_set_checksum_step(
        entry_set_checksum_step(entry_set_checksum_step(0, &set[0], true), &set[1], false),
        &set[2],
        false,
    );
    set[0][2..4].copy_from_slice(&sum.to_le_bytes());
    set
}

#[test]
fn unrecognised_pushes_answer_nothing() {
    let at = EntryLocator { lba: 1, offset: 0 };
    let good = small_set(b'Y');
    let mut two_streams = vec![good[0], good[1], good[1]];
    let mut vendor = vec![good[0], good[1], good[2], good[2]];
    vendor[0][1] = 3;
    vendor[3][0] = 0xe0;
    let mut unused = vec![good[0], good[1], good[2]];
    unused[2][0] = 0;
    let mut too_long = vec![good[0]];
    too_long[0][1] = 19;
    too_long.push(good[1]);
    too_long.resize(20, good[2]);
    two_streams[0][2] = 0;
    for bad in [two_streams, vendor, unused, too_long] {
        let mut entries = EntrySet::new();
        for raw in bad.iter().chain(&good[..2]) {
            assert!(entries.push::<()>(raw, at).unwrap().is_none());
        }
        let found = entries.push::<()>(&good[2], at).unwrap().unwrap();
        assert_eq!(found.name_utf16(), [u16::from(b'Y')]);
    }
}

#[test]
fn an_answered_set_starts_at_the_last_primary_entry() {
    let good = small_set(b'Z');
    let mut entries = EntrySet::new();
    let at = |offset: u16| EntryLocator { lba: 7, offset };
    assert!(entries.push::<()>(&good[0], at(0)).unwrap().is_none());
    assert_eq!(entries.push::<()>(&good[0], at(32)).err(), Some(Error::Corrupt));
    assert!(entries.push::<()>(&good[1], at(64)).unwrap().is_none());
    assert!(entries.push::<()>(&good[2], at(96)).unwrap().is_some());
    assert!(entries.push::<()>(&good[0], at(128)).unwrap().is_none());
    assert!(entries.push::<()>(&good[1], at(160)).unwrap().is_none());
    let found = entries.push::<()>(&good[2], at(192)).unwrap().unwrap();
    assert_eq!(found.entry_count, 3);
    assert_eq!(found.entry_locs[..3], [at(128), at(160), at(192)]);
    assert_eq!(found.name_utf16(), [u16::from(b'Z')]);
}
