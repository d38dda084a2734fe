use blume::uni::{build, open, extract, validate, Entry};
use blume::Error;

fn pairs(v: Vec<(u32, &[u8])>) -> Vec<(u32, Vec<u8>)> {
    v.into_iter().map(|(i, b)| (i, b.to_vec())).collect()
}

#[test]
fn minimal_archive_round_trip() {
    let ps = pairs(vec![(1, b"AB"), (2, b"CDE")]);
    let bytes = build(&ps);
    let entries = open(&bytes).unwrap();
    assert_eq!(entries.len(), 2);
    assert_eq!(entries[0].id, 1);
    assert_eq!(entries[1].id, 2);
    assert!(entries[0].id < entries[1].id);
    assert!(entries[0].start_sect < entries[1].start_sect);
    assert!(entries[0].start_sect + entries[0].size_sect <= entries[1].start_sect);
    assert_eq!(extract(&bytes, &entries[0]).unwrap(), b"AB".to_vec());
    assert_eq!(extract(&bytes, &entries[1]).unwrap(), b"CDE".to_vec());
}

#[test]
fn archive_layout() {
    let ps = pairs(vec![(7, b"xyz")]);
    let bytes = build(&ps);
    // header sector, table sector, one data sector
    assert_eq!(bytes.len(), 0x1800);
    assert_eq!(&bytes[0..8], b"UNI2\0\0\x01\0");
    // one entry, table at sector 1, data at sector 2
    assert_eq!(&bytes[8..12], &1u32.to_le_bytes());
    assert_eq!(&bytes[12..16], &1u32.to_le_bytes());
    assert_eq!(&bytes[16..20], &2u32.to_le_bytes());
    // the blob itself
    assert_eq!(&bytes[0x1000..0x1003], b"xyz");
}

#[test]
fn multi_sector_blob() {
    let big = vec![0x55u8; 0x900];
    let ps = vec![(3u32, big.clone()), (9u32, b"Q".to_vec())];
    let bytes = build(&ps);
    let entries = open(&bytes).unwrap();
    assert_eq!(entries[0].size_sect, 2);
    assert_eq!(entries[1].start_sect, 2);
    assert_eq!(extract(&bytes, &entries[0]).unwrap(), big);
    assert_eq!(extract(&bytes, &entries[1]).unwrap(), b"Q".to_vec());
}

#[test]
fn corrupted_directory_is_rejected() {
    let ps = pairs(vec![(1, b"AB"), (2, b"CDE")]);
    let mut bytes = build(&ps);
    // flip the low bit of the second record's id: ids 1, 3 -> still fine?
    // flip a bit that breaks the strictly-ascending ids: 2 -> 0
    let rec2_id = 0x800 + 16;
    bytes[rec2_id] ^= 0x02;
    assert_eq!(&bytes[rec2_id..rec2_id + 1], &[0u8]);
    assert_eq!(open(&bytes), Err(Error::Format));
}

#[test]
fn corrupted_sector_count_is_rejected() {
    let ps = pairs(vec![(1, b"AB"), (2, b"CDE")]);
    let mut bytes = build(&ps);
    // flip a bit in the first record's sector count: the size bound breaks
    let rec1_sects = 0x800 + 8;
    bytes[rec1_sects] ^= 0x02;
    assert_eq!(open(&bytes), Err(Error::Format));
}

#[test]
fn bad_magic_is_rejected() {
    let ps = pairs(vec![(1, b"AB")]);
    let mut bytes = build(&ps);
    bytes[0] ^= 0xff;
    assert_eq!(open(&bytes), Err(Error::Format));
}

#[test]
fn truncated_archive_is_rejected() {
    let ps = pairs(vec![(1, b"AB")]);
    let bytes = build(&ps);
    let short = bytes[..0x810].to_vec();
    // directory is readable but the data is not
    let entries = open(&short).unwrap();
    assert_eq!(extract(&short, &entries[0]), Err(Error::Truncated(1)));
    // cut inside the directory
    let very_short = bytes[..16].to_vec();
    assert_eq!(open(&very_short), Err(Error::Truncated(20)));
}

#[test]
fn validate_rejects_overlap() {
    let good = vec![
        Entry { id: 1, start_sect: 0, size_sect: 1, size: 10 },
        Entry { id: 2, start_sect: 1, size_sect: 1, size: 20 },
    ];
    assert!(validate(&good));
    let overlapping = vec![
        Entry { id: 1, start_sect: 0, size_sect: 2, size: 0x900 },
        Entry { id: 2, start_sect: 1, size_sect: 1, size: 20 },
    ];
    assert!(!validate(&overlapping));
    let descending_ids = vec![
        Entry { id: 2, start_sect: 0, size_sect: 1, size: 10 },
        Entry { id: 1, start_sect: 1, size_sect: 1, size: 20 },
    ];
    assert!(!validate(&descending_ids));
    let bad_size = vec![Entry { id: 1, start_sect: 0, size_sect: 1, size: 0x801 }];
    assert!(!validate(&bad_size));
    let zero_size = vec![Entry { id: 1, start_sect: 0, size_sect: 0, size: 0 }];
    assert!(!validate(&zero_size));
}
