use peiosutils::part::error::PartError;
use peiosutils::part::guid::Guid;
use peiosutils::part::header::{crc32, signature, GptHeader, ENTRY_SIZE, HEADER_SIZE, NUM_ENTRIES, REVISION};

#[test]
fn crc32_matches_the_published_check_value() {
    assert_eq!(crc32(b"123456789"), 0xCBF4_3926);
}

#[test]
fn crc32_of_nothing_is_zero() {
    assert_eq!(crc32(b""), 0);
}

fn sample() -> GptHeader {
    GptHeader {
        my_lba: 1,
        alternate_lba: 16_777_215,
        first_usable_lba: 34,
        last_usable_lba: 16_777_182,
        disk_guid: Guid::parse("01020304-0506-0708-090A-0B0C0D0E0F10").unwrap(),
        entry_array_lba: 2,
        num_entries: NUM_ENTRIES,
        entry_size: ENTRY_SIZE,
        entries_crc32: 0xDEAD_BEEF,
    }
}

#[test]
fn header_round_trips() {
    let h = sample();
    assert_eq!(GptHeader::parse(&h.to_sector(512)).unwrap(), h);
}

#[test]
fn header_fields_land_at_their_spec_offsets() {
    let s = sample().to_sector(512);
    assert_eq!(&s[0..8], signature().as_slice());
    assert_eq!(u32::from_le_bytes(s[8..12].try_into().unwrap()), REVISION);
    assert_eq!(u32::from_le_bytes(s[12..16].try_into().unwrap()), HEADER_SIZE);
    assert_eq!(u64::from_le_bytes(s[24..32].try_into().unwrap()), 1);
    assert_eq!(u64::from_le_bytes(s[32..40].try_into().unwrap()), 16_777_215);
    assert_eq!(u32::from_le_bytes(s[88..92].try_into().unwrap()), 0xDEAD_BEEF);
    assert_eq!(&s[20..24], &[0, 0, 0, 0]);
    assert!(s[92..].iter().all(|&b| b == 0));
    assert_eq!(s.len(), 512);
}

#[test]
fn header_crc_is_computed_over_a_zeroed_crc_field() {
    let s = sample().to_sector(512);
    let stored = u32::from_le_bytes(s[16..20].try_into().unwrap());
    let mut zeroed = s[..HEADER_SIZE as usize].to_vec();
    zeroed[16..20].fill(0);
    assert_eq!(stored, crc32(&zeroed));
    assert_ne!(stored, 0);
}

#[test]
fn a_flipped_bit_is_caught() {
    let mut s = sample().to_sector(512);
    s[40] ^= 0x01;
    match GptHeader::parse(&s) {
        Err(PartError::Damaged(m)) => assert!(m.contains("CRC mismatch"), "{m}"),
        other => panic!("expected a CRC failure, got {other:?}"),
    }
}

#[test]
fn a_missing_signature_is_not_gpt_rather_than_damage() {
    let mut s = sample().to_sector(512);
    s[0..8].copy_from_slice(b"NOTGPT!!");
    assert!(matches!(GptHeader::parse(&s), Err(PartError::NoGpt)));
}

#[test]
fn works_at_4096_byte_sectors() {
    let h = sample();
    let s = h.to_sector(4096);
    assert_eq!(s.len(), 4096);
    assert!(s[92..].iter().all(|&b| b == 0));
    assert_eq!(GptHeader::parse(&s).unwrap(), h);
}

#[test]
fn a_short_sector_is_damage() {
    assert!(matches!(GptHeader::parse(&[0u8; 91]), Err(PartError::Damaged(_))));
}

#[test]
fn every_single_byte_change_moves_the_crc() {
    let base = b"123456789".to_vec();
    let c = crc32(&base);
    for k in 0..base.len() {
        for x in [0x01u8, 0x80, 0xFF, 0x5A] {
            let mut d = base.clone();
            d[k] ^= x;
            assert_ne!(crc32(&d), c, "byte {k} xor {x:#x}");
        }
    }
}

#[test]
fn every_changed_header_byte_is_caught() {
    let s = sample().to_sector(512);
    for k in (8..12).chain(20..92) {
        let mut t = s.clone();
        t[k] ^= 0x10;
        match GptHeader::parse(&t) {
            Err(PartError::Damaged(m)) => assert!(m.contains("CRC mismatch"), "byte {k}: {m}"),
            other => panic!("byte {k}: expected a CRC failure, got {other:?}"),
        }
    }
}
