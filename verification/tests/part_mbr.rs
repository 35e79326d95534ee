use peiosutils::part::mbr::{is_protective, is_real_mbr, protective, PROTECTIVE_TYPE};

#[test]
fn has_the_boot_signature_and_one_protective_record() {
    let s = protective(16_777_216, 512);
    assert_eq!(s[510], 0x55);
    assert_eq!(s[511], 0xAA);
    assert_eq!(s[446 + 4], PROTECTIVE_TYPE);
    assert_eq!(u32::from_le_bytes(s[454..458].try_into().unwrap()), 1);
    assert!(is_protective(&s));
    assert!(!is_real_mbr(&s), "a protective MBR is not a real one");
}

#[test]
fn size_excludes_lba_zero() {
    let s = protective(16_777_216, 512);
    assert_eq!(u32::from_le_bytes(s[458..462].try_into().unwrap()), 16_777_215);
}

#[test]
fn size_clamps_rather_than_wrapping_on_huge_disks() {
    let s = protective(0x1_0000_0000, 512);
    assert_eq!(u32::from_le_bytes(s[458..462].try_into().unwrap()), u32::MAX);
    let s = protective(u64::MAX, 512);
    assert_eq!(u32::from_le_bytes(s[458..462].try_into().unwrap()), u32::MAX);
}

#[test]
fn boot_code_and_the_other_three_records_are_zero() {
    let s = protective(16_777_216, 512);
    assert!(s[0..446].iter().all(|&b| b == 0), "no boot code");
    assert!(s[462..510].iter().all(|&b| b == 0), "records 2-4 empty");
}

#[test]
fn fills_a_4096_byte_sector() {
    let s = protective(2_097_152, 4096);
    assert_eq!(s.len(), 4096);
    assert_eq!((s[510], s[511]), (0x55, 0xAA));
    assert!(s[512..].iter().all(|&b| b == 0));
}

#[test]
fn a_real_mbr_is_told_apart_from_a_protective_one() {
    let mut s = vec![0u8; 512];
    s[510] = 0x55;
    s[511] = 0xAA;
    s[446 + 4] = 0x83;
    assert!(is_real_mbr(&s));
    assert!(!is_protective(&s));
}

#[test]
fn a_blank_sector_is_neither() {
    let s = vec![0u8; 512];
    assert!(!is_protective(&s));
    assert!(!is_real_mbr(&s));
}

#[test]
fn a_hybrid_mbr_reports_as_real() {
    let mut s = protective(16_777_216, 512);
    s[446 + 16 + 4] = 0x83;
    assert!(is_real_mbr(&s));
}

#[test]
fn a_zero_sector_disk_records_zero_size() {
    let s = protective(0, 512);
    assert_eq!(u32::from_le_bytes(s[458..462].try_into().unwrap()), 0);
}
