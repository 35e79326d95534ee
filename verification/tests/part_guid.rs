use peiosutils::part::guid::Guid;

#[test]
fn esp_type_guid_matches_the_published_byte_form() {
    let g = Guid::parse("C12A7328-F81F-11D2-BA4B-00A0C93EC93B").unwrap();
    assert_eq!(
        g.0,
        [
            0x28, 0x73, 0x2A, 0xC1, // C12A7328 little-endian
            0x1F, 0xF8, // F81F      little-endian
            0xD2, 0x11, // 11D2      little-endian
            0xBA, 0x4B, // BA4B      big-endian (as written)
            0x00, 0xA0, 0xC9, 0x3E, 0xC9, 0x3B, // big-endian
        ]
    );
}

#[test]
fn linux_filesystem_type_guid_matches() {
    let g = Guid::parse("0FC63DAF-8483-4772-8E79-3D69D8477DE4").unwrap();
    assert_eq!(
        g.0,
        [
            0xAF, 0x3D, 0xC6, 0x0F, 0x83, 0x84, 0x72, 0x47, 0x8E, 0x79, 0x3D, 0x69, 0xD8, 0x47,
            0x7D, 0xE4,
        ]
    );
}

#[test]
fn round_trips_through_text() {
    for s in [
        "C12A7328-F81F-11D2-BA4B-00A0C93EC93B",
        "0FC63DAF-8483-4772-8E79-3D69D8477DE4",
        "00000000-0000-0000-0000-000000000000",
        "FFFFFFFF-FFFF-FFFF-FFFF-FFFFFFFFFFFF",
    ] {
        assert_eq!(Guid::parse(s).unwrap().to_text(), s);
    }
}

#[test]
fn accepts_braces_and_lowercase_and_renders_uppercase() {
    let a = Guid::parse("{c12a7328-f81f-11d2-ba4b-00a0c93ec93b}").unwrap();
    let b = Guid::parse("C12A7328-F81F-11D2-BA4B-00A0C93EC93B").unwrap();
    assert_eq!(a, b);
    assert_eq!(a.to_text(), "C12A7328-F81F-11D2-BA4B-00A0C93EC93B");
}

#[test]
fn rejects_malformed() {
    for s in [
        "",
        "not-a-guid",
        "C12A7328-F81F-11D2-BA4B",
        "C12A7328-F81F-11D2-BA4B-00A0C93EC93B-extra",
        "C12A732-F81F-11D2-BA4B-00A0C93EC93B",
        "G12A7328-F81F-11D2-BA4B-00A0C93EC93B",
    ] {
        assert!(Guid::parse(s).is_none(), "should reject {s:?}");
    }
}

#[test]
fn zero_is_recognised() {
    assert!(Guid::zero().is_zero());
    assert!(Guid::parse("00000000-0000-0000-0000-000000000000").unwrap().is_zero());
    assert!(!Guid::random().is_zero());
}

#[test]
fn random_guids_are_v4_and_distinct() {
    let a = Guid::random();
    let b = Guid::random();
    assert_ne!(a, b);
    assert_eq!(a.0[7] & 0xf0, 0x40, "version must be 4: {}", a.to_text());
    assert_eq!(a.0[8] & 0xc0, 0x80, "variant must be RFC 4122: {}", a.to_text());
}

#[test]
fn surrounding_space_is_ignored() {
    let g = Guid::parse("  0FC63DAF-8483-4772-8E79-3D69D8477DE4\n").unwrap();
    assert_eq!(g.to_text(), "0FC63DAF-8483-4772-8E79-3D69D8477DE4");
}

#[test]
fn from_bytes_takes_the_first_sixteen() {
    let mut b = vec![0u8; 20];
    b[0] = 0x28;
    let g = Guid::from_bytes(&b).unwrap();
    assert_eq!(g.0[0], 0x28);
    assert!(Guid::from_bytes(&b[..15]).is_none());
}

#[test]
fn a_signed_group_is_rejected() {
    assert!(Guid::parse("+12A7328-F81F-11D2-BA4B-00A0C93EC93B").is_none());
    assert!(Guid::parse("C12A7328-+81F-11D2-BA4B-00A0C93EC93B").is_none());
    assert!(Guid::parse("C12A7328-F81F-11D2-+A4B-00A0C93EC93B").is_none());
}

#[test]
fn v4_stamps_version_and_variant_and_keeps_the_rest() {
    let g = Guid::v4_from_bytes([0xFF; 16]);
    let mut want = [0xFF; 16];
    want[7] = 0x4F;
    want[8] = 0xBF;
    assert_eq!(g.0, want);
    let z = Guid::v4_from_bytes([0; 16]);
    let mut want0 = [0; 16];
    want0[7] = 0x40;
    want0[8] = 0x80;
    assert_eq!(z.0, want0);
    assert!(!z.is_zero());
}
