use peiosutils::part::entry::{validate_name, GptEntry, NAME_UNITS};
use peiosutils::part::guid::Guid;

fn esp() -> Guid {
    Guid::parse("C12A7328-F81F-11D2-BA4B-00A0C93EC93B").unwrap()
}

fn sample() -> GptEntry {
    GptEntry {
        type_guid: esp(),
        unique_guid: Guid::parse("01020304-0506-0708-090A-0B0C0D0E0F10").unwrap(),
        starting_lba: 2048,
        ending_lba: 1_050_623,
        attributes: 0,
        name: "EFI system partition".into(),
    }
}

#[test]
fn entry_round_trips() {
    let e = sample();
    assert_eq!(GptEntry::parse(&e.to_bytes()).unwrap(), e);
}

#[test]
fn entry_fields_land_at_their_spec_offsets() {
    let b = sample().to_bytes();
    assert_eq!(&b[0..16], esp().as_bytes());
    assert_eq!(u64::from_le_bytes(b[32..40].try_into().unwrap()), 2048);
    assert_eq!(u64::from_le_bytes(b[40..48].try_into().unwrap()), 1_050_623);
    // "E" as UTF-16LE.
    assert_eq!(&b[56..58], &[0x45, 0x00]);
    assert_eq!(b.len(), 128);
}

#[test]
fn ending_lba_is_inclusive() {
    let e = sample();
    assert_eq!(e.sectors(), 1_048_576);
    assert_eq!(e.ending_lba, e.starting_lba + e.sectors() - 1);
}

#[test]
fn unused_entries_are_zero_type_and_zero_length() {
    let e = GptEntry::default();
    assert!(!e.is_used());
    assert_eq!(e.sectors(), 0);
    assert_eq!(e.to_bytes(), [0u8; 128]);
}

#[test]
fn overlap_is_inclusive_at_both_ends() {
    let e = sample();
    assert!(e.overlaps(2048, 2048), "touching the first sector overlaps");
    assert!(e.overlaps(1_050_623, 2_000_000), "touching the last overlaps");
    assert!(e.overlaps(0, u64::MAX));
    assert!(!e.overlaps(0, 2047), "ending just before must not overlap");
    assert!(!e.overlaps(1_050_624, 2_000_000), "starting just after must not");
}

#[test]
fn unused_entries_never_overlap() {
    assert!(!GptEntry::default().overlaps(0, u64::MAX));
}

#[test]
fn names_round_trip_through_utf16() {
    for n in ["", "Peios root", "ünïcødé ✓", "36 chars exactly xxxxxxxxxxxxxxxxxxx"] {
        let e = GptEntry {
            name: n.into(),
            ..sample()
        };
        if n.encode_utf16().count() <= NAME_UNITS {
            assert_eq!(GptEntry::parse(&e.to_bytes()).unwrap().name, n, "{n:?}");
        }
    }
}

#[test]
fn a_too_long_name_is_rejected_not_truncated() {
    let long = "x".repeat(NAME_UNITS + 1);
    assert!(validate_name(&long).is_err());
    assert!(validate_name(&"x".repeat(NAME_UNITS)).is_ok());
    // Astral characters cost two units each, so 18 of them is the limit.
    assert!(validate_name(&"𐐷".repeat(18)).is_ok());
    assert!(validate_name(&"𐐷".repeat(19)).is_err());
}

#[test]
fn a_stored_name_is_cut_at_the_field_width() {
    let e = GptEntry {
        name: "y".repeat(40),
        ..sample()
    };
    assert_eq!(GptEntry::parse(&e.to_bytes()).unwrap().name, "y".repeat(NAME_UNITS));
}

#[test]
fn a_short_buffer_is_not_an_entry() {
    assert!(GptEntry::parse(&[0u8; 127]).is_none());
}
