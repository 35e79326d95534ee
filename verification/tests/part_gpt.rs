use peiosutils::part::entry::GptEntry;
use peiosutils::part::error::PartError;
use peiosutils::part::gpt::Gpt;
use peiosutils::part::guid::Guid;
use peiosutils::part::header::{crc32, GptHeader, NUM_ENTRIES};

const DISK: u64 = 16_777_216;

fn esp() -> Guid {
    Guid::parse("C12A7328-F81F-11D2-BA4B-00A0C93EC93B").unwrap()
}
fn linux() -> Guid {
    Guid::parse("0FC63DAF-8483-4772-8E79-3D69D8477DE4").unwrap()
}

#[test]
fn layout_at_512_matches_the_universal_values() {
    let g = Gpt::create(DISK, 512).unwrap();
    assert_eq!(Gpt::entry_array_sectors(512), 32);
    assert_eq!(g.first_usable(), 34);
    assert_eq!(g.last_lba(), 16_777_215);
    assert_eq!(g.last_usable(), 16_777_182);
    assert_eq!(g.backup_entries_lba(), 16_777_183);
    assert_eq!(Gpt::align_sectors(512), 2048);
}

#[test]
fn layout_at_4096_is_not_the_512_layout() {
    let g = Gpt::create(2_097_152, 4096).unwrap();
    assert_eq!(Gpt::entry_array_sectors(4096), 4);
    assert_eq!(g.first_usable(), 6);
    assert_eq!(g.last_usable(), 2_097_151 - 5);
    assert_eq!(Gpt::align_sectors(4096), 256);
}

#[test]
fn rejects_implausible_sector_sizes() {
    assert!(Gpt::create(DISK, 511).is_err());
    assert!(Gpt::create(DISK, 0).is_err());
    assert!(Gpt::create(DISK, 1 << 20).is_err());
}

#[test]
fn rejects_a_disk_too_small_to_hold_a_usable_table() {
    assert!(Gpt::create(64, 512).is_err());
    assert!(Gpt::create(Gpt::minimum_sectors(512), 512).is_ok());
    assert!(Gpt::create(Gpt::minimum_sectors(512) - 1, 512).is_err());
}

#[test]
fn a_fresh_table_is_empty_and_wholly_free() {
    let g = Gpt::create(DISK, 512).unwrap();
    assert!(g.partitions().is_empty());
    let f = g.free_extents();
    assert_eq!(f.len(), 1);
    assert_eq!(f[0].start, 2048, "the first extent starts 1 MiB in");
    assert_eq!(f[0].end, g.last_usable());
    assert!(g.problems().is_empty());
}

#[test]
fn add_places_the_first_partition_at_the_alignment_boundary() {
    let mut g = Gpt::create(DISK, 512).unwrap();
    let i = g.add(Some(1_048_576), esp(), "EFI system partition", None).unwrap();
    assert_eq!(i, 1);
    let e = &g.entries[0];
    assert_eq!(e.starting_lba, 2048);
    assert_eq!(e.ending_lba, 1_050_623);
    assert_eq!(e.sectors(), 1_048_576);
    assert!(g.problems().is_empty());
}

#[test]
fn a_second_partition_starts_after_the_first_and_stays_aligned() {
    let mut g = Gpt::create(DISK, 512).unwrap();
    g.add(Some(1_048_576), esp(), "esp", None).unwrap();
    let i = g.add(None, linux(), "Peios root", None).unwrap();
    assert_eq!(i, 2);
    let e = &g.entries[1];
    assert_eq!(e.starting_lba, 1_050_624);
    assert_eq!(e.starting_lba % 2048, 0);
    assert_eq!(e.ending_lba, g.last_usable());
    assert!(g.problems().is_empty());
}

#[test]
fn max_size_picks_the_largest_extent_not_the_final_one() {
    let mut g = Gpt::create(DISK, 512).unwrap();
    g.add(Some(2048), esp(), "a", None).unwrap();
    g.add(Some(2048), linux(), "b", None).unwrap();
    g.remove(2).unwrap();
    let i = g.add(None, linux(), "big", None).unwrap();
    assert_eq!(i, 2, "reuses the freed slot");
    assert!(
        g.entries[1].sectors() > 1_000_000,
        "should have taken the tail, got {} sectors",
        g.entries[1].sectors()
    );
}

#[test]
fn a_request_that_does_not_fit_reports_the_largest_available() {
    let mut g = Gpt::create(DISK, 512).unwrap();
    match g.add(Some(DISK * 2), esp(), "huge", None) {
        Err(PartError::NoSpace { wanted, largest }) => {
            assert_eq!(wanted, DISK * 2);
            assert!(largest > 0 && largest < DISK);
        }
        other => panic!("expected NoSpace, got {other:?}"),
    }
}

#[test]
fn partitions_never_overlap_however_they_are_added() {
    let mut g = Gpt::create(DISK, 512).unwrap();
    for n in 1..=8 {
        g.add(Some(2048 * n), linux(), &format!("p{n}"), None).unwrap();
    }
    assert_eq!(g.partitions().len(), 8);
    assert!(g.problems().is_empty(), "{:?}", g.problems());
}

#[test]
fn remove_frees_the_space_and_the_slot() {
    let mut g = Gpt::create(DISK, 512).unwrap();
    g.add(Some(2048), esp(), "a", None).unwrap();
    assert_eq!(g.partitions().len(), 1);
    g.remove(1).unwrap();
    assert!(g.partitions().is_empty());
    assert_eq!(g.free_extents()[0].start, 2048);
    assert!(g.remove(1).is_err(), "removing twice must fail");
    assert!(g.remove(0).is_err());
    assert!(g.remove(999).is_err());
}

#[test]
fn a_zero_type_guid_is_refused_because_it_means_unused() {
    let mut g = Gpt::create(DISK, 512).unwrap();
    assert!(g.add(Some(2048), Guid::zero(), "x", None).is_err());
}

#[test]
fn round_trips_through_serialisation() {
    let mut g = Gpt::create(DISK, 512).unwrap();
    g.add(Some(1_048_576), esp(), "EFI system partition", None).unwrap();
    g.add(None, linux(), "Peios root", None).unwrap();

    let w = g.writes();
    let hdr = &w.iter().find(|(l, _)| *l == 1).unwrap().1;
    let ents = &w.iter().find(|(l, _)| *l == 2).unwrap().1;
    let back = Gpt::parse(DISK, 512, hdr, ents).unwrap();
    assert_eq!(back, g);
}

#[test]
fn writes_put_both_entry_copies_before_either_header() {
    let g = Gpt::create(DISK, 512).unwrap();
    let w = g.writes();
    let lbas: Vec<u64> = w.iter().map(|(l, _)| *l).collect();
    let primary_entries = lbas.iter().position(|&l| l == 2).unwrap();
    let backup_entries = lbas.iter().position(|&l| l == g.backup_entries_lba()).unwrap();
    let primary_header = lbas.iter().position(|&l| l == 1).unwrap();
    let backup_header = lbas.iter().position(|&l| l == g.last_lba()).unwrap();
    assert!(primary_entries < primary_header);
    assert!(backup_entries < primary_header);
    assert!(primary_entries < backup_header);
    assert!(backup_entries < backup_header);
    assert_eq!(lbas[0], 0, "protective MBR goes down first");
}

#[test]
fn both_headers_describe_each_other_and_share_one_entry_crc() {
    let g = Gpt::create(DISK, 512).unwrap();
    let w = g.writes();
    let p = GptHeader::parse(&w.iter().find(|(l, _)| *l == 1).unwrap().1).unwrap();
    let b = GptHeader::parse(&w.iter().find(|(l, _)| *l == g.last_lba()).unwrap().1).unwrap();

    assert_eq!(p.my_lba, 1);
    assert_eq!(p.alternate_lba, g.last_lba());
    assert_eq!(b.my_lba, g.last_lba());
    assert_eq!(b.alternate_lba, 1);
    assert_eq!(p.entry_array_lba, 2);
    assert_eq!(b.entry_array_lba, g.backup_entries_lba());
    assert_eq!(p.entries_crc32, b.entries_crc32);
    assert_eq!(p.disk_guid, b.disk_guid);
    assert_eq!(p.first_usable_lba, b.first_usable_lba);
    assert_eq!(p.last_usable_lba, b.last_usable_lba);
}

#[test]
fn the_entry_crc_covers_the_whole_padded_array() {
    let g = Gpt::create(DISK, 512).unwrap();
    let w = g.writes();
    let ents = &w.iter().find(|(l, _)| *l == 2).unwrap().1;
    assert_eq!(ents.len(), 32 * 512, "one full array, padded to sectors");
    let p = GptHeader::parse(&w.iter().find(|(l, _)| *l == 1).unwrap().1).unwrap();
    assert_eq!(p.entries_crc32, crc32(&ents[..(128 * 128)]));
}

#[test]
fn a_corrupted_entry_array_is_caught_on_parse() {
    let mut g = Gpt::create(DISK, 512).unwrap();
    g.add(Some(2048), esp(), "a", None).unwrap();
    let w = g.writes();
    let hdr = w.iter().find(|(l, _)| *l == 1).unwrap().1.clone();
    let mut ents = w.iter().find(|(l, _)| *l == 2).unwrap().1.clone();
    ents[40] ^= 0xff;
    match Gpt::parse(DISK, 512, &hdr, &ents) {
        Err(PartError::Damaged(m)) => assert!(m.contains("entry CRC"), "{m}"),
        other => panic!("expected damage, got {other:?}"),
    }
}

#[test]
fn problems_reports_overlap_and_misalignment() {
    let mut g = Gpt::create(DISK, 512).unwrap();
    g.add(Some(4096), esp(), "a", None).unwrap();
    g.entries[1] = GptEntry {
        type_guid: linux(),
        unique_guid: Guid::random(),
        starting_lba: 3000,
        ending_lba: 9000,
        attributes: 0,
        name: "bad".into(),
    };
    let p = g.problems();
    assert!(p.iter().any(|m| m.contains("overlap")), "{p:?}");
    assert!(p.iter().any(|m| m.contains("aligned")), "{p:?}");
}

#[test]
fn a_partition_past_the_usable_range_is_reported() {
    let mut g = Gpt::create(DISK, 512).unwrap();
    g.entries[0] = GptEntry {
        type_guid: linux(),
        unique_guid: Guid::random(),
        starting_lba: 2048,
        ending_lba: g.last_lba(),
        attributes: 0,
        name: "over".into(),
    };
    assert!(g.problems().iter().any(|m| m.contains("outside the usable range")));
}

#[test]
fn every_slot_can_be_filled_and_the_next_add_fails() {
    let mut g = Gpt::create(DISK, 512).unwrap();
    for _ in 0..NUM_ENTRIES {
        g.add(Some(2048), linux(), "p", None).unwrap();
    }
    assert_eq!(g.partitions().len(), NUM_ENTRIES as usize);
    assert!(g.add(Some(2048), linux(), "one too many", None).is_err());
}

#[test]
fn adding_then_removing_restores_the_free_space() {
    let mut g = Gpt::create(DISK, 512).unwrap();
    let before = g.free_extents();
    let i = g.add(Some(4096), linux(), "tmp", None).unwrap();
    assert!(g.free_extents() != before);
    g.remove(i).unwrap();
    assert_eq!(g.free_extents(), before);
    assert!(g.problems().is_empty());
}

#[test]
fn a_bad_name_is_refused_before_anything_changes() {
    let mut g = Gpt::create(DISK, 512).unwrap();
    let before = g.clone();
    assert!(g.add(Some(2048), linux(), &"n".repeat(37), None).is_err());
    assert_eq!(g, before);
}

#[test]
fn arithmetic_guards_accept_an_ordinary_table() {
    let mut g = Gpt::create(DISK, 512).unwrap();
    assert!(g.extents_in_range());
    assert!(g.add_in_range(None));
    assert!(g.add_in_range(Some(2048)));
    g.add(Some(2048), esp(), "a", None).unwrap();
    assert!(g.extents_in_range());
    assert!(g.add_in_range(Some(1 << 40)));
}

#[test]
fn arithmetic_guards_refuse_what_would_overflow() {
    let mut g = Gpt::create(DISK, 512).unwrap();
    g.add(Some(2048), esp(), "a", None).unwrap();
    let mut bad = g.clone();
    bad.entries[0].ending_lba = u64::MAX;
    assert!(!bad.extents_in_range());
    assert!(!bad.add_in_range(None));
    let mut zero = g.clone();
    zero.sector_size = 0;
    assert!(!zero.extents_in_range());
    let mut wide = g.clone();
    wide.first_usable_lba = 0;
    wide.last_usable_lba = u64::MAX;
    wide.entries[0] = GptEntry::default();
    assert!(wide.extents_in_range());
    assert!(!wide.add_in_range(None));
}

#[test]
fn free_runs_are_aligned_ordered_and_leave_no_gap() {
    let mut g = Gpt::create(DISK, 512).unwrap();
    g.add(Some(4096), esp(), "a", None).unwrap();
    g.add(Some(8192), linux(), "b", None).unwrap();
    g.remove(1).unwrap();
    let x = g.free_extents();
    assert_eq!(x.len(), 2);
    assert_eq!((x[0].start, x[0].end), (2048, 6143));
    assert_eq!(x[1].start, 6144 + 8192);
    assert_eq!(x[1].end, g.last_usable());
    for f in &x {
        assert_eq!(f.start % Gpt::align_sectors(512), 0);
    }
}
