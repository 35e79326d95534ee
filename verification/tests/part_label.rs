use peiosutils::part::device::Geometry;
use peiosutils::part::gpt::Gpt;
use peiosutils::part::guid::Guid;
use peiosutils::part::header::GptHeader;
use peiosutils::part::label::{load_gpt, probe_blkid, probe_sectors, BlkidAnswer, DiskLabel, DiskState, Probe};
use peiosutils::part::mbr;
use peiosutils::part::types::{ESP, LINUX};
use peiosutils::part::report::{is_listable, list_report};

fn esp() -> Guid {
    Guid::parse(ESP).unwrap()
}

/// A disk image held in memory, written sector by sector.
struct Image {
    geom: Geometry,
    bytes: Vec<u8>,
}

impl Image {
    fn new(bytes: u64) -> Image {
        Image { geom: Geometry { sector_size: 512, sectors: bytes / 512 }, bytes: vec![0u8; bytes as usize] }
    }
    fn write_at(&mut self, lba: u64, data: &[u8]) {
        let at = lba as usize * self.geom.sector_size;
        self.bytes[at..at + data.len()].copy_from_slice(data);
    }
    fn sectors(&self, lba: u64, n: u64) -> &[u8] {
        let at = lba as usize * self.geom.sector_size;
        &self.bytes[at..at + n as usize * self.geom.sector_size]
    }
    fn commit(&mut self, g: &Gpt) {
        for (lba, data) in g.writes() {
            self.write_at(lba, &data);
        }
    }
    /// What the probe concludes, reading what it asks for; blkid finds
    /// nothing on these images.
    fn probe(&self) -> DiskState {
        let s0 = self.sectors(0, 1).to_vec();
        let h = self.sectors(1, 1).to_vec();
        match probe_sectors(self.geom, &s0, &h, None) {
            Probe::ReadEntries { lba, sectors } => {
                let e = self.sectors(lba, sectors).to_vec();
                match probe_sectors(self.geom, &s0, &h, Some(&e)) {
                    Probe::Found(st) => st,
                    other => panic!("unexpected {other:?}"),
                }
            }
            Probe::AskBlkid => probe_blkid(None),
            Probe::Found(st) => st,
        }
    }
}

#[test]
fn describe_names_each_foreign_label_readably() {
    for (kind, want) in [
        ("dos", "MBR"),
        ("mac", "Apple Partition Map"),
        ("bsd", "BSD disklabel"),
        ("sun", "Sun disklabel"),
    ] {
        let s = DiskState::Foreign { kind: kind.into() }.describe();
        assert!(s.contains(want), "{kind} -> {s}");
    }
}

#[test]
fn a_bare_filesystem_is_reported_as_such() {
    let st = DiskState::Filesystem { fstype: "ext4".into() };
    assert!(st.describe().contains("ext4"));
    assert!(st.describe().contains("no partition table"));
    assert!(st.permit_destructive(false).is_err());
}

#[test]
fn a_blank_image_reports_blank_and_permits_creation() {
    let img = Image::new(64 * 1024 * 1024);
    let st = img.probe();
    assert!(matches!(st, DiskState::Blank), "{st:?}");
    assert!(st.permit_destructive(false).is_ok());
    assert_eq!(st.describe(), "no partition table");
}

#[test]
fn a_written_gpt_reads_back_as_gpt() {
    let mut img = Image::new(64 * 1024 * 1024);
    let mut g = Gpt::create(img.geom.sectors, img.geom.sector_size).unwrap();
    g.add(Some(2048), esp(), "EFI system partition", None).unwrap();
    img.commit(&g);
    match img.probe() {
        DiskState::Gpt(back) => {
            assert_eq!(back.partitions().len(), 1);
            assert_eq!(DiskLabel::partitions(&*back)[0].name, "EFI system partition");
            assert_eq!(back.disk_guid, g.disk_guid);
        }
        other => panic!("expected GPT, got {other:?}"),
    }
}

#[test]
fn a_protective_mbr_with_a_broken_header_reports_damage() {
    let mut img = Image::new(64 * 1024 * 1024);
    let g = Gpt::create(img.geom.sectors, img.geom.sector_size).unwrap();
    img.commit(&g);
    let mut h = img.sectors(1, 1).to_vec();
    h[40] ^= 0xff;
    img.write_at(1, &h);
    let st = img.probe();
    assert!(matches!(st, DiskState::Damaged(_)), "{st:?}");
    assert!(st.permit_destructive(false).is_err(), "damage must stop us");
    assert!(st.permit_destructive(true).is_ok(), "--force is the way through");
}

#[test]
fn a_real_mbr_is_foreign_and_refuses_without_force() {
    let mut img = Image::new(64 * 1024 * 1024);
    let mut s = vec![0u8; 512];
    s[510] = 0x55;
    s[511] = 0xAA;
    s[446 + 4] = 0x83;
    img.write_at(0, &s);
    let st = img.probe();
    match &st {
        DiskState::Foreign { kind } => assert_eq!(kind, "dos"),
        other => panic!("expected foreign, got {other:?}"),
    }
    let msg = st.permit_destructive(false).unwrap_err().message();
    assert!(msg.contains("MBR"), "{msg}");
    assert!(msg.contains("--force"), "the message must say the way through: {msg}");
    assert!(st.permit_destructive(true).is_ok());
}

#[test]
fn a_hybrid_mbr_is_treated_as_a_real_one() {
    let mut img = Image::new(64 * 1024 * 1024);
    let mut s = mbr::protective(img.geom.sectors, 512);
    s[446 + 16 + 4] = 0x83;
    img.write_at(0, &s);
    assert!(matches!(img.probe(), DiskState::Foreign { .. }));
}

#[test]
fn load_gpt_refuses_a_foreign_disk_with_a_useful_message() {
    let mut img = Image::new(64 * 1024 * 1024);
    let mut s = vec![0u8; 512];
    s[510] = 0x55;
    s[511] = 0xAA;
    s[446 + 4] = 0x83;
    img.write_at(0, &s);
    let e = load_gpt(img.probe()).unwrap_err();
    assert_eq!(e.exit_code(), 3, "a refusal, not a failure");
    assert!(e.message().contains("no GPT to modify"), "{}", e.message());
}

#[test]
fn commit_then_reload_survives_a_full_round_trip_with_several_partitions() {
    let mut img = Image::new(256 * 1024 * 1024);
    let mut g = Gpt::create(img.geom.sectors, img.geom.sector_size).unwrap();
    g.add(Some(2048 * 8), esp(), "esp", None).unwrap();
    g.add(None, Guid::parse(LINUX).unwrap(), "root", None).unwrap();
    img.commit(&g);
    let back = load_gpt(img.probe()).unwrap();
    assert_eq!(back, g);
}

#[test]
fn the_backup_header_and_entries_are_written_too() {
    let mut img = Image::new(64 * 1024 * 1024);
    let g = Gpt::create(img.geom.sectors, img.geom.sector_size).unwrap();
    img.commit(&g);
    let last = img.sectors(g.last_lba(), 1);
    assert_eq!(&last[0..8], b"EFI PART");
    let backup = img.sectors(g.backup_entries_lba(), 32).to_vec();
    let primary = img.sectors(2, 32).to_vec();
    assert_eq!(backup, primary);
}

#[test]
fn an_absurd_entry_count_is_damage_not_a_huge_read() {
    let mut img = Image::new(64 * 1024 * 1024);
    let g = Gpt::create(img.geom.sectors, img.geom.sector_size).unwrap();
    let hdr = GptHeader {
        my_lba: 1,
        alternate_lba: g.last_lba(),
        first_usable_lba: g.first_usable(),
        last_usable_lba: g.last_usable(),
        disk_guid: g.disk_guid,
        entry_array_lba: 2,
        num_entries: 1 << 30,
        entry_size: 128,
        entries_crc32: 0,
    };
    img.write_at(0, &mbr::protective(img.geom.sectors, 512));
    img.write_at(1, &hdr.to_sector(512));
    let st = img.probe();
    assert!(matches!(st, DiskState::Damaged(_)), "{st:?}");
}

#[test]
fn blkid_answers_map_to_states() {
    let f = probe_blkid(Some(BlkidAnswer { pttype: Some("dos".into()), fstype: None }));
    assert!(matches!(f, DiskState::Foreign { ref kind } if kind == "dos"));
    let fs = probe_blkid(Some(BlkidAnswer { pttype: None, fstype: Some("ext4".into()) }));
    assert!(matches!(fs, DiskState::Filesystem { ref fstype } if fstype == "ext4"));
    let g = probe_blkid(Some(BlkidAnswer { pttype: Some("gpt".into()), fstype: None }));
    assert!(matches!(g, DiskState::Blank));
}

#[test]
fn a_listing_names_the_table_and_its_free_space() {
    let mut g = Gpt::create(16_777_216, 512).unwrap();
    let geom = Geometry { sector_size: 512, sectors: 16_777_216 };
    let empty = list_report("/dev/vdb", geom, &DiskState::Gpt(Box::new(g.clone())));
    assert!(empty.starts_with("/dev/vdb: 16777216 sectors of 512 bytes (8.0G)\nLabel:     gpt\n"), "{empty}");
    assert!(empty.contains("Usable:    34 .. 16777182\n\n(no partitions)\n"), "{empty}");
    assert!(empty.ends_with("  in 1 extent(s), largest 8.0G\n"), "{empty}");
    g.add(Some(1_048_576), esp(), "EFI system partition", None).unwrap();
    let one = list_report("/dev/vdb", geom, &DiskState::Gpt(Box::new(g)));
    assert!(one.contains("  #         START           END        SIZE  TYPE"), "{one}");
    assert!(one.contains("  1          2048       1050623        512M  esp"), "{one}");
    assert!(one.contains("EFI system partition\n"), "{one}");
    let blank = list_report("/dev/vdc", geom, &DiskState::Blank);
    assert_eq!(blank, "/dev/vdc: 16777216 sectors of 512 bytes (8.0G)\nno partition table\n");
}

#[test]
fn listability_guard_follows_the_byte_sizes() {
    let mut g = Gpt::create(16_777_216, 512).unwrap();
    g.add(Some(2048), esp(), "a", None).unwrap();
    assert!(is_listable(&g, 512));
    assert!(is_listable(&g, 4096));
    assert!(!is_listable(&g, usize::MAX));
    let mut wide = g.clone();
    wide.first_usable_lba = 0;
    wide.last_usable_lba = u64::MAX;
    assert!(!is_listable(&wide, 512));
}
