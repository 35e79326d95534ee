use peiosutils::part::device::{disk_entry, order_disks, order_members, Geometry};
use peiosutils::part::error::PartError;
use peiosutils::part::gpt::Gpt;
use peiosutils::part::guard::{
    block_geometry, file_geometry, hold_of, mounted_refusal, partition_refusal, targets_of, with_sector_size,
};
use peiosutils::part::guid::Guid;
use peiosutils::part::inventory::{detail, inventory, reason_for, summary, DiskListing};
use peiosutils::part::label::DiskState;
use peiosutils::part::outcome::{added_line, confirm, created_line, removed_line, unknown_type, verify_report};
use peiosutils::part::types::ESP;

fn usage(r: Result<Geometry, PartError>) -> String {
    match r {
        Err(PartError::Usage(m)) => m,
        other => panic!("expected a usage error, got {other:?}"),
    }
}

#[test]
fn a_regular_file_has_geometry_derived_from_its_length() {
    let g = file_geometry("disk.img", Some(8 * 1024 * 1024)).unwrap();
    assert_eq!(g.sector_size, 512);
    assert_eq!(g.sectors, 16384);
}

#[test]
fn a_too_small_file_is_refused() {
    let m = usage(file_geometry("disk.img", Some(16)));
    assert_eq!(m, "disk.img: 16 bytes is too small to hold a partition table");
}

#[test]
fn sector_size_can_be_overridden_on_a_file_and_rescales_the_count() {
    let g = file_geometry("disk.img", Some(8 * 1024 * 1024)).unwrap();
    let g = with_sector_size(g, false, 4096).unwrap();
    assert_eq!(g.sector_size, 4096);
    assert_eq!(g.sectors, 2048);
}

#[test]
fn the_sector_size_of_a_block_device_is_not_ours_to_choose() {
    let g = Geometry { sector_size: 512, sectors: 2048 };
    let m = usage(with_sector_size(g, true, 4096));
    assert_eq!(m, "the sector size of a block device is not ours to choose");
}

#[test]
fn opening_a_directory_is_refused() {
    let m = usage(file_geometry("/tmp/somewhere", None));
    assert_eq!(m, "/tmp/somewhere: not a block device or regular file");
}

#[test]
fn block_geometry_counts_sysfs_size_in_512_byte_units() {
    // 4Kn disk: sysfs says 4096-byte sectors, and its size is still in 512s.
    let g = block_geometry("/dev/vdb", Some(4096), None, Some(16384)).unwrap();
    assert_eq!(g, Geometry { sector_size: 4096, sectors: 2048 });
    // No sysfs answer: the ioctl's positive answer, else 512.
    let g = block_geometry("/dev/vdb", None, Some(4096), Some(16384)).unwrap();
    assert_eq!(g.sector_size, 4096);
    let g = block_geometry("/dev/vdb", None, Some(0), Some(16384)).unwrap();
    assert_eq!(g, Geometry { sector_size: 512, sectors: 16384 });
    let g = block_geometry("/dev/vdb", None, None, Some(16384)).unwrap();
    assert_eq!(g.sector_size, 512);
    let m = usage(block_geometry("/dev/vdb", Some(512), None, None));
    assert_eq!(m, "/dev/vdb: cannot determine device size");
}

#[test]
fn a_partition_is_refused_and_its_disk_named() {
    let uevent = "MAJOR=253\nMINOR=16\nDEVNAME=vdb\nDEVTYPE=disk\n";
    match partition_refusal("/dev/vdb1", Some(uevent)) {
        PartError::Refused(m) => {
            assert_eq!(m, "/dev/vdb1 is a partition, not a whole disk; did you mean /dev/vdb?")
        }
        other => panic!("{other:?}"),
    }
    match partition_refusal("/dev/vdb1", Some("MAJOR=253\n")) {
        PartError::Refused(m) => {
            assert_eq!(m, "/dev/vdb1 is a partition, not a whole disk; did you mean the whole disk?")
        }
        other => panic!("{other:?}"),
    }
    match partition_refusal("/dev/vdb1", None) {
        PartError::Refused(m) => assert!(m.ends_with("did you mean the whole disk?")),
        other => panic!("{other:?}"),
    }
}

#[test]
fn the_mount_guard_matches_whole_source_fields() {
    let mounts = "/dev/vdb2 /run/t ext4 rw,relatime 0 0\nproc /proc proc rw 0 0\n";
    let only_disk = vec!["/dev/vdb".to_string()];
    assert!(mounted_refusal("/dev/vdb", &only_disk, mounts).is_ok());
    let with_parts = vec!["/dev/vdb".to_string(), "/dev/vdb1".to_string(), "/dev/vdb2".to_string()];
    match mounted_refusal("/dev/vdb", &with_parts, mounts) {
        Err(PartError::Refused(m)) => {
            assert_eq!(m, "/dev/vdb2 is mounted at /run/t; refusing to touch /dev/vdb")
        }
        other => panic!("{other:?}"),
    }
}

#[test]
fn an_unmounted_file_passes_the_mount_guard() {
    let mounts = "/dev/vda1 / ext4 rw 0 0\n";
    let targets = targets_of("/tmp/disk.img", None, Vec::new());
    assert!(mounted_refusal("/tmp/disk.img", &targets, mounts).is_ok());
}

#[test]
fn device_list_always_includes_the_named_path() {
    let list = targets_of("/dev/disk/by-id/x", Some("/dev/vdb".to_string()), vec!["/dev/vdb1".to_string()]);
    assert_eq!(list, vec!["/dev/disk/by-id/x", "/dev/vdb", "/dev/vdb1"]);
    let list = targets_of("/dev/vdb", Some("/dev/vdb".to_string()), vec![]);
    assert_eq!(list, vec!["/dev/vdb"]);
}

#[test]
fn holds_are_described_by_kind() {
    assert_eq!(hold_of("/dev/vdb1", Some("/mnt")), "/dev/vdb1 is mounted on /mnt");
    assert_eq!(hold_of("/dev/vdb2", None), "/dev/vdb2 is open in another program");
}

#[test]
fn disks_list_in_the_order_people_read_names() {
    let mk = |n: &str| disk_entry(n, 2048, vec![]).unwrap();
    let v = order_disks(vec![mk("loop10"), mk("sda1"), mk("loop2"), mk("nvme0n1"), mk("loop1")]);
    let names: Vec<&str> = v.iter().map(|d| d.name.as_str()).collect();
    assert_eq!(names, vec!["loop1", "loop2", "loop10", "nvme0n1", "sda1"]);
}

#[test]
fn a_zero_length_device_is_not_a_disk() {
    assert!(disk_entry("loop7", 0, vec![]).is_none());
    let d = disk_entry("vdb", 16384, vec![("vdb2".to_string(), 2), ("vdb1".to_string(), 1)]).unwrap();
    assert_eq!(d.path, "/dev/vdb");
    assert_eq!(d.size_bytes, 8 * 1024 * 1024);
    assert_eq!(d.partitions, vec![("vdb1".to_string(), 1), ("vdb2".to_string(), 2)]);
    let m = order_members(vec![("c".to_string(), 3), ("a".to_string(), 1), ("b".to_string(), 2)]);
    assert_eq!(m.iter().map(|p| p.1).collect::<Vec<_>>(), vec![1, 2, 3]);
}

#[test]
fn unreadable_disks_say_why_in_words() {
    assert_eq!(reason_for(Some(123)), "(no medium)");
    assert_eq!(reason_for(Some(13)), "?  (not permitted to read this device)");
    assert_eq!(reason_for(Some(1)), "?  (not permitted to read this device)");
    assert_eq!(reason_for(Some(16)), "?  (device is busy)");
    assert_eq!(reason_for(Some(5)), "?  (cannot read this device)");
    assert_eq!(reason_for(None), "?  (cannot read this device)");
}

fn esp() -> Guid {
    Guid::parse(ESP).unwrap()
}

#[test]
fn the_inventory_lists_every_disk_and_its_partitions() {
    let mut g = Gpt::create(16_777_216, 512).unwrap();
    g.add(Some(1_048_576), esp(), "EFI system partition", None).unwrap();
    assert_eq!(summary(Some(&DiskState::Gpt(Box::new(g.clone()))), None), "gpt, 1 partition");
    assert_eq!(detail(Some(&g), 1), "esp        EFI system partition");
    assert_eq!(detail(Some(&g), 2), "");
    assert_eq!(detail(None, 1), "");
    let disks = vec![
        DiskListing {
            path: "/dev/vda".to_string(),
            size_bytes: 8 * 1024 * 1024 * 1024,
            state: Some(DiskState::Gpt(Box::new(g))),
            unreadable: None,
            members: vec![("vda1".to_string(), 1, Some(1_048_576))],
        },
        DiskListing {
            path: "/dev/sr0".to_string(),
            size_bytes: 1024,
            state: None,
            unreadable: Some("(no medium)".to_string()),
            members: vec![],
        },
        DiskListing {
            path: "/dev/vdc".to_string(),
            size_bytes: 2048,
            state: Some(DiskState::Blank),
            unreadable: None,
            members: vec![("vdc9".to_string(), 9, None)],
        },
    ];
    let text = inventory(&disks);
    let want = String::new()
        + "DEVICE             SIZE  CONTENTS\n"
        + "/dev/vda           8.0G  gpt, 1 partition\n"
        + "  vda1             512M  esp        EFI system partition\n"
        + "/dev/sr0           1.0K  (no medium)\n"
        + "/dev/vdc           2.0K  no partition table\n"
        + "  vdc9                ?  \n";
    assert_eq!(text, want);
    assert_eq!(inventory(&[]), "no block devices\n");
}

#[test]
fn confirmations_and_reports_read_as_sentences() {
    assert!(confirm("/dev/vdb", true).is_ok());
    match confirm("/dev/vdb", false) {
        Err(PartError::Refused(m)) => assert_eq!(m, "/dev/vdb would be modified; pass --yes to confirm"),
        other => panic!("{other:?}"),
    }
    match unknown_type("bogus") {
        PartError::Usage(m) => assert_eq!(m, "unknown partition type \"bogus\""),
        other => panic!("{other:?}"),
    }
    let (lines, r) = verify_report("/dev/vdb", &[]);
    assert_eq!(lines, vec!["/dev/vdb: GPT is structurally sound"]);
    assert!(r.is_ok());
    let (lines, r) = verify_report("/dev/vdb", &["a".to_string(), "b".to_string()]);
    assert_eq!(lines, vec!["/dev/vdb: a", "/dev/vdb: b"]);
    match r {
        Err(PartError::Damaged(m)) => assert_eq!(m, "2 problem(s) found"),
        other => panic!("{other:?}"),
    }
    let g = Guid::parse(ESP).unwrap();
    assert_eq!(created_line("img", &g), "img: wrote a new GPT (C12A7328-F81F-11D2-BA4B-00A0C93EC93B)");
    assert_eq!(added_line("img", 1, 2048, 1050623, 536_870_912), "img: partition 1 at 2048..1050623 (512M)");
    assert_eq!(removed_line("img", 3), "img: removed partition 3");
}
