use peiosutils::part::device::{
    busy_message, mount_target_of, natural_cmp, Backoff, REREAD_BUSY_BUDGET_MS, REREAD_FIRST_WAIT_MS,
    REREAD_MAX_WAIT_MS,
};
use std::cmp::Ordering;

#[test]
fn mount_lines_are_parsed_by_source_not_by_substring() {
    let line = "/dev/vdb2 /run/t ext4 rw,relatime 0 0";
    assert_eq!(mount_target_of("/dev/vdb2", line).as_deref(), Some("/run/t"));
    // A prefix match would wrongly flag /dev/vdb when only /dev/vdb2 is
    // listed; equality is what the guard uses.
    assert_eq!(mount_target_of("/dev/vdb", line), None);
}

#[test]
fn device_names_sort_the_way_people_read_them() {
    assert_eq!(natural_cmp("loop2", "loop10"), Ordering::Less);
    assert_eq!(natural_cmp("sda9", "sda10"), Ordering::Less);
    assert_eq!(natural_cmp("nvme0n1", "nvme0n2"), Ordering::Less);
    assert_eq!(natural_cmp("nvme0n1", "nvme10n1"), Ordering::Less);
    assert_eq!(natural_cmp("sda", "sdb"), Ordering::Less);
    assert_eq!(natural_cmp("vda", "vda"), Ordering::Equal);
    assert_eq!(natural_cmp("sda", "sda1"), Ordering::Less);
    assert_ne!(natural_cmp("loop2", "loop10"), "loop2".cmp("loop10"));
}

#[test]
fn a_sorted_device_list_is_actually_sorted() {
    let mut v = vec!["loop10", "sda1", "loop2", "nvme0n1", "loop1"];
    v.sort_by(|a, b| natural_cmp(a, b));
    assert_eq!(v, vec!["loop1", "loop2", "loop10", "nvme0n1", "sda1"]);
}

#[test]
fn a_mount_is_matched_on_the_whole_source_field() {
    let mounts = "\
proc /proc proc rw 0 0
/dev/vdb11 /srv ext4 rw 0 0
/dev/vdb1 /mnt/rootfs ext4 rw,relatime 0 0
";
    assert_eq!(mount_target_of("/dev/vdb1", mounts).as_deref(), Some("/mnt/rootfs"));
    assert_eq!(mount_target_of("/dev/vdb11", mounts).as_deref(), Some("/srv"));
    assert_eq!(mount_target_of("/dev/vdb2", mounts), None);
    assert_eq!(mount_target_of("/dev/vdb", mounts), None);
}

#[test]
fn an_empty_mount_table_names_nothing() {
    assert_eq!(mount_target_of("/dev/vdb1", ""), None);
}

#[test]
fn the_give_up_message_distinguishes_a_probe_from_a_mount() {
    let p = "/tmp/disk.img";
    let msg = busy_message(p, &[]);
    assert!(msg.contains("probing"), "{msg}");
    assert!(msg.contains("run the command again"), "{msg}");
    assert!(msg.contains(&REREAD_BUSY_BUDGET_MS.to_string()), "{msg}");
    assert!(msg.contains(p), "{msg}");
    let held = vec!["/dev/vdb1 is mounted on /mnt".to_string()];
    let msg2 = busy_message("/dev/vdb", &held);
    assert!(msg2.contains("/dev/vdb1 is mounted on /mnt"), "{msg2}");
    assert!(!msg2.contains("probing"), "{msg2}");
}

/// Drive a schedule against an attempt that is busy `busy` times, then
/// succeeds: the outcome, the attempts made and the naps taken.
fn run(budget_ms: u64, busy: usize) -> (bool, usize, Vec<u64>) {
    let mut b = Backoff::new(budget_ms);
    let mut attempts = 0usize;
    let mut naps = Vec::new();
    loop {
        attempts += 1;
        if attempts > busy {
            return (true, attempts, naps);
        }
        match b.on_busy() {
            Some(n) => naps.push(n),
            None => return (false, attempts, naps),
        }
    }
}

#[test]
fn a_table_the_kernel_accepts_at_once_is_not_waited_on() {
    let (ok, attempts, naps) = run(REREAD_BUSY_BUDGET_MS, 0);
    assert!(ok);
    assert_eq!(attempts, 1);
    assert!(naps.is_empty(), "{naps:?}");
}

#[test]
fn a_transient_busy_is_retried_until_it_clears() {
    let (ok, attempts, naps) = run(REREAD_BUSY_BUDGET_MS, 3);
    assert!(ok);
    assert_eq!(attempts, 4);
    assert_eq!(naps.len(), 3);
    assert_eq!(naps[0], REREAD_FIRST_WAIT_MS);
    assert!(naps[1] > naps[0] && naps[2] > naps[1], "{naps:?}");
}

#[test]
fn a_lasting_busy_gives_up_inside_the_budget() {
    let (ok, attempts, naps) = run(REREAD_BUSY_BUDGET_MS, usize::MAX);
    assert!(!ok);
    let slept: u64 = naps.iter().sum();
    assert!(slept <= REREAD_BUSY_BUDGET_MS, "{slept} overshot the budget");
    assert!(attempts > 5, "only {attempts} attempts");
    assert!(naps.iter().all(|d| *d <= REREAD_MAX_WAIT_MS), "{naps:?}");
}

#[test]
fn a_zero_budget_still_asks_once() {
    let (ok, attempts, naps) = run(0, usize::MAX);
    assert!(!ok);
    assert_eq!(attempts, 1);
    assert!(naps.is_empty(), "{naps:?}");
}

#[test]
fn the_naps_double_then_hold_at_the_cap() {
    let (_, _, naps) = run(REREAD_BUSY_BUDGET_MS, usize::MAX);
    assert_eq!(&naps[..5], &[10, 20, 40, 80, 160]);
    assert_eq!(naps[5], 250);
    assert_eq!(naps.iter().sum::<u64>(), REREAD_BUSY_BUDGET_MS);
}

#[test]
fn digit_runs_saturate_rather_than_wrap() {
    assert_eq!(natural_cmp("a99999999999999999999999", "a99999999999999999999998"), Ordering::Equal);
    assert_eq!(natural_cmp("a1b", "a1c"), Ordering::Less);
    assert_eq!(natural_cmp("b", "a10"), Ordering::Greater);
}

#[test]
fn a_line_with_one_field_names_nothing() {
    assert_eq!(mount_target_of("/dev/vdb1", "/dev/vdb1\n/dev/vdb1 /x\n").as_deref(), Some("/x"));
    assert_eq!(mount_target_of("/dev/vdb1", "  /dev/vdb1\t\t/y  ext4\r\n").as_deref(), Some("/y"));
}
