use peiosutils::part::error::PartError;

#[test]
fn refusals_are_distinguishable_from_failures() {
    assert_eq!(PartError::Refused("mounted".into()).exit_code(), 3);
    assert_eq!(PartError::Foreign("dos".into()).exit_code(), 3);
    assert_eq!(PartError::Usage("bad".into()).exit_code(), 1);
    assert_eq!(PartError::NoGpt.exit_code(), 1);
    assert_eq!(
        PartError::Io { path: "/dev/null".into(), source: std::io::Error::other("x") }.exit_code(),
        2
    );
}

#[test]
fn no_space_names_both_numbers() {
    let m = PartError::NoSpace { wanted: 100, largest: 40 }.message();
    assert!(m.contains("100") && m.contains("40"), "{m}");
}

#[test]
fn messages_read_as_written() {
    assert_eq!(PartError::NoGpt.message(), "no GPT partition table");
    assert_eq!(PartError::Damaged("x".into()).message(), "damaged GPT: x");
    assert_eq!(
        PartError::NoSpace { wanted: 100, largest: 40 }.message(),
        "no free extent holds 100 sectors (largest is 40)"
    );
}

#[test]
fn an_io_message_starts_with_the_path() {
    let m = PartError::Io { path: "/dev/sdz".into(), source: std::io::Error::other("gone") }.message();
    assert_eq!(m, "/dev/sdz: gone");
}
