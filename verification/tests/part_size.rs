use peiosutils::part::size::{human, parse_size};

#[test]
fn sizes_convert_to_sectors() {
    assert_eq!(parse_size("512M", 512).unwrap(), Some(1_048_576));
    assert_eq!(parse_size("1G", 512).unwrap(), Some(2_097_152));
    assert_eq!(parse_size("512M", 4096).unwrap(), Some(131_072));
    assert_eq!(parse_size("1K", 512).unwrap(), Some(2));
}

#[test]
fn a_bare_number_is_sectors() {
    assert_eq!(parse_size("2048", 512).unwrap(), Some(2048));
    assert_eq!(parse_size("2048s", 512).unwrap(), Some(2048));
    assert_eq!(parse_size("2048S", 512).unwrap(), Some(2048));
    assert_eq!(parse_size("2048", 4096).unwrap(), Some(2048));
}

#[test]
fn max_is_none() {
    assert_eq!(parse_size("max", 512).unwrap(), None);
    assert_eq!(parse_size("MAX", 512).unwrap(), None);
}

#[test]
fn lowercase_suffixes_work_too() {
    assert_eq!(parse_size("512m", 512).unwrap(), parse_size("512M", 512).unwrap());
    assert_eq!(parse_size("2g", 512).unwrap(), parse_size("2G", 512).unwrap());
}

#[test]
fn a_size_that_is_not_a_whole_number_of_sectors_rounds_up() {
    assert_eq!(parse_size("1000", 512).unwrap(), Some(1000));
    assert_eq!(parse_size("1K", 700).unwrap(), Some(2));
}

#[test]
fn nonsense_sizes_are_rejected() {
    for s in ["", "abc", "-1", "1X", "M", "0", "0M", "1.5G"] {
        assert!(parse_size(s, 512).is_err(), "should reject {s:?}");
    }
}

#[test]
fn overflow_is_rejected_rather_than_wrapped() {
    assert!(parse_size("99999999999999999999T", 512).is_err());
    assert!(parse_size(&format!("{}T", u64::MAX), 512).is_err());
}

#[test]
fn terabytes_convert_exactly() {
    assert_eq!(parse_size("1T", 512).unwrap(), Some(2_147_483_648));
}

#[test]
fn human_sizes_read_sensibly() {
    assert_eq!(human(512), "512B");
    assert_eq!(human(1024), "1.0K");
    assert_eq!(human(536_870_912), "512M");
    assert_eq!(human(8 * 1024 * 1024 * 1024), "8.0G");
}

#[test]
fn human_rounds_as_float_formatting_does() {
    assert_eq!(human(0), "0B");
    assert_eq!(human(1023), "1023B");
    assert_eq!(human(1536), "1.5K");
    assert_eq!(human(10 * 1024), "10K");
    assert_eq!(human(10_188), "9.9K");
    assert_eq!(human(10_200), "10.0K");
    assert_eq!(human(2560 * 1024), "2.5M");
    assert_eq!(human(u64::MAX), "16384P");
    for b in [1u64, 999, 1024, 5000, 123_456_789, 1 << 40, (1 << 53) + 1, u64::MAX - 7] {
        let v = b as f64;
        let mut x = v;
        let mut i = 0;
        let units = ["B", "K", "M", "G", "T", "P"];
        while x >= 1024.0 && i < 5 {
            x /= 1024.0;
            i += 1;
        }
        let want = if i == 0 {
            format!("{b}B")
        } else if x < 10.0 {
            format!("{x:.1}{}", units[i])
        } else {
            format!("{x:.0}{}", units[i])
        };
        assert_eq!(human(b), want, "{b}");
    }
}

#[test]
fn sector_size_matters_only_for_suffixed_sizes() {
    assert_eq!(parse_size("2048", 0).unwrap(), Some(2048));
    assert_eq!(parse_size("2048s", 0).unwrap(), Some(2048));
    assert_eq!(parse_size("max", 0).unwrap(), None);
    assert!(parse_size("abc", 0).is_err());
}
