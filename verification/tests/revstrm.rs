use peiosutils::revstrm::{
    compact, decode_access_mask, event_line, fmt_time, hex_preview, origin_label, parse_origin,
    render_payload_inline, render_payload_pretty, report_lost, sid_to_string, special, truncate, Filter,
    FilterError, Msg,
};

fn sid(authority: u64, subs: &[u32]) -> Vec<u8> {
    let mut b = vec![1u8, subs.len() as u8];
    b.extend_from_slice(&authority.to_be_bytes()[2..]);
    for s in subs {
        b.extend_from_slice(&s.to_le_bytes());
    }
    b
}

fn compact_text(m: &Msg) -> String {
    let mut v = Vec::new();
    compact(m, &mut v);
    v.into_iter().collect()
}

fn s(x: &str) -> Msg {
    Msg::Str(x.to_string())
}

#[test]
fn parses_canonical_sids() {
    assert_eq!(sid_to_string(&sid(5, &[18])).as_deref(), Some("S-1-5-18"));
    assert_eq!(sid_to_string(&sid(5, &[32, 544])).as_deref(), Some("S-1-5-32-544"));
    assert_eq!(sid_to_string(&sid(1, &[0])).as_deref(), Some("S-1-1-0"));
    assert_eq!(sid_to_string(&sid(11, &[])).as_deref(), Some("S-1-11"));
    assert_eq!(sid_to_string(&[1, 2, 0, 0, 0, 0, 0, 5]), None);
    assert_eq!(sid_to_string(&[]), None);
}

#[test]
fn a_wide_authority_renders_in_hex() {
    assert_eq!(sid_to_string(&sid(0x1_0000_0000, &[7])).as_deref(), Some("S-1-0x000100000000-7"));
}

#[test]
fn decodes_access_masks() {
    assert_eq!(decode_access_mask(0x80), "FILE_READ_ATTRIBUTES");
    assert_eq!(
        decode_access_mask(0x0106_0080),
        "FILE_READ_ATTRIBUTES|READ_CONTROL|WRITE_DAC|ACCESS_SYSTEM_SECURITY"
    );
    assert_eq!(decode_access_mask(0x2000_0000), "GENERIC_EXECUTE");
    assert_eq!(decode_access_mask(0), "0 (none)");
    assert_eq!(decode_access_mask(0x0000_0200), "0x00000200");
    assert_eq!(decode_access_mask(0x0000_0280), "FILE_READ_ATTRIBUTES|0x00000200");
}

#[test]
fn sid_suffix_fields_render_as_strings() {
    let m = Msg::Mapping(vec![
        (s("user_sid"), Msg::Bin(sid(5, &[18]))),
        (s("group_sids"), Msg::Array(vec![Msg::Bin(sid(1, &[0])), Msg::Bin(sid(5, &[32, 544]))])),
        (s("policy_sid"), Msg::Bin(sid(5, &[11]))),
        (s("count"), Msg::UInt(3)),
    ]);
    let out = compact_text(&m);
    assert!(out.contains("\"user_sid\": S-1-5-18"), "{out}");
    assert!(out.contains("\"group_sids\": [S-1-1-0, S-1-5-32-544]"), "{out}");
    assert!(out.contains("\"policy_sid\": S-1-5-11"), "{out}");
    assert!(out.contains("\"count\": 3"), "{out}");
}

fn special_text(key: &str, v: &Msg) -> Option<String> {
    let mut out = Vec::new();
    if special(key, v, &mut out) {
        Some(out.into_iter().collect())
    } else {
        assert!(out.is_empty(), "a fall-through must write nothing");
        None
    }
}

#[test]
fn non_sid_keys_and_bad_shapes_fall_through() {
    assert_eq!(special_text("count", &Msg::UInt(1)), None);
    assert_eq!(special_text("user_sid", &Msg::UInt(1)), None);
    let r = special_text("weird_sid", &Msg::Bin(vec![0xde, 0xad])).unwrap();
    assert!(r.starts_with("0xdead"), "{r}");
}

#[test]
fn access_suffix_fields_decode() {
    assert_eq!(
        special_text("granted_access", &Msg::UInt(0x0106_0080)).as_deref(),
        Some("FILE_READ_ATTRIBUTES|READ_CONTROL|WRITE_DAC|ACCESS_SYSTEM_SECURITY")
    );
    assert_eq!(special_text("count", &Msg::UInt(5)), None);
    assert_eq!(special_text("granted_access", &s("x")), None);
    assert_eq!(special_text("Granted_ACCESS", &Msg::UInt(1 << 40)).as_deref(), Some("1099511627776"));
}

#[test]
fn pretty_map_aligns_and_expands() {
    let m = Msg::Mapping(vec![
        (s("a"), Msg::UInt(1)),
        (s("longer_key"), s("v")),
        (s("nested"), Msg::Mapping(vec![(s("k"), Msg::UInt(2))])),
    ]);
    let out = render_payload_pretty(&[0x83], &Ok((m, 0)), 0);
    assert!(out.contains("a           1"), "{out}");
    assert!(out.contains("longer_key  \"v\""), "{out}");
    assert!(out.contains("nested:"), "{out}");
    assert!(out.contains("k  2"), "{out}");
}

#[test]
fn inline_scalar_array_stays_inline() {
    let m = Msg::Array(vec![Msg::UInt(1), Msg::UInt(2), Msg::UInt(3)]);
    assert_eq!(compact_text(&m), "[1, 2, 3]");
    let out = render_payload_pretty(&[0x93], &Ok((m, 0)), 4);
    assert_eq!(out, "    [1, 2, 3]\n");
}

#[test]
fn an_array_holding_a_container_becomes_an_indexed_block() {
    let m = Msg::Array(vec![Msg::UInt(1), Msg::Mapping(vec![(s("k"), Msg::Nil)])]);
    let out = render_payload_pretty(&[0x92], &Ok((m, 2)), 2);
    assert_eq!(out, "  [0]  1\n  [1]:\n    k  nil\n  (+2 trailing byte(s))\n");
}

#[test]
fn payload_fallbacks_name_the_problem() {
    assert_eq!(render_payload_inline(&[], &Ok((Msg::Nil, 0))), "(empty)");
    assert_eq!(
        render_payload_inline(&[0xc1], &Err("bad lead byte".to_string())),
        "<1 byte(s), undecodable: bad lead byte> 0xc1"
    );
    assert_eq!(render_payload_inline(&[0xc0, 0], &Ok((Msg::Nil, 1))), "nil (+1 trailing byte(s))");
    let long = Msg::Str("x".repeat(300));
    let out = render_payload_inline(&[0xda], &Ok((long, 0)));
    assert_eq!(out.chars().count(), 241);
    assert!(out.ends_with('\u{2026}'));
}

#[test]
fn scalars_render_compactly() {
    assert_eq!(compact_text(&Msg::Int(-5)), "-5");
    assert_eq!(compact_text(&Msg::Int(i64::MIN)), "-9223372036854775808");
    assert_eq!(compact_text(&Msg::Bool(true)), "true");
    assert_eq!(compact_text(&Msg::Ext(-1, 4)), "ext(-1, 4 byte(s))");
    assert_eq!(compact_text(&Msg::Float("1.5".to_string())), "1.5");
    assert_eq!(compact_text(&s("q\"")), "\"q\\\"\"");
    assert_eq!(compact_text(&Msg::Mapping(vec![(Msg::UInt(1), Msg::Nil)])), "{1: nil}");
}

#[test]
fn hex_previews_cap_at_thirty_two_bytes() {
    assert_eq!(hex_preview(&[0xab, 0x01]), "0xab01");
    let p = hex_preview(&[0u8; 33]);
    assert_eq!(p.len(), 2 + 64 + '\u{2026}'.len_utf8());
    assert!(p.ends_with('\u{2026}'));
    assert_eq!(truncate("abcdef", 3), "abc\u{2026}");
    assert_eq!(truncate("abc", 3), "abc");
}

#[test]
fn times_and_origins_read_as_documented() {
    assert_eq!(fmt_time(0), "00:00:00.000000");
    assert_eq!(fmt_time(86_399_999_999_999), "23:59:59.999999");
    assert_eq!(fmt_time(3_723_000_456_000), "01:02:03.000456");
    assert_eq!(origin_label(0), "USR");
    assert_eq!(origin_label(2), "KACS");
    assert_eq!(origin_label(9), "c9");
    assert_eq!(parse_origin("User"), Ok(0));
    assert_eq!(parse_origin("LCS"), Ok(3));
    assert_eq!(parse_origin("Nope"), Err("nope".to_string()));
}

#[test]
fn an_event_line_has_its_columns() {
    let line = event_line(1, 42, 0, 1, b"kmes.test", &[0xc0], &Ok((Msg::Nil, 0)), false);
    assert_eq!(line, "00:00:00.000000  cpu1  #42       KMES  kmes.test  nil\n");
}

#[test]
fn lost_events_are_reported_once() {
    let mut reported = 0u64;
    assert_eq!(report_lost(3, 5, &mut reported).as_deref(), Some("--- cpu3: lost 5 event(s) (ring lapped) ---\n"));
    assert_eq!(reported, 5);
    assert_eq!(report_lost(3, 5, &mut reported), None);
    assert_eq!(report_lost(3, 7, &mut reported).as_deref(), Some("--- cpu3: lost 2 event(s) (ring lapped) ---\n"));
}

#[test]
fn filters_match_on_origin_and_type_globs() {
    let f = Filter::new(&["kmes.*".to_string()], &["kmes".to_string()]).unwrap();
    assert!(f.matches(1, b"kmes.lost"));
    assert!(!f.matches(0, b"kmes.lost"));
    assert!(!f.matches(1, b"kacs.audit"));
    let any = Filter::new(&[], &[]).unwrap();
    assert!(any.matches(7, b"anything"));
    assert!(matches!(Filter::new(&["[".to_string()], &[]), Err(FilterError::BadPattern(p, _)) if p == "["));
    assert_eq!(
        Filter::new(&[], &["bogus".to_string()]).err(),
        Some(FilterError::BadOrigin("bogus".to_string()))
    );
}
