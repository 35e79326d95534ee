use peiosutils::regman::fragment::{fence_anchor, parse, Kind};

const KEY_DOC: &str = "\
--- machine\\system\\kmes
canonical: Machine\\System\\KMES

KMES reads its operational parameters from the values under this key.
Second paragraph.
";

const VALUE_DOC: &str = "\
--- machine\\system\\kmes buffercapacity
canonical: Machine\\System\\KMES BufferCapacity
type: REG_QWORD
default: 4194304
valid: 65536-268435456 bytes, power of two
applies: live

Per-CPU ring buffer capacity, in bytes.
";

#[test]
fn parses_key_doc() {
    let (recs, issues) = parse(KEY_DOC);
    assert!(issues.is_empty());
    assert_eq!(recs.len(), 1);
    let r = &recs[0];
    assert_eq!(r.anchor, "machine\\system\\kmes");
    assert_eq!(r.canonical, "Machine\\System\\KMES");
    assert_eq!(r.kind(), Kind::Key);
    assert_eq!(r.fence_offset, 0);
    assert!(r.body.starts_with("KMES reads"));
}

#[test]
fn parses_value_doc_fields() {
    let (recs, _) = parse(VALUE_DOC);
    let r = &recs[0];
    assert_eq!(r.kind(), Kind::Value);
    assert_eq!(r.type_.as_deref(), Some("REG_QWORD"));
    assert_eq!(r.default.as_deref(), Some("4194304"));
    assert_eq!(r.applies.as_deref(), Some("live"));
    assert_eq!(r.summary(), "Per-CPU ring buffer capacity, in bytes.");
}

#[test]
fn parses_multiple_records_with_offsets() {
    let text = format!("{KEY_DOC}{VALUE_DOC}");
    let (recs, issues) = parse(&text);
    assert!(issues.is_empty());
    assert_eq!(recs.len(), 2);
    assert_eq!(recs[0].fence_offset, 0);
    assert_eq!(recs[1].fence_offset, KEY_DOC.len());
    // Round-trip: the byte offset really points at the second fence.
    assert!(text[recs[1].fence_offset..].starts_with("--- machine\\system\\kmes buffercapacity"));
}

#[test]
fn missing_canonical_is_an_issue_not_a_record() {
    let text = "--- machine\\system\\kmes\ntype: REG_DWORD\n\nbody\n";
    let (recs, issues) = parse(text);
    assert!(recs.is_empty());
    assert_eq!(issues.len(), 1);
    assert_eq!(issues[0].line, 1);
}

#[test]
fn bare_dashes_are_not_a_fence() {
    assert_eq!(fence_anchor("---"), None);
    assert_eq!(fence_anchor("--- machine\\x"), Some("machine\\x"));
    assert_eq!(fence_anchor("text --- more"), None);
}

#[test]
fn expected_anchor_is_fold_of_canonical() {
    let (recs, _) = parse(VALUE_DOC);
    assert_eq!(recs[0].expected_anchor(), recs[0].anchor);
}

#[test]
fn value_name_strips_key_prefix() {
    let (recs, _) = parse(VALUE_DOC);
    assert_eq!(recs[0].value_name("Machine\\System\\KMES"), "BufferCapacity");
}

#[test]
fn value_name_handles_spaces_in_value() {
    let text = "\
--- machine\\system\\x safe mode restarts
canonical: Machine\\System\\X Safe Mode Restarts
type: REG_DWORD

body
";
    let (recs, _) = parse(text);
    assert_eq!(recs[0].value_name("Machine\\System\\X"), "Safe Mode Restarts");
}

#[test]
fn unknown_header_fields_ignored() {
    let text = "--- a\\b\ncanonical: A\\B\nbogus: whatever\n\nbody\n";
    let (recs, issues) = parse(text);
    assert!(issues.is_empty());
    assert_eq!(recs[0].kind(), Kind::Key);
}

#[test]
fn fence_offsets_count_carriage_returns() {
    let text = "--- machine\\a\r\ncanonical: Machine\\A\r\n\r\nbody\r\n--- machine\\b\r\ncanonical: Machine\\B\r\n\r\nmore\r\n";
    let (recs, issues) = parse(text);
    assert!(issues.is_empty());
    assert_eq!(recs.len(), 2);
    assert_eq!(recs[0].fence_offset, 0);
    let second = text.find("--- machine\\b").unwrap();
    assert_eq!(recs[1].fence_offset, second);
    assert!(text[recs[1].fence_offset..].starts_with("--- machine\\b"));
}
