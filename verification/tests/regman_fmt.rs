use peiosutils::regman::cmd::fmt::{bake, fmt_verdict, issue_report};
use peiosutils::regman::error::Error;

#[test]
fn bakes_wrong_anchor_from_canonical() {
    let text = "\
--- totally wrong
canonical: Machine\\System\\KMES BufferCapacity
type: REG_QWORD

body
";
    let (out, issues) = bake(text);
    assert!(issues.is_empty());
    assert!(out.starts_with("--- machine\\system\\kmes buffercapacity\n"));
    assert!(out.contains("canonical: Machine\\System\\KMES BufferCapacity"));
    assert!(out.contains("type: REG_QWORD"));
}

#[test]
fn idempotent_on_correct_input() {
    let text = "\
--- machine\\system\\kmes buffercapacity
canonical: Machine\\System\\KMES BufferCapacity
type: REG_QWORD

body
";
    let (out, _) = bake(text);
    assert_eq!(out, text);
}

#[test]
fn bakes_multiple_records() {
    let text = "\
--- x
canonical: Machine\\System\\KMES

key body

--- y
canonical: Machine\\System\\KMES BufferCapacity
type: REG_QWORD

value body
";
    let (out, _) = bake(text);
    assert!(out.contains("--- machine\\system\\kmes\n"));
    assert!(out.contains("--- machine\\system\\kmes buffercapacity\n"));
}

#[test]
fn skipped_records_are_reported_and_fail_the_run() {
    let text = "--- x\ntype: REG_DWORD\n\nbody\n";
    let (_, issues) = bake(text);
    let lines = issue_report("a.regman", &issues);
    assert_eq!(lines.len(), 1);
    assert!(lines[0].starts_with("a.regman: line 1: "), "{lines:?}");
    assert!(fmt_verdict(false).is_ok());
    match fmt_verdict(true) {
        Err(Error::Fragment(m)) => assert_eq!(m, "fmt: some records have no `canonical:` and were skipped"),
        other => panic!("{other:?}"),
    }
}
