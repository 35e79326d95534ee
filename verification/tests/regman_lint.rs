use peiosutils::regman::cmd::lint::{file_problems, lint_text, lint_verdict};
use peiosutils::regman::error::Error;

#[test]
fn clean_fragment_has_no_problems() {
    let text = "\
--- machine\\system\\kmes buffercapacity
canonical: Machine\\System\\KMES BufferCapacity
type: REG_QWORD

body
";
    assert!(lint_text(text).is_empty());
}

#[test]
fn flags_anchor_mismatch() {
    let text = "\
--- wrong anchor
canonical: Machine\\System\\KMES BufferCapacity
type: REG_QWORD

body
";
    let problems = lint_text(text);
    assert_eq!(problems.len(), 1);
    assert!(problems[0].contains("anchor for"));
}

#[test]
fn flags_missing_canonical() {
    let text = "--- machine\\system\\kmes\ntype: REG_DWORD\n\nbody\n";
    let problems = lint_text(text);
    assert_eq!(problems.len(), 1);
    assert!(problems[0].contains("no `canonical:`"));
}

#[test]
fn each_problem_is_reported_after_its_file() {
    let text = "--- machine\\system\\kmes\ntype: REG_DWORD\n\nbody\n";
    let lines = file_problems("kmes.regman", text);
    assert_eq!(lines.len(), 1);
    assert!(lines[0].starts_with("kmes.regman: line 1: "), "{lines:?}");
    assert!(lint_verdict(0).is_ok());
    match lint_verdict(3) {
        Err(Error::Fragment(m)) => assert_eq!(m, "lint: 3 problem(s) found"),
        other => panic!("{other:?}"),
    }
}
