use peiosutils::regman::fragment::parse;
use peiosutils::regman::markdown::Style;
use peiosutils::regman::render::{apropos, exact, key, truncate};
use peiosutils::regman::scan::Hit;

fn hit(text: &str) -> Hit {
    let (recs, _) = parse(text);
    Hit {
        provider: "kmes".to_string(),
        file: "kmes.regman".to_string(),
        record: recs.into_iter().next().unwrap(),
    }
}

fn plain() -> Style {
    Style::plain()
}

const VALUE: &str = "\
--- machine\\system\\kmes buffercapacity
canonical: Machine\\System\\KMES BufferCapacity
type: REG_QWORD
default: 4194304
valid: 65536-268435456 bytes, power of two
applies: live

Per-CPU ring buffer capacity, in bytes.
";

#[test]
fn value_card_has_identity_fields_and_body() {
    let out = exact(&[hit(VALUE)], 78, plain());
    assert!(out.contains("Machine\\System\\KMES BufferCapacity"));
    assert!(out.contains("documented by kmes"));
    assert!(out.contains("  Type     REG_QWORD"));
    assert!(out.contains("  Default  4194304"));
    assert!(out.contains("  Applies  live"));
    assert!(out.contains("Per-CPU ring buffer capacity"));
}

#[test]
fn fields_are_aligned() {
    let out = exact(&[hit(VALUE)], 78, plain());
    assert!(out.contains("  Type     REG_QWORD"));
    assert!(out.contains("  Valid    65536"));
}

#[test]
fn multi_provider_shows_banner() {
    let out = exact(&[hit(VALUE), hit(VALUE)], 78, plain());
    assert!(out.starts_with("documented by 2 packages:"));
}

#[test]
fn deprecated_banner_at_top() {
    let text = "\
--- a\\b foo
canonical: A\\B Foo
type: REG_DWORD
deprecated: use A\\B Bar instead

old knob
";
    let out = exact(&[hit(text)], 78, plain());
    assert!(out.starts_with("DEPRECATED: use A\\B Bar instead"));
}

const KEYDOC: &str = "\
--- machine\\system\\kmes
canonical: Machine\\System\\KMES

KMES configuration subtree.
";

#[test]
fn key_view_lists_values_with_summaries() {
    let out = key(&[hit(KEYDOC), hit(VALUE)], "Machine\\System\\KMES", 78, plain());
    assert!(out.contains("KMES configuration subtree."));
    assert!(out.contains("Values"));
    assert!(out.contains("BufferCapacity"));
    assert!(out.contains("Per-CPU ring buffer capacity, in bytes."));
}

#[test]
fn key_view_without_key_doc_still_lists_values() {
    let out = key(&[hit(VALUE)], "Machine\\System\\KMES", 78, plain());
    assert!(out.contains("Machine\\System\\KMES"));
    assert!(out.contains("BufferCapacity"));
}

#[test]
fn value_card_has_single_blank_line_before_body() {
    let out = exact(&[hit(VALUE)], 78, plain());
    assert!(!out.contains("\n\n\n"), "card had a double blank line:\n{out}");
}

#[test]
fn truncate_adds_ellipsis() {
    assert_eq!(truncate("hello", 10), "hello");
    assert_eq!(truncate("hello world", 5), "hell…");
    assert_eq!(truncate("x", 0), "");
}

#[test]
fn apropos_lists_name_and_summary() {
    let out = apropos(&[hit(VALUE)], 100, plain());
    assert!(out.contains("Machine\\System\\KMES BufferCapacity"));
    assert!(out.contains("Per-CPU ring buffer capacity, in bytes."));
    // One line per result.
    assert_eq!(out.lines().count(), 1);
}

#[test]
fn body_markdown_is_rendered_not_literal() {
    let text = "\
--- a\\b foo
canonical: A\\B Foo
type: REG_DWORD

This is **important** and `code`.
";
    let plain_out = exact(&[hit(text)], 78, plain());
    assert!(plain_out.contains("This is important and code."));
    assert!(!plain_out.contains("**"));

    let color_out = exact(&[hit(text)], 78, Style::new(true));
    assert!(color_out.contains("\x1b[1mimportant\x1b[0m"));
}
