use peiosutils::regman::fold::fold;

#[test]
fn ascii_lowercases() {
    assert_eq!(fold(r"Machine\System\KMES"), r"machine\system\kmes");
    assert_eq!(fold("BufferCapacity"), "buffercapacity");
}

#[test]
fn idempotent() {
    let once = fold(r"Machine\System\KMES BufferCapacity");
    assert_eq!(fold(&once), once);
}

#[test]
fn preserves_separators_and_spaces() {
    assert_eq!(fold(r"A\B C"), r"a\b c");
}

#[test]
fn case_insensitive_equality() {
    assert_eq!(fold("KMES"), fold("kmes"));
    assert_eq!(fold("MaxEventSize"), fold("MAXEVENTSIZE"));
}

#[test]
fn folds_non_ascii_per_unicode_scf() {
    // Greek capital sigma → small sigma (range table).
    assert_eq!(fold("Σ"), "σ");
    // Cyrillic capital A → small a.
    assert_eq!(fold("А"), "а");
    // Micro sign µ → Greek small mu (pairs table), matching LCS.
    assert_eq!(fold("µ"), "μ");
    assert_eq!(fold("Σ"), fold("σ"));
}

#[test]
fn diverges_from_naive_lowercasing_where_scf_does() {
    // Kelvin sign (U+212A) simple-case-folds to ASCII 'k'; this is exactly
    // the kind of case the SCF table gets right and a quick approximation
    // might not. Confirms we're using the real table.
    assert_eq!(fold("\u{212A}"), "k");
}
