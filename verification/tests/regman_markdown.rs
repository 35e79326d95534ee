use peiosutils::regman::markdown::{render, strip_inline, Style};

#[test]
fn wraps_to_width() {
    let out = render("one two three four five six", 12, Style::plain());
    assert!(out.lines().all(|l| l.chars().count() <= 12));
    // Round-trips the words in order.
    assert_eq!(out.split_whitespace().collect::<Vec<_>>(), ["one","two","three","four","five","six"]);
}

#[test]
fn strips_markup_in_plain_mode() {
    let out = render("This is **bold** and `code`.", 80, Style::plain());
    assert_eq!(out, "This is bold and code.");
    assert!(!out.contains('*'));
    assert!(!out.contains('`'));
}

#[test]
fn emphasis_loses_its_markers() {
    let out = render("A value that is *not* here.", 80, Style::plain());
    assert_eq!(out, "A value that is not here.");
}

/// The whole point of looking ahead: an opener with no closer is text.
/// Toggling instead swallowed the delimiter and mis-styled the remainder.
#[test]
fn an_unmatched_delimiter_stays_literal() {
    for (input, want) in [
        ("2 ** 3 and more after it", "2 ** 3 and more after it"),
        ("an unclosed ` and more after it", "an unclosed ` and more after it"),
        ("a lone * and more after it", "a lone * and more after it"),
    ] {
        assert_eq!(render(input, 80, Style::plain()), want, "input: {input}");
    }
}

/// Matched pairs that were never markup. The tight rule is what excludes
/// them, and it is the only rule beyond "is there a closer?".
#[test]
fn tight_delimiters_keep_arithmetic_and_globs_literal() {
    for text in ["2 * 3 * 4", "*.conf and *.h", "a ** b ** c"] {
        assert_eq!(render(text, 80, Style::plain()), text, "input: {text}");
    }
}

/// An unmatched delimiter inside a code span is content, not markup —
/// which is what keeps `Tag.*` and `Counter.*` intact in netd's prose.
#[test]
fn a_code_span_protects_what_is_inside_it() {
    let out = render("a `Tag.*` or `Counter.*` condition", 80, Style::plain());
    assert_eq!(out, "a Tag.* or Counter.* condition");
}

#[test]
fn spans_nest() {
    let out = render("**bold with `code` inside**", 80, Style::new(true));
    assert!(out.contains("\x1b[1m"), "bold applied: {out:?}");
    assert!(out.contains("\x1b[36m"), "code applied inside it: {out:?}");
    assert_eq!(render("**bold with `code` inside**", 80, Style::plain()), "bold with code inside");
}

/// Emphasis may hold other markup, and markers still come off cleanly.
#[test]
fn emphasis_may_contain_code() {
    assert_eq!(
        render("the *`Enabled` value* matters", 80, Style::plain()),
        "the Enabled value matters"
    );
}

#[test]
fn applies_ansi_when_colored() {
    let out = render("a **b** c", 80, Style::new(true));
    assert!(out.contains("\x1b[1mb\x1b[0m"));
    // 'a' and 'c' stay unstyled.
    assert!(out.starts_with("a "));
}

#[test]
fn bold_span_across_words() {
    let out = render("**two words** plain", 80, Style::new(true));
    assert!(out.contains("\x1b[1mtwo\x1b[0m \x1b[1mwords\x1b[0m"));
    assert!(out.trim_end().ends_with("plain"));
}

#[test]
fn heading_and_bullets() {
    let body = "# Title\n\n- first item\n- second item";
    let out = render(body, 80, Style::plain());
    let lines: Vec<&str> = out.lines().collect();
    assert_eq!(lines[0], "Title");
    assert!(lines.iter().any(|l| *l == "  - first item"));
    assert!(lines.iter().any(|l| *l == "  - second item"));
}

/// A bullet's continuation lines are part of the bullet: they hang under
/// the text, and an inline span may open on one and close on the next.
/// Both used to break, the second visibly once markup stopped toggling.
#[test]
fn a_bullet_continues_across_source_lines() {
    let out = render(
        "- `restart` — what the process **is or\n  runs as**: `ImagePath`.",
        72,
        Style::plain(),
    );
    assert!(!out.contains('*'), "span must close across the lines: {out:?}");
    for (i, l) in out.lines().enumerate() {
        assert!(
            l.starts_with(if i == 0 { "  - " } else { "    " }),
            "line {i} not hung under the text: {l:?}"
        );
    }
}

#[test]
fn bullet_hanging_indent() {
    let out = render("- a fairly long bullet that needs to wrap onto another line here", 24, Style::plain());
    let lines: Vec<&str> = out.lines().collect();
    assert!(lines[0].starts_with("  - "));
    assert!(lines[1].starts_with("    ")); // continuation indented under text
}

#[test]
fn strip_inline_is_plain() {
    assert_eq!(strip_inline("**Validation** is `key`"), "Validation is key");
}
