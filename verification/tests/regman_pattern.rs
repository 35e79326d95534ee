use peiosutils::regman::pattern::{has_wildcard, matches_exact, matches_under_key, spans_components};

#[test]
fn wildcard_free_anchors_behave_as_byte_equality() {
    assert!(matches_exact("machine\\system\\kmes buffercapacity", "machine\\system\\kmes buffercapacity"));
    assert!(!matches_exact("machine\\system\\kmes buffercapacity", "machine\\system\\kmes nope"));
    assert!(matches_under_key("machine\\system\\kmes", "machine\\system\\kmes"));
    assert!(matches_under_key("machine\\system\\kmes buffercapacity", "machine\\system\\kmes"));
    assert!(!matches_under_key("machine\\system\\kmesfoo", "machine\\system\\kmes"));
}

#[test]
fn wildcard_matches_one_component() {
    // \X\<Y>\Z answers for \X\B\Z — the shape Jack asked for.
    assert!(matches_exact("\\x\\<y>\\z", "\\x\\b\\z"));
    assert!(matches_exact(
        "machine\\system\\services\\<name> imagepath",
        "machine\\system\\services\\sshd imagepath"
    ));
}

#[test]
fn wildcard_does_not_span_a_separator() {
    // One component, not a path tail: \X\<Y>\Z must not match \X\B\C\Z.
    assert!(!matches_exact("\\x\\<y>\\z", "\\x\\b\\c\\z"));
    assert!(!matches_exact(
        "machine\\system\\services\\<name> imagepath",
        "machine\\system\\services\\a\\b imagepath"
    ));
}

#[test]
fn wildcard_does_not_span_the_value_separator() {
    // `<name>` must not swallow the space and eat the value name, which is
    // what would let a key-path wildcard match an unrelated value doc.
    assert!(!matches_exact(
        "machine\\system\\services\\<name>",
        "machine\\system\\services\\sshd imagepath"
    ));
}

#[test]
fn wildcard_requires_at_least_one_character() {
    assert!(!matches_exact("\\x\\<y>\\z", "\\x\\\\z"));
    assert!(!matches_exact("machine\\system\\services\\<name>", "machine\\system\\services\\"));
    assert!(!matches_exact("machine\\system\\services\\<name>", "machine\\system\\services"));
}

#[test]
fn key_query_reaches_a_wildcards_attached_values() {
    // `regman "Machine\System\Services\sshd"` must collect both the key doc
    // and every value hanging off it.
    assert!(matches_under_key(
        "machine\\system\\services\\<name>",
        "machine\\system\\services\\sshd"
    ));
    assert!(matches_under_key(
        "machine\\system\\services\\<name> imagepath",
        "machine\\system\\services\\sshd"
    ));
    // ...but not a sibling subkey's values.
    assert!(!matches_under_key(
        "machine\\system\\services\\<name>\\timerstate",
        "machine\\system\\services\\sshd"
    ));
}

#[test]
fn several_wildcards_in_one_anchor() {
    assert!(matches_exact("\\x\\<a>\\z\\<b>", "\\x\\one\\z\\two"));
    assert!(!matches_exact("\\x\\<a>\\z\\<b>", "\\x\\one\\z"));
}

#[test]
fn partial_component_wildcard_backtracks() {
    // Odd but legal: the wildcard's extent is not fixed by what follows.
    assert!(matches_exact("\\x\\svc-<n>-x", "\\x\\svc-foo-x"));
    assert!(!matches_exact("\\x\\svc-<n>-x", "\\x\\svc-foo-y"));
}

#[test]
fn unterminated_angle_bracket_is_literal() {
    assert!(matches_exact("\\x\\<y", "\\x\\<y"));
    assert!(!matches_exact("\\x\\<y", "\\x\\b"));
}

#[test]
fn has_wildcard_gates_the_slow_path() {
    assert!(has_wildcard("machine\\system\\services\\<name>"));
    assert!(!has_wildcard("machine\\system\\kmes buffercapacity"));
}

#[test]
fn spanning_wildcard_crosses_separators() {
    // A PNP exception nests arbitrarily; one record answers at every depth.
    let a = "machine\\system\\network\\rules\\<layer>\\<rule...> actions";
    assert!(matches_exact(a, "machine\\system\\network\\rules\\packet\\ssh actions"));
    assert!(matches_exact(
        a,
        "machine\\system\\network\\rules\\packet\\ssh\\from-lan actions"
    ));
    assert!(matches_exact(
        a,
        "machine\\system\\network\\rules\\packet\\ssh\\from-lan\\not-vpn actions"
    ));
}

#[test]
fn spanning_wildcard_still_will_not_cross_the_value_separator() {
    // The one rule that must survive: `...` spans `\`, never the space, or
    // a key-path wildcard could swallow the value name after it.
    assert!(!matches_exact(
        "machine\\system\\network\\rules\\<layer>\\<rule...>",
        "machine\\system\\network\\rules\\packet\\ssh actions"
    ));
    assert!(!matches_exact("\\x\\<y...>\\z", "\\x\\a b\\z"));
}

#[test]
fn spanning_wildcard_requires_at_least_one_component() {
    // `Rules\Packet` has its own page; the family must not answer for it.
    assert!(!matches_exact(
        "machine\\system\\network\\rules\\<layer>\\<rule...>",
        "machine\\system\\network\\rules\\packet"
    ));
    assert!(!matches_exact(
        "machine\\system\\network\\rules\\<layer>\\<rule...>",
        "machine\\system\\network\\rules\\packet\\"
    ));
}

#[test]
fn a_spanning_wildcard_does_not_make_its_neighbours_span() {
    // `<a>` is still one component beside a spanning sibling, so a literal
    // the spanning one cannot reach past still pins it: `<a>` alone has to
    // cover `one\two`, and it cannot.
    assert!(!matches_exact("\\x\\<a>\\z\\<b...>", "\\x\\one\\two\\z\\three"));
    assert!(matches_exact("\\x\\<a>\\z\\<b...>", "\\x\\one\\z\\two\\three"));
}

#[test]
fn key_query_reaches_a_spanning_wildcards_attached_values() {
    assert!(matches_under_key(
        "machine\\system\\network\\rules\\<layer>\\<rule...> actions",
        "machine\\system\\network\\rules\\packet\\ssh\\from-lan"
    ));
    // ...but the family is not listed under the layer key, which is a
    // concrete page of its own: those rules are subkeys, not its values.
    assert!(!matches_under_key(
        "machine\\system\\network\\rules\\<layer>\\<rule...> actions",
        "machine\\system\\network\\rules\\packet"
    ));
}

#[test]
fn spans_components_mirrors_the_matcher() {
    assert!(spans_components("\\x\\<y...>"));
    assert!(spans_components("\\x\\<a>\\<b...>\\z"));
    assert!(!spans_components("\\x\\<y>"));
    assert!(!spans_components("\\x\\<a>\\<b>"));
    assert!(!spans_components("machine\\system\\kmes buffercapacity"));
    // A `...` outside the brackets is ordinary text, not a modifier.
    assert!(!spans_components("\\x\\<y>..."));
    // Unterminated: `walk` treats it literally, and so must this.
    assert!(!spans_components("\\x\\<y..."));
}

#[test]
fn dots_outside_the_brackets_do_not_span() {
    assert!(!matches_exact("\\x\\<y>...\\z", "\\x\\a\\b...\\z"));
    assert!(matches_exact("\\x\\<y>...\\z", "\\x\\a...\\z"));
}
