use peiosutils::reg::addr::{display_value_name, KeyPath, ValueTarget};

#[test]
fn parse_accepts_both_separators() {
    let a = KeyPath::parse("Machine/System/App").unwrap();
    let b = KeyPath::parse(r"Machine\System\App").unwrap();
    assert_eq!(a, b);
    assert_eq!(a.to_abi(), r"Machine\System\App");
    assert_eq!(a.display('/'), "Machine/System/App");
}

#[test]
fn parse_collapses_and_strips() {
    let p = KeyPath::parse("/Machine//System/").unwrap();
    assert_eq!(p.to_abi(), r"Machine\System");
    assert_eq!(p.leaf(), "System");
    assert_eq!(p.parent().unwrap().to_abi(), "Machine");
}

#[test]
fn empty_path_rejected() {
    assert!(KeyPath::parse("").is_err());
    assert!(KeyPath::parse("///").is_err());
}

#[test]
fn value_target_default_and_named() {
    assert_eq!(ValueTarget::from_arg(None), ValueTarget::Key);
    assert_eq!(ValueTarget::from_arg(Some("@")), ValueTarget::Value(Vec::new()));
    assert_eq!(ValueTarget::from_arg(Some("Theme")), ValueTarget::Value(b"Theme".to_vec()));
}

#[test]
fn a_child_path_extends_and_its_parent_undoes_it() {
    let p = KeyPath::parse("Machine").unwrap();
    let c = p.child("System");
    assert_eq!(c.to_abi(), r"Machine\System");
    assert_eq!(c.parent().unwrap(), p);
    assert!(p.parent().is_none());
}

#[test]
fn value_names_display_lossily() {
    assert_eq!(display_value_name(b"Theme"), "Theme");
    assert_eq!(display_value_name(&[0x61, 0xff]), "a\u{fffd}");
}
