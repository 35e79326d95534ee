use peiosutils::reg::listing::{
    order_values, set_echo, subkey_lines, tree_branch, tree_indent, tree_value, value_lines, SubkeyInfo,
    ValueRecord,
};
use peiosutils::reg::literal::ValueType;

fn rec(name: &str, ty: ValueType, data: &[u8]) -> ValueRecord {
    ValueRecord { name: name.as_bytes().to_vec(), ty, data: data.to_vec() }
}

#[test]
fn values_list_default_first_then_by_name_ignoring_case() {
    let v = vec![
        rec("beta", ValueType::Dword, &[1, 0, 0, 0]),
        rec("Alpha", ValueType::Sz, b"x\0"),
        rec("", ValueType::Sz, b"d\0"),
        rec("alpha", ValueType::Sz, b"y\0"),
    ];
    let names: Vec<String> =
        order_values(v).iter().map(|r| String::from_utf8(r.name.clone()).unwrap()).collect();
    assert_eq!(names, vec!["", "Alpha", "alpha", "beta"]);
}

#[test]
fn ls_lines_in_short_and_long_form() {
    let subs = vec![SubkeyInfo { name: b"Control".to_vec(), subkey_count: 3, value_count: 2 }];
    assert_eq!(subkey_lines(&subs, false), vec!["Control/"]);
    assert_eq!(subkey_lines(&subs, true), vec!["Control/   (3 subkeys, 2 values)"]);
    let (lines, ordered) = value_lines(
        vec![rec("Start", ValueType::Dword, &[2, 0, 0, 0]), rec("", ValueType::Sz, b"hi\0")],
        true,
    );
    assert_eq!(lines, vec!["(default) = REG_SZ \"hi\"   (3 bytes)", "Start = REG_DWORD 2   (4 bytes)"]);
    assert_eq!(ordered.len(), 2);
    let (short, _) = value_lines(vec![rec("Start", ValueType::Dword, &[2, 0, 0, 0])], false);
    assert_eq!(short, vec!["Start = 2"]);
}

#[test]
fn tree_branches_and_indents() {
    assert_eq!(tree_branch("", false, "A"), "├── A");
    assert_eq!(tree_branch("│   ", true, "B"), "│   └── B");
    assert_eq!(tree_indent("", true), "    ");
    assert_eq!(tree_indent("", false), "│   ");
    assert_eq!(tree_value("    ", &rec("N", ValueType::Dword, &[5, 0, 0, 0])), "      N = REG_DWORD 5");
}

#[test]
fn set_echoes_unless_quiet_and_unsurprising() {
    let echo = set_echo(false, "42", "Machine\\X", b"V", ValueType::Dword, &[42, 0, 0, 0], "base");
    assert_eq!(echo.as_deref(), Some("set Machine\\X V = REG_DWORD 42   (layer: base)"));
    assert_eq!(set_echo(true, "42", "Machine\\X", b"V", ValueType::Dword, &[42, 0, 0, 0], "base"), None);
    // A leading zero silently became a number: echoed even when quiet.
    assert!(set_echo(true, "042", "Machine\\X", b"V", ValueType::Dword, &[42, 0, 0, 0], "base").is_some());
}
