use peiosutils::reg::literal::{
    decode_multi, decode_sz, format_bare, format_human, hex, is_surprising_coercion, json_data, parse,
    to_token, type_keyword, value_type_name, JsonData, ValueType,
};

fn rt(token: &str) -> (String, String) {
    let (ty, bytes) = parse(token).unwrap();
    (type_keyword(ty), format_human(ty, &bytes))
}

#[test]
fn infer_numbers_broadly() {
    assert_eq!(rt("4096"), ("dword".into(), "4096".into()));
    assert_eq!(rt("007"), ("dword".into(), "7".into()));
    assert_eq!(rt("0x2A"), ("dword".into(), "42".into()));
    assert_eq!(rt("9000000000"), ("qword".into(), "9000000000".into()));
}

#[test]
fn infer_strings() {
    assert_eq!(rt("hello"), ("sz".into(), "\"hello\"".into()));
    assert_eq!(rt("http://x"), ("sz".into(), "\"http://x\"".into()));
}

#[test]
fn explicit_overrides_inference() {
    assert_eq!(rt("sz:4096"), ("sz".into(), "\"4096\"".into()));
    assert_eq!(rt("sz:dword:42"), ("sz".into(), "\"dword:42\"".into()));
    assert_eq!(rt("qword:5"), ("qword".into(), "5".into()));
}

#[test]
fn multi_sz_roundtrip() {
    let (ty, bytes) = parse("multi:alpha,beta").unwrap();
    assert_eq!(ty, ValueType::MultiSz);
    assert_eq!(decode_multi(&bytes), vec!["alpha", "beta"]);
    let (_, b2) = parse(r"multi:a\,b,c").unwrap();
    assert_eq!(decode_multi(&b2), vec!["a,b", "c"]);
}

#[test]
fn hex_parses() {
    let (ty, bytes) = parse("hex:de:ad-be ef").unwrap();
    assert_eq!(ty, ValueType::Binary);
    assert_eq!(bytes, vec![0xde, 0xad, 0xbe, 0xef]);
}

#[test]
fn sz_has_nul_terminator() {
    let (_, bytes) = parse("sz:hi").unwrap();
    assert_eq!(bytes, b"hi\0");
    assert_eq!(decode_sz(&bytes), "hi");
}

#[test]
fn type_names_are_canonical() {
    assert_eq!(value_type_name(ValueType::Dword), "REG_DWORD");
    assert_eq!(value_type_name(ValueType::Other(0x2a)), "REG(0x2a)");
    assert_eq!(type_keyword(ValueType::DwordBigEndian), "dword-be");
    assert_eq!(type_keyword(ValueType::Other(255)), "0xff");
}

#[test]
fn bad_tokens_are_refused() {
    assert!(parse("dword:x").is_err());
    assert!(parse("dword:4294967296").is_err());
    assert!(parse("hex:abc").is_err());
    assert!(parse("none:x").is_err());
    assert!(parse("none:").is_ok());
}

#[test]
fn tokens_round_trip_through_to_token() {
    for t in ["sz:hello", "dword:42", "qword:9000000000", "hex:deadbeef", "multi:a\\,b,c", "none:"] {
        let (ty, bytes) = parse(t).unwrap();
        let back = to_token(ty, &bytes);
        assert_eq!(parse(&back).unwrap(), (ty, bytes), "{t} -> {back}");
    }
}

#[test]
fn bare_and_json_views() {
    let (ty, bytes) = parse("multi:x,y").unwrap();
    assert_eq!(format_bare(ty, &bytes), "x\ny");
    assert_eq!(json_data(ty, &bytes), JsonData::List(vec!["x".into(), "y".into()]));
    let (ty, bytes) = parse("dword:7").unwrap();
    assert_eq!(json_data(ty, &bytes), JsonData::Number(7));
    assert_eq!(hex(&[0x0a, 0xff]), "0aff");
    assert_eq!(format_human(ValueType::NoneType, &[]), "(none)");
}

#[test]
fn surprising_coercions_are_flagged() {
    assert!(is_surprising_coercion("007", ValueType::Dword));
    assert!(is_surprising_coercion("0x10", ValueType::Dword));
    assert!(!is_surprising_coercion("42", ValueType::Dword));
    assert!(!is_surprising_coercion("dword:007", ValueType::Dword));
    assert!(!is_surprising_coercion("007", ValueType::Sz));
}

#[test]
fn every_kind_of_value_reads_back_from_its_token() {
    let cases: Vec<(ValueType, Vec<u8>)> = vec![
        (ValueType::Binary, vec![0x00, 0xde, 0xad, 0xbe, 0xef, 0xff]),
        (ValueType::Binary, vec![]),
        (ValueType::DwordBigEndian, vec![0x12, 0x34, 0x56, 0x78]),
        (ValueType::MultiSz, b"a,b\0c\\d\0\0".to_vec()),
        (ValueType::MultiSz, b"\0".to_vec()),
        (ValueType::ExpandSz, b"%SystemRoot%\\x\0".to_vec()),
        (ValueType::Link, b"\\Registry\\Machine\0".to_vec()),
        (ValueType::NoneType, vec![]),
    ];
    for (ty, data) in cases {
        let token = to_token(ty, &data);
        let (back_ty, back) = parse(&token).unwrap();
        assert_eq!(back_ty, ty, "{token}");
        assert_eq!(back, data, "{token}");
    }
    assert_eq!(to_token(ValueType::MultiSz, b"a,b\0c\\d\0\0"), "multi:a\\,b,c\\\\d");
    assert_eq!(decode_multi(b"a,b\0c\\d\0\0"), vec!["a,b", "c\\d"]);
}
