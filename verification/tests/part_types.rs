use peiosutils::part::guid::Guid;
use peiosutils::part::types::{alias, aliases, describe, resolve, ESP, LINUX, SWAP};

#[test]
fn aliases_resolve() {
    assert_eq!(resolve("esp"), Guid::parse(ESP));
    assert_eq!(resolve("ESP"), Guid::parse(ESP));
    assert_eq!(resolve("linux"), Guid::parse(LINUX));
    assert_eq!(resolve("swap"), Guid::parse(SWAP));
}

#[test]
fn raw_guids_resolve_in_either_case() {
    assert_eq!(resolve(ESP), Guid::parse(ESP));
    assert_eq!(resolve(&ESP.to_lowercase()), Guid::parse(ESP));
}

#[test]
fn nonsense_does_not_resolve() {
    assert!(resolve("").is_none());
    assert!(resolve("not-a-type").is_none());
    assert!(resolve("esp2").is_none());
    assert!(resolve("linux-root").is_none());
}

#[test]
fn every_alias_is_a_parseable_guid_and_round_trips() {
    for (name, guid, _) in aliases() {
        let g = Guid::parse(guid).unwrap_or_else(|| panic!("{name} has a bad GUID"));
        assert_eq!(g.to_text(), guid, "{name} must be canonical uppercase");
        assert!(describe(&g).is_some(), "{name} should describe");
        assert_eq!(alias(&g), Some(name));
    }
}

#[test]
fn describe_is_none_for_an_unknown_type() {
    let unknown = Guid::parse("11111111-2222-3333-4444-555555555555").unwrap();
    assert!(describe(&unknown).is_none());
    assert!(alias(&unknown).is_none());
}

#[test]
fn the_esp_is_described_in_words() {
    let g = Guid::parse(ESP).unwrap();
    assert_eq!(describe(&g), Some("EFI system partition"));
    assert_eq!(alias(&g), Some("esp"));
}
