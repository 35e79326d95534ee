use peiosutils::regman::cmd::show::{lookup_of, normalize, term_width, Lookup};

#[test]
fn normalize_slashes_and_trailing() {
    assert_eq!(normalize("Machine/System/KMES"), "Machine\\System\\KMES");
    assert_eq!(normalize("Machine\\System\\KMES\\"), "Machine\\System\\KMES");
    assert_eq!(normalize("Machine\\System\\KMES"), "Machine\\System\\KMES");
}

#[test]
fn the_width_follows_columns_less_a_margin() {
    assert_eq!(term_width(None), 78);
    assert_eq!(term_width(Some("120")), 118);
    assert_eq!(term_width(Some("20")), 18);
    assert_eq!(term_width(Some("19")), 78);
    assert_eq!(term_width(Some("wide")), 78);
    assert_eq!(term_width(Some("+100")), 98);
}

#[test]
fn a_lookup_folds_what_it_searches_for() {
    match lookup_of("Machine/System/KMES/", Some("BufferCapacity")) {
        Lookup::Exact { anchor, label } => {
            assert_eq!(anchor, "machine\\system\\kmes buffercapacity");
            assert_eq!(label, "Machine\\System\\KMES BufferCapacity");
        }
        Lookup::Key { .. } => panic!("expected an exact lookup"),
    }
    match lookup_of("Machine\\System\\KMES", None) {
        Lookup::Key { folded, path } => {
            assert_eq!(folded, "machine\\system\\kmes");
            assert_eq!(path, "Machine\\System\\KMES");
        }
        Lookup::Exact { .. } => panic!("expected a key lookup"),
    }
}
