use peiosutils::regman::corpus::{fragments, is_fragment, provider_of};
use peiosutils::regman::index::{collect, load, serialize};
use peiosutils::regman::query::{distinct_files, hit_at, resolve_exact, resolve_key, Location};
use peiosutils::regman::scan::{
    apropos, contains, corpus_exact, corpus_key, file_exact, file_key, is_exact, is_under_key, sort_by_provider,
    FragmentFile, Hit,
};

const KMES: &str = "\
--- machine\\system\\kmes
canonical: Machine\\System\\KMES

KMES config subtree.

--- machine\\system\\kmes buffercapacity
canonical: Machine\\System\\KMES BufferCapacity
type: REG_QWORD
default: 4194304
applies: live

Per-CPU ring buffer capacity.

--- machine\\system\\kmesfoo
canonical: Machine\\System\\KMESFoo

A sibling key that must NOT match a kmes prefix query.
";

fn frag(path: &str, text: &str) -> FragmentFile {
    FragmentFile { path: path.to_string(), provider: provider_of(path), text: text.to_string() }
}

fn corpus() -> Vec<FragmentFile> {
    vec![frag("/usr/share/regman/kmes.regman", KMES)]
}

#[test]
fn under_key_predicate_rejects_sibling_prefix() {
    assert!(is_under_key("machine\\system\\kmes", "machine\\system\\kmes"));
    assert!(is_under_key("machine\\system\\kmes buffercapacity", "machine\\system\\kmes"));
    assert!(!is_under_key("machine\\system\\kmesfoo", "machine\\system\\kmes"));
}

#[test]
fn exact_finds_one_value() {
    let hits = corpus_exact(&corpus(), "machine\\system\\kmes buffercapacity");
    assert_eq!(hits.len(), 1);
    assert_eq!(hits[0].provider, "kmes");
    assert_eq!(hits[0].record.canonical, "Machine\\System\\KMES BufferCapacity");
}

#[test]
fn exact_miss_is_empty() {
    assert!(corpus_exact(&corpus(), "machine\\system\\kmes nope").is_empty());
}

#[test]
fn key_returns_key_doc_and_its_values_only() {
    let hits = corpus_key(&corpus(), "machine\\system\\kmes");
    let anchors: Vec<_> = hits.iter().map(|h| h.record.anchor.as_str()).collect();
    assert_eq!(anchors, vec!["machine\\system\\kmes", "machine\\system\\kmes buffercapacity"]);
    assert!(!anchors.iter().any(|a| a.contains("kmesfoo")));
}

#[test]
fn apropos_matches_name_and_summary_case_insensitively() {
    let hits = apropos(&corpus(), &["CAPACITY".to_string()]);
    assert_eq!(hits.len(), 1);
    assert_eq!(hits[0].record.canonical, "Machine\\System\\KMES BufferCapacity");
}

#[test]
fn apropos_requires_all_terms() {
    assert!(apropos(&corpus(), &["buffer".into(), "nonsense".into()]).is_empty());
    let hits = apropos(&corpus(), &["per-cpu".into(), "ring".into()]);
    assert_eq!(hits.len(), 1);
}

#[test]
fn apropos_orders_by_folded_name_then_provider() {
    let files = vec![
        frag("/d/zeta.regman", "--- b\ncanonical: B\n\nshared word\n"),
        frag("/d/alpha.regman", "--- b\ncanonical: B\n\nshared word\n--- a\ncanonical: a\n\nshared word\n"),
    ];
    let hits = apropos(&files, &["shared".into()]);
    let order: Vec<(&str, &str)> = hits.iter().map(|h| (h.record.canonical.as_str(), h.provider.as_str())).collect();
    assert_eq!(order, vec![("a", "alpha"), ("B", "alpha"), ("B", "zeta")]);
}

#[test]
fn a_text_without_the_query_bytes_is_skipped_unparsed() {
    let f = frag("/d/x.regman", KMES);
    assert!(file_exact(&f, "machine\\system\\other").is_empty());
    assert_eq!(file_key(&f, "machine\\system\\kmes").len(), 2);
    assert!(contains(b"hello world", b"o w"));
    assert!(!contains(b"hello", b"world"));
    assert!(contains(b"", b""));
}

#[test]
fn hits_sort_by_provider_then_anchor_keeping_ties_in_order() {
    let mk = |p: &str, a: &str, c: &str| {
        let (recs, _) = peiosutils::regman::fragment::parse(&format!("--- {a}\ncanonical: {c}\n\nx\n"));
        Hit { provider: p.to_string(), file: String::new(), record: recs.into_iter().next().unwrap() }
    };
    let mut hits = vec![mk("b", "k", "1"), mk("a", "z", "2"), mk("b", "a", "3"), mk("b", "k", "4")];
    sort_by_provider(&mut hits);
    let order: Vec<&str> = hits.iter().map(|h| h.record.canonical.as_str()).collect();
    assert_eq!(order, vec!["2", "3", "1", "4"]);
}

#[test]
fn provider_is_file_stem() {
    assert_eq!(provider_of("/usr/share/regman/kmes.regman"), "kmes");
    assert_eq!(provider_of("/d/.hidden"), ".hidden");
    assert_eq!(provider_of("/d/a.b.regman"), "a.b");
    assert_eq!(provider_of("/"), "?");
}

#[test]
fn lists_only_regman_files_sorted() {
    let entries = vec![
        "/t/b.regman".to_string(),
        "/t/a.regman".to_string(),
        "/t/note.txt".to_string(),
        "/t/.index".to_string(),
    ];
    let got: Vec<String> = fragments(&entries).iter().map(|p| provider_of(p)).collect();
    assert_eq!(got, vec!["a", "b"]);
    assert!(is_fragment("x.regman"));
    assert!(!is_fragment(".regman"));
}

fn built(files: &[FragmentFile]) -> Vec<u8> {
    let (entries, table) = collect(files);
    serialize(&entries, &table)
}

#[test]
fn exact_lookup_round_trips_offset() {
    let files = corpus();
    let idx = load(built(&files)).unwrap();
    assert!(idx.is_sound());
    let locs = idx.lookup_exact("machine\\system\\kmes buffercapacity");
    assert_eq!(locs.len(), 1);
    assert_eq!(locs[0].file, files[0].path);
    assert!(KMES[locs[0].offset as usize..].starts_with("--- machine\\system\\kmes buffercapacity"));
}

#[test]
fn exact_miss_empty() {
    let idx = load(built(&corpus())).unwrap();
    assert!(idx.lookup_exact("machine\\system\\kmes nope").is_empty());
}

#[test]
fn key_lookup_excludes_sibling() {
    let idx = load(built(&corpus())).unwrap();
    let locs = idx.lookup_key("machine\\system\\kmes");
    assert_eq!(locs.len(), 2);
    for l in &locs {
        assert!(!KMES[l.offset as usize..].starts_with("--- machine\\system\\kmesfoo"));
    }
}

#[test]
fn multi_provider_lists_all_locations() {
    let mut files = corpus();
    files.push(frag(
        "/usr/share/regman/other.regman",
        "--- machine\\system\\kmes buffercapacity\ncanonical: Machine\\System\\KMES BufferCapacity\ntype: REG_QWORD\n\nA second package.\n",
    ));
    let idx = load(built(&files)).unwrap();
    assert_eq!(idx.lookup_exact("machine\\system\\kmes buffercapacity").len(), 2);
}

#[test]
fn a_malformed_index_does_not_load() {
    assert!(load(Vec::new()).is_none());
    assert!(load(b"NOTANIDXxxxxxxxxxxxxxxxxxxxxxxxxxxxxxxxxxxxxxxx".to_vec()).is_none());
    let mut b = built(&corpus());
    b[8] = 2;
    assert!(load(b).is_none());
}

/// The cascade against an in-memory corpus and a (possibly stale) index:
/// tier 1 reads the recorded locations, tier 2 rescans the files they name,
/// tier 3 scans everything.
fn resolve(files: &[FragmentFile], index: Option<Vec<u8>>, folded: &str, under_key: bool) -> Vec<Hit> {
    let locs = index.and_then(load).map(|ix| if under_key { ix.lookup_key(folded) } else { ix.lookup_exact(folded) });
    if under_key {
        resolve_key(files, locs, folded)
    } else {
        resolve_exact(files, locs, folded)
    }
}

#[test]
fn tier1_exact_hit() {
    let files = corpus();
    let hits = resolve(&files, Some(built(&files)), "machine\\system\\kmes buffercapacity", false);
    assert_eq!(hits.len(), 1);
    assert_eq!(hits[0].record.canonical, "Machine\\System\\KMES BufferCapacity");
}

#[test]
fn no_index_falls_to_global_scan() {
    let hits = resolve(&corpus(), None, "machine\\system\\kmes buffercapacity", false);
    assert_eq!(hits.len(), 1);
}

#[test]
fn stale_pointer_degrades_to_whole_file_then_finds_it() {
    let mut files = corpus();
    let idx = built(&files);
    files[0].text = format!(
        "--- machine\\system\\kmes prelude\ncanonical: Machine\\System\\KMES Prelude\ntype: REG_DWORD\n\nAdded later.\n\n{KMES}"
    );
    let hits = resolve(&files, Some(idx), "machine\\system\\kmes buffercapacity", false);
    assert_eq!(hits.len(), 1);
    assert_eq!(hits[0].record.canonical, "Machine\\System\\KMES BufferCapacity");
}

#[test]
fn deleted_file_degrades_to_global_scan() {
    let files = corpus();
    let idx = built(&files);
    let moved = vec![frag("/usr/share/regman/renamed.regman", KMES)];
    let hits = resolve(&moved, Some(idx), "machine\\system\\kmes buffercapacity", false);
    assert_eq!(hits.len(), 1);
    assert_eq!(hits[0].provider, "renamed");
}

#[test]
fn key_query_returns_doc_and_value() {
    let files = corpus();
    let hits = resolve(&files, Some(built(&files)), "machine\\system\\kmes", true);
    assert_eq!(hits.len(), 2);
}

#[test]
fn a_pointer_is_confirmed_against_the_record_there() {
    let loc = Location { file: "/d/kmes.regman".to_string(), offset: 0 };
    assert!(hit_at(&loc, KMES, "machine\\system\\kmes", false).is_some());
    assert!(hit_at(&loc, KMES, "machine\\system\\kmes buffercapacity", false).is_none());
    let files = distinct_files(&[
        Location { file: "/b".to_string(), offset: 0 },
        Location { file: "/a".to_string(), offset: 1 },
        Location { file: "/b".to_string(), offset: 2 },
    ]);
    assert_eq!(files, vec!["/a".to_string(), "/b".to_string()]);
    assert!(is_exact("x", "x") && !is_exact("x", "y"));
}
