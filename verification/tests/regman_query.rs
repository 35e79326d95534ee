use peiosutils::regman::corpus::provider_of;
use peiosutils::regman::index::{collect, load, serialize};
use peiosutils::regman::query::{after_files, after_pointers, begin, resolve_exact, resolve_key, Location, Step};
use peiosutils::regman::scan::FragmentFile;

const FRAG: &str = "\
--- machine\\system\\kmes
canonical: Machine\\System\\KMES

KMES subtree.

--- machine\\system\\kmes buffercapacity
canonical: Machine\\System\\KMES BufferCapacity
type: REG_QWORD

Ring buffer capacity.
";

const ANCHOR: &str = "machine\\system\\kmes buffercapacity";

fn frag(path: &str, text: &str) -> FragmentFile {
    FragmentFile { path: path.to_string(), provider: provider_of(path), text: text.to_string() }
}

/// What an index built from `files` records for a query.
fn recorded(files: &[FragmentFile], folded: &str, key: bool) -> Option<Vec<Location>> {
    let (entries, table) = collect(files);
    let ix = load(serialize(&entries, &table))?;
    assert!(ix.is_sound());
    Some(if key { ix.lookup_key(folded) } else { ix.lookup_exact(folded) })
}

#[test]
fn an_index_for_the_same_corpus_answers_from_its_pointers() {
    let files = vec![frag("/srv/regman/kmes.regman", FRAG)];
    let rec = recorded(&files, ANCHOR, false);
    assert_eq!(rec.as_ref().map(Vec::len), Some(1));
    let hits = resolve_exact(&files, rec, ANCHOR);
    assert_eq!(hits.len(), 1);
    assert_eq!(hits[0].provider, "kmes");
    let rec = recorded(&files, "machine\\system\\kmes", true);
    assert_eq!(resolve_key(&files, rec, "machine\\system\\kmes").len(), 2);
}

#[test]
fn an_index_that_points_nowhere_never_invents_a_hit() {
    let files = vec![frag("/srv/regman/kmes.regman", FRAG)];
    let bogus = vec![Location { file: "/srv/regman/kmes.regman".to_string(), offset: 3 }];
    let hits = resolve_exact(&files, Some(bogus), "machine\\system\\kmes nothing");
    assert!(hits.is_empty());
}

#[test]
fn the_steps_fall_through_to_the_corpus() {
    assert!(matches!(begin(None), Step::ScanCorpus));
    assert!(matches!(begin(Some(Vec::new())), Step::ScanCorpus));
    let locs = vec![Location { file: "/b".to_string(), offset: 0 }, Location { file: "/a".to_string(), offset: 9 }];
    assert!(matches!(begin(Some(locs.clone())), Step::ReadPointers(ref l) if l.len() == 2));
    match after_pointers(&locs, vec![None, None]) {
        Step::ScanFiles(files) => assert_eq!(files, vec!["/a".to_string(), "/b".to_string()]),
        _ => panic!("a stale pointer rescans the named files"),
    }
    assert!(matches!(after_files(Vec::new()), Step::ScanCorpus));
}
