//! Resolving a query through the optional index: a soft-failure cascade in
//! which a stale index costs speed, never correctness.
//!
//!   1. exact pointer: read the recorded location, confirm the anchor there;
//!   2. whole file: rescan the files the index named;
//!   3. global: scan the whole corpus, the authoritative backstop.
//!
//! A miss in the index goes straight to the global scan. The reading is the
//! caller's; the decisions between tiers are here.
use crate::regman::corpus::{insert_path, provider_of, provider_text};
use crate::regman::fragment::{parse, parse_text, record_texts, Record, RecordText};
use crate::regman::scan::{
    all_fit, as_hits, bytes_less, bytes_lt, bytes_same, corpus_exact, corpus_hits, corpus_key, enc, file_exact,
    file_key, hit_view, hit_views, scanned, sort_by_provider, sorted_hits, strings_view, wanted, FragmentFile, Hit,
};
use vstd::prelude::*;

verus! {

/// A recorded location of a documented record.
#[derive(Debug, Clone)]
pub struct Location {
    pub file: String,
    pub offset: u64,
}

/// The first of `rs` that starts at `offset` and that the query wants.
pub open spec fn record_at_offset(rs: Seq<RecordText>, offset: int, folded: Seq<char>, under_key: bool) -> Option<RecordText>
    decreases rs.len(),
{
    if rs.len() == 0 {
        None
    } else if rs[0].fence_offset == offset && wanted(rs[0], folded, under_key) {
        Some(rs[0])
    } else {
        record_at_offset(rs.drop_first(), offset, folded, under_key)
    }
}

/// The hit a recorded location yields, read against its file's text: the
/// record that starts there, if it still matches the query.
pub open spec fn hit_at_text(loc_file: Seq<char>, offset: int, text: Seq<char>, folded: Seq<char>, under_key: bool) -> Option<(Seq<char>, Seq<char>, RecordText)> {
    match record_at_offset(parse_text(enc(text)).0, offset, folded, under_key) {
        Some(r) => Some((provider_text(loc_file), loc_file, r)),
        None => None,
    }
}

pub open spec fn opt_hit_view(h: Option<Hit>) -> Option<(Seq<char>, Seq<char>, RecordText)> {
    match h {
        Some(x) => Some(hit_view(x)),
        None => None,
    }
}

/// Read the record at a recorded location from its file's text and confirm
/// that it still matches; `None` means the pointer is stale.
pub fn hit_at(loc: &Location, text: &str, folded: &str, under_key: bool) -> (h: Option<Hit>)
    requires
        enc(text@).len() < usize::MAX,
    ensures
        opt_hit_view(h) == hit_at_text(loc.file@, loc.offset as int, text@, folded@, under_key),
{
    let parsed = parse(text);
    let records = parsed.0;
    let ghost all = record_texts(records@);
    assert(all == parse_text(enc(text@)).0);
    assert(all.skip(0) =~= all);
    let mut i: usize = 0;
    while i < records.len()
        invariant
            i <= records@.len(),
            all == record_texts(records@),
            all == parse_text(enc(text@)).0,
            record_at_offset(all, loc.offset as int, folded@, under_key) == record_at_offset(
                all.skip(i as int),
                loc.offset as int,
                folded@,
                under_key,
            ),
        decreases records@.len() - i,
    {
        assert(all.skip(i as int).drop_first() =~= all.skip(i + 1));
        assert(all.skip(i as int)[0] == records@[i as int].text());
        let r = &records[i];
        let fits = r.fence_offset as u64 == loc.offset;
        let keep = fits && if under_key {
            crate::regman::scan::is_under_key(r.anchor.as_str(), folded)
        } else {
            crate::regman::scan::is_exact(r.anchor.as_str(), folded)
        };
        if keep {
            assert(r.text().fence_offset == loc.offset as int);
            assert(wanted(r.text(), folded@, under_key));
            let hit = Hit { provider: provider_of(loc.file.as_str()), file: loc.file.clone(), record: r.copy() };
            assert(record_at_offset(all, loc.offset as int, folded@, under_key) == Some(r.text()));
            assert(hit_view(hit) == (provider_text(loc.file@), loc.file@, r.text()));
            return Some(hit);
        }
        i += 1;
    }
    assert(all.skip(records@.len() as int) =~= Seq::<RecordText>::empty());
    None
}

/// `x` added to the ordered, distinct `s` unless already there.
pub open spec fn insert_distinct(s: Seq<Seq<char>>, x: Seq<char>) -> Seq<Seq<char>>
    decreases s.len(),
{
    if s.len() == 0 {
        seq![x]
    } else if bytes_lt(enc(x), enc(s.last())) {
        insert_distinct(s.drop_last(), x).push(s.last())
    } else if enc(x) == enc(s.last()) {
        s
    } else {
        s.push(x)
    }
}

pub open spec fn distinct_paths(ps: Seq<Seq<char>>) -> Seq<Seq<char>>
    decreases ps.len(),
{
    if ps.len() == 0 {
        Seq::empty()
    } else {
        insert_distinct(distinct_paths(ps.drop_last()), ps.last())
    }
}

pub open spec fn loc_files(locs: Seq<Location>) -> Seq<Seq<char>> {
    locs.map_values(|l: Location| l.file@)
}

proof fn lemma_insert_distinct_at(s: Seq<Seq<char>>, x: Seq<char>, p: int)
    requires
        0 <= p <= s.len(),
        forall|k: int| p <= k < s.len() ==> bytes_lt(enc(x), enc(#[trigger] s[k])),
        p == 0 || !bytes_lt(enc(x), enc(s[p - 1])),
    ensures
        p > 0 && enc(x) == enc(s[p - 1]) ==> insert_distinct(s, x) == s,
        !(p > 0 && enc(x) == enc(s[p - 1])) ==> insert_distinct(s, x) == s.take(p).push(x) + s.skip(p),
    decreases s.len(),
{
    if s.len() == 0 {
        assert(s.take(p).push(x) + s.skip(p) =~= seq![x]);
    } else if p == s.len() {
        assert(s.take(p) =~= s);
        assert(s.take(p).push(x) + s.skip(p) =~= s.push(x));
    } else {
        let t = s.drop_last();
        assert forall|k: int| p <= k < t.len() implies bytes_lt(enc(x), enc(#[trigger] t[k])) by {
            assert(t[k] == s[k]);
        }
        lemma_insert_distinct_at(t, x, p);
        assert(t.take(p) =~= s.take(p));
        assert(t.push(s.last()) =~= s);
        assert((t.take(p).push(x) + t.skip(p)).push(s.last()) =~= s.take(p).push(x) + s.skip(p));
    }
}

/// The files the locations name, each once, in byte order.
pub fn distinct_files(locs: &[Location]) -> (out: Vec<String>)
    ensures
        strings_view(out@) == distinct_paths(loc_files(locs@)),
{
    let ghost pv = loc_files(locs@);
    let mut out: Vec<String> = Vec::new();
    let mut i: usize = 0;
    while i < locs.len()
        invariant
            i <= locs@.len(),
            pv == loc_files(locs@),
            strings_view(out@) == distinct_paths(pv.take(i as int)),
        decreases locs@.len() - i,
    {
        assert(pv.take(i + 1).drop_last() =~= pv.take(i as int));
        let x = &locs[i].file;
        let ghost s = strings_view(out@);
        let mut p: usize = out.len();
        while p > 0 && bytes_less(x.as_str().as_bytes(), out[p - 1].as_str().as_bytes())
            invariant
                p <= out@.len(),
                s == strings_view(out@),
                forall|k: int| p <= k < s.len() ==> bytes_lt(enc(x@), enc(#[trigger] s[k])),
            decreases p,
        {
            p -= 1;
        }
        proof {
            lemma_insert_distinct_at(s, x@, p as int);
        }
        if p > 0 && bytes_same(x.as_str().as_bytes(), out[p - 1].as_str().as_bytes()) {
        } else {
            out.insert(p, x.clone());
            assert(strings_view(out@) =~= s.take(p as int).push(x@) + s.skip(p as int));
        }
        i += 1;
    }
    assert(pv.take(locs@.len() as int) =~= pv);
    out
}

/// Order hits by provider, then anchor, keeping the order of equal hits.
pub fn sort_hits(hits: &mut Vec<Hit>)
    ensures
        hit_views(final(hits)@) == sorted_hits(hit_views(old(hits)@)),
{
    sort_by_provider(hits);
}

/// What a lookup does next.
pub enum Step {
    /// Read the record at each recorded location (tier 1).
    ReadPointers(Vec<Location>),
    /// Rescan these files whole (tier 2).
    ScanFiles(Vec<String>),
    /// Scan the whole corpus (tier 3).
    ScanCorpus,
    /// The answer.
    Done(Vec<Hit>),
}

/// The first step, given what the index says of the anchor (`None` when no
/// index could be loaded): the recorded locations when there are any, else
/// the global scan.
pub fn begin(index_locations: Option<Vec<Location>>) -> (s: Step)
    ensures
        match index_locations {
            Some(locs) => if locs@.len() > 0 {
                s matches Step::ReadPointers(l) && l@ == locs@
            } else {
                s is ScanCorpus
            },
            None => s is ScanCorpus,
        },
{
    match index_locations {
        Some(locs) => if locs.len() > 0 {
            Step::ReadPointers(locs)
        } else {
            Step::ScanCorpus
        },
        None => Step::ScanCorpus,
    }
}

pub open spec fn all_found(found: Seq<Option<Hit>>) -> bool {
    forall|i: int| 0 <= i < found.len() ==> (#[trigger] found[i]) is Some
}

pub open spec fn found_views(found: Seq<Option<Hit>>) -> Seq<(Seq<char>, Seq<char>, RecordText)> {
    found.map_values(|h: Option<Hit>| hit_view(h->0))
}

/// After tier 1, given what each recorded location yielded: when every
/// pointer held and something was found, the answer, ordered; otherwise a
/// rescan of the files the index named.
pub fn after_pointers(locs: &[Location], found: Vec<Option<Hit>>) -> (s: Step)
    ensures
        all_found(found@) && found@.len() > 0 ==> (s matches Step::Done(hs) && hit_views(hs@)
            == sorted_hits(found_views(found@))),
        !(all_found(found@) && found@.len() > 0) ==> (s matches Step::ScanFiles(fs) && strings_view(fs@)
            == distinct_paths(loc_files(locs@))),
{
    let mut hits: Vec<Hit> = Vec::new();
    let mut stale = false;
    let mut i: usize = 0;
    while i < found.len()
        invariant
            i <= found@.len(),
            stale == !all_found(found@.take(i as int)),
            !stale ==> hit_views(hits@) == found_views(found@.take(i as int)),
        decreases found@.len() - i,
    {
        assert(found@.take(i + 1).drop_last() =~= found@.take(i as int));
        match &found[i] {
            Some(h) => {
                let c = Hit { provider: h.provider.clone(), file: h.file.clone(), record: h.record.copy() };
                assert(hit_views(hits@.push(c)) =~= hit_views(hits@).push(hit_view(c)));
                hits.push(c);
                if !stale {
                    assert(found_views(found@.take(i + 1)) =~= found_views(found@.take(i as int)).push(
                        hit_view(c),
                    ));
                }
            },
            None => {
                assert(found@.take(i + 1)[i as int] is None);
                assert(!all_found(found@.take(i + 1)));
                stale = true;
            },
        }
        if !stale {
            assert(all_found(found@.take(i + 1)));
        }
        i += 1;
    }
    assert(found@.take(found@.len() as int) =~= found@);
    if !stale && hits.len() > 0 {
        sort_hits(&mut hits);
        return Step::Done(hits);
    }
    Step::ScanFiles(distinct_files(locs))
}

/// After tier 2, given what rescanning the named files found: the answer,
/// ordered, when anything was found; otherwise the global scan.
pub fn after_files(hits: Vec<Hit>) -> (s: Step)
    ensures
        hits@.len() > 0 ==> (s matches Step::Done(hs) && hit_views(hs@) == sorted_hits(hit_views(hits@))),
        hits@.len() == 0 ==> s is ScanCorpus,
{
    if hits.len() > 0 {
        let mut h = hits;
        sort_hits(&mut h);
        Step::Done(h)
    } else {
        Step::ScanCorpus
    }
}

/// The fragment of `files` at `path`: the first listed there.
pub open spec fn file_at(files: Seq<FragmentFile>, path: Seq<char>) -> Option<FragmentFile>
    decreases files.len(),
{
    if files.len() == 0 {
        None
    } else if files[0].path@ == path {
        Some(files[0])
    } else {
        file_at(files.drop_first(), path)
    }
}

/// What each recorded location yields, read against the corpus.
pub open spec fn pointed(files: Seq<FragmentFile>, locs: Seq<Location>, folded: Seq<char>, under_key: bool) -> Seq<Option<(Seq<char>, Seq<char>, RecordText)>> {
    locs.map_values(
        |l: Location|
            match file_at(files, l.file@) {
                Some(f) => hit_at_text(l.file@, l.offset as int, f.text@, folded, under_key),
                None => None,
            },
    )
}

/// The hits of rescanning the named files that are in the corpus, in order.
pub open spec fn rescanned(files: Seq<FragmentFile>, names: Seq<Seq<char>>, folded: Seq<char>, under_key: bool) -> Seq<(Seq<char>, Seq<char>, RecordText)>
    decreases names.len(),
{
    if names.len() == 0 {
        Seq::empty()
    } else {
        rescanned(files, names.drop_last(), folded, under_key) + match file_at(files, names.last()) {
            Some(f) => as_hits(scanned(enc(f.text@), folded, under_key), f.provider@, f.path@),
            None => Seq::empty(),
        }
    }
}

pub open spec fn some_all<A>(s: Seq<Option<A>>) -> bool {
    forall|i: int| 0 <= i < s.len() ==> (#[trigger] s[i]) is Some
}

pub open spec fn unwrapped<A>(s: Seq<Option<A>>) -> Seq<A> {
    s.map_values(|o: Option<A>| o->0)
}

/// What the cascade answers, given the corpus and what the index recorded
/// for the query (`None`: no index could be read): every recorded pointer
/// when all of them still hold; else the named files rescanned, when that
/// finds anything; else the whole corpus. A miss goes straight to the
/// corpus.
pub open spec fn cascade(files: Seq<FragmentFile>, recorded: Option<Seq<Location>>, folded: Seq<char>, under_key: bool) -> Seq<(Seq<char>, Seq<char>, RecordText)> {
    let global = sorted_hits(corpus_hits(files, folded, under_key));
    match recorded {
        Some(locs) => if locs.len() == 0 {
            global
        } else {
            let found = pointed(files, locs, folded, under_key);
            if some_all(found) {
                sorted_hits(unwrapped(found))
            } else {
                let again = rescanned(files, distinct_paths(loc_files(locs)), folded, under_key);
                if again.len() > 0 {
                    sorted_hits(again)
                } else {
                    global
                }
            }
        },
        None => global,
    }
}

/// Where in `files` the fragment at `path` is.
fn find_file(files: &[FragmentFile], path: &str) -> (r: Option<usize>)
    ensures
        match r {
            Some(k) => k < files@.len() && file_at(files@, path@) == Some(files@[k as int]),
            None => file_at(files@, path@) is None,
        },
{
    let pb = path.as_bytes();
    let mut i: usize = 0;
    assert(files@.skip(0) =~= files@);
    while i < files.len()
        invariant
            i <= files@.len(),
            pb@ == enc(path@),
            file_at(files@, path@) == file_at(files@.skip(i as int), path@),
        decreases files@.len() - i,
    {
        assert(files@.skip(i as int).drop_first() =~= files@.skip(i + 1));
        assert(files@.skip(i as int)[0] == files@[i as int]);
        if bytes_same(files[i].path.as_str().as_bytes(), pb) {
            proof {
                vstd::utf8::encode_utf8_decode_utf8(files@[i as int].path@);
                vstd::utf8::encode_utf8_decode_utf8(path@);
            }
            return Some(i);
        }
        proof {
            if files@[i as int].path@ == path@ {
                assert(enc(files@[i as int].path@) == enc(path@));
            }
        }
        i += 1;
    }
    assert(files@.skip(files@.len() as int) =~= Seq::<FragmentFile>::empty());
    None
}

fn read_pointers(files: &[FragmentFile], locs: &Vec<Location>, folded: &str, under_key: bool) -> (found: Vec<Option<Hit>>)
    requires
        all_fit(files@),
    ensures
        found@.map_values(|h: Option<Hit>| opt_hit_view(h)) == pointed(files@, locs@, folded@, under_key),
{
    let mut found: Vec<Option<Hit>> = Vec::new();
    let mut i: usize = 0;
    while i < locs.len()
        invariant
            i <= locs@.len(),
            all_fit(files@),
            found@.map_values(|h: Option<Hit>| opt_hit_view(h)) == pointed(files@, locs@.take(i as int), folded@, under_key),
        decreases locs@.len() - i,
    {
        let l = &locs[i];
        let h = match find_file(files, l.file.as_str()) {
            Some(k) => {
                assert(crate::regman::scan::fits(files@[k as int]));
                hit_at(l, files[k].text.as_str(), folded, under_key)
            },
            None => None,
        };
        let ghost before = found@;
        found.push(h);
        assert(found@.map_values(|h: Option<Hit>| opt_hit_view(h)) =~= before.map_values(|h: Option<Hit>| opt_hit_view(h)).push(opt_hit_view(h)));
        assert(pointed(files@, locs@.take(i + 1), folded@, under_key) =~= pointed(files@, locs@.take(i as int), folded@, under_key).push(
            pointed(files@, locs@.take(i + 1), folded@, under_key)[i as int],
        ));
        i += 1;
    }
    assert(locs@.take(locs@.len() as int) =~= locs@);
    found
}

fn rescan(files: &[FragmentFile], names: &Vec<String>, folded: &str, under_key: bool) -> (hits: Vec<Hit>)
    requires
        all_fit(files@),
    ensures
        hit_views(hits@) == rescanned(files@, strings_view(names@), folded@, under_key),
{
    let ghost nv = strings_view(names@);
    let mut hits: Vec<Hit> = Vec::new();
    let mut i: usize = 0;
    while i < names.len()
        invariant
            i <= names@.len(),
            all_fit(files@),
            nv == strings_view(names@),
            hit_views(hits@) == rescanned(files@, nv.take(i as int), folded@, under_key),
        decreases names@.len() - i,
    {
        assert(nv.take(i + 1).drop_last() =~= nv.take(i as int));
        assert(nv.take(i + 1).last() == names@[i as int]@);
        match find_file(files, names[i].as_str()) {
            Some(k) => {
                assert(crate::regman::scan::fits(files@[k as int]));
                let more = if under_key {
                    file_key(&files[k], folded)
                } else {
                    file_exact(&files[k], folded)
                };
                let ghost before = hits@;
                let mut m = more;
                hits.append(&mut m);
                assert(hit_views(hits@) =~= hit_views(before) + hit_views(more@));
            },
            None => {},
        }
        i += 1;
    }
    assert(nv.take(names@.len() as int) =~= nv);
    hits
}

fn global(files: &[FragmentFile], folded: &str, under_key: bool) -> (hits: Vec<Hit>)
    requires
        all_fit(files@),
    ensures
        hit_views(hits@) == sorted_hits(corpus_hits(files@, folded@, under_key)),
{
    if under_key {
        corpus_key(files, folded)
    } else {
        corpus_exact(files, folded)
    }
}

pub open spec fn locations_of(recorded: Option<Vec<Location>>) -> Option<Seq<Location>> {
    match recorded {
        Some(v) => Some(v@),
        None => None,
    }
}

fn resolve(files: &[FragmentFile], recorded: Option<Vec<Location>>, folded: &str, under_key: bool) -> (hits: Vec<Hit>)
    requires
        all_fit(files@),
    ensures
        hit_views(hits@) == cascade(files@, locations_of(recorded), folded@, under_key),
{
    let ghost rec = locations_of(recorded);
    match begin(recorded) {
        Step::ReadPointers(locs) => {
            let found = read_pointers(files, &locs, folded, under_key);
            let ghost fv = found@.map_values(|h: Option<Hit>| opt_hit_view(h));
            proof {
                assert forall|i: int| 0 <= i < found@.len() implies ((#[trigger] found@[i]) is Some <==> fv[i] is Some) by {}
                if all_found(found@) {
                    assert(some_all(fv));
                    assert(found_views(found@) =~= unwrapped(fv));
                } else {
                    let j = choose|j: int| 0 <= j < found@.len() && !(found@[j] is Some);
                    assert(fv[j] is None);
                }
            }
            match after_pointers(&locs, found) {
                Step::Done(h) => h,
                Step::ScanFiles(names) => {
                    let again = rescan(files, &names, folded, under_key);
                    match after_files(again) {
                        Step::Done(h) => h,
                        _ => global(files, folded, under_key),
                    }
                },
                _ => global(files, folded, under_key),
            }
        },
        _ => global(files, folded, under_key),
    }
}

/// Resolve an exact `(path, value)` query against the corpus, through what
/// the index recorded for its folded anchor.
pub fn resolve_exact(files: &[FragmentFile], recorded: Option<Vec<Location>>, folded_anchor: &str) -> (hits: Vec<Hit>)
    requires
        all_fit(files@),
    ensures
        hit_views(hits@) == cascade(files@, locations_of(recorded), folded_anchor@, false),
{
    resolve(files, recorded, folded_anchor, false)
}

/// Resolve a key query (the key's record and the values directly under it)
/// against the corpus, through what the index recorded for its folded path.
pub fn resolve_key(files: &[FragmentFile], recorded: Option<Vec<Location>>, folded_path: &str) -> (hits: Vec<Hit>)
    requires
        all_fit(files@),
    ensures
        hit_views(hits@) == cascade(files@, locations_of(recorded), folded_path@, true),
{
    resolve(files, recorded, folded_path, true)
}

} // verus!
