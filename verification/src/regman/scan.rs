//! The authoritative lookup: every record of a fragment's text whose anchor
//! matches, after a cheap substring pre-scan that rejects a text which
//! cannot hold one.
use crate::regman::fragment::{parse, parse_text, record_texts, summary_text, Record, RecordText};
use crate::regman::pattern::bytes_of;
use crate::regman::fold::{fold, fold_text};
use vstd::prelude::*;

verus! {

/// One matched record together with where it came from.
#[derive(Debug, Clone)]
pub struct Hit {
    pub provider: String,
    /// The fragment file the record was read from.
    pub file: String,
    pub record: Record,
}

/// Does `needle` occur in `hay` at `i`?
pub open spec fn occurs_at(hay: Seq<u8>, needle: Seq<u8>, i: int) -> bool {
    0 <= i && i + needle.len() <= hay.len() && hay.subrange(i, i + needle.len()) == needle
}

/// `memchr::memmem::find`: the index of the first occurrence of `needle` in
/// `hay`, as the crate documents it (an empty needle occurs at 0).
#[verifier::external_body]
fn memmem_find(hay: &[u8], needle: &[u8]) -> (r: Option<usize>)
    ensures
        r matches Some(i) ==> occurs_at(hay@, needle@, i as int) && forall|j: int|
            0 <= j < i ==> !occurs_at(hay@, needle@, j),
        r is None ==> forall|j: int| !occurs_at(hay@, needle@, j),
{
    memchr::memmem::find(hay, needle)
}

/// Does `anchor` denote the exact `(path, value)` named by `folded`?
pub fn is_exact(anchor: &str, folded: &str) -> (r: bool)
    ensures
        r == (anchor@ == folded@),
{
    crate::text::chars_eq(&crate::text::chars_of(anchor), &crate::text::chars_of(folded))
}

pub open spec fn under_key_bytes(a: Seq<u8>, q: Seq<u8>) -> bool {
    a == q || (a.len() > q.len() && a.take(q.len() as int) == q && a[q.len() as int] == 0x20)
}

/// Does `anchor` belong to the key `folded_path`: the key doc itself, or
/// one of its directly-attached values? The trailing-space test keeps a
/// sibling key (`...\kmesfoo`) from matching a prefix of `...\kmes`.
pub fn is_under_key(anchor: &str, folded_path: &str) -> (r: bool)
    ensures
        r == under_key_bytes(bytes_of(anchor), bytes_of(folded_path)),
{
    let a = anchor.as_bytes();
    let q = folded_path.as_bytes();
    if bytes_same(a, q) {
        return true;
    }
    if a.len() > q.len() {
        let p = bytes_same(&a[0..q.len()], q);
        assert(a@.subrange(0, q@.len() as int) =~= a@.take(q@.len() as int));
        return p && a[q.len()] == 0x20;
    }
    false
}

pub fn bytes_same(a: &[u8], b: &[u8]) -> (r: bool)
    ensures
        r == (a@ == b@),
{
    if a.len() != b.len() {
        return false;
    }
    let mut i: usize = 0;
    while i < a.len()
        invariant
            a@.len() == b@.len(),
            i <= a@.len(),
            forall|j: int| 0 <= j < i ==> a@[j] == b@[j],
        decreases a@.len() - i,
    {
        if a[i] != b[i] {
            return false;
        }
        i += 1;
    }
    assert(a@ =~= b@);
    true
}

/// Does a record's anchor satisfy the query, exactly or under a key?
pub open spec fn wanted(r: RecordText, folded: Seq<char>, under_key: bool) -> bool {
    if under_key {
        under_key_bytes(vstd::utf8::encode_utf8(r.anchor), vstd::utf8::encode_utf8(folded))
    } else {
        r.anchor == folded
    }
}

/// The records of `rs` the query wants, in order.
pub open spec fn wanted_records(rs: Seq<RecordText>, folded: Seq<char>, under_key: bool) -> Seq<RecordText>
    decreases rs.len(),
{
    if rs.len() == 0 {
        Seq::empty()
    } else {
        let w = wanted_records(rs.drop_last(), folded, under_key);
        if wanted(rs.last(), folded, under_key) {
            w.push(rs.last())
        } else {
            w
        }
    }
}

/// The records of a fragment's text that match a folded query: none when
/// the query's bytes do not occur in the text at all, else those whose
/// parsed anchor matches, exactly or under the key.
pub open spec fn scanned(text: Seq<u8>, folded: Seq<char>, under_key: bool) -> Seq<RecordText> {
    if exists|j: int| occurs_at(text, vstd::utf8::encode_utf8(folded), j) {
        wanted_records(parse_text(text).0, folded, under_key)
    } else {
        Seq::empty()
    }
}

/// The records of a fragment's text that match a folded query, after a
/// cheap rejection of a text that does not hold the query's bytes at all.
pub fn scan_text(text: &str, folded: &str, under_key: bool) -> (out: Vec<Record>)
    requires
        vstd::utf8::encode_utf8(text@).len() < usize::MAX,
    ensures
        record_texts(out@) == scanned(bytes_of(text), folded@, under_key),
{
    match memmem_find(text.as_bytes(), folded.as_bytes()) {
        None => {
            return Vec::new();
        },
        Some(i) => {
            assert(occurs_at(bytes_of(text), bytes_of(folded), i as int));
        },
    }
    let (records, _) = parse(text);
    let ghost all = record_texts(records@);
    let mut out: Vec<Record> = Vec::new();
    let mut i: usize = 0;
    while i < records.len()
        invariant
            i <= records@.len(),
            all == record_texts(records@),
            record_texts(out@) == wanted_records(all.take(i as int), folded@, under_key),
        decreases records@.len() - i,
    {
        let r = &records[i];
        assert(all.take(i + 1).drop_last() =~= all.take(i as int));
        assert(all.take(i + 1).last() == r.text());
        let keep = if under_key {
            is_under_key(r.anchor.as_str(), folded)
        } else {
            is_exact(r.anchor.as_str(), folded)
        };
        if keep {
            let c = r.copy();
            assert(record_texts(out@.push(c)) =~= record_texts(out@).push(c.text()));
            out.push(c);
        }
        i += 1;
    }
    assert(all.take(records@.len() as int) =~= all);
    out
}

/// What a hit says: its provider, its file, and its record.
pub open spec fn hit_view(h: Hit) -> (Seq<char>, Seq<char>, RecordText) {
    (h.provider@, h.file@, h.record.text())
}

pub open spec fn hit_views(hs: Seq<Hit>) -> Seq<(Seq<char>, Seq<char>, RecordText)> {
    hs.map_values(|h: Hit| hit_view(h))
}

/// The hits `rs` make when read from `file` of `provider`.
pub open spec fn as_hits(rs: Seq<RecordText>, provider: Seq<char>, file: Seq<char>) -> Seq<(Seq<char>, Seq<char>, RecordText)> {
    rs.map_values(|r: RecordText| (provider, file, r))
}

/// A fragment file as read: where it lies, the provider it documents (its
/// file stem), and its text.
pub struct FragmentFile {
    pub path: String,
    pub provider: String,
    pub text: String,
}

pub open spec fn fits(f: FragmentFile) -> bool {
    vstd::utf8::encode_utf8(f.text@).len() < usize::MAX
}

fn scan_one(f: &FragmentFile, folded: &str, under_key: bool) -> (out: Vec<Hit>)
    requires
        fits(*f),
    ensures
        hit_views(out@) == as_hits(scanned(vstd::utf8::encode_utf8(f.text@), folded@, under_key), f.provider@, f.path@),
{
    let recs = scan_text(f.text.as_str(), folded, under_key);
    let ghost rv = record_texts(recs@);
    let mut out: Vec<Hit> = Vec::new();
    let mut i: usize = 0;
    while i < recs.len()
        invariant
            i <= recs@.len(),
            rv == record_texts(recs@),
            hit_views(out@) == as_hits(rv.take(i as int), f.provider@, f.path@),
        decreases recs@.len() - i,
    {
        let h = Hit { provider: f.provider.clone(), file: f.path.clone(), record: recs[i].copy() };
        assert(hit_views(out@.push(h)) =~= hit_views(out@).push(hit_view(h)));
        assert(as_hits(rv.take(i + 1), f.provider@, f.path@) =~= as_hits(rv.take(i as int), f.provider@, f.path@).push(
            (f.provider@, f.path@, rv[i as int]),
        ));
        out.push(h);
        i += 1;
    }
    assert(rv.take(recs@.len() as int) =~= rv);
    out
}

/// Exact matches within one fragment file.
pub fn file_exact(f: &FragmentFile, folded_anchor: &str) -> (out: Vec<Hit>)
    requires
        fits(*f),
    ensures
        hit_views(out@) == as_hits(scanned(vstd::utf8::encode_utf8(f.text@), folded_anchor@, false), f.provider@, f.path@),
{
    scan_one(f, folded_anchor, false)
}

/// Key matches within one fragment file: the key doc and its values.
pub fn file_key(f: &FragmentFile, folded_path: &str) -> (out: Vec<Hit>)
    requires
        fits(*f),
    ensures
        hit_views(out@) == as_hits(scanned(vstd::utf8::encode_utf8(f.text@), folded_path@, true), f.provider@, f.path@),
{
    scan_one(f, folded_path, true)
}

/// The hits of every fragment, file after file.
pub open spec fn corpus_hits(fs: Seq<FragmentFile>, folded: Seq<char>, under_key: bool) -> Seq<(Seq<char>, Seq<char>, RecordText)>
    decreases fs.len(),
{
    if fs.len() == 0 {
        Seq::empty()
    } else {
        corpus_hits(fs.drop_last(), folded, under_key) + as_hits(
            scanned(vstd::utf8::encode_utf8(fs.last().text@), folded, under_key),
            fs.last().provider@,
            fs.last().path@,
        )
    }
}

pub open spec fn all_fit(fs: Seq<FragmentFile>) -> bool {
    forall|i: int| 0 <= i < fs.len() ==> fits(#[trigger] fs[i])
}

fn corpus_scan(files: &[FragmentFile], folded: &str, under_key: bool) -> (out: Vec<Hit>)
    requires
        all_fit(files@),
    ensures
        hit_views(out@) == sorted_hits(corpus_hits(files@, folded@, under_key)),
{
    let mut hits: Vec<Hit> = Vec::new();
    let mut i: usize = 0;
    while i < files.len()
        invariant
            i <= files@.len(),
            all_fit(files@),
            hit_views(hits@) == corpus_hits(files@.take(i as int), folded@, under_key),
        decreases files@.len() - i,
    {
        assert(files@.take(i + 1).drop_last() =~= files@.take(i as int));
        assert(fits(files@[i as int]));
        let more = scan_one(&files[i], folded, under_key);
        let ghost before = hits@;
        let mut k: usize = 0;
        while k < more.len()
            invariant
                k <= more@.len(),
                hit_views(hits@) == hit_views(before) + hit_views(more@).take(k as int),
            decreases more@.len() - k,
        {
            let h = Hit { provider: more[k].provider.clone(), file: more[k].file.clone(), record: more[k].record.copy() };
            assert(hit_views(hits@.push(h)) =~= hit_views(hits@).push(hit_view(h)));
            assert(hit_views(more@).take(k + 1) =~= hit_views(more@).take(k as int).push(hit_view(more@[k as int])));
            hits.push(h);
            k += 1;
        }
        assert(hit_views(more@).take(more@.len() as int) =~= hit_views(more@));
        i += 1;
    }
    assert(files@.take(files@.len() as int) =~= files@);
    sort_by_provider(&mut hits);
    hits
}

/// Exact matches across the whole corpus, ordered by provider.
pub fn corpus_exact(files: &[FragmentFile], folded_anchor: &str) -> (out: Vec<Hit>)
    requires
        all_fit(files@),
    ensures
        hit_views(out@) == sorted_hits(corpus_hits(files@, folded_anchor@, false)),
{
    corpus_scan(files, folded_anchor, false)
}

/// Key matches across the whole corpus, ordered by provider.
pub fn corpus_key(files: &[FragmentFile], folded_path: &str) -> (out: Vec<Hit>)
    requires
        all_fit(files@),
    ensures
        hit_views(out@) == sorted_hits(corpus_hits(files@, folded_path@, true)),
{
    corpus_scan(files, folded_path, true)
}

/// Byte-wise lexicographic order, as `str` compares.
pub open spec fn bytes_lt(a: Seq<u8>, b: Seq<u8>) -> bool
    decreases a.len(),
{
    if a.len() == 0 {
        b.len() > 0
    } else if b.len() == 0 {
        false
    } else if a[0] != b[0] {
        a[0] < b[0]
    } else {
        bytes_lt(a.drop_first(), b.drop_first())
    }
}

pub fn bytes_less(a: &[u8], b: &[u8]) -> (r: bool)
    ensures
        r == bytes_lt(a@, b@),
{
    let mut i: usize = 0;
    assert(a@.skip(0) =~= a@);
    assert(b@.skip(0) =~= b@);
    while i < a.len() && i < b.len()
        invariant
            i <= a@.len(),
            i <= b@.len(),
            a@.take(i as int) == b@.take(i as int),
            bytes_lt(a@, b@) == bytes_lt(a@.skip(i as int), b@.skip(i as int)),
        decreases a@.len() - i,
    {
        assert(a@.skip(i as int).drop_first() =~= a@.skip(i + 1));
        assert(b@.skip(i as int).drop_first() =~= b@.skip(i + 1));
        if a[i] != b[i] {
            return a[i] < b[i];
        }
        assert(a@.take(i + 1) =~= a@.take(i as int).push(a@[i as int]));
        assert(b@.take(i + 1) =~= b@.take(i as int).push(b@[i as int]));
        i += 1;
    }
    if i == a.len() {
        assert(a@.skip(i as int).len() == 0);
        i < b.len()
    } else {
        false
    }
}

/// Bytes of a text.
pub open spec fn enc(s: Seq<char>) -> Seq<u8> {
    vstd::utf8::encode_utf8(s)
}

/// The order a result list takes: by provider then anchor, or, for keyword
/// search, by folded name then provider.
pub open spec fn hit_lt(by_name: bool, x: (Seq<char>, Seq<char>, RecordText), y: (Seq<char>, Seq<char>, RecordText)) -> bool {
    if by_name {
        let (nx, ny) = (enc(fold_text(x.2.canonical)), enc(fold_text(y.2.canonical)));
        bytes_lt(nx, ny) || (nx == ny && bytes_lt(enc(x.0), enc(y.0)))
    } else {
        let (px, py) = (enc(x.0), enc(y.0));
        bytes_lt(px, py) || (px == py && bytes_lt(enc(x.2.anchor), enc(y.2.anchor)))
    }
}

/// `x` placed into the ordered `s` after every hit that does not order
/// after it.
pub open spec fn insert_hit(by_name: bool, s: Seq<(Seq<char>, Seq<char>, RecordText)>, x: (Seq<char>, Seq<char>, RecordText)) -> Seq<(Seq<char>, Seq<char>, RecordText)>
    decreases s.len(),
{
    if s.len() == 0 {
        seq![x]
    } else if hit_lt(by_name, x, s.last()) {
        insert_hit(by_name, s.drop_last(), x).push(s.last())
    } else {
        s.push(x)
    }
}

/// The stable sort of `s` in the order `by_name` picks.
pub open spec fn sorted_by(by_name: bool, s: Seq<(Seq<char>, Seq<char>, RecordText)>) -> Seq<(Seq<char>, Seq<char>, RecordText)>
    decreases s.len(),
{
    if s.len() == 0 {
        Seq::empty()
    } else {
        insert_hit(by_name, sorted_by(by_name, s.drop_last()), s.last())
    }
}

/// The stable sort of `s` by provider, then anchor.
pub open spec fn sorted_hits(s: Seq<(Seq<char>, Seq<char>, RecordText)>) -> Seq<(Seq<char>, Seq<char>, RecordText)> {
    sorted_by(false, s)
}

proof fn lemma_insert_at(by_name: bool, s: Seq<(Seq<char>, Seq<char>, RecordText)>, x: (Seq<char>, Seq<char>, RecordText), p: int)
    requires
        0 <= p <= s.len(),
        forall|k: int| p <= k < s.len() ==> hit_lt(by_name, x, #[trigger] s[k]),
        p == 0 || !hit_lt(by_name, x, s[p - 1]),
    ensures
        insert_hit(by_name, s, x) == s.take(p).push(x) + s.skip(p),
    decreases s.len(),
{
    if s.len() == 0 {
        assert(s.take(p).push(x) + s.skip(p) =~= seq![x]);
    } else if p == s.len() {
        assert(s.take(p) =~= s);
        assert(s.take(p).push(x) + s.skip(p) =~= s.push(x));
    } else {
        assert(hit_lt(by_name, x, s[s.len() - 1]));
        let t = s.drop_last();
        assert forall|k: int| p <= k < t.len() implies hit_lt(by_name, x, #[trigger] t[k]) by {
            assert(t[k] == s[k]);
        }
        lemma_insert_at(by_name, t, x, p);
        assert(t.take(p) =~= s.take(p));
        assert((t.take(p).push(x) + t.skip(p)).push(s.last()) =~= s.take(p).push(x) + s.skip(p));
    }
}

fn hit_less(by_name: bool, a: &Hit, b: &Hit) -> (r: bool)
    ensures
        r == hit_lt(by_name, hit_view(*a), hit_view(*b)),
{
    let pa = a.provider.as_str().as_bytes();
    let pb = b.provider.as_str().as_bytes();
    if by_name {
        let na = fold(a.record.canonical.as_str());
        let nb = fold(b.record.canonical.as_str());
        let (ba, bb) = (na.as_str().as_bytes(), nb.as_str().as_bytes());
        if bytes_less(ba, bb) {
            return true;
        }
        if !bytes_same(ba, bb) {
            return false;
        }
        return bytes_less(pa, pb);
    }
    if bytes_less(pa, pb) {
        return true;
    }
    if !bytes_same(pa, pb) {
        return false;
    }
    bytes_less(a.record.anchor.as_str().as_bytes(), b.record.anchor.as_str().as_bytes())
}

/// `ix` read as indices into `hs`, viewed.
pub open spec fn picked(hs: Seq<Hit>, ix: Seq<usize>) -> Seq<(Seq<char>, Seq<char>, RecordText)> {
    ix.map_values(|j: usize| hit_view(hs[j as int]))
}

/// Order hits by provider, then anchor, keeping the order of equal hits.
pub fn sort_by_provider(hits: &mut Vec<Hit>)
    ensures
        hit_views(final(hits)@) == sorted_hits(hit_views(old(hits)@)),
{
    sort_hits_by(hits, false);
}

/// Order hits as `by_name` picks, keeping the order of equal hits.
fn sort_hits_by(hits: &mut Vec<Hit>, by_name: bool)
    ensures
        hit_views(final(hits)@) == sorted_by(by_name, hit_views(old(hits)@)),
{
    let ghost hv = hit_views(hits@);
    let mut ord: Vec<usize> = Vec::new();
    let mut i: usize = 0;
    while i < hits.len()
        invariant
            i <= hits@.len(),
            hv == hit_views(hits@),
            ord@.len() == i,
            forall|j: int| 0 <= j < ord@.len() ==> (#[trigger] ord@[j]) < i,
            picked(hits@, ord@) == sorted_by(by_name, hv.take(i as int)),
        decreases hits@.len() - i,
    {
        assert(hv.take(i + 1).drop_last() =~= hv.take(i as int));
        let ghost s = picked(hits@, ord@);
        let mut p: usize = ord.len();
        while p > 0 && hit_less(by_name, &hits[i], &hits[ord[p - 1]])
            invariant
                p <= ord@.len(),
                i < hits@.len(),
                s == picked(hits@, ord@),
                forall|j: int| 0 <= j < ord@.len() ==> (#[trigger] ord@[j]) < i,
                forall|k: int| p <= k < s.len() ==> hit_lt(by_name, hv[i as int], #[trigger] s[k]),
                hv == hit_views(hits@),
            decreases p,
        {
            p -= 1;
        }
        proof {
            lemma_insert_at(by_name, s, hv[i as int], p as int);
        }
        ord.insert(p, i);
        assert(picked(hits@, ord@) =~= s.take(p as int).push(hv[i as int]) + s.skip(p as int));
        i += 1;
    }
    assert(hv.take(hits@.len() as int) =~= hv);
    let mut out: Vec<Hit> = Vec::new();
    let mut k: usize = 0;
    while k < ord.len()
        invariant
            k <= ord@.len(),
            ord@.len() == hits@.len(),
            forall|j: int| 0 <= j < ord@.len() ==> (#[trigger] ord@[j]) < hits@.len(),
            hit_views(out@) == picked(hits@, ord@).take(k as int),
        decreases ord@.len() - k,
    {
        let h = &hits[ord[k]];
        let c = Hit { provider: h.provider.clone(), file: h.file.clone(), record: h.record.copy() };
        assert(hit_view(c) == hit_view(hits@[ord@[k as int] as int]));
        assert(picked(hits@, ord@).take(k + 1) =~= picked(hits@, ord@).take(k as int).push(hit_view(c)));
        assert(hit_views(out@.push(c)) =~= hit_views(out@).push(hit_view(c)));
        out.push(c);
        k += 1;
    }
    assert(picked(hits@, ord@).take(ord@.len() as int) =~= picked(hits@, ord@));
    *hits = out;
}

/// Does `t` occur anywhere in `hay`?
pub open spec fn contains_bytes(hay: Seq<u8>, t: Seq<u8>) -> bool {
    exists|j: int| occurs_at(hay, t, j)
}

pub fn contains(hay: &[u8], t: &[u8]) -> (r: bool)
    ensures
        r == contains_bytes(hay@, t@),
{
    if t.len() > hay.len() {
        assert forall|j: int| !occurs_at(hay@, t@, j) by {}
        return false;
    }
    if t.len() == 0 {
        assert(hay@.subrange(0, 0) =~= t@);
        assert(occurs_at(hay@, t@, 0));
        return true;
    }
    let mut i: usize = 0;
    while i <= hay.len() - t.len()
        invariant
            0 < t@.len() <= hay@.len(),
            i <= hay@.len() - t@.len() + 1,
            forall|j: int| 0 <= j < i ==> !occurs_at(hay@, t@, j),
        decreases hay@.len() - t@.len() + 1 - i,
    {
        if bytes_same(&hay[i..i + t.len()], t) {
            assert(occurs_at(hay@, t@, i as int));
            return true;
        }
        i += 1;
    }
    assert forall|j: int| !occurs_at(hay@, t@, j) by {
        if 0 <= j < i {
        }
    }
    false
}

/// The folded text keyword search looks in: a record's name and summary.
pub open spec fn haystack(r: RecordText) -> Seq<char> {
    fold_text(r.canonical + " "@ + summary_text(r.body))
}

/// Does the record's name and summary hold every term, folded?
pub open spec fn has_all_terms(r: RecordText, terms: Seq<Seq<char>>) -> bool {
    forall|i: int| 0 <= i < terms.len() ==> contains_bytes(enc(haystack(r)), enc(fold_text(#[trigger] terms[i])))
}

pub open spec fn keyword_records(rs: Seq<RecordText>, terms: Seq<Seq<char>>) -> Seq<RecordText>
    decreases rs.len(),
{
    if rs.len() == 0 {
        Seq::empty()
    } else if has_all_terms(rs.last(), terms) {
        keyword_records(rs.drop_last(), terms).push(rs.last())
    } else {
        keyword_records(rs.drop_last(), terms)
    }
}

pub open spec fn keyword_hits(fs: Seq<FragmentFile>, terms: Seq<Seq<char>>) -> Seq<(Seq<char>, Seq<char>, RecordText)>
    decreases fs.len(),
{
    if fs.len() == 0 {
        Seq::empty()
    } else {
        keyword_hits(fs.drop_last(), terms) + as_hits(
            keyword_records(parse_text(enc(fs.last().text@)).0, terms),
            fs.last().provider@,
            fs.last().path@,
        )
    }
}

pub open spec fn strings_view(v: Seq<String>) -> Seq<Seq<char>> {
    v.map_values(|s: String| s@)
}

fn matches_all(r: &Record, folded: &Vec<String>, Ghost(terms): Ghost<Seq<Seq<char>>>) -> (b: bool)
    requires
        folded@.len() == terms.len(),
        forall|i: int| 0 <= i < terms.len() ==> (#[trigger] folded@[i])@ == fold_text(terms[i]),
    ensures
        b == has_all_terms(r.text(), terms),
{
    let mut h: Vec<char> = Vec::new();
    crate::text::extend_str(&mut h, r.canonical.as_str());
    crate::text::extend_str(&mut h, " ");
    crate::text::extend_str(&mut h, r.summary());
    let hay = fold(crate::text::string_from_chars(&h).as_str());
    assert(hay@ == haystack(r.text()));
    let hb = hay.as_str().as_bytes();
    let mut i: usize = 0;
    while i < folded.len()
        invariant
            i <= folded@.len(),
            folded@.len() == terms.len(),
            forall|k: int| 0 <= k < terms.len() ==> (#[trigger] folded@[k])@ == fold_text(terms[k]),
            hb@ == enc(haystack(r.text())),
            forall|k: int| 0 <= k < i ==> contains_bytes(enc(haystack(r.text())), enc(fold_text(#[trigger] terms[k]))),
        decreases folded@.len() - i,
    {
        if !contains(hb, folded[i].as_str().as_bytes()) {
            return false;
        }
        i += 1;
    }
    true
}

/// Keyword search: every record whose name and summary together hold all
/// the terms, compared folded, ordered by folded name, then provider.
pub fn apropos(files: &[FragmentFile], terms: &[String]) -> (out: Vec<Hit>)
    requires
        all_fit(files@),
    ensures
        hit_views(out@) == sorted_by(true, keyword_hits(files@, strings_view(terms@))),
{
    let ghost tv = strings_view(terms@);
    let mut folded: Vec<String> = Vec::new();
    let mut t: usize = 0;
    while t < terms.len()
        invariant
            t <= terms@.len(),
            tv == strings_view(terms@),
            folded@.len() == t,
            forall|i: int| 0 <= i < t ==> (#[trigger] folded@[i])@ == fold_text(tv[i]),
        decreases terms@.len() - t,
    {
        folded.push(fold(terms[t].as_str()));
        t += 1;
    }
    let mut hits: Vec<Hit> = Vec::new();
    let mut i: usize = 0;
    while i < files.len()
        invariant
            i <= files@.len(),
            all_fit(files@),
            folded@.len() == tv.len(),
            forall|k: int| 0 <= k < tv.len() ==> (#[trigger] folded@[k])@ == fold_text(tv[k]),
            hit_views(hits@) == keyword_hits(files@.take(i as int), tv),
        decreases files@.len() - i,
    {
        assert(files@.take(i + 1).drop_last() =~= files@.take(i as int));
        let f = &files[i];
        assert(fits(files@[i as int]));
        let (records, _) = parse(f.text.as_str());
        let ghost all = record_texts(records@);
        let ghost before = hits@;
        let mut k: usize = 0;
        while k < records.len()
            invariant
                k <= records@.len(),
                all == record_texts(records@),
                folded@.len() == tv.len(),
                forall|q: int| 0 <= q < tv.len() ==> (#[trigger] folded@[q])@ == fold_text(tv[q]),
                hit_views(hits@) == hit_views(before) + as_hits(keyword_records(all.take(k as int), tv), f.provider@, f.path@),
            decreases records@.len() - k,
        {
            assert(all.take(k + 1).drop_last() =~= all.take(k as int));
            assert(all.take(k + 1).last() == records@[k as int].text());
            if matches_all(&records[k], &folded, Ghost(tv)) {
                let h = Hit { provider: f.provider.clone(), file: f.path.clone(), record: records[k].copy() };
                assert(hit_views(hits@.push(h)) =~= hit_views(hits@).push(hit_view(h)));
                assert(as_hits(keyword_records(all.take(k + 1), tv), f.provider@, f.path@) =~= as_hits(
                    keyword_records(all.take(k as int), tv),
                    f.provider@,
                    f.path@,
                ).push((f.provider@, f.path@, records@[k as int].text())));
                hits.push(h);
            }
            k += 1;
        }
        assert(all.take(records@.len() as int) =~= all);
        i += 1;
    }
    assert(files@.take(files@.len() as int) =~= files@);
    sort_hits_by(&mut hits, true);
    hits
}

proof fn lemma_bytes_lt_total(a: Seq<u8>, b: Seq<u8>)
    ensures
        !bytes_lt(a, a),
        a != b ==> bytes_lt(a, b) || bytes_lt(b, a),
        bytes_lt(a, b) ==> !bytes_lt(b, a),
    decreases a.len(),
{
    if a.len() > 0 {
        lemma_bytes_lt_total(a.drop_first(), a.drop_first());
    }
    if a.len() > 0 && b.len() > 0 {
        lemma_bytes_lt_total(a.drop_first(), b.drop_first());
        if a[0] == b[0] && a != b {
            assert(a =~= seq![a[0]] + a.drop_first());
            assert(b =~= seq![b[0]] + b.drop_first());
        }
    }
    if a.len() == 0 && b.len() == 0 {
        assert(a =~= b);
    }
}

proof fn lemma_bytes_lt_trans(a: Seq<u8>, b: Seq<u8>, c: Seq<u8>)
    ensures
        bytes_lt(a, b) && bytes_lt(b, c) ==> bytes_lt(a, c),
    decreases a.len(),
{
    if a.len() > 0 && b.len() > 0 && c.len() > 0 {
        lemma_bytes_lt_trans(a.drop_first(), b.drop_first(), c.drop_first());
    }
}

/// Byte order is a strict total order.
pub proof fn lemma_bytes_lt_order(a: Seq<u8>, b: Seq<u8>, c: Seq<u8>)
    ensures
        !bytes_lt(a, a),
        bytes_lt(a, b) && bytes_lt(b, c) ==> bytes_lt(a, c),
        a != b ==> bytes_lt(a, b) || bytes_lt(b, a),
        bytes_lt(a, b) ==> !bytes_lt(b, a),
{
    lemma_bytes_lt_total(a, b);
    lemma_bytes_lt_trans(a, b, c);
}

} // verus!
