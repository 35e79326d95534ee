//! Why the lookup cascade never gives a wrong answer: whatever the index
//! recorded, stale or not, every hit it returns is a record that a file of
//! the corpus really holds and that the query wants. A stale index costs
//! speed, never correctness.
use crate::regman::fragment::{parse_text, RecordText};
use crate::regman::query::{cascade, file_at, hit_at_text, pointed, record_at_offset, rescanned, some_all, unwrapped, Location};
use crate::regman::scan::{as_hits, corpus_hits, enc, insert_hit, scanned, sorted_by, sorted_hits, wanted, wanted_records, FragmentFile};
use vstd::prelude::*;

verus! {

/// A hit a file of the corpus really holds: one of the records of that
/// file's text, and one the query wants.
pub open spec fn genuine(files: Seq<FragmentFile>, folded: Seq<char>, under_key: bool, h: (Seq<char>, Seq<char>, RecordText)) -> bool {
    exists|k: int|
        0 <= k < files.len() && (#[trigger] files[k]).path@ == h.1 && parse_text(enc(files[k].text@)).0.contains(h.2)
            && wanted(h.2, folded, under_key)
}

pub open spec fn all_genuine(files: Seq<FragmentFile>, folded: Seq<char>, under_key: bool, hs: Seq<(Seq<char>, Seq<char>, RecordText)>) -> bool {
    forall|i: int| 0 <= i < hs.len() ==> genuine(files, folded, under_key, #[trigger] hs[i])
}

proof fn lemma_insert_members(b: bool, s: Seq<(Seq<char>, Seq<char>, RecordText)>, x: (Seq<char>, Seq<char>, RecordText))
    ensures
        forall|i: int| 0 <= i < insert_hit(b, s, x).len() ==> (#[trigger] insert_hit(b, s, x)[i] == x || s.contains(insert_hit(b, s, x)[i])),
    decreases s.len(),
{
    if s.len() > 0 {
        lemma_insert_members(b, s.drop_last(), x);
        let t = insert_hit(b, s, x);
        assert forall|i: int| 0 <= i < t.len() implies (#[trigger] t[i] == x || s.contains(t[i])) by {
            if crate::regman::scan::hit_lt(b, x, s.last()) {
                let u = insert_hit(b, s.drop_last(), x);
                if i < u.len() {
                    assert(t[i] == u[i]);
                    if u[i] != x {
                        let j = choose|j: int| 0 <= j < s.drop_last().len() && s.drop_last()[j] == u[i];
                        assert(s[j] == u[i]);
                    }
                } else {
                    assert(t[i] == s[s.len() - 1]);
                }
            } else {
                if i < s.len() {
                    assert(t[i] == s[i]);
                }
            }
        }
    }
}

/// Sorting only reorders: everything in the result was in the input.
proof fn lemma_sorted_members(b: bool, s: Seq<(Seq<char>, Seq<char>, RecordText)>)
    ensures
        forall|i: int| 0 <= i < sorted_by(b, s).len() ==> s.contains(#[trigger] sorted_by(b, s)[i]),
    decreases s.len(),
{
    if s.len() > 0 {
        lemma_sorted_members(b, s.drop_last());
        let r = sorted_by(b, s.drop_last());
        lemma_insert_members(b, r, s.last());
        assert forall|i: int| 0 <= i < sorted_by(b, s).len() implies s.contains(#[trigger] sorted_by(b, s)[i]) by {
            let y = sorted_by(b, s)[i];
            if y == s.last() {
                assert(s[s.len() - 1] == y);
            } else {
                assert(r.contains(y));
                let j = choose|j: int| 0 <= j < r.len() && r[j] == y;
                assert(s.drop_last().contains(y));
                let m = choose|m: int| 0 <= m < s.drop_last().len() && s.drop_last()[m] == y;
                assert(s[m] == y);
            }
        }
    }
}

proof fn lemma_sorted_genuine(files: Seq<FragmentFile>, folded: Seq<char>, under_key: bool, s: Seq<(Seq<char>, Seq<char>, RecordText)>)
    requires
        all_genuine(files, folded, under_key, s),
    ensures
        all_genuine(files, folded, under_key, sorted_hits(s)),
{
    lemma_sorted_members(false, s);
    assert forall|i: int| 0 <= i < sorted_hits(s).len() implies genuine(files, folded, under_key, #[trigger] sorted_hits(s)[i]) by {
        let j = choose|j: int| 0 <= j < s.len() && s[j] == sorted_hits(s)[i];
        assert(genuine(files, folded, under_key, s[j]));
    }
}

proof fn lemma_wanted_members(rs: Seq<RecordText>, folded: Seq<char>, under_key: bool)
    ensures
        forall|i: int| 0 <= i < wanted_records(rs, folded, under_key).len() ==> rs.contains(
            #[trigger] wanted_records(rs, folded, under_key)[i],
        ) && wanted(wanted_records(rs, folded, under_key)[i], folded, under_key),
    decreases rs.len(),
{
    if rs.len() > 0 {
        lemma_wanted_members(rs.drop_last(), folded, under_key);
        let w = wanted_records(rs, folded, under_key);
        let v = wanted_records(rs.drop_last(), folded, under_key);
        assert forall|i: int| 0 <= i < w.len() implies rs.contains(#[trigger] w[i]) && wanted(w[i], folded, under_key) by {
            if i < v.len() {
                assert(w[i] == v[i]);
                let j = choose|j: int| 0 <= j < rs.drop_last().len() && rs.drop_last()[j] == v[i];
                assert(rs[j] == v[i]);
            } else {
                assert(w[i] == rs[rs.len() - 1]);
            }
        }
    }
}

/// The hits of scanning file `k` are genuine.
proof fn lemma_file_genuine(files: Seq<FragmentFile>, k: int, folded: Seq<char>, under_key: bool)
    requires
        0 <= k < files.len(),
    ensures
        all_genuine(
            files,
            folded,
            under_key,
            as_hits(scanned(enc(files[k].text@), folded, under_key), files[k].provider@, files[k].path@),
        ),
{
    let f = files[k];
    let rs = parse_text(enc(f.text@)).0;
    lemma_wanted_members(rs, folded, under_key);
    let hs = as_hits(scanned(enc(f.text@), folded, under_key), f.provider@, f.path@);
    assert forall|i: int| 0 <= i < hs.len() implies genuine(files, folded, under_key, #[trigger] hs[i]) by {
        let sc = scanned(enc(f.text@), folded, under_key);
        assert(sc.len() > 0);
        assert(sc == wanted_records(rs, folded, under_key));
        assert(hs[i].2 == sc[i]);
        assert(files[k].path@ == hs[i].1);
    }
}

proof fn lemma_append_genuine(files: Seq<FragmentFile>, folded: Seq<char>, under_key: bool, a: Seq<(Seq<char>, Seq<char>, RecordText)>, b: Seq<(Seq<char>, Seq<char>, RecordText)>)
    requires
        all_genuine(files, folded, under_key, a),
        all_genuine(files, folded, under_key, b),
    ensures
        all_genuine(files, folded, under_key, a + b),
{
    assert forall|i: int| 0 <= i < (a + b).len() implies genuine(files, folded, under_key, #[trigger] (a + b)[i]) by {
        if i < a.len() {
            assert((a + b)[i] == a[i]);
        } else {
            assert((a + b)[i] == b[i - a.len()]);
        }
    }
}

proof fn lemma_corpus_genuine(files: Seq<FragmentFile>, n: int, folded: Seq<char>, under_key: bool)
    requires
        0 <= n <= files.len(),
    ensures
        all_genuine(files, folded, under_key, corpus_hits(files.take(n), folded, under_key)),
    decreases n,
{
    if n > 0 {
        let t = files.take(n);
        assert(t.drop_last() =~= files.take(n - 1));
        assert(t.last() == files[n - 1]);
        lemma_corpus_genuine(files, n - 1, folded, under_key);
        lemma_file_genuine(files, n - 1, folded, under_key);
        lemma_append_genuine(
            files,
            folded,
            under_key,
            corpus_hits(files.take(n - 1), folded, under_key),
            as_hits(scanned(enc(files[n - 1].text@), folded, under_key), files[n - 1].provider@, files[n - 1].path@),
        );
    }
}

proof fn lemma_file_at(files: Seq<FragmentFile>, path: Seq<char>)
    ensures
        file_at(files, path) matches Some(f) ==> exists|k: int| 0 <= k < files.len() && #[trigger] files[k] == f && f.path@ == path,
    decreases files.len(),
{
    if files.len() > 0 && files[0].path@ != path {
        lemma_file_at(files.drop_first(), path);
        if file_at(files, path) is Some {
            let f = file_at(files, path)->0;
            let k = choose|k: int| 0 <= k < files.drop_first().len() && #[trigger] files.drop_first()[k] == f && f.path@ == path;
            assert(files[k + 1] == f);
        }
    } else if files.len() > 0 {
        assert(files[0] == files[0]);
    }
}

proof fn lemma_rescanned_genuine(files: Seq<FragmentFile>, names: Seq<Seq<char>>, folded: Seq<char>, under_key: bool)
    ensures
        all_genuine(files, folded, under_key, rescanned(files, names, folded, under_key)),
    decreases names.len(),
{
    if names.len() > 0 {
        lemma_rescanned_genuine(files, names.drop_last(), folded, under_key);
        let prev = rescanned(files, names.drop_last(), folded, under_key);
        lemma_file_at(files, names.last());
        match file_at(files, names.last()) {
            Some(f) => {
                let k = choose|k: int| 0 <= k < files.len() && #[trigger] files[k] == f && f.path@ == names.last();
                lemma_file_genuine(files, k, folded, under_key);
                lemma_append_genuine(
                    files,
                    folded,
                    under_key,
                    prev,
                    as_hits(scanned(enc(f.text@), folded, under_key), f.provider@, f.path@),
                );
            },
            None => {
                assert(rescanned(files, names, folded, under_key) =~= prev);
            },
        }
    }
}

proof fn lemma_record_at(rs: Seq<RecordText>, offset: int, folded: Seq<char>, under_key: bool)
    ensures
        record_at_offset(rs, offset, folded, under_key) matches Some(r) ==> rs.contains(r) && wanted(r, folded, under_key),
    decreases rs.len(),
{
    if rs.len() > 0 {
        lemma_record_at(rs.drop_first(), offset, folded, under_key);
        if record_at_offset(rs, offset, folded, under_key) is Some {
            let r = record_at_offset(rs, offset, folded, under_key)->0;
            if !(rs[0].fence_offset == offset && wanted(rs[0], folded, under_key)) {
                let j = choose|j: int| 0 <= j < rs.drop_first().len() && rs.drop_first()[j] == r;
                assert(rs[j + 1] == r);
            } else {
                assert(rs[0] == r);
            }
        }
    }
}

proof fn lemma_pointed_genuine(files: Seq<FragmentFile>, locs: Seq<Location>, folded: Seq<char>, under_key: bool)
    requires
        some_all(pointed(files, locs, folded, under_key)),
    ensures
        all_genuine(files, folded, under_key, unwrapped(pointed(files, locs, folded, under_key))),
{
    let p = pointed(files, locs, folded, under_key);
    let u = unwrapped(p);
    assert forall|i: int| 0 <= i < u.len() implies genuine(files, folded, under_key, #[trigger] u[i]) by {
        let l = locs[i];
        assert(p[i] is Some);
        lemma_file_at(files, l.file@);
        match file_at(files, l.file@) {
            Some(f) => {
                let k = choose|k: int| 0 <= k < files.len() && #[trigger] files[k] == f && f.path@ == l.file@;
                let rs = parse_text(enc(f.text@)).0;
                lemma_record_at(rs, l.offset as int, folded, under_key);
                assert(u[i] == p[i]->0);
                assert(files[k].path@ == u[i].1);
            },
            None => {},
        }
    }
}

/// The lookup cascade never gives a wrong answer: whatever the index
/// recorded, stale or not, every hit it returns is a record that a file of
/// the corpus holds and that the query wants.
pub proof fn lemma_cascade_sound(files: Seq<FragmentFile>, recorded: Option<Seq<Location>>, folded: Seq<char>, under_key: bool)
    ensures
        all_genuine(files, folded, under_key, cascade(files, recorded, folded, under_key)),
{
    lemma_corpus_genuine(files, files.len() as int, folded, under_key);
    assert(files.take(files.len() as int) =~= files);
    lemma_sorted_genuine(files, folded, under_key, corpus_hits(files, folded, under_key));
    match recorded {
        Some(locs) => {
            if locs.len() > 0 {
                let found = pointed(files, locs, folded, under_key);
                if some_all(found) {
                    lemma_pointed_genuine(files, locs, folded, under_key);
                    lemma_sorted_genuine(files, folded, under_key, unwrapped(found));
                } else {
                    let names = crate::regman::query::distinct_paths(crate::regman::query::loc_files(locs));
                    lemma_rescanned_genuine(files, names, folded, under_key);
                    lemma_sorted_genuine(files, folded, under_key, rescanned(files, names, folded, under_key));
                }
            }
        },
        None => {},
    }
}

} // verus!
