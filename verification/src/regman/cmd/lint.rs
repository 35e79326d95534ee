//! `regman lint`: structural problems in a fragment.
use crate::regman::fold::fold_text;
use crate::regman::fragment::{parse, parse_text, record_texts, issue_texts, RecordText};
use crate::text::{decimal, extend_chars, extend_str, string_from_chars, u64_decimal};
use vstd::prelude::*;

verus! {

pub open spec fn issue_line(i: (int, Seq<char>)) -> Seq<char> {
    "line "@ + decimal(i.0 as nat) + ": "@ + i.1
}

pub open spec fn mismatch_line(r: RecordText) -> Seq<char> {
    "anchor for `"@ + r.canonical + "`: fence has `"@ + r.anchor + "`, expected `"@ + fold_text(
        r.canonical,
    ) + "` (run `regman fmt`)"@
}

pub open spec fn mismatches(rs: Seq<RecordText>) -> Seq<Seq<char>>
    decreases rs.len(),
{
    if rs.len() == 0 {
        Seq::empty()
    } else {
        let m = mismatches(rs.drop_last());
        if rs.last().anchor != fold_text(rs.last().canonical) {
            m.push(mismatch_line(rs.last()))
        } else {
            m
        }
    }
}

/// The problems lint reports: every parse issue, then every fence anchor
/// that disagrees with the fold of its record's `canonical`.
pub open spec fn lint_lines(b: Seq<u8>) -> Seq<Seq<char>> {
    parse_text(b).1.map_values(|i: (int, Seq<char>)| issue_line(i)) + mismatches(parse_text(b).0)
}

pub open spec fn texts(v: Seq<String>) -> Seq<Seq<char>> {
    v.map_values(|s: String| s@)
}

/// Structural problems in a fragment: parse issues (a record with no
/// `canonical:`) and any fence anchor that disagrees with `fold(canonical)`.
pub fn lint_text(text: &str) -> (out: Vec<String>)
    requires
        vstd::utf8::encode_utf8(text@).len() < usize::MAX,
    ensures
        texts(out@) == lint_lines(vstd::utf8::encode_utf8(text@)),
{
    let ghost b = vstd::utf8::encode_utf8(text@);
    let (records, issues) = parse(text);
    let ghost is = issue_texts(issues@);
    let ghost rs = record_texts(records@);
    let mut out: Vec<String> = Vec::new();
    let mut i: usize = 0;
    while i < issues.len()
        invariant
            i <= issues@.len(),
            is == issue_texts(issues@),
            texts(out@) == is.take(i as int).map_values(|x: (int, Seq<char>)| issue_line(x)),
        decreases issues@.len() - i,
    {
        let mut v: Vec<char> = Vec::new();
        extend_str(&mut v, "line ");
        extend_chars(&mut v, &u64_decimal(issues[i].line as u64));
        extend_str(&mut v, ": ");
        extend_str(&mut v, issues[i].message.as_str());
        let s = string_from_chars(&v);
        assert(texts(out@.push(s)) =~= texts(out@).push(s@));
        out.push(s);
        i += 1;
        assert(is.take(i as int).map_values(|x: (int, Seq<char>)| issue_line(x)) =~= is.take(
            i - 1,
        ).map_values(|x: (int, Seq<char>)| issue_line(x)).push(issue_line(is[i - 1])));
    }
    assert(is.take(issues@.len() as int) =~= is);
    let ghost head = texts(out@);
    let mut k: usize = 0;
    while k < records.len()
        invariant
            k <= records@.len(),
            rs == record_texts(records@),
            texts(out@) == head + mismatches(rs.take(k as int)),
        decreases records@.len() - k,
    {
        let r = &records[k];
        assert(rs.take(k + 1).drop_last() =~= rs.take(k as int));
        assert(rs.take(k + 1).last() == r.text());
        let expected = r.expected_anchor();
        if !crate::text::chars_eq(&crate::text::chars_of(r.anchor.as_str()), &crate::text::chars_of(expected.as_str())) {
            let mut v: Vec<char> = Vec::new();
            extend_str(&mut v, "anchor for `");
            extend_str(&mut v, r.canonical.as_str());
            extend_str(&mut v, "`: fence has `");
            extend_str(&mut v, r.anchor.as_str());
            extend_str(&mut v, "`, expected `");
            extend_str(&mut v, expected.as_str());
            extend_str(&mut v, "` (run `regman fmt`)");
            let s = string_from_chars(&v);
            assert(texts(out@.push(s)) =~= texts(out@).push(s@));
            out.push(s);
        }
        k += 1;
    }
    assert(rs.take(records@.len() as int) =~= rs);
    out
}

/// What lint reports of a file: each of its problems, after the file's name.
pub open spec fn file_lines(file: Seq<char>, b: Seq<u8>) -> Seq<Seq<char>> {
    lint_lines(b).map_values(|p: Seq<char>| file + ": "@ + p)
}

/// The report lines for one file's text.
pub fn file_problems(file: &str, text: &str) -> (out: Vec<String>)
    requires
        vstd::utf8::encode_utf8(text@).len() < usize::MAX,
    ensures
        texts(out@) == file_lines(file@, vstd::utf8::encode_utf8(text@)),
{
    let ps = lint_text(text);
    let ghost pv = texts(ps@);
    let mut out: Vec<String> = Vec::new();
    let mut i: usize = 0;
    while i < ps.len()
        invariant
            i <= ps@.len(),
            pv == texts(ps@),
            texts(out@) == pv.take(i as int).map_values(|p: Seq<char>| file@ + ": "@ + p),
        decreases ps@.len() - i,
    {
        let mut v: Vec<char> = Vec::new();
        extend_str(&mut v, file);
        extend_str(&mut v, ": ");
        extend_str(&mut v, ps[i].as_str());
        let s = string_from_chars(&v);
        assert(texts(out@.push(s)) =~= texts(out@).push(s@));
        out.push(s);
        i += 1;
        assert(pv.take(i as int).map_values(|p: Seq<char>| file@ + ": "@ + p) =~= pv.take(i - 1).map_values(
            |p: Seq<char>| file@ + ": "@ + p,
        ).push(file@ + ": "@ + pv[i - 1]));
    }
    assert(pv.take(ps@.len() as int) =~= pv);
    out
}

/// The outcome of a lint run that found `total` problems: success only
/// when there were none.
pub fn lint_verdict(total: usize) -> (r: crate::regman::error::Result<()>)
    ensures
        total == 0 ==> r is Ok,
        total > 0 ==> (r matches Err(crate::regman::error::Error::Fragment(m)) && m@ == "lint: "@
            + decimal(total as nat) + " problem(s) found"@),
{
    if total == 0 {
        return Ok(());
    }
    let mut v: Vec<char> = Vec::new();
    extend_str(&mut v, "lint: ");
    extend_chars(&mut v, &u64_decimal(total as u64));
    extend_str(&mut v, " problem(s) found");
    Err(crate::regman::error::Error::Fragment(string_from_chars(&v)))
}

} // verus!
