//! `regman fmt`: bake the folded anchor onto each fence line from the
//! record's `canonical` field. Authors write only `canonical`; fmt keeps the
//! search anchor in sync.
use crate::reg::addr::{lossy, lossy_text};
use crate::regman::fold::fold_text;
use crate::regman::fragment::{issue_texts, line_end, parse, parse_text, record_texts, ParseIssue, RecordText};
use crate::regman::pattern::find_byte;
use crate::text::{decimal, extend_chars, extend_str, string_from_chars, u64_decimal};
use vstd::prelude::*;

verus! {

/// The edit for one record: its fence line, from the fence offset to the
/// line's end, becomes `--- ` and the fold of `canonical`.
pub open spec fn edit_of(b: Seq<u8>, r: RecordText) -> (int, int, Seq<u8>) {
    (
        r.fence_offset,
        line_end(b, r.fence_offset),
        vstd::utf8::encode_utf8("--- "@ + fold_text(r.canonical)),
    )
}

/// The edits from the `i`-th on applied to `b`, the later ones first so
/// earlier offsets stay valid. An edit whose range does not lie in the text
/// is skipped.
pub open spec fn bake_from(b: Seq<u8>, es: Seq<(int, int, Seq<u8>)>, i: int) -> Seq<u8>
    decreases es.len() - i,
{
    if i < 0 || i >= es.len() {
        b
    } else {
        let rest = bake_from(b, es, i + 1);
        let (s, e, rep) = es[i];
        if 0 <= s <= e <= rest.len() {
            rest.take(s) + rep + rest.skip(e)
        } else {
            rest
        }
    }
}

/// The text with every fence line rewritten.
pub open spec fn baked(b: Seq<u8>) -> Seq<u8> {
    bake_from(b, parse_text(b).0.map_values(|r: RecordText| edit_of(b, r)), 0)
}

fn splice_bytes(out: &Vec<u8>, s: usize, e: usize, rep: &[u8]) -> (r: Vec<u8>)
    requires
        s <= e <= out@.len(),
    ensures
        r@ == out@.take(s as int) + rep@ + out@.skip(e as int),
{
    let mut r: Vec<u8> = Vec::new();
    let mut i: usize = 0;
    while i < s
        invariant
            i <= s <= e <= out@.len(),
            r@ == out@.take(i as int),
        decreases s - i,
    {
        r.push(out[i]);
        i += 1;
        assert(r@ =~= out@.take(i as int));
    }
    let ghost mid = r@;
    let mut j: usize = 0;
    while j < rep.len()
        invariant
            j <= rep@.len(),
            mid == out@.take(s as int),
            r@ == mid + rep@.take(j as int),
        decreases rep@.len() - j,
    {
        r.push(rep[j]);
        j += 1;
        assert(r@ =~= mid + rep@.take(j as int));
    }
    assert(rep@.take(rep@.len() as int) =~= rep@);
    let ghost mid2 = r@;
    let mut k: usize = e;
    while k < out.len()
        invariant
            e <= k <= out@.len(),
            mid2 == out@.take(s as int) + rep@,
            r@ == mid2 + out@.subrange(e as int, k as int),
        decreases out@.len() - k,
    {
        r.push(out[k]);
        k += 1;
        assert(r@ =~= mid2 + out@.subrange(e as int, k as int));
    }
    assert(out@.subrange(e as int, out@.len() as int) =~= out@.skip(e as int));
    r
}

/// Rewrite every fence line to `--- <fold(canonical)>`; the parse issues
/// come back beside the text.
pub fn bake(text: &str) -> (r: (String, Vec<ParseIssue>))
    requires
        vstd::utf8::encode_utf8(text@).len() < usize::MAX,
    ensures
        r.0@ == lossy(baked(vstd::utf8::encode_utf8(text@))),
        issue_texts(r.1@) == parse_text(vstd::utf8::encode_utf8(text@)).1,
{
    let b = text.as_bytes();
    let (records, issues) = parse(text);
    let ghost rs = record_texts(records@);
    let ghost es = rs.map_values(|x: RecordText| edit_of(b@, x));
    let mut out: Vec<u8> = vstd::slice::slice_to_vec(b);
    let mut i: usize = records.len();
    while i > 0
        invariant
            i <= records@.len(),
            rs == record_texts(records@),
            es == rs.map_values(|x: RecordText| edit_of(b@, x)),
            out@ == bake_from(b@, es, i as int),
        decreases i,
    {
        let r = &records[i - 1];
        assert(rs[i - 1] == r.text());
        let s = r.fence_offset;
        let e = if s <= b.len() {
            match find_byte(b, 0x0A, s) {
                Some(j) => j,
                None => b.len(),
            }
        } else {
            b.len()
        };
        proof {
            if s > b@.len() {
                assert(crate::regman::pattern::find_from(b@, 0x0A, s as int) is None);
            }
        }
        assert(e == line_end(b@, s as int));
        let mut rv: Vec<char> = Vec::new();
        extend_str(&mut rv, "--- ");
        let anchor = r.expected_anchor();
        extend_str(&mut rv, anchor.as_str());
        let rep = string_from_chars(&rv);
        let rb = rep.as_str().as_bytes();
        assert(es[i - 1] == (s as int, e as int, rb@));
        if s <= e && e <= out.len() {
            out = splice_bytes(&out, s, e, rb);
        }
        i -= 1;
    }
    (lossy_text(&out), issues)
}

/// What fmt reports of a parse issue in a file.
pub open spec fn issue_report_line(file: Seq<char>, i: (int, Seq<char>)) -> Seq<char> {
    file + ": line "@ + decimal(i.0 as nat) + ": "@ + i.1
}

/// The report lines for the parse issues of one file.
pub fn issue_report(file: &str, issues: &[ParseIssue]) -> (out: Vec<String>)
    ensures
        out@.len() == issues@.len(),
        forall|k: int| 0 <= k < out@.len() ==> (#[trigger] out@[k])@ == issue_report_line(file@, issue_texts(issues@)[k]),
{
    let mut out: Vec<String> = Vec::new();
    let mut i: usize = 0;
    while i < issues.len()
        invariant
            i <= issues@.len(),
            out@.len() == i,
            forall|k: int| 0 <= k < i ==> (#[trigger] out@[k])@ == issue_report_line(file@, issue_texts(issues@)[k]),
        decreases issues@.len() - i,
    {
        let mut v: Vec<char> = Vec::new();
        extend_str(&mut v, file);
        extend_str(&mut v, ": line ");
        extend_chars(&mut v, &u64_decimal(issues[i].line as u64));
        extend_str(&mut v, ": ");
        extend_str(&mut v, issues[i].message.as_str());
        out.push(string_from_chars(&v));
        i += 1;
    }
    out
}

/// The outcome of a fmt run: records without `canonical:` were skipped, and
/// that is reported once every file was handled.
pub fn fmt_verdict(had_issue: bool) -> (r: crate::regman::error::Result<()>)
    ensures
        !had_issue ==> r is Ok,
        had_issue ==> (r matches Err(crate::regman::error::Error::Fragment(m)) && m@
            == "fmt: some records have no `canonical:` and were skipped"@),
{
    if had_issue {
        Err(
            crate::regman::error::Error::Fragment(
                "fmt: some records have no `canonical:` and were skipped".to_owned(),
            ),
        )
    } else {
        Ok(())
    }
}

} // verus!
