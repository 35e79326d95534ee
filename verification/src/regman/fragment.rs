//! Fragment data model and parser.
//!
//! A fragment file is a sequence of records in a fenced format:
//!
//! ```text
//! --- <folded anchor>
//! canonical: <Original-Case Path[ Value]>
//! type: REG_DWORD
//!                                  <- blank line starts the body
//! Markdown body until the next "--- " fence.
//! ```
//!
//! The fence line delimits the record and carries the case-folded anchor;
//! `canonical` carries the display form. A record with any value-only field
//! (type/default/valid/applies) is a value doc; otherwise a key doc.
use crate::reg::addr::{lossy, lossy_text};
use crate::regman::fold::{fold, fold_text};
use crate::regman::pattern::{find_byte, find_from};
use crate::text::{chars_of, first_from, lower_ascii_seq, string_from_chars, trim, trim_bounds};
use vstd::prelude::*;
use vstd::string::StrSliceExecFns;
use vstd::string::StringSliceAdditionalSpecFns;

verus! {

/// A documented registry key or value.
#[derive(Debug, Clone, PartialEq, Eq)]
pub struct Record {
    /// Byte offset of the record's fence line within its source file.
    pub fence_offset: usize,
    /// The case-folded `path[ value]` anchor from the fence line.
    pub anchor: String,
    /// Original-case `path[ value]` for display (the `canonical:` field).
    pub canonical: String,
    /// Low-level registry type tag (`REG_DWORD`, ...). Value docs only.
    pub type_: Option<String>,
    /// Documented default.
    pub default: Option<String>,
    /// Valid range / enum / constraints, human-readable.
    pub valid: Option<String>,
    /// When a change takes effect: `live` | `restart` | `reboot`.
    pub applies: Option<String>,
    /// Present when being retired; the value is the replacement or a note.
    pub deprecated: Option<String>,
    /// Markdown body (leading/trailing blank lines trimmed).
    pub body: String,
}

#[derive(Debug, Clone, Copy, PartialEq, Eq)]
pub enum Kind {
    Key,
    Value,
}

/// A problem found while parsing a fragment.
#[derive(Debug, Clone, PartialEq, Eq)]
pub struct ParseIssue {
    /// 1-based line number of the fence that opened the offending record.
    pub line: usize,
    pub message: String,
}

/// The first piece whose trimmed text is not empty, trimmed; or nothing.
pub open spec fn first_nonblank(ps: Seq<Seq<char>>) -> Seq<char>
    decreases ps.len(),
{
    if ps.len() == 0 {
        Seq::empty()
    } else if trim(ps[0]).len() > 0 {
        trim(ps[0])
    } else {
        first_nonblank(ps.drop_first())
    }
}

/// The one-line summary of a body: its first non-blank line.
pub open spec fn summary_text(body: Seq<char>) -> Seq<char> {
    first_nonblank(split_from(body, '\n', 0))
}

/// The last index holding `c`, if any.
pub open spec fn last_of(s: Seq<char>, c: char) -> Option<int>
    decreases s.len(),
{
    if s.len() == 0 {
        None
    } else if s.last() == c {
        Some(s.len() - 1)
    } else {
        last_of(s.drop_last(), c)
    }
}

/// The value name a record shows under the key `key`: what follows the key
/// and a space when the canonical text starts with the key (compared
/// folded), else what follows its last space.
pub open spec fn value_name_text(canonical: Seq<char>, key: Seq<char>) -> Seq<char> {
    if strip_key_ok(canonical, key) {
        lossy(vstd::utf8::encode_utf8(canonical).skip(vstd::utf8::encode_utf8(key).len() as int + 1))
    } else {
        match last_of(canonical, ' ') {
            Some(i) => canonical.skip(i + 1),
            None => canonical,
        }
    }
}

/// Does the canonical text start with the key (compared folded) and a space?
pub open spec fn strip_key_ok(canonical: Seq<char>, key: Seq<char>) -> bool {
    let c = vstd::utf8::encode_utf8(canonical);
    let k = vstd::utf8::encode_utf8(key).len() as int;
    c.len() > k + 1 && vstd::utf8::is_char_boundary(c, k + 1) && c[k] == 0x20 && fold_text(
        lossy(c.take(k)),
    ) == fold_text(key)
}

/// The anchor a fence line carries: the trimmed text after `--- `, when
/// there is any. A bare `---` (a Markdown thematic break) is not a fence.
pub open spec fn fence_text(line: Seq<char>) -> Option<Seq<char>> {
    if line.len() >= 4 && line.take(4) == "--- "@ && trim(line.skip(4)).len() > 0 {
        Some(trim(line.skip(4)))
    } else {
        None
    }
}

impl Record {
    pub open spec fn spec_kind(&self) -> Kind {
        if self.type_ is Some || self.default is Some || self.valid is Some || self.applies is Some {
            Kind::Value
        } else {
            Kind::Key
        }
    }

    /// A record is a value doc if it carries any value-only field.
    pub fn kind(&self) -> (k: Kind)
        ensures
            k == self.spec_kind(),
    {
        if self.type_.is_some() || self.default.is_some() || self.valid.is_some()
            || self.applies.is_some() {
            Kind::Value
        } else {
            Kind::Key
        }
    }

    /// The first non-empty line of the body: the one-line summary.
    pub fn summary(&self) -> (s: &str)
        ensures
            s@ == summary_text(self.body@),
    {
        let body = self.body.as_str();
        let v = chars_of(body);
        let mut start: usize = 0;
        loop
            invariant
                start <= v@.len(),
                v@ == self.body@,
                body@ == self.body@,
                first_nonblank(split_from(v@, '\n', 0)) == first_nonblank(
                    split_from(v@, '\n', start as int),
                ),
            decreases v@.len() - start,
        {
            let mut end = start;
            while end < v.len() && v[end] != '\n'
                invariant
                    start <= end <= v@.len(),
                    forall|j: int| start <= j < end ==> v@[j] != '\n',
                decreases v@.len() - end,
            {
                end += 1;
            }
            let (a, b) = trim_bounds(&v, start, end);
            proof {
                lemma_split_from_step(v@, '\n', start as int, end as int);
                let ps = split_from(v@, '\n', start as int);
                if end < v@.len() {
                    assert(ps.drop_first() =~= split_from(v@, '\n', end + 1));
                } else {
                    assert(ps.drop_first() =~= Seq::<Seq<char>>::empty());
                }
            }
            if a < b {
                return body.substring_char(a, b);
            }
            if end == v.len() {
                proof {
                    reveal_strlit("");
                    assert(first_nonblank(Seq::<Seq<char>>::empty()) == Seq::<char>::empty());
                }
                return "";
            }
            start = end + 1;
        }
    }

    /// The value name for the Values index, under the canonical key path
    /// `key_canonical`.
    pub fn value_name(&self, key_canonical: &str) -> (s: &str)
        ensures
            s@ == value_name_text(self.canonical@, key_canonical@),
    {
        let c = self.canonical.as_str();
        let cb = c.as_bytes();
        let k = key_canonical.as_bytes().len();
        if cb.len() > k && cb.len() - k > 1 && c.is_char_boundary(k + 1) && cb[k] == 0x20 {
            let head = lossy_text(&cb[0..k]);
            assert(cb@.subrange(0, k as int) =~= cb@.take(k as int));
            let fh = fold(head.as_str());
            let fk = fold(key_canonical);
            if crate::text::chars_eq(&chars_of(fh.as_str()), &chars_of(fk.as_str())) {
                let (_, tail) = c.split_at(k + 1);
                proof {
                    broadcast use vstd::utf8::encode_utf8_decode_utf8;

                    assert(tail.spec_bytes() =~= cb@.skip(k + 1));
                    vstd::utf8::encode_utf8_valid_utf8(tail@);
                }
                return tail;
            }
        }
        let v = chars_of(c);
        let mut i = v.len();
        assert(v@.take(v@.len() as int) =~= v@);
        while i > 0
            invariant
                i <= v@.len(),
                v@ == self.canonical@,
                last_of(v@, ' ') == last_of(v@.take(i as int), ' '),
                c@ == self.canonical@,
                !strip_key_ok(self.canonical@, key_canonical@),
            decreases i,
        {
            assert(v@.take(i as int).drop_last() =~= v@.take(i - 1));
            if v[i - 1] == ' ' {
                return c.substring_char(i, v.len());
            }
            i -= 1;
        }
        assert(v@.take(0) =~= Seq::<char>::empty());
        assert(v@.take(v@.len() as int) =~= v@);
        c
    }

    /// The fence anchor `canonical` implies: its case fold. `fmt` bakes
    /// it; `lint` checks it.
    pub fn expected_anchor(&self) -> (s: String)
        ensures
            s@ == fold_text(self.canonical@),
    {
        fold(self.canonical.as_str())
    }
}

/// `split_on(s, c)` from the piece starting at `i` on.
pub open spec fn split_from(s: Seq<char>, c: char, i: int) -> Seq<Seq<char>>
    decreases s.len() - i,
{
    if i < 0 || i > s.len() {
        Seq::empty()
    } else {
        match first_from(s, c, i) {
            Some(j) => {
                proof {
                    lemma_first_from_range(s, c, i);
                }
                seq![s.subrange(i, j)] + split_from(s, c, j + 1)
            },
            None => seq![s.skip(i)],
        }
    }
}

pub proof fn lemma_first_from_range(s: Seq<char>, c: char, i: int)
    requires
        0 <= i,
    ensures
        first_from(s, c, i) matches Some(k) ==> i <= k < s.len() && s[k] == c && forall|j: int|
            i <= j < k ==> s[j] != c,
        first_from(s, c, i) is None ==> forall|j: int| i <= j < s.len() ==> s[j] != c,
    decreases s.len() - i,
{
    if i < s.len() && s[i] != c {
        lemma_first_from_range(s, c, i + 1);
    }
}

/// One step of the line loop: the piece from `start` ends at `end`.
proof fn lemma_split_from_step(s: Seq<char>, c: char, start: int, end: int)
    requires
        0 <= start <= end <= s.len(),
        forall|j: int| start <= j < end ==> s[j] != c,
        end < s.len() ==> s[end] == c,
    ensures
        end < s.len() ==> split_from(s, c, start) == seq![s.subrange(start, end)] + split_from(
            s,
            c,
            end + 1,
        ),
        end == s.len() ==> split_from(s, c, start) == seq![s.subrange(start, end)],
        split_from(s, c, start).len() > 0,
        split_from(s, c, start)[0] == s.subrange(start, end),
{
    lemma_first_from_range(s, c, start);
    if end < s.len() {
        assert(first_from(s, c, start) == Some(end)) by {
            if first_from(s, c, start) is None {
                assert(s[end] != c);
            } else {
                let k = first_from(s, c, start)->0;
                assert(k >= end);
                if k > end {
                    assert(s[end] != c);
                }
            }
        }
    } else {
        assert(first_from(s, c, start) is None) by {
            if first_from(s, c, start) is Some {
                let k = first_from(s, c, start)->0;
                assert(s[k] != c);
            }
        }
        assert(s.skip(start) =~= s.subrange(start, end));
    }
}


/// If `line` is a fence, its anchor: the trimmed text after `--- `.
pub fn fence_anchor(line: &str) -> (r: Option<&str>)
    ensures
        match fence_text(line@) {
            Some(a) => r matches Some(x) && x@ == a,
            None => r is None,
        },
{
    let v = chars_of(line);
    proof {
        reveal_strlit("--- ");
    }
    if v.len() >= 4 && v[0] == '-' && v[1] == '-' && v[2] == '-' && v[3] == ' ' {
        assert(v@.take(4) =~= "--- "@);
        let (a, b) = trim_bounds(&v, 4, v.len());
        assert(v@.subrange(4, v@.len() as int) =~= v@.skip(4));
        if a < b {
            return Some(line.substring_char(a, b));
        }
        None
    } else {
        proof {
            if v@.len() >= 4 && v@.take(4) == "--- "@ {
                assert(v@.take(4)[0] == '-' && v@.take(4)[1] == '-' && v@.take(4)[2] == '-');
                assert(v@.take(4)[3] == ' ');
            }
        }
        None
    }
}

/// A line without one trailing carriage return.
pub open spec fn strip_cr(l: Seq<u8>) -> Seq<u8> {
    if l.len() > 0 && l.last() == 0x0D {
        l.drop_last()
    } else {
        l
    }
}

/// Where the line starting at `s` ends: its newline, or the end.
pub open spec fn line_end(b: Seq<u8>, s: int) -> int {
    match find_from(b, 0x0A, s) {
        Some(j) => j,
        None => b.len() as int,
    }
}

/// The fences found from the line starting at byte `s` on, after the ones
/// in `acc`: each with the byte index of its line's first byte, its 1-based
/// line number (`no` is that of the line at `s`), and its anchor.
pub open spec fn fences_acc(b: Seq<u8>, s: int, no: int, acc: Seq<(int, int, Seq<char>)>) -> Seq<
    (int, int, Seq<char>),
>
    decreases b.len() - s,
{
    if s < 0 || s > b.len() {
        acc
    } else {
        let e = line_end(b, s);
        proof {
            crate::regman::pattern::lemma_find_from_range(b, 0x0A, s);
        }
        let l = strip_cr(b.subrange(s, e));
        let acc2 = match fence_text(lossy(l)) {
            Some(a) => acc.push((s, no, a)),
            None => acc,
        };
        if e < b.len() {
            fences_acc(b, e + 1, no + 1, acc2)
        } else {
            acc2
        }
    }
}

/// The byte index `o` starts a line of `b`.
pub open spec fn line_start(b: Seq<u8>, o: int) -> bool {
    0 <= o <= b.len() && (o == 0 || b[o - 1] == 0x0A)
}

/// Byte `o` starts a line of `b` that is a fence naming `anchor`.
pub open spec fn fence_at(b: Seq<u8>, o: int, anchor: Seq<char>) -> bool {
    &&& line_start(b, o)
    &&& o < b.len()
    &&& fence_text(lossy(strip_cr(b.subrange(o, line_end(b, o))))) == Some(anchor)
}

proof fn lemma_fences_acc_start(b: Seq<u8>, s: int, no: int, acc: Seq<(int, int, Seq<char>)>)
    requires
        line_start(b, s),
        forall|j: int| 0 <= j < acc.len() ==> fence_at(b, #[trigger] acc[j].0, acc[j].2),
    ensures
        forall|j: int| 0 <= j < fences_acc(b, s, no, acc).len() ==> fence_at(b, #[trigger] fences_acc(b, s, no, acc)[j].0, fences_acc(b, s, no, acc)[j].2),
    decreases b.len() - s,
{
    let e = line_end(b, s);
    crate::regman::pattern::lemma_find_from_range(b, 0x0A, s);
    let l = strip_cr(b.subrange(s, e));
    let acc2 = match fence_text(lossy(l)) {
        Some(a) => acc.push((s, no, a)),
        None => acc,
    };
    assert forall|j: int| 0 <= j < acc2.len() implies fence_at(b, #[trigger] acc2[j].0, acc2[j].2) by {
        if j < acc.len() {
            assert(acc2[j] == acc[j]);
        }
    }
    if e < b.len() {
        assert(b[e] == 0x0A);
        assert(fences_acc(b, s, no, acc) == fences_acc(b, e + 1, no + 1, acc2));
        lemma_fences_acc_start(b, e + 1, no + 1, acc2);
    } else {
        assert(fences_acc(b, s, no, acc) == acc2);
    }
}

/// Every fence is recorded at the first byte of its line, whatever the
/// line endings, and that line is a fence naming the recorded anchor: so a
/// record's `fence_offset` is the byte index of its fence line in the
/// source text.
pub proof fn lemma_fence_offsets(b: Seq<u8>)
    ensures
        forall|j: int| 0 <= j < fences_of(b).len() ==> fence_at(b, #[trigger] fences_of(b)[j].0, fences_of(b)[j].2),
{
    lemma_fences_acc_start(b, 0, 1, Seq::empty());
}

/// Every fence of a text: offset, line number, anchor.
pub open spec fn fences_of(b: Seq<u8>) -> Seq<(int, int, Seq<char>)> {
    fences_acc(b, 0, 1, Seq::empty())
}

/// The header/body split of what follows a fence line: at the first blank
/// line (carriage return ignored), looking from `idx` on.
pub open spec fn hb_split(a: Seq<u8>, idx: int) -> (Seq<u8>, Seq<u8>)
    decreases a.len() - idx,
{
    if idx < 0 || idx >= a.len() {
        (a, Seq::empty())
    } else {
        let end = match find_from(a, 0x0A, idx) {
            Some(j) => j + 1,
            None => a.len() as int,
        };
        proof {
            crate::regman::pattern::lemma_find_from_range(a, 0x0A, idx);
        }
        let line = a.subrange(idx, end);
        let t1 = if line.len() > 0 && line.last() == 0x0A {
            line.drop_last()
        } else {
            line
        };
        if strip_cr(t1).len() == 0 {
            (a.take(idx), a.skip(end))
        } else {
            hb_split(a, end)
        }
    }
}

/// The header fields of a record, as text.
pub struct HeaderText {
    pub canonical: Option<Seq<char>>,
    pub type_: Option<Seq<char>>,
    pub default: Option<Seq<char>>,
    pub valid: Option<Seq<char>>,
    pub applies: Option<Seq<char>>,
    pub deprecated: Option<Seq<char>>,
}

pub open spec fn no_header() -> HeaderText {
    HeaderText { canonical: None, type_: None, default: None, valid: None, applies: None, deprecated: None }
}

/// One header line: `key: value`, the key compared case-insensitively;
/// unknown keys and lines without a colon change nothing.
pub open spec fn header_step(h: HeaderText, line: Seq<char>) -> HeaderText {
    let t = trim(line);
    match first_from(t, ':', 0) {
        None => h,
        Some(p) => {
            let key = lower_ascii_seq(trim(t.take(p)));
            let v = Some(trim(t.skip(p + 1)));
            if key == "canonical"@ {
                HeaderText { canonical: v, ..h }
            } else if key == "type"@ {
                HeaderText { type_: v, ..h }
            } else if key == "default"@ {
                HeaderText { default: v, ..h }
            } else if key == "valid"@ {
                HeaderText { valid: v, ..h }
            } else if key == "applies"@ {
                HeaderText { applies: v, ..h }
            } else if key == "deprecated"@ {
                HeaderText { deprecated: v, ..h }
            } else {
                h
            }
        },
    }
}

/// The header lines folded in order: a later line wins.
pub open spec fn header_of(lines: Seq<Seq<char>>) -> HeaderText
    decreases lines.len(),
{
    if lines.len() == 0 {
        no_header()
    } else {
        header_step(header_of(lines.drop_last()), lines.last())
    }
}

/// A text without leading and trailing newlines.
pub open spec fn trim_nl(s: Seq<char>) -> Seq<char>
    decreases s.len(),
{
    if s.len() > 0 && s[0] == '\n' {
        trim_nl(s.drop_first())
    } else if s.len() > 0 && s.last() == '\n' {
        trim_nl(s.drop_last())
    } else {
        s
    }
}

/// A record, as text.
pub struct RecordText {
    pub fence_offset: int,
    pub anchor: Seq<char>,
    pub canonical: Seq<char>,
    pub type_: Option<Seq<char>>,
    pub default: Option<Seq<char>>,
    pub valid: Option<Seq<char>>,
    pub applies: Option<Seq<char>>,
    pub deprecated: Option<Seq<char>>,
    pub body: Seq<char>,
}

pub open spec fn opt_text(o: Option<String>) -> Option<Seq<char>> {
    match o {
        Some(s) => Some(s@),
        None => None,
    }
}

fn copy_opt(o: &Option<String>) -> (c: Option<String>)
    ensures
        opt_text(c) == opt_text(*o),
{
    match o {
        Some(s) => Some(s.clone()),
        None => None,
    }
}

impl Record {
    /// A field-by-field copy.
    pub fn copy(&self) -> (c: Record)
        ensures
            c.text() == self.text(),
    {
        Record {
            fence_offset: self.fence_offset,
            anchor: self.anchor.clone(),
            canonical: self.canonical.clone(),
            type_: copy_opt(&self.type_),
            default: copy_opt(&self.default),
            valid: copy_opt(&self.valid),
            applies: copy_opt(&self.applies),
            deprecated: copy_opt(&self.deprecated),
            body: self.body.clone(),
        }
    }

    pub open spec fn text(&self) -> RecordText {
        RecordText {
            fence_offset: self.fence_offset as int,
            anchor: self.anchor@,
            canonical: self.canonical@,
            type_: opt_text(self.type_),
            default: opt_text(self.default),
            valid: opt_text(self.valid),
            applies: opt_text(self.applies),
            deprecated: opt_text(self.deprecated),
            body: self.body@,
        }
    }
}

/// The bytes of record `i`: from its fence to the next, or to the end.
pub open spec fn block_of(b: Seq<u8>, fs: Seq<(int, int, Seq<char>)>, i: int) -> Seq<u8> {
    b.subrange(
        fs[i].0,
        if i + 1 < fs.len() {
            fs[i + 1].0
        } else {
            b.len() as int
        },
    )
}

/// What follows the first line of a block.
pub open spec fn after_first_line(block: Seq<u8>) -> Seq<u8> {
    match find_from(block, 0x0A, 0) {
        Some(j) => block.skip(j + 1),
        None => Seq::empty(),
    }
}

/// Record `i`, or `None` when it has no `canonical:` field.
pub open spec fn record_at(b: Seq<u8>, fs: Seq<(int, int, Seq<char>)>, i: int) -> Option<RecordText> {
    let (hd, body) = hb_split(after_first_line(block_of(b, fs, i)), 0);
    let h = header_of(split_from(lossy(hd), '\n', 0));
    match h.canonical {
        None => None,
        Some(c) => Some(
            RecordText {
                fence_offset: fs[i].0,
                anchor: fs[i].2,
                canonical: c,
                type_: h.type_,
                default: h.default,
                valid: h.valid,
                applies: h.applies,
                deprecated: h.deprecated,
                body: trim_nl(lossy(body)),
            },
        ),
    }
}

/// The records and issues of the first `i` fences.
pub open spec fn parse_acc(b: Seq<u8>, fs: Seq<(int, int, Seq<char>)>, i: int) -> (Seq<RecordText>, Seq<(int, Seq<char>)>)
    decreases i,
{
    if i <= 0 {
        (Seq::empty(), Seq::empty())
    } else {
        let (rs, is) = parse_acc(b, fs, i - 1);
        match record_at(b, fs, i - 1) {
            Some(r) => (rs.push(r), is),
            None => (rs, is.push((fs[i - 1].1, "record has no `canonical:` field"@))),
        }
    }
}

/// What a fragment parses to: its records, and the problems found.
pub open spec fn parse_text(b: Seq<u8>) -> (Seq<RecordText>, Seq<(int, Seq<char>)>) {
    parse_acc(b, fences_of(b), fences_of(b).len() as int)
}


struct Header {
    canonical: Option<String>,
    type_: Option<String>,
    default: Option<String>,
    valid: Option<String>,
    applies: Option<String>,
    deprecated: Option<String>,
}

impl Header {
    spec fn text(&self) -> HeaderText {
        HeaderText {
            canonical: opt_text(self.canonical),
            type_: opt_text(self.type_),
            default: opt_text(self.default),
            valid: opt_text(self.valid),
            applies: opt_text(self.applies),
            deprecated: opt_text(self.deprecated),
        }
    }
}

fn word_is(v: &Vec<char>, w: &str) -> (r: bool)
    ensures
        r == (v@ == w@),
{
    crate::text::chars_eq(v, &chars_of(w))
}

fn header_line(h: &mut Header, line: &[char])
    ensures
        final(h).text() == header_step(old(h).text(), line@),
{
    let t = crate::text::trim_chars(line);
    let mut p: usize = 0;
    while p < t.len() && t[p] != ':'
        invariant
            p <= t@.len(),
            forall|j: int| 0 <= j < p ==> t@[j] != ':',
        decreases t@.len() - p,
    {
        p += 1;
    }
    proof {
        lemma_first_from_range(t@, ':', 0);
        if first_from(t@, ':', 0) is Some {
            let k = first_from(t@, ':', 0)->0;
            assert(k >= p);
        }
    }
    if p == t.len() {
        proof {
            if first_from(t@, ':', 0) is Some {
                let k = first_from(t@, ':', 0)->0;
                assert(t@[k] != ':');
            }
        }
        return;
    }
    assert(first_from(t@, ':', 0) == Some(p as int));
    let key_raw = crate::text::slice_chars(&t, 0, p);
    assert(key_raw@ =~= t@.take(p as int));
    let key = crate::text::ascii_lowercase(&crate::text::trim_chars(&key_raw));
    let val_raw = crate::text::slice_chars(&t, p + 1, t.len());
    assert(val_raw@ =~= t@.skip(p + 1));
    let value = string_from_chars(&crate::text::trim_chars(&val_raw));
    if word_is(&key, "canonical") {
        h.canonical = Some(value);
    } else if word_is(&key, "type") {
        h.type_ = Some(value);
    } else if word_is(&key, "default") {
        h.default = Some(value);
    } else if word_is(&key, "valid") {
        h.valid = Some(value);
    } else if word_is(&key, "applies") {
        h.applies = Some(value);
    } else if word_is(&key, "deprecated") {
        h.deprecated = Some(value);
    }
}

/// Header lines are `key: value`; unknown keys are ignored.
fn parse_header(text: &str) -> (h: Header)
    ensures
        h.text() == header_of(split_from(text@, '\n', 0)),
{
    let v = chars_of(text);
    let mut h = Header {
        canonical: None,
        type_: None,
        default: None,
        valid: None,
        applies: None,
        deprecated: None,
    };
    let mut start: usize = 0;
    let ghost mut done: Seq<Seq<char>> = Seq::empty();
    assert(done + split_from(v@, '\n', 0) =~= split_from(v@, '\n', 0));
    loop
        invariant
            start <= v@.len(),
            v@ == text@,
            done + split_from(v@, '\n', start as int) == split_from(v@, '\n', 0),
            h.text() == header_of(done),
        decreases v@.len() - start,
    {
        let mut end = start;
        while end < v.len() && v[end] != '\n'
            invariant
                start <= end <= v@.len(),
                forall|j: int| start <= j < end ==> v@[j] != '\n',
            decreases v@.len() - end,
        {
            end += 1;
        }
        let piece = crate::text::slice_chars(&v, start, end);
        proof {
            lemma_split_from_step(v@, '\n', start as int, end as int);
        }
        header_line(&mut h, &piece);
        proof {
            let d2 = done.push(piece@);
            assert(d2.drop_last() =~= done);
            if end < v@.len() {
                assert(d2 + split_from(v@, '\n', end + 1) =~= done + split_from(v@, '\n', start as int));
            } else {
                assert(d2 =~= done + split_from(v@, '\n', start as int));
            }
            done = d2;
        }
        if end == v.len() {
            assert(done =~= split_from(v@, '\n', 0));
            return h;
        }
        start = end + 1;
    }
}

/// Drop leading and trailing newlines.
fn trim_newlines(s: &str) -> (out: String)
    ensures
        out@ == trim_nl(s@),
{
    let v = chars_of(s);
    let mut a: usize = 0;
    let mut b: usize = v.len();
    assert(v@.subrange(0, v@.len() as int) =~= v@);
    while a < b && v[a] == '\n'
        invariant
            a <= b <= v@.len(),
            b == v@.len(),
            trim_nl(v@) == trim_nl(v@.subrange(a as int, b as int)),
        decreases b - a,
    {
        assert(v@.subrange(a as int, b as int).drop_first() =~= v@.subrange(a + 1, b as int));
        a += 1;
    }
    while a < b && v[b - 1] == '\n'
        invariant
            a <= b <= v@.len(),
            trim_nl(v@) == trim_nl(v@.subrange(a as int, b as int)),
            a < b ==> v@[a as int] != '\n',
        decreases b - a,
    {
        assert(v@.subrange(a as int, b as int).drop_last() =~= v@.subrange(a as int, b - 1));
        b -= 1;
    }
    string_from_chars(&crate::text::slice_chars(&v, a, b))
}

/// Split what follows a fence line into header and body at the first
/// blank line.
fn split_header_body(a: &[u8]) -> (r: (usize, usize))
    ensures
        r.0 <= r.1 <= a@.len(),
        hb_split(a@, 0) == (a@.take(r.0 as int), a@.skip(r.1 as int)),
{
    let mut idx: usize = 0;
    while idx < a.len()
        invariant
            idx <= a@.len(),
            hb_split(a@, 0) == hb_split(a@, idx as int),
        decreases a@.len() - idx,
    {
        let end = match find_byte(a, 0x0A, idx) {
            Some(j) => j + 1,
            None => a.len(),
        };
        let mut t = end;
        if t > idx && a[t - 1] == 0x0A {
            t -= 1;
        }
        if t > idx && a[t - 1] == 0x0D {
            t -= 1;
        }
        proof {
            let line = a@.subrange(idx as int, end as int);
            let t1 = if line.len() > 0 && line.last() == 0x0A {
                line.drop_last()
            } else {
                line
            };
            assert(strip_cr(t1).len() == t - idx);
        }
        if t == idx {
            return (idx, end);
        }
        idx = end;
    }
    assert(a@.take(a@.len() as int) =~= a@);
    assert(a@.skip(a@.len() as int) =~= Seq::<u8>::empty());
    (a.len(), a.len())
}

pub open spec fn issue_text(i: ParseIssue) -> (int, Seq<char>) {
    (i.line as int, i.message@)
}

pub open spec fn record_texts(v: Seq<Record>) -> Seq<RecordText> {
    v.map_values(|r: Record| r.text())
}

pub open spec fn issue_texts(v: Seq<ParseIssue>) -> Seq<(int, Seq<char>)> {
    v.map_values(|i: ParseIssue| issue_text(i))
}

pub open spec fn fence_model(v: Seq<(usize, usize, String)>) -> Seq<(int, int, Seq<char>)> {
    v.map_values(|f: (usize, usize, String)| (f.0 as int, f.1 as int, f.2@))
}


proof fn lemma_fence_model_push(v: Seq<(usize, usize, String)>, f: (usize, usize, String))
    ensures
        fence_model(v.push(f)) == fence_model(v).push((f.0 as int, f.1 as int, f.2@)),
{
    assert(fence_model(v.push(f)) =~= fence_model(v).push((f.0 as int, f.1 as int, f.2@)));
}

/// Collect every fence: byte offset, line number, anchor.
fn collect_fences(b: &[u8]) -> (fs: Vec<(usize, usize, String)>)
    requires
        b@.len() < usize::MAX,
    ensures
        fence_model(fs@) == fences_of(b@),
        forall|j: int| 0 <= j < fs@.len() ==> (#[trigger] fs@[j]).0 <= b@.len(),
        forall|j: int, k: int| 0 <= j < k < fs@.len() ==> (#[trigger] fs@[j]).0 < (#[trigger] fs@[k]).0,
{
    let mut fs: Vec<(usize, usize, String)> = Vec::new();
    let mut s: usize = 0;
    let mut k: usize = 0;
    assert(fence_model(fs@) =~= Seq::<(int, int, Seq<char>)>::empty());
    loop
        invariant
            s <= b@.len(),
            k <= s,
            b@.len() < usize::MAX,
            fences_of(b@) == fences_acc(b@, s as int, k + 1, fence_model(fs@)),
            forall|j: int| 0 <= j < fs@.len() ==> (#[trigger] fs@[j]).0 < s,
            forall|j: int, l: int| 0 <= j < l < fs@.len() ==> (#[trigger] fs@[j]).0 < (#[trigger] fs@[l]).0,
        decreases b@.len() - s,
    {
        let e = match find_byte(b, 0x0A, s) {
            Some(j) => j,
            None => b.len(),
        };
        let mut le = e;
        if le > s && b[le - 1] == 0x0D {
            le -= 1;
        }
        let line = lossy_text(&b[s..le]);
        proof {
            assert(b@.subrange(s as int, le as int) == strip_cr(b@.subrange(s as int, e as int)));
        }
        let ghost before = fs@;
        match fence_anchor(line.as_str()) {
            Some(a) => {
                let f = (s, k + 1, a.to_owned());
                proof {
                    lemma_fence_model_push(fs@, f);
                }
                fs.push(f);
            },
            None => {},
        }
        if e == b.len() {
            return fs;
        }
        s = e + 1;
        k = k + 1;
    }
}

/// Parse a fragment's text into records. Content before the first fence
/// is ignored; a record without `canonical:` is reported as an issue, and
/// the records that did parse are still returned.
pub fn parse(text: &str) -> (r: (Vec<Record>, Vec<ParseIssue>))
    requires
        vstd::utf8::encode_utf8(text@).len() < usize::MAX,
    ensures
        record_texts(r.0@) == parse_text(vstd::utf8::encode_utf8(text@)).0,
        issue_texts(r.1@) == parse_text(vstd::utf8::encode_utf8(text@)).1,
{
    let b = text.as_bytes();
    let fs = collect_fences(b);
    let ghost fm = fence_model(fs@);
    let mut records: Vec<Record> = Vec::new();
    let mut issues: Vec<ParseIssue> = Vec::new();
    let mut i: usize = 0;
    while i < fs.len()
        invariant
            i <= fs@.len(),
            fm == fence_model(fs@),
            fm == fences_of(b@),
            forall|j: int| 0 <= j < fs@.len() ==> (#[trigger] fs@[j]).0 <= b@.len(),
            forall|j: int, k: int| 0 <= j < k < fs@.len() ==> (#[trigger] fs@[j]).0 < (#[trigger] fs@[k]).0,
            (record_texts(records@), issue_texts(issues@)) == parse_acc(b@, fm, i as int),
        decreases fs@.len() - i,
    {
        let start = fs[i].0;
        let end = if i + 1 < fs.len() {
            fs[i + 1].0
        } else {
            b.len()
        };
        assert(fm[i as int].0 == start);
        let block = &b[start..end];
        assert(block@ == block_of(b@, fm, i as int));
        let after: &[u8] = match find_byte(block, 0x0A, 0) {
            Some(j) => &block[j + 1..block.len()],
            None => &[],
        };
        assert(after@ =~= after_first_line(block@));
        let (hl, bs) = split_header_body(after);
        let head = lossy_text(&after[0..hl]);
        let body = lossy_text(&after[bs..after.len()]);
        proof {
            assert(after@.subrange(0, hl as int) =~= after@.take(hl as int));
            assert(after@.subrange(bs as int, after@.len() as int) =~= after@.skip(bs as int));
        }
        let h = parse_header(head.as_str());
        let ghost rs_before = records@;
        let ghost is_before = issues@;
        match h.canonical {
            None => {
                let issue = ParseIssue {
                    line: fs[i].1,
                    message: "record has no `canonical:` field".to_owned(),
                };
                proof {
                    assert(issue_texts(issues@.push(issue)) =~= issue_texts(issues@).push(issue_text(issue)));
                }
                issues.push(issue);
            },
            Some(canonical) => {
                let rec = Record {
                    fence_offset: start,
                    anchor: fs[i].2.clone(),
                    canonical,
                    type_: h.type_,
                    default: h.default,
                    valid: h.valid,
                    applies: h.applies,
                    deprecated: h.deprecated,
                    body: trim_newlines(body.as_str()),
                };
                proof {
                    assert(record_texts(records@.push(rec)) =~= record_texts(records@).push(rec.text()));
                }
                records.push(rec);
            },
        }
        i += 1;
    }
    (records, issues)
}

} // verus!
