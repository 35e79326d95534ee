//! A small Markdown-to-terminal renderer for fragment bodies: paragraphs,
//! headings, bullet lists, and inline `**bold**`, `*emphasis*` and
//! `` `code` ``, word-wrapped to a width.
//!
//! A delimiter is markup only when its closer is present, so a delimiter
//! with no partner stays in the text. `*` and `**` also require tight
//! delimiters (no white space just inside either end), which keeps
//! arithmetic and globs literal.
use crate::text::{chars_of, extend_chars, extend_str, is_space, is_whitespace, string_from_chars};
use vstd::prelude::*;

verus! {

/// Terminal styling, toggled off for non-tty / `NO_COLOR` output.
#[derive(Clone, Copy, Debug)]
pub struct Style {
    color: bool,
}

/// `s` wrapped in the ANSI escape `code` when coloured.
pub open spec fn wrap_text(color: bool, s: Seq<char>, code: Seq<char>) -> Seq<char> {
    if color {
        "\x1b["@ + code + "m"@ + s + "\x1b[0m"@
    } else {
        s
    }
}

/// A run of text styled as code and/or bold (code innermost).
pub open spec fn span_text(color: bool, s: Seq<char>, bold: bool, code: bool) -> Seq<char> {
    let a = if code {
        wrap_text(color, s, "36"@)
    } else {
        s
    };
    if bold {
        wrap_text(color, a, "1"@)
    } else {
        a
    }
}

impl Style {
    pub closed spec fn colored(self) -> bool {
        self.color
    }

    pub fn new(color: bool) -> (s: Style)
        ensures
            s.colored() == color,
    {
        Style { color }
    }

    /// No ANSI: used for pipes and for deterministic output.
    pub fn plain() -> (s: Style)
        ensures
            !s.colored(),
    {
        Style { color: false }
    }

    fn wrap(self, s: &str, code: &str) -> (r: String)
        ensures
            r@ == wrap_text(self.colored(), s@, code@),
    {
        if self.color {
            let mut v: Vec<char> = Vec::new();
            extend_str(&mut v, "\x1b[");
            extend_str(&mut v, code);
            extend_str(&mut v, "m");
            extend_str(&mut v, s);
            extend_str(&mut v, "\x1b[0m");
            string_from_chars(&v)
        } else {
            s.to_owned()
        }
    }

    pub fn bold(self, s: &str) -> (r: String)
        ensures
            r@ == wrap_text(self.colored(), s@, "1"@),
    {
        self.wrap(s, "1")
    }

    pub fn dim(self, s: &str) -> (r: String)
        ensures
            r@ == wrap_text(self.colored(), s@, "2"@),
    {
        self.wrap(s, "2")
    }

    pub fn code(self, s: &str) -> (r: String)
        ensures
            r@ == wrap_text(self.colored(), s@, "36"@),
    {
        self.wrap(s, "36")
    }

    pub fn warn(self, s: &str) -> (r: String)
        ensures
            r@ == wrap_text(self.colored(), s@, "1;31"@),
    {
        self.wrap(s, "1;31")
    }

    fn span(self, s: &str, bold: bool, code: bool) -> (r: String)
        ensures
            r@ == span_text(self.colored(), s@, bold, code),
    {
        let mut out = s.to_owned();
        if code {
            out = self.code(out.as_str());
        }
        if bold {
            out = self.bold(out.as_str());
        }
        out
    }
}

// ---------------------------------------------------------------------------
// Inline markup.
// ---------------------------------------------------------------------------

/// How many `d` run consecutively from `i`.
pub open spec fn run_len(c: Seq<char>, i: int, d: char) -> nat
    decreases c.len() - i,
{
    if 0 <= i < c.len() && c[i] == d {
        1 + run_len(c, i + 1, d)
    } else {
        0
    }
}

/// The first closer at or after `i`: a run of exactly `n` delimiters, after
/// `from`, inside `to`, and (with `tight`) not preceded by white space.
pub open spec fn closer_from(c: Seq<char>, from: int, to: int, d: char, n: nat, tight: bool, i: int) -> Option<int>
    decreases to - i,
{
    if i < 0 || i >= to || i >= c.len() {
        None
    } else if c[i] == d && i > from && run_len(c, i, d) == n && (!tight || !is_space(c[i - 1])) && i + n
        <= to {
        Some(i)
    } else {
        closer_from(c, from, to, d, n, tight, i + 1)
    }
}

/// Where the span opened before `from` closes, or `None` if it never does,
/// in which case the opener is not markup at all.
pub open spec fn find_closer(c: Seq<char>, from: int, to: int, d: char, n: nat, tight: bool) -> Option<int> {
    if from < 0 || from >= to || from >= c.len() || (tight && is_space(c[from])) {
        None
    } else {
        closer_from(c, from, to, d, n, tight, from)
    }
}

pub proof fn lemma_closer_from(c: Seq<char>, from: int, to: int, d: char, n: nat, tight: bool, i: int)
    requires
        0 <= i,
    ensures
        closer_from(c, from, to, d, n, tight, i) matches Some(k) ==> i <= k && from < k && k + n <= to
            && k < c.len(),
    decreases to - i,
{
    if 0 <= i < to && i < c.len() {
        lemma_closer_from(c, from, to, d, n, tight, i + 1);
    }
}

/// A styled run: its text, bold, code.
pub type SegText = (Seq<char>, bool, bool);

/// The text gathered so far, and the runs finished.
pub type InlineState = (Seq<char>, Seq<SegText>);

/// Close the text gathered so far into a run with the given styles.
pub open spec fn flush_state(st: InlineState, bold: bool, code: bool) -> InlineState {
    if st.0.len() > 0 {
        (Seq::empty(), st.1.push((st.0, bold, code)))
    } else {
        st
    }
}

pub open spec fn star_width(c: Seq<char>, i: int) -> nat {
    if run_len(c, i, '*') >= 2 {
        2
    } else {
        run_len(c, i, '*')
    }
}

/// Walk `c[i..to]` under the given styles, recursing into each span so that
/// nesting carries both.
pub open spec fn emit_spec(c: Seq<char>, i: int, to: int, bold: bool, code: bool, st: InlineState) -> InlineState
    decreases to - i,
{
    if i < 0 || i >= to || to > c.len() {
        st
    } else if code {
        emit_spec(c, i + 1, to, bold, code, (st.0.push(c[i]), st.1))
    } else if c[i] == '`' && find_closer(c, i + 1, to, '`', 1, false) is Some {
        let close = find_closer(c, i + 1, to, '`', 1, false)->0;
        proof {
            lemma_closer_from(c, i + 1, to, '`', 1, false, i + 1);
        }
        let s1 = flush_state(st, bold, code);
        let s2 = emit_spec(c, i + 1, close, bold, true, s1);
        let s3 = flush_state(s2, bold, true);
        emit_spec(c, close + 1, to, bold, code, s3)
    } else if c[i] == '*' && find_closer(c, i + star_width(c, i), to, '*', star_width(c, i), true)
        is Some {
        let n = star_width(c, i);
        let close = find_closer(c, i + n, to, '*', n, true)->0;
        proof {
            lemma_closer_from(c, i + n, to, '*', n, true, i + n);
        }
        if n == 2 {
            let s1 = flush_state(st, bold, code);
            let s2 = emit_spec(c, i + 2, close, true, code, s1);
            let s3 = flush_state(s2, true, code);
            emit_spec(c, close + 2, to, bold, code, s3)
        } else {
            let s2 = emit_spec(c, i + n, close, bold, code, st);
            emit_spec(c, close + n, to, bold, code, s2)
        }
    } else {
        emit_spec(c, i + 1, to, bold, code, (st.0.push(c[i]), st.1))
    }
}

/// The styled runs of a text.
pub open spec fn inline_segs(s: Seq<char>) -> Seq<SegText> {
    flush_state(emit_spec(s, 0, s.len() as int, false, false, (Seq::empty(), Seq::empty())), false, false).1
}

/// The text of the runs, markup removed.
pub open spec fn seg_chars(segs: Seq<SegText>) -> Seq<char>
    decreases segs.len(),
{
    if segs.len() == 0 {
        Seq::empty()
    } else {
        seg_chars(segs.drop_last()) + segs.last().0
    }
}

struct Seg {
    text: String,
    bold: bool,
    code: bool,
}

spec fn seg_view(s: Seg) -> SegText {
    (s.text@, s.bold, s.code)
}

spec fn segs_view(v: Seq<Seg>) -> Seq<SegText> {
    v.map_values(|s: Seg| seg_view(s))
}

fn run_len_exec(c: &Vec<char>, i: usize, d: char) -> (r: usize)
    requires
        i <= c@.len(),
    ensures
        r == run_len(c@, i as int, d),
        i + r <= c@.len(),
{
    let mut j = i;
    while j < c.len() && c[j] == d
        invariant
            i <= j <= c@.len(),
            run_len(c@, i as int, d) == (j - i) + run_len(c@, j as int, d),
        decreases c@.len() - j,
    {
        j += 1;
    }
    j - i
}

fn find_closer_exec(c: &Vec<char>, from: usize, to: usize, d: char, n: usize, tight: bool) -> (r: Option<usize>)
    requires
        to <= c@.len(),
    ensures
        r matches Some(k) ==> find_closer(c@, from as int, to as int, d, n as nat, tight) == Some(k as int),
        r is None ==> find_closer(c@, from as int, to as int, d, n as nat, tight) is None,
{
    if from >= to || (tight && is_whitespace(c[from])) {
        return None;
    }
    let mut i = from;
    while i < to
        invariant
            from <= i <= to <= c@.len(),
            from < to,
            !(tight && is_space(c@[from as int])),
            closer_from(c@, from as int, to as int, d, n as nat, tight, from as int) == closer_from(
                c@,
                from as int,
                to as int,
                d,
                n as nat,
                tight,
                i as int,
            ),
        decreases to - i,
    {
        if c[i] == d && i > from {
            let r = run_len_exec(c, i, d);
            if r == n {
                let ok = !tight || !is_whitespace(c[i - 1]);
                if ok && n <= to - i {
                    assert(closer_from(c@, from as int, to as int, d, n as nat, tight, i as int) == Some(
                        i as int,
                    ));
                    assert(find_closer(c@, from as int, to as int, d, n as nat, tight) == closer_from(
                        c@,
                        from as int,
                        to as int,
                        d,
                        n as nat,
                        tight,
                        from as int,
                    ));
                    return Some(i);
                }
            }
        }
        i += 1;
    }
    None
}

fn flush_seg(segs: &mut Vec<Seg>, buf: &mut Vec<char>, bold: bool, code: bool)
    ensures
        (final(buf)@, segs_view(final(segs)@)) == flush_state((old(buf)@, segs_view(old(segs)@)), bold, code),
{
    if buf.len() > 0 {
        let text = string_from_chars(buf);
        let seg = Seg { text, bold, code };
        proof {
            assert(segs_view(segs@.push(seg)) =~= segs_view(segs@).push(seg_view(seg)));
        }
        segs.push(seg);
        *buf = Vec::new();
    }
}

fn emit(c: &Vec<char>, from: usize, to: usize, bold: bool, code: bool, buf: &mut Vec<char>, segs: &mut Vec<Seg>)
    requires
        from <= to <= c@.len(),
    ensures
        (final(buf)@, segs_view(final(segs)@)) == emit_spec(
            c@,
            from as int,
            to as int,
            bold,
            code,
            (old(buf)@, segs_view(old(segs)@)),
        ),
    decreases to - from,
{
    let mut i = from;
    while i < to
        invariant
            from <= i <= to <= c@.len(),
            emit_spec(c@, from as int, to as int, bold, code, (old(buf)@, segs_view(old(segs)@)))
                == emit_spec(c@, i as int, to as int, bold, code, (buf@, segs_view(segs@))),
        decreases to - i,
    {
        let ch = c[i];
        if code {
            buf.push(ch);
            i += 1;
            continue;
        }
        if ch == '`' {
            match find_closer_exec(c, i + 1, to, '`', 1, false) {
                Some(close) => {
                    proof {
                        lemma_closer_from(c@, i + 1, to as int, '`', 1, false, i + 1);
                    }
                    flush_seg(segs, buf, bold, code);
                    emit(c, i + 1, close, bold, true, buf, segs);
                    flush_seg(segs, buf, bold, true);
                    i = close + 1;
                    continue;
                },
                None => {},
            }
        } else if ch == '*' {
            let r = run_len_exec(c, i, '*');
            let n: usize = if r >= 2 {
                2
            } else {
                r
            };
            assert(n == star_width(c@, i as int));
            if n <= to - i {
                match find_closer_exec(c, i + n, to, '*', n, true) {
                    Some(close) => {
                        proof {
                            lemma_closer_from(c@, i + n, to as int, '*', n as nat, true, i + n);
                        }
                        if n == 2 {
                            flush_seg(segs, buf, bold, code);
                            emit(c, i + 2, close, true, code, buf, segs);
                            flush_seg(segs, buf, true, code);
                        } else {
                            emit(c, i + n, close, bold, code, buf, segs);
                        }
                        i = close + n;
                        continue;
                    },
                    None => {},
                }
            } else {
                assert(find_closer(c@, i + n, to as int, '*', n as nat, true) is None);
            }
        }
        buf.push(ch);
        i += 1;
    }
}

fn parse_inline(s: &str) -> (segs: Vec<Seg>)
    ensures
        segs_view(segs@) == inline_segs(s@),
{
    let c = chars_of(s);
    let mut segs: Vec<Seg> = Vec::new();
    let mut buf: Vec<char> = Vec::new();
    assert(segs_view(segs@) =~= Seq::<SegText>::empty());
    assert(buf@ =~= Seq::<char>::empty());
    emit(&c, 0, c.len(), false, false, &mut buf, &mut segs);
    flush_seg(&mut segs, &mut buf, false, false);
    segs
}

/// Strip inline markup to plain text, for one-line contexts where styling
/// and wrapping do not apply.
pub fn strip_inline(s: &str) -> (r: String)
    ensures
        r@ == seg_chars(inline_segs(s@)),
{
    let segs = parse_inline(s);
    let mut v: Vec<char> = Vec::new();
    let mut i: usize = 0;
    while i < segs.len()
        invariant
            i <= segs@.len(),
            v@ == seg_chars(segs_view(segs@).take(i as int)),
        decreases segs@.len() - i,
    {
        extend_str(&mut v, segs[i].text.as_str());
        i += 1;
        assert(segs_view(segs@).take(i as int).drop_last() =~= segs_view(segs@).take(i - 1));
    }
    assert(segs_view(segs@).take(segs@.len() as int) =~= segs_view(segs@));
    string_from_chars(&v)
}


// ---------------------------------------------------------------------------
// Words and wrapping.
// ---------------------------------------------------------------------------

proof fn lemma_seg_chars_push(segs: Seq<SegText>, x: SegText)
    ensures
        seg_chars(segs.push(x)) == seg_chars(segs) + x.0,
{
    assert(segs.push(x).drop_last() =~= segs);
}

/// Inline parsing never adds characters: what the runs hold is at most
/// what was walked.
proof fn lemma_emit_len(c: Seq<char>, i: int, to: int, bold: bool, code: bool, st: InlineState)
    ensures
        ({
            let r = emit_spec(c, i, to, bold, code, st);
            r.0.len() + seg_chars(r.1).len() <= st.0.len() + seg_chars(st.1).len() + (if to > i {
                to - i
            } else {
                0
            })
        }),
    decreases to - i,
{
    if i < 0 || i >= to || to > c.len() {
    } else if code {
        lemma_emit_len(c, i + 1, to, bold, code, (st.0.push(c[i]), st.1));
    } else if c[i] == '`' && find_closer(c, i + 1, to, '`', 1, false) is Some {
        let close = find_closer(c, i + 1, to, '`', 1, false)->0;
        lemma_closer_from(c, i + 1, to, '`', 1, false, i + 1);
        let s1 = flush_state(st, bold, code);
        if st.0.len() > 0 {
            lemma_seg_chars_push(st.1, (st.0, bold, code));
        }
        lemma_emit_len(c, i + 1, close, bold, true, s1);
        let s2 = emit_spec(c, i + 1, close, bold, true, s1);
        let s3 = flush_state(s2, bold, true);
        if s2.0.len() > 0 {
            lemma_seg_chars_push(s2.1, (s2.0, bold, true));
        }
        lemma_emit_len(c, close + 1, to, bold, code, s3);
    } else if c[i] == '*' && find_closer(c, i + star_width(c, i), to, '*', star_width(c, i), true)
        is Some {
        let n = star_width(c, i);
        let close = find_closer(c, i + n, to, '*', n, true)->0;
        lemma_closer_from(c, i + n, to, '*', n, true, i + n);
        if n == 2 {
            let s1 = flush_state(st, bold, code);
            if st.0.len() > 0 {
                lemma_seg_chars_push(st.1, (st.0, bold, code));
            }
            lemma_emit_len(c, i + 2, close, true, code, s1);
            let s2 = emit_spec(c, i + 2, close, true, code, s1);
            let s3 = flush_state(s2, true, code);
            if s2.0.len() > 0 {
                lemma_seg_chars_push(s2.1, (s2.0, true, code));
            }
            lemma_emit_len(c, close + 2, to, bold, code, s3);
        } else {
            lemma_emit_len(c, i + n, close, bold, code, st);
            let s2 = emit_spec(c, i + n, close, bold, code, st);
            lemma_emit_len(c, close + n, to, bold, code, s2);
        }
    } else {
        lemma_emit_len(c, i + 1, to, bold, code, (st.0.push(c[i]), st.1));
    }
}

proof fn lemma_seg_chars_prefix(s: Seq<SegText>, k: int)
    requires
        0 < k <= s.len(),
    ensures
        seg_chars(s.take(k)) == seg_chars(s.take(k - 1)) + s[k - 1].0,
        seg_chars(s.take(k)).len() <= seg_chars(s).len(),
    decreases s.len(),
{
    assert(s.take(k).drop_last() =~= s.take(k - 1));
    if k < s.len() {
        lemma_seg_chars_prefix(s.drop_last(), k);
        assert(s.drop_last().take(k) =~= s.take(k));
    } else {
        assert(s.take(k) =~= s);
    }
}

proof fn lemma_inline_len(s: Seq<char>)
    ensures
        seg_chars(inline_segs(s)).len() <= s.len(),
{
    let st0: InlineState = (Seq::empty(), Seq::empty());
    lemma_emit_len(s, 0, s.len() as int, false, false, st0);
    let r = emit_spec(s, 0, s.len() as int, false, false, st0);
    if r.0.len() > 0 {
        lemma_seg_chars_push(r.1, (r.0, false, false));
    }
}

/// A word: its visible width, and its styled text.
pub type WordText = (nat, Seq<char>);

/// Add a styled piece to the word being built.
pub open spec fn push_piece(color: bool, cur: WordText, piece: Seq<char>, bold: bool, code: bool) -> WordText {
    if piece.len() == 0 {
        cur
    } else {
        (cur.0 + piece.len(), cur.1 + span_text(color, piece, bold, code))
    }
}

/// Split run text `t` from `j` on into words: white space ends a word.
pub open spec fn seg_words(
    color: bool,
    t: Seq<char>,
    bold: bool,
    code: bool,
    j: int,
    cur: WordText,
    piece: Seq<char>,
    words: Seq<WordText>,
) -> (WordText, Seq<WordText>)
    decreases t.len() - j,
{
    if j < 0 || j >= t.len() {
        (push_piece(color, cur, piece, bold, code), words)
    } else if is_space(t[j]) {
        let c2 = push_piece(color, cur, piece, bold, code);
        if c2.0 > 0 {
            seg_words(color, t, bold, code, j + 1, (0, Seq::empty()), Seq::empty(), words.push(c2))
        } else {
            seg_words(color, t, bold, code, j + 1, c2, Seq::empty(), words)
        }
    } else {
        seg_words(color, t, bold, code, j + 1, cur, piece.push(t[j]), words)
    }
}

/// The words of the runs from the `k`-th on.
pub open spec fn all_words(color: bool, segs: Seq<SegText>, k: int, cur: WordText, words: Seq<WordText>) -> Seq<WordText>
    decreases segs.len() - k,
{
    if k < 0 || k >= segs.len() {
        if cur.0 > 0 {
            words.push(cur)
        } else {
            words
        }
    } else {
        let r = seg_words(color, segs[k].0, segs[k].1, segs[k].2, 0, cur, Seq::empty(), words);
        all_words(color, segs, k + 1, r.0, r.1)
    }
}

/// Lay words out greedily in lines of at most `width` visible columns.
pub open spec fn fill(words: Seq<WordText>, k: int, col: int, width: int, out: Seq<char>) -> Seq<char>
    decreases words.len() - k,
{
    if k < 0 || k >= words.len() {
        out
    } else {
        let w = words[k];
        if col == 0 {
            fill(words, k + 1, w.0 as int, width, out + w.1)
        } else if col + 1 + w.0 <= width {
            fill(words, k + 1, col + 1 + w.0, width, out + " "@ + w.1)
        } else {
            fill(words, k + 1, w.0 as int, width, out + "\n"@ + w.1)
        }
    }
}

/// One paragraph, styled and word-wrapped to `width` (at least one) visible
/// columns.
pub open spec fn layout_text(color: bool, text: Seq<char>, width: int) -> Seq<char> {
    fill(
        all_words(color, inline_segs(text), 0, (0, Seq::empty()), Seq::empty()),
        0,
        0,
        if width >= 1 {
            width
        } else {
            1
        },
        Seq::empty(),
    )
}

struct Word {
    vis: usize,
    styled: String,
}

spec fn word_view(w: Word) -> WordText {
    (w.vis as nat, w.styled@)
}

spec fn words_view(v: Seq<Word>) -> Seq<WordText> {
    v.map_values(|w: Word| word_view(w))
}

fn push_piece_exec(cur: &mut Word, piece: &mut Vec<char>, bold: bool, code: bool, style: Style)
    requires
        old(cur).vis + old(piece)@.len() <= usize::MAX,
    ensures
        word_view(*final(cur)) == push_piece(style.colored(), word_view(*old(cur)), old(piece)@, bold, code),
        final(piece)@ == Seq::<char>::empty(),
{
    if piece.len() == 0 {
        assert(piece@ =~= Seq::<char>::empty());
        return;
    }
    cur.vis = cur.vis + piece.len();
    let p = string_from_chars(piece);
    let styled = style.span(p.as_str(), bold, code);
    let mut v = chars_of(cur.styled.as_str());
    extend_str(&mut v, styled.as_str());
    cur.styled = string_from_chars(&v);
    *piece = Vec::new();
    assert(piece@ =~= Seq::<char>::empty());
}

fn layout_paragraph(text: &str, width: usize, style: Style) -> (out: String)
    requires
        text@.len() < usize::MAX,
    ensures
        out@ == layout_text(style.colored(), text@, width as int),
{
    let segs = parse_inline(text);
    let ghost sv = segs_view(segs@);
    proof {
        lemma_inline_len(text@);
    }
    let mut words: Vec<Word> = Vec::new();
    let mut cur = Word { vis: 0, styled: String::new() };
    let mut k: usize = 0;
    let ghost mut done: nat = 0;
    assert(words_view(words@) =~= Seq::<WordText>::empty());
    assert(cur.styled@ =~= Seq::<char>::empty());
    while k < segs.len()
        invariant
            k <= segs@.len(),
            sv == segs_view(segs@),
            sv == inline_segs(text@),
            seg_chars(sv).len() < usize::MAX,
            done == seg_chars(sv.take(k as int)).len(),
            cur.vis <= done,
            forall|j: int| 0 <= j < words@.len() ==> (#[trigger] words@[j]).vis <= seg_chars(sv).len(),
            all_words(style.colored(), sv, 0, (0, Seq::empty()), Seq::empty()) == all_words(
                style.colored(),
                sv,
                k as int,
                word_view(cur),
                words_view(words@),
            ),
        decreases segs@.len() - k,
    {
        let seg = &segs[k];
        let t = chars_of(seg.text.as_str());
        assert(sv[k as int] == seg_view(*seg));
        proof {
            assert(sv.take(k + 1).drop_last() =~= sv.take(k as int));
            lemma_seg_chars_prefix(sv, k + 1);
        }
        let mut piece: Vec<char> = Vec::new();
        let mut j: usize = 0;
        let ghost base = done;
        let ghost cur0 = word_view(cur);
        let ghost words0 = words_view(words@);
        assert(piece@ =~= Seq::<char>::empty());
        while j < t.len()
            invariant
                j <= t@.len(),
                t@ == seg.text@,
                sv[k as int] == seg_view(*seg),
                base + t@.len() <= seg_chars(sv).len(),
                seg_chars(sv).len() < usize::MAX,
                cur.vis + piece@.len() <= base + j,
                forall|i: int| 0 <= i < words@.len() ==> (#[trigger] words@[i]).vis <= seg_chars(sv).len(),
                seg_words(style.colored(), t@, seg.bold, seg.code, 0, cur0, Seq::empty(), words0)
                    == seg_words(style.colored(), t@, seg.bold, seg.code, j as int, word_view(cur), piece@, words_view(words@)),
            decreases t@.len() - j,
        {
            let ch = t[j];
            if is_whitespace(ch) {
                push_piece_exec(&mut cur, &mut piece, seg.bold, seg.code, style);
                if cur.vis > 0 {
                    let w = Word { vis: cur.vis, styled: cur.styled.clone() };
                    proof {
                        assert(words_view(words@.push(w)) =~= words_view(words@).push(word_view(w)));
                    }
                    words.push(w);
                    cur = Word { vis: 0, styled: String::new() };
                    assert(word_view(cur) == (0nat, Seq::<char>::empty()));
                }
            } else {
                piece.push(ch);
            }
            j += 1;
        }
        push_piece_exec(&mut cur, &mut piece, seg.bold, seg.code, style);
        proof {
            done = done + t@.len();
        }
        k += 1;
    }
    assert(sv.take(segs@.len() as int) =~= sv);
    if cur.vis > 0 {
        proof {
            assert(words_view(words@.push(cur)) =~= words_view(words@).push(word_view(cur)));
        }
        words.push(cur);
    }
    let ghost wv = words_view(words@);
    let w = if width >= 1 {
        width
    } else {
        1
    };
    let mut out: Vec<char> = Vec::new();
    let mut col: usize = 0;
    let mut i: usize = 0;
    assert(out@ =~= Seq::<char>::empty());
    while i < words.len()
        invariant
            i <= words@.len(),
            wv == words_view(words@),
            w >= 1,
            col <= w || (i > 0 && col == words@[i - 1].vis),
            forall|j: int| 0 <= j < words@.len() ==> (#[trigger] words@[j]).vis < usize::MAX,
            fill(wv, 0, 0, w as int, Seq::empty()) == fill(wv, i as int, col as int, w as int, out@),
        decreases words@.len() - i,
    {
        let wd = &words[i];
        assert(wv[i as int] == word_view(*wd));
        proof {
            reveal_strlit(" ");
            reveal_strlit("\n");
        }
        let ghost o0 = out@;
        if col == 0 {
            extend_str(&mut out, wd.styled.as_str());
            col = wd.vis;
        } else if wd.vis < w && col < w - wd.vis {
            out.push(' ');
            extend_str(&mut out, wd.styled.as_str());
            assert(out@ =~= o0 + " "@ + wd.styled@);
            col = col + 1 + wd.vis;
        } else {
            out.push('\n');
            extend_str(&mut out, wd.styled.as_str());
            assert(out@ =~= o0 + "\n"@ + wd.styled@);
            col = wd.vis;
        }
        i += 1;
    }
    string_from_chars(&out)
}


// ---------------------------------------------------------------------------
// Blocks: paragraphs, headings, bullets.
// ---------------------------------------------------------------------------

/// A line without one trailing carriage return.
pub open spec fn strip_cr_text(l: Seq<char>) -> Seq<char> {
    if l.len() > 0 && l.last() == '\r' {
        l.drop_last()
    } else {
        l
    }
}

/// Where the line starting at `start` ends: its newline, or the end.
pub open spec fn nl_from(s: Seq<char>, start: int) -> int {
    match crate::text::first_from(s, '\n', start) {
        Some(j) => j,
        None => s.len() as int,
    }
}

/// `str::lines` from `start` on: no line after a final newline, none at all
/// for an empty text, one carriage return dropped from each line's end.
pub open spec fn lines_from(s: Seq<char>, start: int) -> Seq<Seq<char>>
    decreases s.len() - start,
{
    if start < 0 || start >= s.len() {
        Seq::empty()
    } else {
        let end = nl_from(s, start);
        proof {
            crate::regman::fragment::lemma_first_from_range(s, '\n', start);
        }
        let l = strip_cr_text(s.subrange(start, end));
        if end >= s.len() {
            seq![l]
        } else {
            seq![l] + lines_from(s, end + 1)
        }
    }
}

/// The text without leading `#` characters.
pub open spec fn drop_hashes(t: Seq<char>) -> Seq<char>
    decreases t.len(),
{
    if t.len() > 0 && t[0] == '#' {
        drop_hashes(t.drop_first())
    } else {
        t
    }
}

pub open spec fn heading_text(t: Seq<char>) -> Option<Seq<char>> {
    if t.len() > 0 && t[0] == '#' {
        Some(crate::text::trim(drop_hashes(t)))
    } else {
        None
    }
}

pub open spec fn bullet_text(t: Seq<char>) -> Option<Seq<char>> {
    if t.len() >= 2 && (t[0] == '-' || t[0] == '*') && t[1] == ' ' {
        Some(crate::text::trim(t.skip(2)))
    } else {
        None
    }
}

/// A wrapped bullet's lines: the first after the marker, the rest hung
/// under its text.
pub open spec fn item_lines(ls: Seq<Seq<char>>, i: int) -> Seq<char>
    decreases ls.len() - i,
{
    if i < 0 || i >= ls.len() {
        Seq::empty()
    } else {
        (if i == 0 {
            "  - "@
        } else {
            "    "@
        }) + ls[i] + "\n"@ + item_lines(ls, i + 1)
    }
}

pub open spec fn sat_sub(a: int, b: int) -> int {
    if a >= b {
        a - b
    } else {
        0
    }
}

pub open spec fn flush_item_text(color: bool, out: Seq<char>, item: Option<Seq<Seq<char>>>, width: int) -> Seq<char> {
    match item {
        None => out,
        Some(ls) => out + item_lines(
            lines_from(layout_text(color, crate::text::joined(ls, " "@), sat_sub(width, 4)), 0),
            0,
        ),
    }
}

pub open spec fn flush_para_text(color: bool, out: Seq<char>, para: Seq<Seq<char>>, width: int) -> Seq<char> {
    if para.len() == 0 {
        out
    } else {
        out + layout_text(color, crate::text::joined(para, " "@), width) + "\n"@
    }
}

/// The output so far, the paragraph being gathered, the bullet being
/// gathered.
pub type BlockState = (Seq<char>, Seq<Seq<char>>, Option<Seq<Seq<char>>>);

pub open spec fn flush_both(color: bool, st: BlockState, width: int) -> Seq<char> {
    flush_para_text(color, flush_item_text(color, st.0, st.2, width), st.1, width)
}

/// One source line: a blank line ends the block, a heading stands alone, a
/// bullet starts an item, and other text continues the open item or
/// paragraph.
pub open spec fn block_step(color: bool, st: BlockState, line: Seq<char>, width: int) -> BlockState {
    let t = crate::text::trim(line);
    if t.len() == 0 {
        (flush_both(color, st, width) + "\n"@, Seq::empty(), None)
    } else if heading_text(t) is Some {
        (flush_both(color, st, width) + wrap_text(color, heading_text(t)->0, "1"@) + "\n"@, Seq::empty(), None)
    } else if bullet_text(t) is Some {
        (flush_both(color, st, width), Seq::empty(), Some(seq![bullet_text(t)->0]))
    } else if st.2 is Some {
        (st.0, st.1, Some(st.2->0.push(t)))
    } else {
        (st.0, st.1.push(t), st.2)
    }
}

pub open spec fn blocks(color: bool, lines: Seq<Seq<char>>, width: int) -> BlockState
    decreases lines.len(),
{
    if lines.len() == 0 {
        (Seq::empty(), Seq::empty(), None)
    } else {
        block_step(color, blocks(color, lines.drop_last(), width), lines.last(), width)
    }
}

/// A text without its trailing newlines.
pub open spec fn drop_trailing_nl(s: Seq<char>) -> Seq<char>
    decreases s.len(),
{
    if s.len() > 0 && s.last() == '\n' {
        drop_trailing_nl(s.drop_last())
    } else {
        s
    }
}

/// A body rendered: styled, wrapped, no leading or trailing blank lines
/// added.
pub open spec fn render_text(color: bool, body: Seq<char>, width: int) -> Seq<char> {
    let st = blocks(color, lines_from(body, 0), width);
    drop_trailing_nl(flush_both(color, st, width))
}


pub open spec fn strs(v: Seq<String>) -> Seq<Seq<char>> {
    v.map_values(|x: String| x@)
}

/// Each line's length plus one, summed.
pub open spec fn total_len(ls: Seq<Seq<char>>) -> int
    decreases ls.len(),
{
    if ls.len() == 0 {
        0
    } else {
        total_len(ls.drop_last()) + ls.last().len() + 1
    }
}

proof fn lemma_total_len_concat(a: Seq<Seq<char>>, b: Seq<Seq<char>>)
    ensures
        total_len(a + b) == total_len(a) + total_len(b),
    decreases b.len(),
{
    if b.len() == 0 {
        assert(a + b =~= a);
    } else {
        assert((a + b).drop_last() =~= a + b.drop_last());
        lemma_total_len_concat(a, b.drop_last());
    }
}

proof fn lemma_total_nonneg(ls: Seq<Seq<char>>)
    ensures
        total_len(ls) >= 0,
    decreases ls.len(),
{
    if ls.len() > 0 {
        lemma_total_nonneg(ls.drop_last());
    }
}

proof fn lemma_lines_total(s: Seq<char>, start: int)
    requires
        0 <= start,
    ensures
        total_len(lines_from(s, start)) <= (if s.len() >= start {
            s.len() - start
        } else {
            0
        }) + 1,
    decreases s.len() - start,
{
    if start < s.len() {
        crate::regman::fragment::lemma_first_from_range(s, '\n', start);
        let end = nl_from(s, start);
        let l = strip_cr_text(s.subrange(start, end));
        assert(seq![l].drop_last() =~= Seq::<Seq<char>>::empty());
        assert(l.len() <= end - start);
        assert(total_len(Seq::<Seq<char>>::empty()) == 0);
        assert(total_len(seq![l]) == l.len() + 1);
        if end < s.len() {
            lemma_lines_total(s, end + 1);
            lemma_total_len_concat(seq![l], lines_from(s, end + 1));
        }
    }
}

/// `str::lines`, as owned strings.
pub fn lines_of(s: &str) -> (out: Vec<String>)
    ensures
        strs(out@) == lines_from(s@, 0),
{
    let v = chars_of(s);
    let mut out: Vec<String> = Vec::new();
    let mut start: usize = 0;
    assert(strs(out@) + lines_from(v@, 0) =~= lines_from(v@, 0));
    while start < v.len()
        invariant
            start <= v@.len(),
            v@ == s@,
            strs(out@) + lines_from(v@, start as int) == lines_from(v@, 0),
        decreases v@.len() - start,
    {
        let mut end = start;
        while end < v.len() && v[end] != '\n'
            invariant
                start <= end <= v@.len(),
                forall|j: int| start <= j < end ==> v@[j] != '\n',
            decreases v@.len() - end,
        {
            end += 1;
        }
        proof {
            crate::regman::fragment::lemma_first_from_range(v@, '\n', start as int);
            if end < v@.len() {
                assert(crate::text::first_from(v@, '\n', start as int) == Some(end as int)) by {
                    if crate::text::first_from(v@, '\n', start as int) is Some {
                        let k = crate::text::first_from(v@, '\n', start as int)->0;
                        if k < end {
                            assert(v@[k] != '\n');
                        }
                    }
                }
            } else {
                assert(crate::text::first_from(v@, '\n', start as int) is None) by {
                    if crate::text::first_from(v@, '\n', start as int) is Some {
                        let k = crate::text::first_from(v@, '\n', start as int)->0;
                        assert(v@[k] != '\n');
                    }
                }
            }
        }
        let mut e2 = end;
        if e2 > start && v[e2 - 1] == '\r' {
            e2 -= 1;
        }
        let piece = crate::text::slice_chars(&v, start, e2);
        assert(piece@ =~= strip_cr_text(v@.subrange(start as int, end as int)));
        let t = string_from_chars(&piece);
        let ghost before = strs(out@);
        proof {
            assert(strs(out@.push(t)) =~= strs(out@).push(t@));
        }
        out.push(t);
        if end == v.len() {
            assert(strs(out@) =~= before + lines_from(v@, start as int));
            return out;
        }
        assert(strs(out@) + lines_from(v@, end + 1) =~= before + lines_from(v@, start as int));
        start = end + 1;
    }
    assert(lines_from(v@, start as int) =~= Seq::<Seq<char>>::empty());
    assert(strs(out@) =~= lines_from(v@, 0));
    out
}

proof fn lemma_joined_push(ps: Seq<Seq<char>>, t: Seq<char>)
    ensures
        crate::text::joined(ps.push(t), " "@).len() == if ps.len() == 0 {
            t.len() as int
        } else {
            (crate::text::joined(ps, " "@).len() + 1 + t.len()) as int
        },
{
    reveal_strlit(" ");
    assert(ps.push(t).drop_last() =~= ps);
}

fn flush_item(out: &mut Vec<char>, item: &mut Option<Vec<String>>, width: usize, style: Style)
    requires
        *old(item) matches Some(ls) ==> crate::text::joined(strs(ls@), " "@).len() < usize::MAX,
    ensures
        final(out)@ == flush_item_text(
            style.colored(),
            old(out)@,
            match *old(item) {
                Some(ls) => Some(strs(ls@)),
                None => None,
            },
            width as int,
        ),
        *final(item) is None,
{
    let taken = item.take();
    match taken {
        None => {},
        Some(lines) => {
            let joined_text = string_from_chars(&crate::text::join_strings(&lines, " "));
            let wrapped = layout_paragraph(joined_text.as_str(), width.saturating_sub(4), style);
            let ls = lines_of(wrapped.as_str());
            let ghost o0 = out@;
            let ghost lv = strs(ls@);
            let mut i: usize = 0;
            assert(o0 + item_lines(lv, 0) == o0 + item_lines(lv, 0));
            while i < ls.len()
                invariant
                    i <= ls@.len(),
                    lv == strs(ls@),
                    o0 + item_lines(lv, 0) == out@ + item_lines(lv, i as int),
                decreases ls@.len() - i,
            {
                let ghost o1 = out@;
                if i == 0 {
                    extend_str(out, "  - ");
                } else {
                    extend_str(out, "    ");
                }
                extend_str(out, ls[i].as_str());
                extend_str(out, "\n");
                assert(lv[i as int] == ls@[i as int]@);
                assert(out@ + item_lines(lv, i + 1) =~= o1 + item_lines(lv, i as int));
                i += 1;
            }
            assert(item_lines(lv, ls@.len() as int) =~= Seq::<char>::empty());
            assert(out@ =~= o0 + item_lines(lv, 0));
        },
    }
}

fn flush_para(out: &mut Vec<char>, para: &mut Vec<String>, width: usize, style: Style)
    requires
        crate::text::joined(strs(old(para)@), " "@).len() < usize::MAX,
    ensures
        final(out)@ == flush_para_text(style.colored(), old(out)@, strs(old(para)@), width as int),
        final(para)@.len() == 0,
{
    if para.len() == 0 {
        return;
    }
    let joined_text = string_from_chars(&crate::text::join_strings(para, " "));
    let laid = layout_paragraph(joined_text.as_str(), width, style);
    extend_str(out, laid.as_str());
    extend_str(out, "\n");
    *para = Vec::new();
}

fn leading_hashes_dropped(t: &Vec<char>) -> (r: usize)
    ensures
        r <= t@.len(),
        t@.skip(r as int) == drop_hashes(t@),
{
    let mut i: usize = 0;
    assert(t@.skip(0) =~= t@);
    while i < t.len() && t[i] == '#'
        invariant
            i <= t@.len(),
            drop_hashes(t@) == drop_hashes(t@.skip(i as int)),
        decreases t@.len() - i,
    {
        assert(t@.skip(i as int).drop_first() =~= t@.skip(i + 1));
        i += 1;
    }
    i
}

/// Render a Markdown body to styled, width-wrapped terminal text, with no
/// trailing blank lines.
pub fn render(body: &str, width: usize, style: Style) -> (r: String)
    requires
        body@.len() + 2 < usize::MAX,
    ensures
        r@ == render_text(style.colored(), body@, width as int),
{
    let ghost color = style.colored();
    let lines = lines_of(body);
    let ghost lv = strs(lines@);
    proof {
        lemma_lines_total(body@, 0);
    }
    let mut out: Vec<char> = Vec::new();
    let mut para: Vec<String> = Vec::new();
    let mut item: Option<Vec<String>> = None;
    let mut k: usize = 0;
    assert(out@ =~= Seq::<char>::empty());
    assert(strs(para@) =~= Seq::<Seq<char>>::empty());
    while k < lines.len()
        invariant
            k <= lines@.len(),
            lv == strs(lines@),
            lv == lines_from(body@, 0),
            total_len(lv) <= body@.len() + 1,
            body@.len() + 2 < usize::MAX,
            color == style.colored(),
            crate::text::joined(strs(para@), " "@).len() <= total_len(lv.take(k as int)),
            item matches Some(ls) ==> crate::text::joined(strs(ls@), " "@).len() <= total_len(lv.take(k as int)),
            blocks(color, lv.take(k as int), width as int) == (
                out@,
                strs(para@),
                match item {
                    Some(ls) => Some(strs(ls@)),
                    None => None,
                },
            ),
        decreases lines@.len() - k,
    {
        proof {
            assert(lv.take(k + 1).drop_last() =~= lv.take(k as int));
            lemma_total_len_concat(lv.take(k + 1), lv.skip(k + 1));
            assert(lv.take(k + 1) + lv.skip(k + 1) =~= lv);
            lemma_total_len_concat(lv.take(k as int), lv.skip(k as int));
            assert(lv.take(k as int) + lv.skip(k as int) =~= lv);
            lemma_total_nonneg(lv.skip(k as int));
            lemma_total_nonneg(lv.skip(k + 1));
            assert(lv.take(k + 1).last() == lv[k as int]);
        }
        let lc = chars_of(lines[k].as_str());
        assert(lc@ == lv[k as int]);
        let t = crate::text::trim_chars(&lc);
        proof {
            crate::text::lemma_trim_len(lc@);
            reveal_strlit("\n");
        }
        let ghost st = blocks(color, lv.take(k as int), width as int);
        if t.len() == 0 {
            flush_item(&mut out, &mut item, width, style);
            flush_para(&mut out, &mut para, width, style);
            let ghost o1 = out@;
            out.push('\n');
            assert(out@ =~= o1 + "\n"@);
            assert(strs(para@) =~= Seq::<Seq<char>>::empty());
        } else if t[0] == '#' {
            flush_item(&mut out, &mut item, width, style);
            flush_para(&mut out, &mut para, width, style);
            let d = leading_hashes_dropped(&t);
            let rest = crate::text::trim_chars(&crate::text::slice_chars(&t, d, t.len()));
            assert(t@.subrange(d as int, t@.len() as int) =~= t@.skip(d as int));
            let hb = style.bold(string_from_chars(&rest).as_str());
            extend_str(&mut out, hb.as_str());
            let ghost o1 = out@;
            out.push('\n');
            assert(out@ =~= o1 + "\n"@);
            assert(strs(para@) =~= Seq::<Seq<char>>::empty());
        } else if t.len() >= 2 && (t[0] == '-' || t[0] == '*') && t[1] == ' ' {
            flush_item(&mut out, &mut item, width, style);
            flush_para(&mut out, &mut para, width, style);
            let rest = crate::text::trim_chars(&crate::text::slice_chars(&t, 2, t.len()));
            assert(t@.subrange(2, t@.len() as int) =~= t@.skip(2));
            proof {
                crate::text::lemma_trim_len(t@.skip(2));
            }
            let mut v: Vec<String> = Vec::new();
            let rs = string_from_chars(&rest);
            v.push(rs);
            assert(strs(v@) =~= seq![rs@]);
            assert(strs(para@) =~= Seq::<Seq<char>>::empty());
            item = Some(v);
        } else {
            let ts = string_from_chars(&t);
            if item.is_some() {
                let mut ls = item.take().unwrap();
                proof {
                    lemma_joined_push(strs(ls@), ts@);
                    assert(strs(ls@.push(ts)) =~= strs(ls@).push(ts@));
                }
                ls.push(ts);
                item = Some(ls);
            } else {
                proof {
                    lemma_joined_push(strs(para@), ts@);
                    assert(strs(para@.push(ts)) =~= strs(para@).push(ts@));
                }
                para.push(ts);
            }
        }
        k += 1;
    }
    assert(lv.take(lines@.len() as int) =~= lv);
    flush_item(&mut out, &mut item, width, style);
    flush_para(&mut out, &mut para, width, style);
    let mut n = out.len();
    assert(out@.take(out@.len() as int) =~= out@);
    while n > 0 && out[n - 1] == '\n'
        invariant
            n <= out@.len(),
            drop_trailing_nl(out@) == drop_trailing_nl(out@.take(n as int)),
        decreases n,
    {
        assert(out@.take(n as int).drop_last() =~= out@.take(n - 1));
        n -= 1;
    }
    proof {
        assert(out@.take(out@.len() as int) =~= out@);
    }
    string_from_chars(&crate::text::slice_chars(&out, 0, n))
}

} // verus!
