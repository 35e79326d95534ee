//! Output layout: commands assemble a human view as `Lines`, and the
//! dispatcher prints it (or a JSON value instead).
use crate::text::{extend_str, string_from_chars};
use vstd::prelude::*;

verus! {

/// A line in the human-readable layout.
#[derive(Debug, Clone)]
pub enum Line {
    /// Section header.
    Section(String),
    /// `key: value`, aligned within a block.
    Kv(String, String),
    /// Free-form line (no alignment).
    Plain(String),
    /// Indented detail line.
    Detail(String),
    /// Blank line.
    Blank,
}

/// A buffer of human-readable lines.
#[derive(Debug, Clone)]
pub struct Lines(pub Vec<Line>);

/// The length of a text in UTF-8 bytes, as `str::len` reports it.
pub open spec fn byte_len(s: Seq<char>) -> usize {
    vstd::utf8::encode_utf8(s).len() as usize
}

/// Width of the key column: the longest `Kv` key, in bytes.
pub open spec fn key_width(ls: Seq<Line>) -> nat
    decreases ls.len(),
{
    if ls.len() == 0 {
        0
    } else {
        let w = key_width(ls.drop_last());
        match ls.last() {
            Line::Kv(k, _) => if byte_len(k@) > w {
                byte_len(k@) as nat
            } else {
                w
            },
            _ => w,
        }
    }
}

pub open spec fn spaces(n: int) -> Seq<char> {
    Seq::new(if n > 0 { n as nat } else { 0 }, |i: int| ' ')
}

/// The text one line prints, its newline included, with keys padded to `w`
/// characters.
pub open spec fn line_text(l: Line, w: nat) -> Seq<char> {
    match l {
        Line::Section(s) => "\n["@ + s@ + "]\n"@,
        Line::Kv(k, v) => "  "@ + k@ + spaces(w - k@.len()) + "  "@ + v@ + "\n"@,
        Line::Plain(s) => s@ + "\n"@,
        Line::Detail(s) => "      "@ + s@ + "\n"@,
        Line::Blank => "\n"@,
    }
}

/// Everything the lines print, in order.
pub open spec fn layout_text(ls: Seq<Line>, w: nat) -> Seq<char>
    decreases ls.len(),
{
    if ls.len() == 0 {
        Seq::empty()
    } else {
        layout_text(ls.drop_last(), w) + line_text(ls.last(), w)
    }
}

impl Default for Lines {
    fn default() -> (r: Lines)
        ensures
            r.0@.len() == 0,
    {
        Lines(Vec::new())
    }
}

impl Lines {
    pub fn new() -> (r: Lines)
        ensures
            r.0@.len() == 0,
    {
        Lines(Vec::new())
    }

    pub fn section(&mut self, s: &str)
        ensures
            final(self).0@.len() == old(self).0@.len() + 1,
            final(self).0@.drop_last() == old(self).0@,
            final(self).0@.last() matches Line::Section(a) && a@ == s@,
    {
        self.0.push(Line::Section(s.to_owned()));
    }

    pub fn kv(&mut self, k: &str, v: &str)
        ensures
            final(self).0@.len() == old(self).0@.len() + 1,
            final(self).0@.drop_last() == old(self).0@,
            final(self).0@.last() matches Line::Kv(a, b) && a@ == k@ && b@ == v@,
    {
        self.0.push(Line::Kv(k.to_owned(), v.to_owned()));
    }

    pub fn plain(&mut self, s: &str)
        ensures
            final(self).0@.len() == old(self).0@.len() + 1,
            final(self).0@.drop_last() == old(self).0@,
            final(self).0@.last() matches Line::Plain(a) && a@ == s@,
    {
        self.0.push(Line::Plain(s.to_owned()));
    }

    pub fn detail(&mut self, s: &str)
        ensures
            final(self).0@.len() == old(self).0@.len() + 1,
            final(self).0@.drop_last() == old(self).0@,
            final(self).0@.last() matches Line::Detail(a) && a@ == s@,
    {
        self.0.push(Line::Detail(s.to_owned()));
    }

    pub fn blank(&mut self)
        ensures
            final(self).0@ == old(self).0@.push(Line::Blank),
    {
        self.0.push(Line::Blank);
    }

    /// The width of the key column.
    pub fn width(&self) -> (w: usize)
        ensures
            w == key_width(self.0@),
    {
        let mut w: usize = 0;
        let mut i: usize = 0;
        while i < self.0.len()
            invariant
                i <= self.0@.len(),
                w == key_width(self.0@.take(i as int)),
            decreases self.0@.len() - i,
        {
            assert(self.0@.take(i + 1).drop_last() =~= self.0@.take(i as int));
            assert(self.0@.take(i + 1).last() == self.0@[i as int]);
            match &self.0[i] {
                Line::Kv(k, _) => {
                    let n = k.as_str().len();
                    if n > w {
                        w = n;
                    }
                },
                _ => {},
            }
            i += 1;
        }
        assert(self.0@.take(self.0@.len() as int) =~= self.0@);
        w
    }

    /// What printing the lines writes: `Kv` keys padded to a common column.
    pub fn layout(&self) -> (s: String)
        ensures
            s@ == layout_text(self.0@, key_width(self.0@)),
    {
        let w = self.width();
        let mut v: Vec<char> = Vec::new();
        let mut i: usize = 0;
        while i < self.0.len()
            invariant
                i <= self.0@.len(),
                w == key_width(self.0@),
                v@ == layout_text(self.0@.take(i as int), w as nat),
            decreases self.0@.len() - i,
        {
            assert(self.0@.take(i + 1).drop_last() =~= self.0@.take(i as int));
            assert(self.0@.take(i + 1).last() == self.0@[i as int]);
            match &self.0[i] {
                Line::Section(s) => {
                    extend_str(&mut v, "\n[");
                    extend_str(&mut v, s.as_str());
                    extend_str(&mut v, "]\n");
                },
                Line::Kv(k, val) => {
                    extend_str(&mut v, "  ");
                    extend_str(&mut v, k.as_str());
                    let ghost before = v@;
                    let mut c: usize = 0;
                    let chars = crate::text::chars_of(k.as_str());
                    let kl = chars.len();
                    while c + kl < w
                        invariant
                            v@ == before + spaces(c as int),
                            kl == k@.len(),
                            c + kl <= w || c == 0,
                        decreases w - c,
                    {
                        v.push(' ');
                        c += 1;
                        assert(v@ =~= before + spaces(c as int));
                    }
                    assert(spaces(c as int) =~= spaces(w - k@.len()));
                    extend_str(&mut v, "  ");
                    extend_str(&mut v, val.as_str());
                    extend_str(&mut v, "\n");
                },
                Line::Plain(s) => {
                    extend_str(&mut v, s.as_str());
                    extend_str(&mut v, "\n");
                },
                Line::Detail(s) => {
                    extend_str(&mut v, "      ");
                    extend_str(&mut v, s.as_str());
                    extend_str(&mut v, "\n");
                },
                Line::Blank => {
                    extend_str(&mut v, "\n");
                },
            }
            i += 1;
        }
        assert(self.0@.take(self.0@.len() as int) =~= self.0@);
        string_from_chars(&v)
    }
}

} // verus!
