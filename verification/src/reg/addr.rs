//! Addressing: key paths and value names.
//!
//! A key path is a positional argument using `/` or `\` as a separator
//! (neither is legal inside a key component, so accepting both is
//! unambiguous). The value name is a separate positional: absent means the
//! key itself; the literal `@` means the default (empty-name) value.
use crate::reg::error::{Error, Result};
use crate::text::{debug_quoted, debug_str, extend_str, join_strings, joined, string_from_chars};
use vstd::prelude::*;

verus! {

pub open spec fn is_sep(c: char) -> bool {
    c == '/' || c == '\\'
}

/// The components finished so far, and the one being read, after `s`.
pub open spec fn split_state(s: Seq<char>) -> (Seq<Seq<char>>, Seq<char>)
    decreases s.len(),
{
    if s.len() == 0 {
        (Seq::empty(), Seq::empty())
    } else {
        let (done, cur) = split_state(s.drop_last());
        let c = s.last();
        if is_sep(c) {
            (
                if cur.len() > 0 {
                    done.push(cur)
                } else {
                    done
                },
                Seq::empty(),
            )
        } else {
            (done, cur.push(c))
        }
    }
}

/// The non-empty runs between separators, in order.
pub open spec fn key_components(s: Seq<char>) -> Seq<Seq<char>> {
    let (done, cur) = split_state(s);
    if cur.len() > 0 {
        done.push(cur)
    } else {
        done
    }
}

/// A parsed, canonicalised registry key path (e.g. `Machine\System\App`).
#[derive(Debug, Clone, PartialEq, Eq)]
pub struct KeyPath {
    /// Path components, in order, with separators removed. Never empty.
    components: Vec<String>,
}

pub open spec fn texts(v: Seq<String>) -> Seq<Seq<char>> {
    v.map_values(|s: String| s@)
}

impl View for KeyPath {
    type V = Seq<Seq<char>>;

    closed spec fn view(&self) -> Seq<Seq<char>> {
        texts(self.components@)
    }
}

pub open spec fn char_texts(v: Seq<Vec<char>>) -> Seq<Seq<char>> {
    v.map_values(|c: Vec<char>| c@)
}

proof fn lemma_texts_push(a: Seq<String>, x: String)
    ensures
        texts(a.push(x)) == texts(a).push(x@),
{
    assert(texts(a.push(x)) =~= texts(a).push(x@));
}

proof fn lemma_char_texts_take(v: Seq<Vec<char>>, i: int)
    requires
        0 < i <= v.len(),
    ensures
        char_texts(v.take(i)) == char_texts(v.take(i - 1)).push(v[i - 1]@),
{
    assert(char_texts(v.take(i)) =~= char_texts(v.take(i - 1)).push(v[i - 1]@));
}

proof fn lemma_texts_take(v: Seq<String>, i: int)
    requires
        0 < i <= v.len(),
    ensures
        texts(v).take(i) == texts(v).take(i - 1).push(v[i - 1]@),
{
    assert(texts(v).take(i) =~= texts(v).take(i - 1).push(v[i - 1]@));
}

fn to_strings(v: &Vec<Vec<char>>) -> (out: Vec<String>)
    ensures
        texts(out@) == char_texts(v@),
{
    let mut out: Vec<String> = Vec::new();
    let mut i: usize = 0;
    while i < v.len()
        invariant
            i <= v@.len(),
            texts(out@) == char_texts(v@.take(i as int)),
        decreases v@.len() - i,
    {
        let ghost before = out@;
        let t = string_from_chars(v[i].as_slice());
        out.push(t);
        proof {
            assert(out@ == before.push(t));
            assert(t@ == v@[i as int]@);
        }
        i += 1;
        proof {
            lemma_texts_push(before, t);
            lemma_char_texts_take(v@, i as int);
        }
    }
    assert(v@.take(v@.len() as int) =~= v@);
    out
}

impl KeyPath {

    /// Parse a path. `/` and `\` both separate, in any mix; leading,
    /// trailing and repeated separators are ignored. A path with no
    /// component is refused.
    pub fn parse(raw: &str) -> (r: Result<KeyPath>)
        ensures
            key_components(raw@).len() == 0 ==> (r matches Err(Error::InvalidSpec(m)) && m@
                == "empty key path: "@ + debug_str(raw@)),
            key_components(raw@).len() > 0 ==> (r matches Ok(p) && p@ == key_components(raw@)),
    {
        let mut done: Vec<Vec<char>> = Vec::new();
        let mut cur: Vec<char> = Vec::new();
        let ghost mut seen: Seq<char> = Seq::empty();
        for c in it: raw.chars()
            invariant
                it.seq() == raw@,
                seen == raw@.take(it.index() as int),
                (char_texts(done@), cur@) == split_state(seen),
        {
            proof {
                assert(raw@.take(it.index() + 1).drop_last() =~= seen);
            }
            if c == '/' || c == '\\' {
                if cur.len() > 0 {
                    let piece = cur;
                    done.push(piece);
                    cur = Vec::new();
                }
                proof {
                    assert(char_texts(done@) =~= split_state(
                        raw@.take(it.index() + 1),
                    ).0);
                }
            } else {
                cur.push(c);
                proof {
                    assert(char_texts(done@) =~= split_state(
                        raw@.take(it.index() + 1),
                    ).0);
                }
            }
            proof {
                seen = raw@.take(it.index() + 1);
            }
        }
        proof {
            assert(seen =~= raw@);
        }
        if cur.len() > 0 {
            done.push(cur);
        }
        assert(char_texts(done@) =~= key_components(raw@));
        if done.len() == 0 {
            let mut v: Vec<char> = Vec::new();
            extend_str(&mut v, "empty key path: ");
            let q = debug_quoted(raw);
            extend_str(&mut v, q.as_str());
            return Err(Error::InvalidSpec(string_from_chars(&v)));
        }
        let components = to_strings(&done);
        Ok(KeyPath { components })
    }

    /// The path as the registry interface takes it: backslash-joined,
    /// however the user typed it.
    pub fn to_abi(&self) -> (s: String)
        ensures
            s@ == joined(self@, "\\"@),
    {
        let v = join_strings(&self.components, "\\");
        string_from_chars(&v)
    }

    /// The path for display, joined with `sep`.
    pub fn display(&self, sep: char) -> (s: String)
        ensures
            s@ == joined(self@, seq![sep]),
    {
        let one = string_from_chars(&[sep]);
        assert(one@ == seq![sep]);
        let v = join_strings(&self.components, one.as_str());
        string_from_chars(&v)
    }

    /// The last component.
    pub fn leaf(&self) -> (s: &str)
        requires
            self@.len() > 0,
        ensures
            s@ == self@.last(),
    {
        assert(self.components@.len() > 0);
        self.components[self.components.len() - 1].as_str()
    }

    /// The parent path, or `None` for a single (hive-root) component.
    pub fn parent(&self) -> (r: Option<KeyPath>)
        ensures
            self@.len() <= 1 ==> r is None,
            self@.len() > 1 ==> (r matches Some(p) && p@ == self@.drop_last()),
    {
        let n = self.components.len();
        if n <= 1 {
            return None;
        }
        let mut out: Vec<String> = Vec::new();
        let mut i: usize = 0;
        while i < n - 1
            invariant
                n == self.components@.len(),
                n > 1,
                i <= n - 1,
                texts(out@) == texts(self.components@).take(i as int),
            decreases n - 1 - i,
        {
            let ghost before = out@;
            let t = self.components[i].clone();
            out.push(t);
            proof {
                assert(out@ == before.push(t));
                assert(t@ == self.components@[i as int]@);
            }
            i += 1;
            proof {
                lemma_texts_push(before, t);
                lemma_texts_take(self.components@, i as int);
            }
        }
        assert(texts(self.components@).take(n - 1) =~= texts(self.components@).drop_last());
        Some(KeyPath { components: out })
    }

    /// This path with one more component appended.
    pub fn child(&self, name: &str) -> (p: KeyPath)
        ensures
            p@ == self@.push(name@),
    {
        let mut components = self.components.clone();
        assert(components@ == self.components@);
        components.push(name.to_owned());
        assert(texts(components@) =~= texts(self.components@).push(name@));
        KeyPath { components }
    }
}

/// What a command targets: the key itself, or a named value within it.
#[derive(Debug, Clone, PartialEq, Eq)]
pub enum ValueTarget {
    /// No value argument was given: the command operates on the key.
    Key,
    /// A named value. Empty bytes name the default (`@`) value.
    Value(Vec<u8>),
}

impl ValueTarget {
    /// Build from the optional value-name positional: `@` is the default
    /// value, any other string names a value by its UTF-8 bytes.
    pub fn from_arg(arg: Option<&str>) -> (t: ValueTarget)
        ensures
            match arg {
                None => t is Key,
                Some(s) => t matches ValueTarget::Value(b) && b@ == (if s@ == "@"@ {
                    Seq::<u8>::empty()
                } else {
                    vstd::utf8::encode_utf8(s@)
                }),
            },
    {
        match arg {
            None => ValueTarget::Key,
            Some(s) => {
                let at = crate::text::chars_eq(&crate::text::chars_of(s), &crate::text::chars_of("@"));
                if at {
                    ValueTarget::Value(Vec::new())
                } else {
                    ValueTarget::Value(vstd::slice::slice_to_vec(s.as_bytes()))
                }
            },
        }
    }

    /// The value-name bytes, or `None` when this targets the key.
    pub fn name_bytes(&self) -> (r: Option<&[u8]>)
        ensures
            match *self {
                ValueTarget::Key => r is None,
                ValueTarget::Value(b) => r matches Some(x) && x@ == b@,
            },
    {
        match self {
            ValueTarget::Key => None,
            ValueTarget::Value(b) => Some(b.as_slice()),
        }
    }
}

/// UTF-8 decoding of ill-formed bytes, each ill-formed sequence replaced
/// with U+FFFD.
pub uninterp spec fn utf8_lossy(b: Seq<u8>) -> Seq<char>;

/// What `String::from_utf8_lossy` gives: the decoded text when the bytes
/// are valid UTF-8, else the replacement decoding.
pub open spec fn lossy(b: Seq<u8>) -> Seq<char> {
    if vstd::utf8::valid_utf8(b) {
        vstd::utf8::decode_utf8(b)
    } else {
        utf8_lossy(b)
    }
}

/// `String::from_utf8_lossy`, made owned.
///
/// The contract states the fact std documents plainly, that bytes which
/// are already valid UTF-8 decode unchanged, and names the result for
/// ill-formed bytes: how an ill-formed sequence is replaced is left to std.
#[verifier::external_body]
pub fn lossy_text(b: &[u8]) -> (s: String)
    ensures
        vstd::utf8::valid_utf8(b@) ==> s@ == vstd::utf8::decode_utf8(b@),
        !vstd::utf8::valid_utf8(b@) ==> s@ == utf8_lossy(b@),
{
    String::from_utf8_lossy(b).into_owned()
}

/// A value name for display: the default value as `(default)`, otherwise
/// the bytes as (lossy) UTF-8.
pub fn display_value_name(name: &[u8]) -> (s: String)
    ensures
        name@.len() == 0 ==> s@ == "(default)"@,
        name@.len() > 0 ==> s@ == lossy(name@),
{
    if name.len() == 0 {
        "(default)".to_owned()
    } else {
        lossy_text(name)
    }
}

} // verus!
