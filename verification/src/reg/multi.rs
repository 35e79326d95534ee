//! Why a multi-string's token reads back as it: the bytes split at NULs
//! give the elements back, and the escaped, comma-joined text splits into
//! them again.
use crate::reg::literal::{
    decode_multi_spec, elems_bytes, esc_all, esc_split, esc_text, lemma_no_colon_before, multi_pieces,
    multi_spec, parse_spec, split_commas, token_text, typed_spec, keyword_type, zero_split, ValueType,
};
use crate::text::joined;
use vstd::prelude::*;

verus! {

/// Every byte of the UTF-8 of a character other than NUL is nonzero.
proof fn lemma_scalar_bytes_nonzero(c: char)
    requires
        c != '\0',
    ensures
        vstd::utf8::encode_scalar(c as u32).len() > 0,
        forall|i: int| 0 <= i < vstd::utf8::encode_scalar(c as u32).len() ==> #[trigger] vstd::utf8::encode_scalar(c as u32)[i] != 0,
{
    let v = c as u32;
    vstd::utf8::char_is_scalar(c);
    if v == 0 {
        crate::text::lemma_char_inj(c, '\0');
    }
    assert((0x80 | (v & 0x3F) as u8) != 0) by (bit_vector);
    assert((0x80 | ((v >> 6) & 0x3F) as u8) != 0) by (bit_vector);
    assert((0x80 | ((v >> 12) & 0x3F) as u8) != 0) by (bit_vector);
    assert((0xC0 | ((v >> 6) & 0x1F) as u8) != 0) by (bit_vector);
    assert((0xE0 | ((v >> 12) & 0x0F) as u8) != 0) by (bit_vector);
    assert((0xF0 | ((v >> 18) & 0x7) as u8) != 0) by (bit_vector);
    if vstd::utf8::has_width_1_encoding(v) {
        assert((v & 0x7F) as u8 != 0) by (bit_vector)
            requires
                1 <= v <= 0x7F,
        ;
    }
}

/// A text without NUL encodes to bytes without zero, and a nonempty one to
/// nonempty bytes.
proof fn lemma_encode_nonzero(e: Seq<char>)
    requires
        forall|k: int| 0 <= k < e.len() ==> #[trigger] e[k] != '\0',
    ensures
        e.len() > 0 ==> vstd::utf8::encode_utf8(e).len() > 0,
        forall|i: int| 0 <= i < vstd::utf8::encode_utf8(e).len() ==> #[trigger] vstd::utf8::encode_utf8(e)[i] != 0,
    decreases e.len(),
{
    if e.len() > 0 {
        let r = e.drop_first();
        assert forall|k: int| 0 <= k < r.len() implies #[trigger] r[k] != '\0' by {
            assert(r[k] == e[k + 1]);
        }
        lemma_encode_nonzero(r);
        assert(e[0] != '\0');
        lemma_scalar_bytes_nonzero(e[0]);
        let h = vstd::utf8::encode_scalar(e[0] as u32);
        let t = vstd::utf8::encode_utf8(r);
        assert(vstd::utf8::encode_utf8(e) == h + t);
        assert forall|i: int| 0 <= i < (h + t).len() implies #[trigger] (h + t)[i] != 0 by {
            if i < h.len() {
                assert((h + t)[i] == h[i]);
            } else {
                assert((h + t)[i] == t[i - h.len()]);
            }
        }
    }
}

/// Splitting at zeros, a run without zeros after a split point becomes the
/// part being read.
proof fn lemma_zero_split_run(a: Seq<u8>, w: Seq<u8>)
    requires
        zero_split(a).1.len() == 0,
        forall|i: int| 0 <= i < w.len() ==> #[trigger] w[i] != 0,
    ensures
        zero_split(a + w) == (zero_split(a).0, w),
    decreases w.len(),
{
    if w.len() == 0 {
        assert(a + w =~= a);
    } else {
        let v = w.drop_last();
        assert forall|i: int| 0 <= i < v.len() implies #[trigger] v[i] != 0 by {
            assert(v[i] == w[i]);
        }
        lemma_zero_split_run(a, v);
        assert((a + w).drop_last() =~= a + v);
        assert((a + w).last() == w.last());
        assert(w[w.len() - 1] != 0);
        assert(v.push(w.last()) =~= w);
    }
}

/// Each element holds something, and no NUL.
pub open spec fn storable_elems(es: Seq<Seq<char>>) -> bool {
    &&& forall|i: int| 0 <= i < es.len() ==> (#[trigger] es[i]).len() > 0
    &&& forall|i: int, k: int| 0 <= i < es.len() && 0 <= k < es[i].len() ==> #[trigger] es[i][k] != '\0'
}

proof fn lemma_split_elems(es: Seq<Seq<char>>)
    requires
        storable_elems(es),
    ensures
        zero_split(elems_bytes(es)) == (es.map_values(|e: Seq<char>| vstd::utf8::encode_utf8(e)), Seq::<u8>::empty()),
    decreases es.len(),
{
    let enc = |e: Seq<char>| vstd::utf8::encode_utf8(e);
    if es.len() == 0 {
        assert(es.map_values(enc) =~= Seq::<Seq<u8>>::empty());
    } else {
        let r = es.drop_last();
        assert forall|i: int| 0 <= i < r.len() implies (#[trigger] r[i]).len() > 0 by {
            assert(r[i] == es[i]);
        }
        assert forall|i: int, k: int| 0 <= i < r.len() && 0 <= k < r[i].len() implies #[trigger] r[i][k] != '\0' by {
            assert(r[i] == es[i]);
        }
        lemma_split_elems(r);
        let e = es.last();
        assert(e == es[es.len() - 1]);
        assert forall|k: int| 0 <= k < e.len() implies #[trigger] e[k] != '\0' by {
            assert(es[es.len() - 1][k] != '\0');
        }
        assert(es[es.len() - 1].len() > 0);
        lemma_encode_nonzero(e);
        let w = vstd::utf8::encode_utf8(e);
        lemma_zero_split_run(elems_bytes(r), w);
        let whole = elems_bytes(es);
        assert(whole == elems_bytes(r) + w.push(0));
        assert(whole.drop_last() =~= elems_bytes(r) + w);
        assert(whole.last() == 0);
        assert(r.map_values(enc).push(w) =~= es.map_values(enc));
    }
}

proof fn lemma_multi_decodes(es: Seq<Seq<char>>)
    requires
        storable_elems(es),
    ensures
        decode_multi_spec(elems_bytes(es).push(0)) == es,
{
    broadcast use vstd::utf8::encode_utf8_valid_utf8, vstd::utf8::encode_utf8_decode_utf8;

    let d = elems_bytes(es).push(0);
    let enc = |e: Seq<char>| vstd::utf8::encode_utf8(e);
    lemma_split_elems(es);
    assert(d.drop_last() =~= elems_bytes(es));
    assert(zero_split(d) == (es.map_values(enc), Seq::<u8>::empty()));
    assert(multi_pieces(d) == es.map_values(enc));
    assert(decode_multi_spec(d) =~= es);
}

/// `\`, `,` and other characters, escaped for a multi-string token.
pub open spec fn esc_piece(c: char) -> Seq<char> {
    if c == '\\' {
        "\\\\"@
    } else if c == ',' {
        "\\,"@
    } else {
        seq![c]
    }
}

proof fn lemma_esc_back(e: Seq<char>)
    requires
        e.len() > 0,
    ensures
        esc_text(e) == esc_text(e.drop_last()) + esc_piece(e.last()),
{
}

proof fn lemma_esc_front(e: Seq<char>)
    requires
        e.len() > 0,
    ensures
        esc_text(e) == esc_piece(e[0]) + esc_text(e.drop_first()),
    decreases e.len(),
{
    lemma_esc_back(e);
    if e.len() == 1 {
        assert(e.drop_last() =~= Seq::<char>::empty());
        assert(e.drop_first() =~= Seq::<char>::empty());
        assert(esc_text(Seq::<char>::empty()) =~= Seq::<char>::empty());
        assert(e.last() == e[0]);
        assert(esc_text(e) =~= esc_piece(e[0]));
    } else {
        lemma_esc_back(e.drop_first());
        let v = e.drop_last();
        lemma_esc_front(v);
        assert(v.drop_first() =~= e.drop_first().drop_last());
        assert(e.drop_first().last() == e.last());
        assert(v[0] == e[0]);
        assert(esc_text(e) =~= esc_piece(e[0]) + esc_text(e.drop_first()));
    }
}

/// Reading an escaped element back appends it to the part being read.
proof fn lemma_esc_split_elem(e: Seq<char>, rest: Seq<char>, cur: Seq<char>, done: Seq<Seq<char>>)
    ensures
        esc_split(esc_text(e) + rest, cur, done) == esc_split(rest, cur + e, done),
    decreases e.len(),
{
    reveal_strlit("\\\\");
    reveal_strlit("\\,");
    if e.len() == 0 {
        assert(esc_text(e) + rest =~= rest);
        assert(cur + e =~= cur);
    } else {
        lemma_esc_front(e);
        let c = e[0];
        let t = esc_text(e.drop_first()) + rest;
        let s = esc_text(e) + rest;
        assert(s =~= esc_piece(c) + t);
        lemma_esc_split_elem(e.drop_first(), rest, cur.push(c), done);
        assert(cur.push(c) + e.drop_first() =~= cur + e);
        if c == '\\' {
            assert(s[0] == '\\' && s[1] == '\\');
            assert(s.skip(2) =~= t);
        } else if c == ',' {
            assert(s[0] == '\\' && s[1] == ',');
            assert(s.skip(2) =~= t);
        } else {
            assert(s[0] == c);
            assert(s.skip(1) =~= t);
        }
    }
}

proof fn lemma_joined_front(ps: Seq<Seq<char>>)
    requires
        ps.len() >= 2,
    ensures
        joined(ps, ","@) == ps[0] + ","@ + joined(ps.drop_first(), ","@),
    decreases ps.len(),
{
    if ps.len() == 2 {
        assert(ps.drop_last().len() == 1);
        assert(ps.drop_first().len() == 1);
        assert(joined(ps.drop_last(), ","@) == ps[0]);
        assert(joined(ps.drop_first(), ","@) == ps[1]);
    } else {
        lemma_joined_front(ps.drop_last());
        assert(ps.drop_last().drop_first() =~= ps.drop_first().drop_last());
        assert(ps.drop_first().last() == ps.last());
        assert(ps.drop_last()[0] == ps[0]);
        assert(joined(ps, ","@) =~= ps[0] + ","@ + joined(ps.drop_first(), ","@));
    }
}

proof fn lemma_split_joined(es: Seq<Seq<char>>, done: Seq<Seq<char>>)
    requires
        es.len() >= 1,
    ensures
        esc_split(joined(esc_all(es), ","@), Seq::empty(), done) == done + es,
    decreases es.len(),
{
    reveal_strlit(",");
    let ps = esc_all(es);
    if es.len() == 1 {
        assert(joined(ps, ","@) == ps[0]);
        lemma_esc_split_elem(es[0], Seq::empty(), Seq::empty(), done);
        assert(esc_text(es[0]) + Seq::<char>::empty() =~= esc_text(es[0]));
        assert(Seq::<char>::empty() + es[0] =~= es[0]);
        assert(done.push(es[0]) =~= done + es);
    } else {
        lemma_joined_front(ps);
        assert(ps.drop_first() =~= esc_all(es.drop_first()));
        let j2 = joined(esc_all(es.drop_first()), ","@);
        let rest = ","@ + j2;
        lemma_esc_split_elem(es[0], rest, Seq::empty(), done);
        assert(ps[0] + ","@ + j2 =~= esc_text(es[0]) + rest);
        assert(Seq::<char>::empty() + es[0] =~= es[0]);
        assert(rest[0] == ',');
        assert(rest.skip(1) =~= j2);
        lemma_split_joined(es.drop_first(), done.push(es[0]));
        assert(done.push(es[0]) + es.drop_first() =~= done + es);
    }
}

proof fn lemma_multi_keyword(j: Seq<char>)
    ensures
        parse_spec("multi:"@ + j) == typed_spec(ValueType::MultiSz, j),
{
    reveal_strlit("multi:");
    reveal_strlit("multi");
    reveal_strlit("sz");
    reveal_strlit("expand");
    reveal_strlit("dword");
    reveal_strlit("dword-be");
    reveal_strlit("qword");
    let t = "multi:"@ + j;
    assert forall|k: int| 0 <= k < 5 implies t[k] != ':' by {
        assert(t[k] == "multi"@[k]);
    }
    assert(t[5] == ':');
    lemma_no_colon_before(t, 0, 5);
    assert(t.take(5) =~= "multi"@);
    assert(t.skip(6) =~= j);
    assert("multi"@ != "sz"@);
    assert("multi"@ != "expand"@);
    assert("multi"@[0] != "dword"@[0]);
    assert("multi"@ != "dword-be"@);
    assert("multi"@[0] != "qword"@[0]);
    assert(keyword_type("multi"@) == Some(ValueType::MultiSz));
}

proof fn lemma_multi_text(es: Seq<Seq<char>>)
    requires
        storable_elems(es),
    ensures
        multi_spec(joined(esc_all(es), ","@)) == elems_bytes(es).push(0),
{
    let j = joined(esc_all(es), ","@);
    if es.len() == 0 {
        assert(j.len() == 0);
        assert(elems_bytes(es).push(0) =~= seq![0u8]);
    } else {
        lemma_split_joined(es, Seq::empty());
        assert(Seq::<Seq<char>>::empty() + es =~= es);
        assert(split_commas(j) == es);
        assert(es[0].len() > 0);
        lemma_esc_front(es[0]);
        assert(esc_all(es)[0] == esc_text(es[0]));
        if es.len() >= 2 {
            lemma_joined_front(esc_all(es));
        } else {
            assert(j == esc_all(es)[0]);
        }
        assert(j.len() > 0);
    }
}

/// A multi-string of elements that each hold something and no NUL reads
/// back as those elements, and its token parses back to the same type and
/// bytes.
pub proof fn lemma_multi_round_trip(es: Seq<Seq<char>>)
    requires
        storable_elems(es),
    ensures
        decode_multi_spec(elems_bytes(es).push(0)) == es,
        parse_spec(token_text(ValueType::MultiSz, elems_bytes(es).push(0))) == Ok::<
            (ValueType, Seq<u8>),
            Seq<char>,
        >((ValueType::MultiSz, elems_bytes(es).push(0))),
{
    lemma_multi_decodes(es);
    let d = elems_bytes(es).push(0);
    let j = joined(esc_all(es), ","@);
    assert(token_text(ValueType::MultiSz, d) == "multi:"@ + j);
    lemma_multi_keyword(j);
    lemma_multi_text(es);
}

} // verus!
