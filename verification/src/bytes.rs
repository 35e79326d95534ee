//! Little-endian byte buffers.
use vstd::prelude::*;

verus! {

/// `s` with `t` written over it starting at `off`.
pub open spec fn splice(s: Seq<u8>, off: int, t: Seq<u8>) -> Seq<u8> {
    s.take(off) + t + s.skip(off + t.len())
}

/// A sequence of `n` zero bytes.
pub open spec fn zeros(n: nat) -> Seq<u8> {
    Seq::new(n, |i: int| 0u8)
}

/// Overwrite `buf[off..off + src.len()]` with `src`.
pub fn write_at(buf: &mut Vec<u8>, off: usize, src: &[u8])
    requires
        off + src@.len() <= old(buf)@.len(),
    ensures
        final(buf)@ == splice(old(buf)@, off as int, src@),
        final(buf)@.len() == old(buf)@.len(),
{
    let mut i: usize = 0;
    while i < src.len()
        invariant
            0 <= i <= src@.len(),
            off + src@.len() <= buf.len(),
            buf@.len() == old(buf)@.len(),
            buf@ == splice(old(buf)@, off as int, src@.take(i as int)),
        decreases src@.len() - i,
    {
        buf.set(off + i, src[i]);
        i += 1;
        assert(buf@ =~= splice(old(buf)@, off as int, src@.take(i as int)));
    }
    assert(src@.take(src@.len() as int) =~= src@);
}

/// The little-endian bytes of a 16-bit unit.
pub open spec fn le16(x: u16) -> Seq<u8> {
    seq![(x % 256) as u8, (x / 256) as u8]
}

/// The 16-bit unit whose little-endian bytes are `s[0]`, `s[1]`.
pub open spec fn from_le16(s: Seq<u8>) -> u16 {
    (s[0] + 256 * s[1]) as u16
}

pub proof fn lemma_le16_roundtrip(x: u16)
    ensures
        from_le16(le16(x)) == x,
        le16(0) == seq![0u8, 0u8],
{
}

/// A vector of `n` zero bytes.
pub fn zeroed(n: usize) -> (v: Vec<u8>)
    ensures
        v@ == zeros(n as nat),
{
    let v = vec![0u8; n];
    assert(v@ =~= zeros(n as nat));
    v
}

/// The little-endian bytes of a sequence of 16-bit units.
pub open spec fn units_le(u: Seq<u16>) -> Seq<u8>
    decreases u.len(),
{
    if u.len() == 0 {
        Seq::empty()
    } else {
        le16(u[0]) + units_le(u.drop_first())
    }
}

pub proof fn lemma_units_le(u: Seq<u16>)
    ensures
        units_le(u).len() == 2 * u.len(),
        forall|i: int|
            0 <= i < u.len() ==> #[trigger] units_le(u).subrange(2 * i, 2 * i + 2)
                == le16(u[i]),
    decreases u.len(),
{
    if u.len() > 0 {
        lemma_units_le(u.drop_first());
        let r = units_le(u.drop_first());
        assert forall|i: int| 0 <= i < u.len() implies #[trigger] units_le(u).subrange(
            2 * i,
            2 * i + 2,
        ) == le16(u[i]) by {
            if i == 0 {
                assert(units_le(u).subrange(0, 2) =~= le16(u[0]));
            } else {
                assert(units_le(u).subrange(2 * i, 2 * i + 2) =~= r.subrange(
                    2 * (i - 1),
                    2 * (i - 1) + 2,
                ));
                assert(u.drop_first()[i - 1] == u[i]);
            }
        }
    }
}

/// Append the little-endian bytes of `x` to `v`.
pub fn push_u16_le(v: &mut Vec<u8>, x: u16)
    ensures
        final(v)@ == old(v)@ + le16(x),
{
    v.push((x % 256) as u8);
    v.push((x / 256) as u8);
    assert(final(v)@ =~= old(v)@ + le16(x));
}

/// A copy of `v[lo..hi]`.
pub fn slice_bytes(v: &[u8], lo: usize, hi: usize) -> (out: Vec<u8>)
    requires
        lo <= hi <= v@.len(),
    ensures
        out@ == v@.subrange(lo as int, hi as int),
{
    let mut out: Vec<u8> = Vec::new();
    let mut i = lo;
    while i < hi
        invariant
            lo <= i <= hi <= v@.len(),
            out@ == v@.subrange(lo as int, i as int),
        decreases hi - i,
    {
        out.push(v[i]);
        i += 1;
        assert(out@ =~= v@.subrange(lo as int, i as int));
    }
    out
}

/// The 16-bit little-endian unit stored at `v[at..at + 2]`.
pub fn read_u16_le(v: &[u8], at: usize) -> (x: u16)
    requires
        at + 2 <= v.len(),
    ensures
        x == from_le16(v@.subrange(at as int, at + 2)),
{
    (v[at] as u16) + 256 * (v[at + 1] as u16)
}

/// The 32-bit little-endian value stored at `v[at..at + 4]`.
pub fn read_u32_le(v: &[u8], at: usize) -> (x: u32)
    requires
        at + 4 <= v.len(),
    ensures
        x == vstd::bytes::spec_u32_from_le_bytes(v@.subrange(at as int, at + 4)),
{
    vstd::bytes::u32_from_le_bytes(&v[at..at + 4])
}

/// The 64-bit little-endian value stored at `v[at..at + 8]`.
pub fn read_u64_le(v: &[u8], at: usize) -> (x: u64)
    requires
        at + 8 <= v.len(),
    ensures
        x == vstd::bytes::spec_u64_from_le_bytes(v@.subrange(at as int, at + 8)),
{
    vstd::bytes::u64_from_le_bytes(&v[at..at + 8])
}

} // verus!
