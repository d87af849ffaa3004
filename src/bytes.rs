//! Little-endian encoding of the integers stored on disk.

use vstd::prelude::*;

verus! {

/// The value of four bytes read as a little-endian `u32`.
pub open spec fn le_u32(s: Seq<u8>) -> int {
    s[0] as int + 256 * (s[1] as int) + 65536 * (s[2] as int) + 16777216 * (s[3] as int)
}

/// The four little-endian bytes of `v`.
pub open spec fn u32_le(v: u32) -> Seq<u8> {
    seq![
        (v % 256) as u8,
        ((v / 256) % 256) as u8,
        ((v / 65536) % 256) as u8,
        (v / 16777216) as u8,
    ]
}

/// Reading back the four bytes of `v` gives `v`.
pub proof fn lemma_le_u32_round_trip(v: u32)
    ensures
        u32_le(v).len() == 4,
        le_u32(u32_le(v)) == v,
{
    let b = u32_le(v);
    assert(b[0] == v % 256);
    assert(b[1] == (v / 256) % 256);
    assert(b[2] == (v / 65536) % 256);
    assert(b[3] == v / 16777216);
    assert(le_u32(b) == v) by (nonlinear_arith)
        requires
            b[0] == v % 256,
            b[1] == (v / 256) % 256,
            b[2] == (v / 65536) % 256,
            b[3] == v / 16777216,
            0 <= v <= u32::MAX,
    {
    }
}

/// Reads the little-endian `u32` at `off` in `s`.
pub fn decode_u32(s: &[u8], off: usize) -> (r: u32)
    requires
        off + 4 <= s@.len(),
    ensures
        r == le_u32(s@.subrange(off as int, off + 4)),
{
    let r = s[off] as u32 + 256 * (s[off + 1] as u32) + 65536 * (s[off + 2] as u32)
        + 16777216 * (s[off + 3] as u32);
    r
}

/// Stores `v` as four little-endian bytes at `off` in `s`.
pub fn encode_u32(s: &mut [u8], off: usize, v: u32)
    requires
        off + 4 <= old(s)@.len(),
    ensures
        final(s)@ == splice(old(s)@, off as int, u32_le(v)),
{
    s[off] = (v % 256) as u8;
    s[off + 1] = ((v / 256) % 256) as u8;
    s[off + 2] = ((v / 65536) % 256) as u8;
    s[off + 3] = (v / 16777216) as u8;
    assert(s@ =~= splice(old(s)@, off as int, u32_le(v)));
}

/// `s` with `data` written over it from position `off` on.
pub open spec fn splice<T>(s: Seq<T>, off: int, data: Seq<T>) -> Seq<T> {
    s.subrange(0, off) + data + s.subrange(off + data.len(), s.len() as int)
}

} // verus!
