//! Little-endian integer reads and writes on byte buffers.
use vstd::prelude::*;

verus! {

/// The value of the little-endian `u16` stored at `off` in `s`.
#[verifier::opaque]
pub open spec fn u16_at(s: Seq<u8>, off: int) -> int {
    s[off] as int + 256 * (s[off + 1] as int)
}

/// The value of the little-endian `u32` stored at `off` in `s`.
#[verifier::opaque]
pub open spec fn u32_at(s: Seq<u8>, off: int) -> int {
    s[off] as int + 256 * (s[off + 1] as int) + 65536 * (s[off + 2] as int) + 16777216 * (
    s[off + 3] as int)
}

/// A stored `u16` lies in the `u16` range.
pub broadcast proof fn lemma_u16_at_range(s: Seq<u8>, off: int)
    ensures
        0 <= #[trigger] u16_at(s, off) < 65536,
{
    reveal(u16_at);
}

/// A stored `u32` lies in the `u32` range.
pub broadcast proof fn lemma_u32_at_range(s: Seq<u8>, off: int)
    ensures
        0 <= #[trigger] u32_at(s, off) < 0x1_0000_0000,
{
    reveal(u32_at);
}

/// Stored integers lie in the range of their type.
pub broadcast group group_stored_int_range {
    lemma_u16_at_range,
    lemma_u32_at_range,
}

/// Two images that agree on the two bytes at `off` store the same `u16` there.
pub proof fn lemma_u16_same(s: Seq<u8>, t: Seq<u8>, off: int)
    requires
        s[off] == t[off],
        s[off + 1] == t[off + 1],
    ensures
        u16_at(s, off) == u16_at(t, off),
{
    reveal(u16_at);
}

/// Two images that agree on the four bytes at `off` store the same `u32` there.
pub proof fn lemma_u32_same(s: Seq<u8>, t: Seq<u8>, off: int)
    requires
        s[off] == t[off],
        s[off + 1] == t[off + 1],
        s[off + 2] == t[off + 2],
        s[off + 3] == t[off + 3],
    ensures
        u32_at(s, off) == u32_at(t, off),
{
    reveal(u32_at);
}

/// `s` with the two little-endian bytes of `v` stored at `off`.
pub open spec fn put_u16(s: Seq<u8>, off: int, v: int) -> Seq<u8> {
    s.update(off, (v % 256) as u8).update(off + 1, ((v / 256) % 256) as u8)
}

/// `s` with the four little-endian bytes of `v` stored at `off`.
pub open spec fn put_u32(s: Seq<u8>, off: int, v: int) -> Seq<u8> {
    s.update(off, (v % 256) as u8).update(off + 1, ((v / 256) % 256) as u8).update(
        off + 2,
        ((v / 65536) % 256) as u8,
    ).update(off + 3, ((v / 16777216) % 256) as u8)
}

/// The two little-endian bytes of `v`.
pub open spec fn u16_le_bytes(v: int) -> Seq<u8> {
    seq![(v % 256) as u8, ((v / 256) % 256) as u8]
}

/// Reading back a `u16` that was just written gives the written value, and no other
/// byte position changes.
pub proof fn lemma_u16_round_trip(s: Seq<u8>, off: int, v: u16)
    requires
        0 <= off,
        off + 2 <= s.len(),
    ensures
        u16_at(put_u16(s, off, v as int), off) == v,
        put_u16(s, off, v as int).len() == s.len(),
        forall|i: int|
            0 <= i < s.len() && !(off <= i < off + 2) ==> #[trigger] put_u16(s, off, v as int)[i]
                == s[i],
{
    reveal(u16_at);
    reveal(u32_at);
}

/// Reading back a `u32` that was just written gives the written value, and no other
/// byte position changes.
pub proof fn lemma_u32_round_trip(s: Seq<u8>, off: int, v: u32)
    requires
        0 <= off,
        off + 4 <= s.len(),
    ensures
        u32_at(put_u32(s, off, v as int), off) == v,
        put_u32(s, off, v as int).len() == s.len(),
        forall|i: int|
            0 <= i < s.len() && !(off <= i < off + 4) ==> #[trigger] put_u32(s, off, v as int)[i]
                == s[i],
{
    reveal(u16_at);
    reveal(u32_at);
}

/// Reads a little-endian `u16` at `off`.
pub fn read_u16(buf: &[u8], off: usize) -> (r: u16)
    requires
        off + 2 <= buf@.len(),
    ensures
        r == u16_at(buf@, off as int),
{
    proof {
        reveal(u16_at);
        reveal(u32_at);
    }
    let b0 = buf[off] as u16;
    let b1 = buf[off + 1] as u16;
    let r = b0 | (b1 << 8);
    assert(r == b0 + 256 * b1) by (bit_vector)
        requires
            b0 < 256,
            b1 < 256,
            r == b0 | (b1 << 8),
    ;
    r
}

/// Reads a little-endian `u32` at `off`.
pub fn read_u32(buf: &[u8], off: usize) -> (r: u32)
    requires
        off + 4 <= buf@.len(),
    ensures
        r == u32_at(buf@, off as int),
{
    proof {
        reveal(u16_at);
        reveal(u32_at);
    }
    let b0 = buf[off] as u32;
    let b1 = buf[off + 1] as u32;
    let b2 = buf[off + 2] as u32;
    let b3 = buf[off + 3] as u32;
    let r = b0 | (b1 << 8) | (b2 << 16) | (b3 << 24);
    assert(r == b0 + 256 * b1 + 65536 * b2 + 16777216 * b3) by (bit_vector)
        requires
            b0 < 256,
            b1 < 256,
            b2 < 256,
            b3 < 256,
            r == b0 | (b1 << 8) | (b2 << 16) | (b3 << 24),
    ;
    r
}

/// Writes `v` as a little-endian `u16` at `off`.
pub fn write_u16(buf: &mut [u8], off: usize, v: u16)
    requires
        off + 2 <= old(buf)@.len(),
    ensures
        final(buf)@ == put_u16(old(buf)@, off as int, v as int),
        u16_at(final(buf)@, off as int) == v,
{
    proof {
        reveal(u16_at);
        reveal(u32_at);
    }
    let lo = (v & 0xFF) as u8;
    let hi = (v >> 8) as u8;
    assert(lo == v % 256 && hi == (v / 256) % 256) by (bit_vector)
        requires
            lo == (v & 0xFF) as u8,
            hi == (v >> 8) as u8,
    ;
    buf[off] = lo;
    buf[off + 1] = hi;
}

/// Writes `v` as a little-endian `u32` at `off`.
pub fn write_u32(buf: &mut [u8], off: usize, v: u32)
    requires
        off + 4 <= old(buf)@.len(),
    ensures
        final(buf)@ == put_u32(old(buf)@, off as int, v as int),
        u32_at(final(buf)@, off as int) == v,
{
    proof {
        reveal(u16_at);
        reveal(u32_at);
    }
    let b0 = (v & 0xFF) as u8;
    let b1 = ((v >> 8) & 0xFF) as u8;
    let b2 = ((v >> 16) & 0xFF) as u8;
    let b3 = ((v >> 24) & 0xFF) as u8;
    assert(b0 == v % 256 && b1 == (v / 256) % 256 && b2 == (v / 65536) % 256 && b3 == (v
        / 16777216) % 256) by (bit_vector)
        requires
            b0 == (v & 0xFF) as u8,
            b1 == ((v >> 8) & 0xFF) as u8,
            b2 == ((v >> 16) & 0xFF) as u8,
            b3 == ((v >> 24) & 0xFF) as u8,
    ;
    buf[off] = b0;
    buf[off + 1] = b1;
    buf[off + 2] = b2;
    buf[off + 3] = b3;
}

} // verus!
