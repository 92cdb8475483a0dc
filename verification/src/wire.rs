//! Big-endian byte layout of the multi-byte integers on the wire.

use vstd::prelude::*;

verus! {

/// The two big-endian bytes of a 16-bit value.
pub open spec fn be16(v: u16) -> Seq<u8> {
    seq![(v >> 8) as u8, (v & 0xff) as u8]
}

/// The 16-bit value carried by two big-endian bytes.
pub open spec fn be16_val(hi: u8, lo: u8) -> u16 {
    ((hi as u16) << 8) | (lo as u16)
}

/// The four big-endian bytes of a 32-bit value.
pub open spec fn be32(v: u32) -> Seq<u8> {
    seq![
        (v >> 24) as u8,
        ((v >> 16) & 0xff) as u8,
        ((v >> 8) & 0xff) as u8,
        (v & 0xff) as u8,
    ]
}

/// The 32-bit value carried by four big-endian bytes.
pub open spec fn be32_val(b0: u8, b1: u8, b2: u8, b3: u8) -> u32 {
    ((b0 as u32) << 24) | ((b1 as u32) << 16) | ((b2 as u32) << 8) | (b3 as u32)
}

/// A 16-bit value survives the trip to its big-endian bytes and back.
pub proof fn lemma_be16_round_trip(v: u16)
    ensures
        be16_val(be16(v)[0], be16(v)[1]) == v,
{
    assert((((v >> 8) as u8 as u16) << 8) | ((v & 0xff) as u8 as u16) == v) by (bit_vector);
}

/// A 32-bit value survives the trip to its big-endian bytes and back.
pub proof fn lemma_be32_round_trip(v: u32)
    ensures
        be32_val(be32(v)[0], be32(v)[1], be32(v)[2], be32(v)[3]) == v,
{
    assert((((v >> 24) as u8 as u32) << 24) | ((((v >> 16) & 0xff) as u8 as u32) << 16) | ((((v
        >> 8) & 0xff) as u8 as u32) << 8) | ((v & 0xff) as u8 as u32) == v) by (bit_vector);
}

/// Appends the two big-endian bytes of `v`.
pub fn push_u16_be(out: &mut Vec<u8>, v: u16)
    ensures
        final(out)@ == old(out)@ + be16(v),
{
    assert(v >> 8 < 256) by (bit_vector);
    assert(v & 0xff < 256) by (bit_vector);
    out.push((v >> 8) as u8);
    out.push((v & 0xff) as u8);
    assert(final(out)@ =~= old(out)@ + be16(v));
}

/// Appends the four big-endian bytes of `v`.
pub fn push_u32_be(out: &mut Vec<u8>, v: u32)
    ensures
        final(out)@ == old(out)@ + be32(v),
{
    assert(v >> 24 < 256) by (bit_vector);
    assert((v >> 16) & 0xff < 256) by (bit_vector);
    assert((v >> 8) & 0xff < 256) by (bit_vector);
    assert(v & 0xff < 256) by (bit_vector);
    out.push((v >> 24) as u8);
    out.push(((v >> 16) & 0xff) as u8);
    out.push(((v >> 8) & 0xff) as u8);
    out.push((v & 0xff) as u8);
    assert(final(out)@ =~= old(out)@ + be32(v));
}

/// Reads the 16-bit value at `pos`.
pub fn read_u16_be(buf: &Vec<u8>, pos: usize) -> (r: u16)
    requires
        pos + 2 <= buf@.len(),
    ensures
        r == be16_val(buf@[pos as int], buf@[pos + 1]),
{
    let n = buf.len();
    let hi = buf[pos];
    let lo = buf[pos + 1];
    ((hi as u16) << 8u16) | (lo as u16)
}

/// Reads the 32-bit value at `pos`.
pub fn read_u32_be(buf: &Vec<u8>, pos: usize) -> (r: u32)
    requires
        pos + 4 <= buf@.len(),
    ensures
        r == be32_val(buf@[pos as int], buf@[pos + 1], buf@[pos + 2], buf@[pos + 3]),
{
    let n = buf.len();
    let b0 = buf[pos];
    let b1 = buf[pos + 1];
    let b2 = buf[pos + 2];
    let b3 = buf[pos + 3];
    ((b0 as u32) << 24u32) | ((b1 as u32) << 16u32) | ((b2 as u32) << 8u32) | (b3 as u32)
}

} // verus!
