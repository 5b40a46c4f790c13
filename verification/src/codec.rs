//! Big-endian encoding of 32-bit integers, as used by the save format and
//! by the message protocol.
use vstd::prelude::*;

verus! {

/// Byte `k` (0 is the most significant) of the two's-complement form of `x`.
pub open spec fn be_byte(x: i32, k: int) -> u8 {
    if k == 0 {
        ((x as u32) >> 24u32) as u8
    } else if k == 1 {
        ((x as u32) >> 16u32) as u8
    } else if k == 2 {
        ((x as u32) >> 8u32) as u8
    } else {
        (x as u32) as u8
    }
}

/// The four bytes of `x`, most significant first.
pub open spec fn be_bytes(x: i32) -> Seq<u8> {
    seq![be_byte(x, 0), be_byte(x, 1), be_byte(x, 2), be_byte(x, 3)]
}

/// The integer whose two's-complement form is the four bytes, most
/// significant first.
pub open spec fn be_decode(b0: u8, b1: u8, b2: u8, b3: u8) -> i32 {
    (((b0 as u32) << 24u32) | ((b1 as u32) << 16u32) | ((b2 as u32) << 8u32) | (b3 as u32)) as i32
}

/// Decoding the four bytes of an integer gives the integer back.
pub proof fn lemma_be_roundtrip(x: i32)
    ensures
        be_decode(be_byte(x, 0), be_byte(x, 1), be_byte(x, 2), be_byte(x, 3)) == x,
{
    assert((((((x as u32) >> 24u32) as u8) as u32) << 24u32 | (((((x as u32) >> 16u32) as u8) as u32)
        << 16u32) | (((((x as u32) >> 8u32) as u8) as u32) << 8u32) | (((x as u32) as u8) as u32)) as i32
        == x) by (bit_vector);
}

/// Encoding the integer that four bytes decode to gives the bytes back.
pub proof fn lemma_be_decode_encode(b0: u8, b1: u8, b2: u8, b3: u8)
    ensures
        be_byte(be_decode(b0, b1, b2, b3), 0) == b0,
        be_byte(be_decode(b0, b1, b2, b3), 1) == b1,
        be_byte(be_decode(b0, b1, b2, b3), 2) == b2,
        be_byte(be_decode(b0, b1, b2, b3), 3) == b3,
{
    let v: u32 = ((b0 as u32) << 24u32) | ((b1 as u32) << 16u32) | ((b2 as u32) << 8u32) | (b3 as u32);
    assert(((((v as i32) as u32) >> 24u32) as u8) == b0) by (bit_vector)
        requires v == ((b0 as u32) << 24u32) | ((b1 as u32) << 16u32) | ((b2 as u32) << 8u32) | (b3 as u32);
    assert(((((v as i32) as u32) >> 16u32) as u8) == b1) by (bit_vector)
        requires v == ((b0 as u32) << 24u32) | ((b1 as u32) << 16u32) | ((b2 as u32) << 8u32) | (b3 as u32);
    assert(((((v as i32) as u32) >> 8u32) as u8) == b2) by (bit_vector)
        requires v == ((b0 as u32) << 24u32) | ((b1 as u32) << 16u32) | ((b2 as u32) << 8u32) | (b3 as u32);
    assert((((v as i32) as u32) as u8) == b3) by (bit_vector)
        requires v == ((b0 as u32) << 24u32) | ((b1 as u32) << 16u32) | ((b2 as u32) << 8u32) | (b3 as u32);
}

/// The four bytes of `x`, most significant first (what `i32::to_be_bytes`
/// gives).
pub(crate) fn i32_to_be_bytes(x: i32) -> (b: [u8; 4])
    ensures
        b@ == be_bytes(x),
{
    let u = x as u32;
    let b: [u8; 4] = [(u >> 24u32) as u8, (u >> 16u32) as u8, (u >> 8u32) as u8, u as u8];
    assert(b@ =~= be_bytes(x));
    b
}

/// The integer whose four bytes, most significant first, are `b` (what
/// `i32::from_be_bytes` gives).
pub(crate) fn i32_from_be_bytes(b: [u8; 4]) -> (x: i32)
    ensures
        x == be_decode(b@[0], b@[1], b@[2], b@[3]),
{
    (((b[0] as u32) << 24u32) | ((b[1] as u32) << 16u32) | ((b[2] as u32) << 8u32) | (b[3] as u32)) as i32
}

} // verus!
