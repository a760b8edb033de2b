//! Little-endian fixed-width fields of the wire protocol.

use vstd::prelude::*;

verus! {

/// The value of four little-endian bytes.
pub open spec fn le_u32(b0: u8, b1: u8, b2: u8, b3: u8) -> u32 {
    (b0 as u32) | ((b1 as u32) << 8u32) | ((b2 as u32) << 16u32) | ((b3 as u32) << 24u32)
}

/// The value of the four bytes of `b` that start at `p`.
pub open spec fn u32_at(b: Seq<u8>, p: int) -> u32 {
    le_u32(b[p], b[p + 1], b[p + 2], b[p + 3])
}

/// The four little-endian bytes of `x`.
pub open spec fn u32_bytes(x: u32) -> Seq<u8> {
    seq![
        (x & 0xffu32) as u8,
        ((x >> 8u32) & 0xffu32) as u8,
        ((x >> 16u32) & 0xffu32) as u8,
        ((x >> 24u32) & 0xffu32) as u8,
    ]
}

/// Two's-complement reading of a 32-bit pattern.
pub open spec fn i32_of_bits(u: u32) -> i32 {
    if u < 0x8000_0000u32 {
        u as i32
    } else {
        (u - 0x1_0000_0000int) as i32
    }
}

/// Two's-complement bit pattern of a signed value.
pub open spec fn bits_of_i32(v: i32) -> u32 {
    if v >= 0 {
        v as u32
    } else {
        (v + 0x1_0000_0000int) as u32
    }
}

/// Reading back the bytes of a value gives the value.
pub proof fn lemma_bytes_of_value(x: u32)
    ensures
        u32_bytes(x).len() == 4,
        le_u32(u32_bytes(x)[0], u32_bytes(x)[1], u32_bytes(x)[2], u32_bytes(x)[3]) == x,
{
    let b0 = (x & 0xffu32) as u8;
    let b1 = ((x >> 8u32) & 0xffu32) as u8;
    let b2 = ((x >> 16u32) & 0xffu32) as u8;
    let b3 = ((x >> 24u32) & 0xffu32) as u8;
    assert((b0 as u32) | ((b1 as u32) << 8u32) | ((b2 as u32) << 16u32) | ((b3 as u32) << 24u32)
        == x) by (bit_vector)
        requires
            b0 == (x & 0xffu32) as u8,
            b1 == ((x >> 8u32) & 0xffu32) as u8,
            b2 == ((x >> 16u32) & 0xffu32) as u8,
            b3 == ((x >> 24u32) & 0xffu32) as u8,
    ;
}

/// Writing out the value of four bytes gives the bytes.
pub proof fn lemma_value_of_bytes(b0: u8, b1: u8, b2: u8, b3: u8)
    ensures
        u32_bytes(le_u32(b0, b1, b2, b3)) == seq![b0, b1, b2, b3],
{
    let x = le_u32(b0, b1, b2, b3);
    assert((x & 0xffu32) as u8 == b0 && ((x >> 8u32) & 0xffu32) as u8 == b1 && ((x >> 16u32)
        & 0xffu32) as u8 == b2 && ((x >> 24u32) & 0xffu32) as u8 == b3) by (bit_vector)
        requires
            x == (b0 as u32) | ((b1 as u32) << 8u32) | ((b2 as u32) << 16u32) | ((b3 as u32)
                << 24u32),
    ;
    assert(u32_bytes(x) =~= seq![b0, b1, b2, b3]);
}

/// A signed value survives the trip through its bit pattern.
pub proof fn lemma_i32_bits(v: i32)
    ensures
        i32_of_bits(bits_of_i32(v)) == v,
{
}

/// A bit pattern survives the trip through its signed reading.
pub proof fn lemma_bits_i32(u: u32)
    ensures
        bits_of_i32(i32_of_bits(u)) == u,
{
}

/// Reads the little-endian `u32` at `p`.
pub fn read_u32(b: &[u8], p: usize) -> (r: u32)
    requires
        p + 4 <= b@.len(),
    ensures
        r == u32_at(b@, p as int),
{
    (b[p] as u32) | ((b[p + 1] as u32) << 8u32) | ((b[p + 2] as u32) << 16u32) | ((b[p + 3] as u32)
        << 24u32)
}

/// Reads the little-endian two's-complement `i32` at `p`.
pub fn read_i32(b: &[u8], p: usize) -> (r: i32)
    requires
        p + 4 <= b@.len(),
    ensures
        r == i32_of_bits(u32_at(b@, p as int)),
{
    let u = read_u32(b, p);
    if u < 0x8000_0000u32 {
        u as i32
    } else {
        let low = (u - 0x8000_0000u32) as i32;
        low - 0x7fff_ffffi32 - 1i32
    }
}

/// Appends the four little-endian bytes of `x`.
pub fn push_u32(out: &mut Vec<u8>, x: u32)
    ensures
        final(out)@ == old(out)@ + u32_bytes(x),
{
    out.push((x & 0xffu32) as u8);
    out.push(((x >> 8u32) & 0xffu32) as u8);
    out.push(((x >> 16u32) & 0xffu32) as u8);
    out.push(((x >> 24u32) & 0xffu32) as u8);
    assert(out@ =~= old(out)@ + u32_bytes(x));
}

/// Appends the four little-endian two's-complement bytes of `v`.
pub fn push_i32(out: &mut Vec<u8>, v: i32)
    ensures
        final(out)@ == old(out)@ + u32_bytes(bits_of_i32(v)),
{
    let u: u32 = if v >= 0 {
        v as u32
    } else {
        let shifted = (v as i64) + 0x1_0000_0000i64;
        shifted as u32
    };
    push_u32(out, u);
}

} // verus!
