//! Little-endian encoding and decoding of 16- and 32-bit integers.
//!
//! These are the primitives the journal uses to serialize fragment headers.

use vstd::prelude::*;
use vstd::pervasive::VecAdditionalExecFns;

verus! {

/// The four bytes of `v` in little-endian order.
pub open spec fn le32_bytes(v: u32) -> Seq<u8> {
    seq![
        (v & 0xff) as u8,
        ((v >> 8) & 0xff) as u8,
        ((v >> 16) & 0xff) as u8,
        ((v >> 24) & 0xff) as u8,
    ]
}

/// The two bytes of `v` in little-endian order.
pub open spec fn le16_bytes(v: u16) -> Seq<u8> {
    seq![(v & 0xff) as u8, ((v >> 8) & 0xff) as u8]
}

/// The value encoded by four little-endian bytes.
pub open spec fn le32_val(b: Seq<u8>) -> u32
    recommends
        b.len() == 4,
{
    (b[0] as u32) | ((b[1] as u32) << 8) | ((b[2] as u32) << 16) | ((b[3] as u32) << 24)
}

/// The value encoded by two little-endian bytes.
pub open spec fn le16_val(b: Seq<u8>) -> u16
    recommends
        b.len() == 2,
{
    (b[0] as u16) | ((b[1] as u16) << 8)
}

/// Decoding the little-endian encoding of a 32-bit value gives the value back.
pub proof fn lemma_le32_round_trip(v: u32)
    ensures
        le32_val(le32_bytes(v)) == v,
{
    let b0 = (v & 0xff) as u8;
    let b1 = ((v >> 8) & 0xff) as u8;
    let b2 = ((v >> 16) & 0xff) as u8;
    let b3 = ((v >> 24) & 0xff) as u8;
    assert((b0 as u32) | ((b1 as u32) << 8) | ((b2 as u32) << 16) | ((b3 as u32) << 24) == v)
        by (bit_vector)
        requires
            b0 == (v & 0xff) as u8,
            b1 == ((v >> 8) & 0xff) as u8,
            b2 == ((v >> 16) & 0xff) as u8,
            b3 == ((v >> 24) & 0xff) as u8,
    ;
}

/// Decoding the little-endian encoding of a 16-bit value gives the value back.
pub proof fn lemma_le16_round_trip(v: u16)
    ensures
        le16_val(le16_bytes(v)) == v,
{
    let b0 = (v & 0xff) as u8;
    let b1 = ((v >> 8) & 0xff) as u8;
    assert((b0 as u16) | ((b1 as u16) << 8) == v)
        by (bit_vector)
        requires
            b0 == (v & 0xff) as u8,
            b1 == ((v >> 8) & 0xff) as u8,
    ;
}

/// Put `value` into `buf` in little-endian order; `buf` must hold exactly four bytes.
pub fn put_u32(value: u32, buf: &mut Vec<u8>)
    requires
        old(buf)@.len() == 4,
    ensures
        final(buf)@ == le32_bytes(value),
{
    assert(value & 0xff < 256 && (value >> 8) & 0xff < 256 && (value >> 16) & 0xff < 256
        && value >> 24 < 256) by (bit_vector);
    assert(value >> 24 == (value >> 24) & 0xff) by (bit_vector);
    buf.set(0, (value & 0xff) as u8);
    buf.set(1, ((value >> 8) & 0xff) as u8);
    buf.set(2, ((value >> 16) & 0xff) as u8);
    buf.set(3, (value >> 24) as u8);
    assert(buf@ =~= le32_bytes(value));
}

/// The value encoded by four little-endian bytes.
pub fn decode_u32(buf: &[u8]) -> (r: u32)
    requires
        buf@.len() == 4,
    ensures
        r == le32_val(buf@),
{
    buf[0] as u32 | ((buf[1] as u32) << 8) | ((buf[2] as u32) << 16) | ((buf[3] as u32) << 24)
}

/// The four bytes of `value` in little-endian order, as a fresh vector.
pub fn encode_u32(value: u32) -> (r: Vec<u8>)
    ensures
        r@ == le32_bytes(value),
{
    let mut buf = vec![0u8; 4];
    put_u32(value, &mut buf);
    buf
}

/// Put `value` into `buf` in little-endian order; `buf` must hold exactly two bytes.
pub fn put_u16(value: u16, buf: &mut Vec<u8>)
    requires
        old(buf)@.len() == 2,
    ensures
        final(buf)@ == le16_bytes(value),
{
    assert(value & 0xff < 256 && value >> 8 < 256) by (bit_vector);
    assert(value >> 8 == (value >> 8) & 0xff) by (bit_vector);
    buf.set(0, (value & 0xff) as u8);
    buf.set(1, (value >> 8) as u8);
    assert(buf@ =~= le16_bytes(value));
}

/// The value encoded by two little-endian bytes.
pub fn decode_u16(buf: &[u8]) -> (r: u16)
    requires
        buf@.len() == 2,
    ensures
        r == le16_val(buf@),
{
    buf[0] as u16 | ((buf[1] as u16) << 8)
}

/// The two bytes of `value` in little-endian order, as a fresh vector.
pub fn encode_u16(value: u16) -> (r: Vec<u8>)
    ensures
        r@ == le16_bytes(value),
{
    let mut buf = vec![0u8; 2];
    put_u16(value, &mut buf);
    buf
}

} // verus!
