//! Little-endian serialization of a 32-bit value into a fresh buffer.

use vstd::prelude::*;
use vstd::pervasive::VecAdditionalExecFns;
use crate::coding::le32_bytes;

verus! {

/// The four bytes of `value` in little-endian order, as a fresh vector.
pub fn encode_u32(value: u32) -> (r: Vec<u8>)
    ensures
        r@ == le32_bytes(value),
{
    assert(value & 0xff < 256 && (value >> 8) & 0xff < 256 && (value >> 16) & 0xff < 256 && (value
        >> 24) & 0xff < 256) by (bit_vector);
    let mut buf = vec![0u8; 4];
    buf.set(0, (value & 0xff) as u8);
    buf.set(1, ((value >> 8) & 0xff) as u8);
    buf.set(2, ((value >> 16) & 0xff) as u8);
    buf.set(3, ((value >> 24) & 0xff) as u8);
    assert(buf@ =~= le32_bytes(value));
    buf
}

} // verus!
