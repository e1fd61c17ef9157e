//! The fragment checksum: a seeded 32-bit CRC, stored on disk behind a
//! reversible masking transform.

use vstd::prelude::*;

verus! {

/// Constant added to the rotated checksum before it is stored, so that the
/// stored word is not confusable with a raw CRC when scanning damaged files.
pub const MASK_DELTA: u32 = 0xa282ead8;

/// The IEEE CRC-32 of `data` computed from initial engine state `seed`.
/// The journal seeds the engine with the fragment's type byte, so the type
/// participates in the checksum as if it were the first data byte.
pub uninterp spec fn crc32_of(seed: u32, data: Seq<u8>) -> u32;

/// Relies on `crc::crc32::Digest::new_with_initial`, `Hasher32::write` and
/// `Hasher32::sum32`: the digest of `data` from initial state `seed` is a
/// pure function of those two arguments.
#[verifier::external_body]
pub(crate) fn crc32_seeded(seed: u32, data: &[u8]) -> (r: u32)
    ensures
        r == crc32_of(seed, data@),
{
    let mut digest = crc::crc32::Digest::new_with_initial(crc::crc32::IEEE, seed);
    crc::crc32::Hasher32::write(&mut digest, data);
    crc::crc32::Hasher32::sum32(&digest)
}

/// `a + b` reduced modulo two to the thirty-second power.
pub open spec fn wrapping_add32(a: u32, b: u32) -> u32 {
    if a + b < 0x100000000 {
        (a + b) as u32
    } else {
        (a + b - 0x100000000) as u32
    }
}

/// `a - b` reduced modulo two to the thirty-second power.
pub open spec fn wrapping_sub32(a: u32, b: u32) -> u32 {
    if a >= b {
        (a - b) as u32
    } else {
        (a - b + 0x100000000) as u32
    }
}

/// The masked form of a raw checksum: rotate right by fifteen bits, then add
/// the masking constant with wraparound.
pub open spec fn mask_crc_spec(crc: u32) -> u32 {
    wrapping_add32((crc >> 15) | (crc << 17), MASK_DELTA)
}

/// The inverse transform: subtract the masking constant with wraparound,
/// then rotate left by fifteen bits.
pub open spec fn unmask_crc_spec(stored: u32) -> u32 {
    ((wrapping_sub32(stored, MASK_DELTA)) << 15) | ((wrapping_sub32(stored, MASK_DELTA)) >> 17)
}

/// Unmasking is a true inverse of masking, for every 32-bit checksum.
pub proof fn lemma_unmask_mask(crc: u32)
    ensures
        unmask_crc_spec(mask_crc_spec(crc)) == crc,
{
    let rot = (crc >> 15) | (crc << 17);
    assert(wrapping_sub32(wrapping_add32(rot, MASK_DELTA), MASK_DELTA) == rot);
    assert(((rot << 15) | (rot >> 17)) == crc) by (bit_vector)
        requires
            rot == (crc >> 15) | (crc << 17),
    ;
}

/// Mask a raw checksum for storage.
pub fn mask_crc(crc: u32) -> (r: u32)
    ensures
        r == mask_crc_spec(crc),
{
    let rot = (crc >> 15) | (crc << 17);
    if rot <= u32::MAX - MASK_DELTA {
        rot + MASK_DELTA
    } else {
        ((rot as u64 + MASK_DELTA as u64) - 0x100000000) as u32
    }
}

/// Recover the raw checksum from its stored, masked form.
pub fn unmask_crc(stored: u32) -> (r: u32)
    ensures
        r == unmask_crc_spec(stored),
{
    let c = if stored >= MASK_DELTA {
        stored - MASK_DELTA
    } else {
        ((stored as u64 + 0x100000000) - MASK_DELTA as u64) as u32
    };
    (c << 15) | (c >> 17)
}

} // verus!
