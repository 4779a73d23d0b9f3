//! CRC-32C checksums and the reversible mask applied before they are stored.
use vstd::prelude::*;

verus! {

/// Added after the rotation, so that a masked zero checksum is not zero.
pub const MASK_DELTA: u32 = 0xa282ead8;

/// The CRC-32C (Castagnoli) checksum of a byte sequence.
pub uninterp spec fn crc32c(data: Seq<u8>) -> u32;

/// Relies on `crc::Crc::<u32>::checksum` with the `CRC_32_ISCSI` (Castagnoli)
/// parameters: the result depends on the bytes alone.
#[verifier::external_body]
fn castagnoli_checksum(data: &[u8]) -> (r: u32)
    ensures
        r == crc32c(data@),
{
    crc::Crc::<u32>::new(&crc::CRC_32_ISCSI).checksum(data)
}

/// The CRC-32C checksum of `data`.
pub fn value(data: &[u8]) -> (r: u32)
    ensures
        r == crc32c(data@),
{
    castagnoli_checksum(data)
}

/// Rotation right by 15 bits.
pub open spec fn rotr15(x: u32) -> u32 {
    (x >> 15u32) | (x << 17u32)
}

/// Rotation left by 15 bits.
pub open spec fn rotl15(x: u32) -> u32 {
    (x >> 17u32) | (x << 15u32)
}

/// Rotate right by 15 bits, then add `MASK_DELTA` modulo 2^32.
pub open spec fn mask_spec(crc: u32) -> u32 {
    ((rotr15(crc) + MASK_DELTA) % 0x1_0000_0000) as u32
}

/// Subtract `MASK_DELTA` modulo 2^32, then rotate left by 15 bits.
pub open spec fn unmask_spec(masked: u32) -> u32 {
    rotl15(((masked - MASK_DELTA) % 0x1_0000_0000) as u32)
}

/// Return a masked representation of `crc`.
pub fn mask(crc: u32) -> (r: u32)
    ensures
        r == mask_spec(crc),
{
    ((crc >> 15) | (crc << 17)).wrapping_add(MASK_DELTA)
}

/// Return the checksum whose masked representation is `masked_crc`.
pub fn unmask(masked_crc: u32) -> (r: u32)
    ensures
        r == unmask_spec(masked_crc),
{
    let rot = masked_crc.wrapping_sub(MASK_DELTA);
    (rot >> 17) | (rot << 15)
}

/// Unmasking undoes masking, for every 32-bit value.
pub proof fn lemma_unmask_mask(x: u32)
    ensures
        unmask_spec(mask_spec(x)) == x,
{
    let r = rotr15(x);
    assert(((x >> 15u32) | (x << 17u32)) >> 17u32 | ((x >> 15u32) | (x << 17u32)) << 15u32 == x)
        by (bit_vector);
    assert(((mask_spec(x) - MASK_DELTA) % 0x1_0000_0000) as u32 == r);
}

/// Masking undoes unmasking, for every 32-bit value.
pub proof fn lemma_mask_unmask(y: u32)
    ensures
        mask_spec(unmask_spec(y)) == y,
{
    let r = ((y - MASK_DELTA) % 0x1_0000_0000) as u32;
    assert(((r >> 17u32) | (r << 15u32)) >> 15u32 | ((r >> 17u32) | (r << 15u32)) << 17u32 == r)
        by (bit_vector);
}

} // verus!
