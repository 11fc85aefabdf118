//! TensorFlow checkpoint checksums (CRC-32C with the LevelDB-style mask).

use vstd::prelude::*;
use crate::checksum::{crc_with_poly, spec_crc};

verus! {

/// The reflected Castagnoli polynomial.
pub const CRC32C_POLY: u32 = 0x82F6_3B78;

/// CRC-32C (Castagnoli) of `data`.
pub open spec fn spec_crc32c(data: Seq<u8>) -> u32 {
    spec_crc(CRC32C_POLY, data)
}

/// Rotate a 32-bit value right by 15 bits.
pub open spec fn rotr15(x: u32) -> u32 {
    (x >> 15) | (x << 17)
}

/// The masked checksum stored in TensorFlow table blocks.
pub open spec fn spec_masked_crc32c(data: Seq<u8>) -> u32 {
    ((rotr15(spec_crc32c(data)) as int + 0xa282_ead8int) % 0x1_0000_0000) as u32
}

/// CRC-32C (Castagnoli) of `data`.
pub fn crc32c(data: &[u8]) -> (crc: u32)
    ensures
        crc == spec_crc32c(data@),
{
    crc_with_poly(CRC32C_POLY, data)
}

/// Rotated and offset CRC-32C, as TensorFlow stores it.
pub fn masked_crc32c(data: &[u8]) -> (m: u32)
    ensures
        m == spec_masked_crc32c(data@),
{
    let c = crc32c(data);
    let r = (c >> 15) | (c << 17);
    ((r as u64 + 0xa282_ead8) % 0x1_0000_0000) as u32
}

} // verus!
