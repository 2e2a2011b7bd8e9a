//! The checksum that guards every header and block of the container
//! format: a CRC-32 with the standard IEEE polynomial.
//!
//! The digest itself comes from the compression library; this crate treats
//! it as an opaque function of the bytes alone and never restates the
//! algorithm. What matters to the callers is that equal byte sequences
//! have equal checksums, which the name `crc32_of` carries by itself.

use vstd::prelude::*;

verus! {

/// The IEEE CRC-32 of a byte sequence, a function of the bytes alone.
pub uninterp spec fn crc32_of(data: Seq<u8>) -> u32;

/// Relies on flate2::Crc (new, update, sum): the accumulator computes the
/// IEEE CRC-32 of exactly the bytes fed to it, a deterministic function of
/// those bytes.
#[verifier::external_body]
pub(crate) fn crc32(data: &[u8]) -> (r: u32)
    ensures
        r == crc32_of(data@),
{
    let mut crc = flate2::Crc::new();
    crc.update(data);
    crc.sum()
}

} // verus!
