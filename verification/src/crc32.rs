//! The CRC-32 checksum: the running update and the combination of two
//! checksums into the checksum of the concatenation. The polynomial
//! arithmetic itself is carried out by the `zlib-rs` crate.

use vstd::prelude::*;

verus! {

/// The CRC-32 of `data` continued from the accumulator `start`; a pure
/// function of its arguments, computed by the outside implementation.
pub uninterp spec fn crc32_of(start: u32, data: Seq<u8>) -> u32;

/// Relies on zlib-rs's `crc32::crc32`: the checksum depends on the
/// starting accumulator and the bytes alone, and empty input leaves the
/// accumulator unchanged.
#[verifier::external_body]
fn crc32_update(start: u32, data: &[u8]) -> (r: u32)
    ensures
        r == crc32_of(start, data@),
        data@.len() == 0 ==> r == start,
{
    zlib_rs::crc32::crc32(start, data)
}

/// Computes the CRC-32 checksum of `data` starting from `crc`.
///
/// Mirrors the classic entry point: an absent buffer returns the initial
/// accumulator value `0`, whatever `crc` holds.
pub fn crc32(crc: u32, buf: Option<&[u8]>) -> (r: u32)
    ensures
        r == match buf {
            Some(data) => crc32_of(crc, data@),
            None => 0u32,
        },
{
    match buf {
        Some(data) => crc32_update(crc, data),
        None => 0,
    }
}

/// Relies on zlib-rs's `crc32::crc32_combine`: combining the checksums of
/// two sequences under the second's length yields the checksum of their
/// concatenation.
#[verifier::external_body]
fn crc32_combine_raw(crc1: u32, crc2: u32, len2: u64) -> (r: u32)
    ensures
        forall|a: Seq<u8>, b: Seq<u8>|
            (crc1 == crc32_of(0, a) && crc2 == crc32_of(0, b) && b.len() == len2) ==> r
                == #[trigger] crc32_of(0, a + b),
{
    zlib_rs::crc32::crc32_combine(crc1, crc2, len2)
}

/// Combines two CRC-32 checksums into the checksum of the concatenated
/// input, given the length of the second input.
///
/// A negative length cannot belong to any byte sequence: the debugging
/// sentinel `0xFFFF_FFFF` is returned instead of a plausible checksum.
pub fn crc32_combine(crc1: u32, crc2: u32, len2: i64) -> (r: u32)
    ensures
        len2 < 0 ==> r == 0xffff_ffffu32,
        len2 >= 0 ==> forall|a: Seq<u8>, b: Seq<u8>|
            (crc1 == crc32_of(0, a) && crc2 == crc32_of(0, b) && b.len() == len2) ==> r
                == #[trigger] crc32_of(0, a + b),
{
    if len2 < 0 {
        return 0xffff_ffff;
    }
    crc32_combine_raw(crc1, crc2, len2 as u64)
}

} // verus!
