//! The stored-block wire format: a three-bit block header padded to the
//! next byte boundary, a little-endian 16-bit length, its one's complement,
//! and the verbatim payload; plus the zlib container framing around the
//! deflate stream.

use vstd::prelude::*;

verus! {

/// Largest payload a single stored block can carry.
pub const MAX_STORED: usize = 65535;

/// A 16-bit value as two little-endian bytes.
pub open spec fn le16(v: u16) -> Seq<u8> {
    seq![(v & 0xff) as u8, (v >> 8) as u8]
}

/// A 32-bit value as four big-endian bytes; the order zlib uses for its
/// checksum trailer.
pub open spec fn be32(v: u32) -> Seq<u8> {
    seq![
        ((v >> 24) & 0xff) as u8,
        ((v >> 16) & 0xff) as u8,
        ((v >> 8) & 0xff) as u8,
        (v & 0xff) as u8,
    ]
}

/// The first byte of a stored block when emission is byte aligned: the
/// final-block flag in the lowest bit, the two zero type bits, zero padding.
pub open spec fn stored_header_byte(last: bool) -> u8 {
    if last {
        1u8
    } else {
        0u8
    }
}

/// A complete byte-aligned stored block: header byte, length, inverted
/// length, payload.
pub open spec fn stored_frame(last: bool, payload: Seq<u8>) -> Seq<u8>
    recommends
        payload.len() <= MAX_STORED,
{
    seq![stored_header_byte(last)] + le16(payload.len() as u16) + le16(!(payload.len() as u16))
        + payload
}

/// The two-byte zlib stream header for a given base-two logarithm of the
/// window size: compression method 8, the window size in the upper nibble,
/// and a check value that makes the pair divisible by 31.
pub open spec fn zlib_header(window_bits: int) -> Seq<u8>
    recommends
        8 <= window_bits <= 15,
{
    let cmf = 8 + (window_bits - 8) * 16;
    let rest = (cmf * 256) % 31;
    let flg = if rest == 0 {
        0int
    } else {
        31 - rest
    };
    seq![cmf as u8, flg as u8]
}

} // verus!
