//! A streaming DEFLATE engine centred on the stored-block strategy, together
//! with the zlib checksum primitives and their combination algebra.
//!
//! The compression session, its sliding history window, the pending output
//! buffer and the stored-block encoder are implemented and verified here.
//! Huffman-coded blocks and the CRC-32 polynomial arithmetic are delegated to
//! the `zlib-rs` crate behind a small set of trusted declarations.

pub mod adler32;
pub mod crc32;
pub mod deflate;
pub mod format;
pub mod inflate;
pub mod pending;
pub mod session;
pub mod zlib;
pub mod stored;

use vstd::prelude::*;

verus! {

/// Largest prime smaller than 65536; the modulus of the Adler-32 checksum.
pub const ADLER_BASE: u32 = 65521;

} // verus!
