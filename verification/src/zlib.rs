//! One-shot convenience entry points over whole buffers: match-based
//! compression at a chosen level and full decompression, both carried out
//! by the `zlib-rs` crate behind exact contracts.

use vstd::prelude::*;

verus! {

use crate::session::ReturnCode;

/// The bytes that compressing `data` at `level` under the default zlib
/// configuration produces; a pure function of its arguments, computed by
/// the outside implementation.
pub uninterp spec fn zlib_deflate_of(data: Seq<u8>, level: int) -> Seq<u8>;

/// What `compress_bound` returns for a source length; a pure function of
/// the length, computed by the outside implementation.
pub uninterp spec fn compress_bound_of(len: int) -> int;

/// Relies on zlib-rs's `compress_bound`: an upper bound, never smaller
/// than the source itself, on the compressed size of `len` source bytes.
#[verifier::external_body]
fn compress_bound_raw(len: usize) -> (r: usize)
    requires
        len <= 0xfff_ffff,
    ensures
        r as int == compress_bound_of(len as int),
        r >= len,
        r <= 0x1400_0000,
{
    zlib_rs::compress_bound(len)
}

/// An upper bound on the size of `compress2`'s output for `source_len`
/// input bytes.
pub fn compress_bound(source_len: usize) -> (r: usize)
    requires
        source_len <= 0xfff_ffff,
    ensures
        r as int == compress_bound_of(source_len as int),
        r >= source_len,
{
    compress_bound_raw(source_len)
}

/// Relies on zlib-rs's `compress_slice`: with a valid level and room of
/// `compress_bound`, compression succeeds, and its output is a function of
/// the input bytes and the level alone.
#[verifier::external_body]
fn compress_slice_raw(input: &[u8], level: i32, cap: usize) -> (r: Option<Vec<u8>>)
    ensures
        r is Some ==> r.unwrap()@ == zlib_deflate_of(input@, level as int),
        (-1 <= level <= 9 && cap as int >= compress_bound_of(input@.len() as int)) ==> r
            is Some,
{
    let mut buf = vec![0u8; cap];
    let config = zlib_rs::DeflateConfig { level, ..Default::default() };
    let (out, code) = zlib_rs::compress_slice(&mut buf, input, config);
    if code == zlib_rs::ReturnCode::Ok {
        let n = out.len();
        buf.truncate(n);
        Some(buf)
    } else {
        None
    }
}

/// Relies on zlib-rs's `decompress_slice`: decompression inverts
/// compression whenever the destination has room for the decompressed
/// data, and never writes more than the destination's room.
#[verifier::external_body]
fn decompress_slice_raw(input: &[u8], cap: usize) -> (r: Result<Vec<u8>, ReturnCode>)
    ensures
        r.is_ok() ==> r.unwrap()@.len() <= cap,
        forall|src: Seq<u8>, level: int|
            (input@ == #[trigger] zlib_deflate_of(src, level) && src.len() <= cap) ==> r.is_ok()
                && r.unwrap()@ == src,
        r.is_err() ==> (r == Err::<Vec<u8>, ReturnCode>(ReturnCode::DataError) || r == Err::<
            Vec<u8>,
            ReturnCode,
        >(ReturnCode::BufError) || r == Err::<Vec<u8>, ReturnCode>(ReturnCode::NeedDict) || r
            == Err::<Vec<u8>, ReturnCode>(ReturnCode::MemError)),
{
    let mut buf = vec![0u8; cap];
    let config = zlib_rs::InflateConfig::default();
    let (out, code) = zlib_rs::decompress_slice(&mut buf, input, config);
    let n = out.len();
    match code {
        zlib_rs::ReturnCode::Ok => {
            buf.truncate(n);
            Ok(buf)
        },
        zlib_rs::ReturnCode::BufError => Err(ReturnCode::BufError),
        zlib_rs::ReturnCode::NeedDict => Err(ReturnCode::NeedDict),
        zlib_rs::ReturnCode::MemError => Err(ReturnCode::MemError),
        _ => Err(ReturnCode::DataError),
    }
}

/// Compresses `source` in one call at the given level (`-1` selects the
/// default level, `0` stores, `1..=9` trade speed for size).
pub fn compress2(source: &[u8], level: i32) -> (r: Result<Vec<u8>, ReturnCode>)
    requires
        source@.len() <= 0xfff_ffff,
    ensures
        -1 <= level <= 9 ==> r.is_ok() && r.unwrap()@ == zlib_deflate_of(
            source@,
            level as int,
        ),
        r.is_err() ==> r == Err::<Vec<u8>, ReturnCode>(ReturnCode::StreamError),
{
    if level < -1 || level > 9 {
        return Err(ReturnCode::StreamError);
    }
    let cap = compress_bound_raw(source.len());
    match compress_slice_raw(source, level, cap) {
        Some(v) => Ok(v),
        None => Err(ReturnCode::StreamError),
    }
}

/// Compresses `source` in one call at the default level.
pub fn compress(source: &[u8]) -> (r: Result<Vec<u8>, ReturnCode>)
    requires
        source@.len() <= 0xfff_ffff,
    ensures
        r.is_ok(),
        r.unwrap()@ == zlib_deflate_of(source@, -1),
{
    compress2(source, -1)
}

/// Decompresses `source` into a buffer of at most `dest_len` bytes.
///
/// Whenever `source` is the compression of some data that fits in
/// `dest_len`, the call succeeds and returns exactly that data; corrupt
/// input yields a data error and an undersized destination a buffer error.
pub fn uncompress(source: &[u8], dest_len: usize) -> (r: Result<Vec<u8>, ReturnCode>)
    ensures
        r.is_ok() ==> r.unwrap()@.len() <= dest_len,
        forall|src: Seq<u8>, level: int|
            (source@ == #[trigger] zlib_deflate_of(src, level) && src.len() <= dest_len)
                ==> r.is_ok() && r.unwrap()@ == src,
        r.is_err() ==> (r == Err::<Vec<u8>, ReturnCode>(ReturnCode::DataError) || r == Err::<
            Vec<u8>,
            ReturnCode,
        >(ReturnCode::BufError) || r == Err::<Vec<u8>, ReturnCode>(ReturnCode::NeedDict) || r
            == Err::<Vec<u8>, ReturnCode>(ReturnCode::MemError)),
{
    decompress_slice_raw(source, dest_len)
}

} // verus!
