//! One-shot compression and decompression through the whole-buffer entry
//! points, including the byte-exact reference scenario.

use zlib_core::zlib::{compress, compress2, compress_bound, uncompress};

#[test]
fn ferris_compresses_to_reference_bytes() {
    let compressed = compress(b"Ferris").unwrap();
    assert_eq!(
        compressed,
        vec![0x78, 0x9C, 0x73, 0x4B, 0x2D, 0x2A, 0xCA, 0x2C, 0x06, 0x00, 0x08, 0x06, 0x02, 0x6C]
    );
    assert_eq!(compressed.len(), 14);
}

#[test]
fn ferris_reference_bytes_decompress() {
    let source = [120u8, 156, 115, 75, 45, 42, 202, 44, 6, 0, 8, 6, 2, 108];
    let out = uncompress(&source, 100).unwrap();
    assert_eq!(out, b"Ferris");
}

#[test]
fn round_trip_all_levels() {
    let data = b"It was the best of times, it was the worst of times. ".repeat(50);
    for level in -1..=9 {
        let compressed = compress2(&data, level).unwrap();
        let out = uncompress(&compressed, data.len()).unwrap();
        assert_eq!(out, data);
    }
}

#[test]
fn round_trip_empty_input() {
    let compressed = compress(b"").unwrap();
    let out = uncompress(&compressed, 16).unwrap();
    assert!(out.is_empty());
}

#[test]
fn compress_bound_is_generous() {
    for n in [0usize, 1, 9, 100, 65535, 1 << 20] {
        assert!(compress_bound(n) >= n);
    }
}

#[test]
fn invalid_level_is_rejected() {
    assert!(compress2(b"data", 10).is_err());
    assert!(compress2(b"data", -2).is_err());
}

#[test]
fn corrupt_input_is_a_data_error() {
    let r = uncompress(&[0xDE, 0xAD, 0xBE, 0xEF], 64);
    assert_eq!(r.unwrap_err(), zlib_core::session::ReturnCode::DataError);
}

#[test]
fn undersized_destination_is_a_buffer_error() {
    let compressed = compress(b"a somewhat longer piece of text").unwrap();
    let r = uncompress(&compressed, 4);
    assert_eq!(r.unwrap_err(), zlib_core::session::ReturnCode::BufError);
}
