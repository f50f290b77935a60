//! The stored-block decoder on malformed and edge-case streams.

use zlib_core::inflate::{InfMode, StoredInflate};

#[test]
fn empty_final_block_finishes() {
    let mut dec = StoredInflate::new();
    dec.feed(&[0x01, 0x00, 0x00, 0xFF, 0xFF]);
    assert!(matches!(dec.mode, InfMode::Done));
    assert!(dec.out.is_empty());
}

#[test]
fn non_final_empty_block_returns_to_boundary() {
    let mut dec = StoredInflate::new();
    dec.feed(&[0x00, 0x00, 0x00, 0xFF, 0xFF]);
    assert!(matches!(dec.mode, InfMode::AtBlock));
}

#[test]
fn huffman_block_type_is_rejected() {
    let mut dec = StoredInflate::new();
    dec.push_byte(0x02);
    assert!(matches!(dec.mode, InfMode::Failed));
}

#[test]
fn corrupt_length_complement_is_rejected() {
    let mut dec = StoredInflate::new();
    dec.feed(&[0x01, 0x03, 0x00, 0xAA, 0xBB]);
    assert!(matches!(dec.mode, InfMode::Failed));
}

#[test]
fn payload_is_replayed_verbatim() {
    let mut dec = StoredInflate::new();
    dec.feed(&[0x01, 0x03, 0x00, 0xFC, 0xFF, b'a', b'b', b'c']);
    assert!(matches!(dec.mode, InfMode::Done));
    assert_eq!(dec.out, b"abc");
}

#[test]
fn trailing_bytes_after_final_block_fail() {
    let mut dec = StoredInflate::new();
    dec.feed(&[0x01, 0x00, 0x00, 0xFF, 0xFF, 0x00]);
    assert!(matches!(dec.mode, InfMode::Failed));
}
