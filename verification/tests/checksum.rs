//! Checksum behaviour: identity elements, concrete values, the combine
//! law on concrete inputs, and the negative-length sentinel.

use zlib_core::adler32::{adler32, adler32_combine};
use zlib_core::crc32::{crc32, crc32_combine};

#[test]
fn adler32_absent_buffer_is_initial_value() {
    assert_eq!(adler32(0, None), 1);
    assert_eq!(adler32(12345, None), 1);
}

#[test]
fn adler32_empty_slice_keeps_accumulator() {
    assert_eq!(adler32(1, Some(&[])), 1);
    assert_eq!(adler32(99, Some(&[])), 99);
}

#[test]
fn adler32_concrete_values() {
    assert_eq!(adler32(0, Some(&[1, 2, 3])), 655366);
    assert_eq!(adler32(1, Some(b"Wikipedia")), 0x11E6_0398);
}

#[test]
fn adler32_combine_matches_whole_input() {
    let input: &[u8] = &[1, 2, 3, 4, 5, 6, 7, 8];
    let lo = &input[..4];
    let hi = &input[4..];
    let full = adler32(1, Some(input));
    let a1 = adler32(1, Some(lo));
    let a2 = adler32(1, Some(hi));
    assert_eq!(adler32_combine(a1, a2, hi.len() as i64), full);
}

#[test]
fn adler32_combine_text_split() {
    let text = b"the quick brown fox jumps over the lazy dog";
    for cut in [0usize, 1, 7, 20, 42, 43] {
        let a1 = adler32(1, Some(&text[..cut]));
        let a2 = adler32(1, Some(&text[cut..]));
        let full = adler32(1, Some(text));
        assert_eq!(adler32_combine(a1, a2, (text.len() - cut) as i64), full);
    }
}

#[test]
fn adler32_combine_negative_length_sentinel() {
    assert_eq!(adler32_combine(1, 1, -1), 0xFFFF_FFFF);
    assert_eq!(adler32_combine(655366, 99, i64::MIN), 0xFFFF_FFFF);
}

#[test]
fn crc32_absent_buffer_is_initial_value() {
    assert_eq!(crc32(0, None), 0);
    assert_eq!(crc32(1, None), 0);
}

#[test]
fn crc32_empty_slice_keeps_accumulator() {
    assert_eq!(crc32(0, Some(&[])), 0);
    assert_eq!(crc32(77, Some(&[])), 77);
}

#[test]
fn crc32_concrete_values() {
    assert_eq!(crc32(0, Some(&[1, 2, 3])), 1438416925);
    // Well-known check value of the CRC-32 algorithm.
    assert_eq!(crc32(0, Some(b"123456789")), 0xCBF4_3926);
}

#[test]
fn crc32_combine_matches_whole_input() {
    let input: &[u8] = &[1, 2, 3, 4, 5, 6, 7, 8];
    let lo = &input[..4];
    let hi = &input[4..];
    let full = crc32(0, Some(input));
    let c1 = crc32(0, Some(lo));
    let c2 = crc32(0, Some(hi));
    assert_eq!(crc32_combine(c1, c2, hi.len() as i64), full);
}

#[test]
fn crc32_combine_negative_length_sentinel() {
    assert_eq!(crc32_combine(0, 0, -1), 0xFFFF_FFFF);
    assert_eq!(crc32_combine(1438416925, 7, -100), 0xFFFF_FFFF);
}
