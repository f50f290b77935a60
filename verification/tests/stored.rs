//! The verified stored-block engine: one-shot and streaming compression,
//! fragmentation, flush points, window bookkeeping, and cross-checks of
//! its output against the independent zlib-rs decoder.

use zlib_core::deflate::Flush;
use zlib_core::inflate::{InfMode, StoredInflate};
use zlib_core::session::{
    at_flush_point, compress_stored, deflate, deflate_init, deflate_reset, ReturnCode,
};

fn inflate_reference(stream: &[u8], expected_len: usize) -> Vec<u8> {
    let mut buf = vec![0u8; expected_len + 64];
    let (out, code) = zlib_rs::decompress_slice(&mut buf, stream, zlib_rs::InflateConfig::default());
    assert_eq!(code, zlib_rs::ReturnCode::Ok, "reference inflate failed");
    out.to_vec()
}

#[test]
fn one_shot_zlib_stream_decodes_with_reference_inflate() {
    let data = b"stored blocks carry their payload verbatim".to_vec();
    let stream = compress_stored(&data, 15, 8, true).unwrap();
    assert_eq!(inflate_reference(&stream, data.len()), data);
}

#[test]
fn one_shot_zlib_stream_empty_input() {
    let stream = compress_stored(b"", 15, 8, true).unwrap();
    assert_eq!(inflate_reference(&stream, 0), Vec::<u8>::new());
}

#[test]
fn one_shot_large_input_spans_multiple_blocks() {
    let data: Vec<u8> = (0..200_000u32).map(|i| (i % 251) as u8).collect();
    let stream = compress_stored(&data, 15, 8, true).unwrap();
    assert_eq!(inflate_reference(&stream, data.len()), data);
}

#[test]
fn one_shot_raw_stream_decodes_with_own_decoder() {
    let data = b"raw deflate stored stream".to_vec();
    let stream = compress_stored(&data, 15, 8, false).unwrap();
    let mut dec = StoredInflate::new();
    dec.feed(&stream);
    assert!(matches!(dec.mode, InfMode::Done));
    assert_eq!(dec.out, data);
}

#[test]
fn decoder_output_is_chunking_independent() {
    let data = b"feeding one byte at a time decodes the same output".to_vec();
    let stream = compress_stored(&data, 15, 8, false).unwrap();
    let mut whole = StoredInflate::new();
    whole.feed(&stream);
    let mut stepped = StoredInflate::new();
    for &byte in &stream {
        stepped.push_byte(byte);
    }
    assert!(matches!(whole.mode, InfMode::Done));
    assert!(matches!(stepped.mode, InfMode::Done));
    assert_eq!(whole.out, stepped.out);
    assert_eq!(whole.out, data);
}

#[test]
fn streaming_in_small_fragments_yields_decodable_stream() {
    let data: Vec<u8> = (0..10_000u32).map(|i| (i * 7 % 256) as u8).collect();
    let mut s = deflate_init(15, 8, true).unwrap();
    let mut output: Vec<u8> = Vec::new();
    let mut avail_out = 64 * 1024usize;
    for chunk in data.chunks(97) {
        let mut next_in = 0usize;
        let code = deflate(&mut s, chunk, &mut next_in, &mut output, &mut avail_out, Flush::NoFlush);
        assert!(code == ReturnCode::Progress || code == ReturnCode::StreamEnd);
        assert_eq!(next_in, chunk.len());
    }
    let mut next_in = 0usize;
    let code = deflate(&mut s, &[], &mut next_in, &mut output, &mut avail_out, Flush::Finish);
    assert_eq!(code, ReturnCode::StreamEnd);
    assert_eq!(inflate_reference(&output, data.len()), data);
}

#[test]
fn fragmented_and_one_shot_streams_decode_identically() {
    let data: Vec<u8> = (0..5_000u32).map(|i| (i % 13) as u8).collect();
    let one_shot = compress_stored(&data, 15, 8, true).unwrap();
    let mut s = deflate_init(15, 8, true).unwrap();
    let mut streamed: Vec<u8> = Vec::new();
    let mut avail_out = 64 * 1024usize;
    for chunk in data.chunks(1) {
        let mut next_in = 0usize;
        deflate(&mut s, chunk, &mut next_in, &mut streamed, &mut avail_out, Flush::NoFlush);
        assert_eq!(next_in, chunk.len());
    }
    let mut next_in = 0usize;
    let code = deflate(&mut s, &[], &mut next_in, &mut streamed, &mut avail_out, Flush::Finish);
    assert_eq!(code, ReturnCode::StreamEnd);
    assert_eq!(inflate_reference(&one_shot, data.len()), inflate_reference(&streamed, data.len()));
}

#[test]
fn sync_flush_point_is_decodable_on_its_own() {
    let data = b"abc";
    let mut s = deflate_init(15, 8, false).unwrap();
    let mut output: Vec<u8> = Vec::new();
    let mut avail_out = 1024usize;
    let mut next_in = 0usize;
    let code = deflate(&mut s, data, &mut next_in, &mut output, &mut avail_out, Flush::SyncFlush);
    assert_eq!(code, ReturnCode::Progress);
    assert_eq!(next_in, data.len());
    assert!(at_flush_point(&s));
    let mut dec = StoredInflate::new();
    dec.feed(&output);
    assert!(matches!(dec.mode, InfMode::AtBlock));
    assert_eq!(dec.out, data);
}

#[test]
fn tiny_output_regions_force_resumable_emission() {
    let data: Vec<u8> = (0..4_000u32).map(|i| (i % 199) as u8).collect();
    let mut s = deflate_init(8, 1, true).unwrap();
    let mut output: Vec<u8> = Vec::new();
    let mut consumed = 0usize;
    let mut rounds = 0usize;
    while consumed < data.len() {
        let end = (consumed + 100).min(data.len());
        let chunk = &data[consumed..end];
        let mut next_in = 0usize;
        let mut avail_out = 300usize;
        let code = deflate(&mut s, chunk, &mut next_in, &mut output, &mut avail_out, Flush::NoFlush);
        assert!(code == ReturnCode::Progress, "unexpected code {:?}", code);
        consumed += next_in;
        rounds += 1;
        assert!(rounds < 10_000, "no progress");
    }
    loop {
        let mut next_in = 0usize;
        let mut avail_out = 300usize;
        let code = deflate(&mut s, &[], &mut next_in, &mut output, &mut avail_out, Flush::Finish);
        rounds += 1;
        assert!(rounds < 10_000, "no progress");
        match code {
            ReturnCode::StreamEnd => break,
            ReturnCode::Progress => continue,
            other => panic!("unexpected code {:?}", other),
        }
    }
    assert_eq!(inflate_reference(&output, data.len()), data);
}

#[test]
fn deep_refill_with_starved_output_still_completes() {
    // Sustained input against a tiny window and a starved output forces
    // repeated window slides behind the unflushed region.
    let data: Vec<u8> = (0..4_000u32).map(|i| (i % 199) as u8).collect();
    let mut s = deflate_init(8, 1, true).unwrap();
    let mut output: Vec<u8> = Vec::new();
    let mut next_in = 0usize;
    let mut rounds = 0usize;
    loop {
        let mut avail_out = 11usize;
        let code = deflate(&mut s, &data, &mut next_in, &mut output, &mut avail_out, Flush::Finish);
        rounds += 1;
        assert!(rounds < 10_000, "no progress");
        match code {
            ReturnCode::StreamEnd => break,
            ReturnCode::Progress | ReturnCode::BufError => continue,
            other => panic!("unexpected code {:?}", other),
        }
    }
    assert_eq!(next_in, data.len());
    assert_eq!(inflate_reference(&output, data.len()), data);
}

#[test]
fn window_invariant_holds_after_arbitrary_calls() {
    let data: Vec<u8> = (0..3_000u32).map(|i| (i % 17) as u8).collect();
    let mut s = deflate_init(8, 1, false).unwrap();
    let mut output: Vec<u8> = Vec::new();
    let mut next_in = 0usize;
    for _ in 0..200 {
        let mut avail_out = 7usize;
        let _ = deflate(&mut s, &data, &mut next_in, &mut output, &mut avail_out, Flush::NoFlush);
        assert!(s.state.block_start <= s.state.strstart);
        assert!(s.state.strstart <= s.state.window.len());
        assert!(s.state.window.len() == 2 * s.state.w_size);
    }
}

#[test]
fn reset_allows_a_fresh_stream() {
    let mut s = deflate_init(15, 8, true).unwrap();
    let mut output: Vec<u8> = Vec::new();
    let mut avail_out = 1024usize;
    let mut next_in = 0usize;
    assert_eq!(
        deflate(&mut s, b"first", &mut next_in, &mut output, &mut avail_out, Flush::Finish),
        ReturnCode::StreamEnd
    );
    deflate_reset(&mut s);
    let mut output2: Vec<u8> = Vec::new();
    let mut avail_out2 = 1024usize;
    let mut next_in2 = 0usize;
    assert_eq!(
        deflate(&mut s, b"second", &mut next_in2, &mut output2, &mut avail_out2, Flush::Finish),
        ReturnCode::StreamEnd
    );
    assert_eq!(inflate_reference(&output2, 6), b"second");
}

#[test]
fn invalid_configuration_is_rejected() {
    assert!(deflate_init(7, 8, true).is_err());
    assert!(deflate_init(16, 8, true).is_err());
    assert!(deflate_init(15, 0, true).is_err());
    assert!(deflate_init(15, 10, true).is_err());
}

#[test]
fn call_after_stream_end_is_a_stream_error() {
    let mut s = deflate_init(15, 8, true).unwrap();
    let mut output: Vec<u8> = Vec::new();
    let mut avail_out = 1024usize;
    let mut next_in = 0usize;
    assert_eq!(
        deflate(&mut s, b"x", &mut next_in, &mut output, &mut avail_out, Flush::Finish),
        ReturnCode::StreamEnd
    );
    let mut next_in2 = 0usize;
    assert_eq!(
        deflate(&mut s, b"y", &mut next_in2, &mut output, &mut avail_out, Flush::Finish),
        ReturnCode::StreamError
    );
}

#[test]
fn empty_output_region_is_a_buffer_error() {
    let mut s = deflate_init(15, 8, true).unwrap();
    let mut output: Vec<u8> = Vec::new();
    let mut avail_out = 0usize;
    let mut next_in = 0usize;
    assert_eq!(
        deflate(&mut s, b"x", &mut next_in, &mut output, &mut avail_out, Flush::NoFlush),
        ReturnCode::BufError
    );
}
