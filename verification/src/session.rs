//! The compression session state machine: repeated calls consume caller
//! input and produce output, the phase advancing from initialisation
//! through block emission to the trailer and the end of the stream.

use vstd::prelude::*;

verus! {

use crate::adler32::adler32_seq;
use crate::deflate::{
    flush_pending, left_of, lemma_skip_append, lemma_take_append, BlockState, DeflateStream,
    Flush, Phase, State,
};
use crate::format::{be32, zlib_header};
use crate::inflate::InfMode;
use crate::pending::BitWriter;
use crate::stored::{deflate_stored, stored_bound};

/// Status of one session call.
#[derive(Clone, Copy, PartialEq, Eq, Structural, Debug)]
pub enum ReturnCode {
    /// Progress was made; call again with more input or output space.
    Progress,
    /// The logical end of the stream has been written out.
    StreamEnd,
    /// The call is invalid in the session's current state.
    StreamError,
    /// No progress is possible: the output region is empty.
    BufError,
    /// A preset dictionary is required before decoding can continue.
    NeedDict,
    /// The input is not a valid stream.
    DataError,
    /// An allocation failed.
    MemError,
}

/// Creates a compression session.
///
/// `window_bits` (the base-two logarithm of the history size) must lie in
/// `8..=15` and `mem_level` in `1..=9`; any other configuration is
/// rejected. With `zlib_wrap` the stream carries the two-byte zlib header
/// and the Adler-32 trailer; without it a raw deflate stream is produced.
pub fn deflate_init(window_bits: u8, mem_level: u8, zlib_wrap: bool) -> (r: Result<
    DeflateStream,
    ReturnCode,
>)
    ensures
        r.is_ok() <==> (8 <= window_bits <= 15 && 1 <= mem_level <= 9),
        r.is_err() ==> r == Err::<DeflateStream, ReturnCode>(ReturnCode::StreamError),
        r.is_ok() ==> ({
            let s = r.unwrap();
            &&& s.wf()
            &&& s.phase == Phase::Init
            &&& s.state.window_bits == window_bits
            &&& s.state.wrap == if zlib_wrap {
                1u8
            } else {
                0u8
            }
            &&& s.in_hist@ == Seq::<u8>::empty()
            &&& s.out_hist@ == Seq::<u8>::empty()
            &&& s.state.bit_writer.pending.bytes().len() == 0
            &&& s.total_in == 0
            &&& s.total_out == 0
            &&& s.adler == 1
        }),
{
    if window_bits < 8 || window_bits > 15 || mem_level < 1 || mem_level > 9 {
        return Err(ReturnCode::StreamError);
    }
    let w_size: usize = 1usize << (window_bits as usize);
    assert(256 <= w_size <= 32768) by (bit_vector)
        requires
            w_size == 1usize << (window_bits as usize),
            8 <= window_bits <= 15,
    ;
    let mut window: Vec<u8> = Vec::new();
    let target = 2 * w_size;
    let mut i: usize = 0;
    while i < target
        invariant
            window@.len() == i,
            i <= target,
        decreases target - i,
    {
        window.push(0);
        i += 1;
    }
    let cap: usize = 1usize << ((mem_level as usize) + 8);
    assert(512 <= cap <= 0x20000) by (bit_vector)
        requires
            cap == 1usize << ((mem_level as usize) + 8),
            1 <= mem_level <= 9,
    ;
    let state = State {
        w_size,
        window_bits,
        window,
        strstart: 0,
        block_start: 0,
        insert: 0,
        high_water: 0,
        matches: 0,
        bit_writer: BitWriter::new(cap),
        wrap: if zlib_wrap {
            1
        } else {
            0
        },
    };
    let s = DeflateStream {
        state,
        phase: Phase::Init,
        total_in: 0,
        total_out: 0,
        adler: 1,
        in_hist: Ghost(Seq::<u8>::empty()),
        out_hist: Ghost(Seq::<u8>::empty()),
    };
    proof {
        assert(s.produced() =~= Seq::<u8>::empty());
        assert(s.raw_of() =~= Seq::<u8>::empty());
        assert(s.in_hist@.take(0) =~= Seq::<u8>::empty());
        assert(s.state.window@.subrange(0, 0) =~= Seq::<u8>::empty());
        assert(s.in_hist@.skip(0) =~= Seq::<u8>::empty());
    }
    Ok(s)
}

/// Returns the session to its initial phase, discarding history and
/// pending output but keeping the configuration.
pub fn deflate_reset(s: &mut DeflateStream)
    requires
        old(s).wf(),
    ensures
        final(s).wf(),
        final(s).phase == Phase::Init,
        final(s).state.wrap == old(s).state.wrap,
        final(s).state.window_bits == old(s).state.window_bits,
        final(s).state.w_size == old(s).state.w_size,
        final(s).state.bit_writer.pending.cap() == old(s).state.bit_writer.pending.cap(),
        final(s).in_hist@ == Seq::<u8>::empty(),
        final(s).out_hist@ == Seq::<u8>::empty(),
        final(s).total_in == 0,
        final(s).total_out == 0,
        final(s).adler == 1,
{
    let n = s.state.bit_writer.pending.len();
    s.state.bit_writer.pending.rewind(n);
    s.state.bit_writer.bit_buffer = 0;
    s.state.bit_writer.bits_valid = 0;
    s.state.strstart = 0;
    s.state.block_start = 0;
    s.state.insert = 0;
    s.state.high_water = 0;
    s.state.matches = 0;
    s.phase = Phase::Init;
    s.total_in = 0;
    s.total_out = 0;
    s.adler = 1;
    s.in_hist = Ghost(Seq::<u8>::empty());
    s.out_hist = Ghost(Seq::<u8>::empty());
    proof {
        assert(0u64 < (1u64 << 0u64)) by (bit_vector);
        assert(s.state.bit_writer.pending.bytes() =~= Seq::<u8>::empty());
        assert(s.produced() =~= Seq::<u8>::empty());
        assert(s.raw_of() =~= Seq::<u8>::empty());
        assert(s.in_hist@.take(0) =~= Seq::<u8>::empty());
        assert(s.state.window@.subrange(
            s.state.block_start as int,
            s.state.strstart as int,
        ) =~= Seq::<u8>::empty());
        assert(s.in_hist@.skip(0) =~= Seq::<u8>::empty());
    }
}

/// Bytes and bits of output still waiting in the session's staging area;
/// what a caller needs to know to size a final output region.
pub fn deflate_pending(s: &DeflateStream) -> (r: (usize, u8))
    requires
        s.wf(),
    ensures
        r.0 == s.state.bit_writer.pending.bytes().len(),
        r.1 == s.state.bit_writer.bits_valid,
{
    (s.state.bit_writer.pending.len(), s.state.bit_writer.bits_valid)
}

/// True when everything consumed so far has been handed to the caller:
/// nothing is held back in the window or the staging buffer, so the bytes
/// produced so far are decodable on their own to the full consumed input.
pub fn at_flush_point(s: &DeflateStream) -> (r: bool)
    requires
        s.wf(),
    ensures
        r == (left_of(&s.state) == 0 && s.state.bit_writer.pending.bytes().len() == 0),
{
    s.state.strstart == s.state.block_start && s.state.bit_writer.pending.len() == 0
}

/// One step of the session: consumes from `input` at `next_in`, appends to
/// `output` within `avail_out`, advancing the phase as the flush mode
/// demands.
///
/// On `StreamEnd` the session has written a complete stream: the produced
/// bytes, between container header and trailer, decode back to exactly the
/// consumed input. With `Finish` and output room of `stored_bound` of the
/// remaining data plus the pending bytes plus six, the stream is completed
/// in this single call.
#[verifier::spinoff_prover]
#[verifier::rlimit(100)]
pub fn deflate(
    s: &mut DeflateStream,
    input: &[u8],
    next_in: &mut usize,
    output: &mut Vec<u8>,
    avail_out: &mut usize,
    flush: Flush,
) -> (r: ReturnCode)
    requires
        old(s).wf(),
        *old(next_in) <= input@.len(),
        input@.len() <= 0xffff_ffff,
        *old(avail_out) <= 0xffff_ffff,
        old(output)@.len() + *old(avail_out) <= usize::MAX,
    ensures
        final(s).wf(),
        final(s).state.wrap == old(s).state.wrap,
        final(s).state.window_bits == old(s).state.window_bits,
        final(s).state.w_size == old(s).state.w_size,
        final(s).state.bit_writer.pending.cap() == old(s).state.bit_writer.pending.cap(),
        *old(next_in) <= *final(next_in) <= input@.len(),
        final(s).in_hist@ == old(s).in_hist@ + input@.subrange(
            *old(next_in) as int,
            *final(next_in) as int,
        ),
        *final(avail_out) <= *old(avail_out),
        final(output)@.len() + *final(avail_out) == old(output)@.len() + *old(avail_out),
        final(s).out_hist@ == old(s).out_hist@ + final(s).out_hist@.skip(
            old(s).out_hist@.len() as int,
        ),
        final(output)@ == old(output)@ + final(s).out_hist@.skip(old(s).out_hist@.len() as int),
        r == ReturnCode::StreamEnd ==> final(s).phase == Phase::Done && *final(next_in)
            == input@.len(),
        r == ReturnCode::StreamError ==> *final(next_in) == *old(next_in) && final(s).phase
            == old(s).phase,
        r == ReturnCode::BufError ==> *old(avail_out) == 0,
        (flush == Flush::Finish && old(s).phase != Phase::Done && (old(s).phase == Phase::Init
            || old(s).phase == Phase::Busy || *old(next_in) == input@.len()) && *old(
            avail_out,
        ) as int >= old(s).state.bit_writer.pending.bytes().len() + stored_bound(
            left_of(&old(s).state) + input@.len() - *old(next_in),
        ) + 6) ==> r == ReturnCode::StreamEnd,
        ((flush == Flush::SyncFlush || flush == Flush::FullFlush) && (old(s).phase
            == Phase::Init || old(s).phase == Phase::Busy) && *old(avail_out) as int >= old(
            s,
        ).state.bit_writer.pending.bytes().len() + stored_bound(
            left_of(&old(s).state) + input@.len() - *old(next_in),
        ) + 6) ==> r == ReturnCode::Progress && left_of(&final(s).state) == 0 && final(s).state.bit_writer.pending.bytes().len() == 0 && *final(next_in) == input@.len(),
{
    let ghost ample = flush == Flush::Finish && old(s).phase != Phase::Done && (old(s).phase
        == Phase::Init || old(s).phase == Phase::Busy || *old(next_in) == input@.len()) && *old(
        avail_out,
    ) as int >= old(s).state.bit_writer.pending.bytes().len() + stored_bound(
        left_of(&old(s).state) + input@.len() - *old(next_in),
    ) + 6;
    let ghost ample_sync = (flush == Flush::SyncFlush || flush == Flush::FullFlush) && (old(
        s,
    ).phase == Phase::Init || old(s).phase == Phase::Busy) && *old(avail_out) as int >= old(
        s,
    ).state.bit_writer.pending.bytes().len() + stored_bound(
        left_of(&old(s).state) + input@.len() - *old(next_in),
    ) + 6;
    proof {
        crate::stored::lemma_stored_bound_at_least(
            left_of(&old(s).state) + input@.len() - *old(next_in),
        );
        lemma_unchanged(*s, input@, *next_in as int);
    }

    if matches!(s.phase, Phase::Done) {
        return ReturnCode::StreamError;
    }
    if *avail_out == 0 {
        return ReturnCode::BufError;
    }
    if !matches!(s.phase, Phase::Init) && !matches!(s.phase, Phase::Busy) && *next_in
        < input.len() {
        // New input after the final block has begun is not meaningful.
        return ReturnCode::StreamError;
    }

    // Emit the container header before the first block.
    if matches!(s.phase, Phase::Init) {
        if s.state.wrap == 1 {
            let wb = s.state.window_bits;
            let cmf: u16 = 8 + ((wb as u16) - 8) * 16;
            let rest: u16 = (cmf * 256) % 31;
            let flg: u16 = if rest == 0 {
                0
            } else {
                31 - rest
            };
            let header = [cmf as u8, flg as u8];
            proof {
                s.state.bit_writer.pending.lemma_empty_out_pos();
            }
            s.state.bit_writer.pending.extend(&header);
            s.phase = Phase::Busy;
            proof {
                assert(header@ =~= zlib_header(s.state.window_bits as int));
                assert(s.produced() =~= header@);
                assert(s.produced().take(2) =~= header@);
                assert(s.raw_of() =~= Seq::<u8>::empty());
                assert(s.in_hist@.take(0) =~= Seq::<u8>::empty());
            }
        } else {
            s.phase = Phase::Busy;
            proof {
                assert(s.raw_of() =~= Seq::<u8>::empty());
                assert(s.in_hist@.take(0) =~= Seq::<u8>::empty());
            }
        }
    }

    // Hand over anything already staged.
    let ghost pre_flush = *s;
    let ghost pre_avail = *avail_out;
    flush_pending(s, output, avail_out);
    proof {
        let staged = pre_flush.state.bit_writer.pending.bytes();
        let flw = staged.take(vstd::math::min(staged.len() as int, pre_avail as int));
        lemma_decompose(pre_flush.out_hist@, s.out_hist@, flw);
        lemma_unchanged(pre_flush, input@, *next_in as int);
        lemma_glue(pre_flush, *s, *old(s), old(output)@, output@, old(output)@, input@, *next_in as int, *next_in as int, *next_in as int);
    }
    if s.state.bit_writer.pending.len() > 0 {
        // The output region filled up before the staged bytes ran out.
        proof {
            assert(!ample);
            assert(!ample_sync);
        }
        return ReturnCode::Progress;
    }
    proof {
        s.state.bit_writer.pending.lemma_empty_out_pos();
    }

    if matches!(s.phase, Phase::Busy) {
        let ghost pre_block = *s;
        let ghost pre_block_output = output@;
        let ghost pre_block_ni = *next_in as int;
        let res = deflate_stored(s, input, next_in, output, avail_out, flush);
        proof {
            lemma_glue(pre_block, *s, *old(s), pre_block_output, output@, old(output)@, input@, pre_block_ni, *next_in as int, *old(next_in) as int);
        }
        match res {
            BlockState::NeedMore | BlockState::BlockDone => {
                proof {
                    assert(!ample);
                    if ample_sync {
                        assert(res == BlockState::BlockDone);
                    }
                }
                return ReturnCode::Progress;
            },
            BlockState::FinishStarted => {
                s.phase = Phase::Finishing;
                proof {
                    assert(!ample);
                    assert(!ample_sync);
                }
                return ReturnCode::Progress;
            },
            BlockState::FinishDone => {
                s.phase = Phase::Finishing;
            },
        }
    }

    // The final block is out; attach the trailer and close the stream.
    if matches!(s.phase, Phase::Finishing) {
        if s.state.wrap == 1 {
            let a = s.adler;
            let trailer = [
                ((a >> 24) & 0xff) as u8,
                ((a >> 16) & 0xff) as u8,
                ((a >> 8) & 0xff) as u8,
                (a & 0xff) as u8,
            ];
            let ghost pre_trailer = *s;
            proof {
                s.state.bit_writer.pending.lemma_empty_out_pos();
            }
            s.state.bit_writer.pending.extend(&trailer);
            s.phase = Phase::Trailer;
            proof {
                assert(trailer@ =~= be32(a));
                assert(s.produced() =~= pre_trailer.produced() + be32(a));
                lemma_take_append(pre_trailer.produced(), be32(a), 2);
                lemma_take_append(pre_trailer.produced(), be32(a), pre_trailer.produced().len() as int);
                assert(s.produced().take(s.produced().len() - 4) == pre_trailer.produced());
                assert(s.produced().skip(s.produced().len() - 4) =~= be32(a));
                assert(s.raw_of() =~= pre_trailer.raw_of());
            }
        } else {
            s.phase = Phase::Done;
            return ReturnCode::StreamEnd;
        }
    }

    // Flush the trailer.
    let ghost pre_fl2 = *s;
    let ghost pre_fl2_output = output@;
    let ghost pre_fl2_ni = *next_in as int;
    let ghost pre_fl2_avail = *avail_out;
    flush_pending(s, output, avail_out);
    proof {
        let staged = pre_fl2.state.bit_writer.pending.bytes();
        let flw = staged.take(vstd::math::min(staged.len() as int, pre_fl2_avail as int));
        lemma_decompose(pre_fl2.out_hist@, s.out_hist@, flw);
        lemma_glue(pre_fl2, *s, *old(s), pre_fl2_output, output@, old(output)@, input@, pre_fl2_ni, *next_in as int, *old(next_in) as int);
        assert(s.produced().take(2) == pre_fl2.produced().take(2));
        assert(s.produced().skip(s.produced().len() - 4) == pre_fl2.produced().skip(
            pre_fl2.produced().len() - 4,
        ));
        assert(s.raw_of() == pre_fl2.raw_of());
    }
    if s.state.bit_writer.pending.len() == 0 {
        s.phase = Phase::Done;
        return ReturnCode::StreamEnd;
    }
    proof {
        assert(!ample);
        assert(!ample_sync);
    }
    ReturnCode::Progress
}

/// Splits a grown history into the old part and the growth.
proof fn lemma_decompose(pre_out: Seq<u8>, post_out: Seq<u8>, x: Seq<u8>)
    requires
        post_out == pre_out + x,
    ensures
        post_out == pre_out + post_out.skip(pre_out.len() as int),
        post_out.skip(pre_out.len() as int) == x,
{
    lemma_skip_append(pre_out, x, pre_out.len() as int);
    assert(pre_out.skip(pre_out.len() as int) =~= Seq::<u8>::empty());
    assert(post_out.skip(pre_out.len() as int) =~= x);
    assert(post_out =~= pre_out + post_out.skip(pre_out.len() as int));
}

/// The extension relations hold reflexively.
proof fn lemma_unchanged(s: DeflateStream, inp: Seq<u8>, ni: int)
    requires
        0 <= ni <= inp.len(),
    ensures
        s.in_hist@ == s.in_hist@ + inp.subrange(ni, ni),
        s.out_hist@ == s.out_hist@ + s.out_hist@.skip(s.out_hist@.len() as int),
        s.out_hist@.skip(s.out_hist@.len() as int) == Seq::<u8>::empty(),
{
    assert(inp.subrange(ni, ni) =~= Seq::<u8>::empty());
    assert(s.in_hist@ =~= s.in_hist@ + inp.subrange(ni, ni));
    assert(s.out_hist@.skip(s.out_hist@.len() as int) =~= Seq::<u8>::empty());
    assert(s.out_hist@ =~= s.out_hist@ + s.out_hist@.skip(s.out_hist@.len() as int));
}

/// Composes the extension relations of two successive steps against the
/// call entry.
proof fn lemma_glue(
    mid: DeflateStream,
    post: DeflateStream,
    pre: DeflateStream,
    mid_output: Seq<u8>,
    post_output: Seq<u8>,
    pre_output: Seq<u8>,
    inp: Seq<u8>,
    mid_ni: int,
    post_ni: int,
    pre_ni: int,
    )
    requires
        0 <= pre_ni <= mid_ni <= post_ni <= inp.len(),
        mid.in_hist@ == pre.in_hist@ + inp.subrange(pre_ni, mid_ni),
        post.in_hist@ == mid.in_hist@ + inp.subrange(mid_ni, post_ni),
        mid.out_hist@ == pre.out_hist@ + mid.out_hist@.skip(pre.out_hist@.len() as int),
        post.out_hist@ == mid.out_hist@ + post.out_hist@.skip(mid.out_hist@.len() as int),
        mid_output == pre_output + mid.out_hist@.skip(pre.out_hist@.len() as int),
        post_output == mid_output + post.out_hist@.skip(mid.out_hist@.len() as int),
    ensures
        post.in_hist@ == pre.in_hist@ + inp.subrange(pre_ni, post_ni),
        post.out_hist@ == pre.out_hist@ + post.out_hist@.skip(pre.out_hist@.len() as int),
        post_output == pre_output + post.out_hist@.skip(pre.out_hist@.len() as int),
{
    assert(inp.subrange(pre_ni, post_ni) =~= inp.subrange(pre_ni, mid_ni) + inp.subrange(
        mid_ni,
        post_ni,
    ));
    assert(post.in_hist@ =~= pre.in_hist@ + inp.subrange(pre_ni, post_ni));
    let g1 = mid.out_hist@.skip(pre.out_hist@.len() as int);
    let g2 = post.out_hist@.skip(mid.out_hist@.len() as int);
    lemma_skip_append(mid.out_hist@, g2, pre.out_hist@.len() as int);
    assert(post.out_hist@.skip(pre.out_hist@.len() as int) =~= g1 + g2);
    assert(post.out_hist@ =~= pre.out_hist@ + post.out_hist@.skip(pre.out_hist@.len() as int));
    assert(post_output =~= pre_output + post.out_hist@.skip(pre.out_hist@.len() as int));
}

} // verus!

verus! {

use crate::inflate::inf_fold;

/// Computes `stored_bound` of `n`: output room that always suffices for
/// `n` bytes of data as stored blocks in one call.
pub fn stored_bound_exec(n: usize) -> (r: usize)
    requires
        n <= 0xfff_ffff,
    ensures
        r as int == stored_bound(n as int),
        r <= 0x1100_0000,
{
    let mut m: usize = n;
    let mut acc: usize = 0;
    while m > 65535
        invariant
            stored_bound(n as int) == acc + stored_bound(m as int),
            acc + m <= n + 10 + ((n as int - m as int) / 65535) * 5,
            m <= n <= 0xfff_ffff,
            acc <= 0x1001_0000,
        decreases m,
    {
        proof {
            assert(stored_bound(m as int) == 65540 + stored_bound(m as int - 65535));
            assert(((n as int - m as int) + 65535) / 65535 == (n as int - m as int) / 65535 + 1)
                by (nonlinear_arith)
                requires
                    n >= m,
            ;
            assert((n as int - m as int) / 65535 >= 0 && (n as int - m as int) / 65535
                <= 0xfff_ffffint / 65535) by (nonlinear_arith)
                requires
                    0 <= n as int - m as int <= 0xfff_ffffint,
            ;
        }
        acc = acc + 65540;
        m = m - 65535;
        proof {
            assert(acc + m <= n + 10 + ((n as int - m as int) / 65535) * 5) by (nonlinear_arith)
                requires
                    acc as int + m as int - 5 <= n + 10 + ((n as int - m as int) / 65535 - 1)
                        * 5,
            ;
        }
    }
    acc + m + 10
}

/// Upper bound on the size of a stream produced from `n` input bytes:
/// the block framing bound plus container header and trailer.
pub fn deflate_stored_bound(n: usize) -> (r: usize)
    requires
        n <= 0xfff_ffff,
    ensures
        r as int == stored_bound(n as int) + 6,
        r <= 0x1100_0006,
{
    stored_bound_exec(n) + 6
}

/// Compresses `input` in one call as a stream of stored blocks.
///
/// The result is a complete stream: with `zlib_wrap` it is the two-byte
/// zlib header, the stored blocks, and the big-endian Adler-32 of the
/// input; without, the stored blocks alone. In either form the stored
/// blocks decode back to exactly `input`.
pub fn compress_stored(input: &[u8], window_bits: u8, mem_level: u8, zlib_wrap: bool) -> (r:
    Result<Vec<u8>, ReturnCode>)
    requires
        input@.len() <= 0xfff_ffff,
    ensures
        r.is_ok() <==> (8 <= window_bits <= 15 && 1 <= mem_level <= 9),
        r.is_ok() ==> ({
            let out = r.unwrap()@;
            if zlib_wrap {
                &&& out.len() >= 6
                &&& out.take(2) == zlib_header(window_bits as int)
                &&& out.skip(out.len() - 4) == be32(adler32_seq(1, input@))
                &&& inf_fold(
                    InfMode::AtBlock,
                    Seq::<u8>::empty(),
                    out.subrange(2, out.len() - 4),
                ) == (InfMode::Done, input@)
            } else {
                inf_fold(InfMode::AtBlock, Seq::<u8>::empty(), out) == (InfMode::Done, input@)
            }
        }),
{
    let s_init = deflate_init(window_bits, mem_level, zlib_wrap);
    let mut s = match s_init {
        Ok(s) => s,
        Err(code) => {
            return Err(code);
        },
    };
    let mut output: Vec<u8> = Vec::new();
    let mut next_in: usize = 0;
    let mut avail_out: usize = deflate_stored_bound(input.len());
    proof {
        assert(output@.len() + avail_out <= usize::MAX);
        assert(input@.subrange(0, input@.len() as int) =~= input@);
    }
    let code = deflate(&mut s, input, &mut next_in, &mut output, &mut avail_out, Flush::Finish);
    assert(code == ReturnCode::StreamEnd);
    proof {
        // Everything produced has been flushed into the collected output.
        assert(s.out_hist@.skip(0) =~= s.out_hist@);
        assert(output@ =~= s.out_hist@);
        assert(s.produced() =~= s.out_hist@);
        assert(s.in_hist@ =~= input@);
        if zlib_wrap {
            assert(s.raw_of() == output@.subrange(2, output@.len() - 4));
        } else {
            assert(s.raw_of() =~= output@);
        }
    }
    Ok(output)
}

} // verus!

verus! {

/// Round trip of a completed stream: once the session has ended, the raw
/// deflate bytes it produced decode back to exactly the input it consumed,
/// whatever sequence of calls and fragment sizes led there; under the zlib
/// container they sit between the header and the checksum trailer of that
/// same input.
pub proof fn lemma_stream_end_replays_input(s: &DeflateStream)
    requires
        s.wf(),
        s.phase == Phase::Done,
    ensures
        inf_fold(InfMode::AtBlock, Seq::<u8>::empty(), s.raw_of()) == (
            InfMode::Done,
            s.in_hist@,
        ),
        s.state.wrap == 1 ==> s.produced().take(2) == zlib_header(s.state.window_bits as int)
            && s.produced().skip(s.produced().len() - 4) == be32(adler32_seq(1, s.in_hist@)),
{
}

/// Fragmentation does not matter: two completed sessions that consumed the
/// same input bytes, in however many calls and fragments, produced streams
/// whose stored blocks decode to the same data.
pub proof fn lemma_fragmentation_equivalence(s1: &DeflateStream, s2: &DeflateStream)
    requires
        s1.wf(),
        s2.wf(),
        s1.phase == Phase::Done,
        s2.phase == Phase::Done,
        s1.in_hist@ == s2.in_hist@,
    ensures
        inf_fold(InfMode::AtBlock, Seq::<u8>::empty(), s1.raw_of()) == inf_fold(
            InfMode::AtBlock,
            Seq::<u8>::empty(),
            s2.raw_of(),
        ),
{
}

/// A reached flush point is decodable on its own: while the session is
/// running with nothing held back in the window, the bytes produced so far
/// decode to exactly the bytes consumed so far, ending at a block boundary.
pub proof fn lemma_flush_point_replays_input(s: &DeflateStream)
    requires
        s.wf(),
        s.phase == Phase::Busy,
        left_of(&s.state) == 0,
    ensures
        inf_fold(InfMode::AtBlock, Seq::<u8>::empty(), s.raw_of()) == (
            InfMode::AtBlock,
            s.in_hist@,
        ),
{
    assert(s.in_hist@.take(s.in_hist@.len() as int) =~= s.in_hist@);
}

/// The window invariant: in every well-formed session state the unflushed
/// region is ordered inside the window, `0 <= block_start <= strstart <=
/// window_size`, and sliding never drops bytes of it: the region always
/// holds exactly the most recently consumed input bytes.
pub proof fn lemma_window_invariant(s: &DeflateStream)
    requires
        s.wf(),
    ensures
        0 <= s.state.block_start <= s.state.strstart <= s.state.window@.len(),
        s.state.window@.subrange(s.state.block_start as int, s.state.strstart as int)
            == s.in_hist@.skip(s.in_hist@.len() - left_of(&s.state)),
{
}

} // verus!
