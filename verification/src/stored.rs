//! The stored-block encoding strategy: emit input verbatim in stored-block
//! framing, copying straight to the caller's output when it has room for a
//! worthwhile block, and falling back to buffering a block from the window
//! into the pending buffer otherwise.

use vstd::prelude::*;

verus! {

use crate::adler32::lemma_adler32_seq_concat;
use crate::deflate::{
    copy_into_vec, emit_window_range, flush_pending, left_of, lemma_skip_append,
    lemma_skip_skip, lemma_subrange_of_prefix, lemma_subrange_split, lemma_take_append,
    lemma_take_extend, lemma_take_skip_all, lemma_tail_prefix, read_buf_direct, read_buf_window,
    vec_copy_down, window_range_to_vec, zng_tr_stored_block, BlockState, DeflateStream,
    Flush, Phase,
};
use crate::format::{le16, stored_frame, stored_header_byte, MAX_STORED};
use crate::inflate::{lemma_feed_frame, lemma_inf_fold_append, InfMode};

/// Output room that always suffices to emit `n` bytes of input as stored
/// blocks in one call, headers included.
pub open spec fn stored_bound(n: int) -> int
    decreases n,
{
    if n <= 65535 {
        n + 10
    } else {
        65540 + stored_bound(n - 65535)
    }
}

/// The output bound exceeds the data length by at least ten bytes.
pub proof fn lemma_stored_bound_at_least(n: int)
    requires
        n >= 0,
    ensures
        stored_bound(n) >= n + 10,
        stored_bound(n) >= 10,
    decreases n,
{
    if n > 65535 {
        lemma_stored_bound_at_least(n - 65535);
    }
}

/// A region equality between two buffers shifts to sub-regions.
proof fn lemma_subrange_shift(w1: Seq<u8>, w2: Seq<u8>, off: int, len: int, a: int, b: int)
    requires
        0 <= off,
        0 <= len,
        off + len <= w1.len(),
        len <= w2.len(),
        w2.subrange(0, len) == w1.subrange(off, off + len),
        0 <= a <= b <= len,
    ensures
        w2.subrange(a, b) == w1.subrange(off + a, off + b),
{
    assert(w2.subrange(a, b) =~= w2.subrange(0, len).subrange(a, b));
    assert(w1.subrange(off + a, off + b) =~= w1.subrange(off, off + len).subrange(a, b));
}

/// Output room the direct-copy path needs to keep going with `n` bytes of
/// data left: a full block bound while data remains, else just a header's
/// worth (two headers' worth when a final empty block is still owed).
pub open spec fn direct_need(finish: bool, n: int) -> int {
    if n > 0 {
        stored_bound(n)
    } else if finish {
        10
    } else {
        5
    }
}

/// The direct-path need never exceeds the full block bound, and always
/// covers one block header.
pub proof fn lemma_direct_need_le_bound(finish: bool, n: int)
    requires
        n >= 0,
    ensures
        direct_need(finish, n) <= stored_bound(n),
        direct_need(finish, n) >= 5,
{
    lemma_stored_bound_at_least(n);
}

/// Appending bytes to the produced stream appends them to its raw deflate
/// part, whose start is a fixed header offset.
proof fn lemma_raw_grows(pre: DeflateStream, post: DeflateStream, chunk: Seq<u8>)
    requires
        post.produced() == pre.produced() + chunk,
        post.phase == pre.phase,
        post.state.wrap == pre.state.wrap,
        pre.phase == Phase::Busy,
        pre.state.wrap == 1 ==> pre.produced().len() >= 2,
    ensures
        post.raw_of() == pre.raw_of() + chunk,
        post.produced().len() >= pre.produced().len(),
        pre.produced().len() >= 2 ==> post.produced().take(2) == pre.produced().take(2),
{
    let h = pre.header_len();
    assert(post.header_len() == h && post.trailer_len() == 0 && pre.trailer_len() == 0);
    assert((pre.produced() + chunk).subrange(h, (pre.produced() + chunk).len() as int)
        =~= pre.produced().subrange(h, pre.produced().len() as int) + chunk);
    if pre.produced().len() >= 2 {
        assert((pre.produced() + chunk).take(2) =~= pre.produced().take(2));
    }
}

/// One direct-copy step: write one stored block of `len` bytes straight to
/// the caller's output, taking the payload first from the unflushed window
/// region and then from the input.
#[verifier::spinoff_prover]
#[verifier::rlimit(100)]
fn stored_emit_direct(
    s: &mut DeflateStream,
    input: &[u8],
    next_in: &mut usize,
    output: &mut Vec<u8>,
    avail_out: &mut usize,
    len: usize,
    last: bool,
)
    requires
        old(s).busy_ok(),
        old(s).decode_ok(),
        old(s).state.bit_writer.pending.bytes().len() == 0,
        old(s).state.bit_writer.pending.out_pos() == 0,
        *old(next_in) <= input@.len(),
        len as int <= left_of(&old(s).state) + (input@.len() - *old(next_in)),
        len <= MAX_STORED,
        *old(avail_out) >= 5 + len,
        last ==> len as int == left_of(&old(s).state) + (input@.len() - *old(next_in)),
        old(output)@.len() + *old(avail_out) <= usize::MAX,
    ensures
        final(s).busy_ok(),
        final(s).state.bit_writer.pending.bytes().len() == 0,
        final(s).state.bit_writer.pending.out_pos() == 0,
        final(s).state.bit_writer.pending.cap() == old(s).state.bit_writer.pending.cap(),
        final(s).state.window == old(s).state.window,
        final(s).state.strstart == old(s).state.strstart,
        final(s).state.w_size == old(s).state.w_size,
        final(s).state.window_bits == old(s).state.window_bits,
        final(s).state.wrap == old(s).state.wrap,
        final(s).phase == old(s).phase,
        ({
            let l2 = vstd::math::min(left_of(&old(s).state), len as int);
            &&& final(s).state.block_start == old(s).state.block_start + l2
            &&& *final(next_in) == *old(next_in) + (len - l2)
            &&& final(s).in_hist@ == old(s).in_hist@ + input@.subrange(
                *old(next_in) as int,
                *old(next_in) + (len - l2),
            )
        }),
        *final(avail_out) == *old(avail_out) - 5 - len,
        final(output)@.len() + *final(avail_out) == old(output)@.len() + *old(avail_out),
        final(s).out_hist@.take(old(s).out_hist@.len() as int) == old(s).out_hist@,
        final(s).out_hist@ == old(s).out_hist@ + final(s).out_hist@.skip(
            old(s).out_hist@.len() as int,
        ),
        final(output)@ == old(output)@ + final(s).out_hist@.skip(old(s).out_hist@.len() as int),
        *final(next_in) > *old(next_in) ==> left_of(&final(s).state) == 0,
        !last ==> final(s).decode_ok(),
        last ==> final(s).dec_of() == (InfMode::Done, final(s).in_hist@) && left_of(
            &final(s).state,
        ) == 0 && *final(next_in) == input@.len(),
{
    let ghost pre_emit = *s;
    let ghost out_before = s.dec_of().1;

    // Stage the block header with a placeholder length, then patch in the
    // real length and its complement.
    let empty_payload: [u8; 0] = [];
    proof {
        assert(empty_payload@ =~= Seq::<u8>::empty());
    }
    zng_tr_stored_block(&mut s.state.bit_writer, &empty_payload, last);
    s.state.bit_writer.pending.rewind(4);
    let len16 = len as u16;
    let len_bytes = [(len16 & 0xff) as u8, (len16 >> 8) as u8];
    let nlen16 = !len16;
    let nlen_bytes = [(nlen16 & 0xff) as u8, (nlen16 >> 8) as u8];
    s.state.bit_writer.pending.extend(&len_bytes);
    s.state.bit_writer.pending.extend(&nlen_bytes);
    let ghost head = seq![stored_header_byte(last)] + le16(len16) + le16(!len16);
    proof {
        assert(stored_frame(last, Seq::<u8>::empty()).take(1) =~= seq![
            stored_header_byte(last),
        ]);
        assert(len_bytes@ =~= le16(len16));
        assert(nlen_bytes@ =~= le16(!len16));
        assert(s.state.bit_writer.pending.bytes() =~= head);
    }

    // The header goes out at once; there is room for it.
    flush_pending(s, output, avail_out);
    assert(s.state.bit_writer.pending.bytes().len() == 0);
    proof {
        assert(s.produced() =~= pre_emit.produced() + head);
    }

    // First the window bytes not yet emitted, then input copied direct.
    let left = s.state.strstart - s.state.block_start;
    let left2 = if left < len {
        left
    } else {
        len
    };
    let ghost wpart = s.state.window@.subrange(
        s.state.block_start as int,
        s.state.block_start + left2,
    );
    if left2 > 0 {
        let bs = s.state.block_start;
        emit_window_range(s, output, avail_out, bs, left2);
        s.state.block_start = s.state.block_start + left2;
    }
    let len_rest = len - left2;
    let ghost ipart = input@.subrange(*next_in as int, *next_in + len_rest);
    if len_rest > 0 {
        read_buf_direct(s, input, next_in, output, avail_out, len_rest);
    }

    proof {
        let payload = wpart + ipart;
        let frame = stored_frame(last, payload);
        assert(payload.len() == len);
        assert(s.produced() =~= pre_emit.produced() + frame) by {
            assert(frame =~= head + wpart + ipart);
        };
        lemma_raw_grows(pre_emit, *s, frame);
        lemma_inf_fold_append(InfMode::AtBlock, Seq::<u8>::empty(), pre_emit.raw_of(), frame);
        lemma_feed_frame(last, out_before, payload);
        // The emitted payload extends the decoded prefix of the input
        // history exactly: first the old window tail, then fresh input.
        let ih = pre_emit.in_hist@;
        let n_pre = ih.len() as int;
        let l_pre = left_of(&pre_emit.state);
        let tail = ih.skip(n_pre - l_pre);
        lemma_tail_prefix(
            pre_emit.state.window@,
            pre_emit.state.block_start as int,
            pre_emit.state.strstart as int,
            tail,
            left2 as int,
        );
        assert(wpart == tail.take(left2 as int));
        assert(out_before == ih.take(n_pre - l_pre));
        lemma_take_extend(ih, n_pre - l_pre, left2 as int);
        assert(out_before + wpart == ih.take(n_pre - l_pre + left2));
        assert(out_before + payload =~= (out_before + wpart) + ipart);
        if len_rest > 0 {
            assert(left2 == left && l_pre == left2);
            lemma_take_skip_all(ih);
            assert(out_before + wpart == ih);
            assert(s.in_hist@ == ih + ipart);
            assert(out_before + payload == s.in_hist@);
            lemma_adler32_seq_concat(1, ih, ipart);
            // The whole window tail was emitted.
            assert(left_of(&s.state) == 0);
            lemma_take_skip_all(s.in_hist@);
            assert(s.state.window@.subrange(
                s.state.block_start as int,
                s.state.strstart as int,
            ) =~= Seq::<u8>::empty());
        } else {
            assert(ipart =~= Seq::<u8>::empty());
            assert(payload =~= wpart);
            assert(out_before + payload =~= out_before + wpart);
            assert(s.in_hist@ == ih);
            // The rest of the old tail remains in the window.
            lemma_skip_skip(ih, n_pre - l_pre, left2 as int);
            assert(s.state.window@.subrange(
                s.state.block_start as int,
                s.state.strstart as int,
            ) == ih.skip(n_pre - l_pre + left2));
        }
        if last {
            lemma_take_skip_all(s.in_hist@);
        }
        // The output and history extensions line up.
        let oh_pre = pre_emit.out_hist@;
        assert(s.out_hist@ =~= oh_pre + frame);
        lemma_take_append(oh_pre, frame, oh_pre.len() as int);
        lemma_take_skip_all(oh_pre);
        lemma_skip_append(oh_pre, frame, oh_pre.len() as int);
        assert(s.out_hist@.skip(oh_pre.len() as int) =~= frame);
        assert(output@ =~= old(output)@ + frame);
        if !last {
            assert(s.dec_of() == (
                InfMode::AtBlock,
                s.in_hist@.take(s.in_hist@.len() - left_of(&s.state)),
            ));
        } else {
            assert(s.dec_of() == (InfMode::Done, s.in_hist@));
        }
    }
}

/// After input was copied directly, refresh the window so that it holds
/// the most recent window-full of consumed bytes.
#[verifier::rlimit(100)]
fn stored_reconcile(s: &mut DeflateStream, input: &[u8], next_in: usize, used: usize)
    requires
        old(s).busy_ok(),
        left_of(&old(s).state) == 0,
        1 <= used,
        used <= next_in <= input@.len(),
    ensures
        final(s).busy_ok(),
        left_of(&final(s).state) == 0,
        final(s).state.bit_writer == old(s).state.bit_writer,
        final(s).state.wrap == old(s).state.wrap,
        final(s).state.window_bits == old(s).state.window_bits,
        final(s).state.w_size == old(s).state.w_size,
        final(s).phase == old(s).phase,
        final(s).adler == old(s).adler,
        final(s).total_in == old(s).total_in,
        final(s).total_out == old(s).total_out,
        final(s).in_hist == old(s).in_hist,
        final(s).out_hist == old(s).out_hist,
        final(s).produced() == old(s).produced(),
        final(s).raw_of() == old(s).raw_of(),
{
    if used >= s.state.w_size {
        // Supplant the previous history entirely and clear the hash.
        s.state.matches = 2;
        let w_size = s.state.w_size;
        copy_into_vec(&mut s.state.window, 0, input, next_in - w_size, w_size);
        s.state.strstart = w_size;
        s.state.insert = s.state.strstart;
    } else {
        if s.state.window.len() - s.state.strstart <= used {
            // Slide the window down one window length.
            let w_size = s.state.w_size;
            s.state.strstart = s.state.strstart - w_size;
            let ss = s.state.strstart;
            vec_copy_down(&mut s.state.window, w_size, ss);
            if s.state.matches < 2 {
                s.state.matches = s.state.matches + 1;
            }
            if s.state.insert > s.state.strstart {
                s.state.insert = s.state.strstart;
            }
        }
        let ss = s.state.strstart;
        copy_into_vec(&mut s.state.window, ss, input, next_in - used, used);
        s.state.strstart = s.state.strstart + used;
        let gain = if used < s.state.w_size - s.state.insert {
            used
        } else {
            s.state.w_size - s.state.insert
        };
        s.state.insert = s.state.insert + gain;
    }
    s.state.block_start = s.state.strstart;
    proof {
        assert(s.state.window@.subrange(s.state.block_start as int, s.state.strstart as int)
            =~= s.in_hist@.skip(s.in_hist@.len() as int));
        assert(s.produced() =~= old(s).produced());
    }
}

/// Write one stored block of `len` window bytes into the pending buffer.
#[verifier::rlimit(100)]
fn stored_emit_buffered(s: &mut DeflateStream, len: usize, last: bool)
    requires
        old(s).busy_ok(),
        old(s).decode_ok(),
        old(s).state.bit_writer.pending.bytes().len() == 0,
        old(s).state.bit_writer.pending.out_pos() == 0,
        len as int <= left_of(&old(s).state),
        len <= MAX_STORED,
        5 + len <= old(s).state.bit_writer.pending.cap(),
        last ==> len as int == left_of(&old(s).state),
    ensures
        final(s).busy_ok(),
        final(s).state.bit_writer.pending.cap() == old(s).state.bit_writer.pending.cap(),
        final(s).state.window == old(s).state.window,
        final(s).state.strstart == old(s).state.strstart,
        final(s).state.w_size == old(s).state.w_size,
        final(s).state.window_bits == old(s).state.window_bits,
        final(s).state.wrap == old(s).state.wrap,
        final(s).state.block_start == old(s).state.block_start + len,
        final(s).phase == old(s).phase,
        final(s).adler == old(s).adler,
        final(s).in_hist == old(s).in_hist,
        final(s).out_hist == old(s).out_hist,
        final(s).total_in == old(s).total_in,
        final(s).total_out == old(s).total_out,
        !last ==> final(s).decode_ok(),
        last ==> final(s).dec_of() == (InfMode::Done, final(s).in_hist@) && left_of(
            &final(s).state,
        ) == 0,
{
    let ghost pre_emit = *s;
    let ghost out_before = s.dec_of().1;
    let bs = s.state.block_start;
    let tmp = window_range_to_vec(&s.state.window, bs, len);
    zng_tr_stored_block(&mut s.state.bit_writer, tmp.as_slice(), last);
    s.state.block_start = s.state.block_start + len;
    proof {
        assert(s.produced() =~= pre_emit.produced() + stored_frame(last, tmp@));
        lemma_raw_grows(pre_emit, *s, stored_frame(last, tmp@));
        lemma_inf_fold_append(
            InfMode::AtBlock,
            Seq::<u8>::empty(),
            pre_emit.raw_of(),
            stored_frame(last, tmp@),
        );
        lemma_feed_frame(last, out_before, tmp@);
        let ih = pre_emit.in_hist@;
        let n_pre = ih.len() as int;
        let l_pre = left_of(&pre_emit.state);
        let tail = ih.skip(n_pre - l_pre);
        lemma_tail_prefix(
            pre_emit.state.window@,
            pre_emit.state.block_start as int,
            pre_emit.state.strstart as int,
            tail,
            len as int,
        );
        assert(tmp@ == tail.take(len as int));
        assert(out_before == ih.take(n_pre - l_pre));
        lemma_take_extend(ih, n_pre - l_pre, len as int);
        assert(out_before + tmp@ == ih.take(n_pre - l_pre + len));
        // The rest of the old tail remains in the window.
        lemma_skip_skip(ih, n_pre - l_pre, len as int);
        assert(s.state.window@.subrange(s.state.block_start as int, s.state.strstart as int)
            == ih.skip(n_pre - l_pre + len));
        if last {
            lemma_take_skip_all(s.in_hist@);
            assert(s.dec_of() == (InfMode::Done, s.in_hist@));
        } else {
            assert(s.dec_of() == (
                InfMode::AtBlock,
                s.in_hist@.take(s.in_hist@.len() - left_of(&s.state)),
            ));
        }
    }
}

/// Outcome of one attempt to copy a block directly to the output.
#[derive(Clone, Copy, PartialEq, Eq, Structural)]
enum DirectStep {
    /// No worthwhile direct block is possible; leave the direct-copy path.
    Stop,
    /// A block went out and more data remains.
    Again,
    /// The final block went out.
    Final,
}

/// Attempt one direct-copy block: check the room and size rules, and emit
/// a block straight to the output when they allow one.
#[verifier::spinoff_prover]
#[verifier::rlimit(100)]
fn stored_direct_step(
    s: &mut DeflateStream,
    input: &[u8],
    next_in: &mut usize,
    output: &mut Vec<u8>,
    avail_out: &mut usize,
    flush: Flush,
    min_block: usize,
    Ghost(amp): Ghost<bool>,
) -> (st: DirectStep)
    requires
        old(s).busy_ok(),
        old(s).decode_ok(),
        old(s).state.bit_writer.pending.bytes().len() == 0,
        old(s).state.bit_writer.pending.out_pos() == 0,
        min_block as int == vstd::math::min(
            old(s).state.bit_writer.pending.cap() - 5,
            old(s).state.w_size as int,
        ),
        min_block >= 256,
        *old(next_in) <= input@.len(),
        input@.len() <= 0xffff_ffff,
        *old(avail_out) <= 0xffff_ffff,
        old(output)@.len() + *old(avail_out) <= usize::MAX,
        amp ==> (flush == Flush::Finish || flush == Flush::SyncFlush || flush
            == Flush::FullFlush) && *old(avail_out) as int >= direct_need(
            flush == Flush::Finish,
            left_of(&old(s).state) + input@.len() - *old(next_in),
        ),
    ensures
        final(s).busy_ok(),
        final(s).state.wrap == old(s).state.wrap,
        final(s).state.window_bits == old(s).state.window_bits,
        final(s).state.w_size == old(s).state.w_size,
        final(s).state.bit_writer.pending.cap() == old(s).state.bit_writer.pending.cap(),
        final(s).state.bit_writer.pending.bytes().len() == 0,
        final(s).state.bit_writer.pending.out_pos() == 0,
        *old(next_in) <= *final(next_in) <= input@.len(),
        final(s).in_hist@ == old(s).in_hist@ + input@.subrange(
            *old(next_in) as int,
            *final(next_in) as int,
        ),
        *final(next_in) > *old(next_in) ==> left_of(&final(s).state) == 0,
        final(output)@.len() + *final(avail_out) == old(output)@.len() + *old(avail_out),
        *final(avail_out) <= *old(avail_out),
        final(s).out_hist@ == old(s).out_hist@ + final(s).out_hist@.skip(
            old(s).out_hist@.len() as int,
        ),
        final(output)@ == old(output)@ + final(s).out_hist@.skip(old(s).out_hist@.len() as int),
        st == DirectStep::Stop ==> *final(s) == *old(s) && *final(next_in) == *old(next_in)
            && final(output)@ == old(output)@ && *final(avail_out) == *old(avail_out) && final(s).decode_ok(),
        (st == DirectStep::Stop && amp) ==> flush != Flush::Finish && left_of(&final(s).state)
            == 0 && *final(next_in) == input@.len(),
        st == DirectStep::Again ==> final(s).decode_ok() && (input@.len() - *final(next_in))
            + left_of(&final(s).state) < (input@.len() - *old(next_in)) + left_of(
            &old(s).state,
        ),
        (st == DirectStep::Again && amp) ==> *final(avail_out) as int >= direct_need(
            flush == Flush::Finish,
            left_of(&final(s).state) + input@.len() - *final(next_in),
        ),
        st == DirectStep::Final ==> final(s).dec_of() == (InfMode::Done, final(s).in_hist@)
            && left_of(&final(s).state) == 0 && *final(next_in) == input@.len() && flush
            == Flush::Finish,
        (st == DirectStep::Final && amp) ==> *final(avail_out) >= 5,
        (amp && flush == Flush::Finish) ==> st != DirectStep::Stop,
{
    let ghost measure0 = (input@.len() - *next_in) + left_of(&s.state);
    let mut len: usize = MAX_STORED;

    // Room for the stored-block header bytes.
    let have: usize = ((s.state.bit_writer.bits_valid as usize) + 42) / 8;
    assert(have == 5);
    if *avail_out < have {
        proof {
            if amp {
                lemma_direct_need_le_bound(
                    flush == Flush::Finish,
                    left_of(&s.state) + input@.len() - *next_in,
                );
                assert(false);
            }
            lemma_take_skip_all(s.out_hist@);
            assert(s.out_hist@.skip(s.out_hist@.len() as int) =~= Seq::<u8>::empty());
            assert(s.out_hist@ =~= s.out_hist@ + s.out_hist@.skip(s.out_hist@.len() as int));
            assert(input@.subrange(*next_in as int, *next_in as int) =~= Seq::<u8>::empty());
            assert(s.in_hist@ =~= s.in_hist@ + input@.subrange(
                *next_in as int,
                *next_in as int,
            ));
        }
        return DirectStep::Stop;
    }

    let left = s.state.strstart - s.state.block_start;
    let have_out = *avail_out - have;
    let avail_in = input.len() - *next_in;
    let remain_total: u64 = left as u64 + avail_in as u64;

    // Limit the block to the available input and the output room.
    if (len as u64) > remain_total {
        len = remain_total as usize;
    }
    if len > have_out {
        len = have_out;
    }
    proof {
        if amp && left + avail_in > 0 {
            lemma_stored_bound_at_least(left + avail_in);
            if left + avail_in > 65535 {
                assert(stored_bound(left + avail_in) == 65540 + stored_bound(
                    left + avail_in - 65535,
                ));
                lemma_stored_bound_at_least(left + avail_in - 65535);
                assert(len == 65535);
            } else {
                assert(len == left + avail_in);
            }
        }
        if amp && left + avail_in == 0 {
            assert(len == 0);
        }
    }

    // An undersized block is not emitted directly unless an end-of-stream
    // flush forces out exactly the remaining data.
    if len < min_block && ((len == 0 && flush != Flush::Finish) || flush == Flush::NoFlush
        || (len as u64) != remain_total) {
        proof {
            if amp {
                // With ample room the only way here is a non-finishing
                // flush that has already consumed everything.
                assert(flush != Flush::Finish && len == 0 && left == 0 && avail_in == 0);
            }
            lemma_take_skip_all(s.out_hist@);
            assert(s.out_hist@ =~= s.out_hist@ + s.out_hist@.skip(s.out_hist@.len() as int));
            assert(input@.subrange(*next_in as int, *next_in as int) =~= Seq::<u8>::empty());
            assert(s.in_hist@ =~= s.in_hist@ + input@.subrange(
                *next_in as int,
                *next_in as int,
            ));
        }
        return DirectStep::Stop;
    }

    let last = flush == Flush::Finish && (len as u64) == remain_total;

    stored_emit_direct(s, input, next_in, output, avail_out, len, last);

    proof {
        // With ample room the output stays ample for the remaining data.
        if amp && !last {
            let n_now = left_of(&s.state) + input@.len() - *next_in;
            if len == 65535 && measure0 > 65535 {
                assert(n_now == measure0 - 65535);
                assert(stored_bound(measure0) == 65540 + stored_bound(measure0 - 65535));
            } else {
                // A non-finishing flush swept up everything that was left.
                assert(len as int == measure0 && n_now == 0);
            }
        }
        if amp && last {
            assert(len as int == measure0 && measure0 <= 65535);
        }
        if !last {
            assert(len >= 1);
        }
    }

    if last {
        DirectStep::Final
    } else {
        DirectStep::Again
    }
}

/// Slides the window down one window length, freeing room above the
/// unflushed region while keeping its contents.
#[verifier::rlimit(100)]
fn stored_slide(s: &mut DeflateStream)
    requires
        old(s).busy_ok(),
        old(s).state.block_start >= old(s).state.w_size,
    ensures
        final(s).busy_ok(),
        left_of(&final(s).state) == left_of(&old(s).state),
        final(s).state.block_start == old(s).state.block_start - old(s).state.w_size,
        final(s).state.strstart == old(s).state.strstart - old(s).state.w_size,
        final(s).state.window@.len() == old(s).state.window@.len(),
        final(s).state.bit_writer == old(s).state.bit_writer,
        final(s).state.wrap == old(s).state.wrap,
        final(s).state.window_bits == old(s).state.window_bits,
        final(s).state.w_size == old(s).state.w_size,
        final(s).phase == old(s).phase,
        final(s).adler == old(s).adler,
        final(s).total_in == old(s).total_in,
        final(s).total_out == old(s).total_out,
        final(s).in_hist == old(s).in_hist,
        final(s).out_hist == old(s).out_hist,
        final(s).produced() == old(s).produced(),
        final(s).raw_of() == old(s).raw_of(),
{
    let w_size = s.state.w_size;
    s.state.block_start = s.state.block_start - w_size;
    s.state.strstart = s.state.strstart - w_size;
    let ss = s.state.strstart;
    vec_copy_down(&mut s.state.window, w_size, ss);
    if s.state.matches < 2 {
        s.state.matches = s.state.matches + 1;
    }
    if s.state.insert > s.state.strstart {
        s.state.insert = s.state.strstart;
    }
    proof {
        lemma_subrange_shift(
            old(s).state.window@,
            s.state.window@,
            w_size as int,
            ss as int,
            s.state.block_start as int,
            ss as int,
        );
        assert(s.state.window@.subrange(s.state.block_start as int, s.state.strstart as int)
            == old(s).state.window@.subrange(
            old(s).state.block_start as int,
            old(s).state.strstart as int,
        ));
        assert(s.produced() =~= old(s).produced());
    }
}

/// Tops the window up with `fill` available input bytes at the insertion
/// point, folding them into the checksum and growing the unflushed region.
#[verifier::rlimit(100)]
fn stored_fill(s: &mut DeflateStream, input: &[u8], next_in: &mut usize, fill: usize)
    requires
        old(s).busy_ok(),
        old(s).decode_ok(),
        1 <= fill,
        *old(next_in) + fill <= input@.len(),
        old(s).state.strstart + fill <= old(s).state.window@.len(),
    ensures
        final(s).busy_ok(),
        final(s).decode_ok(),
        *final(next_in) == *old(next_in) + fill,
        final(s).in_hist@ == old(s).in_hist@ + input@.subrange(
            *old(next_in) as int,
            *old(next_in) + fill,
        ),
        left_of(&final(s).state) == left_of(&old(s).state) + fill,
        final(s).state.strstart == old(s).state.strstart + fill,
        final(s).state.block_start == old(s).state.block_start,
        final(s).state.wrap == old(s).state.wrap,
        final(s).state.window_bits == old(s).state.window_bits,
        final(s).state.w_size == old(s).state.w_size,
        final(s).state.bit_writer == old(s).state.bit_writer,
        final(s).phase == old(s).phase,
        final(s).out_hist == old(s).out_hist,
        final(s).total_out == old(s).total_out,
        final(s).produced() == old(s).produced(),
{
    let ghost pre_fill = *s;
    let ss = s.state.strstart;
    let got = read_buf_window(s, input, next_in, ss, fill);
    assert(got == fill);
    s.state.strstart = s.state.strstart + got;
    let gain = if got < s.state.w_size - s.state.insert {
        got
    } else {
        s.state.w_size - s.state.insert
    };
    s.state.insert = s.state.insert + gain;
    proof {
        let chunk = input@.subrange(*next_in - got, *next_in as int);
        let ih = pre_fill.in_hist@;
        lemma_adler32_seq_concat(1, ih, chunk);
        let bs = s.state.block_start as int;
        let ss_pre = pre_fill.state.strstart as int;
        // The old tail is untouched and the new bytes sit just above it.
        lemma_subrange_of_prefix(pre_fill.state.window@, s.state.window@, bs, ss_pre, ss_pre);
        lemma_subrange_split(s.state.window@, bs, ss_pre, ss_pre + got);
        let l_pre = left_of(&pre_fill.state);
        assert(s.state.window@.subrange(s.state.block_start as int, s.state.strstart as int)
            == ih.skip(ih.len() - l_pre) + chunk);
        lemma_skip_append(ih, chunk, ih.len() - l_pre);
        assert(s.in_hist@ == ih + chunk);
        assert(s.in_hist@.skip(s.in_hist@.len() - left_of(&s.state)) == ih.skip(
            ih.len() - l_pre,
        ) + chunk);
        lemma_take_append(ih, chunk, ih.len() - l_pre);
        assert(s.in_hist@.take(s.in_hist@.len() - left_of(&s.state)) == ih.take(
            ih.len() - l_pre,
        ));
        assert(s.dec_of() == (
            InfMode::AtBlock,
            s.in_hist@.take(s.in_hist@.len() - left_of(&s.state)),
        ));
    }
}

/// When nothing changed the extension relations hold trivially.
proof fn lemma_unchanged_glue(pre: DeflateStream, post: DeflateStream, ni0: int, ni: int, inp: Seq<u8>)
    requires
        post.in_hist@ == pre.in_hist@,
        post.out_hist@ == pre.out_hist@,
        0 <= ni0 == ni <= inp.len(),
    ensures
        post.in_hist@ == pre.in_hist@ + inp.subrange(ni0, ni),
        post.out_hist@ == pre.out_hist@ + post.out_hist@.skip(pre.out_hist@.len() as int),
        post.out_hist@.skip(pre.out_hist@.len() as int) == Seq::<u8>::empty(),
{
    assert(inp.subrange(ni0, ni) =~= Seq::<u8>::empty());
    assert(post.in_hist@ =~= pre.in_hist@ + inp.subrange(ni0, ni));
    assert(post.out_hist@.skip(pre.out_hist@.len() as int) =~= Seq::<u8>::empty());
    assert(post.out_hist@ =~= pre.out_hist@ + post.out_hist@.skip(pre.out_hist@.len() as int));
}

/// Reconcile the window, register a flush point if one was reached, refill
/// the window from the remaining input, and buffer a block into the pending
/// area when one is worthwhile or forced.
#[verifier::spinoff_prover]
#[verifier::rlimit(100)]
fn stored_wrap_up(
    s: &mut DeflateStream,
    input: &[u8],
    next_in: &mut usize,
    output: &mut Vec<u8>,
    avail_out: &mut usize,
    flush: Flush,
    last: bool,
    used: usize,
) -> (r: BlockState)
    requires
        old(s).busy_ok(),
        old(s).state.bit_writer.pending.bytes().len() == 0,
        old(s).state.bit_writer.pending.out_pos() == 0,
        *old(next_in) <= input@.len(),
        input@.len() <= 0xffff_ffff,
        *old(avail_out) <= 0xffff_ffff,
        old(output)@.len() + *old(avail_out) <= usize::MAX,
        used <= *old(next_in),
        used > 0 ==> left_of(&old(s).state) == 0,
        !last ==> old(s).decode_ok(),
        last ==> old(s).dec_of() == (InfMode::Done, old(s).in_hist@) && left_of(&old(s).state)
            == 0 && *old(next_in) == input@.len() && flush == Flush::Finish,
    ensures
        final(s).busy_ok(),
        final(s).state.wrap == old(s).state.wrap,
        final(s).state.window_bits == old(s).state.window_bits,
        final(s).state.w_size == old(s).state.w_size,
        final(s).state.bit_writer.pending.cap() == old(s).state.bit_writer.pending.cap(),
        *old(next_in) <= *final(next_in) <= input@.len(),
        final(s).in_hist@ == old(s).in_hist@ + input@.subrange(
            *old(next_in) as int,
            *final(next_in) as int,
        ),
        *final(avail_out) <= *old(avail_out),
        final(output)@.len() + *final(avail_out) == old(output)@.len() + *old(avail_out),
        final(s).out_hist@ == old(s).out_hist@ + final(s).out_hist@.skip(
            old(s).out_hist@.len() as int,
        ),
        final(output)@ == old(output)@ + final(s).out_hist@.skip(old(s).out_hist@.len() as int),
        (r == BlockState::NeedMore || r == BlockState::BlockDone) ==> final(s).decode_ok(),
        (r == BlockState::FinishStarted || r == BlockState::FinishDone) ==> final(s).dec_of() == (InfMode::Done, final(s).in_hist@)
            && left_of(&final(s).state) == 0 && *final(next_in) == input@.len() && flush
            == Flush::Finish,
        r == BlockState::FinishDone ==> final(s).state.bit_writer.pending.bytes().len() == 0 && final(s).state.bit_writer.pending.out_pos() == 0,
        r == BlockState::BlockDone ==> *final(next_in)
            == input@.len() && left_of(&final(s).state) == 0 && final(s).state.bit_writer.pending.bytes().len() == 0,
        last ==> r == BlockState::FinishDone && *final(avail_out) == *old(avail_out),
        (!last && (flush == Flush::SyncFlush || flush == Flush::FullFlush) && *old(next_in)
            == input@.len() && left_of(&old(s).state) == 0) ==> r == BlockState::BlockDone,
{
    // Update the sliding window with the last bytes of directly copied
    // input, or append them all if fewer than a window's worth were copied.
    if used > 0 {
        assert(left_of(&s.state) == 0);
        stored_reconcile(s, input, *next_in, used);
    }
    if s.state.high_water < s.state.strstart {
        s.state.high_water = s.state.strstart;
    }

    if last {
        proof {
            lemma_unchanged_glue(*old(s), *s, *old(next_in) as int, *next_in as int, input@);
        }
        return BlockState::FinishDone;
    }
    let mut last2 = false;

    // If flushing and everything consumed has been emitted, this is a
    // reachable flush point.
    if flush != Flush::NoFlush && flush != Flush::Finish && *next_in == input.len()
        && s.state.strstart == s.state.block_start {
        proof {
            lemma_unchanged_glue(*old(s), *s, *old(next_in) as int, *next_in as int, input@);
        }
        return BlockState::BlockDone;
    }

    // Fill the window with any remaining input, sliding it down first when
    // a full window of already-emitted history is holding up the room.
    let mut have = s.state.window.len() - s.state.strstart;
    let avail_in = input.len() - *next_in;
    if avail_in > have && s.state.block_start >= s.state.w_size {
        stored_slide(s);
        have = have + s.state.w_size;
    }
    let fill = if avail_in < have {
        avail_in
    } else {
        have
    };
    if fill > 0 {
        stored_fill(s, input, next_in, fill);
    }
    if s.state.high_water < s.state.strstart {
        s.state.high_water = s.state.strstart;
    }

    // There was not enough room to emit a block directly. Buffer one from
    // the window into the pending area if it is worthwhile or forced.
    let ghost mid_s = *s;
    let ghost mid_output = output@;
    let no_input_left = *next_in == input.len();
    last2 = stored_try_buffered(s, output, avail_out, flush, no_input_left);
    proof {
        let growth = s.out_hist@.skip(mid_s.out_hist@.len() as int);
        lemma_take_append(mid_s.out_hist@, growth, old(s).out_hist@.len() as int);
        lemma_skip_append(mid_s.out_hist@, growth, old(s).out_hist@.len() as int);
        assert(s.out_hist@ =~= old(s).out_hist@ + s.out_hist@.skip(
            old(s).out_hist@.len() as int,
        ));
        assert(output@ =~= old(output)@ + s.out_hist@.skip(old(s).out_hist@.len() as int));
    }

    if last2 {
        BlockState::FinishStarted
    } else {
        BlockState::NeedMore
    }
}

/// Buffer one stored block from the window into the pending area when its
/// length is worthwhile, or when a flush forces the remaining data out,
/// and hand over as much of it as the output can take.
#[verifier::spinoff_prover]
#[verifier::rlimit(100)]
fn stored_try_buffered(
    s: &mut DeflateStream,
    output: &mut Vec<u8>,
    avail_out: &mut usize,
    flush: Flush,
    no_input_left: bool,
) -> (last2: bool)
    requires
        old(s).busy_ok(),
        old(s).decode_ok(),
        old(s).state.bit_writer.pending.bytes().len() == 0,
        old(s).state.bit_writer.pending.out_pos() == 0,
        old(output)@.len() + *old(avail_out) <= usize::MAX,
    ensures
        final(s).busy_ok(),
        final(s).state.wrap == old(s).state.wrap,
        final(s).state.window_bits == old(s).state.window_bits,
        final(s).state.w_size == old(s).state.w_size,
        final(s).state.bit_writer.pending.cap() == old(s).state.bit_writer.pending.cap(),
        final(s).in_hist == old(s).in_hist,
        final(s).adler == old(s).adler,
        final(s).total_in == old(s).total_in,
        *final(avail_out) <= *old(avail_out),
        final(output)@.len() + *final(avail_out) == old(output)@.len() + *old(avail_out),
        final(s).out_hist@ == old(s).out_hist@ + final(s).out_hist@.skip(
            old(s).out_hist@.len() as int,
        ),
        final(output)@ == old(output)@ + final(s).out_hist@.skip(old(s).out_hist@.len() as int),
        !last2 ==> final(s).decode_ok(),
        last2 ==> final(s).dec_of() == (InfMode::Done, final(s).in_hist@) && left_of(
            &final(s).state,
        ) == 0 && flush == Flush::Finish && no_input_left,
        ((flush == Flush::SyncFlush || flush == Flush::FullFlush) && left_of(&old(s).state)
            == 0) ==> !last2 && left_of(&final(s).state) == 0 && final(s).state.bit_writer.pending.bytes().len() == 0,
{
    let mut last2 = false;
    let have_hdr: usize = ((s.state.bit_writer.bits_valid as usize) + 42) / 8;
    let pending_room = s.state.bit_writer.pending.capacity() - have_hdr;
    let have_max = if pending_room < MAX_STORED {
        pending_room
    } else {
        MAX_STORED
    };
    let min_block2 = if have_max < s.state.w_size {
        have_max
    } else {
        s.state.w_size
    };
    let left_now = s.state.strstart - s.state.block_start;

    if left_now >= min_block2 || ((left_now > 0 || flush == Flush::Finish) && flush
        != Flush::NoFlush && no_input_left && left_now <= have_max) {
        let len2 = if left_now < have_max {
            left_now
        } else {
            have_max
        };
        last2 = flush == Flush::Finish && no_input_left && len2 == left_now;
        stored_emit_buffered(s, len2, last2);
        flush_pending(s, output, avail_out);
        proof {
            let oh_pre = old(s).out_hist@;
            lemma_skip_append(oh_pre, s.out_hist@.skip(oh_pre.len() as int), oh_pre.len() as int);
            assert(s.out_hist@ =~= oh_pre + s.out_hist@.skip(oh_pre.len() as int));
            assert(output@ =~= old(output)@ + s.out_hist@.skip(oh_pre.len() as int));
        }
    } else {
        proof {
            lemma_take_skip_all(s.out_hist@);
            assert(s.out_hist@.skip(s.out_hist@.len() as int) =~= Seq::<u8>::empty());
            assert(s.out_hist@ =~= s.out_hist@ + s.out_hist@.skip(s.out_hist@.len() as int));
        }
    }
    last2
}

/// Emit input verbatim as stored blocks. Large enough runs go straight to
/// the caller's output; otherwise input is gathered in the window, sliding
/// it when full, and a block is buffered into the pending area when one is
/// due.
#[verifier::spinoff_prover]
#[verifier::rlimit(100)]
pub fn deflate_stored(
    s: &mut DeflateStream,
    input: &[u8],
    next_in: &mut usize,
    output: &mut Vec<u8>,
    avail_out: &mut usize,
    flush: Flush,
) -> (r: BlockState)
    requires
        old(s).wf(),
        old(s).phase == Phase::Busy,
        old(s).state.bit_writer.pending.bytes().len() == 0,
        old(s).state.bit_writer.pending.out_pos() == 0,
        *old(next_in) <= input@.len(),
        input@.len() <= 0xffff_ffff,
        *old(avail_out) <= 0xffff_ffff,
        old(output)@.len() + *old(avail_out) <= usize::MAX,
    ensures
        final(s).busy_ok(),
        final(s).state.wrap == old(s).state.wrap,
        final(s).state.window_bits == old(s).state.window_bits,
        final(s).state.w_size == old(s).state.w_size,
        final(s).state.bit_writer.pending.cap() == old(s).state.bit_writer.pending.cap(),
        *old(next_in) <= *final(next_in) <= input@.len(),
        final(s).in_hist@ == old(s).in_hist@ + input@.subrange(
            *old(next_in) as int,
            *final(next_in) as int,
        ),
        *final(avail_out) <= *old(avail_out),
        final(output)@.len() + *final(avail_out) == old(output)@.len() + *old(avail_out),
        final(s).out_hist@.take(old(s).out_hist@.len() as int) == old(s).out_hist@,
        final(s).out_hist@ == old(s).out_hist@ + final(s).out_hist@.skip(
            old(s).out_hist@.len() as int,
        ),
        final(output)@ == old(output)@ + final(s).out_hist@.skip(old(s).out_hist@.len() as int),
        (r == BlockState::NeedMore || r == BlockState::BlockDone) ==> final(s).decode_ok(),
        (r == BlockState::FinishStarted || r == BlockState::FinishDone) ==> final(s).dec_of() == (InfMode::Done, final(s).in_hist@)
            && left_of(&final(s).state) == 0 && *final(next_in) == input@.len() && flush
            == Flush::Finish,
        r == BlockState::FinishDone ==> final(s).state.bit_writer.pending.bytes().len() == 0 && final(s).state.bit_writer.pending.out_pos() == 0,
        r == BlockState::BlockDone ==> *final(next_in)
            == input@.len() && left_of(&final(s).state) == 0 && final(s).state.bit_writer.pending.bytes().len() == 0,
        (flush == Flush::Finish && *old(avail_out) >= stored_bound(
            left_of(&old(s).state) + input@.len() - *old(next_in),
        )) ==> r == BlockState::FinishDone && *final(avail_out)
            >= 5,
        ((flush == Flush::SyncFlush || flush == Flush::FullFlush) && *old(avail_out)
            >= stored_bound(left_of(&old(s).state) + input@.len() - *old(next_in))) ==> r
            == BlockState::BlockDone,
{
    let ghost ni0 = *old(next_in);
    let ghost sum0 = old(output)@.len() + *old(avail_out);
    let ghost oh0 = old(s).out_hist@;
    let ghost n0 = left_of(&old(s).state) + input@.len() - *old(next_in);
    let ghost ample = flush == Flush::Finish && *old(avail_out) >= stored_bound(n0);
    let ghost ample_sync = (flush == Flush::SyncFlush || flush == Flush::FullFlush) && *old(
        avail_out,
    ) >= stored_bound(n0);
    let ghost amp = ample || ample_sync;
    proof {
        if amp {
            lemma_direct_need_le_bound(flush == Flush::Finish, n0);
        }
    }

    // Smallest block worth copying straight to the output.
    let pending_cap = s.state.bit_writer.pending.capacity();
    let min_block = if pending_cap - 5 < s.state.w_size {
        pending_cap - 5
    } else {
        s.state.w_size
    };

    let ni_entry = *next_in;
    let mut last = false;

    // Copy as many worthwhile stored blocks directly to the output as
    // possible; when finishing, copy all remaining input this way if the
    // output has room.
    loop
        invariant_except_break
            last == false,
            s.decode_ok(),
            amp ==> (flush == Flush::Finish || flush == Flush::SyncFlush || flush
                == Flush::FullFlush) && *avail_out as int >= direct_need(
                flush == Flush::Finish,
                left_of(&s.state) + input@.len() - *next_in,
            ),
            ample ==> flush == Flush::Finish,
            ample_sync ==> flush != Flush::Finish && flush != Flush::NoFlush,
            amp == (ample || ample_sync),
        invariant
            s.busy_ok(),
            s.state.wrap == old(s).state.wrap,
            s.state.window_bits == old(s).state.window_bits,
            s.state.w_size == old(s).state.w_size,
            s.state.bit_writer.pending.cap() == old(s).state.bit_writer.pending.cap(),
            s.state.bit_writer.pending.bytes().len() == 0,
            s.state.bit_writer.pending.out_pos() == 0,
            min_block as int == vstd::math::min(
                s.state.bit_writer.pending.cap() - 5,
                s.state.w_size as int,
            ),
            min_block >= 256,
            ni_entry == ni0,
            ni0 <= *next_in <= input@.len(),
            input@.len() <= 0xffff_ffff,
            *avail_out <= 0xffff_ffff,
            s.in_hist@ == old(s).in_hist@ + input@.subrange(ni0 as int, *next_in as int),
            *next_in > ni0 ==> left_of(&s.state) == 0,
            output@.len() + *avail_out == sum0,
            sum0 <= usize::MAX,
            *avail_out <= *old(avail_out),
            oh0.len() <= s.out_hist@.len(),
            s.out_hist@.take(oh0.len() as int) == oh0,
            output@ == old(output)@ + s.out_hist@.skip(oh0.len() as int),
        ensures
            s.busy_ok(),
            s.state.wrap == old(s).state.wrap,
            s.state.window_bits == old(s).state.window_bits,
            s.state.w_size == old(s).state.w_size,
            s.state.bit_writer.pending.cap() == old(s).state.bit_writer.pending.cap(),
            s.state.bit_writer.pending.bytes().len() == 0,
            s.state.bit_writer.pending.out_pos() == 0,
            ni0 <= *next_in <= input@.len(),
            s.in_hist@ == old(s).in_hist@ + input@.subrange(ni0 as int, *next_in as int),
            *next_in > ni0 ==> left_of(&s.state) == 0,
            output@.len() + *avail_out == sum0,
            *avail_out <= *old(avail_out),
            oh0.len() <= s.out_hist@.len(),
            s.out_hist@.take(oh0.len() as int) == oh0,
            output@ == old(output)@ + s.out_hist@.skip(oh0.len() as int),
            !last ==> s.decode_ok(),
            last ==> s.dec_of() == (InfMode::Done, s.in_hist@) && left_of(&s.state) == 0
                && *next_in == input@.len() && flush == Flush::Finish,
            ample ==> last && *avail_out >= 5,
            ample_sync ==> !last && left_of(&s.state) == 0 && *next_in == input@.len(),
        decreases (input@.len() - *next_in) + left_of(&s.state),
    {
        let ghost pre_ni = *next_in;
        let ghost pre_out_hist = s.out_hist@;
        let ghost pre_output = output@;
        let step = stored_direct_step(
            s,
            input,
            next_in,
            output,
            avail_out,
            flush,
            min_block,
            Ghost(amp),
        );
        proof {
            let growth = s.out_hist@.skip(pre_out_hist.len() as int);
            lemma_take_append(pre_out_hist, growth, oh0.len() as int);
            lemma_skip_append(pre_out_hist, growth, oh0.len() as int);
            assert(s.out_hist@.take(oh0.len() as int) == oh0);
            assert(output@ =~= old(output)@ + s.out_hist@.skip(oh0.len() as int));
            assert(input@.subrange(ni0 as int, *next_in as int) =~= input@.subrange(
                ni0 as int,
                pre_ni as int,
            ) + input@.subrange(pre_ni as int, *next_in as int));
            assert(s.in_hist@ =~= old(s).in_hist@ + input@.subrange(
                ni0 as int,
                *next_in as int,
            ));
        }
        match step {
            DirectStep::Stop => {
                break;
            },
            DirectStep::Final => {
                last = true;
                break;
            },
            DirectStep::Again => {},
        }
    }

    // Reconcile the window with whatever was copied directly, then buffer
    // a block from the window if the output could not take one.
    let used = *next_in - ni_entry;
    let ghost mid_s = *s;
    let ghost mid_ni = *next_in;
    let r = stored_wrap_up(s, input, next_in, output, avail_out, flush, last, used);
    proof {
        let growth = s.out_hist@.skip(mid_s.out_hist@.len() as int);
        lemma_take_append(mid_s.out_hist@, growth, oh0.len() as int);
        lemma_skip_append(mid_s.out_hist@, growth, oh0.len() as int);
        assert(s.out_hist@.take(oh0.len() as int) == oh0);
        assert(s.out_hist@ =~= s.out_hist@.take(oh0.len() as int) + s.out_hist@.skip(
            oh0.len() as int,
        ));
        assert(output@ =~= old(output)@ + s.out_hist@.skip(oh0.len() as int));
        assert(input@.subrange(ni0 as int, *next_in as int) =~= input@.subrange(
            ni0 as int,
            mid_ni as int,
        ) + input@.subrange(mid_ni as int, *next_in as int));
        assert(s.in_hist@ =~= old(s).in_hist@ + input@.subrange(ni0 as int, *next_in as int));
    }
    r
}


} // verus!
