//! The compression session: its state record, the sliding history window,
//! and the bookkeeping helpers shared by the block encoders.
//!
//! The stream carries two ghost histories: every input byte it has consumed
//! and every byte it has handed to the caller. The well-formedness
//! invariant ties them together: the bytes produced so far, decoded as a
//! stream of stored blocks, replay exactly the consumed input that is no
//! longer buffered in the window.

use vstd::prelude::*;

verus! {

use crate::adler32::{adler32, adler32_seq, lemma_adler32_seq_concat};
use crate::format::{le16, stored_frame, stored_header_byte, zlib_header, MAX_STORED};
use crate::inflate::{inf_fold, InfMode};
use crate::pending::BitWriter;

/// How eagerly a call must emit pending data and block boundaries.
#[derive(Clone, Copy, PartialEq, Eq, Structural)]
pub enum Flush {
    /// Let the engine accumulate input freely.
    NoFlush,
    /// Force out everything consumed so far at a byte-aligned boundary.
    SyncFlush,
    /// As `SyncFlush`; the distinction matters only to match-based
    /// strategies, which also discard their match history.
    FullFlush,
    /// Consume all input, emit the final block and the trailer.
    Finish,
}

/// What a block encoder achieved in one invocation.
#[derive(Clone, Copy, PartialEq, Eq, Structural)]
pub enum BlockState {
    /// More input or more output space is needed.
    NeedMore,
    /// A flush point was reached: everything consumed has been emitted.
    BlockDone,
    /// The final block was written into the pending buffer.
    FinishStarted,
    /// The final block was written all the way to the output.
    FinishDone,
}

/// The session phase; it only moves forward except on reset.
#[derive(Clone, Copy, PartialEq, Eq, Structural)]
pub enum Phase {
    /// Nothing emitted yet; the container header is still owed.
    Init,
    /// Consuming input and emitting blocks.
    Busy,
    /// The final block has been emitted; the trailer is still owed.
    Finishing,
    /// The trailer has been written into the pending buffer.
    Trailer,
    /// Everything has been flushed; the stream has ended.
    Done,
}

/// The internal state of a compression session.
pub struct State {
    /// History window capacity; the window buffer is twice this long.
    pub w_size: usize,
    /// Base-two logarithm of `w_size`.
    pub window_bits: u8,
    /// The sliding history window.
    pub window: Vec<u8>,
    /// Current insertion point in the window.
    pub strstart: usize,
    /// Start of the window region not yet emitted in a block.
    pub block_start: usize,
    /// Trailing window bytes eligible to seed future match tables.
    pub insert: usize,
    /// High-water mark of window initialisation.
    pub high_water: usize,
    /// Match-table status: two means the hash must be rebuilt.
    pub matches: u8,
    /// The bit accumulator and pending byte buffer.
    pub bit_writer: BitWriter,
    /// Container format: zero for a raw deflate stream, one for zlib.
    pub wrap: u8,
}

/// Window bytes buffered but not yet emitted in any block.
pub open spec fn left_of(st: &State) -> int {
    st.strstart - st.block_start
}

/// Structural invariants of the session state (the window invariant of the
/// design: `0 <= block_start <= strstart <= window_size`, and the sizing of
/// every buffer).
pub open spec fn state_wf(st: &State) -> bool {
    &&& 256 <= st.w_size <= 32768
    &&& 8 <= st.window_bits <= 15
    &&& st.w_size == (1usize << (st.window_bits as usize))
    &&& st.window@.len() == 2 * st.w_size
    &&& st.block_start <= st.strstart <= st.window@.len()
    &&& st.insert <= st.strstart
    &&& st.insert <= st.w_size
    &&& st.high_water <= st.window@.len()
    &&& st.matches <= 2
    &&& st.wrap <= 1
    &&& st.bit_writer.wf()
    &&& st.bit_writer.bits_valid == 0
    &&& 512 <= st.bit_writer.pending.cap() <= 0x20000
}

/// One in-progress compression conversation.
pub struct DeflateStream {
    pub state: State,
    pub phase: Phase,
    /// Bytes consumed from callers' inputs, saturating.
    pub total_in: u64,
    /// Bytes handed to callers' outputs, saturating.
    pub total_out: u64,
    /// Running checksum of the consumed input (zlib container only).
    pub adler: u32,
    /// Every input byte consumed so far, in order.
    pub in_hist: Ghost<Seq<u8>>,
    /// Every byte handed to the caller so far, in order.
    pub out_hist: Ghost<Seq<u8>>,
}

impl DeflateStream {
    /// All bytes the engine has committed to, flushed or still pending.
    pub open spec fn produced(&self) -> Seq<u8> {
        self.out_hist@ + self.state.bit_writer.pending.bytes()
    }

    /// Length of the container header inside `produced`.
    pub open spec fn header_len(&self) -> int {
        if self.state.wrap == 1 && self.phase != Phase::Init {
            2
        } else {
            0
        }
    }

    /// Length of the container trailer inside `produced`.
    pub open spec fn trailer_len(&self) -> int {
        if self.state.wrap == 1 && (self.phase == Phase::Trailer || self.phase == Phase::Done) {
            4
        } else {
            0
        }
    }

    /// The raw deflate byte stream produced so far, between the container
    /// header and trailer.
    pub open spec fn raw_of(&self) -> Seq<u8> {
        self.produced().subrange(self.header_len(), self.produced().len() - self.trailer_len())
    }

    /// The decoder state after consuming the raw stream produced so far.
    pub open spec fn dec_of(&self) -> (InfMode, Seq<u8>) {
        inf_fold(InfMode::AtBlock, Seq::<u8>::empty(), self.raw_of())
    }

    /// The window region `[block_start, strstart)` holds exactly the most
    /// recently consumed input bytes.
    pub open spec fn window_tail_ok(&self) -> bool {
        &&& left_of(&self.state) <= self.in_hist@.len()
        &&& self.state.window@.subrange(self.state.block_start as int, self.state.strstart as int)
            == self.in_hist@.skip(self.in_hist@.len() - left_of(&self.state))
    }

    /// The checksum accumulator reflects exactly the consumed input.
    pub open spec fn checksum_ok(&self) -> bool {
        self.state.wrap == 1 ==> self.adler == adler32_seq(1, self.in_hist@)
    }

    /// The saturating byte counters reflect the history lengths.
    pub open spec fn counters_ok(&self) -> bool {
        &&& self.total_in as int == vstd::math::min(self.in_hist@.len() as int, u64::MAX as int)
        &&& self.total_out as int == vstd::math::min(self.out_hist@.len() as int, u64::MAX as int)
    }

    /// The container framing around the raw deflate stream.
    pub open spec fn framing_ok(&self) -> bool {
        &&& self.phase == Phase::Init ==> self.produced() == Seq::<u8>::empty()
            && self.in_hist@.len() == 0 && left_of(&self.state) == 0
        &&& (self.state.wrap == 1 && self.phase != Phase::Init) ==> self.produced().len() >= 2
            + self.trailer_len() && self.produced().take(2) == zlib_header(
            self.state.window_bits as int,
        )
        &&& self.phase == Phase::Trailer || self.phase == Phase::Done ==> (self.state.wrap == 1
            ==> self.produced().skip(self.produced().len() - 4) == crate::format::be32(self.adler))
        &&& self.phase == Phase::Done ==> self.state.bit_writer.pending.bytes().len() == 0
    }

    /// Decoding what has been produced replays what has been consumed: in
    /// the running phases the decoder sits at a block boundary holding all
    /// consumed input except the still-buffered window tail; once the final
    /// block is out it has finished holding the whole input.
    pub open spec fn decode_ok(&self) -> bool {
        match self.phase {
            Phase::Init | Phase::Busy => self.dec_of() == (
                InfMode::AtBlock,
                self.in_hist@.take(self.in_hist@.len() - left_of(&self.state)),
            ),
            Phase::Finishing | Phase::Trailer | Phase::Done => self.dec_of() == (
                InfMode::Done,
                self.in_hist@,
            ) && left_of(&self.state) == 0,
        }
    }

    pub open spec fn wf(&self) -> bool {
        &&& state_wf(&self.state)
        &&& self.window_tail_ok()
        &&& self.checksum_ok()
        &&& self.counters_ok()
        &&& self.framing_ok()
        &&& self.decode_ok()
    }

    /// Everything `wf` asks for except the decode relation, in the busy
    /// phase; the pieces a block encoder must preserve step by step.
    pub open spec fn busy_ok(&self) -> bool {
        &&& state_wf(&self.state)
        &&& self.phase == Phase::Busy
        &&& self.window_tail_ok()
        &&& self.checksum_ok()
        &&& self.counters_ok()
        &&& self.framing_ok()
    }
}

/// Writes one stored block: the three header bits, padding to the byte
/// boundary, the doubled length field, and the payload, all into the
/// pending buffer.
pub fn zng_tr_stored_block(bw: &mut BitWriter, payload: &[u8], last: bool)
    requires
        old(bw).wf(),
        old(bw).bits_valid == 0,
        payload@.len() <= MAX_STORED,
        5 + payload@.len() <= old(bw).pending.cap() - old(bw).pending.out_pos() - old(
            bw,
        ).pending.bytes().len(),
    ensures
        final(bw).wf(),
        final(bw).bits_valid == 0,
        final(bw).pending.bytes() == old(bw).pending.bytes() + stored_frame(last, payload@),
        final(bw).pending.cap() == old(bw).pending.cap(),
        final(bw).pending.out_pos() == old(bw).pending.out_pos(),
{
    let ghost pend0 = bw.pending.bytes();
    let flag: u64 = if last {
        1
    } else {
        0
    };
    assert(flag < (1u64 << 3u64) && (1u64 << 0u64) == 1) by (bit_vector)
        requires
            flag <= 1,
    ;
    bw.send_bits(flag, 3);
    bw.emit_align();
    proof {
        assert(crate::pending::align_bytes(flag, 3) =~= seq![stored_header_byte(last)]);
        assert(bw.pending.bytes() =~= pend0 + seq![stored_header_byte(last)]);
    }
    let stored_len: u16 = payload.len() as u16;
    let len_bytes = [(stored_len & 0xff) as u8, (stored_len >> 8) as u8];
    let nlen = !stored_len;
    let nlen_bytes = [(nlen & 0xff) as u8, (nlen >> 8) as u8];
    bw.pending.extend(&len_bytes);
    bw.pending.extend(&nlen_bytes);
    bw.pending.extend(payload);
    proof {
        assert(len_bytes@ =~= le16(payload@.len() as u16));
        assert(nlen_bytes@ =~= le16(!(payload@.len() as u16)));
        assert(bw.pending.bytes() =~= pend0 + stored_frame(last, payload@));
    }
}

/// Copies `len` bytes of `src` starting at `src_start` into `dst` starting
/// at `dst_start`, leaving the rest of `dst` unchanged.
pub fn copy_into_vec(dst: &mut Vec<u8>, dst_start: usize, src: &[u8], src_start: usize, len: usize)
    requires
        dst_start + len <= old(dst)@.len(),
        src_start + len <= src@.len(),
    ensures
        final(dst)@.len() == old(dst)@.len(),
        final(dst)@.subrange(0, dst_start as int) == old(dst)@.subrange(0, dst_start as int),
        final(dst)@.subrange(dst_start as int, dst_start + len) == src@.subrange(
            src_start as int,
            src_start + len,
        ),
        final(dst)@.subrange(dst_start + len, old(dst)@.len() as int) == old(dst)@.subrange(
            dst_start + len,
            old(dst)@.len() as int,
        ),
{
    let dst_len = dst.len();
    let src_len = src.len();
    let mut i: usize = 0;
    while i < len
        invariant
            dst_start + len <= dst_len,
            src_start + len <= src_len,
            dst@.len() == dst_len,
            src@.len() == src_len,
            dst@.len() == old(dst)@.len(),
            i <= len,
            dst@.subrange(0, dst_start as int) == old(dst)@.subrange(0, dst_start as int),
            dst@.subrange(dst_start as int, dst_start + i) == src@.subrange(
                src_start as int,
                src_start + i,
            ),
            dst@.subrange(dst_start + len, old(dst)@.len() as int) == old(dst)@.subrange(
                dst_start + len,
                old(dst)@.len() as int,
            ),
        decreases len - i,
    {
        let ghost prev = dst@;
        dst.set(dst_start + i, src[src_start + i]);
        proof {
            assert(dst@.subrange(0, dst_start as int) =~= prev.subrange(0, dst_start as int));
            assert(dst@.subrange(dst_start as int, dst_start + i + 1) =~= prev.subrange(
                dst_start as int,
                dst_start + i,
            ).push(src@[src_start + i]));
            assert(src@.subrange(src_start as int, src_start + i + 1) =~= src@.subrange(
                src_start as int,
                src_start + i,
            ).push(src@[src_start + i]));
            assert(dst@.subrange(dst_start + len, old(dst)@.len() as int) =~= prev.subrange(
                dst_start + len,
                old(dst)@.len() as int,
            ));
        }
        i += 1;
    }
}

/// Copies `len` bytes within `v` from `src_start` down to the start of the
/// buffer; the regions must not overlap.
pub fn vec_copy_down(v: &mut Vec<u8>, src_start: usize, len: usize)
    requires
        len <= src_start,
        src_start + len <= old(v)@.len(),
    ensures
        final(v)@.len() == old(v)@.len(),
        final(v)@.subrange(0, len as int) == old(v)@.subrange(src_start as int, src_start + len),
        final(v)@.subrange(len as int, old(v)@.len() as int) == old(v)@.subrange(
            len as int,
            old(v)@.len() as int,
        ),
{
    let v_len = v.len();
    let mut i: usize = 0;
    while i < len
        invariant
            len <= src_start,
            src_start + len <= v_len,
            v@.len() == v_len,
            v@.len() == old(v)@.len(),
            i <= len,
            v@.subrange(0, i as int) == old(v)@.subrange(src_start as int, src_start + i),
            v@.subrange(len as int, old(v)@.len() as int) == old(v)@.subrange(
                len as int,
                old(v)@.len() as int,
            ),
        decreases len - i,
    {
        let ghost prev = v@;
        let byte = v[src_start + i];
        proof {
            assert(old(v)@.subrange(len as int, old(v)@.len() as int)[src_start + i - len]
                == old(v)@[src_start + i]);
        }
        v.set(i, byte);
        proof {
            assert(v@.subrange(0, i + 1) =~= prev.subrange(0, i as int).push(byte));
            assert(old(v)@.subrange(src_start as int, src_start + i + 1) =~= old(v)@.subrange(
                src_start as int,
                src_start + i,
            ).push(old(v)@[src_start + i]));
            assert(v@.subrange(len as int, old(v)@.len() as int) =~= prev.subrange(
                len as int,
                old(v)@.len() as int,
            ));
        }
        i += 1;
    }
}

} // verus!

verus! {

/// Saturating add for the byte counters.
fn counter_add(counter: u64, n: usize) -> (r: u64)
    ensures
        r as int == vstd::math::min(counter as int + n as int, u64::MAX as int),
{
    if counter > u64::MAX - n as u64 {
        u64::MAX
    } else {
        counter + n as u64
    }
}

/// Copies a window region into a fresh buffer.
pub fn window_range_to_vec(win: &Vec<u8>, start: usize, len: usize) -> (r: Vec<u8>)
    requires
        start + len <= win@.len(),
    ensures
        r@ == win@.subrange(start as int, start + len),
{
    let win_len = win.len();
    let mut r: Vec<u8> = Vec::new();
    let mut i: usize = 0;
    while i < len
        invariant
            start + len <= win_len,
            win@.len() == win_len,
            i <= len,
            r@ == win@.subrange(start as int, start + i),
        decreases len - i,
    {
        r.push(win[start + i]);
        proof {
            assert(win@.subrange(start as int, start + i + 1) =~= win@.subrange(
                start as int,
                start + i,
            ).push(win@[start + i]));
        }
        i += 1;
    }
    r
}

/// Copies as many pending bytes as fit into the caller's output. The bytes
/// the engine has committed to do not change; they only move from the
/// pending buffer into the caller's hands.
pub fn flush_pending(s: &mut DeflateStream, output: &mut Vec<u8>, avail_out: &mut usize)
    requires
        old(s).state.bit_writer.pending.wf(),
        old(output)@.len() + *old(avail_out) <= usize::MAX,
    ensures
        ({
            let n = vstd::math::min(
                old(s).state.bit_writer.pending.bytes().len() as int,
                *old(avail_out) as int,
            );
            &&& final(output)@ == old(output)@ + old(s).state.bit_writer.pending.bytes().take(n)
            &&& final(s).out_hist@ == old(s).out_hist@ + old(
                s,
            ).state.bit_writer.pending.bytes().take(n)
            &&& final(s).state.bit_writer.pending.bytes() == old(
                s,
            ).state.bit_writer.pending.bytes().skip(n)
            &&& *final(avail_out) == *old(avail_out) - n
            &&& (*old(avail_out) >= old(s).state.bit_writer.pending.bytes().len() ==> final(s).state.bit_writer.pending.bytes().len() == 0)
        }),
        final(s).produced() == old(s).produced(),
        final(s).state.bit_writer.pending.wf(),
        final(s).state.bit_writer.pending.cap() == old(s).state.bit_writer.pending.cap(),
        final(s).state.bit_writer.pending.bytes().len() == 0 ==> final(s).state.bit_writer.pending.out_pos() == 0,
        final(s).state.bit_writer.bits_valid == old(s).state.bit_writer.bits_valid,
        final(s).state.bit_writer.bit_buffer == old(s).state.bit_writer.bit_buffer,
        final(s).state.w_size == old(s).state.w_size,
        final(s).state.window_bits == old(s).state.window_bits,
        final(s).state.window == old(s).state.window,
        final(s).state.strstart == old(s).state.strstart,
        final(s).state.block_start == old(s).state.block_start,
        final(s).state.insert == old(s).state.insert,
        final(s).state.high_water == old(s).state.high_water,
        final(s).state.matches == old(s).state.matches,
        final(s).state.wrap == old(s).state.wrap,
        final(s).phase == old(s).phase,
        final(s).adler == old(s).adler,
        final(s).total_in == old(s).total_in,
        final(s).in_hist == old(s).in_hist,
        old(s).counters_ok() ==> final(s).counters_ok(),
{
    let n = s.state.bit_writer.pending.flush_into(output, avail_out);
    s.total_out = counter_add(s.total_out, n);
    proof {
        let flushed = old(s).state.bit_writer.pending.bytes().take(n as int);
        s.out_hist = Ghost(s.out_hist@ + flushed);
        assert(s.produced() =~= old(s).produced());
    }
}

/// Copies `len` window bytes starting at `start` straight to the caller's
/// output.
pub fn emit_window_range(
    s: &mut DeflateStream,
    output: &mut Vec<u8>,
    avail_out: &mut usize,
    start: usize,
    len: usize,
)
    requires
        start + len <= old(s).state.window@.len(),
        len <= *old(avail_out),
        old(s).state.bit_writer.pending.bytes().len() == 0,
        old(s).state.bit_writer.pending.wf(),
        old(output)@.len() + len <= usize::MAX,
    ensures
        ({
            let chunk = old(s).state.window@.subrange(start as int, start + len);
            &&& final(output)@ == old(output)@ + chunk
            &&& final(s).out_hist@ == old(s).out_hist@ + chunk
            &&& final(s).produced() == old(s).produced() + chunk
        }),
        *final(avail_out) == *old(avail_out) - len,
        final(s).state == old(s).state,
        final(s).phase == old(s).phase,
        final(s).adler == old(s).adler,
        final(s).total_in == old(s).total_in,
        final(s).in_hist == old(s).in_hist,
        old(s).counters_ok() ==> final(s).counters_ok(),
{
    let win_len = s.state.window.len();
    let mut i: usize = 0;
    while i < len
        invariant
            start + len <= win_len,
            s.state.window@.len() == win_len,
            i <= len,
            output@ == old(output)@ + s.state.window@.subrange(start as int, start + i),
            old(output)@.len() + len <= usize::MAX,
            s == old(s),
        decreases len - i,
    {
        output.push(s.state.window[start + i]);
        proof {
            assert(s.state.window@.subrange(start as int, start + i + 1) =~= s.state.window@
                .subrange(start as int, start + i).push(s.state.window@[start + i]));
        }
        i += 1;
    }
    *avail_out = *avail_out - len;
    s.total_out = counter_add(s.total_out, len);
    proof {
        let chunk = old(s).state.window@.subrange(start as int, start + len);
        s.out_hist = Ghost(s.out_hist@ + chunk);
        assert(s.produced() =~= old(s).produced() + chunk);
    }
}

/// Copies `len` input bytes straight to the caller's output, folding them
/// into the running checksum; the window is bypassed entirely.
pub fn read_buf_direct(
    s: &mut DeflateStream,
    input: &[u8],
    next_in: &mut usize,
    output: &mut Vec<u8>,
    avail_out: &mut usize,
    len: usize,
)
    requires
        *old(next_in) + len <= input@.len(),
        len <= *old(avail_out),
        old(s).state.bit_writer.pending.bytes().len() == 0,
        old(s).state.bit_writer.pending.wf(),
        old(output)@.len() + len <= usize::MAX,
    ensures
        ({
            let chunk = input@.subrange(*old(next_in) as int, *old(next_in) + len);
            &&& final(output)@ == old(output)@ + chunk
            &&& final(s).out_hist@ == old(s).out_hist@ + chunk
            &&& final(s).in_hist@ == old(s).in_hist@ + chunk
            &&& final(s).produced() == old(s).produced() + chunk
            &&& final(s).adler == if old(s).state.wrap == 1 {
                adler32_seq(old(s).adler, chunk)
            } else {
                old(s).adler
            }
        }),
        *final(next_in) == *old(next_in) + len,
        *final(avail_out) == *old(avail_out) - len,
        final(s).state == old(s).state,
        final(s).phase == old(s).phase,
        old(s).counters_ok() ==> final(s).counters_ok(),
{
    let ghost ni0 = *next_in;
    let mut i: usize = 0;
    while i < len
        invariant
            ni0 + len <= input@.len(),
            *next_in == ni0 + i,
            i <= len,
            output@ == old(output)@ + input@.subrange(ni0 as int, ni0 + i),
            old(output)@.len() + len <= usize::MAX,
            s.adler == if s.state.wrap == 1 {
                adler32_seq(old(s).adler, input@.subrange(ni0 as int, ni0 + i))
            } else {
                old(s).adler
            },
            s.state == old(s).state,
            s.phase == old(s).phase,
            s.total_in == old(s).total_in,
            s.total_out == old(s).total_out,
            s.in_hist == old(s).in_hist,
            s.out_hist == old(s).out_hist,
        decreases len - i,
    {
        let ghost chunk_i = input@.subrange(ni0 as int, ni0 + i);
        let ghost prev_adler = s.adler;
        let byte = input[*next_in];
        output.push(byte);
        if s.state.wrap == 1 {
            let one = [byte];
            s.adler = adler32(s.adler, Some(&one));
            proof {
                assert(one@ =~= seq![byte]);
                assert(seq![byte].drop_last() =~= Seq::<u8>::empty());
                assert(adler32_seq(prev_adler, Seq::<u8>::empty()) == prev_adler);
            }
        }
        *next_in = *next_in + 1;
        proof {
            assert(input@.subrange(ni0 as int, ni0 + i + 1) =~= chunk_i.push(byte));
            assert(chunk_i.push(byte).drop_last() =~= chunk_i);
            assert(adler32_seq(old(s).adler, chunk_i.push(byte)) == crate::adler32::adler_step(
                adler32_seq(old(s).adler, chunk_i),
                byte,
            ));
        }
        i += 1;
    }
    *avail_out = *avail_out - len;
    s.total_in = counter_add(s.total_in, len);
    s.total_out = counter_add(s.total_out, len);
    proof {
        let chunk = input@.subrange(ni0 as int, ni0 + len);
        s.in_hist = Ghost(s.in_hist@ + chunk);
        s.out_hist = Ghost(s.out_hist@ + chunk);
        assert(s.produced() =~= old(s).produced() + chunk);
    }
}

/// Copies up to `size` available input bytes into the window at `offset`,
/// folding them into the running checksum.
#[verifier::rlimit(100)]
pub fn read_buf_window(
    s: &mut DeflateStream,
    input: &[u8],
    next_in: &mut usize,
    offset: usize,
    size: usize,
) -> (len: usize)
    requires
        offset + size <= old(s).state.window@.len(),
        *old(next_in) <= input@.len(),
    ensures
        len as int == vstd::math::min(input@.len() - *old(next_in), size as int),
        ({
            let chunk = input@.subrange(*old(next_in) as int, *old(next_in) + len);
            &&& final(s).in_hist@ == old(s).in_hist@ + chunk
            &&& final(s).state.window@.subrange(offset as int, offset + len) == chunk
            &&& final(s).adler == if old(s).state.wrap == 1 {
                adler32_seq(old(s).adler, chunk)
            } else {
                old(s).adler
            }
        }),
        *final(next_in) == *old(next_in) + len,
        final(s).state.window@.len() == old(s).state.window@.len(),
        final(s).state.window@.subrange(0, offset as int) == old(s).state.window@.subrange(
            0,
            offset as int,
        ),
        final(s).state.window@.subrange(offset + len, old(s).state.window@.len() as int) == old(
            s,
        ).state.window@.subrange(offset + len, old(s).state.window@.len() as int),
        final(s).state.w_size == old(s).state.w_size,
        final(s).state.window_bits == old(s).state.window_bits,
        final(s).state.strstart == old(s).state.strstart,
        final(s).state.block_start == old(s).state.block_start,
        final(s).state.insert == old(s).state.insert,
        final(s).state.high_water == old(s).state.high_water,
        final(s).state.matches == old(s).state.matches,
        final(s).state.wrap == old(s).state.wrap,
        final(s).state.bit_writer == old(s).state.bit_writer,
        final(s).phase == old(s).phase,
        final(s).out_hist == old(s).out_hist,
        final(s).total_out == old(s).total_out,
        final(s).produced() == old(s).produced(),
        old(s).counters_ok() ==> final(s).counters_ok(),
{
    let avail = input.len() - *next_in;
    let len = if avail < size {
        avail
    } else {
        size
    };
    let ghost ni0 = *next_in;
    let window_len = s.state.window.len();
    let mut i: usize = 0;
    while i < len
        invariant
            ni0 + len <= input@.len(),
            offset + len <= window_len,
            s.state.window@.len() == window_len,
            window_len == old(s).state.window@.len(),
            *next_in == ni0 + i,
            i <= len,
            s.state.window@.subrange(0, offset as int) == old(s).state.window@.subrange(
                0,
                offset as int,
            ),
            s.state.window@.subrange(offset as int, offset + i) == input@.subrange(
                ni0 as int,
                ni0 + i,
            ),
            s.state.window@.subrange(offset + len, window_len as int) == old(
                s,
            ).state.window@.subrange(offset + len, window_len as int),
            s.adler == if s.state.wrap == 1 {
                adler32_seq(old(s).adler, input@.subrange(ni0 as int, ni0 + i))
            } else {
                old(s).adler
            },
            s.state.w_size == old(s).state.w_size,
            s.state.window_bits == old(s).state.window_bits,
            s.state.strstart == old(s).state.strstart,
            s.state.block_start == old(s).state.block_start,
            s.state.insert == old(s).state.insert,
            s.state.high_water == old(s).state.high_water,
            s.state.matches == old(s).state.matches,
            s.state.wrap == old(s).state.wrap,
            s.state.bit_writer == old(s).state.bit_writer,
            s.phase == old(s).phase,
            s.total_in == old(s).total_in,
            s.total_out == old(s).total_out,
            s.in_hist == old(s).in_hist,
            s.out_hist == old(s).out_hist,
        decreases len - i,
    {
        let ghost chunk_i = input@.subrange(ni0 as int, ni0 + i);
        let ghost prev = s.state.window@;
        let ghost prev_adler = s.adler;
        let byte = input[*next_in];
        s.state.window.set(offset + i, byte);
        if s.state.wrap == 1 {
            let one = [byte];
            s.adler = adler32(s.adler, Some(&one));
            proof {
                assert(one@ =~= seq![byte]);
                assert(seq![byte].drop_last() =~= Seq::<u8>::empty());
                assert(adler32_seq(prev_adler, Seq::<u8>::empty()) == prev_adler);
            }
        }
        *next_in = *next_in + 1;
        proof {
            assert(input@.subrange(ni0 as int, ni0 + i + 1) =~= chunk_i.push(byte));
            assert(chunk_i.push(byte).drop_last() =~= chunk_i);
            assert(adler32_seq(old(s).adler, chunk_i.push(byte)) == crate::adler32::adler_step(
                adler32_seq(old(s).adler, chunk_i),
                byte,
            ));
            assert(s.state.window@.subrange(0, offset as int) =~= prev.subrange(0, offset as int));
            assert(s.state.window@.subrange(offset as int, offset + i + 1) =~= prev.subrange(
                offset as int,
                offset + i,
            ).push(byte));
            assert(s.state.window@.subrange(offset + len, window_len as int) =~= prev.subrange(
                offset + len,
                window_len as int,
            ));
        }
        i += 1;
    }
    s.total_in = counter_add(s.total_in, len);
    proof {
        let chunk = input@.subrange(ni0 as int, ni0 + len);
        s.in_hist = Ghost(s.in_hist@ + chunk);
        assert(s.produced() =~= old(s).produced());
    }
    len
}

} // verus!

verus! {

/// Appending does not disturb a prefix shorter than the original.
pub proof fn lemma_take_append(a: Seq<u8>, x: Seq<u8>, k: int)
    requires
        0 <= k <= a.len(),
    ensures
        (a + x).take(k) == a.take(k),
{
    assert((a + x).take(k) =~= a.take(k));
}

/// Dropping a prefix of the original commutes with appending.
pub proof fn lemma_skip_append(a: Seq<u8>, x: Seq<u8>, k: int)
    requires
        0 <= k <= a.len(),
    ensures
        (a + x).skip(k) == a.skip(k) + x,
{
    assert((a + x).skip(k) =~= a.skip(k) + x);
}

/// Two successive drops collapse into one.
pub proof fn lemma_skip_skip(a: Seq<u8>, k: int, m: int)
    requires
        0 <= k,
        0 <= m,
        k + m <= a.len(),
    ensures
        a.skip(k).skip(m) == a.skip(k + m),
{
    assert(a.skip(k).skip(m) =~= a.skip(k + m));
}

/// A prefix followed by the next piece of the sequence is a longer prefix.
pub proof fn lemma_take_extend(a: Seq<u8>, k: int, m: int)
    requires
        0 <= k,
        0 <= m,
        k + m <= a.len(),
    ensures
        a.take(k) + a.skip(k).take(m) == a.take(k + m),
{
    assert(a.take(k) + a.skip(k).take(m) =~= a.take(k + m));
}

/// The whole sequence is its own full prefix, and dropping it all leaves
/// nothing.
pub proof fn lemma_take_skip_all(a: Seq<u8>)
    ensures
        a.take(a.len() as int) == a,
        a.skip(a.len() as int) == Seq::<u8>::empty(),
{
    assert(a.take(a.len() as int) =~= a);
    assert(a.skip(a.len() as int) =~= Seq::<u8>::empty());
}

/// Splitting a known window region: its first `k` bytes and the rest match
/// the same split of the sequence it equals.
pub proof fn lemma_tail_prefix(w: Seq<u8>, bs: int, ss: int, t: Seq<u8>, k: int)
    requires
        0 <= bs <= ss <= w.len(),
        w.subrange(bs, ss) == t,
        0 <= k <= ss - bs,
    ensures
        w.subrange(bs, bs + k) == t.take(k),
        w.subrange(bs + k, ss) == t.skip(k),
{
    assert(w.subrange(bs, bs + k) =~= w.subrange(bs, ss).take(k));
    assert(w.subrange(bs + k, ss) =~= w.subrange(bs, ss).skip(k));
}

/// Concatenating two adjacent window regions.
pub proof fn lemma_subrange_split(w: Seq<u8>, a: int, b: int, c: int)
    requires
        0 <= a <= b <= c <= w.len(),
    ensures
        w.subrange(a, c) == w.subrange(a, b) + w.subrange(b, c),
{
    assert(w.subrange(a, c) =~= w.subrange(a, b) + w.subrange(b, c));
}

/// A window region inside an unchanged prefix is unchanged.
pub proof fn lemma_subrange_of_prefix(w1: Seq<u8>, w2: Seq<u8>, a: int, b: int, p: int)
    requires
        0 <= a <= b <= p,
        p <= w1.len(),
        p <= w2.len(),
        w2.subrange(0, p) == w1.subrange(0, p),
    ensures
        w2.subrange(a, b) == w1.subrange(a, b),
{
    assert(w2.subrange(a, b) =~= w2.subrange(0, p).subrange(a, b));
    assert(w1.subrange(a, b) =~= w1.subrange(0, p).subrange(a, b));
}

} // verus!
