//! A decoder for streams of stored blocks: a byte-at-a-time state machine
//! that parses block headers, validates the doubled length field, and
//! replays the verbatim payloads.
//!
//! Because the machine consumes exactly one byte per step, decoding is
//! resumable at every byte boundary, and feeding it a stream in fragments
//! of any size yields the same result as feeding it whole.

use vstd::prelude::*;

verus! {

use crate::format::{stored_frame, stored_header_byte, MAX_STORED};

/// The parsing phase of the stored-block decoder.
pub enum InfMode {
    /// Expecting the header byte of the next block.
    AtBlock,
    /// Expecting the low byte of the length field.
    LenLo { last: bool },
    /// Expecting the high byte of the length field.
    LenHi { last: bool, lo: u8 },
    /// Expecting the low byte of the inverted length field.
    NlenLo { last: bool, len: u16 },
    /// Expecting the high byte of the inverted length field.
    NlenHi { last: bool, len: u16 },
    /// Copying payload bytes; `remaining` is always at least one.
    Payload { last: bool, remaining: u16 },
    /// The final block has been fully consumed.
    Done,
    /// The input was not a valid stream of stored blocks.
    Failed,
}

/// A mode the decoder can actually be in: a payload phase always has at
/// least one byte left to copy.
pub open spec fn mode_wf(mode: InfMode) -> bool {
    match mode {
        InfMode::Payload { last, remaining } => remaining >= 1,
        _ => true,
    }
}

/// One transition of the decoder: the next mode and output after one byte.
pub open spec fn inf_step(mode: InfMode, out: Seq<u8>, byte: u8) -> (InfMode, Seq<u8>) {
    match mode {
        InfMode::AtBlock => {
            if byte & 6 != 0 {
                (InfMode::Failed, out)
            } else {
                (InfMode::LenLo { last: byte & 1 == 1 }, out)
            }
        },
        InfMode::LenLo { last } => (InfMode::LenHi { last, lo: byte }, out),
        InfMode::LenHi { last, lo } => (
            InfMode::NlenLo { last, len: (lo as u16) | ((byte as u16) << 8) },
            out,
        ),
        InfMode::NlenLo { last, len } => {
            if byte == ((!len) & 0xff) as u8 {
                (InfMode::NlenHi { last, len }, out)
            } else {
                (InfMode::Failed, out)
            }
        },
        InfMode::NlenHi { last, len } => {
            if byte == ((!len) >> 8) as u8 {
                if len == 0 {
                    if last {
                        (InfMode::Done, out)
                    } else {
                        (InfMode::AtBlock, out)
                    }
                } else {
                    (InfMode::Payload { last, remaining: len }, out)
                }
            } else {
                (InfMode::Failed, out)
            }
        },
        InfMode::Payload { last, remaining } => {
            let grown = out.push(byte);
            if remaining == 1 {
                if last {
                    (InfMode::Done, grown)
                } else {
                    (InfMode::AtBlock, grown)
                }
            } else {
                (InfMode::Payload { last, remaining: (remaining - 1) as u16 }, grown)
            }
        },
        InfMode::Done => (InfMode::Failed, out),
        InfMode::Failed => (InfMode::Failed, out),
    }
}

/// The decoder run over a whole byte sequence, one step per byte.
pub open spec fn inf_fold(mode: InfMode, out: Seq<u8>, data: Seq<u8>) -> (InfMode, Seq<u8>)
    decreases data.len(),
{
    if data.len() == 0 {
        (mode, out)
    } else {
        let stepped = inf_step(mode, out, data.first());
        inf_fold(stepped.0, stepped.1, data.drop_first())
    }
}

/// Resumability: decoding a stream split at any point equals decoding the
/// two parts in turn from the intermediate state, so feeding the decoder
/// byte by byte, or in fragments of any size, decodes the same output as
/// feeding the whole buffer at once.
pub proof fn lemma_inf_fold_append(mode: InfMode, out: Seq<u8>, a: Seq<u8>, b: Seq<u8>)
    ensures
        inf_fold(mode, out, a + b) == inf_fold(
            inf_fold(mode, out, a).0,
            inf_fold(mode, out, a).1,
            b,
        ),
    decreases a.len(),
{
    if a.len() == 0 {
        assert(a + b =~= b);
    } else {
        assert((a + b).first() == a.first());
        assert((a + b).drop_first() =~= a.drop_first() + b);
        let stepped = inf_step(mode, out, a.first());
        lemma_inf_fold_append(stepped.0, stepped.1, a.drop_first(), b);
    }
}

/// Feeding the payload of a block appends it to the output verbatim and
/// returns to the block boundary, or finishes on the final block.
proof fn lemma_inf_fold_payload(last: bool, out: Seq<u8>, p: Seq<u8>)
    requires
        1 <= p.len() <= 0xffff,
    ensures
        inf_fold(InfMode::Payload { last, remaining: p.len() as u16 }, out, p) == (
            if last {
                InfMode::Done
            } else {
                InfMode::AtBlock
            },
            out + p,
        ),
    decreases p.len(),
{
    let first = p.first();
    let grown = out.push(first);
    let n = p.len() as u16;
    let stepped = inf_step(InfMode::Payload { last, remaining: n }, out, first);
    assert(inf_fold(InfMode::Payload { last, remaining: n }, out, p) == inf_fold(
        stepped.0,
        stepped.1,
        p.drop_first(),
    ));
    if p.len() == 1 {
        assert(p.drop_first() =~= Seq::<u8>::empty());
        assert(inf_fold(stepped.0, stepped.1, Seq::<u8>::empty()) == stepped);
        assert(out + p =~= grown);
    } else {
        assert(stepped == (InfMode::Payload { last, remaining: (n - 1) as u16 }, grown));
        assert(p.drop_first().len() as u16 == (n - 1) as u16);
        lemma_inf_fold_payload(last, grown, p.drop_first());
        assert(grown + p.drop_first() =~= out + p);
    }
}

/// Round trip of one block: decoding a well-formed stored frame from a
/// block boundary appends exactly its payload to the output, and ends in
/// `Done` when the frame was marked final, at the next block boundary
/// otherwise.
pub proof fn lemma_feed_frame(last: bool, out: Seq<u8>, p: Seq<u8>)
    ensures
        p.len() <= MAX_STORED ==> inf_fold(InfMode::AtBlock, out, stored_frame(last, p)) == (
            if last {
                InfMode::Done
            } else {
                InfMode::AtBlock
            },
            out + p,
        ),
{
    if p.len() <= MAX_STORED {
        let len = p.len() as u16;
        let h = stored_header_byte(last);
        let b1 = (len & 0xff) as u8;
        let b2 = (len >> 8) as u8;
        let b3 = ((!len) & 0xff) as u8;
        let b4 = ((!len) >> 8) as u8;
        let prefix = seq![h, b1, b2, b3, b4];
        assert(stored_frame(last, p) =~= prefix + p);
        lemma_inf_fold_append(InfMode::AtBlock, out, prefix, p);
        // The header byte passes the block-type check and carries `last`.
        assert(0u8 & 6 == 0 && 1u8 & 6 == 0 && (0u8 & 1 == 1) == false && (1u8 & 1 == 1) == true)
            by (bit_vector);
        // The two length bytes reassemble to the length they encode.
        assert(((b1 as u16) | ((b2 as u16) << 8)) == len) by (bit_vector)
            requires
                b1 == (len & 0xff) as u8,
                b2 == (len >> 8) as u8,
        ;
        // Walk the five header bytes one step at a time.
        assert(prefix.first() == h);
        assert(prefix.drop_first() =~= seq![b1, b2, b3, b4]);
        assert(seq![b1, b2, b3, b4].first() == b1);
        assert(seq![b1, b2, b3, b4].drop_first() =~= seq![b2, b3, b4]);
        assert(seq![b2, b3, b4].first() == b2);
        assert(seq![b2, b3, b4].drop_first() =~= seq![b3, b4]);
        assert(seq![b3, b4].first() == b3);
        assert(seq![b3, b4].drop_first() =~= seq![b4]);
        assert(seq![b4].first() == b4);
        assert(seq![b4].drop_first() =~= Seq::<u8>::empty());
        let m1 = inf_step(InfMode::AtBlock, out, h);
        assert(inf_fold(InfMode::AtBlock, out, prefix) == inf_fold(
            m1.0,
            m1.1,
            seq![b1, b2, b3, b4],
        ));
        let m2 = inf_step(m1.0, m1.1, b1);
        assert(inf_fold(m1.0, m1.1, seq![b1, b2, b3, b4]) == inf_fold(
            m2.0,
            m2.1,
            seq![b2, b3, b4],
        ));
        let m3 = inf_step(m2.0, m2.1, b2);
        assert(inf_fold(m2.0, m2.1, seq![b2, b3, b4]) == inf_fold(m3.0, m3.1, seq![b3, b4]));
        let m4 = inf_step(m3.0, m3.1, b3);
        assert(inf_fold(m3.0, m3.1, seq![b3, b4]) == inf_fold(m4.0, m4.1, seq![b4]));
        let m5 = inf_step(m4.0, m4.1, b4);
        assert(inf_fold(m4.0, m4.1, seq![b4]) == inf_fold(m5.0, m5.1, Seq::<u8>::empty()));
        assert(inf_fold(m5.0, m5.1, Seq::<u8>::empty()) == m5);
        let after_header = inf_fold(InfMode::AtBlock, out, prefix);
        assert(after_header == if len == 0 {
            (
                if last {
                    InfMode::Done
                } else {
                    InfMode::AtBlock
                },
                out,
            )
        } else {
            (InfMode::Payload { last, remaining: len }, out)
        });
        if len == 0 {
            assert(p =~= Seq::<u8>::empty());
            assert(out + p =~= out);
        } else {
            lemma_inf_fold_payload(last, out, p);
        }
    }
}

/// The decoder as an executable value: the current phase and the bytes
/// decoded so far.
pub struct StoredInflate {
    pub mode: InfMode,
    pub out: Vec<u8>,
}

impl StoredInflate {
    /// A fresh decoder at a block boundary with no output.
    pub fn new() -> (r: StoredInflate)
        ensures
            r.mode == InfMode::AtBlock,
            r.out@ == Seq::<u8>::empty(),
    {
        let r = StoredInflate { mode: InfMode::AtBlock, out: Vec::new() };
        proof {
            assert(r.out@ =~= Seq::<u8>::empty());
        }
        r
    }

    /// Consumes one byte of the compressed stream.
    pub fn push_byte(&mut self, byte: u8)
        requires
            mode_wf(old(self).mode),
        ensures
            final(self).mode == inf_step(old(self).mode, old(self).out@, byte).0,
            final(self).out@ == inf_step(old(self).mode, old(self).out@, byte).1,
            mode_wf(final(self).mode),
    {
        match self.mode {
            InfMode::AtBlock => {
                if byte & 6 != 0 {
                    self.mode = InfMode::Failed;
                } else {
                    self.mode = InfMode::LenLo { last: byte & 1 == 1 };
                }
            },
            InfMode::LenLo { last } => {
                self.mode = InfMode::LenHi { last, lo: byte };
            },
            InfMode::LenHi { last, lo } => {
                self.mode = InfMode::NlenLo { last, len: (lo as u16) | ((byte as u16) << 8) };
            },
            InfMode::NlenLo { last, len } => {
                if byte == ((!len) & 0xff) as u8 {
                    self.mode = InfMode::NlenHi { last, len };
                } else {
                    self.mode = InfMode::Failed;
                }
            },
            InfMode::NlenHi { last, len } => {
                if byte == ((!len) >> 8) as u8 {
                    if len == 0 {
                        if last {
                            self.mode = InfMode::Done;
                        } else {
                            self.mode = InfMode::AtBlock;
                        }
                    } else {
                        self.mode = InfMode::Payload { last, remaining: len };
                    }
                } else {
                    self.mode = InfMode::Failed;
                }
            },
            InfMode::Payload { last, remaining } => {
                self.out.push(byte);
                if remaining == 1 {
                    if last {
                        self.mode = InfMode::Done;
                    } else {
                        self.mode = InfMode::AtBlock;
                    }
                } else {
                    self.mode = InfMode::Payload { last, remaining: remaining - 1 };
                }
            },
            InfMode::Done => {
                self.mode = InfMode::Failed;
            },
            InfMode::Failed => {},
        }
    }

    /// Consumes a fragment of the compressed stream; by resumability the
    /// result does not depend on how the stream is fragmented.
    pub fn feed(&mut self, data: &[u8])
        requires
            mode_wf(old(self).mode),
        ensures
            final(self).mode == inf_fold(old(self).mode, old(self).out@, data@).0,
            final(self).out@ == inf_fold(old(self).mode, old(self).out@, data@).1,
            mode_wf(final(self).mode),
    {
        let mut i: usize = 0;
        while i < data.len()
            invariant
                i <= data@.len(),
                mode_wf(self.mode),
                self.mode == inf_fold(old(self).mode, old(self).out@, data@.take(i as int)).0,
                self.out@ == inf_fold(old(self).mode, old(self).out@, data@.take(i as int)).1,
            decreases data@.len() - i,
        {
            let ghost before = data@.take(i as int);
            let byte = data[i];
            self.push_byte(byte);
            proof {
                assert(data@.take(i + 1) =~= before + seq![byte]);
                lemma_inf_fold_append(old(self).mode, old(self).out@, before, seq![byte]);
                let mid = inf_fold(old(self).mode, old(self).out@, before);
                let stepped = inf_step(mid.0, mid.1, byte);
                assert(seq![byte].first() == byte);
                assert(seq![byte].drop_first() =~= Seq::<u8>::empty());
                assert(inf_fold(stepped.0, stepped.1, Seq::<u8>::empty()) == stepped);
                assert(inf_fold(mid.0, mid.1, seq![byte]) == stepped);
            }
            i += 1;
        }
        proof {
            assert(data@.take(data@.len() as int) =~= data@);
        }
    }
}

} // verus!
