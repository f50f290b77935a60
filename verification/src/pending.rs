//! The pending output buffer: a fixed-capacity staging area for encoded
//! bytes, together with the bit accumulator that collects sub-byte writes
//! until whole bytes can be moved into it.

use vstd::prelude::*;

verus! {

/// Fixed-capacity byte buffer holding encoded output that has not yet been
/// copied to the caller's output region.
pub struct Pending {
    buf: Vec<u8>,
    /// Index of the first pending byte.
    out: usize,
    /// Number of pending bytes starting at `out`.
    count: usize,
}

impl Pending {
    /// The staged bytes, oldest first.
    pub closed spec fn bytes(&self) -> Seq<u8> {
        self.buf@.subrange(self.out as int, self.out + self.count)
    }

    /// Total capacity of the buffer.
    pub closed spec fn cap(&self) -> int {
        self.buf@.len() as int
    }

    pub closed spec fn wf(&self) -> bool {
        &&& self.out + self.count <= self.buf@.len()
        &&& (self.count == 0 ==> self.out == 0)
    }

    pub fn new(capacity: usize) -> (r: Pending)
        ensures
            r.wf(),
            r.bytes() == Seq::<u8>::empty(),
            r.cap() == capacity,
    {
        let mut buf: Vec<u8> = Vec::new();
        let mut i: usize = 0;
        while i < capacity
            invariant
                buf@.len() == i,
                i <= capacity,
            decreases capacity - i,
        {
            buf.push(0);
            i += 1;
        }
        let r = Pending { buf, out: 0, count: 0 };
        proof {
            assert(r.bytes() =~= Seq::<u8>::empty());
        }
        r
    }

    pub fn capacity(&self) -> (r: usize)
        ensures
            r == self.cap(),
    {
        self.buf.len()
    }

    /// Number of staged bytes.
    pub fn len(&self) -> (r: usize)
        requires
            self.wf(),
        ensures
            r == self.bytes().len(),
    {
        self.count
    }

    /// Room left for `extend` before the buffer is full.
    pub fn remaining(&self) -> (r: usize)
        requires
            self.wf(),
        ensures
            r == self.cap() - self.out_pos() - self.bytes().len(),
    {
        self.buf.len() - (self.out + self.count)
    }

    /// Position of the first staged byte inside the buffer; zero whenever the
    /// buffer has been fully drained.
    pub closed spec fn out_pos(&self) -> int {
        self.out as int
    }

    /// Appends `data` to the staged bytes.
    pub fn extend(&mut self, data: &[u8])
        requires
            old(self).wf(),
            data@.len() <= old(self).cap() - old(self).out_pos() - old(self).bytes().len(),
        ensures
            final(self).wf(),
            final(self).bytes() == old(self).bytes() + data@,
            final(self).cap() == old(self).cap(),
            final(self).out_pos() == old(self).out_pos(),
    {
        let cap = self.buf.len();
        let start = self.out + self.count;
        let mut i: usize = 0;
        while i < data.len()
            invariant
                self.buf@.len() == cap,
                start + data@.len() <= cap,
                i <= data@.len(),
                start == self.out + self.count,
                self.out == old(self).out,
                self.count == old(self).count,
                self.buf@.subrange(0, self.out as int) == old(self).buf@.subrange(
                    0,
                    self.out as int,
                ),
                self.buf@.subrange(self.out as int, start + i) == old(self).bytes()
                    + data@.take(i as int),
            decreases data@.len() - i,
        {
            let ghost prev = self.buf@;
            self.buf.set(start + i, data[i]);
            proof {
                assert(self.buf@.subrange(0, self.out as int) =~= prev.subrange(
                    0,
                    self.out as int,
                ));
                assert(self.buf@.subrange(self.out as int, start + i) =~= prev.subrange(
                    self.out as int,
                    start + i,
                ));
                assert(self.buf@.subrange(self.out as int, start + i + 1) =~= self.buf@.subrange(
                    self.out as int,
                    start + i,
                ).push(data@[i as int]));
                assert(old(self).bytes() + data@.take(i + 1) =~= (old(self).bytes() + data@.take(
                    i as int,
                )).push(data@[i as int]));
            }
            i += 1;
        }
        self.count = self.count + data.len();
        proof {
            assert(data@.take(data@.len() as int) =~= data@);
            assert(self.bytes() == self.buf@.subrange(self.out as int, start + data@.len()));
        }
    }

    /// Moves the write cursor back `n` bytes, discarding the most recent
    /// staged bytes; used to patch a placeholder header.
    pub fn rewind(&mut self, n: usize)
        requires
            old(self).wf(),
            n <= old(self).bytes().len(),
        ensures
            final(self).wf(),
            final(self).bytes() == old(self).bytes().take(old(self).bytes().len() - n),
            final(self).cap() == old(self).cap(),
            final(self).out_pos() == if old(self).bytes().len() == n {
                0
            } else {
                old(self).out_pos()
            },
    {
        self.count = self.count - n;
        if self.count == 0 {
            self.out = 0;
        }
        proof {
            assert(self.bytes() =~= old(self).bytes().take(old(self).bytes().len() - n));
        }
    }

    /// Copies as many staged bytes as fit into the caller's output, appending
    /// to `output` and drawing down `avail_out`. Partial flushes are normal;
    /// the rest stays staged.
    pub fn flush_into(&mut self, output: &mut Vec<u8>, avail_out: &mut usize) -> (n: usize)
        requires
            old(self).wf(),
            old(output)@.len() + *old(avail_out) <= usize::MAX,
        ensures
            final(self).wf(),
            n == vstd::math::min(old(self).bytes().len() as int, *old(avail_out) as int),
            final(output)@ == old(output)@ + old(self).bytes().take(n as int),
            final(self).bytes() == old(self).bytes().skip(n as int),
            *final(avail_out) == *old(avail_out) - n,
            final(self).cap() == old(self).cap(),
            final(self).bytes().len() == 0 ==> final(self).out_pos() == 0,
            final(self).out_pos() <= old(self).out_pos() + n,
    {
        let cap = self.buf.len();
        let n = if self.count < *avail_out {
            self.count
        } else {
            *avail_out
        };
        let mut i: usize = 0;
        while i < n
            invariant
                n <= self.count,
                self.out + self.count <= cap,
                self.buf@.len() == cap,
                i <= n,
                output@ == old(output)@ + self.buf@.subrange(self.out as int, self.out + i),
                n <= *old(avail_out),
                old(output)@.len() + *old(avail_out) <= usize::MAX,
                self == old(self),
            decreases n - i,
        {
            output.push(self.buf[self.out + i]);
            proof {
                assert(self.buf@.subrange(self.out as int, self.out + i + 1)
                    =~= self.buf@.subrange(self.out as int, self.out + i).push(
                    self.buf@[self.out + i],
                ));
            }
            i += 1;
        }
        self.out = self.out + n;
        self.count = self.count - n;
        if self.count == 0 {
            self.out = 0;
        }
        *avail_out = *avail_out - n;
        proof {
            assert(output@ =~= old(output)@ + old(self).bytes().take(n as int));
            assert(self.bytes() =~= old(self).bytes().skip(n as int));
        }
        n
    }
}

impl Pending {
    /// A well-formed drained buffer has its cursor at the start.
    pub proof fn lemma_empty_out_pos(&self)
        requires
            self.wf(),
            self.bytes().len() == 0,
        ensures
            self.out_pos() == 0,
    {
    }
}

/// The bit-level accumulator in front of the pending buffer: up to a few
/// leftover bits that do not yet form a whole byte.
pub struct BitWriter {
    pub pending: Pending,
    /// Bits not yet written out, least significant first.
    pub bit_buffer: u64,
    /// Number of valid bits in `bit_buffer`.
    pub bits_valid: u8,
}

impl BitWriter {
    pub open spec fn wf(&self) -> bool {
        &&& self.pending.wf()
        &&& self.bits_valid < 8
        &&& self.bit_buffer < (1u64 << (self.bits_valid as u64))
    }

    pub fn new(capacity: usize) -> (r: BitWriter)
        ensures
            r.wf(),
            r.pending.bytes() == Seq::<u8>::empty(),
            r.pending.cap() == capacity,
            r.bits_valid == 0,
    {
        let r = BitWriter { pending: Pending::new(capacity), bit_buffer: 0, bits_valid: 0 };
        assert(0u64 < (1u64 << 0u64)) by (bit_vector);
        r
    }

    /// Appends `len` bits of `val` (least significant first) to the
    /// accumulator without touching the pending bytes.
    pub fn send_bits(&mut self, val: u64, len: u8)
        requires
            old(self).wf(),
            len <= 3,
            old(self).bits_valid + len < 8,
            val < (1u64 << (len as u64)),
        ensures
            final(self).wf(),
            final(self).pending == old(self).pending,
            final(self).bits_valid == old(self).bits_valid + len,
            final(self).bit_buffer == old(self).bit_buffer + val * (1u64 << (old(
                self,
            ).bits_valid as u64)),
    {
        let shifted = val << (self.bits_valid as u64);
        let b0 = self.bit_buffer;
        let v0 = self.bits_valid;
        assert(shifted == val * (1u64 << (v0 as u64)) && (b0 | shifted) == b0 + val * (1u64
            << (v0 as u64)) && b0 + val * (1u64 << (v0 as u64)) < (1u64 << ((v0 + len) as u64)))
            by (bit_vector)
            requires
                shifted == val << (v0 as u64),
                val < (1u64 << (len as u64)),
                b0 < (1u64 << (v0 as u64)),
                len <= 3,
                v0 + len < 8,
        ;
        self.bit_buffer = self.bit_buffer | shifted;
        self.bits_valid = self.bits_valid + len;
    }

    /// Flushes the accumulator to the pending buffer, padding with zero bits
    /// up to the next byte boundary. With fewer than eight valid bits this
    /// writes at most one byte.
    pub fn emit_align(&mut self)
        requires
            old(self).wf(),
            old(self).pending.cap() - old(self).pending.out_pos() - old(
                self,
            ).pending.bytes().len() >= 1,
        ensures
            final(self).wf(),
            final(self).bits_valid == 0,
            final(self).bit_buffer == 0,
            final(self).pending.cap() == old(self).pending.cap(),
            final(self).pending.out_pos() == old(self).pending.out_pos(),
            final(self).pending.bytes() == old(self).pending.bytes() + align_bytes(
                old(self).bit_buffer,
                old(self).bits_valid,
            ),
    {
        if self.bits_valid > 0 {
            let byte = self.bit_buffer as u8;
            let b0 = self.bit_buffer;
            let v0 = self.bits_valid;
            assert(byte == b0) by (bit_vector)
                requires
                    byte == b0 as u8,
                    b0 < (1u64 << (v0 as u64)),
                    v0 < 8,
            ;
            let one = [byte];
            self.pending.extend(&one);
            proof {
                assert(one@ =~= align_bytes(old(self).bit_buffer, old(self).bits_valid));
            }
        } else {
            proof {
                assert(self.pending.bytes() =~= old(self).pending.bytes() + align_bytes(
                    old(self).bit_buffer,
                    old(self).bits_valid,
                ));
            }
        }
        self.bit_buffer = 0;
        self.bits_valid = 0;
        assert(0u64 < (1u64 << 0u64)) by (bit_vector);
    }
}

/// The bytes that aligning the accumulator appends: nothing when it is
/// empty, otherwise one byte holding the leftover bits padded with zeros.
pub open spec fn align_bytes(bit_buffer: u64, bits_valid: u8) -> Seq<u8>
    recommends
        bits_valid < 8,
        bit_buffer < (1u64 << (bits_valid as u64)),
{
    if bits_valid == 0 {
        Seq::<u8>::empty()
    } else {
        seq![bit_buffer as u8]
    }
}

} // verus!
