//! The Adler-32 checksum: a running update over byte sequences and the
//! combination of two checksums into the checksum of the concatenation.

use vstd::prelude::*;
use vstd::arithmetic::div_mod::{
    lemma_add_mod_noop, lemma_mod_self_0, lemma_mod_twice, lemma_mul_mod_noop_general,
    lemma_small_mod,
};

verus! {

use crate::ADLER_BASE;

/// The low 16 bits of an accumulator, as a mathematical integer.
pub open spec fn acc_lo(acc: u32) -> int {
    acc as int % 0x10000
}

/// The high 16 bits of an accumulator, as a mathematical integer.
pub open spec fn acc_hi(acc: u32) -> int {
    acc as int / 0x10000
}

/// One step of the Adler-32 recurrence: fold one byte into the accumulator.
pub open spec fn adler_step(acc: u32, byte: u8) -> u32 {
    let lo = (acc_lo(acc) + byte) % (ADLER_BASE as int);
    let hi = (acc_hi(acc) + lo) % (ADLER_BASE as int);
    (hi * 0x10000 + lo) as u32
}

/// The Adler-32 checksum of `data` starting from accumulator `acc`.
/// The empty sequence leaves the accumulator unchanged; the initial
/// accumulator of the algorithm is `1`.
pub open spec fn adler32_seq(acc: u32, data: Seq<u8>) -> u32
    decreases data.len(),
{
    if data.len() == 0 {
        acc
    } else {
        adler_step(adler32_seq(acc, data.drop_last()), data.last())
    }
}

/// Sum of the bytes of `data`.
pub open spec fn byte_sum(data: Seq<u8>) -> int
    decreases data.len(),
{
    if data.len() == 0 {
        0
    } else {
        byte_sum(data.drop_last()) + data.last()
    }
}

/// Sum over all prefixes of `data` of their byte sums; the second-order sum
/// accumulated by the high half of the checksum.
pub open spec fn weighted_sum(data: Seq<u8>) -> int
    decreases data.len(),
{
    if data.len() == 0 {
        0
    } else {
        weighted_sum(data.drop_last()) + byte_sum(data)
    }
}

/// The combination formula: from the checksums of two sequences and the
/// length of the second, the checksum of their concatenation.
pub open spec fn adler_combine_spec(adler1: u32, adler2: u32, len2: int) -> u32 {
    let base = ADLER_BASE as int;
    let rem = len2 % base;
    let lo = (acc_lo(adler1) + acc_lo(adler2) + base - 1) % base;
    let hi = (rem * acc_lo(adler1) + acc_hi(adler1) + acc_hi(adler2) + base - rem) % base;
    (hi * 0x10000 + lo) as u32
}

/// Computes the Adler-32 checksum of `data` starting from `adler`.
///
/// Mirrors the classic entry point: an absent buffer returns the initial
/// accumulator value `1`, whatever `adler` holds.
pub fn adler32(adler: u32, buf: Option<&[u8]>) -> (r: u32)
    ensures
        r == match buf {
            Some(data) => adler32_seq(adler, data@),
            None => 1u32,
        },
{
    let data = match buf {
        Some(data) => data,
        None => {
            return 1;
        },
    };
    let mut lo: u32 = adler & 0xffff;
    let mut hi: u32 = (adler >> 16) & 0xffff;
    assert(lo == acc_lo(adler) && hi == acc_hi(adler) && lo <= 0xffff && hi <= 0xffff)
        by (bit_vector)
        requires
            lo == adler & 0xffff && hi == (adler >> 16) & 0xffff,
    ;
    let mut i: usize = 0;
    while i < data.len()
        invariant
            i <= data@.len(),
            lo == acc_lo(adler32_seq(adler, data@.take(i as int))),
            hi == acc_hi(adler32_seq(adler, data@.take(i as int))),
            lo <= 0xffff,
            hi <= 0xffff,
        decreases data@.len() - i,
    {
        let ghost prev = adler32_seq(adler, data@.take(i as int));
        let byte = data[i];
        lo = (lo + byte as u32) % ADLER_BASE;
        hi = (hi + lo) % ADLER_BASE;
        proof {
            let stepped = adler_step(prev, byte);
            assert(data@.take(i + 1).drop_last() =~= data@.take(i as int));
            assert(data@.take(i + 1).last() == byte);
            assert(adler32_seq(adler, data@.take(i + 1)) == stepped);
            lemma_pack_unpack(acc_hi(stepped) as u32, acc_lo(stepped) as u32);
            assert(hi * 0x10000 + lo <= u32::MAX) by (nonlinear_arith)
                requires
                    hi < 65521 && lo < 65521,
            ;
        }
        i += 1;
    }
    proof {
        assert(data@.take(data@.len() as int) =~= data@);
    }
    let r = (hi << 16) | lo;
    assert(r == hi * 0x10000 + lo) by (bit_vector)
        requires
            r == (hi << 16) | lo && lo <= 0xffff && hi <= 0xffff,
    ;
    proof {
        let acc = adler32_seq(adler, data@);
        lemma_pack_unpack(acc_hi(acc) as u32, acc_lo(acc) as u32);
    }
    r
}

/// Splitting an accumulator into halves and repacking them is the identity,
/// and packing halves below 2^16 inverts the split.
proof fn lemma_pack_unpack(hi: u32, lo: u32)
    requires
        hi <= 0xffff,
        lo <= 0xffff,
    ensures
        acc_lo((hi * 0x10000 + lo) as u32) == lo,
        acc_hi((hi * 0x10000 + lo) as u32) == hi,
        acc_hi(lo) == 0,
{
    assert(hi * 0x10000 + lo <= u32::MAX) by (nonlinear_arith)
        requires
            hi <= 0xffff && lo <= 0xffff,
    ;
    let packed = (hi * 0x10000 + lo) as u32;
    assert(packed as int == hi * 0x10000 + lo);
    assert((hi * 0x10000 + lo) % 0x10000 == lo && (hi * 0x10000 + lo) / 0x10000 == hi)
        by (nonlinear_arith)
        requires
            hi >= 0 && 0 <= lo < 0x10000,
    ;
    assert(lo as int / 0x10000 == 0) by (nonlinear_arith)
        requires
            0 <= lo < 0x10000,
    ;
}

/// Combines two Adler-32 checksums into the checksum of the concatenated
/// input, given the length of the second input.
///
/// A negative length cannot belong to any byte sequence: the debugging
/// sentinel `0xFFFF_FFFF` is returned instead of a plausible checksum.
pub fn adler32_combine(adler1: u32, adler2: u32, len2: i64) -> (r: u32)
    ensures
        len2 < 0 ==> r == 0xffff_ffffu32,
        len2 >= 0 ==> r == adler_combine_spec(adler1, adler2, len2 as int),
{
    if len2 < 0 {
        return 0xffff_ffff;
    }
    let base: u64 = ADLER_BASE as u64;
    let rem: u64 = (len2 as u64) % base;
    let lo1: u64 = (adler1 & 0xffff) as u64;
    let hi1: u64 = ((adler1 >> 16) & 0xffff) as u64;
    let lo2: u64 = (adler2 & 0xffff) as u64;
    let hi2: u64 = ((adler2 >> 16) & 0xffff) as u64;
    assert(lo1 == acc_lo(adler1) && hi1 == acc_hi(adler1) && lo1 <= 0xffff && hi1 <= 0xffff)
        by (bit_vector)
        requires
            lo1 == (adler1 & 0xffff) as u64 && hi1 == ((adler1 >> 16) & 0xffff) as u64,
    ;
    assert(lo2 == acc_lo(adler2) && hi2 == acc_hi(adler2) && lo2 <= 0xffff && hi2 <= 0xffff)
        by (bit_vector)
        requires
            lo2 == (adler2 & 0xffff) as u64 && hi2 == ((adler2 >> 16) & 0xffff) as u64,
    ;
    let lo: u64 = (lo1 + lo2 + base - 1) % base;
    assert(rem * lo1 <= 65520 * 65535) by (nonlinear_arith)
        requires
            rem <= 65520 && lo1 <= 65535,
    ;
    let hi: u64 = (rem * lo1 + hi1 + hi2 + base - rem) % base;
    let r = ((hi << 16) | lo) as u32;
    assert(r == hi * 0x10000 + lo) by (bit_vector)
        requires
            r == ((hi << 16) | lo) as u32 && lo < 65521 && hi < 65521,
    ;
    assert(len2 as u64 as int == len2 as int);
    r
}

/// Appending one byte to a sequence relates the sums of the extended
/// sequence to the sums of the original.
proof fn lemma_sums_push(data: Seq<u8>, byte: u8)
    ensures
        byte_sum(data.push(byte)) == byte_sum(data) + byte,
        weighted_sum(data.push(byte)) == weighted_sum(data) + byte_sum(data) + byte,
{
    assert(data.push(byte).drop_last() =~= data);
    assert(data.push(byte).last() == byte);
}

/// Closed form of the checksum started from the initial accumulator `1`:
/// the low half is `1` plus the byte sum, the high half is the length plus
/// the weighted sum, both reduced modulo the base.
proof fn lemma_adler_closed(data: Seq<u8>)
    ensures
        acc_lo(adler32_seq(1, data)) == (1 + byte_sum(data)) % (ADLER_BASE as int),
        acc_hi(adler32_seq(1, data)) == (data.len() + weighted_sum(data)) % (ADLER_BASE as int),
        byte_sum(data) >= 0,
        weighted_sum(data) >= 0,
    decreases data.len(),
{
    let base = ADLER_BASE as int;
    if data.len() == 0 {
        assert(acc_lo(1u32) == 1 && acc_hi(1u32) == 0);
        lemma_small_mod(1nat, base as nat);
        lemma_small_mod(0nat, base as nat);
    } else {
        let prefix = data.drop_last();
        let byte = data.last();
        lemma_adler_closed(prefix);
        assert(data =~= prefix.push(byte));
        lemma_sums_push(prefix, byte);
        let prev = adler32_seq(1, prefix);
        let cur = adler32_seq(1, data);
        assert(cur == adler_step(prev, byte));
        let lo_new = (acc_lo(prev) + byte) % base;
        let hi_new = (acc_hi(prev) + lo_new) % base;
        assert(0 <= lo_new < base && 0 <= hi_new < base) by (nonlinear_arith)
            requires
                lo_new == (acc_lo(prev) + byte) % base,
                hi_new == (acc_hi(prev) + lo_new) % base,
                acc_lo(prev) >= 0,
                acc_hi(prev) >= 0,
                base == 65521,
        ;
        lemma_pack_unpack(hi_new as u32, lo_new as u32);
        // The new low half: ((1 + S') % base + byte) % base == (1 + S' + byte) % base.
        lemma_add_mod_noop(1 + byte_sum(prefix), byte as int, base);
        lemma_mod_twice(1 + byte_sum(prefix), base);
        lemma_small_mod(byte as nat, base as nat);
        assert(lo_new == (1 + byte_sum(data)) % base);
        // The new high half folds in the new low half.
        lemma_add_mod_noop(prefix.len() + weighted_sum(prefix), 1 + byte_sum(data), base);
        lemma_mod_twice(prefix.len() + weighted_sum(prefix), base);
        lemma_mod_twice(1 + byte_sum(data), base);
        assert(hi_new == (prefix.len() + weighted_sum(prefix) + 1 + byte_sum(data)) % base);
        assert(prefix.len() + weighted_sum(prefix) + 1 + byte_sum(data) == data.len()
            + weighted_sum(data));
    }
}

/// The update is associative over concatenation: processing `a` then `b`
/// from the intermediate accumulator equals processing `a + b` outright.
pub proof fn lemma_adler32_seq_concat(acc: u32, a: Seq<u8>, b: Seq<u8>)
    ensures
        adler32_seq(adler32_seq(acc, a), b) == adler32_seq(acc, a + b),
    decreases b.len(),
{
    if b.len() == 0 {
        assert(a + b =~= a);
    } else {
        lemma_adler32_seq_concat(acc, a, b.drop_last());
        assert((a + b).drop_last() =~= a + b.drop_last());
        assert((a + b).last() == b.last());
    }
}

/// The combination law: for any byte sequences `a` and `b`, combining the
/// checksum of `a` with the checksum of `b` under `b`'s length yields the
/// checksum of `a` followed by `b`.
pub proof fn lemma_adler32_combine(a: Seq<u8>, b: Seq<u8>)
    ensures
        adler_combine_spec(adler32_seq(1, a), adler32_seq(1, b), b.len() as int) == adler32_seq(
            1,
            a + b,
        ),
{
    let base = ADLER_BASE as int;
    lemma_adler_closed(a);
    lemma_adler_closed(b);
    lemma_adler_closed(a + b);
    lemma_sums_concat(a, b);
    let x = adler32_seq(1, a);
    let y = adler32_seq(1, b);
    let z = adler32_seq(1, a + b);
    let sa = byte_sum(a);
    let wa = weighted_sum(a);
    let na = a.len() as int;
    let sb = byte_sum(b);
    let wb = weighted_sum(b);
    let nb = b.len() as int;
    lemma_combine_lo_arith(sa, sb);
    lemma_combine_hi_arith(sa, na, wa, sb, nb, wb);
    let rem = nb % base;
    let lo = (acc_lo(x) + acc_lo(y) + base - 1) % base;
    let hi = (rem * acc_lo(x) + acc_hi(x) + acc_hi(y) + base - rem) % base;
    assert(lo == (1 + sa + sb) % base);
    assert(hi == (na + nb + wa + nb * sa + wb) % base);
    assert(acc_lo(z) == lo && acc_hi(z) == hi);
    lemma_pack_unpack_halves(z);
    lemma_mod_range(1 + sa + sb, base);
    lemma_mod_range(na + nb + wa + nb * sa + wb, base);
    assert(nb * sa >= 0) by (nonlinear_arith)
        requires
            nb >= 0 && sa >= 0,
    ;
}

/// The low halves combine to the low half of the concatenation: the `- 1`
/// removes the doubled initial accumulator.
proof fn lemma_combine_lo_arith(sa: int, sb: int)
    requires
        sa >= 0,
        sb >= 0,
    ensures
        ((1 + sa) % (ADLER_BASE as int) + (1 + sb) % (ADLER_BASE as int) + (ADLER_BASE as int) - 1)
            % (ADLER_BASE as int) == (1 + sa + sb) % (ADLER_BASE as int),
{
    let base = ADLER_BASE as int;
    lemma_add_mod_noop(1 + sa, 1 + sb, base);
    lemma_mod_twice(1 + sa, base);
    lemma_mod_twice(1 + sb, base);
    lemma_add_mod_noop((1 + sa) % base + (1 + sb) % base, base - 1, base);
    lemma_mod_twice((1 + sa) % base + (1 + sb) % base, base);
    lemma_small_mod((base - 1) as nat, base as nat);
    lemma_add_mod_noop(1 + sa + 1 + sb, base - 1, base);
    lemma_mod_multiple_vanish(1 + sa + sb, base);
}

/// The high halves combine to the high half of the concatenation: the term
/// `rem * lo1` contributes the cross term, and `- rem` removes the doubled
/// initial low accumulator that `lo1` carries.
proof fn lemma_combine_hi_arith(sa: int, na: int, wa: int, sb: int, nb: int, wb: int)
    requires
        sa >= 0,
        na >= 0,
        wa >= 0,
        sb >= 0,
        nb >= 0,
        wb >= 0,
    ensures
        ((nb % (ADLER_BASE as int)) * ((1 + sa) % (ADLER_BASE as int)) + (na + wa) % (
        ADLER_BASE as int) + (nb + wb) % (ADLER_BASE as int) + (ADLER_BASE as int) - (nb % (
        ADLER_BASE as int))) % (ADLER_BASE as int) == (na + nb + wa + nb * sa + wb) % (
        ADLER_BASE as int),
{
    let base = ADLER_BASE as int;
    let rem = nb % base;
    lemma_mod_range(nb, base);
    let lo1 = (1 + sa) % base;
    lemma_mod_range(1 + sa, base);
    let cross = rem * lo1;
    assert(cross >= 0) by (nonlinear_arith)
        requires
            rem >= 0,
            lo1 >= 0,
            cross == rem * lo1,
    ;
    // The cross term matches `nb * (1 + sa)` modulo the base.
    lemma_mul_mod_noop_general(nb, 1 + sa, base);
    lemma_mod_twice(1 + sa, base);
    lemma_mod_twice(nb * (1 + sa), base);
    assert(cross % base == (nb * (1 + sa)) % base);
    // Swap each reduced summand for its exact value, one at a time.
    let tail1 = cross + (nb + wb) % base + base - rem;
    lemma_add_same_mod((na + wa) % base, na + wa, tail1, base);
    lemma_mod_twice(na + wa, base);
    let tail2 = cross + (na + wa) + base - rem;
    lemma_add_same_mod((nb + wb) % base, nb + wb, tail2, base);
    lemma_mod_twice(nb + wb, base);
    let tail3 = (na + wa) + (nb + wb) + base - rem;
    lemma_add_same_mod(cross, nb * (1 + sa), tail3, base);
    assert((cross + (na + wa) % base + (nb + wb) % base + base - rem) % base == (nb * (1 + sa) + (na
        + wa) + (nb + wb) + base - rem) % base);
    // Distribute the product and cancel the extra length term.
    vstd::arithmetic::mul::lemma_mul_is_distributive_add(nb, 1, sa);
    let core = na + nb + wa + nb * sa + wb;
    assert(nb * (1 + sa) + (na + wa) + (nb + wb) + base - rem == core + (nb - rem) + base);
    lemma_mod_multiple_vanish(core + (nb - rem), base);
    lemma_sub_mod_vanish(core, nb, base);
}

/// Swapping one summand for another with the same remainder preserves the
/// remainder of the sum.
proof fn lemma_add_same_mod(x: int, y: int, k: int, m: int)
    requires
        m > 0,
        x % m == y % m,
    ensures
        (x + k) % m == (y + k) % m,
{
    lemma_add_mod_noop(x, k, m);
    lemma_add_mod_noop(y, k, m);
}

/// Adding a multiple of the modulus does not change the remainder.
proof fn lemma_mod_multiple_vanish(x: int, m: int)
    requires
        m > 0,
    ensures
        (x + m) % m == x % m,
{
    vstd::arithmetic::div_mod::lemma_mod_add_multiples_vanish(x, m);
}

/// A remainder lies between zero and the modulus.
proof fn lemma_mod_range(x: int, m: int)
    requires
        m > 0,
        x >= 0,
    ensures
        0 <= x % m < m,
        x >= x % m,
{
    vstd::arithmetic::div_mod::lemma_mod_bound(x, m);
    vstd::arithmetic::div_mod::lemma_mod_decreases(x as nat, m as nat);
}

/// Replacing `n` by its remainder in an added term preserves the total's
/// remainder: `(x + n) % m == (x + n % m) % m`.
proof fn lemma_sub_mod_vanish(x: int, n: int, m: int)
    requires
        m > 0,
        n >= 0,
    ensures
        (x + (n - n % m)) % m == x % m,
{
    let k = n / m;
    vstd::arithmetic::div_mod::lemma_fundamental_div_mod(n, m);
    assert(n - n % m == m * k);
    lemma_mod_multiples_vanish_general(x, k, m);
}

/// Adding `k` multiples of the modulus does not change the remainder.
proof fn lemma_mod_multiples_vanish_general(x: int, k: int, m: int)
    requires
        m > 0,
    ensures
        (x + m * k) % m == x % m,
{
    vstd::arithmetic::div_mod::lemma_mod_multiples_vanish(k, x, m);
}

/// Three-way variant of mod-respecting addition.
proof fn lemma_add_mod_noop_three(x: int, y: int, z: int, m: int)
    requires
        m > 0,
    ensures
        (x % m + y % m + z % m) % m == (x + y + z) % m,
{
    lemma_add_mod_noop(x, y, m);
    lemma_add_mod_noop((x + y) % m, z % m, m);
    lemma_mod_twice(x + y, m);
    lemma_mod_twice(z, m);
    lemma_add_mod_noop(x + y, z, m);
    lemma_add_mod_noop(x % m + y % m, z % m, m);
    lemma_mod_twice(x % m + y % m, m);
}

/// Splitting any accumulator into its halves and repacking is the identity.
proof fn lemma_pack_unpack_halves(acc: u32)
    ensures
        acc_hi(acc) * 0x10000 + acc_lo(acc) == acc as int,
        0 <= acc_lo(acc) < 0x10000,
        0 <= acc_hi(acc) <= 0xffff,
{
    vstd::arithmetic::div_mod::lemma_fundamental_div_mod(acc as int, 0x10000);
    vstd::arithmetic::div_mod::lemma_mod_bound(acc as int, 0x10000);
    assert(acc_hi(acc) <= 0xffff) by (nonlinear_arith)
        requires
            acc_hi(acc) == acc as int / 0x10000 && acc <= u32::MAX,
    ;
    assert(acc_hi(acc) >= 0) by (nonlinear_arith)
        requires
            acc_hi(acc) == acc as int / 0x10000 && acc >= 0,
    ;
}

/// Concatenation splits the byte sum additively and the weighted sum with a
/// cross term of the second length times the first byte sum.
proof fn lemma_sums_concat(a: Seq<u8>, b: Seq<u8>)
    ensures
        byte_sum(a + b) == byte_sum(a) + byte_sum(b),
        weighted_sum(a + b) == weighted_sum(a) + b.len() * byte_sum(a) + weighted_sum(b),
    decreases b.len(),
{
    if b.len() == 0 {
        assert(a + b =~= a);
    } else {
        let prefix = b.drop_last();
        let byte = b.last();
        lemma_sums_concat(a, prefix);
        assert((a + b).drop_last() =~= a + prefix);
        assert((a + b).last() == byte);
        lemma_sums_push(a + prefix, byte);
        assert(a + b =~= (a + prefix).push(byte));
        assert(b =~= prefix.push(byte));
        lemma_sums_push(prefix, byte);
        assert(weighted_sum(a + b) == weighted_sum(a + prefix) + byte_sum(a + prefix) + byte);
        assert(b.len() * byte_sum(a) == prefix.len() * byte_sum(a) + byte_sum(a))
            by (nonlinear_arith)
            requires
                b.len() == prefix.len() + 1,
        ;
    }
}

} // verus!
