//! Bit-level views of bytes and words.
//!
//! Every driver's contract is stated over the sequences of bits defined
//! here: most-significant-bit-first and least-significant-bit-first views
//! of a byte or word, and the left-shift-and-or accumulator that the serial
//! and SPI receivers use to assemble sampled bits into a byte.

use vstd::prelude::*;

verus! {

/// Bit `i` of byte `b` (for `i < 8`): true when set.
pub open spec fn bit8(b: u8, i: u8) -> bool
    recommends
        i < 8,
{
    (b >> i) & 1 == 1
}

/// Bit `i` of word `w` (for `i < 32`): true when set.
pub open spec fn wbit(w: u32, i: u32) -> bool
    recommends
        i < 32,
{
    (w >> i) & 1 == 1
}

/// The low `n` bits of `w`, most significant first: element `k` is bit
/// `n - 1 - k` of `w`.
pub open spec fn msb_bits(w: u32, n: nat) -> Seq<bool>
    recommends
        n <= 32,
{
    Seq::new(n, |k: int| wbit(w, (n - 1 - k) as u32))
}

/// The 8 bits of `b`, most significant first.
pub open spec fn msb8(b: u8) -> Seq<bool> {
    Seq::new(8, |k: int| bit8(b, (7 - k) as u8))
}

/// The 8 bits of `b`, least significant first.
pub open spec fn lsb8(b: u8) -> Seq<bool> {
    Seq::new(8, |k: int| bit8(b, k as u8))
}

/// 1 for a high bit, 0 for a low one.
pub open spec fn bitval(b: bool) -> u8 {
    if b {
        1
    } else {
        0
    }
}

/// One step of the receive accumulator: shift left, or the new bit in.
pub open spec fn shift_in(v: u8, b: bool) -> u8 {
    (v << 1) | bitval(b)
}

/// The receive accumulator after shifting in every bit of `s`, first
/// element first, starting from `v`.
pub open spec fn shift_fold(v: u8, s: Seq<bool>) -> u8
    decreases s.len(),
{
    if s.len() == 0 {
        v
    } else {
        shift_fold(shift_in(v, s[0]), s.drop_first())
    }
}

/// The byte whose most significant bit is `s[0]` and least significant
/// bit is `s[7]`.
pub open spec fn acc8(s: Seq<bool>) -> u8
    recommends
        s.len() == 8,
{
    (bitval(s[0]) << 7) | (bitval(s[1]) << 6) | (bitval(s[2]) << 5) | (bitval(s[3]) << 4) | (
    bitval(s[4]) << 3) | (bitval(s[5]) << 2) | (bitval(s[6]) << 1) | bitval(s[7])
}

/// `b` with its bit order reversed.
pub open spec fn rev8(b: u8) -> u8 {
    ((b & 0x01) << 7) | ((b & 0x02) << 5) | ((b & 0x04) << 3) | ((b & 0x08) << 1) | ((b & 0x10)
        >> 1) | ((b & 0x20) >> 3) | ((b & 0x40) >> 5) | ((b & 0x80) >> 7)
}

/// The MSB-first bit sequence of a word has one element per bit position,
/// read from bit `n - 1` down to bit `0`; a zero-width word yields the
/// empty sequence.
pub proof fn lemma_msb_bits(w: u32, n: nat)
    requires
        n <= 32,
    ensures
        msb_bits(w, n).len() == n,
        forall|k: int| 0 <= k < n ==> msb_bits(w, n)[k] == wbit(w, (n - 1 - k) as u32),
        n == 0 ==> msb_bits(w, n) == Seq::<bool>::empty(),
{
    if n == 0 {
        assert(msb_bits(w, n) =~= Seq::<bool>::empty());
    }
}

/// The LSB-first bit sequence of a byte is the exact reversal of its
/// MSB-first bit sequence.
pub proof fn lemma_bit_order_reversal(b: u8)
    ensures
        lsb8(b) == msb8(b).reverse(),
{
    assert(lsb8(b) =~= msb8(b).reverse());
}

/// Folding one more bit shifts it into the accumulated value.
pub proof fn lemma_shift_fold_push(v: u8, s: Seq<bool>, b: bool)
    ensures
        shift_fold(v, s.push(b)) == shift_in(shift_fold(v, s), b),
    decreases s.len(),
{
    if s.len() == 0 {
        let t = s.push(b);
        assert(t[0] == b);
        assert(t.drop_first() =~= Seq::<bool>::empty());
        assert(shift_fold(v, t) == shift_fold(shift_in(v, b), t.drop_first()));
    } else {
        lemma_shift_fold_push(shift_in(v, s[0]), s.drop_first(), b);
        let t = s.push(b);
        assert(t[0] == s[0]);
        assert(t.drop_first() =~= s.drop_first().push(b));
    }
}

/// Shifting 8 bits through the accumulator leaves exactly the byte made of
/// those 8 bits, first bit in the most significant position — whatever
/// value the accumulator held before.
pub proof fn lemma_shift_fold_byte(v: u8, s: Seq<bool>)
    requires
        s.len() == 8,
    ensures
        shift_fold(v, s) == acc8(s),
{
    let u0 = bitval(s[0]);
    let u1 = bitval(s[1]);
    let u2 = bitval(s[2]);
    let u3 = bitval(s[3]);
    let u4 = bitval(s[4]);
    let u5 = bitval(s[5]);
    let u6 = bitval(s[6]);
    let u7 = bitval(s[7]);
    let s1 = s.drop_first();
    let s2 = s1.drop_first();
    let s3 = s2.drop_first();
    let s4 = s3.drop_first();
    let s5 = s4.drop_first();
    let s6 = s5.drop_first();
    let s7 = s6.drop_first();
    let s8 = s7.drop_first();
    let v1 = shift_in(v, s[0]);
    let v2 = shift_in(v1, s[1]);
    let v3 = shift_in(v2, s[2]);
    let v4 = shift_in(v3, s[3]);
    let v5 = shift_in(v4, s[4]);
    let v6 = shift_in(v5, s[5]);
    let v7 = shift_in(v6, s[6]);
    let v8 = shift_in(v7, s[7]);
    assert(shift_fold(v, s) == shift_fold(v1, s1));
    assert(shift_fold(v1, s1) == shift_fold(v2, s2));
    assert(shift_fold(v2, s2) == shift_fold(v3, s3));
    assert(shift_fold(v3, s3) == shift_fold(v4, s4));
    assert(shift_fold(v4, s4) == shift_fold(v5, s5));
    assert(shift_fold(v5, s5) == shift_fold(v6, s6));
    assert(shift_fold(v6, s6) == shift_fold(v7, s7));
    assert(shift_fold(v7, s7) == shift_fold(v8, s8));
    assert(s8.len() == 0);
    assert(shift_fold(v8, s8) == v8);
    assert(v8 == ((((((((v << 1 | u0) << 1 | u1) << 1 | u2) << 1 | u3) << 1 | u4) << 1 | u5) << 1
        | u6) << 1 | u7));
    assert(((((((((v << 1 | u0) << 1 | u1) << 1 | u2) << 1 | u3) << 1 | u4) << 1 | u5) << 1 | u6)
        << 1 | u7) == u0 << 7 | u1 << 6 | u2 << 5 | u3 << 4 | u4 << 3 | u5 << 2 | u6 << 1 | u7)
        by (bit_vector)
        requires
            u0 <= 1 && u1 <= 1 && u2 <= 1 && u3 <= 1 && u4 <= 1 && u5 <= 1 && u6 <= 1 && u7 <= 1,
    ;
}

/// Where each sample lands: bit `7 - k` of the assembled byte is the
/// `k`-th sample, so the first sample taken occupies the most
/// significant position and the last the least significant.
pub proof fn lemma_acc8_bit_positions(s: Seq<bool>)
    requires
        s.len() == 8,
    ensures
        bit8(acc8(s), 7) == s[0],
        bit8(acc8(s), 6) == s[1],
        bit8(acc8(s), 5) == s[2],
        bit8(acc8(s), 4) == s[3],
        bit8(acc8(s), 3) == s[4],
        bit8(acc8(s), 2) == s[5],
        bit8(acc8(s), 1) == s[6],
        bit8(acc8(s), 0) == s[7],
{
    let u0 = bitval(s[0]);
    let u1 = bitval(s[1]);
    let u2 = bitval(s[2]);
    let u3 = bitval(s[3]);
    let u4 = bitval(s[4]);
    let u5 = bitval(s[5]);
    let u6 = bitval(s[6]);
    let u7 = bitval(s[7]);
    let v = u0 << 7 | u1 << 6 | u2 << 5 | u3 << 4 | u4 << 3 | u5 << 2 | u6 << 1 | u7;
    assert(acc8(s) == v);
    assert((v >> 7) & 1 == u0 && (v >> 6) & 1 == u1 && (v >> 5) & 1 == u2 && (v >> 4) & 1 == u3
        && (v >> 3) & 1 == u4 && (v >> 2) & 1 == u5 && (v >> 1) & 1 == u6 && (v >> 0) & 1 == u7)
        by (bit_vector)
        requires
            u0 <= 1 && u1 <= 1 && u2 <= 1 && u3 <= 1 && u4 <= 1 && u5 <= 1 && u6 <= 1 && u7 <= 1
                && v == (u0 << 7 | u1 << 6 | u2 << 5 | u3 << 4 | u4 << 3 | u5 << 2 | u6 << 1 | u7),
    ;
}

/// Assembling the LSB-first bit sequence of `b` MSB-first yields the
/// bit-reversal of `b`.
pub proof fn lemma_acc8_of_lsb(b: u8)
    ensures
        acc8(lsb8(b)) == rev8(b),
{
    let s = lsb8(b);
    assert((b >> 0) & 1 <= 1 && (b >> 1) & 1 <= 1 && (b >> 2) & 1 <= 1 && (b >> 3) & 1 <= 1 && (b
        >> 4) & 1 <= 1 && (b >> 5) & 1 <= 1 && (b >> 6) & 1 <= 1 && (b >> 7) & 1 <= 1)
        by (bit_vector);
    assert(bitval(s[0]) == (b >> 0) & 1);
    assert(bitval(s[1]) == (b >> 1) & 1);
    assert(bitval(s[2]) == (b >> 2) & 1);
    assert(bitval(s[3]) == (b >> 3) & 1);
    assert(bitval(s[4]) == (b >> 4) & 1);
    assert(bitval(s[5]) == (b >> 5) & 1);
    assert(bitval(s[6]) == (b >> 6) & 1);
    assert(bitval(s[7]) == (b >> 7) & 1);
    assert(((b >> 0) & 1) << 7 | ((b >> 1) & 1) << 6 | ((b >> 2) & 1) << 5 | ((b >> 3) & 1) << 4 | (
    (b >> 4) & 1) << 3 | ((b >> 5) & 1) << 2 | ((b >> 6) & 1) << 1 | ((b >> 7) & 1) == ((b & 0x01)
        << 7) | ((b & 0x02) << 5) | ((b & 0x04) << 3) | ((b & 0x08) << 1) | ((b & 0x10) >> 1) | ((b
        & 0x20) >> 3) | ((b & 0x40) >> 5) | ((b & 0x80) >> 7)) by (bit_vector);
}

/// On a byte that is its own bit-reversal, assembling the LSB-first bit
/// sequence MSB-first gives the byte back unchanged.
pub proof fn lemma_acc8_of_lsb_identity(b: u8)
    requires
        rev8(b) == b,
    ensures
        acc8(lsb8(b)) == b,
{
    lemma_acc8_of_lsb(b);
}

} // verus!
