//! Bit interleaving: two unsigned integers of one width are woven into one
//! integer of twice that width.

use vstd::prelude::*;
use vstd::arithmetic::div_mod::{lemma_div_denominator, lemma_hoist_over_denominator};
use vstd::arithmetic::power2::{
    lemma2_to64, lemma_pow2_adds, lemma_pow2_pos, lemma_pow2_unfold, pow2,
};
use vstd::bits::{
    lemma_u128_shr_is_div, lemma_u16_shr_is_div, lemma_u32_shr_is_div, lemma_u64_shr_is_div,
    lemma_u8_shr_is_div,
};

verus! {

/// Bit `i` of the integer `n`, counted from the least significant end. For a
/// negative `n` these are the bits of its two's complement form.
pub open spec fn bit(n: int, i: nat) -> bool {
    (n / (pow2(i) as int)) % 2 == 1
}

/// Adding an even multiple of `2^j` to `a` leaves bit `j` of `a` as it is.
pub proof fn lemma_bit_add_even_multiple(a: int, j: nat, m: int)
    ensures
        bit(a + 2 * m * pow2(j), j) == bit(a, j),
{
    lemma_pow2_pos(j);
    lemma_hoist_over_denominator(a, 2 * m, pow2(j));
}

/// Adding `2^j` to `a` flips bit `j` of `a`.
pub proof fn lemma_bit_add_power(a: int, j: nat)
    ensures
        bit(a + pow2(j), j) == !bit(a, j),
{
    lemma_pow2_pos(j);
    lemma_hoist_over_denominator(a, 1, pow2(j));
    assert(1 * pow2(j) == pow2(j));
}

/// Adding a multiple of `2^n` to `a` leaves every bit of `a` below `n` as it
/// is.
pub proof fn lemma_bit_add_high(a: int, j: nat, n: nat, m: int)
    requires
        j < n,
    ensures
        bit(a + m * pow2(n), j) == bit(a, j),
{
    let k: nat = (n - j - 1) as nat;
    lemma_pow2_adds(j, k + 1);
    lemma_pow2_unfold(k + 1);
    assert(pow2(n) == pow2(j) * (2 * pow2(k)));
    assert(m * pow2(n) == 2 * (m * pow2(k)) * pow2(j)) by (nonlinear_arith)
        requires
            pow2(n) == pow2(j) * (2 * pow2(k)),
    ;
    lemma_bit_add_even_multiple(a, j, m * pow2(k));
}

/// Bit `i` of `a`, for `i` at or above `n`, is bit `i - n` of `a / 2^n`.
pub proof fn lemma_bit_drop_low(a: int, n: nat, i: nat)
    requires
        0 <= a,
        n <= i,
    ensures
        bit(a, i) == bit(a / (pow2(n) as int), (i - n) as nat),
{
    let k: nat = (i - n) as nat;
    lemma_pow2_pos(n);
    lemma_pow2_pos(k);
    lemma_pow2_adds(n, k);
    lemma_div_denominator(a, pow2(n) as int, pow2(k) as int);
}

/// Two numbers below `2^n` with the same `n` low bits are equal.
pub proof fn lemma_equal_by_bits(a: int, b: int, n: nat)
    requires
        0 <= a < pow2(n),
        0 <= b < pow2(n),
        forall|i: nat| i < n ==> bit(a, i) == bit(b, i),
    ensures
        a == b,
    decreases n,
{
    lemma2_to64();
    if n > 0 {
        lemma_pow2_unfold(n);
        let half_a: int = a / 2;
        let half_b: int = b / 2;
        assert forall|i: nat| i < n - 1 implies bit(half_a, i) == bit(half_b, i) by {
            lemma_bit_drop_low(a, 1, i + 1);
            lemma_bit_drop_low(b, 1, i + 1);
            assert(bit(a, i + 1) == bit(b, i + 1));
        }
        lemma_equal_by_bits(half_a, half_b, (n - 1) as nat);
        assert(bit(a, 0) == bit(b, 0));
    }
}

/// An unsigned integer that can be woven with another of its width.
pub trait Interleavable: Sized {
    /// The integer of twice the width.
    type InterleaveOutput;

    /// Whether `r` holds the bits of `self` at its even places and the bits
    /// of `other` at its odd places.
    spec fn weaves(self, other: Self, r: Self::InterleaveOutput) -> bool;

    /// Bit `i` of `self` lands at bit `2 * i` of the result, bit `i` of
    /// `other` at bit `2 * i + 1`.
    fn interleave(self, other: Self) -> (r: Self::InterleaveOutput)
        ensures
            self.weaves(other, r),
    ;
}

/// Bit `i` of `v`, read with a shift and a mask.
spec fn shifted_bit8(v: u8, i: u8) -> bool {
    (v >> i) & 1 == 1
}

/// Bit `i` of `v`, read with a shift and a mask.
spec fn shifted_bit16(v: u16, i: u16) -> bool {
    (v >> i) & 1 == 1
}

/// The bit that a shift and a mask read is the bit of the number.
proof fn lemma_shifted_bit8(v: u8, i: u8)
    requires
        i < 8,
    ensures
        shifted_bit8(v, i) == bit(v as int, i as nat),
{
    lemma_u8_shr_is_div(v, i);
    let w: u8 = v >> i;
    assert(w & 1 == w % 2) by (bit_vector);
}

/// The bit that a shift and a mask read is the bit of the number.
proof fn lemma_shifted_bit16(v: u16, i: u16)
    requires
        i < 16,
    ensures
        shifted_bit16(v, i) == bit(v as int, i as nat),
{
    lemma_u16_shr_is_div(v, i);
    let w: u16 = v >> i;
    assert(w & 1 == w % 2) by (bit_vector);
}

/// Bit `i` of `v`, read with a shift and a mask.
pub(crate) open spec fn shifted_bit32(v: u32, i: u32) -> bool {
    (v >> i) & 1 == 1
}

/// The bit that a shift and a mask read is the bit of the number.
pub(crate) proof fn lemma_shifted_bit32(v: u32, i: u32)
    requires
        i < 32,
    ensures
        shifted_bit32(v, i) == bit(v as int, i as nat),
{
    lemma_u32_shr_is_div(v, i);
    let w: u32 = v >> i;
    assert(w & 1 == w % 2) by (bit_vector);
}

/// Bit `i` of `v`, read with a shift and a mask.
spec fn shifted_bit64(v: u64, i: u64) -> bool {
    (v >> i) & 1 == 1
}

/// The bit that a shift and a mask read is the bit of the number.
proof fn lemma_shifted_bit64(v: u64, i: u64)
    requires
        i < 64,
    ensures
        shifted_bit64(v, i) == bit(v as int, i as nat),
{
    lemma_u64_shr_is_div(v, i);
    let w: u64 = v >> i;
    assert(w & 1 == w % 2) by (bit_vector);
}

/// Bit `i` of `v`, read with a shift and a mask.
spec fn shifted_bit128(v: u128, i: u128) -> bool {
    (v >> i) & 1 == 1
}

/// The bit that a shift and a mask read is the bit of the number.
proof fn lemma_shifted_bit128(v: u128, i: u128)
    requires
        i < 128,
    ensures
        shifted_bit128(v, i) == bit(v as int, i as nat),
{
    lemma_u128_shr_is_div(v, i);
    let w: u128 = v >> i;
    assert(w & 1 == w % 2) by (bit_vector);
}

/// The bits of `v` moved apart, bit `i` to place `2 * i`.
spec fn spread8(v: u8) -> u16 {
    let x: u16 = v as u16;
    let x: u16 = (x | (x << 4)) & 0x0F0F;
    let x: u16 = (x | (x << 2)) & 0x3333;
    (x | (x << 1)) & 0x5555
}

/// `a` spread, joined with `b` spread and moved up by one place, holds
/// bit `i` of `a` at place `2 * i` and bit `i` of `b` at place `2 * i + 1`.
proof fn lemma_spread8(a: u8, b: u8, i: u8)
    by (bit_vector)
    requires
        i < 8,
    ensures
        shifted_bit16(spread8(a) | (spread8(b) << 1), (2 * i) as u16) == shifted_bit8(a, i),
        shifted_bit16(spread8(a) | (spread8(b) << 1), (2 * i + 1) as u16) == shifted_bit8(b, i),
{
}

impl Interleavable for u8 {
    type InterleaveOutput = u16;

    open spec fn weaves(self, other: u8, r: u16) -> bool {
        forall|i: nat|
            #![trigger bit(self as int, i)]
            #![trigger bit(other as int, i)]
            i < 8 ==> {
                &&& bit(r as int, 2 * i) == bit(self as int, i)
                &&& bit(r as int, 2 * i + 1) == bit(other as int, i)
            }
    }

    fn interleave(self, other: u8) -> (r: u16) {
        let x: u16 = self as u16;
        let x: u16 = (x | (x << 4)) & 0x0F0F;
        let x: u16 = (x | (x << 2)) & 0x3333;
        let x: u16 = (x | (x << 1)) & 0x5555;

        let y: u16 = other as u16;
        let y: u16 = (y | (y << 4)) & 0x0F0F;
        let y: u16 = (y | (y << 2)) & 0x3333;
        let y: u16 = (y | (y << 1)) & 0x5555;
        let y: u16 = y << 1;
        let r: u16 = x | y;
        proof {
            assert(r == spread8(self) | (spread8(other) << 1));
            assert forall|i: nat| i < 8 implies {
                &&& bit(r as int, 2 * i) == #[trigger] bit(self as int, i)
                &&& bit(r as int, 2 * i + 1) == bit(other as int, i)
            } by {
                let j: u8 = i as u8;
                lemma_spread8(self, other, j);
                lemma_shifted_bit8(self, j);
                lemma_shifted_bit8(other, j);
                lemma_shifted_bit16(r, (2 * j) as u16);
                lemma_shifted_bit16(r, (2 * j + 1) as u16);
            }
        }
        r
    }
}

/// The bits of `v` moved apart, bit `i` to place `2 * i`.
spec fn spread16(v: u16) -> u32 {
    let x: u32 = v as u32;
    let x: u32 = (x | (x << 8)) & 0x00FF00FF;
    let x: u32 = (x | (x << 4)) & 0x0F0F0F0F;
    let x: u32 = (x | (x << 2)) & 0x33333333;
    (x | (x << 1)) & 0x55555555
}

/// `a` spread, joined with `b` spread and moved up by one place, holds
/// bit `i` of `a` at place `2 * i` and bit `i` of `b` at place `2 * i + 1`.
proof fn lemma_spread16(a: u16, b: u16, i: u16)
    by (bit_vector)
    requires
        i < 16,
    ensures
        shifted_bit32(spread16(a) | (spread16(b) << 1), (2 * i) as u32) == shifted_bit16(a, i),
        shifted_bit32(spread16(a) | (spread16(b) << 1), (2 * i + 1) as u32) == shifted_bit16(b, i),
{
}

impl Interleavable for u16 {
    type InterleaveOutput = u32;

    open spec fn weaves(self, other: u16, r: u32) -> bool {
        forall|i: nat|
            #![trigger bit(self as int, i)]
            #![trigger bit(other as int, i)]
            i < 16 ==> {
                &&& bit(r as int, 2 * i) == bit(self as int, i)
                &&& bit(r as int, 2 * i + 1) == bit(other as int, i)
            }
    }

    fn interleave(self, other: u16) -> (r: u32) {
        let x: u32 = self as u32;
        let x: u32 = (x | (x << 8)) & 0x00FF00FF;
        let x: u32 = (x | (x << 4)) & 0x0F0F0F0F;
        let x: u32 = (x | (x << 2)) & 0x33333333;
        let x: u32 = (x | (x << 1)) & 0x55555555;

        let y: u32 = other as u32;
        let y: u32 = (y | (y << 8)) & 0x00FF00FF;
        let y: u32 = (y | (y << 4)) & 0x0F0F0F0F;
        let y: u32 = (y | (y << 2)) & 0x33333333;
        let y: u32 = (y | (y << 1)) & 0x55555555;
        let y: u32 = y << 1;
        let r: u32 = x | y;
        proof {
            assert(r == spread16(self) | (spread16(other) << 1));
            assert forall|i: nat| i < 16 implies {
                &&& bit(r as int, 2 * i) == #[trigger] bit(self as int, i)
                &&& bit(r as int, 2 * i + 1) == bit(other as int, i)
            } by {
                let j: u16 = i as u16;
                lemma_spread16(self, other, j);
                lemma_shifted_bit16(self, j);
                lemma_shifted_bit16(other, j);
                lemma_shifted_bit32(r, (2 * j) as u32);
                lemma_shifted_bit32(r, (2 * j + 1) as u32);
            }
        }
        r
    }
}

/// The bits of `v` moved apart, bit `i` to place `2 * i`.
spec fn spread32(v: u32) -> u64 {
    let x: u64 = v as u64;
    let x: u64 = (x | (x << 16)) & 0x0000FFFF0000FFFF;
    let x: u64 = (x | (x << 8)) & 0x00FF00FF00FF00FF;
    let x: u64 = (x | (x << 4)) & 0x0F0F0F0F0F0F0F0F;
    let x: u64 = (x | (x << 2)) & 0x3333333333333333;
    (x | (x << 1)) & 0x5555555555555555
}

/// `a` spread, joined with `b` spread and moved up by one place, holds
/// bit `i` of `a` at place `2 * i` and bit `i` of `b` at place `2 * i + 1`.
proof fn lemma_spread32(a: u32, b: u32, i: u32)
    by (bit_vector)
    requires
        i < 32,
    ensures
        shifted_bit64(spread32(a) | (spread32(b) << 1), (2 * i) as u64) == shifted_bit32(a, i),
        shifted_bit64(spread32(a) | (spread32(b) << 1), (2 * i + 1) as u64) == shifted_bit32(b, i),
{
}

impl Interleavable for u32 {
    type InterleaveOutput = u64;

    open spec fn weaves(self, other: u32, r: u64) -> bool {
        forall|i: nat|
            #![trigger bit(self as int, i)]
            #![trigger bit(other as int, i)]
            i < 32 ==> {
                &&& bit(r as int, 2 * i) == bit(self as int, i)
                &&& bit(r as int, 2 * i + 1) == bit(other as int, i)
            }
    }

    fn interleave(self, other: u32) -> (r: u64) {
        let x: u64 = self as u64;
        let x: u64 = (x | (x << 16)) & 0x0000FFFF0000FFFF;
        let x: u64 = (x | (x << 8)) & 0x00FF00FF00FF00FF;
        let x: u64 = (x | (x << 4)) & 0x0F0F0F0F0F0F0F0F;
        let x: u64 = (x | (x << 2)) & 0x3333333333333333;
        let x: u64 = (x | (x << 1)) & 0x5555555555555555;

        let y: u64 = other as u64;
        let y: u64 = (y | (y << 16)) & 0x0000FFFF0000FFFF;
        let y: u64 = (y | (y << 8)) & 0x00FF00FF00FF00FF;
        let y: u64 = (y | (y << 4)) & 0x0F0F0F0F0F0F0F0F;
        let y: u64 = (y | (y << 2)) & 0x3333333333333333;
        let y: u64 = (y | (y << 1)) & 0x5555555555555555;
        let y: u64 = y << 1;
        let r: u64 = x | y;
        proof {
            assert(r == spread32(self) | (spread32(other) << 1));
            assert forall|i: nat| i < 32 implies {
                &&& bit(r as int, 2 * i) == #[trigger] bit(self as int, i)
                &&& bit(r as int, 2 * i + 1) == bit(other as int, i)
            } by {
                let j: u32 = i as u32;
                lemma_spread32(self, other, j);
                lemma_shifted_bit32(self, j);
                lemma_shifted_bit32(other, j);
                lemma_shifted_bit64(r, (2 * j) as u64);
                lemma_shifted_bit64(r, (2 * j + 1) as u64);
            }
        }
        r
    }
}

/// The bits of `v` moved apart, bit `i` to place `2 * i`.
spec fn spread64(v: u64) -> u128 {
    let x: u128 = v as u128;
    let x: u128 = (x | (x << 32)) & 0x00000000FFFFFFFF00000000FFFFFFFF;
    let x: u128 = (x | (x << 16)) & 0x0000FFFF0000FFFF0000FFFF0000FFFF;
    let x: u128 = (x | (x << 8)) & 0x00FF00FF00FF00FF00FF00FF00FF00FF;
    let x: u128 = (x | (x << 4)) & 0x0F0F0F0F0F0F0F0F0F0F0F0F0F0F0F0F;
    let x: u128 = (x | (x << 2)) & 0x33333333333333333333333333333333;
    (x | (x << 1)) & 0x55555555555555555555555555555555
}

/// `a` spread, joined with `b` spread and moved up by one place, holds
/// bit `i` of `a` at place `2 * i` and bit `i` of `b` at place `2 * i + 1`.
proof fn lemma_spread64(a: u64, b: u64, i: u64)
    by (bit_vector)
    requires
        i < 64,
    ensures
        shifted_bit128(spread64(a) | (spread64(b) << 1), (2 * i) as u128) == shifted_bit64(a, i),
        shifted_bit128(spread64(a) | (spread64(b) << 1), (2 * i + 1) as u128) == shifted_bit64(b, i),
{
}

impl Interleavable for u64 {
    type InterleaveOutput = u128;

    open spec fn weaves(self, other: u64, r: u128) -> bool {
        forall|i: nat|
            #![trigger bit(self as int, i)]
            #![trigger bit(other as int, i)]
            i < 64 ==> {
                &&& bit(r as int, 2 * i) == bit(self as int, i)
                &&& bit(r as int, 2 * i + 1) == bit(other as int, i)
            }
    }

    fn interleave(self, other: u64) -> (r: u128) {
        let x: u128 = self as u128;
        let x: u128 = (x | (x << 32)) & 0x00000000FFFFFFFF00000000FFFFFFFF;
        let x: u128 = (x | (x << 16)) & 0x0000FFFF0000FFFF0000FFFF0000FFFF;
        let x: u128 = (x | (x << 8)) & 0x00FF00FF00FF00FF00FF00FF00FF00FF;
        let x: u128 = (x | (x << 4)) & 0x0F0F0F0F0F0F0F0F0F0F0F0F0F0F0F0F;
        let x: u128 = (x | (x << 2)) & 0x33333333333333333333333333333333;
        let x: u128 = (x | (x << 1)) & 0x55555555555555555555555555555555;

        let y: u128 = other as u128;
        let y: u128 = (y | (y << 32)) & 0x00000000FFFFFFFF00000000FFFFFFFF;
        let y: u128 = (y | (y << 16)) & 0x0000FFFF0000FFFF0000FFFF0000FFFF;
        let y: u128 = (y | (y << 8)) & 0x00FF00FF00FF00FF00FF00FF00FF00FF;
        let y: u128 = (y | (y << 4)) & 0x0F0F0F0F0F0F0F0F0F0F0F0F0F0F0F0F;
        let y: u128 = (y | (y << 2)) & 0x33333333333333333333333333333333;
        let y: u128 = (y | (y << 1)) & 0x55555555555555555555555555555555;
        let y: u128 = y << 1;
        let r: u128 = x | y;
        proof {
            assert(r == spread64(self) | (spread64(other) << 1));
            assert forall|i: nat| i < 64 implies {
                &&& bit(r as int, 2 * i) == #[trigger] bit(self as int, i)
                &&& bit(r as int, 2 * i + 1) == bit(other as int, i)
            } by {
                let j: u64 = i as u64;
                lemma_spread64(self, other, j);
                lemma_shifted_bit64(self, j);
                lemma_shifted_bit64(other, j);
                lemma_shifted_bit128(r, (2 * j) as u128);
                lemma_shifted_bit128(r, (2 * j + 1) as u128);
            }
        }
        r
    }
}

} // verus!
