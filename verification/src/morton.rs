//! The Morton key of a coordinate: the octant chosen at each level of the
//! tree, four bits per level, the root's choice in the lowest four bits.

use vstd::prelude::*;
use vstd::arithmetic::div_mod::{lemma_fundamental_div_mod, lemma_mod_bound, lemma_small_mod};
use vstd::arithmetic::power2::{
    lemma2_to64, lemma_pow2_adds, lemma_pow2_pos, lemma_pow2_unfold, pow2,
};
use crate::bits::{
    bit, lemma_bit_add_high, lemma_bit_add_power, lemma_bit_drop_low, lemma_equal_by_bits,
    lemma_shifted_bit32, shifted_bit32, Interleavable,
};

verus! {

/// Which half of its interval the axis value `a` lies in at `level` of a tree
/// of `depth` levels: 0 for the lower half, 1 for the upper. Level 0 halves
/// the whole range of `2^depth` values, which starts at `-2^(depth - 1)`; each
/// further level halves the half chosen before.
pub open spec fn half_index(a: int, depth: nat, level: nat) -> int
    recommends
        level < depth,
{
    ((a + pow2((depth - 1) as nat)) / (pow2((depth - 1 - level) as nat) as int)) % 2
}

/// The highest bit of a lane.
const SIGN_BIT: u32 = 0x8000_0000;

/// `u32::reverse_bits` turns the order of the 32 bits round: the lowest bit
/// becomes the highest, the second lowest the second highest, and so on.
pub assume_specification[ u32::reverse_bits ](v: u32) -> (r: u32)
    ensures
        forall|i: nat| i < 32 ==> #[trigger] bit(r as int, i) == bit(v as int, (31 - i) as nat),
;

/// Bit `i` of `v`, shifted left by `s` and with its highest bit flipped, is
/// bit `i - s` of `v` where there is one, and the other way round at the top.
proof fn lemma_shift_flip(v: u32, s: u32, i: u32)
    by (bit_vector)
    requires
        s < 32,
        i < 32,
    ensures
        shifted_bit32((v << s) ^ 0x8000_0000u32, i) == ((i >= s && shifted_bit32(v, (i - s) as u32)) != (
        i == 31)),
{
}

/// The unsigned form of a negative value lies `2^32` above it.
proof fn lemma_unsigned_form(a: i32)
    by (bit_vector)
    ensures
        a >= 0 ==> (a as u32) == a,
        a < 0 ==> (a as u32) == a + 0x1_0000_0000,
{
}

/// The bits of a 32-bit axis value are those of its unsigned form.
proof fn lemma_unsigned_bits(a: i32, j: nat)
    requires
        j < 32,
    ensures
        bit((a as u32) as int, j) == bit(a as int, j),
{
    lemma_unsigned_form(a);
    lemma2_to64();
    if a < 0 {
        lemma_bit_add_high(a as int, j, 32, 1);
    }
}

/// `half_index` read off the bits of the axis value.
pub proof fn lemma_half_index_bit(a: int, depth: nat, level: nat)
    requires
        level < depth,
    ensures
        (half_index(a, depth, level) == 1) == (bit(a, (depth - 1 - level) as nat) != (level == 0)),
        0 <= half_index(a, depth, level) <= 1,
{
    let top: nat = (depth - 1) as nat;
    let j: nat = (depth - 1 - level) as nat;
    if level == 0 {
        lemma_bit_add_power(a, j);
    } else {
        lemma_bit_add_high(a, j, top, 1);
    }
}

/// The lane of one axis: its `depth` low bits with the highest of them
/// flipped, in reverse order, so that bit `l` of the lane is the half chosen
/// at level `l`. A lane holds 32 bits, so a tree has at most 32 levels.
pub fn lane(a: i32, depth: u32) -> (r: u32)
    requires
        depth <= 32,
    ensures
        forall|l: nat|
            l < 32 ==> #[trigger] bit(r as int, l) == (l < depth && half_index(
                a as int,
                depth as nat,
                l,
            ) == 1),
{
    if depth == 0 {
        proof {
            assert forall|l: nat| l < 32 implies !#[trigger] bit(0, l) by {
                lemma_pow2_pos(l);
            }
        }
        return 0;
    }
    let shift: u32 = 32 - depth;
    let unsigned: u32 = a as u32;
    let aligned: u32 = (unsigned << shift) ^ SIGN_BIT;
    let r: u32 = aligned.reverse_bits();
    proof {
        assert forall|l: nat| l < 32 implies #[trigger] bit(r as int, l) == (l < depth
            && half_index(a as int, depth as nat, l) == 1) by {
            let i: u32 = (31 - l) as u32;
            assert(bit(r as int, l) == bit(aligned as int, i as nat));
            lemma_shifted_bit32(aligned, i);
            lemma_shift_flip(unsigned, shift, i);
            if l < depth {
                let j: u32 = (i - shift) as u32;
                lemma_shifted_bit32(unsigned, j);
                lemma_unsigned_bits(a, j as nat);
                lemma_half_index_bit(a as int, depth as nat, l);
            }
        }
    }
    r
}

/// The child chosen at `level`: the half of the x axis in bit 0, of the z axis
/// in bit 1, of the y axis in bit 2.
pub open spec fn octant(x: int, y: int, z: int, depth: nat, level: nat) -> int
    recommends
        level < depth,
{
    half_index(x, depth, level) + 2 * half_index(z, depth, level) + 4 * half_index(
        y,
        depth,
        level,
    )
}

/// The octants from `level` down to the leaves as one number in base 16,
/// the octant of `level` as its lowest digit.
pub open spec fn morton_key_from(x: int, y: int, z: int, depth: nat, level: nat) -> int
    decreases depth - level,
{
    if level >= depth {
        0
    } else {
        octant(x, y, z, depth, level) + 16 * morton_key_from(x, y, z, depth, level + 1)
    }
}

/// The key of a coordinate in a tree of `depth` levels: its octants as the
/// digits of a number in base 16, the root's choice lowest.
pub open spec fn morton_key(x: int, y: int, z: int, depth: nat) -> int {
    morton_key_from(x, y, z, depth, 0)
}

/// An octant is one of 0 to 7, and its three low bits are the halves of the
/// x, z and y axes.
pub proof fn lemma_octant_bits(x: int, y: int, z: int, depth: nat, level: nat)
    requires
        level < depth,
    ensures
        0 <= octant(x, y, z, depth, level) < 8,
        bit(octant(x, y, z, depth, level), 0) == (half_index(x, depth, level) == 1),
        bit(octant(x, y, z, depth, level), 1) == (half_index(z, depth, level) == 1),
        bit(octant(x, y, z, depth, level), 2) == (half_index(y, depth, level) == 1),
        !bit(octant(x, y, z, depth, level), 3),
{
    lemma2_to64();
    lemma_half_index_bit(x, depth, level);
    lemma_half_index_bit(y, depth, level);
    lemma_half_index_bit(z, depth, level);
}

/// The key from `level` down has one digit for each level that is left.
pub proof fn lemma_key_from_bound(x: int, y: int, z: int, depth: nat, level: nat)
    requires
        level <= depth,
    ensures
        0 <= morton_key_from(x, y, z, depth, level) < pow2((4 * (depth - level)) as nat),
    decreases depth - level,
{
    lemma2_to64();
    if level < depth {
        lemma_key_from_bound(x, y, z, depth, level + 1);
        lemma_octant_bits(x, y, z, depth, level);
        lemma_pow2_adds(4, (4 * (depth - level - 1)) as nat);
    }
}

/// Bit `j` of the digit for level `l` of the key from `level` down is bit
/// `j` of the octant at `l`.
pub proof fn lemma_key_from_bit(x: int, y: int, z: int, depth: nat, level: nat, l: nat, j: nat)
    requires
        level <= l,
        level <= depth,
        j < 4,
    ensures
        bit(morton_key_from(x, y, z, depth, level), (4 * (l - level) + j) as nat) == (l < depth
            && bit(octant(x, y, z, depth, l), j)),
    decreases l - level,
{
    lemma2_to64();
    let i: nat = (4 * (l - level) + j) as nat;
    if level >= depth {
        lemma_pow2_pos(i);
    } else {
        let rest: int = morton_key_from(x, y, z, depth, level + 1);
        let digit: int = octant(x, y, z, depth, level);
        lemma_octant_bits(x, y, z, depth, level);
        lemma_key_from_bound(x, y, z, depth, level + 1);
        if l == level {
            lemma_bit_add_high(digit, j, 4, rest);
        } else {
            lemma_bit_drop_low(digit + 16 * rest, 4, i);
            lemma_key_from_bit(x, y, z, depth, level + 1, l, j);
        }
    }
}

/// The key of the coordinate `(x, y, z)` in a tree of `depth` levels.
pub fn encode_position(x: i32, y: i32, z: i32, depth: u32) -> (key: u128)
    requires
        depth <= 32,
    ensures
        key == morton_key(x as int, y as int, z as int, depth as nat),
{
    let sx: u32 = lane(x, depth);
    let sy: u32 = lane(y, depth);
    let sz: u32 = lane(z, depth);
    let xy: u64 = sx.interleave(sy);
    let zw: u64 = sz.interleave(0u32);
    let key: u128 = xy.interleave(zw);
    proof {
        let d: nat = depth as nat;
        let wanted: int = morton_key(x as int, y as int, z as int, d);
        lemma2_to64();
        lemma_pow2_adds(64, 64);
        assert(pow2(128) == 0x1_0000_0000_0000_0000_0000_0000_0000_0000);
        lemma_key_from_bound(x as int, y as int, z as int, d, 0);
        assert(pow2((4 * d) as nat) <= pow2(128)) by {
            if d < 32 {
                vstd::arithmetic::power2::lemma_pow2_strictly_increases((4 * d) as nat, 128);
            }
        }
        assert forall|i: nat| i < 128 implies bit(key as int, i) == bit(wanted, i) by {
            let l: nat = i / 4;
            let j: nat = i % 4;
            lemma_key_from_bit(x as int, y as int, z as int, d, 0, l, j);
            if l < d {
                lemma_octant_bits(x as int, y as int, z as int, d, l);
            }
            assert(bit(sx as int, l) == (l < d && half_index(x as int, d, l) == 1));
            assert(bit(sy as int, l) == (l < d && half_index(y as int, d, l) == 1));
            assert(bit(sz as int, l) == (l < d && half_index(z as int, d, l) == 1));
            assert(!bit(0u32 as int, l)) by {
                lemma_pow2_pos(l);
            }
            assert(bit(xy as int, 2 * l) == bit(sx as int, l));
            assert(bit(xy as int, 2 * l + 1) == bit(sy as int, l));
            assert(bit(zw as int, 2 * l) == bit(sz as int, l));
            assert(bit(zw as int, 2 * l + 1) == bit(0u32 as int, l));
            assert(bit(key as int, 2 * (2 * l)) == bit(xy as int, 2 * l));
            assert(bit(key as int, 2 * (2 * l) + 1) == bit(zw as int, 2 * l));
            assert(bit(key as int, 2 * (2 * l + 1)) == bit(xy as int, 2 * l + 1));
            assert(bit(key as int, 2 * (2 * l + 1) + 1) == bit(zw as int, 2 * l + 1));
        }
        lemma_equal_by_bits(key as int, wanted, 128);
    }
    key
}

/// Whether every digit of `key` in base 16 is an octant, one of 0 to 7.
pub open spec fn octal(key: nat) -> bool
    decreases key,
{
    key == 0 || (key % 16 < 8 && octal(key / 16))
}

/// Whether `a` and `b` have the same `n` low digits in base 16.
pub open spec fn same_path(a: nat, b: nat, n: nat) -> bool
    decreases n,
{
    n == 0 || (a % 16 == b % 16 && same_path(a / 16, b / 16, (n - 1) as nat))
}

/// Every digit of a key is an octant.
pub proof fn lemma_key_octal(x: int, y: int, z: int, depth: nat, level: nat)
    requires
        level <= depth,
    ensures
        0 <= morton_key_from(x, y, z, depth, level),
        octal(morton_key_from(x, y, z, depth, level) as nat),
    decreases depth - level,
{
    if level < depth {
        lemma_octant_bits(x, y, z, depth, level);
        lemma_key_octal(x, y, z, depth, level + 1);
    }
}

/// Every number shares each of its paths with itself.
pub proof fn lemma_same_path_self(a: nat, n: nat)
    ensures
        same_path(a, a, n),
    decreases n,
{
    if n > 0 {
        lemma_same_path_self(a / 16, (n - 1) as nat);
    }
}

/// Two numbers of `n` digits that share the path of `n` levels are equal.
pub proof fn lemma_same_path_equal(a: nat, b: nat, n: nat)
    requires
        a < pow2(4 * n),
        b < pow2(4 * n),
        same_path(a, b, n),
    ensures
        a == b,
    decreases n,
{
    lemma2_to64();
    if n > 0 {
        lemma_pow2_adds(4, (4 * (n - 1)) as nat);
        lemma_same_path_equal(a / 16, b / 16, (n - 1) as nat);
    }
}

/// Whether the axis value `a` lies in the range of a tree of `depth` levels,
/// from `-2^(depth - 1)` up to and without `2^(depth - 1)`. A tree without
/// levels has one cell, whose axis values are 0.
pub open spec fn in_range(a: int, depth: nat) -> bool {
    if depth == 0 {
        a == 0
    } else {
        -pow2((depth - 1) as nat) <= a < pow2((depth - 1) as nat)
    }
}

/// The axis value in range that `a` falls on: the one that differs from `a`
/// by a multiple of `2^depth`.
pub open spec fn wrap(a: int, depth: nat) -> int {
    if depth == 0 {
        0
    } else {
        (a + pow2((depth - 1) as nat)) % (pow2(depth) as int) - pow2((depth - 1) as nat)
    }
}

/// Whether all three axis values of `cell` lie in range.
pub open spec fn is_cell(cell: (int, int, int), depth: nat) -> bool {
    in_range(cell.0, depth) && in_range(cell.1, depth) && in_range(cell.2, depth)
}

/// The cell that the coordinate `(x, y, z)` falls on.
pub open spec fn cell_of(x: int, y: int, z: int, depth: nat) -> (int, int, int) {
    (wrap(x, depth), wrap(y, depth), wrap(z, depth))
}

/// `wrap` lands in range, at a multiple of `2^depth` from where it started,
/// and leaves a value in range where it is.
pub proof fn lemma_wrap(a: int, depth: nat)
    ensures
        in_range(wrap(a, depth), depth),
        in_range(a, depth) ==> wrap(a, depth) == a,
        depth > 0 ==> wrap(a, depth) == a - ((a + pow2((depth - 1) as nat)) / (pow2(depth) as int))
            * pow2(depth),
{
    if depth > 0 {
        let half: int = pow2((depth - 1) as nat) as int;
        let whole: int = pow2(depth) as int;
        lemma_pow2_pos(depth);
        lemma_pow2_unfold(depth);
        lemma_fundamental_div_mod(a + half, whole);
        lemma_mod_bound(a + half, whole);
        if in_range(a, depth) {
            lemma_small_mod((a + half) as nat, whole as nat);
        }
        assert(whole * ((a + half) / whole) == ((a + half) / whole) * whole) by (nonlinear_arith);
    }
}

/// A coordinate and the cell it falls on choose the same half at every level.
pub proof fn lemma_half_index_wrap(a: int, depth: nat, level: nat)
    requires
        level < depth,
    ensures
        half_index(wrap(a, depth), depth, level) == half_index(a, depth, level),
{
    let half: int = pow2((depth - 1) as nat) as int;
    let turns: int = (a + half) / (pow2(depth) as int);
    let j: nat = (depth - 1 - level) as nat;
    lemma_wrap(a, depth);
    lemma_bit_add_high(a + half, j, depth, -turns);
    assert(wrap(a, depth) + half == a + half + (-turns) * pow2(depth)) by (nonlinear_arith)
        requires
            wrap(a, depth) == a - turns * pow2(depth),
    ;
    lemma_half_index_bit(a, depth, level);
    lemma_half_index_bit(wrap(a, depth), depth, level);
    let p: int = pow2(j) as int;
    assert(0 <= ((a + half) / p) % 2 <= 1);
    assert(0 <= ((wrap(a, depth) + half) / p) % 2 <= 1);
}

/// A coordinate and the cell it falls on have the same key.
pub proof fn lemma_key_from_wrap(x: int, y: int, z: int, depth: nat, level: nat)
    ensures
        morton_key_from(wrap(x, depth), wrap(y, depth), wrap(z, depth), depth, level)
            == morton_key_from(x, y, z, depth, level),
    decreases depth - level,
{
    if level < depth {
        lemma_half_index_wrap(x, depth, level);
        lemma_half_index_wrap(y, depth, level);
        lemma_half_index_wrap(z, depth, level);
        lemma_key_from_wrap(x, y, z, depth, level + 1);
    }
}

/// Two axis values in range that choose the same half at every level are
/// equal.
pub proof fn lemma_axis_by_halves(a: int, b: int, depth: nat)
    requires
        in_range(a, depth),
        in_range(b, depth),
        forall|l: nat| l < depth ==> half_index(a, depth, l) == half_index(b, depth, l),
    ensures
        a == b,
{
    if depth > 0 {
        let half: int = pow2((depth - 1) as nat) as int;
        lemma_pow2_unfold(depth);
        let from_a: int = a + half;
        let from_b: int = b + half;
        assert forall|j: nat| j < depth implies bit(from_a, j) == bit(from_b, j) by {
            let l: nat = (depth - 1 - j) as nat;
            assert(half_index(a, depth, l) == half_index(b, depth, l));
        }
        lemma_equal_by_bits(from_a, from_b, depth);
    }
}

/// Within the range of a tree, different cells have different keys.
pub proof fn lemma_key_injective(a: (int, int, int), b: (int, int, int), depth: nat)
    requires
        is_cell(a, depth),
        is_cell(b, depth),
        morton_key(a.0, a.1, a.2, depth) == morton_key(b.0, b.1, b.2, depth),
    ensures
        a == b,
{
    assert forall|l: nat| l < depth implies {
        &&& half_index(a.0, depth, l) == half_index(b.0, depth, l)
        &&& half_index(a.1, depth, l) == half_index(b.1, depth, l)
        &&& half_index(a.2, depth, l) == half_index(b.2, depth, l)
    } by {
        lemma_octant_bits(a.0, a.1, a.2, depth, l);
        lemma_octant_bits(b.0, b.1, b.2, depth, l);
        lemma_key_from_bit(a.0, a.1, a.2, depth, 0, l, 0);
        lemma_key_from_bit(a.0, a.1, a.2, depth, 0, l, 1);
        lemma_key_from_bit(a.0, a.1, a.2, depth, 0, l, 2);
        lemma_key_from_bit(b.0, b.1, b.2, depth, 0, l, 0);
        lemma_key_from_bit(b.0, b.1, b.2, depth, 0, l, 1);
        lemma_key_from_bit(b.0, b.1, b.2, depth, 0, l, 2);
        lemma_half_index_bit(a.0, depth, l);
        lemma_half_index_bit(a.1, depth, l);
        lemma_half_index_bit(a.2, depth, l);
        lemma_half_index_bit(b.0, depth, l);
        lemma_half_index_bit(b.1, depth, l);
        lemma_half_index_bit(b.2, depth, l);
    }
    lemma_axis_by_halves(a.0, b.0, depth);
    lemma_axis_by_halves(a.1, b.1, depth);
    lemma_axis_by_halves(a.2, b.2, depth);
}

} // verus!
