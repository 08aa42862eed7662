//! The bits of a 32-bit number as the lanes hold them, and how the number
//! is put together from them again.

use vstd::prelude::*;
use vstd::arithmetic::power2::{lemma2_to64, lemma_pow2_pos, lemma_pow2_unfold, pow2};
use vstd::arithmetic::div_mod::{lemma_breakdown, lemma_small_mod};
use vstd::bits::lemma_u32_shr_is_div;
use crate::division::signed;
use crate::lanes::component;
use crate::range::unsigned;

verus! {

/// The number `v` without its sign bit.
pub open spec fn low31(v: int) -> int {
    if v < 0 {
        v + 0x8000_0000
    } else {
        v
    }
}

/// The bit of rank `k` of the 32-bit signed number `v`, as the lanes work
/// it out: by division for the lower ranks, by the sign for the top one.
pub open spec fn lane_bit(v: int, k: int) -> int {
    if k == 31 {
        if v < 0 {
            1
        } else {
            0
        }
    } else {
        (low31(v) / (pow2(k as nat) as int)) % 2
    }
}

/// The sum of the bits of `v` of rank below `n`, each with the weight of
/// its lane.
pub open spec fn weighed_bits(v: int, n: int) -> int
    decreases n,
{
    if n <= 0 {
        0
    } else {
        weighed_bits(v, n - 1) + lane_bit(v, n - 1) * component(n - 1)
    }
}

/// The bit of rank `k` of the unsigned number `u`.
pub open spec fn bit_of(u: u32, k: u32) -> u32 {
    (u >> k) & 1
}

/// The 32-bit unsigned number with the bits of the signed number `v`.
pub open spec fn bits_of(v: int) -> u32 {
    unsigned(v) as u32
}

/// The lower bits of a number, each with its weight, sum up to the number
/// modulo the next power of two.
proof fn lemma_weighed_low(v: int, n: int)
    requires
        i32::MIN <= v <= i32::MAX,
        0 <= n <= 31,
    ensures
        weighed_bits(v, n) == low31(v) % (pow2(n as nat) as int),
    decreases n,
{
    let m = low31(v);
    lemma2_to64();
    if n == 0 {
        assert(pow2(0) == 1);
        assert(m % 1 == 0);
    } else {
        lemma_weighed_low(v, n - 1);
        let p = pow2((n - 1) as nat) as int;
        lemma_pow2_pos((n - 1) as nat);
        lemma_pow2_unfold(n as nat);
        assert(pow2(n as nat) as int == p * 2) by (nonlinear_arith)
            requires
                pow2(n as nat) == 2 * pow2((n - 1) as nat),
                p == pow2((n - 1) as nat) as int,
        ;
        lemma_breakdown(m, p, 2);
        assert(lane_bit(v, n - 1) * component(n - 1) == p * ((m / p) % 2)) by (nonlinear_arith)
            requires
                lane_bit(v, n - 1) == (m / p) % 2,
                component(n - 1) == p,
        ;
    }
}

/// The bits of a number, each with the weight of its lane, sum up to the
/// number.
pub proof fn lemma_weighed_bits(v: int)
    requires
        i32::MIN <= v <= i32::MAX,
    ensures
        weighed_bits(v, 32) == v,
{
    lemma_weighed_low(v, 31);
    lemma2_to64();
    assert(pow2(31) == 0x8000_0000);
    lemma_small_mod(low31(v) as nat, 0x8000_0000);
    assert(weighed_bits(v, 32) == weighed_bits(v, 31) + lane_bit(v, 31) * component(31));
}

/// The bit that a lane works out is the bit of that rank of the number.
pub proof fn lemma_lane_bit(v: int, k: int)
    requires
        i32::MIN <= v <= i32::MAX,
        0 <= k < 32,
    ensures
        lane_bit(v, k) == bit_of(bits_of(v), k as u32),
        lane_bit(v, k) == 0 || lane_bit(v, k) == 1,
{
    let u = bits_of(v);
    let kk = k as u32;
    if k == 31 {
        assert(((u >> 31u32) & 1) == (if u >= 0x8000_0000u32 {
            1u32
        } else {
            0u32
        })) by (bit_vector);
    } else {
        let low = (u % 0x8000_0000u32) as u32;
        assert(low == low31(v));
        assert(((low >> kk) & 1) == ((u >> kk) & 1)) by (bit_vector)
            requires
                low == u % 0x8000_0000u32,
                kk < 31u32,
        ;
        lemma_u32_shr_is_div(low, kk);
        let q = low >> kk;
        assert(q & 1 == q % 2) by (bit_vector);
    }
}

/// The bits of the bitwise operations.
pub proof fn lemma_bitwise_bits(x: u32, y: u32, k: u32)
    requires
        k < 32,
    ensures
        bit_of(x, k) == 0 || bit_of(x, k) == 1,
        bit_of(x & y, k) == 1 <==> bit_of(x, k) == 1 && bit_of(y, k) == 1,
        bit_of(x | y, k) == 1 <==> bit_of(x, k) == 1 || bit_of(y, k) == 1,
        bit_of(x ^ y, k) == 1 <==> bit_of(x, k) != bit_of(y, k),
{
    assert(((x >> k) & 1) == 0 || ((x >> k) & 1) == 1) by (bit_vector);
    assert(((y >> k) & 1) == 0 || ((y >> k) & 1) == 1) by (bit_vector);
    assert((((x & y) >> k) & 1) == 1 <==> ((x >> k) & 1) == 1 && ((y >> k) & 1) == 1)
        by (bit_vector);
    assert((((x | y) >> k) & 1) == 1 <==> ((x >> k) & 1) == 1 || ((y >> k) & 1) == 1)
        by (bit_vector);
    assert((((x ^ y) >> k) & 1) == 1 <==> ((x >> k) & 1) != ((y >> k) & 1)) by (bit_vector);
}

/// A number is known by its bits: the signed number with the bits of `u`
/// has those bits.
pub proof fn lemma_bits_of_signed(u: u32)
    ensures
        bits_of(signed(u as int)) == u,
        i32::MIN <= signed(u as int) <= i32::MAX,
{
}

} // verus!
