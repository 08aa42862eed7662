//! What the unsigned division and remainder compute on the machine.

use vstd::prelude::*;
use vstd::arithmetic::div_mod::lemma_fundamental_div_mod_converse;
use crate::ast::Test;
use crate::code;
use crate::commands::PlayerOp;
use crate::machine::{
    apply, holds, lemma_wrap_add, lemma_wrap_fits, mentions, run, trunc_div, trunc_rem, wrap,
    World,
};
use crate::names;
use crate::range::unsigned;
use crate::registers::{group_registers, is_free, lemma_reserved_names_differ};

verus! {

/// The 32-bit signed number with the bits of the unsigned number `u`.
pub open spec fn signed(u: int) -> int {
    if u < 0x8000_0000 {
        u
    } else {
        u - 0x1_0000_0000
    }
}

/// The machine is set up for arithmetic: the constants hold their values.
pub open spec fn constants_set(w: World) -> bool {
    &&& w.computer[names::two()] == 2
    &&& w.computer[names::min()] == i32::MIN
}

/// What the operands of an unsigned division must satisfy so that the
/// lowering can be run: the registers are two different ones and none that
/// the lowering reserves, and no guard is on a register that is written.
pub open spec fn operands_ok(tests: Seq<Test>, dst: Seq<char>, src: Seq<char>) -> bool {
    &&& is_free(dst)
    &&& is_free(src)
    &&& dst != src
    &&& !mentions(tests, dst)
    &&& !mentions(tests, names::tmp0())
    &&& !mentions(tests, names::tmp1())
    &&& !mentions(tests, names::tmp2())
}

/// Halving an unsigned number with its top bit set, in signed arithmetic.
proof fn lemma_halve(a: int)
    requires
        i32::MIN <= a < 0,
    ensures
        wrap(a + i32::MIN) == a + 0x8000_0000,
        trunc_div(a + 0x8000_0000, 2) == (a + 0x8000_0000) / 2,
        wrap((a + 0x8000_0000) / 2) == (a + 0x8000_0000) / 2,
        wrap((a + 0x8000_0000) / 2 + 0x4000_0000) == unsigned(a) / 2,
        trunc_rem(a + 0x8000_0000, 2) == unsigned(a) % 2,
        0x4000_0000 <= unsigned(a) / 2 < 0x8000_0000,
{
    reveal(wrap);
    reveal(trunc_div);
    reveal(trunc_rem);
}

/// The last round of a division by hand: from the quotient and remainder of
/// the halved dividend to those of the dividend.
proof fn lemma_last_round(ua: int, b: int)
    requires
        0 <= ua,
        0 < b,
    ensures
        ({
            let h = ua / 2;
            let q1 = h / b;
            let r1 = h % b;
            let r = 2 * r1 + ua % 2;
            &&& 0 <= r < 2 * b
            &&& 0 <= r1 < b
            &&& 0 <= q1 <= h
            &&& r < b ==> ua / b == 2 * q1 && ua % b == r
            &&& r >= b ==> ua / b == 2 * q1 + 1 && ua % b == r - b
        }),
{
    let h = ua / 2;
    let q1 = h / b;
    let r1 = h % b;
    let r = 2 * r1 + ua % 2;
    vstd::arithmetic::div_mod::lemma_fundamental_div_mod(h, b);
    vstd::arithmetic::div_mod::lemma_mod_bound(h, b);
    assert(h == b * q1 + r1);
    assert(0 <= q1 <= h) by (nonlinear_arith)
        requires
            h == b * q1 + r1,
            0 <= r1 < b,
            0 <= h,
            0 < b,
    ;
    assert(ua == 2 * h + ua % 2);
    assert(ua == (2 * q1) * b + r) by (nonlinear_arith)
        requires
            ua == 2 * h + ua % 2,
            h == b * q1 + r1,
            r == 2 * r1 + ua % 2,
    ;
    if r < b {
        lemma_fundamental_div_mod_converse(ua, b, 2 * q1, r);
    } else {
        assert(ua == (2 * q1 + 1) * b + (r - b)) by (nonlinear_arith)
            requires
                ua == (2 * q1) * b + r,
        ;
        lemma_fundamental_div_mod_converse(ua, b, 2 * q1 + 1, r - b);
    }
}

} // verus!

verus! {

/// Both operands fit the signed range: the signed division is exact.
proof fn lemma_udiv_small(w: World, tests: Seq<Test>, dst: Seq<char>, src: Seq<char>)
    requires
        operands_ok(tests, dst, src),
        w.apart(),
        constants_set(w),
        holds(w.computer, tests),
        0 <= w.computer[dst] <= i32::MAX,
        0 < w.computer[src] <= i32::MAX,
    ensures
        ({
            let r = run(code::udiv(tests, dst, src), w);
            &&& r.lanes == w.lanes
            &&& r.cells == w.cells
            &&& r.computer[dst] == w.computer[dst] / w.computer[src]
            &&& forall|name: Seq<char>|
                name != dst && name != names::tmp0() && name != names::tmp1() && name
                    != names::tmp2() ==> r.computer[name] == w.computer[name]
        }),
{
    let a = w.computer[dst];
    let b = w.computer[src];
    assert(run(code::udiv(tests, dst, src), w).computer[dst] == apply(PlayerOp::Div, a, b)
        && run(code::udiv(tests, dst, src), w).lanes == w.lanes && run(
        code::udiv(tests, dst, src),
        w,
    ).cells == w.cells && (forall|name: Seq<char>|
        name != dst && name != names::tmp0() && name != names::tmp1() && name != names::tmp2()
            ==> run(code::udiv(tests, dst, src), w).computer[name] == w.computer[name])) by {
        broadcast use group_registers;

        lemma_reserved_names_differ();
    }
    assert(apply(PlayerOp::Div, a, b) == a / b) by {
        reveal(trunc_div);
        vstd::arithmetic::div_mod::lemma_div_pos_is_pos(a, b);
        vstd::arithmetic::div_mod::lemma_div_is_ordered_by_denominator(a, 1, b);
        vstd::arithmetic::div_mod::lemma_div_basics(a);
        lemma_wrap_fits(a / b);
    }
}

} // verus!

verus! {

/// Where the guards fail, the division changes nothing.
proof fn lemma_udiv_skipped(w: World, tests: Seq<Test>, dst: Seq<char>, src: Seq<char>)
    requires
        w.apart(),
        !holds(w.computer, tests),
    ensures
        run(code::udiv(tests, dst, src), w) == w,
{
    broadcast use group_registers;

}

/// The divisor has its top bit set: it goes into the dividend once or not
/// at all.
proof fn lemma_udiv_dominant(w: World, tests: Seq<Test>, dst: Seq<char>, src: Seq<char>)
    requires
        operands_ok(tests, dst, src),
        w.apart(),
        constants_set(w),
        holds(w.computer, tests),
        i32::MIN <= w.computer[dst] <= i32::MAX,
        i32::MIN <= w.computer[src] < 0,
    ensures
        ({
            let r = run(code::udiv(tests, dst, src), w);
            &&& r.lanes == w.lanes
            &&& r.cells == w.cells
            &&& r.computer[dst] == (if w.computer[dst] < 0 && w.computer[dst] >= w.computer[src] {
                1int
            } else {
                0int
            })
            &&& forall|name: Seq<char>|
                name != dst && name != names::tmp0() && name != names::tmp1() && name
                    != names::tmp2() ==> r.computer[name] == w.computer[name]
        }),
{
    let a = w.computer[dst];
    let b = w.computer[src];
    let r = run(code::udiv(tests, dst, src), w);
    assert(r.computer[dst] == (if a < 0 && apply(PlayerOp::Sub, a, b) >= 0 {
        1int
    } else {
        0int
    }) && r.lanes == w.lanes && r.cells == w.cells && (forall|name: Seq<char>|
        name != dst && name != names::tmp0() && name != names::tmp1() && name != names::tmp2()
            ==> r.computer[name] == w.computer[name])) by {
        broadcast use group_registers;

        lemma_reserved_names_differ();
    }
    if a < 0 {
        lemma_wrap_fits(a - b);
    }
}

/// What the lowering of the division leaves in the destination where the
/// dividend `a` has its top bit set and the divisor `b` has not.
spec fn halved_quotient(a: int, b: int) -> int {
    let low = apply(PlayerOp::Add, a, i32::MIN as int);
    let half = wrap(apply(PlayerOp::Div, low, 2) + 0x4000_0000);
    let twice = apply(PlayerOp::Mul, apply(PlayerOp::Div, half, b), 2);
    let bit = apply(PlayerOp::Rem, low, 2);
    let rest = apply(PlayerOp::Add, apply(PlayerOp::Mul, apply(PlayerOp::Rem, half, b), 2), bit);
    let over = apply(PlayerOp::Sub, rest, b);
    if rest >= 0 && over < 0 {
        wrap(wrap(twice + 1) - 1)
    } else {
        wrap(twice + 1)
    }
}

/// The dividend has its top bit set and the divisor has not: what the
/// operations leave behind.
proof fn lemma_udiv_halved_runs(w: World, tests: Seq<Test>, dst: Seq<char>, src: Seq<char>)
    requires
        operands_ok(tests, dst, src),
        w.apart(),
        constants_set(w),
        holds(w.computer, tests),
        w.computer[dst] < 0,
        0 < w.computer[src],
    ensures
        ({
            let r = run(code::udiv(tests, dst, src), w);
            &&& r.lanes == w.lanes
            &&& r.cells == w.cells
            &&& r.computer[dst] == halved_quotient(w.computer[dst], w.computer[src])
            &&& forall|name: Seq<char>|
                name != dst && name != names::tmp0() && name != names::tmp1() && name
                    != names::tmp2() ==> r.computer[name] == w.computer[name]
        }),
{
    broadcast use group_registers;

    lemma_reserved_names_differ();
}

/// Wrapping an unsigned 32-bit number gives the signed number with its
/// bits.
pub proof fn lemma_wrap_unsigned(x: int)
    requires
        0 <= x < 0x1_0000_0000,
    ensures
        wrap(x) == signed(x),
{
    reveal(wrap);
}

/// The last round by hand gives the quotient of the unsigned dividend.
proof fn lemma_halved_quotient(a: int, b: int)
    requires
        i32::MIN <= a < 0,
        0 < b <= i32::MAX,
    ensures
        halved_quotient(a, b) == signed(unsigned(a) / b),
{
    let ua = unsigned(a);
    let h = ua / 2;
    let q1 = h / b;
    let r1 = h % b;
    let bit_ = ua % 2;
    let r = 2 * r1 + bit_;
    lemma_halve(a);
    lemma_last_round(ua, b);
    vstd::arithmetic::div_mod::lemma_fundamental_div_mod(h, b);
    assert(b * q1 == q1 * b) by (nonlinear_arith);
    assert(q1 * 2 == 2 * q1) by (nonlinear_arith);
    assert(r1 * 2 == 2 * r1) by (nonlinear_arith);
    assert(trunc_div(h, b) == q1 && trunc_rem(h, b) == r1) by {
        reveal(trunc_div);
        reveal(trunc_rem);
    }
    let low = apply(PlayerOp::Add, a, i32::MIN as int);
    assert(low == a + 0x8000_0000);
    let half = wrap(apply(PlayerOp::Div, low, 2) + 0x4000_0000);
    assert(half == h);
    lemma_wrap_fits(q1);
    let twice = apply(PlayerOp::Mul, apply(PlayerOp::Div, half, b), 2);
    assert(twice == wrap(2 * q1));
    let bit = apply(PlayerOp::Rem, low, 2);
    assert(bit == bit_);
    assert(apply(PlayerOp::Rem, half, b) == r1);
    let rest = apply(PlayerOp::Add, apply(PlayerOp::Mul, apply(PlayerOp::Rem, half, b), 2), bit);
    lemma_wrap_add(2 * r1, bit_);
    assert(rest == wrap(r));
    let over = apply(PlayerOp::Sub, rest, b);
    lemma_wrap_add(r, -b);
    assert(over == wrap(r - b));
    lemma_wrap_add(2 * q1, 1);
    lemma_wrap_add(2 * q1 + 1, -1);
    lemma_wrap_unsigned(r);
    assert(ua / b < 0x1_0000_0000) by {
        vstd::arithmetic::div_mod::lemma_div_is_ordered_by_denominator(ua, 1, b);
        vstd::arithmetic::div_mod::lemma_div_basics(ua);
    }
    lemma_wrap_unsigned(ua / b);
    if r < 0x8000_0000 {
        lemma_wrap_fits(r - b);
    }
}

/// The dividend has its top bit set and the divisor has not: the halved
/// dividend is divided, and the last round is made by hand.
proof fn lemma_udiv_halved(w: World, tests: Seq<Test>, dst: Seq<char>, src: Seq<char>)
    requires
        operands_ok(tests, dst, src),
        w.apart(),
        constants_set(w),
        holds(w.computer, tests),
        i32::MIN <= w.computer[dst] < 0,
        0 < w.computer[src] <= i32::MAX,
    ensures
        ({
            let r = run(code::udiv(tests, dst, src), w);
            &&& r.lanes == w.lanes
            &&& r.cells == w.cells
            &&& r.computer[dst] == signed(unsigned(w.computer[dst]) / w.computer[src])
            &&& forall|name: Seq<char>|
                name != dst && name != names::tmp0() && name != names::tmp1() && name
                    != names::tmp2() ==> r.computer[name] == w.computer[name]
        }),
{
    lemma_udiv_halved_runs(w, tests, dst, src);
    lemma_halved_quotient(w.computer[dst], w.computer[src]);
}

/// The unsigned division leaves in its destination the quotient of the two
/// registers read as unsigned numbers, where the guards hold and the
/// divisor is not zero; where the guards fail it changes nothing. Besides
/// the destination only the temporaries may change.
pub proof fn lemma_udiv_divides_unsigned(w: World, tests: Seq<Test>, dst: Seq<char>, src: Seq<char>)
    requires
        operands_ok(tests, dst, src),
        w.apart(),
        constants_set(w),
        i32::MIN <= w.computer[dst] <= i32::MAX,
        i32::MIN <= w.computer[src] <= i32::MAX,
        w.computer[src] != 0,
    ensures
        ({
            let r = run(code::udiv(tests, dst, src), w);
            &&& r.lanes == w.lanes
            &&& r.cells == w.cells
            &&& r.computer[dst] == (if holds(w.computer, tests) {
                signed(unsigned(w.computer[dst]) / unsigned(w.computer[src]))
            } else {
                w.computer[dst]
            })
            &&& forall|name: Seq<char>|
                name != dst && name != names::tmp0() && name != names::tmp1() && name
                    != names::tmp2() ==> r.computer[name] == w.computer[name]
        }),
{
    let a = w.computer[dst];
    let b = w.computer[src];
    if !holds(w.computer, tests) {
        lemma_udiv_skipped(w, tests, dst, src);
    } else if b < 0 {
        lemma_udiv_dominant(w, tests, dst, src);
        let ua = unsigned(a);
        let ub = unsigned(b);
        if a < 0 && a >= b {
            lemma_fundamental_div_mod_converse(ua, ub, 1, ua - ub);
        } else {
            lemma_fundamental_div_mod_converse(ua, ub, 0, ua);
        }
    } else if a < 0 {
        lemma_udiv_halved(w, tests, dst, src);
    } else {
        lemma_udiv_small(w, tests, dst, src);
        vstd::arithmetic::div_mod::lemma_div_pos_is_pos(a, b);
        vstd::arithmetic::div_mod::lemma_div_is_ordered_by_denominator(a, 1, b);
        vstd::arithmetic::div_mod::lemma_div_basics(a);
    }
}

} // verus!

verus! {

/// Where the guards fail, the remainder changes nothing.
proof fn lemma_urem_skipped(w: World, tests: Seq<Test>, dst: Seq<char>, src: Seq<char>)
    requires
        w.apart(),
        !holds(w.computer, tests),
    ensures
        run(code::urem(tests, dst, src), w) == w,
{
    broadcast use group_registers;

}

/// Both operands fit the signed range: the signed remainder is exact.
proof fn lemma_urem_small(w: World, tests: Seq<Test>, dst: Seq<char>, src: Seq<char>)
    requires
        operands_ok(tests, dst, src),
        w.apart(),
        constants_set(w),
        holds(w.computer, tests),
        0 <= w.computer[dst] <= i32::MAX,
        0 < w.computer[src] <= i32::MAX,
    ensures
        ({
            let r = run(code::urem(tests, dst, src), w);
            &&& r.lanes == w.lanes
            &&& r.cells == w.cells
            &&& r.computer[dst] == w.computer[dst] % w.computer[src]
            &&& forall|name: Seq<char>|
                name != dst && name != names::tmp0() && name != names::tmp1() && name
                    != names::tmp2() ==> r.computer[name] == w.computer[name]
        }),
{
    let a = w.computer[dst];
    let b = w.computer[src];
    let r = run(code::urem(tests, dst, src), w);
    assert(r.computer[dst] == apply(PlayerOp::Rem, a, b) && r.lanes == w.lanes && r.cells == w.cells && (forall|
        name: Seq<char>,
    |
        name != dst && name != names::tmp0() && name != names::tmp1() && name != names::tmp2()
            ==> r.computer[name] == w.computer[name])) by {
        broadcast use group_registers;

        lemma_reserved_names_differ();
    }
    assert(apply(PlayerOp::Rem, a, b) == a % b) by {
        reveal(trunc_div);
        reveal(trunc_rem);
        vstd::arithmetic::div_mod::lemma_fundamental_div_mod(a, b);
    }
}

/// The divisor has its top bit set: it is taken off the dividend once or
/// not at all.
proof fn lemma_urem_dominant(w: World, tests: Seq<Test>, dst: Seq<char>, src: Seq<char>)
    requires
        operands_ok(tests, dst, src),
        w.apart(),
        constants_set(w),
        holds(w.computer, tests),
        i32::MIN <= w.computer[dst] <= i32::MAX,
        i32::MIN <= w.computer[src] < 0,
    ensures
        ({
            let r = run(code::urem(tests, dst, src), w);
            &&& r.lanes == w.lanes
            &&& r.cells == w.cells
            &&& r.computer[dst] == (if w.computer[dst] < 0 && w.computer[dst] >= w.computer[src] {
                w.computer[dst] - w.computer[src]
            } else {
                w.computer[dst]
            })
            &&& forall|name: Seq<char>|
                name != dst && name != names::tmp0() && name != names::tmp1() && name
                    != names::tmp2() ==> r.computer[name] == w.computer[name]
        }),
{
    let a = w.computer[dst];
    let b = w.computer[src];
    let r = run(code::urem(tests, dst, src), w);
    let once = if a < 0 {
        apply(PlayerOp::Sub, a, b)
    } else {
        a
    };
    assert(r.computer[dst] == (if once < 0 {
        apply(PlayerOp::Add, once, b)
    } else {
        once
    }) && r.lanes == w.lanes && r.cells == w.cells && (forall|name: Seq<char>|
        name != dst && name != names::tmp0() && name != names::tmp1() && name != names::tmp2()
            ==> r.computer[name] == w.computer[name])) by {
        broadcast use group_registers;

        lemma_reserved_names_differ();
    }
    if a < 0 {
        lemma_wrap_fits(a - b);
        lemma_wrap_fits(a);
    }
}

/// What the lowering of the remainder leaves in the destination where the
/// dividend `a` has its top bit set and the divisor `b` has not.
spec fn halved_remainder(a: int, b: int) -> int {
    let low = apply(PlayerOp::Add, a, i32::MIN as int);
    let half = wrap(apply(PlayerOp::Div, low, 2) + 0x4000_0000);
    let bit = apply(PlayerOp::Rem, low, 2);
    let rest = apply(PlayerOp::Add, apply(PlayerOp::Mul, apply(PlayerOp::Rem, half, b), 2), bit);
    let over = apply(PlayerOp::Sub, rest, b);
    if over < 0 && rest >= 0 {
        apply(PlayerOp::Sub, apply(PlayerOp::Add, rest, b), b)
    } else {
        apply(PlayerOp::Sub, rest, b)
    }
}

/// The dividend has its top bit set and the divisor has not: what the
/// operations leave behind.
proof fn lemma_urem_halved_runs(w: World, tests: Seq<Test>, dst: Seq<char>, src: Seq<char>)
    requires
        operands_ok(tests, dst, src),
        w.apart(),
        constants_set(w),
        holds(w.computer, tests),
        w.computer[dst] < 0,
        0 < w.computer[src],
    ensures
        ({
            let r = run(code::urem(tests, dst, src), w);
            &&& r.lanes == w.lanes
            &&& r.cells == w.cells
            &&& r.computer[dst] == halved_remainder(w.computer[dst], w.computer[src])
            &&& forall|name: Seq<char>|
                name != dst && name != names::tmp0() && name != names::tmp1() && name
                    != names::tmp2() ==> r.computer[name] == w.computer[name]
        }),
{
    broadcast use group_registers;

    lemma_reserved_names_differ();
}

/// The last round by hand gives the remainder of the unsigned dividend.
proof fn lemma_halved_remainder(a: int, b: int)
    requires
        i32::MIN <= a < 0,
        0 < b <= i32::MAX,
    ensures
        halved_remainder(a, b) == unsigned(a) % b,
{
    let ua = unsigned(a);
    let h = ua / 2;
    let q1 = h / b;
    let r1 = h % b;
    let bit_ = ua % 2;
    let r = 2 * r1 + bit_;
    lemma_halve(a);
    lemma_last_round(ua, b);
    vstd::arithmetic::div_mod::lemma_fundamental_div_mod(h, b);
    assert(b * q1 == q1 * b) by (nonlinear_arith);
    assert(r1 * 2 == 2 * r1) by (nonlinear_arith);
    assert(trunc_div(h, b) == q1 && trunc_rem(h, b) == r1) by {
        reveal(trunc_div);
        reveal(trunc_rem);
    }
    let low = apply(PlayerOp::Add, a, i32::MIN as int);
    assert(low == a + 0x8000_0000);
    let half = wrap(apply(PlayerOp::Div, low, 2) + 0x4000_0000);
    assert(half == h);
    let bit = apply(PlayerOp::Rem, low, 2);
    assert(bit == bit_);
    assert(apply(PlayerOp::Rem, half, b) == r1);
    let rest = apply(PlayerOp::Add, apply(PlayerOp::Mul, apply(PlayerOp::Rem, half, b), 2), bit);
    lemma_wrap_add(2 * r1, bit_);
    assert(rest == wrap(r));
    let over = apply(PlayerOp::Sub, rest, b);
    lemma_wrap_add(r, -b);
    assert(over == wrap(r - b));
    lemma_wrap_add(r, b);
    lemma_wrap_add(r + b, -b);
    lemma_wrap_unsigned(r);
    if r < 0x8000_0000 {
        lemma_wrap_fits(r - b);
        lemma_wrap_fits(r);
    } else {
        lemma_wrap_fits(r - b);
    }
}

/// The unsigned remainder leaves in its destination the remainder of the
/// two registers read as unsigned numbers, where the guards hold and the
/// divisor is not zero; where the guards fail it changes nothing. Besides
/// the destination only the temporaries may change.
pub proof fn lemma_urem_remains_unsigned(w: World, tests: Seq<Test>, dst: Seq<char>, src: Seq<char>)
    requires
        operands_ok(tests, dst, src),
        w.apart(),
        constants_set(w),
        i32::MIN <= w.computer[dst] <= i32::MAX,
        i32::MIN <= w.computer[src] <= i32::MAX,
        w.computer[src] != 0,
    ensures
        ({
            let r = run(code::urem(tests, dst, src), w);
            &&& r.lanes == w.lanes
            &&& r.cells == w.cells
            &&& r.computer[dst] == (if holds(w.computer, tests) {
                signed(unsigned(w.computer[dst]) % unsigned(w.computer[src]))
            } else {
                w.computer[dst]
            })
            &&& forall|name: Seq<char>|
                name != dst && name != names::tmp0() && name != names::tmp1() && name
                    != names::tmp2() ==> r.computer[name] == w.computer[name]
        }),
{
    let a = w.computer[dst];
    let b = w.computer[src];
    let ua = unsigned(a);
    let ub = unsigned(b);
    if !holds(w.computer, tests) {
        lemma_urem_skipped(w, tests, dst, src);
    } else if b < 0 {
        lemma_urem_dominant(w, tests, dst, src);
        if a < 0 && a >= b {
            lemma_fundamental_div_mod_converse(ua, ub, 1, ua - ub);
        } else {
            lemma_fundamental_div_mod_converse(ua, ub, 0, ua);
        }
    } else if a < 0 {
        lemma_urem_halved_runs(w, tests, dst, src);
        lemma_halved_remainder(a, b);
        vstd::arithmetic::div_mod::lemma_mod_bound(ua, b);
    } else {
        lemma_urem_small(w, tests, dst, src);
        vstd::arithmetic::div_mod::lemma_mod_bound(a, b);
    }
}

} // verus!

verus! {

/// What the operand of a division by itself must satisfy: the register is
/// none that the lowering reserves, and no guard is on a register that is
/// written.
pub open spec fn operand_ok(tests: Seq<Test>, reg: Seq<char>) -> bool {
    &&& is_free(reg)
    &&& !mentions(tests, reg)
    &&& !mentions(tests, names::tmp0())
    &&& !mentions(tests, names::tmp1())
    &&& !mentions(tests, names::tmp2())
}

/// The unsigned division of a register by itself leaves one in it, where
/// the guards hold and the register holds a number above zero.
pub proof fn lemma_udiv_by_itself(w: World, tests: Seq<Test>, reg: Seq<char>)
    requires
        operand_ok(tests, reg),
        w.apart(),
        constants_set(w),
        holds(w.computer, tests),
        0 < w.computer[reg] <= i32::MAX,
    ensures
        run(code::udiv(tests, reg, reg), w).computer[reg] == 1,
{
    let a = w.computer[reg];
    assert(apply(PlayerOp::Div, a, a) == 1) by {
        reveal(trunc_div);
        vstd::arithmetic::div_mod::lemma_div_basics(a);
        lemma_wrap_fits(1);
    }
    assert(run(code::udiv(tests, reg, reg), w).computer[reg] == apply(PlayerOp::Div, a, a)) by {
        broadcast use group_registers;

        lemma_reserved_names_differ();
    }
}

/// The unsigned remainder of a register by itself leaves zero in it, where
/// the guards hold and the register holds a number above zero.
pub proof fn lemma_urem_by_itself(w: World, tests: Seq<Test>, reg: Seq<char>)
    requires
        operand_ok(tests, reg),
        w.apart(),
        constants_set(w),
        holds(w.computer, tests),
        0 < w.computer[reg] <= i32::MAX,
    ensures
        run(code::urem(tests, reg, reg), w).computer[reg] == 0,
{
    let a = w.computer[reg];
    assert(run(code::urem(tests, reg, reg), w).computer[reg] == apply(PlayerOp::Rem, a, a)) by {
        broadcast use group_registers;

        lemma_reserved_names_differ();
    }
    assert(apply(PlayerOp::Rem, a, a) == 0) by {
        reveal(trunc_div);
        reveal(trunc_rem);
        vstd::arithmetic::div_mod::lemma_div_basics(a);
        assert(a * 1 == a) by (nonlinear_arith);
    }
}

} // verus!
