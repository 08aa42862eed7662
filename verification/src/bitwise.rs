//! What the bitwise operations compute on the machine.

use vstd::prelude::*;
use vstd::arithmetic::power2::{lemma2_to64, lemma_pow2_pos, lemma_pow2_strictly_increases, pow2};
use crate::ast::Test;
use crate::bits::{
    bits_of, lane_bit, lemma_bits_of_signed, lemma_bitwise_bits, lemma_lane_bit,
    lemma_weighed_bits, low31, weighed_bits,
};
use crate::code;
use crate::commands::{PlayerOp, SelectorModel, TargetModel};
use crate::division::{constants_set, signed};
use crate::lanes::{
    component, gathered, lanes_ready, lemma_all_lanes, lemma_bit_vec_op, lemma_gather_guarded,
    lemma_xr_lanes, lemma_xset_lanes,
};
use crate::machine::{
    apply, exec, holds, lemma_run_concat, lemma_run_one, lemma_run_push, lemma_wrap_add,
    lemma_wrap_fits, mentions, run, trunc_div, trunc_rem, wrap, Actor, World,
};
use crate::names;
use crate::registers::{
    lemma_holds_insert, lemma_holds_push, lemma_reserved_names_differ, lemma_rset,
};
use crate::types::Interval;

verus! {

/// What the lane of rank `k` works out of the value `v`: the bit of that
/// rank.
proof fn lemma_lane_works_out_bit(v: int, k: int)
    requires
        i32::MIN <= v <= i32::MAX,
        0 <= k < 32,
    ensures
        ({
            let x = if v < 0 {
                apply(PlayerOp::Sub, v, i32::MIN as int)
            } else {
                v
            };
            let y = apply(PlayerOp::Rem, apply(PlayerOp::Div, x, component(k)), 2);
            (if k == 31 && v < 0 {
                1
            } else {
                y
            }) == lane_bit(v, k)
        }),
{
    reveal(wrap);
    reveal(trunc_div);
    reveal(trunc_rem);
    let x = low31(v);
    lemma2_to64();
    if k == 31 {
        assert(x / 0x8000_0000 == 0);
    } else {
        let p = pow2(k as nat) as int;
        lemma_pow2_pos(k as nat);
        lemma_pow2_strictly_increases(k as nat, 31);
        vstd::arithmetic::div_mod::lemma_div_pos_is_pos(x, p);
        vstd::arithmetic::div_mod::lemma_div_is_ordered_by_denominator(x, 1, p);
        vstd::arithmetic::div_mod::lemma_div_basics(x);
    }
}

/// The lanes hold in their counter `name` the bits of `v`, know their rank
/// and their weight, and are 32.
pub open spec fn lanes_hold(w: World, name: Seq<char>, v: int) -> bool {
    &&& lanes_ready(w)
    &&& forall|k: int| 0 <= k < 32 ==> (#[trigger] w.lanes[k])[name] == lane_bit(v, k)
}

/// Two worlds differ in no counter of a lane but `name`.
pub open spec fn lanes_differ_in(w: World, r: World, name: Seq<char>) -> bool {
    &&& r.lanes.len() == w.lanes.len()
    &&& forall|k: int, other: Seq<char>|
        0 <= k < w.lanes.len() && other != name ==> #[trigger] r.lanes[k][other]
            == w.lanes[k][other]
}

/// Spreading the bits of a register: afterwards the lanes hold them in
/// their counter `name`; no register and no other counter of a lane
/// changes.
proof fn lemma_expand_bits(w: World, tests: Seq<Test>, reg: Seq<char>, name: Seq<char>)
    requires
        w.apart(),
        lanes_ready(w),
        constants_set(w),
        holds(w.computer, tests),
        name != names::bit_number(),
        name != names::bit_component(),
        i32::MIN <= w.computer[reg] <= i32::MAX,
    ensures
        ({
            let r = run(code::expand_bits(tests, reg, name), w);
            &&& r.computer == w.computer
            &&& r.cells == w.cells
            &&& lanes_hold(r, name, w.computer[reg])
            &&& lanes_differ_in(w, r, name)
        }),
{
    broadcast use lemma_run_push, lemma_holds_push;

    let v = w.computer[reg];
    let all = SelectorModel::on_team(names::shifters());
    let top = all.with_score(names::bit_number(), Interval::Bounded(31, 31));
    let neg = tests.push(code::negative(reg));
    lemma_all_lanes(w, 32);

    let w1 = exec(code::xr(tests, names::all_lanes(), name, PlayerOp::Asn, reg), w, Actor::Nobody);
    lemma_xr_lanes(w, tests, all, name, PlayerOp::Asn, reg);
    assert forall|k: int| 0 <= k < 32 implies (#[trigger] w1.lanes[k]) == w.lanes[k].insert(
        name,
        v,
    ) by {}

    let w2 = exec(
        code::xr(neg, names::all_lanes(), name, PlayerOp::Sub, names::min()),
        w1,
        Actor::Nobody,
    );
    lemma_xr_lanes(w1, neg, all, name, PlayerOp::Sub, names::min());
    lemma_all_lanes(w1, 32);
    assert forall|k: int| 0 <= k < 32 implies (#[trigger] w2.lanes[k]) == w.lanes[k].insert(
        name,
        if v < 0 {
            apply(PlayerOp::Sub, v, i32::MIN as int)
        } else {
            v
        },
    ) by {
        assert(w1.lanes[k] == w.lanes[k].insert(name, v));
    }

    let w3 = exec(
        code::bit_vec_op(tests, name, PlayerOp::Div, names::bit_component()),
        w2,
        Actor::Nobody,
    );
    lemma_bit_vec_op(w2, tests, name, PlayerOp::Div, names::bit_component());

    let w4 = exec(
        code::xr(tests, names::all_lanes(), name, PlayerOp::Rem, names::two()),
        w3,
        Actor::Nobody,
    );
    lemma_xr_lanes(w3, tests, all, name, PlayerOp::Rem, names::two());
    lemma_all_lanes(w3, 32);
    assert forall|k: int| 0 <= k < 32 implies (#[trigger] w4.lanes[k]) == w.lanes[k].insert(
        name,
        apply(
            PlayerOp::Rem,
            apply(
                PlayerOp::Div,
                if v < 0 {
                    apply(PlayerOp::Sub, v, i32::MIN as int)
                } else {
                    v
                },
                component(k),
            ),
            2,
        ),
    ) by {
        assert(w2.lanes[k][names::bit_component()] == w.lanes[k][names::bit_component()]);
        assert(w3.lanes[k] == w2.lanes[k].insert(
            name,
            apply(PlayerOp::Div, w2.lanes[k][name], w2.lanes[k][names::bit_component()]),
        ));
        assert(w4.lanes[k] =~= w.lanes[k].insert(
            name,
            apply(
                PlayerOp::Rem,
                apply(
                    PlayerOp::Div,
                    if v < 0 {
                        apply(PlayerOp::Sub, v, i32::MIN as int)
                    } else {
                        v
                    },
                    component(k),
                ),
                2,
            ),
        ));
    }

    let w5 = exec(code::xset(neg, TargetModel::Sel(top), name, 1), w4, Actor::Nobody);
    lemma_xset_lanes(w4, neg, top, name, 1);
    assert(code::lanes_where(names::bit_number(), Interval::Bounded(31, 31)) == TargetModel::Sel(
        top,
    ));
    assert(run(code::expand_bits(tests, reg, name), w) == w5);
    assert(top.scores =~= seq![
        Test { objective: names::bit_number(), interval: Interval::Bounded(31, 31) },
    ]);
    assert forall|k: int| 0 <= k < 32 implies (#[trigger] w5.lanes[k])[name] == lane_bit(v, k) && (
    forall|other: Seq<char>| other != name ==> w5.lanes[k][other] == w.lanes[k][other]) by {
        lemma_lane_works_out_bit(v, k);
        assert(w4.matches(top, Actor::Lane(k)) <==> k == 31) by {
            assert(w4.lanes[k][names::bit_number()] == k);
            assert(top.scores[0].interval.contains(w4.lanes[k][top.scores[0].objective]) <==> k
                == 31);
        }
    }
}

} // verus!

verus! {

/// The register gathers the weighted counters of the lanes.
proof fn lemma_gathered_bits(w: World, name: Seq<char>, z: int, n: int)
    requires
        w.lanes.len() == 32,
        0 <= n <= 32,
        forall|k: int|
            0 <= k < 32 ==> (#[trigger] w.lanes[k])[name] == lane_bit(z, k) * component(k),
    ensures
        gathered(
            w,
            SelectorModel::on_team(names::shifters()),
            n,
            PlayerOp::Add,
            name,
            0,
        ) == wrap(weighed_bits(z, n)),
    decreases n,
{
    let all = SelectorModel::on_team(names::shifters());
    if n == 0 {
        lemma_wrap_fits(0);
    } else {
        lemma_gathered_bits(w, name, z, n - 1);
        lemma_all_lanes(w, 32);
        assert(w.matches(all, Actor::Lane(n - 1)));
        assert(w.lanes[n - 1][name] == lane_bit(z, n - 1) * component(n - 1));
        lemma_wrap_add(weighed_bits(z, n - 1), lane_bit(z, n - 1) * component(n - 1));
    }
}

/// A bit times the weight of its lane is a 32-bit signed number.
proof fn lemma_weighted_bit_fits(bit: int, k: int)
    requires
        bit == 0 || bit == 1,
        0 <= k < 32,
    ensures
        apply(PlayerOp::Mul, bit, component(k)) == bit * component(k),
        i32::MIN <= bit * component(k) <= i32::MAX,
{
    lemma2_to64();
    if k < 31 {
        lemma_pow2_pos(k as nat);
        lemma_pow2_strictly_increases(k as nat, 31);
    }
    assert(bit * component(k) == if bit == 0 {
        0
    } else {
        component(k)
    }) by (nonlinear_arith)
        requires
            bit == 0 || bit == 1,
    ;
    lemma_wrap_fits(bit * component(k));
}

/// Gathering the bits: afterwards the register holds the number whose bits
/// the lanes held; no other register changes, and the lanes still know
/// their rank and their weight.
proof fn lemma_accum_bits(w: World, tests: Seq<Test>, dst: Seq<char>, name: Seq<char>, z: int)
    requires
        w.apart(),
        lanes_hold(w, name, z),
        i32::MIN <= z <= i32::MAX,
        holds(w.computer, tests),
        !mentions(tests, dst),
        name != names::bit_number(),
        name != names::bit_component(),
    ensures
        ({
            let r = run(code::accum_bits(tests, dst, name), w);
            &&& r.computer[dst] == z
            &&& forall|other: Seq<char>| other != dst ==> r.computer[other] == w.computer[other]
            &&& r.cells == w.cells
            &&& lanes_ready(r)
            &&& lanes_differ_in(w, r, name)
        }),
{
    broadcast use lemma_run_push, lemma_holds_insert;

    let all = SelectorModel::on_team(names::shifters());
    let w1 = exec(
        code::bit_vec_op(tests, name, PlayerOp::Mul, names::bit_component()),
        w,
        Actor::Nobody,
    );
    lemma_bit_vec_op(w, tests, name, PlayerOp::Mul, names::bit_component());
    let w2 = exec(code::rset(tests, dst, 0), w1, Actor::Nobody);
    lemma_rset(w1, tests, dst, 0);
    lemma_gather_guarded(w2, tests, all, dst, PlayerOp::Add, name);
    assert forall|k: int| 0 <= k < 32 implies (#[trigger] w2.lanes[k])[name] == lane_bit(z, k)
        * component(k) && (forall|other: Seq<char>|
        other != name ==> w2.lanes[k][other] == w.lanes[k][other]) by {
        lemma_lane_bit(z, k);
        lemma_weighted_bit_fits(lane_bit(z, k), k);
        assert(w.lanes[k][names::bit_component()] == component(k));
        assert(w1.lanes[k] == w.lanes[k].insert(
            name,
            apply(PlayerOp::Mul, w.lanes[k][name], w.lanes[k][names::bit_component()]),
        ));
    }
    lemma_gathered_bits(w2, name, z, 32);
    lemma_weighed_bits(z);
    lemma_wrap_fits(z);
    let r = run(code::accum_bits(tests, dst, name), w);
    assert(r.lanes == w2.lanes);
    assert(lanes_ready(r)) by {
        assert forall|k: int| 0 <= k < 32 implies (#[trigger] r.lanes[k])[names::bit_number()]
            == k && r.lanes[k][names::bit_component()] == component(k) by {
            assert(w2.lanes[k][names::bit_number()] == w.lanes[k][names::bit_number()]);
        }
    }
}

/// What a lane makes of two bits in a bitwise operation.
pub open spec fn combined(op: PlayerOp, reduce: bool, x: int, y: int) -> int {
    if reduce {
        apply(PlayerOp::Rem, apply(op, x, y), 2)
    } else {
        apply(op, x, y)
    }
}

/// Where the guards fail, a bitwise operation changes nothing.
proof fn lemma_bitwise_skipped(
    w: World,
    tests: Seq<Test>,
    dst: Seq<char>,
    src: Seq<char>,
    op: PlayerOp,
    reduce: bool,
)
    requires
        w.apart(),
        !holds(w.computer, tests),
    ensures
        run(code::bitwise(tests, dst, src, op, reduce), w) == w,
{
    broadcast use crate::registers::group_registers, crate::registers::lemma_skip;

    let a = code::expand_bits(tests, dst, names::tmp0());
    let b = code::expand_bits(tests, src, names::tmp1());
    let c = seq![code::bit_vec_op(tests, names::tmp0(), op, names::tmp1())];
    let d = if reduce {
        seq![code::xr(tests, names::all_lanes(), names::tmp0(), PlayerOp::Rem, names::two())]
    } else {
        Seq::empty()
    };
    let e = code::accum_bits(tests, dst, names::tmp0());
    lemma_run_concat(a + b + c + d, e, w);
    lemma_run_concat(a + b + c, d, w);
    lemma_run_concat(a + b, c, w);
    lemma_run_concat(a, b, w);
    lemma_run_one(c[0], w);
    if reduce {
        lemma_run_one(d[0], w);
    }
    assert(run(a, w) == w);
    assert(run(b, w) == w);
    assert(run(e, w) == w);
}

/// A bitwise operation leaves in its destination the number whose bits the
/// lanes make of the bits of the two operands.
proof fn lemma_bitwise(
    w: World,
    tests: Seq<Test>,
    dst: Seq<char>,
    src: Seq<char>,
    op: PlayerOp,
    reduce: bool,
    z: int,
)
    requires
        w.apart(),
        lanes_ready(w),
        constants_set(w),
        holds(w.computer, tests),
        !mentions(tests, dst),
        i32::MIN <= w.computer[dst] <= i32::MAX,
        i32::MIN <= w.computer[src] <= i32::MAX,
        i32::MIN <= z <= i32::MAX,
        forall|k: int|
            0 <= k < 32 ==> #[trigger] lane_bit(z, k) == combined(
                op,
                reduce,
                lane_bit(w.computer[dst], k),
                lane_bit(w.computer[src], k),
            ),
    ensures
        ({
            let r = run(code::bitwise(tests, dst, src, op, reduce), w);
            &&& r.computer[dst] == z
            &&& forall|other: Seq<char>| other != dst ==> r.computer[other] == w.computer[other]
            &&& r.cells == w.cells
            &&& lanes_ready(r)
        }),
{
    lemma_reserved_names_differ();
    let t0 = names::tmp0();
    let t1 = names::tmp1();
    let all = SelectorModel::on_team(names::shifters());
    let va = w.computer[dst];
    let vb = w.computer[src];
    let a = code::expand_bits(tests, dst, t0);
    let b = code::expand_bits(tests, src, t1);
    let c = seq![code::bit_vec_op(tests, t0, op, t1)];
    let d = if reduce {
        seq![code::xr(tests, names::all_lanes(), t0, PlayerOp::Rem, names::two())]
    } else {
        Seq::empty()
    };
    let e = code::accum_bits(tests, dst, t0);
    lemma_run_concat(a + b + c + d, e, w);
    lemma_run_concat(a + b + c, d, w);
    lemma_run_concat(a + b, c, w);
    lemma_run_concat(a, b, w);

    let w1 = run(a, w);
    lemma_expand_bits(w, tests, dst, t0);
    let w2 = run(b, w1);
    lemma_expand_bits(w1, tests, src, t1);
    let w3 = run(c, w2);
    lemma_run_one(c[0], w2);
    lemma_bit_vec_op(w2, tests, t0, op, t1);
    let w4 = run(d, w3);
    if reduce {
        lemma_run_one(d[0], w3);
        lemma_xr_lanes(w3, tests, all, t0, PlayerOp::Rem, names::two());
        lemma_all_lanes(w3, 32);
    }
    assert(w4.computer == w.computer);
    assert(lanes_hold(w4, t0, z)) by {
        assert forall|k: int| 0 <= k < 32 implies (#[trigger] w4.lanes[k])[t0] == lane_bit(z, k)
            && w4.lanes[k][names::bit_number()] == k && w4.lanes[k][names::bit_component()]
            == component(k) by {
            assert(w1.lanes[k][t0] == lane_bit(va, k));
            assert(w2.lanes[k][t0] == w1.lanes[k][t0]);
            assert(w2.lanes[k][t1] == lane_bit(vb, k));
            assert(w3.lanes[k] == w2.lanes[k].insert(
                t0,
                apply(op, w2.lanes[k][t0], w2.lanes[k][t1]),
            ));
            assert(lane_bit(z, k) == combined(op, reduce, lane_bit(va, k), lane_bit(vb, k)));
            assert(w2.lanes[k][names::bit_number()] == k);
            assert(w2.lanes[k][names::bit_component()] == component(k));
        }
    }
    lemma_accum_bits(w4, tests, dst, t0, z);
}

} // verus!

verus! {

/// What holds of the machine and the operands before a bitwise operation:
/// the lanes and the constants are set up, both registers hold 32-bit
/// signed numbers, and no guard is on the destination.
pub open spec fn bitwise_ready(w: World, tests: Seq<Test>, dst: Seq<char>, src: Seq<char>) -> bool {
    &&& w.apart()
    &&& lanes_ready(w)
    &&& constants_set(w)
    &&& !mentions(tests, dst)
    &&& i32::MIN <= w.computer[dst] <= i32::MAX
    &&& i32::MIN <= w.computer[src] <= i32::MAX
}

/// What a bitwise operation leaves behind: the destination holds `z` where
/// the guards hold; no other register changes, and none at all where the
/// guards fail; the lanes still know their rank and their weight.
pub open spec fn bitwise_result(
    w: World,
    tests: Seq<Test>,
    dst: Seq<char>,
    r: World,
    z: int,
) -> bool {
    &&& r.computer[dst] == (if holds(w.computer, tests) {
        z
    } else {
        w.computer[dst]
    })
    &&& forall|other: Seq<char>| other != dst ==> r.computer[other] == w.computer[other]
    &&& r.cells == w.cells
    &&& lanes_ready(r)
}

/// `and` leaves in its destination the bitwise AND of the two registers.
pub proof fn lemma_and_is_bitwise_and(w: World, tests: Seq<Test>, dst: Seq<char>, src: Seq<char>)
    requires
        bitwise_ready(w, tests, dst, src),
    ensures
        bitwise_result(
            w,
            tests,
            dst,
            run(code::and_rr(tests, dst, src), w),
            signed((bits_of(w.computer[dst]) & bits_of(w.computer[src])) as int),
        ),
{
    let x = bits_of(w.computer[dst]);
    let y = bits_of(w.computer[src]);
    let z = signed((x & y) as int);
    if holds(w.computer, tests) {
        lemma_bits_of_signed(x & y);
        assert forall|k: int| 0 <= k < 32 implies #[trigger] lane_bit(z, k) == combined(
            PlayerOp::Mul,
            false,
            lane_bit(w.computer[dst], k),
            lane_bit(w.computer[src], k),
        ) by {
            lemma_lane_bit(z, k);
            lemma_lane_bit(w.computer[dst], k);
            lemma_lane_bit(w.computer[src], k);
            lemma_bitwise_bits(x, y, k as u32);
            lemma_bitwise_bits(x & y, y, k as u32);
            lemma_wrap_fits(0);
            lemma_wrap_fits(1);
            let p = lane_bit(w.computer[dst], k);
            let q = lane_bit(w.computer[src], k);
            assert(p * q == if p == 1 && q == 1 {
                1int
            } else {
                0int
            }) by (nonlinear_arith)
                requires
                    p == 0 || p == 1,
                    q == 0 || q == 1,
            ;
        }
        lemma_bitwise(w, tests, dst, src, PlayerOp::Mul, false, z);
    } else {
        lemma_bitwise_skipped(w, tests, dst, src, PlayerOp::Mul, false);
    }
}

/// `orr` leaves in its destination the bitwise OR of the two registers.
pub proof fn lemma_orr_is_bitwise_or(w: World, tests: Seq<Test>, dst: Seq<char>, src: Seq<char>)
    requires
        bitwise_ready(w, tests, dst, src),
    ensures
        bitwise_result(
            w,
            tests,
            dst,
            run(code::orr_rr(tests, dst, src), w),
            signed((bits_of(w.computer[dst]) | bits_of(w.computer[src])) as int),
        ),
{
    let x = bits_of(w.computer[dst]);
    let y = bits_of(w.computer[src]);
    let z = signed((x | y) as int);
    if holds(w.computer, tests) {
        lemma_bits_of_signed(x | y);
        assert forall|k: int| 0 <= k < 32 implies #[trigger] lane_bit(z, k) == combined(
            PlayerOp::Max,
            false,
            lane_bit(w.computer[dst], k),
            lane_bit(w.computer[src], k),
        ) by {
            lemma_lane_bit(z, k);
            lemma_lane_bit(w.computer[dst], k);
            lemma_lane_bit(w.computer[src], k);
            lemma_bitwise_bits(x, y, k as u32);
            lemma_bitwise_bits(x | y, y, k as u32);
        }
        lemma_bitwise(w, tests, dst, src, PlayerOp::Max, false, z);
    } else {
        lemma_bitwise_skipped(w, tests, dst, src, PlayerOp::Max, false);
    }
}

/// `eor` leaves in its destination the bitwise XOR of the two registers.
pub proof fn lemma_eor_is_bitwise_xor(w: World, tests: Seq<Test>, dst: Seq<char>, src: Seq<char>)
    requires
        bitwise_ready(w, tests, dst, src),
    ensures
        bitwise_result(
            w,
            tests,
            dst,
            run(code::eor_rr(tests, dst, src), w),
            signed((bits_of(w.computer[dst]) ^ bits_of(w.computer[src])) as int),
        ),
{
    let x = bits_of(w.computer[dst]);
    let y = bits_of(w.computer[src]);
    let z = signed((x ^ y) as int);
    if holds(w.computer, tests) {
        lemma_bits_of_signed(x ^ y);
        assert forall|k: int| 0 <= k < 32 implies #[trigger] lane_bit(z, k) == combined(
            PlayerOp::Add,
            true,
            lane_bit(w.computer[dst], k),
            lane_bit(w.computer[src], k),
        ) by {
            lemma_lane_bit(z, k);
            lemma_lane_bit(w.computer[dst], k);
            lemma_lane_bit(w.computer[src], k);
            lemma_bitwise_bits(x, y, k as u32);
            lemma_bitwise_bits(x ^ y, y, k as u32);
            lemma_wrap_fits(0);
            lemma_wrap_fits(1);
            lemma_wrap_fits(2);
            reveal(trunc_rem);
            reveal(trunc_div);
        }
        lemma_bitwise(w, tests, dst, src, PlayerOp::Add, true, z);
    } else {
        lemma_bitwise_skipped(w, tests, dst, src, PlayerOp::Add, true);
    }
}

} // verus!
