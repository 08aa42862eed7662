//! What the shifts compute on the machine.

use vstd::prelude::*;
use vstd::arithmetic::power2::{
    lemma2_to64, lemma_pow2_adds, lemma_pow2_pos, lemma_pow2_strictly_increases, lemma_pow2_unfold,
    pow2,
};
use crate::ast::Test;
use crate::bits::{bits_of, low31};
use crate::bitwise::lanes_differ_in;
use crate::code;
use crate::commands::{CommandModel, PlayerOp, SelectorModel, TargetModel};
use crate::division::{constants_set, signed};
use crate::lanes::{
    component, gathered, lanes_ready, lemma_all_lanes, lemma_bit_vec_op, lemma_gather_guarded,
    lemma_lanes_only, lemma_per_active_lane, lemma_remove_lanes, lemma_xr_lanes, picked,
    picks_lanes, repeated,
};
use crate::machine::{
    apply, exec, holds, lemma_run_concat, lemma_run_one, lemma_run_push, lemma_wrap_add,
    lemma_wrap_fits, mentions, run, trunc_div, wrap, Actor, Change, World,
};
use crate::names;
use crate::range::unsigned;
use crate::registers::{
    group_registers, lemma_change_each_one, lemma_computer_target, lemma_on_computer,
    lemma_reserved_names_differ, lemma_skip, on_reg,
};
use crate::types::Interval;

verus! {

/// The lanes are marked for a shift by `s`: the counter `t0` of the lane of
/// rank `k` holds `k - 32 + s`.
pub open spec fn lanes_marked(w: World, s: int) -> bool {
    &&& lanes_ready(w)
    &&& forall|k: int| 0 <= k < 32 ==> (#[trigger] w.lanes[k])[names::tmp0()] == k - 32 + s
}

/// Marking the lanes for a shift changes no register and no counter of a
/// lane but `t0`.
proof fn lemma_activate(w: World, tests: Seq<Test>, amount: Seq<char>)
    requires
        w.apart(),
        lanes_ready(w),
        holds(w.computer, tests),
        0 <= w.computer[amount] <= 31,
    ensures
        ({
            let r = run(code::activate_bitwise_entities(tests, amount), w);
            &&& r.computer == w.computer
            &&& r.cells == w.cells
            &&& lanes_marked(r, w.computer[amount])
            &&& lanes_differ_in(w, r, names::tmp0())
        }),
{
    broadcast use lemma_run_push;

    lemma_reserved_names_differ();
    let s = w.computer[amount];
    let t0 = names::tmp0();
    let all = SelectorModel::on_team(names::shifters());
    let w1 = exec(
        code::bit_vec_op(tests, t0, PlayerOp::Asn, names::bit_number()),
        w,
        Actor::Nobody,
    );
    lemma_bit_vec_op(w, tests, t0, PlayerOp::Asn, names::bit_number());
    let w2 = exec(
        code::on_computer(tests, CommandModel::ScoreRemove(names::all_lanes(), t0, 32)),
        w1,
        Actor::Nobody,
    );
    lemma_remove_lanes(w1, tests, all, t0, 32);
    lemma_all_lanes(w1, 32);
    let w3 = exec(code::xr(tests, names::all_lanes(), t0, PlayerOp::Add, amount), w2, Actor::Nobody);
    lemma_xr_lanes(w2, tests, all, t0, PlayerOp::Add, amount);
    lemma_all_lanes(w2, 32);
    assert(run(code::activate_bitwise_entities(tests, amount), w) == w3);
    assert forall|k: int| 0 <= k < 32 implies (#[trigger] w3.lanes[k])[t0] == k - 32 + s && (
    forall|other: Seq<char>| other != t0 ==> w3.lanes[k][other] == w.lanes[k][other]) by {
        assert(w.lanes[k][names::bit_number()] == k);
        assert(w1.lanes[k] == w.lanes[k].insert(t0, k));
        assert(w2.lanes[k] == w1.lanes[k].insert(t0, wrap(k - 32)));
        lemma_wrap_fits(k - 32);
        lemma_wrap_fits(k - 32 + s);
    }
    assert(lanes_ready(w3)) by {
        assert forall|k: int| 0 <= k < 32 implies (#[trigger] w3.lanes[k])[names::bit_number()]
            == k && w3.lanes[k][names::bit_component()] == component(k) by {
            assert(w.lanes[k][names::bit_number()] == k);
        }
    }
}

/// The lanes that take part in a shift by `s` are the `s` lanes of the
/// highest rank.
proof fn lemma_active_lanes(w: World, s: int, n: int)
    requires
        lanes_marked(w, s),
        0 <= s <= 31,
        0 <= n <= 32,
    ensures
        picked(
            w,
            SelectorModel::on_team(names::shifters()).with_score(names::tmp0(), Interval::Min(0)),
            n,
        ) == (if n > 32 - s {
            n - (32 - s)
        } else {
            0
        }),
    decreases n,
{
    let sel = SelectorModel::on_team(names::shifters()).with_score(names::tmp0(), Interval::Min(0));
    if n > 0 {
        lemma_active_lanes(w, s, n - 1);
        assert(sel.scores =~= seq![Test { objective: names::tmp0(), interval: Interval::Min(0) }]);
        assert(w.matches(sel, Actor::Lane(n - 1)) <==> n - 1 >= 32 - s) by {
            assert(w.lanes[n - 1][names::tmp0()] == n - 1 - 32 + s);
            assert(sel.scores[0].interval.contains(w.lanes[n - 1][sel.scores[0].objective]) <==> n
                - 1 >= 32 - s);
        }
    }
}

/// Halving a number that is not negative `n` times divides it by two to the
/// power of `n`.
proof fn lemma_repeated_halving(x: int, n: int)
    requires
        0 <= x <= i32::MAX,
        0 <= n,
    ensures
        repeated(PlayerOp::Div, x, 2, n) == x / (pow2(n as nat) as int),
        0 <= x / (pow2(n as nat) as int) <= x,
    decreases n,
{
    lemma2_to64();
    lemma_pow2_pos(n as nat);
    if n == 0 {
    } else {
        lemma_repeated_halving(x, n - 1);
        let p = pow2((n - 1) as nat) as int;
        lemma_pow2_pos((n - 1) as nat);
        lemma_pow2_unfold(n as nat);
        let y = x / p;
        reveal(trunc_div);
        lemma_wrap_fits(y / 2);
        vstd::arithmetic::div_mod::lemma_div_denominator(x, p, 2);
        assert(pow2(n as nat) as int == p * 2) by (nonlinear_arith)
            requires
                pow2(n as nat) == 2 * pow2((n - 1) as nat),
                p == pow2((n - 1) as nat) as int,
        ;
    }
}

/// Doubling a number `n` times multiplies it by two to the power of `n`,
/// wrapped.
proof fn lemma_repeated_doubling(x: int, n: int)
    requires
        i32::MIN <= x <= i32::MAX,
        0 <= n,
    ensures
        repeated(PlayerOp::Mul, x, 2, n) == wrap(x * pow2(n as nat)),
    decreases n,
{
    lemma2_to64();
    if n == 0 {
        lemma_wrap_fits(x);
        assert(x * pow2(0) == x) by (nonlinear_arith)
            requires
                pow2(0) == 1,
        ;
    } else {
        lemma_repeated_doubling(x, n - 1);
        let p = pow2((n - 1) as nat) as int;
        lemma_pow2_unfold(n as nat);
        let y = x * p;
        assert(x * pow2(n as nat) == y * 2) by (nonlinear_arith)
            requires
                pow2(n as nat) == 2 * pow2((n - 1) as nat),
                p == pow2((n - 1) as nat) as int,
                y == x * p,
        ;
        assert(wrap(wrap(y) * 2) == wrap(y * 2)) by {
            reveal(wrap);
        }
    }
}

} // verus!

verus! {

/// The weights of the lanes of rank `31 - s` up to, but not including, `n`,
/// summed up.
pub open spec fn sign_fill(s: int, n: int) -> int {
    if n <= 31 - s {
        0
    } else if n <= 31 {
        pow2(n as nat) - pow2((31 - s) as nat)
    } else {
        -(pow2((31 - s) as nat) as int)
    }
}

/// The lanes that restore the sign of a number shifted by `s` are those of
/// rank `31 - s` and above; their weights are gathered.
proof fn lemma_sign_lanes(w: World, s: int, n: int, init: int)
    requires
        lanes_marked(w, s),
        0 <= s <= 31,
        0 <= n <= 32,
        i32::MIN <= init <= i32::MAX,
    ensures
        gathered(
            w,
            SelectorModel::on_team(names::shifters()).with_score(
                names::tmp0(),
                Interval::Min(-1i32),
            ),
            n,
            PlayerOp::Add,
            names::bit_component(),
            init,
        ) == wrap(init + sign_fill(s, n)),
    decreases n,
{
    let sel = SelectorModel::on_team(names::shifters()).with_score(
        names::tmp0(),
        Interval::Min(-1i32),
    );
    lemma2_to64();
    if n == 0 {
        lemma_wrap_fits(init);
    } else {
        lemma_sign_lanes(w, s, n - 1, init);
        assert(sel.scores =~= seq![
            Test { objective: names::tmp0(), interval: Interval::Min(-1i32) },
        ]);
        assert(w.matches(sel, Actor::Lane(n - 1)) <==> n - 1 >= 31 - s) by {
            assert(w.lanes[n - 1][names::tmp0()] == n - 1 - 32 + s);
            assert(sel.scores[0].interval.contains(w.lanes[n - 1][sel.scores[0].objective]) <==> n
                - 1 >= 31 - s);
        }
        assert(w.lanes[n - 1][names::bit_component()] == component(n - 1));
        if n - 1 >= 31 - s {
            lemma_wrap_add(init + sign_fill(s, n - 1), component(n - 1));
            if n <= 31 {
                lemma_pow2_unfold(n as nat);
            }
        } else {
            lemma_wrap_fits(init);
        }
    }
}

/// The lane that holds the sign bit of a number shifted by `s` is the one
/// of rank `31 - s`.
proof fn lemma_high_lane(w: World, s: int, n: int)
    requires
        lanes_marked(w, s),
        0 <= s <= 31,
        0 <= n <= 32,
    ensures
        w.lanes_matching(
            SelectorModel::on_team(names::shifters()).nearest().with_score(
                names::tmp0(),
                Interval::Bounded(-1i32, -1i32),
            ),
            n,
        ) == (if n > 31 - s {
            seq![Actor::Lane(31 - s)]
        } else {
            Seq::<Actor>::empty()
        }),
    decreases n,
{
    let sel = SelectorModel::on_team(names::shifters()).nearest().with_score(
        names::tmp0(),
        Interval::Bounded(-1i32, -1i32),
    );
    if n > 0 {
        lemma_high_lane(w, s, n - 1);
        assert(sel.scores =~= seq![
            Test { objective: names::tmp0(), interval: Interval::Bounded(-1i32, -1i32) },
        ]);
        assert(w.matches(sel, Actor::Lane(n - 1)) <==> n - 1 == 31 - s) by {
            assert(w.lanes[n - 1][names::tmp0()] == n - 1 - 32 + s);
            assert(sel.scores[0].interval.contains(w.lanes[n - 1][sel.scores[0].objective]) <==> n
                - 1 == 31 - s);
        }
    }
}

/// What holds of the machine and the operands before a right shift: the
/// lanes and the constants are set up, the value is a 32-bit signed number,
/// the amount lies in `0 ..= 31`, neither register is `t0`, and no guard is
/// on the destination or on `t0`.
pub open spec fn right_shift_ready(
    w: World,
    tests: Seq<Test>,
    dst: Seq<char>,
    src: Seq<char>,
) -> bool {
    &&& w.apart()
    &&& lanes_ready(w)
    &&& constants_set(w)
    &&& !mentions(tests, dst)
    &&& !mentions(tests, names::tmp0())
    &&& dst != names::tmp0()
    &&& src != names::tmp0()
    &&& i32::MIN <= w.computer[dst] <= i32::MAX
    &&& 0 <= w.computer[src] <= 31
}

/// The shift without the sign: afterwards `t0` holds the value without its
/// sign bit, divided by two to the power of the amount; no other register
/// changes, and the lanes are marked for the amount.
proof fn lemma_raw_shift_right(w: World, tests: Seq<Test>, dst: Seq<char>, src: Seq<char>)
    requires
        right_shift_ready(w, tests, dst, src),
        holds(w.computer, tests),
    ensures
        ({
            let r = run(code::raw_shift_right(tests, dst, src), w);
            &&& r.computer[names::tmp0()] == low31(w.computer[dst]) / (pow2(
                w.computer[src] as nat,
            ) as int)
            &&& 0 <= r.computer[names::tmp0()] <= i32::MAX
            &&& forall|other: Seq<char>|
                other != names::tmp0() ==> r.computer[other] == w.computer[other]
            &&& r.cells == w.cells
            &&& lanes_marked(r, w.computer[src])
        }),
{
    broadcast use group_registers;

    lemma_reserved_names_differ();
    let t0 = names::tmp0();
    let a = w.computer[dst];
    let s = w.computer[src];
    let head = Seq::<CommandModel>::empty().push(code::rr(tests, t0, PlayerOp::Asn, dst)).push(
        code::rr(tests.push(code::negative(dst)), t0, PlayerOp::Sub, names::min()),
    );
    let mid = code::activate_bitwise_entities(tests, src);
    let tail = seq![code::per_active_lane(tests, t0, PlayerOp::Div)];
    lemma_run_concat(head, mid, w);
    lemma_run_concat(head + mid, tail, w);
    let w1 = run(head, w);
    assert(w1.computer[t0] == low31(a)) by {
        reveal(wrap);
    }
    assert(w1.lanes == w.lanes);
    assert(forall|other: Seq<char>| other != t0 ==> w1.computer[other] == w.computer[other]);
    let w2 = run(mid, w1);
    lemma_activate(w1, tests, src);
    lemma_run_one(tail[0], w2);
    lemma_per_active_lane(w2, tests, t0, PlayerOp::Div);
    lemma_active_lanes(w2, s, 32);
    lemma_repeated_halving(low31(a), s);
}

/// A number with its sign bit cleared, divided by a power of two, and the
/// sign put back as the shift asks.
proof fn lemma_shifted_sign(a: int, s: int)
    requires
        i32::MIN <= a < 0,
        0 <= s <= 31,
    ensures
        low31(a) / (pow2(s as nat) as int) - pow2((31 - s) as nat) == a / (pow2(s as nat) as int),
        low31(a) / (pow2(s as nat) as int) + pow2((31 - s) as nat) == unsigned(a) / (pow2(
            s as nat,
        ) as int),
        0 < pow2((31 - s) as nat) <= 0x8000_0000,
        s >= 1 ==> pow2((31 - s) as nat) <= 0x4000_0000,
{
    let p = pow2(s as nat) as int;
    let m = pow2((31 - s) as nat) as int;
    let x = low31(a);
    lemma2_to64();
    lemma_pow2_pos(s as nat);
    lemma_pow2_pos((31 - s) as nat);
    lemma_pow2_adds(s as nat, (31 - s) as nat);
    assert(p * m == 0x8000_0000);
    if s >= 1 {
        lemma_pow2_strictly_increases((31 - s) as nat, 31);
        lemma_pow2_unfold((32 - s) as nat);
        if s > 1 {
            lemma_pow2_strictly_increases((32 - s) as nat, 31);
        }
    }
    vstd::arithmetic::div_mod::lemma_fundamental_div_mod(x, p);
    vstd::arithmetic::div_mod::lemma_mod_bound(x, p);
    let q = x / p;
    let r = x % p;
    assert(a == (q - m) * p + r) by (nonlinear_arith)
        requires
            x == p * q + r,
            a == x - 0x8000_0000,
            p * m == 0x8000_0000,
    ;
    vstd::arithmetic::div_mod::lemma_fundamental_div_mod_converse(a, p, q - m, r);
    assert(unsigned(a) == (q + m) * p + r) by (nonlinear_arith)
        requires
            x == p * q + r,
            unsigned(a) == x + 0x8000_0000,
            p * m == 0x8000_0000,
    ;
    vstd::arithmetic::div_mod::lemma_fundamental_div_mod_converse(unsigned(a), p, q + m, r);
    assert(m <= 0x8000_0000) by (nonlinear_arith)
        requires
            p * m == 0x8000_0000,
            p >= 1,
            m >= 1,
    ;
}

} // verus!

verus! {

/// The arithmetic right shift of a 32-bit signed number divides it by a
/// power of two, rounding down.
pub proof fn lemma_shr_signed_is_div(x: i32, k: u32)
    requires
        k < 32,
    ensures
        (x >> k) as int == (x as int) / (pow2(k as nat) as int),
{
    lemma2_to64();
    if k == 31 {
        assert((x >> 31u32) == (if x < 0 {
            -1i32
        } else {
            0i32
        })) by (bit_vector);
        assert(pow2(31) == 0x8000_0000);
        if x < 0 {
            vstd::arithmetic::div_mod::lemma_fundamental_div_mod_converse(
                x as int,
                0x8000_0000,
                -1,
                x + 0x8000_0000,
            );
        }
    } else {
        let p: i32 = 1i32 << k;
        let q: i32 = x >> k;
        assert(p == (1u32 << k) as i32 && p > 0) by (bit_vector)
            requires
                p == 1i32 << k,
                k < 31,
        ;
        vstd::bits::lemma_u32_shl_is_mul(1, k);
        assert((1u32 << k) as int == pow2(k as nat)) by {
            vstd::bits::lemma_u32_pow2_no_overflow(k as nat);
        }
        assert(q * p <= x && x - q * p < p) by (bit_vector)
            requires
                p == 1i32 << k,
                q == x >> k,
                k < 31,
        ;
        vstd::arithmetic::div_mod::lemma_fundamental_div_mod_converse(
            x as int,
            p as int,
            q as int,
            x - q * p,
        );
    }
}

/// What a shift leaves behind: the destination holds `z` where the guards
/// hold; no register but the destination and `t0` changes, and none at all
/// where the guards fail; the lanes still know their rank and their weight.
pub open spec fn shift_result(
    w: World,
    tests: Seq<Test>,
    dst: Seq<char>,
    r: World,
    z: int,
) -> bool {
    &&& r.computer[dst] == (if holds(w.computer, tests) {
        z
    } else {
        w.computer[dst]
    })
    &&& forall|other: Seq<char>|
        other != dst && other != names::tmp0() ==> r.computer[other] == w.computer[other]
    &&& !holds(w.computer, tests) ==> r.computer == w.computer
    &&& r.cells == w.cells
    &&& lanes_ready(r)
}

/// Where the guards fail, the shift without the sign changes nothing.
proof fn lemma_raw_shift_skipped(w: World, tests: Seq<Test>, dst: Seq<char>, src: Seq<char>)
    requires
        w.apart(),
        !holds(w.computer, tests),
    ensures
        run(code::raw_shift_right(tests, dst, src), w) == w,
{
    broadcast use group_registers, lemma_skip;

    let t0 = names::tmp0();
    let head = Seq::<CommandModel>::empty().push(code::rr(tests, t0, PlayerOp::Asn, dst)).push(
        code::rr(tests.push(code::negative(dst)), t0, PlayerOp::Sub, names::min()),
    );
    let mid = code::activate_bitwise_entities(tests, src);
    let tail = seq![code::per_active_lane(tests, t0, PlayerOp::Div)];
    lemma_run_concat(head, mid, w);
    lemma_run_concat(head + mid, tail, w);
    lemma_run_one(tail[0], w);
    assert(run(head, w) == w);
    assert(run(mid, w) == w);
}

/// `asr` leaves in its destination the value shifted right by the amount,
/// with the sign drawn in: the arithmetic right shift.
pub proof fn lemma_asr_shifts_right_signed(
    w: World,
    tests: Seq<Test>,
    dst: Seq<char>,
    src: Seq<char>,
)
    requires
        right_shift_ready(w, tests, dst, src),
    ensures
        shift_result(
            w,
            tests,
            dst,
            run(code::asr_rr(tests, dst, src), w),
            ((w.computer[dst] as i32) >> (w.computer[src] as u32)) as int,
        ),
{
    broadcast use group_registers, lemma_skip;

    lemma_reserved_names_differ();
    let t0 = names::tmp0();
    let a = w.computer[dst];
    let s = w.computer[src];
    let head = code::raw_shift_right(tests, dst, src);
    let sel = SelectorModel::on_team(names::shifters()).with_score(t0, Interval::Min(-1i32));
    let fill = code::on_computer(
        tests.push(code::negative(dst)),
        CommandModel::Execute(
            TargetModel::Sel(sel),
            Box::new(
                CommandModel::ScoreOp(
                    names::computer_target(),
                    t0,
                    PlayerOp::Add,
                    names::one_lane(),
                    names::bit_component(),
                ),
            ),
        ),
    );
    let tail = Seq::<CommandModel>::empty().push(fill).push(code::rr(tests, dst, PlayerOp::Asn, t0));
    lemma_run_concat(head, tail, w);
    assert(code::asr_rr(tests, dst, src) == head + tail);
    if holds(w.computer, tests) {
        let w1 = run(head, w);
        lemma_raw_shift_right(w, tests, dst, src);
        lemma_gather_guarded(
            w1,
            tests.push(code::negative(dst)),
            sel,
            t0,
            PlayerOp::Add,
            names::bit_component(),
        );
        lemma_sign_lanes(w1, s, 32, w1.computer[t0]);
        lemma_shr_signed_is_div(a as i32, s as u32);
        if a < 0 {
            lemma_shifted_sign(a, s);
            lemma_pow2_pos(s as nat);
            let z = a / (pow2(s as nat) as int);
            assert(-0x8000_0000 <= z < 0x8000_0000) by {
                assert(z == low31(a) / (pow2(s as nat) as int) - pow2((31 - s) as nat));
            }
            lemma_wrap_fits(z);
        }
    } else {
        lemma_raw_shift_skipped(w, tests, dst, src);
    }
}

/// The nearest lane that a selector picks, where no lane runs the
/// operation: the first that it picks.
proof fn lemma_rx_from_lane(
    w: World,
    tests: Seq<Test>,
    dst: Seq<char>,
    op: PlayerOp,
    sel: SelectorModel,
    name: Seq<char>,
    k: int,
)
    requires
        w.apart(),
        picks_lanes(sel),
        sel.single,
        w.lanes_matching(sel, w.lanes.len() as int) == seq![Actor::Lane(k)],
    ensures
        exec(code::rx(tests, dst, op, TargetModel::Sel(sel), name), w, Actor::Nobody) == on_reg(
            w,
            tests,
            dst,
            apply(op, w.computer[dst], w.lanes[k][name]),
        ),
{
    let cmd = CommandModel::ScoreOp(names::computer_target(), dst, op, TargetModel::Sel(sel), name);
    lemma_on_computer(w, tests, cmd);
    lemma_lanes_only(w, sel);
    let actor = crate::registers::guard_actor(tests);
    lemma_computer_target(w, actor);
    lemma_change_each_one(w, Actor::Computer, dst, Change::Op(op, Actor::Lane(k), name));
    assert(w.targets(TargetModel::Sel(sel), actor) =~= seq![Actor::Lane(k)]);
}

/// `lsr` leaves in its destination the value shifted right by the amount,
/// with zeros drawn in: the logical right shift.
pub proof fn lemma_lsr_shifts_right_unsigned(
    w: World,
    tests: Seq<Test>,
    dst: Seq<char>,
    src: Seq<char>,
)
    requires
        right_shift_ready(w, tests, dst, src),
    ensures
        shift_result(
            w,
            tests,
            dst,
            run(code::lsr_rr(tests, dst, src), w),
            signed((bits_of(w.computer[dst]) >> (w.computer[src] as u32)) as int),
        ),
{
    broadcast use group_registers, lemma_skip;

    lemma_reserved_names_differ();
    let t0 = names::tmp0();
    let a = w.computer[dst];
    let s = w.computer[src];
    let head = code::raw_shift_right(tests, dst, src);
    let sel = SelectorModel::on_team(names::shifters()).nearest().with_score(
        t0,
        Interval::Bounded(-1i32, -1i32),
    );
    let neg = tests.push(code::negative(dst));
    let tail = Seq::<CommandModel>::empty().push(
        code::rx(neg, t0, PlayerOp::Add, TargetModel::Sel(sel), names::bit_component()),
    ).push(code::rr(tests, dst, PlayerOp::Asn, t0));
    lemma_run_concat(head, tail, w);
    assert(code::lsr_rr(tests, dst, src) == head + tail);
    if holds(w.computer, tests) {
        let w1 = run(head, w);
        lemma_raw_shift_right(w, tests, dst, src);
        lemma_high_lane(w1, s, 32);
        lemma_rx_from_lane(w1, neg, t0, PlayerOp::Add, sel, names::bit_component(), 31 - s);
        let u = bits_of(a);
        vstd::bits::lemma_u32_shr_is_div(u, s as u32);
        lemma_pow2_pos(s as nat);
        lemma2_to64();
        if a < 0 {
            lemma_shifted_sign(a, s);
            let x = low31(a) / (pow2(s as nat) as int);
            assert(w1.lanes[31 - s][names::bit_component()] == component(31 - s));
            if s == 0 {
                assert(pow2(0) == 1);
                lemma_wrap_fits(x - 0x8000_0000);
            } else {
                lemma_pow2_unfold(s as nat);
                vstd::arithmetic::div_mod::lemma_div_is_ordered_by_denominator(
                    unsigned(a),
                    2,
                    pow2(s as nat) as int,
                );
                lemma_wrap_fits(x + pow2((31 - s) as nat));
            }
        } else {
            vstd::arithmetic::div_mod::lemma_div_is_ordered_by_denominator(a, 1, pow2(s as nat) as int);
        }
    } else {
        lemma_raw_shift_skipped(w, tests, dst, src);
    }
}

/// What holds of the machine and the operands before a left shift: the
/// lanes and the constants are set up, the value is a 32-bit signed number,
/// the amount lies in `0 ..= 31`, the destination is not the constant two,
/// and no guard is on the destination.
pub open spec fn left_shift_ready(
    w: World,
    tests: Seq<Test>,
    dst: Seq<char>,
    src: Seq<char>,
) -> bool {
    &&& w.apart()
    &&& lanes_ready(w)
    &&& constants_set(w)
    &&& !mentions(tests, dst)
    &&& dst != names::two()
    &&& i32::MIN <= w.computer[dst] <= i32::MAX
    &&& 0 <= w.computer[src] <= 31
}

/// The left shift of an unsigned number is its product with a power of
/// two, wrapped.
proof fn lemma_shl_is_wrapped_mul(a: int, s: int)
    requires
        i32::MIN <= a <= i32::MAX,
        0 <= s <= 31,
    ensures
        wrap(a * pow2(s as nat)) == signed((bits_of(a) << (s as u32)) as int),
{
    let u = bits_of(a);
    let k = s as u32;
    let p = pow2(s as nat) as int;
    lemma2_to64();
    lemma_pow2_pos(s as nat);
    lemma_pow2_strictly_increases(s as nat, 32);
    let wide: u64 = (u as u64) << (k as u64);
    assert(p <= 0x8000_0000) by {
        if s < 31 {
            lemma_pow2_strictly_increases(s as nat, 31);
        }
    }
    assert(u * p <= 0xffff_ffff * 0x8000_0000) by (nonlinear_arith)
        requires
            0 <= u <= 0xffff_ffff,
            0 < p <= 0x8000_0000,
    ;
    vstd::bits::lemma_u64_shl_is_mul(u as u64, k as u64);
    assert(wide == u * p);
    assert((u << k) as u64 == wide & 0xffff_ffffu64) by (bit_vector)
        requires
            wide == (u as u64) << (k as u64),
            k < 32,
    ;
    assert(wide & 0xffff_ffffu64 == wide % 0x1_0000_0000u64) by (bit_vector);
    let c: int = if a < 0 {
        1
    } else {
        0
    };
    assert(u * p == 0x1_0000_0000 * (c * p) + a * p) by (nonlinear_arith)
        requires
            u == a + 0x1_0000_0000 * c,
    ;
    vstd::arithmetic::div_mod::lemma_mod_multiples_vanish(c * p, a * p, 0x1_0000_0000);
    assert(wrap(a * p) == signed((a * p) % 0x1_0000_0000)) by {
        reveal(wrap);
    }
}

/// `lsl` leaves in its destination the value shifted left by the amount,
/// truncated to 32 bits.
pub proof fn lemma_lsl_shifts_left(w: World, tests: Seq<Test>, dst: Seq<char>, src: Seq<char>)
    requires
        left_shift_ready(w, tests, dst, src),
    ensures
        ({
            let r = run(code::lsl_rr(tests, dst, src), w);
            &&& r.computer[dst] == (if holds(w.computer, tests) {
                signed((bits_of(w.computer[dst]) << (w.computer[src] as u32)) as int)
            } else {
                w.computer[dst]
            })
            &&& forall|other: Seq<char>| other != dst ==> r.computer[other] == w.computer[other]
            &&& r.cells == w.cells
            &&& lanes_ready(r)
        }),
{
    broadcast use group_registers, lemma_skip;

    let a = w.computer[dst];
    let s = w.computer[src];
    let head = code::activate_bitwise_entities(tests, src);
    let tail = seq![code::per_active_lane(tests, dst, PlayerOp::Mul)];
    lemma_run_concat(head, tail, w);
    if holds(w.computer, tests) {
        let w1 = run(head, w);
        lemma_activate(w, tests, src);
        lemma_run_one(tail[0], w1);
        lemma_per_active_lane(w1, tests, dst, PlayerOp::Mul);
        lemma_active_lanes(w1, s, 32);
        lemma_repeated_doubling(a, s);
        lemma_shl_is_wrapped_mul(a, s);
    } else {
        lemma_run_one(tail[0], w);
        assert(run(head, w) == w);
    }
}

} // verus!
