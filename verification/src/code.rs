//! The operations that each instruction is lowered to, as sequences of
//! primitive operations over counter names.

use vstd::prelude::*;
use crate::ast::Test;
use crate::block::guarded;
use crate::commands::{CommandModel, PlayerOp, SelectorModel, TargetModel};
use crate::names;
use crate::types::Interval;

verus! {

/// `cmd` where the control entity passes every test.
pub open spec fn on_computer(tests: Seq<Test>, cmd: CommandModel) -> CommandModel {
    guarded(names::computer_selector(), tests, cmd)
}

/// The test `name < 0`.
pub open spec fn negative(name: Seq<char>) -> Test {
    Test { objective: name, interval: Interval::Max(-1i32) }
}

/// The test `name >= 0`.
pub open spec fn non_negative(name: Seq<char>) -> Test {
    Test { objective: name, interval: Interval::Min(0) }
}

/// The test `name == value`.
pub open spec fn equals(name: Seq<char>, value: i32) -> Test {
    Test { objective: name, interval: Interval::Bounded(value, value) }
}

/// `dst op= src`, both registers.
pub open spec fn rr(
    tests: Seq<Test>,
    dst: Seq<char>,
    op: PlayerOp,
    src: Seq<char>,
) -> CommandModel {
    on_computer(
        tests,
        CommandModel::ScoreOp(names::computer_target(), dst, op, names::computer_target(), src),
    )
}

/// `dst op= target.objective`
pub open spec fn rx(
    tests: Seq<Test>,
    dst: Seq<char>,
    op: PlayerOp,
    target: TargetModel,
    objective: Seq<char>,
) -> CommandModel {
    on_computer(
        tests,
        CommandModel::ScoreOp(names::computer_target(), dst, op, target, objective),
    )
}

/// `target.objective op= src`
pub open spec fn xr(
    tests: Seq<Test>,
    target: TargetModel,
    objective: Seq<char>,
    op: PlayerOp,
    src: Seq<char>,
) -> CommandModel {
    on_computer(
        tests,
        CommandModel::ScoreOp(target, objective, op, names::computer_target(), src),
    )
}

/// `dst = value`
pub open spec fn rset(tests: Seq<Test>, dst: Seq<char>, value: int) -> CommandModel {
    on_computer(tests, CommandModel::ScoreSet(names::computer_target(), dst, value))
}

/// `dst += count`
pub open spec fn radd(tests: Seq<Test>, dst: Seq<char>, count: int) -> CommandModel {
    on_computer(tests, CommandModel::ScoreAdd(names::computer_target(), dst, count))
}

/// `dst -= count`
pub open spec fn rsub(tests: Seq<Test>, dst: Seq<char>, count: int) -> CommandModel {
    on_computer(tests, CommandModel::ScoreRemove(names::computer_target(), dst, count))
}

/// `target.objective = value`
pub open spec fn xset(
    tests: Seq<Test>,
    target: TargetModel,
    objective: Seq<char>,
    value: int,
) -> CommandModel {
    on_computer(tests, CommandModel::ScoreSet(target, objective, value))
}

/// In every lane: `lhs op= rhs`, both counters of the lane.
pub open spec fn bit_vec_op(
    tests: Seq<Test>,
    lhs: Seq<char>,
    op: PlayerOp,
    rhs: Seq<char>,
) -> CommandModel {
    on_computer(
        tests,
        CommandModel::Execute(
            names::all_lanes(),
            Box::new(CommandModel::ScoreOp(names::one_lane(), lhs, op, names::one_lane(), rhs)),
        ),
    )
}

/// The lanes whose counter `objective` passes `interval`.
pub open spec fn lanes_where(objective: Seq<char>, interval: Interval) -> TargetModel {
    TargetModel::Sel(SelectorModel::on_team(names::shifters()).with_score(objective, interval))
}

/// The nearest lane whose counter `objective` passes `interval`.
pub open spec fn lane_where(objective: Seq<char>, interval: Interval) -> TargetModel {
    TargetModel::Sel(
        SelectorModel::on_team(names::shifters()).nearest().with_score(objective, interval),
    )
}

/// Spreads the bits of `reg` over the lanes: afterwards the counter
/// `bit_obj` of each lane holds the bit of its rank.
pub open spec fn expand_bits(
    tests: Seq<Test>,
    reg: Seq<char>,
    bit_obj: Seq<char>,
) -> Seq<CommandModel> {
    Seq::empty()
        .push(xr(tests, names::all_lanes(), bit_obj, PlayerOp::Asn, reg))
        .push(xr(tests.push(negative(reg)), names::all_lanes(), bit_obj, PlayerOp::Sub, names::min()))
        .push(bit_vec_op(tests, bit_obj, PlayerOp::Div, names::bit_component()))
        .push(xr(tests, names::all_lanes(), bit_obj, PlayerOp::Rem, names::two()))
        .push(xset(
            tests.push(negative(reg)),
            lanes_where(names::bit_number(), Interval::Bounded(31, 31)),
            bit_obj,
            1,
        ))
}

/// Gathers the bits held in the counter `bit_obj` of the lanes into `dst`.
pub open spec fn accum_bits(
    tests: Seq<Test>,
    dst: Seq<char>,
    bit_obj: Seq<char>,
) -> Seq<CommandModel> {
    Seq::empty()
        .push(bit_vec_op(tests, bit_obj, PlayerOp::Mul, names::bit_component()))
        .push(rset(tests, dst, 0))
        .push(on_computer(
            tests,
            CommandModel::Execute(
                names::all_lanes(),
                Box::new(
                    CommandModel::ScoreOp(
                        names::computer_target(),
                        dst,
                        PlayerOp::Add,
                        names::one_lane(),
                        bit_obj,
                    ),
                ),
            ),
        ))
}

/// A bitwise operation: both operands are spread over the lanes, combined
/// lane by lane with `op`, reduced modulo two where `wrap` is set, and
/// gathered into `dst`.
pub open spec fn bitwise(
    tests: Seq<Test>,
    dst: Seq<char>,
    src: Seq<char>,
    op: PlayerOp,
    wrap: bool,
) -> Seq<CommandModel> {
    expand_bits(tests, dst, names::tmp0()) + expand_bits(tests, src, names::tmp1()) + seq![
        bit_vec_op(tests, names::tmp0(), op, names::tmp1()),
    ] + (if wrap {
        seq![xr(tests, names::all_lanes(), names::tmp0(), PlayerOp::Rem, names::two())]
    } else {
        Seq::empty()
    }) + accum_bits(tests, dst, names::tmp0())
}

/// `dst &= src`
pub open spec fn and_rr(tests: Seq<Test>, dst: Seq<char>, src: Seq<char>) -> Seq<CommandModel> {
    bitwise(tests, dst, src, PlayerOp::Mul, false)
}

/// `dst |= src`
pub open spec fn orr_rr(tests: Seq<Test>, dst: Seq<char>, src: Seq<char>) -> Seq<CommandModel> {
    bitwise(tests, dst, src, PlayerOp::Max, false)
}

/// `dst ^= src`
pub open spec fn eor_rr(tests: Seq<Test>, dst: Seq<char>, src: Seq<char>) -> Seq<CommandModel> {
    bitwise(tests, dst, src, PlayerOp::Add, true)
}

/// Marks the lanes that take part in a shift by `amount`: afterwards the
/// counter `t0` of the lane of rank `k` holds `k - 32 + amount`.
pub open spec fn activate_bitwise_entities(
    tests: Seq<Test>,
    amount: Seq<char>,
) -> Seq<CommandModel> {
    Seq::empty()
        .push(bit_vec_op(tests, names::tmp0(), PlayerOp::Asn, names::bit_number()))
        .push(on_computer(tests, CommandModel::ScoreRemove(names::all_lanes(), names::tmp0(), 32)))
        .push(xr(tests, names::all_lanes(), names::tmp0(), PlayerOp::Add, amount))
}

/// Once as each lane marked for the shift: `dst op= TWO`.
pub open spec fn per_active_lane(tests: Seq<Test>, dst: Seq<char>, op: PlayerOp) -> CommandModel {
    on_computer(
        tests,
        CommandModel::Execute(
            lanes_where(names::tmp0(), Interval::Min(0)),
            Box::new(
                CommandModel::ScoreOp(
                    names::computer_target(),
                    dst,
                    op,
                    names::computer_target(),
                    names::two(),
                ),
            ),
        ),
    )
}

/// Leaves in `t0` the value of `dst` without its sign bit, shifted right by
/// the amount in `src`.
pub open spec fn raw_shift_right(
    tests: Seq<Test>,
    dst: Seq<char>,
    src: Seq<char>,
) -> Seq<CommandModel> {
    let head = Seq::empty()
        .push(rr(tests, names::tmp0(), PlayerOp::Asn, dst))
        .push(rr(tests.push(negative(dst)), names::tmp0(), PlayerOp::Sub, names::min()));
    head + activate_bitwise_entities(tests, src) + seq![
        per_active_lane(tests, names::tmp0(), PlayerOp::Div),
    ]
}

/// `dst >>= src`, arithmetic.
pub open spec fn asr_rr(tests: Seq<Test>, dst: Seq<char>, src: Seq<char>) -> Seq<CommandModel> {
    raw_shift_right(tests, dst, src) + Seq::empty()
        .push(on_computer(
            tests.push(negative(dst)),
            CommandModel::Execute(
                lanes_where(names::tmp0(), Interval::Min(-1i32)),
                Box::new(
                    CommandModel::ScoreOp(
                        names::computer_target(),
                        names::tmp0(),
                        PlayerOp::Add,
                        names::one_lane(),
                        names::bit_component(),
                    ),
                ),
            ),
        ))
        .push(rr(tests, dst, PlayerOp::Asn, names::tmp0()))
}

/// `dst >>= src`, logical.
pub open spec fn lsr_rr(tests: Seq<Test>, dst: Seq<char>, src: Seq<char>) -> Seq<CommandModel> {
    raw_shift_right(tests, dst, src) + Seq::empty()
        .push(rx(
            tests.push(negative(dst)),
            names::tmp0(),
            PlayerOp::Add,
            lane_where(names::tmp0(), Interval::Bounded(-1i32, -1i32)),
            names::bit_component(),
        ))
        .push(rr(tests, dst, PlayerOp::Asn, names::tmp0()))
}

/// `dst <<= src`
pub open spec fn lsl_rr(tests: Seq<Test>, dst: Seq<char>, src: Seq<char>) -> Seq<CommandModel> {
    activate_bitwise_entities(tests, src) + seq![per_active_lane(tests, dst, PlayerOp::Mul)]
}

/// The register that a range test reads: `t0` where the register under test
/// is also the destination, else the register itself.
pub open spec fn safe_test(dst: Seq<char>, test: Seq<char>) -> Seq<char> {
    if dst == test {
        names::tmp0()
    } else {
        test
    }
}

/// Saves the register under test where it is also the destination.
pub open spec fn save_test(tests: Seq<Test>, dst: Seq<char>, test: Seq<char>) -> Seq<CommandModel> {
    if dst == test {
        seq![rr(tests, names::tmp0(), PlayerOp::Asn, test)]
    } else {
        Seq::empty()
    }
}

/// The guards under which a signed range test sets its destination.
pub open spec fn range_tests(
    tests: Seq<Test>,
    reg: Seq<char>,
    min: Option<i32>,
    max: Option<i32>,
) -> Seq<Test> {
    match Interval::spec_new(min, max) {
        Some(interval) => tests.push(Test { objective: reg, interval }),
        None => tests,
    }
}

/// `dst = 1` if `test` lies within the signed bounds, else `dst = 0`. With
/// no bound at all there is no test.
pub open spec fn srng(
    tests: Seq<Test>,
    dst: Seq<char>,
    test: Seq<char>,
    min: Option<i32>,
    max: Option<i32>,
) -> Seq<CommandModel> {
    save_test(tests, dst, test) + Seq::empty()
        .push(rset(tests, dst, 0))
        .push(rset(range_tests(tests, safe_test(dst, test), min, max), dst, 1))
}

/// The 32-bit signed number with the bits of `v`.
pub open spec fn as_signed(v: u32) -> i32 {
    if v <= 0x7fff_ffff {
        v as i32
    } else {
        (v - 0x1_0000_0000) as i32
    }
}

/// `dst = 1` if `test`, read as an unsigned number, lies within the
/// unsigned bounds, else `dst = 0`.
pub open spec fn urng(
    tests: Seq<Test>,
    dst: Seq<char>,
    test: Seq<char>,
    min: Option<u32>,
    max: Option<u32>,
) -> Seq<CommandModel> {
    let lo: u32 = match min {
        Some(v) => v,
        None => 0,
    };
    let hi: u32 = match max {
        Some(v) => v,
        None => 0xffff_ffff,
    };
    if lo <= 0x7fff_ffff && hi <= 0x7fff_ffff {
        srng(
            tests,
            dst,
            test,
            Some(as_signed(lo)),
            if hi == 0x7fff_ffff {
                None
            } else {
                Some(as_signed(hi))
            },
        )
    } else if lo > 0x7fff_ffff && hi > 0x7fff_ffff {
        srng(
            tests,
            dst,
            test,
            if lo == 0x8000_0000 {
                None
            } else {
                Some(as_signed(lo))
            },
            Some(as_signed(hi)),
        )
    } else {
        save_test(tests, dst, test) + Seq::empty()
            .push(rset(tests, dst, 0))
            .push(rset(
                tests.push(
                    Test {
                        objective: safe_test(dst, test),
                        interval: Interval::Bounded(as_signed(lo), i32::MAX),
                    },
                ),
                dst,
                1,
            ))
            .push(rset(
                tests.push(
                    Test {
                        objective: safe_test(dst, test),
                        interval: Interval::Bounded(i32::MIN, as_signed(hi)),
                    },
                ),
                dst,
                1,
            ))
    }
}

/// `dst /= src`, both read as unsigned numbers.
pub open spec fn udiv(tests: Seq<Test>, dst: Seq<char>, src: Seq<char>) -> Seq<CommandModel> {
    let t0 = names::tmp0();
    let t1 = names::tmp1();
    let t2 = names::tmp2();
    let min = names::min();
    let two = names::two();
    let src_pos = tests.push(non_negative(src));
    let neg_pos = tests.push(negative(t0)).push(non_negative(src));
    let src_neg = tests.push(negative(src));
    Seq::empty()
        .push(rr(tests, t0, PlayerOp::Asn, dst))
        .push(rr(neg_pos, dst, PlayerOp::Add, min))
        .push(rr(neg_pos, dst, PlayerOp::Div, two))
        .push(radd(neg_pos, dst, 0x4000_0000))
        .push(rr(neg_pos, t1, PlayerOp::Asn, dst))
        .push(rr(src_pos, dst, PlayerOp::Div, src))
        .push(rr(neg_pos, dst, PlayerOp::Mul, two))
        .push(rr(neg_pos, t1, PlayerOp::Rem, src))
        .push(rr(neg_pos, t1, PlayerOp::Mul, two))
        .push(rr(neg_pos, t2, PlayerOp::Asn, t0))
        .push(rr(neg_pos, t2, PlayerOp::Add, min))
        .push(rr(neg_pos, t2, PlayerOp::Rem, two))
        .push(rr(neg_pos, t1, PlayerOp::Add, t2))
        .push(rr(neg_pos, t2, PlayerOp::Asn, t1))
        .push(rr(neg_pos, t2, PlayerOp::Sub, src))
        .push(radd(neg_pos, dst, 1))
        .push(rsub(neg_pos.push(non_negative(t1)).push(negative(t2)), dst, 1))
        .push(rset(src_neg, dst, 0))
        .push(rr(src_neg, t1, PlayerOp::Asn, t0))
        .push(rr(src_neg, t1, PlayerOp::Sub, src))
        .push(rset(src_neg.push(negative(t0)).push(non_negative(t1)), dst, 1))
}

/// `dst %= src`, both read as unsigned numbers.
pub open spec fn urem(tests: Seq<Test>, dst: Seq<char>, src: Seq<char>) -> Seq<CommandModel> {
    let t0 = names::tmp0();
    let t1 = names::tmp1();
    let min = names::min();
    let two = names::two();
    let neg_neg = tests.push(negative(dst)).push(negative(src));
    let src_pos = tests.push(non_negative(src));
    let neg_pos = tests.push(negative(t0)).push(non_negative(src));
    Seq::empty()
        .push(rr(tests, t0, PlayerOp::Asn, dst))
        .push(rr(neg_neg, dst, PlayerOp::Sub, src))
        .push(rr(neg_neg, dst, PlayerOp::Add, src))
        .push(rr(neg_pos, dst, PlayerOp::Add, min))
        .push(rr(neg_pos, dst, PlayerOp::Div, two))
        .push(radd(neg_pos, dst, 0x4000_0000))
        .push(rr(src_pos, dst, PlayerOp::Rem, src))
        .push(rr(neg_pos, dst, PlayerOp::Mul, two))
        .push(rr(neg_pos, t1, PlayerOp::Asn, t0))
        .push(rr(neg_pos, t1, PlayerOp::Add, min))
        .push(rr(neg_pos, t1, PlayerOp::Rem, two))
        .push(rr(neg_pos, dst, PlayerOp::Add, t1))
        .push(rr(neg_pos, t1, PlayerOp::Asn, dst))
        .push(rr(neg_pos, t1, PlayerOp::Sub, src))
        .push(rr(neg_pos.push(negative(t1)).push(non_negative(dst)), dst, PlayerOp::Add, src))
        .push(rr(neg_pos, dst, PlayerOp::Sub, src))
}

/// The guard of what a branch does where it is taken.
pub open spec fn taken() -> Seq<Test> {
    seq![equals(names::tmp0(), 1)]
}

/// The guard of what a branch does where it is not taken.
pub open spec fn skipped() -> Seq<Test> {
    seq![equals(names::tmp0(), 0)]
}

/// The test of a branch: `t0` becomes one where the guards hold, else zero.
pub open spec fn branch_test(tests: Seq<Test>) -> Seq<CommandModel> {
    Seq::empty().push(rset(Seq::empty(), names::tmp0(), 0)).push(rset(tests, names::tmp0(), 1))
}

/// What a branch that is taken sets up: with a link, the link register
/// takes the return address; for a branch through a register, the indirect
/// address register takes the destination.
pub open spec fn branch_setup(link: Option<int>, indirect: Option<Seq<char>>) -> Seq<CommandModel> {
    (match link {
        Some(addr) => seq![rset(taken(), names::link(), addr)],
        None => Seq::empty(),
    }) + (match indirect {
        Some(reg) => seq![rr(taken(), names::ind_addr(), PlayerOp::Asn, reg)],
        None => Seq::empty(),
    })
}

} // verus!
