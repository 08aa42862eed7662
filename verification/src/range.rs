//! What the range tests compute on the machine.

use vstd::prelude::*;
use crate::ast::Test;
use crate::code;
use crate::commands::{CommandModel, PlayerOp};
use crate::machine::{holds, lemma_run_concat, lemma_run_one, mentions, run, World};
use crate::names;
use crate::registers::group_registers;
use crate::types::Interval;

verus! {

/// Whether `v` respects the bounds that are given.
pub open spec fn within_bounds(v: int, min: Option<i32>, max: Option<i32>) -> bool {
    &&& (min is Some ==> min.unwrap() <= v)
    &&& (max is Some ==> v <= max.unwrap())
}

/// The unsigned number with the bits of the 32-bit signed number `v`.
pub open spec fn unsigned(v: int) -> int {
    if v >= 0 {
        v
    } else {
        v + 0x1_0000_0000
    }
}

/// The least unsigned bound, where none is given.
pub open spec fn lower_or_least(min: Option<u32>) -> int {
    match min {
        Some(v) => v as int,
        None => 0,
    }
}

/// The greatest unsigned bound, where none is given.
pub open spec fn upper_or_greatest(max: Option<u32>) -> int {
    match max {
        Some(v) => v as int,
        None => 0xffff_ffff,
    }
}

/// What the operations before the writes of a range test leave behind: the
/// register under test is saved in `t0` where it is also the destination.
proof fn lemma_save_test(w: World, tests: Seq<Test>, dst: Seq<char>, test: Seq<char>)
    requires
        w.apart(),
    ensures
        run(code::save_test(tests, dst, test), w) == (if dst == test && holds(w.computer, tests) {
            World { computer: w.computer.insert(names::tmp0(), w.computer[test]), ..w }
        } else {
            w
        }),
{
    broadcast use group_registers;

    if dst == test {
        lemma_run_one(code::rr(tests, names::tmp0(), PlayerOp::Asn, test), w);
    }
}

/// The signed range test sets its destination to one where the guards hold
/// and the register under test respects the bounds that are given, to zero
/// where the guards hold and it does not, and leaves it alone where the
/// guards fail. Besides the destination only `t0` may change, and only
/// where the register under test is the destination itself.
pub proof fn lemma_srng_tests_range(
    w: World,
    tests: Seq<Test>,
    dst: Seq<char>,
    test: Seq<char>,
    min: Option<i32>,
    max: Option<i32>,
)
    requires
        w.apart(),
        !mentions(tests, dst),
        dst == test ==> dst != names::tmp0() && !mentions(tests, names::tmp0()),
    ensures
        ({
            let r = run(code::srng(tests, dst, test, min, max), w);
            &&& r.lanes == w.lanes
            &&& r.cells == w.cells
            &&& r.computer[dst] == (if holds(w.computer, tests) {
                if within_bounds(w.computer[test], min, max) {
                    1int
                } else {
                    0int
                }
            } else {
                w.computer[dst]
            })
            &&& forall|name: Seq<char>|
                name != dst && (dst == test ==> name != names::tmp0()) ==> r.computer[name]
                    == w.computer[name]
        }),
{
    broadcast use group_registers;

    let head = code::save_test(tests, dst, test);
    let safe = code::safe_test(dst, test);
    let tail = Seq::<CommandModel>::empty().push(code::rset(tests, dst, 0)).push(
        code::rset(code::range_tests(tests, safe, min, max), dst, 1),
    );
    lemma_run_concat(head, tail, w);
    lemma_save_test(w, tests, dst, test);
    assert(code::srng(tests, dst, test, min, max) == head + tail);
}

/// The unsigned range test sets its destination to one where the guards
/// hold and the register under test, read as an unsigned number, lies
/// within the bounds, to zero where the guards hold and it does not, and
/// leaves it alone where the guards fail. A bound that is not given is the
/// least or the greatest unsigned number.
pub proof fn lemma_urng_tests_range(
    w: World,
    tests: Seq<Test>,
    dst: Seq<char>,
    test: Seq<char>,
    min: Option<u32>,
    max: Option<u32>,
)
    requires
        w.apart(),
        !mentions(tests, dst),
        dst == test ==> dst != names::tmp0() && !mentions(tests, names::tmp0()),
        i32::MIN <= w.computer[test] <= i32::MAX,
        lower_or_least(min) <= upper_or_greatest(max),
    ensures
        ({
            let r = run(code::urng(tests, dst, test, min, max), w);
            let v = unsigned(w.computer[test]);
            &&& r.lanes == w.lanes
            &&& r.cells == w.cells
            &&& r.computer[dst] == (if holds(w.computer, tests) {
                if lower_or_least(min) <= v <= upper_or_greatest(max) {
                    1int
                } else {
                    0int
                }
            } else {
                w.computer[dst]
            })
            &&& forall|name: Seq<char>|
                name != dst && (dst == test ==> name != names::tmp0()) ==> r.computer[name]
                    == w.computer[name]
        }),
{
    broadcast use group_registers;

    let lo: u32 = match min {
        Some(v) => v,
        None => 0,
    };
    let hi: u32 = match max {
        Some(v) => v,
        None => 0xffff_ffff,
    };
    if lo <= 0x7fff_ffff && hi <= 0x7fff_ffff {
        lemma_srng_tests_range(
            w,
            tests,
            dst,
            test,
            Some(code::as_signed(lo)),
            if hi == 0x7fff_ffff {
                None
            } else {
                Some(code::as_signed(hi))
            },
        );
    } else if lo > 0x7fff_ffff && hi > 0x7fff_ffff {
        lemma_srng_tests_range(
            w,
            tests,
            dst,
            test,
            if lo == 0x8000_0000 {
                None
            } else {
                Some(code::as_signed(lo))
            },
            Some(code::as_signed(hi)),
        );
    } else {
        let head = code::save_test(tests, dst, test);
        let safe = code::safe_test(dst, test);
        let tail = Seq::<CommandModel>::empty().push(code::rset(tests, dst, 0)).push(
            code::rset(
                tests.push(
                    Test {
                        objective: safe,
                        interval: Interval::Bounded(code::as_signed(lo), i32::MAX),
                    },
                ),
                dst,
                1,
            ),
        ).push(
            code::rset(
                tests.push(
                    Test {
                        objective: safe,
                        interval: Interval::Bounded(i32::MIN, code::as_signed(hi)),
                    },
                ),
                dst,
                1,
            ),
        );
        lemma_run_concat(head, tail, w);
        lemma_save_test(w, tests, dst, test);
        assert(code::urng(tests, dst, test, min, max) == head + tail);
    }
}

} // verus!
