//! What the operations on the bit lanes do.

use vstd::prelude::*;
use vstd::arithmetic::power2::pow2;
use crate::ast::Test;
use crate::code;
use crate::commands::{CommandModel, PlayerOp, SelectorModel, TargetModel};
use crate::machine::{
    apply, change, change_each, exec, exec_each, holds, wrap, Actor, Change, Scores, World,
};
use crate::names;
use crate::registers::{
    guard_actor, lemma_change_each_one, lemma_computer_target, lemma_on_computer,
};

verus! {

/// The weight of the lane of rank `k`: two to the power of `k`, as a 32-bit
/// signed number.
pub open spec fn component(k: int) -> int {
    if k == 31 {
        -0x8000_0000
    } else {
        pow2(k as nat) as int
    }
}

/// The machine has its 32 lanes, and each knows its rank and its weight.
pub open spec fn lanes_ready(w: World) -> bool {
    &&& w.lanes.len() == 32
    &&& forall|k: int|
        0 <= k < 32 ==> (#[trigger] w.lanes[k])[names::bit_number()] == k && w.lanes[k][names::bit_component()]
            == component(k)
}

/// A selector of lanes: it asks for the team of the lanes and for no name.
pub open spec fn picks_lanes(sel: SelectorModel) -> bool {
    sel.name is None && sel.team == Some(names::shifters())
}

/// What a change that does not read a lane leaves in a counter that held
/// `old`.
pub open spec fn new_value(ch: Change, old: int, w: World) -> int {
    match ch {
        Change::Assign(v) => v,
        Change::Add(v) => wrap(old + v),
        Change::Remove(v) => wrap(old - v),
        Change::Op(op, src, name) => apply(op, old, w.score(src, name)),
    }
}

/// Whether a change reads no counter of a lane.
pub open spec fn reads_no_lane(ch: Change) -> bool {
    match ch {
        Change::Op(_, src, _) => !(src is Lane),
        _ => true,
    }
}

/// The lanes of `w` in which the counter `name` of each lane of rank below
/// `n` that `sel` picks in `w0` is changed.
pub open spec fn lanes_changed(
    w0: World,
    w: World,
    sel: SelectorModel,
    n: int,
    name: Seq<char>,
    ch: Change,
) -> Seq<Scores> {
    Seq::new(
        w.lanes.len(),
        |k: int|
            if k < n && w0.matches(sel, Actor::Lane(k)) {
                w.lanes[k].insert(name, new_value(ch, w.lanes[k][name], w))
            } else {
                w.lanes[k]
            },
    )
}

/// A selector of lanes picks no other entity.
pub proof fn lemma_lanes_only(w: World, sel: SelectorModel)
    requires
        w.apart(),
        picks_lanes(sel),
    ensures
        w.everyone(sel) == w.lanes_matching(sel, w.lanes.len() as int),
        !w.matches(sel, Actor::Computer),
        !w.matches(sel, Actor::Nobody),
{
    lemma_team_picks_no_cell(w, sel, w.cells.len() as int);
    assert(w.everyone(sel) =~= w.lanes_matching(sel, w.lanes.len() as int));
}

/// No other entity is on the team of the lanes.
pub proof fn lemma_team_picks_no_cell(w: World, sel: SelectorModel, n: int)
    requires
        w.apart(),
        sel.team == Some(names::shifters()),
        n <= w.cells.len(),
    ensures
        w.cells_matching(sel, n) == Seq::<Actor>::empty(),
    decreases n,
{
    if n > 0 {
        lemma_team_picks_no_cell(w, sel, n - 1);
        assert(w.cells[n - 1].team != Some(names::shifters()));
    }
}

/// A change of a counter of the lanes that a selector picks changes each of
/// them on its own.
pub proof fn lemma_change_lanes(
    w0: World,
    w: World,
    sel: SelectorModel,
    n: int,
    name: Seq<char>,
    ch: Change,
)
    requires
        0 <= n <= w.lanes.len(),
        w.lanes.len() == w0.lanes.len(),
        reads_no_lane(ch),
    ensures
        change_each(w, w0.lanes_matching(sel, n), name, ch) == (World {
            lanes: lanes_changed(w0, w, sel, n, name, ch),
            ..w
        }),
    decreases n,
{
    if n == 0 {
        assert(lanes_changed(w0, w, sel, n, name, ch) =~= w.lanes);
    } else {
        lemma_change_lanes(w0, w, sel, n - 1, name, ch);
        let prev = w0.lanes_matching(sel, n - 1);
        let mid = change_each(w, prev, name, ch);
        if w0.matches(sel, Actor::Lane(n - 1)) {
            assert(prev.push(Actor::Lane(n - 1)).drop_last() =~= prev);
            let done = change(mid, Actor::Lane(n - 1), name, ch);
            assert(done.lanes =~= lanes_changed(w0, w, sel, n, name, ch));
        } else {
            assert(lanes_changed(w0, w, sel, n - 1, name, ch) =~= lanes_changed(
                w0,
                w,
                sel,
                n,
                name,
                ch,
            ));
        }
    }
}

/// The lanes of `w` in which each lane of rank below `n` has combined its
/// counter `lhs` with its counter `rhs`.
pub open spec fn lanes_combined(w: World, n: int, lhs: Seq<char>, op: PlayerOp, rhs: Seq<char>) -> Seq<
    Scores,
> {
    Seq::new(
        w.lanes.len(),
        |k: int|
            if k < n {
                w.lanes[k].insert(lhs, apply(op, w.lanes[k][lhs], w.lanes[k][rhs]))
            } else {
                w.lanes[k]
            },
    )
}

/// Where a lane runs an operation, the nearest lane is that lane.
pub proof fn lemma_one_lane(w: World, k: int)
    requires
        0 <= k < w.lanes.len(),
    ensures
        w.targets(names::one_lane(), Actor::Lane(k)) == seq![Actor::Lane(k)],
{
    let sel = SelectorModel::on_team(names::shifters()).nearest();
    assert(w.matches(sel, Actor::Lane(k)));
}

/// Every lane is on the team of the lanes.
pub proof fn lemma_all_lanes(w: World, n: int)
    requires
        0 <= n <= w.lanes.len(),
    ensures
        w.lanes_matching(SelectorModel::on_team(names::shifters()), n) == Seq::new(
            n as nat,
            |k: int| Actor::Lane(k),
        ),
        forall|k: int|
            0 <= k < w.lanes.len() ==> w.matches(
                SelectorModel::on_team(names::shifters()),
                Actor::Lane(k),
            ),
    decreases n,
{
    let sel = SelectorModel::on_team(names::shifters());
    if n > 0 {
        lemma_all_lanes(w, n - 1);
        assert(w.matches(sel, Actor::Lane(n - 1)));
        assert(w.lanes_matching(sel, n) =~= Seq::new(n as nat, |k: int| Actor::Lane(k)));
    } else {
        assert(w.lanes_matching(sel, n) =~= Seq::new(n as nat, |k: int| Actor::Lane(k)));
    }
}

/// An operation that every lane runs on two counters of its own changes
/// each lane on its own.
pub proof fn lemma_combine_lanes(
    w0: World,
    w: World,
    n: int,
    lhs: Seq<char>,
    op: PlayerOp,
    rhs: Seq<char>,
)
    requires
        w.apart(),
        0 <= n <= w.lanes.len(),
        w.lanes.len() == w0.lanes.len(),
    ensures
        exec_each(
            CommandModel::ScoreOp(names::one_lane(), lhs, op, names::one_lane(), rhs),
            w,
            w0.lanes_matching(SelectorModel::on_team(names::shifters()), n),
        ) == (World { lanes: lanes_combined(w, n, lhs, op, rhs), ..w }),
    decreases n,
{
    let sel = SelectorModel::on_team(names::shifters());
    let cmd = CommandModel::ScoreOp(names::one_lane(), lhs, op, names::one_lane(), rhs);
    if n == 0 {
        assert(lanes_combined(w, n, lhs, op, rhs) =~= w.lanes);
    } else {
        lemma_combine_lanes(w0, w, n - 1, lhs, op, rhs);
        lemma_all_lanes(w0, n);
        let prev = w0.lanes_matching(sel, n - 1);
        assert(prev.push(Actor::Lane(n - 1)).drop_last() =~= prev);
        let mid = exec_each(cmd, w, prev);
        lemma_one_lane(mid, n - 1);
        lemma_change_each_one(
            mid,
            Actor::Lane(n - 1),
            lhs,
            Change::Op(op, Actor::Lane(n - 1), rhs),
        );
        let done = exec(cmd, mid, Actor::Lane(n - 1));
        assert(done.lanes =~= lanes_combined(w, n, lhs, op, rhs));
    }
}

} // verus!

verus! {

/// What a register that started at `init` holds once each lane of rank
/// below `n` that `sel` picks has combined it with its counter `name`, by
/// rank.
pub open spec fn gathered(w: World, sel: SelectorModel, n: int, op: PlayerOp, name: Seq<char>, init: int) -> int
    decreases n,
{
    if n <= 0 {
        init
    } else if w.matches(sel, Actor::Lane(n - 1)) {
        apply(op, gathered(w, sel, n - 1, op, name, init), w.lanes[n - 1][name])
    } else {
        gathered(w, sel, n - 1, op, name, init)
    }
}

/// The number of lanes of rank below `n` that `sel` picks.
pub open spec fn picked(w: World, sel: SelectorModel, n: int) -> int
    decreases n,
{
    if n <= 0 {
        0
    } else if w.matches(sel, Actor::Lane(n - 1)) {
        picked(w, sel, n - 1) + 1
    } else {
        picked(w, sel, n - 1)
    }
}

/// What a register that held `x` holds once it is combined `times` times
/// with `by`.
pub open spec fn repeated(op: PlayerOp, x: int, by: int, times: int) -> int
    decreases times,
{
    if times <= 0 {
        x
    } else {
        apply(op, repeated(op, x, by, times - 1), by)
    }
}

/// An operation that each picked lane runs on a register and a counter of
/// its own gathers the counters into the register.
pub proof fn lemma_gather(
    w: World,
    sel: SelectorModel,
    n: int,
    dst: Seq<char>,
    op: PlayerOp,
    name: Seq<char>,
)
    requires
        w.apart(),
        0 <= n <= w.lanes.len(),
        picks_lanes(sel),
    ensures
        ({
            let r = exec_each(
                CommandModel::ScoreOp(names::computer_target(), dst, op, names::one_lane(), name),
                w,
                w.lanes_matching(sel, n),
            );
            &&& r.lanes == w.lanes
            &&& r.cells == w.cells
            &&& r.computer[dst] == gathered(w, sel, n, op, name, w.computer[dst])
            &&& forall|other: Seq<char>| other != dst ==> r.computer[other] == w.computer[other]
        }),
    decreases n,
{
    let cmd = CommandModel::ScoreOp(names::computer_target(), dst, op, names::one_lane(), name);
    if n > 0 {
        lemma_gather(w, sel, n - 1, dst, op, name);
        let prev = w.lanes_matching(sel, n - 1);
        if w.matches(sel, Actor::Lane(n - 1)) {
            assert(prev.push(Actor::Lane(n - 1)).drop_last() =~= prev);
            let mid = exec_each(cmd, w, prev);
            lemma_one_lane(mid, n - 1);
            lemma_computer_target(mid, Actor::Lane(n - 1));
            lemma_change_each_one(
                mid,
                Actor::Computer,
                dst,
                Change::Op(op, Actor::Lane(n - 1), name),
            );
            let done = exec(cmd, mid, Actor::Lane(n - 1));
            assert(exec_each(cmd, w, w.lanes_matching(sel, n)) == done);
            assert(mid.targets(names::one_lane(), Actor::Lane(n - 1))[0] == Actor::Lane(n - 1));
            assert(done == change(
                mid,
                Actor::Computer,
                dst,
                Change::Op(op, Actor::Lane(n - 1), name),
            ));
            assert(done.computer[dst] == apply(op, mid.computer[dst], mid.lanes[n - 1][name]));
        }
    }
}

/// An operation that each picked lane runs on two registers is run once
/// for each of them.
pub proof fn lemma_repeat(
    w: World,
    sel: SelectorModel,
    n: int,
    dst: Seq<char>,
    op: PlayerOp,
    src: Seq<char>,
)
    requires
        w.apart(),
        0 <= n <= w.lanes.len(),
        dst != src,
    ensures
        ({
            let r = exec_each(
                CommandModel::ScoreOp(
                    names::computer_target(),
                    dst,
                    op,
                    names::computer_target(),
                    src,
                ),
                w,
                w.lanes_matching(sel, n),
            );
            &&& r.lanes == w.lanes
            &&& r.cells == w.cells
            &&& r.computer[dst] == repeated(
                op,
                w.computer[dst],
                w.computer[src],
                picked(w, sel, n),
            )
            &&& forall|other: Seq<char>| other != dst ==> r.computer[other] == w.computer[other]
            &&& 0 <= picked(w, sel, n) <= n
        }),
    decreases n,
{
    let cmd = CommandModel::ScoreOp(
        names::computer_target(),
        dst,
        op,
        names::computer_target(),
        src,
    );
    if n > 0 {
        lemma_repeat(w, sel, n - 1, dst, op, src);
        let prev = w.lanes_matching(sel, n - 1);
        if w.matches(sel, Actor::Lane(n - 1)) {
            assert(prev.push(Actor::Lane(n - 1)).drop_last() =~= prev);
            let mid = exec_each(cmd, w, prev);
            lemma_computer_target(mid, Actor::Lane(n - 1));
            lemma_change_each_one(mid, Actor::Computer, dst, Change::Op(op, Actor::Computer, src));
            let done = exec(cmd, mid, Actor::Lane(n - 1));
            assert(exec_each(cmd, w, w.lanes_matching(sel, n)) == done);
            assert(done == change(mid, Actor::Computer, dst, Change::Op(op, Actor::Computer, src)));
            assert(done.computer[dst] == apply(op, mid.computer[dst], mid.computer[src]));
        }
    }
}

/// The world in which every lane has combined its counter `lhs` with its
/// counter `rhs`, if the control entity passes every test; else the world
/// as it is.
pub open spec fn on_lanes(
    w: World,
    tests: Seq<Test>,
    lhs: Seq<char>,
    op: PlayerOp,
    rhs: Seq<char>,
) -> World {
    if holds(w.computer, tests) {
        World { lanes: lanes_combined(w, w.lanes.len() as int, lhs, op, rhs), ..w }
    } else {
        w
    }
}

/// In every lane: `lhs op= rhs`.
pub proof fn lemma_bit_vec_op(
    w: World,
    tests: Seq<Test>,
    lhs: Seq<char>,
    op: PlayerOp,
    rhs: Seq<char>,
)
    requires
        w.apart(),
    ensures
        exec(code::bit_vec_op(tests, lhs, op, rhs), w, Actor::Nobody) == on_lanes(
            w,
            tests,
            lhs,
            op,
            rhs,
        ),
{
    let inner = CommandModel::ScoreOp(names::one_lane(), lhs, op, names::one_lane(), rhs);
    let cmd = CommandModel::Execute(names::all_lanes(), Box::new(inner));
    lemma_on_computer(w, tests, cmd);
    let sel = SelectorModel::on_team(names::shifters());
    lemma_lanes_only(w, sel);
    lemma_combine_lanes(w, w, w.lanes.len() as int, lhs, op, rhs);
}

/// The world in which the counter `name` of each lane that `sel` picks is
/// changed, if the control entity passes every test; else the world as it
/// is.
pub open spec fn on_picked(
    w: World,
    tests: Seq<Test>,
    sel: SelectorModel,
    name: Seq<char>,
    ch: Change,
) -> World {
    if holds(w.computer, tests) {
        World { lanes: lanes_changed(w, w, sel, w.lanes.len() as int, name, ch), ..w }
    } else {
        w
    }
}

/// `lanes.name op= src`, for the lanes that `sel` picks and a register
/// `src`.
pub proof fn lemma_xr_lanes(
    w: World,
    tests: Seq<Test>,
    sel: SelectorModel,
    name: Seq<char>,
    op: PlayerOp,
    src: Seq<char>,
)
    requires
        w.apart(),
        picks_lanes(sel),
        !sel.single,
    ensures
        exec(code::xr(tests, TargetModel::Sel(sel), name, op, src), w, Actor::Nobody) == on_picked(
            w,
            tests,
            sel,
            name,
            Change::Op(op, Actor::Computer, src),
        ),
{
    let cmd = CommandModel::ScoreOp(TargetModel::Sel(sel), name, op, names::computer_target(), src);
    lemma_on_computer(w, tests, cmd);
    lemma_lanes_only(w, sel);
    lemma_computer_target(w, guard_actor(tests));
    lemma_change_lanes(w, w, sel, w.lanes.len() as int, name, Change::Op(op, Actor::Computer, src));
}

/// `lanes.name = value`, for the lanes that `sel` picks.
pub proof fn lemma_xset_lanes(
    w: World,
    tests: Seq<Test>,
    sel: SelectorModel,
    name: Seq<char>,
    v: int,
)
    requires
        w.apart(),
        picks_lanes(sel),
        !sel.single,
    ensures
        exec(code::xset(tests, TargetModel::Sel(sel), name, v), w, Actor::Nobody) == on_picked(
            w,
            tests,
            sel,
            name,
            Change::Assign(v),
        ),
{
    let cmd = CommandModel::ScoreSet(TargetModel::Sel(sel), name, v);
    lemma_on_computer(w, tests, cmd);
    lemma_lanes_only(w, sel);
    lemma_change_lanes(w, w, sel, w.lanes.len() as int, name, Change::Assign(v));
}

/// `lanes.name -= count`, for the lanes that `sel` picks.
pub proof fn lemma_remove_lanes(
    w: World,
    tests: Seq<Test>,
    sel: SelectorModel,
    name: Seq<char>,
    v: int,
)
    requires
        w.apart(),
        picks_lanes(sel),
        !sel.single,
    ensures
        exec(
            code::on_computer(tests, CommandModel::ScoreRemove(TargetModel::Sel(sel), name, v)),
            w,
            Actor::Nobody,
        ) == on_picked(w, tests, sel, name, Change::Remove(v)),
{
    let cmd = CommandModel::ScoreRemove(TargetModel::Sel(sel), name, v);
    lemma_on_computer(w, tests, cmd);
    lemma_lanes_only(w, sel);
    lemma_change_lanes(w, w, sel, w.lanes.len() as int, name, Change::Remove(v));
}

/// Once as each lane that `sel` picks: `dst op= lane.name`.
pub proof fn lemma_gather_guarded(
    w: World,
    tests: Seq<Test>,
    sel: SelectorModel,
    dst: Seq<char>,
    op: PlayerOp,
    name: Seq<char>,
)
    requires
        w.apart(),
        picks_lanes(sel),
        !sel.single,
    ensures
        ({
            let r = exec(
                code::on_computer(
                    tests,
                    CommandModel::Execute(
                        TargetModel::Sel(sel),
                        Box::new(
                            CommandModel::ScoreOp(
                                names::computer_target(),
                                dst,
                                op,
                                names::one_lane(),
                                name,
                            ),
                        ),
                    ),
                ),
                w,
                Actor::Nobody,
            );
            &&& r.lanes == w.lanes
            &&& r.cells == w.cells
            &&& r.computer[dst] == (if holds(w.computer, tests) {
                gathered(w, sel, w.lanes.len() as int, op, name, w.computer[dst])
            } else {
                w.computer[dst]
            })
            &&& forall|other: Seq<char>| other != dst ==> r.computer[other] == w.computer[other]
        }),
{
    let inner = CommandModel::ScoreOp(names::computer_target(), dst, op, names::one_lane(), name);
    let cmd = CommandModel::Execute(TargetModel::Sel(sel), Box::new(inner));
    lemma_on_computer(w, tests, cmd);
    lemma_lanes_only(w, sel);
    lemma_gather(w, sel, w.lanes.len() as int, dst, op, name);
}

/// Once as each lane marked for a shift: `dst op= TWO`.
pub proof fn lemma_per_active_lane(w: World, tests: Seq<Test>, dst: Seq<char>, op: PlayerOp)
    requires
        w.apart(),
        dst != names::two(),
    ensures
        ({
            let sel = SelectorModel::on_team(names::shifters()).with_score(
                names::tmp0(),
                crate::types::Interval::Min(0),
            );
            let r = exec(code::per_active_lane(tests, dst, op), w, Actor::Nobody);
            &&& r.lanes == w.lanes
            &&& r.cells == w.cells
            &&& r.computer[dst] == (if holds(w.computer, tests) {
                repeated(
                    op,
                    w.computer[dst],
                    w.computer[names::two()],
                    picked(w, sel, w.lanes.len() as int),
                )
            } else {
                w.computer[dst]
            })
            &&& forall|other: Seq<char>| other != dst ==> r.computer[other] == w.computer[other]
        }),
{
    let sel = SelectorModel::on_team(names::shifters()).with_score(
        names::tmp0(),
        crate::types::Interval::Min(0),
    );
    let inner = CommandModel::ScoreOp(
        names::computer_target(),
        dst,
        op,
        names::computer_target(),
        names::two(),
    );
    let cmd = CommandModel::Execute(TargetModel::Sel(sel), Box::new(inner));
    lemma_on_computer(w, tests, cmd);
    lemma_lanes_only(w, sel);
    lemma_repeat(w, sel, w.lanes.len() as int, dst, op, names::two());
}

} // verus!
