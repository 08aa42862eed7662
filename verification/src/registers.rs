//! What the operations on registers do: the normal form of a guarded
//! operation on counters of the control entity.

use vstd::prelude::*;
use crate::ast::Test;
use crate::code;
use crate::commands::{CommandModel, PlayerOp, SelectorModel, TargetModel};
use crate::machine::{
    apply, change, change_each, exec, exec_each, holds, mentions, wrap, Actor, Change, Scores,
    World,
};
use crate::names;

verus! {

/// The world in which the register `d` holds `v`, if the control entity
/// passes every test; else the world as it is.
pub open spec fn on_reg(w: World, tests: Seq<Test>, d: Seq<char>, v: int) -> World {
    if holds(w.computer, tests) {
        World { computer: w.computer.insert(d, v), ..w }
    } else {
        w
    }
}

/// The actor that runs an operation under the guards `tests`.
pub open spec fn guard_actor(tests: Seq<Test>) -> Actor {
    if tests.len() == 0 {
        Actor::Nobody
    } else {
        Actor::Computer
    }
}

/// A list of tests holds with one more test exactly if the list holds and
/// the test does.
pub broadcast proof fn lemma_holds_push(c: Scores, tests: Seq<Test>, t: Test)
    ensures
        #[trigger] holds(c, tests.push(t)) <==> holds(c, tests) && t.interval.contains(
            c[t.objective],
        ),
{
    let u = tests.push(t);
    if holds(c, u) {
        assert forall|i: int| 0 <= i < tests.len() implies (#[trigger] tests[i]).interval.contains(
            c[tests[i].objective],
        ) by {
            assert(u[i] == tests[i]);
        }
        assert(u[tests.len() as int] == t);
    }
    if holds(c, tests) && t.interval.contains(c[t.objective]) {
        assert forall|i: int| 0 <= i < u.len() implies (#[trigger] u[i]).interval.contains(
            c[u[i].objective],
        ) by {
            if i < tests.len() {
                assert(u[i] == tests[i]);
            }
        }
    }
}

/// A change of a counter that no test is on leaves the outcome of the
/// tests as it was.
pub broadcast proof fn lemma_holds_insert(c: Scores, tests: Seq<Test>, name: Seq<char>, v: int)
    requires
        !mentions(tests, name),
    ensures
        #[trigger] holds(c.insert(name, v), tests) == holds(c, tests),
{
    assert forall|i: int| 0 <= i < tests.len() implies (#[trigger] tests[i]).objective != name by {}
}

/// With one more test on another counter, a list still has no test on
/// `name`.
pub broadcast proof fn lemma_mentions_push(tests: Seq<Test>, t: Test, name: Seq<char>)
    ensures
        #[trigger] mentions(tests.push(t), name) <==> mentions(tests, name) || t.objective == name,
{
    let u = tests.push(t);
    if mentions(u, name) {
        let i = choose|i: int| 0 <= i < u.len() && (#[trigger] u[i]).objective == name;
        if i < tests.len() {
            assert(tests[i].objective == name);
        }
    }
    if mentions(tests, name) {
        let i = choose|i: int| 0 <= i < tests.len() && (#[trigger] tests[i]).objective == name;
        assert(u[i].objective == name);
    }
    if t.objective == name {
        assert(u[tests.len() as int].objective == name);
    }
}

/// No lane has a name.
pub proof fn lemma_named_picks_no_lane(w: World, sel: SelectorModel, n: int)
    requires
        sel.name is Some,
    ensures
        w.lanes_matching(sel, n) == Seq::<Actor>::empty(),
    decreases n,
{
    if n > 0 {
        lemma_named_picks_no_lane(w, sel, n - 1);
    }
}

/// No other entity is called like the control entity.
pub proof fn lemma_computer_picks_no_cell(w: World, sel: SelectorModel, n: int)
    requires
        w.apart(),
        sel.name == Some(names::computer()),
        n <= w.cells.len(),
    ensures
        w.cells_matching(sel, n) == Seq::<Actor>::empty(),
    decreases n,
{
    if n > 0 {
        lemma_computer_picks_no_cell(w, sel, n - 1);
        assert(w.cells[n - 1].name != Some(names::computer()));
    }
}

/// The control entity, guarded by tests, is picked exactly if it passes
/// them; nothing else is.
pub proof fn lemma_guard_picks(w: World, tests: Seq<Test>, actor: Actor)
    requires
        w.apart(),
    ensures
        w.targets(TargetModel::Sel(names::computer_selector().with_tests(tests)), actor) == (if holds(
            w.computer,
            tests,
        ) {
            seq![Actor::Computer]
        } else {
            Seq::<Actor>::empty()
        }),
{
    let sel = names::computer_selector().with_tests(tests);
    assert(sel.scores =~= tests);
    lemma_named_picks_no_lane(w, sel, w.lanes.len() as int);
    lemma_computer_picks_no_cell(w, sel, w.cells.len() as int);
    assert(w.everyone(sel) =~= (if holds(w.computer, tests) {
        seq![Actor::Computer]
    } else {
        Seq::<Actor>::empty()
    }));
}

/// The control entity is what its target addresses, whoever runs the
/// operation.
pub proof fn lemma_computer_target(w: World, actor: Actor)
    requires
        w.apart(),
    ensures
        w.targets(names::computer_target(), actor) == seq![Actor::Computer],
{
    let sel = names::computer_selector();
    lemma_named_picks_no_lane(w, sel, w.lanes.len() as int);
    lemma_computer_picks_no_cell(w, sel, w.cells.len() as int);
    assert(w.everyone(sel) =~= seq![Actor::Computer]);
}

/// Each actor of a list of one runs the operation once.
pub proof fn lemma_exec_each_one(cmd: CommandModel, w: World, actor: Actor)
    ensures
        exec_each(cmd, w, seq![actor]) == exec(cmd, w, actor),
{
    assert(seq![actor].drop_last() =~= Seq::<Actor>::empty());
    assert(exec_each(cmd, w, Seq::<Actor>::empty()) == w);
}

/// Nobody runs the operation where the list is empty.
pub proof fn lemma_exec_each_none(cmd: CommandModel, w: World)
    ensures
        exec_each(cmd, w, Seq::<Actor>::empty()) == w,
{
}

/// A change of a counter of one entity.
pub proof fn lemma_change_each_one(w: World, actor: Actor, name: Seq<char>, ch: Change)
    ensures
        change_each(w, seq![actor], name, ch) == change(w, actor, name, ch),
{
    assert(seq![actor].drop_last() =~= Seq::<Actor>::empty());
    assert(change_each(w, Seq::<Actor>::empty(), name, ch) == w);
}

/// A guarded operation runs as the control entity where the tests hold, and
/// not at all where they fail; without tests it runs as nobody.
pub proof fn lemma_on_computer(w: World, tests: Seq<Test>, cmd: CommandModel)
    requires
        w.apart(),
    ensures
        exec(code::on_computer(tests, cmd), w, Actor::Nobody) == (if holds(w.computer, tests) {
            exec(cmd, w, guard_actor(tests))
        } else {
            w
        }),
{
    if tests.len() > 0 {
        lemma_guard_picks(w, tests, Actor::Nobody);
        if holds(w.computer, tests) {
            lemma_exec_each_one(cmd, w, Actor::Computer);
        } else {
            lemma_exec_each_none(cmd, w);
        }
    }
}

/// `dst op= src` on registers.
pub broadcast proof fn lemma_rr(
    w: World,
    tests: Seq<Test>,
    d: Seq<char>,
    op: PlayerOp,
    s: Seq<char>,
)
    requires
        w.apart(),
    ensures
        #[trigger] exec(code::rr(tests, d, op, s), w, Actor::Nobody) == on_reg(
            w,
            tests,
            d,
            apply(op, w.computer[d], w.computer[s]),
        ),
{
    let cmd = CommandModel::ScoreOp(names::computer_target(), d, op, names::computer_target(), s);
    lemma_on_computer(w, tests, cmd);
    let actor = guard_actor(tests);
    lemma_computer_target(w, actor);
    lemma_change_each_one(w, Actor::Computer, d, Change::Op(op, Actor::Computer, s));
}

/// `dst = value`
pub broadcast proof fn lemma_rset(w: World, tests: Seq<Test>, d: Seq<char>, v: int)
    requires
        w.apart(),
    ensures
        #[trigger] exec(code::rset(tests, d, v), w, Actor::Nobody) == on_reg(w, tests, d, v),
{
    let cmd = CommandModel::ScoreSet(names::computer_target(), d, v);
    lemma_on_computer(w, tests, cmd);
    lemma_computer_target(w, guard_actor(tests));
    lemma_change_each_one(w, Actor::Computer, d, Change::Assign(v));
}

/// `dst += count`
pub broadcast proof fn lemma_radd(w: World, tests: Seq<Test>, d: Seq<char>, v: int)
    requires
        w.apart(),
    ensures
        #[trigger] exec(code::radd(tests, d, v), w, Actor::Nobody) == on_reg(
            w,
            tests,
            d,
            wrap(w.computer[d] + v),
        ),
{
    let cmd = CommandModel::ScoreAdd(names::computer_target(), d, v);
    lemma_on_computer(w, tests, cmd);
    lemma_computer_target(w, guard_actor(tests));
    lemma_change_each_one(w, Actor::Computer, d, Change::Add(v));
}

/// `dst -= count`
pub broadcast proof fn lemma_rsub(w: World, tests: Seq<Test>, d: Seq<char>, v: int)
    requires
        w.apart(),
    ensures
        #[trigger] exec(code::rsub(tests, d, v), w, Actor::Nobody) == on_reg(
            w,
            tests,
            d,
            wrap(w.computer[d] - v),
        ),
{
    let cmd = CommandModel::ScoreRemove(names::computer_target(), d, v);
    lemma_on_computer(w, tests, cmd);
    lemma_computer_target(w, guard_actor(tests));
    lemma_change_each_one(w, Actor::Computer, d, Change::Remove(v));
}

/// A guarded operation does nothing where the tests fail.
pub broadcast proof fn lemma_skip(w: World, tests: Seq<Test>, cmd: CommandModel)
    requires
        w.apart(),
        !holds(w.computer, tests),
    ensures
        #[trigger] exec(code::on_computer(tests, cmd), w, Actor::Nobody) == w,
{
    lemma_on_computer(w, tests, cmd);
}

pub broadcast group group_registers {
    lemma_holds_push,
    lemma_holds_insert,
    lemma_mentions_push,
    lemma_rr,
    lemma_rset,
    lemma_radd,
    lemma_rsub,
    crate::machine::lemma_run_push,
}

/// The names that the lowering reserves differ from one another.
pub proof fn lemma_reserved_names_differ()
    ensures
        names::tmp0() != names::tmp1(),
        names::tmp0() != names::tmp2(),
        names::tmp1() != names::tmp2(),
        names::tmp0() != names::two(),
        names::tmp1() != names::two(),
        names::tmp2() != names::two(),
        names::tmp0() != names::min(),
        names::tmp1() != names::min(),
        names::tmp2() != names::min(),
        names::two() != names::min(),
        names::bit_component() != names::bit_number(),
        names::bit_component() != names::tmp0(),
        names::bit_component() != names::tmp1(),
        names::bit_number() != names::tmp0(),
        names::bit_number() != names::tmp1(),
        names::computer() != names::shifters(),
{
    reveal_strlit("t0");
    reveal_strlit("t1");
    reveal_strlit("t2");
    reveal_strlit("TWO");
    reveal_strlit("MIN");
    reveal_strlit("BitComponent");
    reveal_strlit("BitNumber");
    reveal_strlit("computer");
    reveal_strlit("Shifters");
    assert(names::tmp0()[1] != names::tmp1()[1]);
    assert(names::tmp0()[1] != names::tmp2()[1]);
    assert(names::tmp1()[1] != names::tmp2()[1]);
    assert(names::two()[0] != names::min()[0]);
    assert(names::bit_component()[3] != names::bit_number()[3]);
    assert(names::computer()[0] != names::shifters()[0]);
}

/// A register that the lowering does not reserve for itself: its name is
/// none of the temporaries and none of the constants.
pub open spec fn is_free(name: Seq<char>) -> bool {
    &&& name != names::tmp0()
    &&& name != names::tmp1()
    &&& name != names::tmp2()
    &&& name != names::two()
    &&& name != names::min()
}

} // verus!
