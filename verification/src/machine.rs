//! A model of the target machine: the control entity, the 32 bit lanes and
//! the other entities, such as those of the memory; their counters, and what
//! each primitive operation does to them.
//!
//! Counters hold 32-bit signed numbers; sums, differences and products wrap,
//! and division and remainder truncate toward zero. An operation addresses
//! entities through selectors; one that is run as an entity sees that entity
//! as the nearest one.

use vstd::prelude::*;
use crate::ast::{CommandBlockOut, Test};
use crate::block::BlockModel;
use crate::commands::{CommandModel, PlayerOp, SelectorModel, TargetModel};
use crate::names;

verus! {

/// The counters of one entity, by name.
pub type Scores = Map<Seq<char>, int>;

/// An entity besides the control entity and the bit lanes: its name, its
/// team and its counters.
pub struct Cell {
    pub name: Option<Seq<char>>,
    pub team: Option<Seq<char>>,
    pub scores: Scores,
}

/// The state of the machine: the counters of the control entity and of the
/// bit lanes, by rank, and the other entities.
pub struct World {
    pub computer: Scores,
    pub lanes: Seq<Scores>,
    pub cells: Seq<Cell>,
}

/// Who runs an operation: no entity, the control entity, a bit lane, or
/// another entity.
pub enum Actor {
    Nobody,
    Computer,
    Lane(int),
    Cell(int),
}

/// The 32-bit signed number that `v` wraps to.
#[verifier::opaque]
pub open spec fn wrap(v: int) -> int {
    (v + 0x8000_0000) % 0x1_0000_0000 - 0x8000_0000
}

/// The quotient of `a` by `b`, truncated toward zero.
#[verifier::opaque]
pub open spec fn trunc_div(a: int, b: int) -> int
    recommends
        b != 0,
{
    if a >= 0 && b > 0 {
        a / b
    } else if a < 0 && b > 0 {
        -((-a) / b)
    } else if a >= 0 && b < 0 {
        -(a / (-b))
    } else {
        (-a) / (-b)
    }
}

/// The remainder of `a` by `b`, with the sign of `a`.
#[verifier::opaque]
pub open spec fn trunc_rem(a: int, b: int) -> int
    recommends
        b != 0,
{
    a - b * trunc_div(a, b)
}

/// What `lhs op= rhs` leaves in `lhs`. Division and remainder by zero leave
/// it as it was.
pub open spec fn apply(op: PlayerOp, a: int, b: int) -> int {
    match op {
        PlayerOp::Add => wrap(a + b),
        PlayerOp::Sub => wrap(a - b),
        PlayerOp::Mul => wrap(a * b),
        PlayerOp::Div => if b == 0 {
            a
        } else {
            wrap(trunc_div(a, b))
        },
        PlayerOp::Rem => if b == 0 {
            a
        } else {
            trunc_rem(a, b)
        },
        PlayerOp::Asn => b,
        PlayerOp::Min => if a <= b {
            a
        } else {
            b
        },
        PlayerOp::Max => if a >= b {
            a
        } else {
            b
        },
    }
}

/// Whether the counters pass every test.
pub open spec fn holds(scores: Scores, tests: Seq<Test>) -> bool {
    forall|i: int|
        0 <= i < tests.len() ==> (#[trigger] tests[i]).interval.contains(
            scores[tests[i].objective],
        )
}

/// Whether a test of `tests` is on the counter `name`.
pub open spec fn mentions(tests: Seq<Test>, name: Seq<char>) -> bool {
    exists|i: int| 0 <= i < tests.len() && (#[trigger] tests[i]).objective == name
}

impl World {
    /// The value of the counter `name` of `actor`.
    pub open spec fn score(self, actor: Actor, name: Seq<char>) -> int {
        match actor {
            Actor::Nobody => 0,
            Actor::Computer => self.computer[name],
            Actor::Lane(k) => self.lanes[k][name],
            Actor::Cell(j) => self.cells[j].scores[name],
        }
    }

    /// The world in which the counter `name` of `actor` holds `v`.
    pub open spec fn with_score(self, actor: Actor, name: Seq<char>, v: int) -> World {
        match actor {
            Actor::Nobody => self,
            Actor::Computer => World { computer: self.computer.insert(name, v), ..self },
            Actor::Lane(k) => if 0 <= k < self.lanes.len() {
                World { lanes: self.lanes.update(k, self.lanes[k].insert(name, v)), ..self }
            } else {
                self
            },
            Actor::Cell(j) => if 0 <= j < self.cells.len() {
                World {
                    cells: self.cells.update(
                        j,
                        Cell { scores: self.cells[j].scores.insert(name, v), ..self.cells[j] },
                    ),
                    ..self
                }
            } else {
                self
            },
        }
    }

    /// Whether `sel` picks `actor`, but for its limit to the nearest.
    pub open spec fn matches(self, sel: SelectorModel, actor: Actor) -> bool {
        match actor {
            Actor::Nobody => false,
            Actor::Computer => {
                &&& sel.team is None
                &&& (sel.name is None || sel.name == Some(names::computer()))
                &&& holds(self.computer, sel.scores)
            },
            Actor::Lane(k) => {
                &&& 0 <= k < self.lanes.len()
                &&& sel.name is None
                &&& (sel.team is None || sel.team == Some(names::shifters()))
                &&& holds(self.lanes[k], sel.scores)
            },
            Actor::Cell(j) => {
                &&& 0 <= j < self.cells.len()
                &&& (sel.name is None || sel.name == self.cells[j].name)
                &&& (sel.team is None || sel.team == self.cells[j].team)
                &&& holds(self.cells[j].scores, sel.scores)
            },
        }
    }

    /// The other entities are neither called like the control entity nor on
    /// the team of the lanes.
    pub open spec fn apart(self) -> bool {
        forall|j: int|
            0 <= j < self.cells.len() ==> (#[trigger] self.cells[j]).name != Some(
                names::computer(),
            ) && self.cells[j].team != Some(names::shifters())
    }

    /// The lanes of rank below `n` that `sel` picks, by rank.
    pub open spec fn lanes_matching(self, sel: SelectorModel, n: int) -> Seq<Actor>
        decreases n,
    {
        if n <= 0 {
            Seq::empty()
        } else if self.matches(sel, Actor::Lane(n - 1)) {
            self.lanes_matching(sel, n - 1).push(Actor::Lane(n - 1))
        } else {
            self.lanes_matching(sel, n - 1)
        }
    }

    /// The other entities of index below `n` that `sel` picks, by index.
    pub open spec fn cells_matching(self, sel: SelectorModel, n: int) -> Seq<Actor>
        decreases n,
    {
        if n <= 0 {
            Seq::empty()
        } else if self.matches(sel, Actor::Cell(n - 1)) {
            self.cells_matching(sel, n - 1).push(Actor::Cell(n - 1))
        } else {
            self.cells_matching(sel, n - 1)
        }
    }

    /// Every entity that `sel` picks, but for its limit to the nearest: the
    /// control entity first, then the lanes by rank, then the others.
    pub open spec fn everyone(self, sel: SelectorModel) -> Seq<Actor> {
        (if self.matches(sel, Actor::Computer) {
            seq![Actor::Computer]
        } else {
            Seq::empty()
        }) + self.lanes_matching(sel, self.lanes.len() as int) + self.cells_matching(
            sel,
            self.cells.len() as int,
        )
    }

    /// The entities that `sel` picks where `actor` runs the operation. The
    /// nearest entity is `actor` itself if `sel` picks it, else the first
    /// that it picks.
    pub open spec fn select(self, sel: SelectorModel, actor: Actor) -> Seq<Actor> {
        if !sel.single {
            self.everyone(sel)
        } else if self.matches(sel, actor) {
            seq![actor]
        } else if self.everyone(sel).len() > 0 {
            seq![self.everyone(sel)[0]]
        } else {
            Seq::empty()
        }
    }

    /// The entities that `target` addresses where `actor` runs the
    /// operation. A holder of counters that is known by name only is no
    /// entity of the model.
    pub open spec fn targets(self, target: TargetModel, actor: Actor) -> Seq<Actor> {
        match target {
            TargetModel::Sel(sel) => self.select(sel, actor),
            TargetModel::Raw(_) => Seq::empty(),
        }
    }
}

/// A change of one counter.
pub enum Change {
    /// The counter takes a value.
    Assign(int),
    /// The counter grows by a number.
    Add(int),
    /// The counter shrinks by a number.
    Remove(int),
    /// The counter is combined with a counter of another entity.
    Op(PlayerOp, Actor, Seq<char>),
}

/// The world once the counter `name` of `actor` is changed.
pub open spec fn change(w: World, actor: Actor, name: Seq<char>, ch: Change) -> World {
    let old = w.score(actor, name);
    w.with_score(
        actor,
        name,
        match ch {
            Change::Assign(v) => v,
            Change::Add(v) => wrap(old + v),
            Change::Remove(v) => wrap(old - v),
            Change::Op(op, src, obj) => apply(op, old, w.score(src, obj)),
        },
    )
}

/// The world once the counter `name` of each of `actors` is changed, in
/// order.
pub open spec fn change_each(w: World, actors: Seq<Actor>, name: Seq<char>, ch: Change) -> World
    decreases actors.len(),
{
    if actors.len() == 0 {
        w
    } else {
        change(change_each(w, actors.drop_last(), name, ch), actors.last(), name, ch)
    }
}

/// The world once `actor` has run `cmd`.
pub open spec fn exec(cmd: CommandModel, w: World, actor: Actor) -> World
    decreases cmd, 0nat,
{
    match cmd {
        CommandModel::ScoreSet(t, name, v) => change_each(
            w,
            w.targets(t, actor),
            name,
            Change::Assign(v),
        ),
        CommandModel::ScoreAdd(t, name, v) => change_each(
            w,
            w.targets(t, actor),
            name,
            Change::Add(v),
        ),
        CommandModel::ScoreRemove(t, name, v) => change_each(
            w,
            w.targets(t, actor),
            name,
            Change::Remove(v),
        ),
        CommandModel::ScoreOp(lt, lname, op, rt, rname) => {
            let sources = w.targets(rt, actor);
            if sources.len() == 0 {
                w
            } else {
                change_each(w, w.targets(lt, actor), lname, Change::Op(op, sources[0], rname))
            }
        },
        CommandModel::Execute(t, inner) => exec_each(*inner, w, w.targets(t, actor)),
        CommandModel::Fill(_, _, _) => w,
        CommandModel::Raw(_) => w,
    }
}

/// The world once each of `actors` has run `cmd`, in order.
pub open spec fn exec_each(cmd: CommandModel, w: World, actors: Seq<Actor>) -> World
    decreases cmd, actors.len() + 1,
{
    if actors.len() == 0 {
        w
    } else {
        exec(cmd, exec_each(cmd, w, actors.drop_last()), actors.last())
    }
}

/// The world once each of `cmds` has run, in order, started by no entity.
pub open spec fn run(cmds: Seq<CommandModel>, w: World) -> World
    decreases cmds.len(),
{
    if cmds.len() == 0 {
        w
    } else {
        exec(cmds.last(), run(cmds.drop_last(), w), Actor::Nobody)
    }
}

/// The world once the outputs of a block are stored: the counter that an
/// output is bound to takes the number at the place of the output in
/// `counts`, in every entity that `target` addresses.
pub open spec fn captured(
    w: World,
    target: TargetModel,
    outs: Seq<(CommandBlockOut, Seq<char>)>,
    counts: Seq<int>,
) -> World
    decreases outs.len(),
{
    if outs.len() == 0 {
        w
    } else {
        let prev = captured(w, target, outs.drop_last(), counts);
        change_each(
            prev,
            prev.targets(target, Actor::Nobody),
            outs.last().1,
            Change::Assign(counts[outs.len() - 1]),
        )
    }
}

/// The world once a block has run: its operation runs, started by no
/// entity, and then its outputs are stored. What the outputs are is given
/// by `counts`.
pub open spec fn run_block(block: BlockModel, w: World, counts: Seq<int>) -> World {
    let done = exec(block.command, w, Actor::Nobody);
    match block.stats {
        Some(stats) => captured(done, stats.target, stats.outs, counts),
        None => done,
    }
}

/// Running a sequence with one more operation.
pub broadcast proof fn lemma_run_push(cmds: Seq<CommandModel>, cmd: CommandModel, w: World)
    ensures
        #[trigger] run(cmds.push(cmd), w) == exec(cmd, run(cmds, w), Actor::Nobody),
{
    assert(cmds.push(cmd).drop_last() =~= cmds);
}

/// Running two sequences one after the other.
pub proof fn lemma_run_concat(a: Seq<CommandModel>, b: Seq<CommandModel>, w: World)
    ensures
        run(a + b, w) == run(b, run(a, w)),
    decreases b.len(),
{
    if b.len() == 0 {
        assert(a + b =~= a);
    } else {
        lemma_run_concat(a, b.drop_last(), w);
        assert((a + b).drop_last() =~= a + b.drop_last());
    }
}

/// Running a sequence of one operation.
pub proof fn lemma_run_one(cmd: CommandModel, w: World)
    ensures
        run(seq![cmd], w) == exec(cmd, w, Actor::Nobody),
{
    assert(seq![cmd].drop_last() =~= Seq::<CommandModel>::empty());
    assert(run(Seq::<CommandModel>::empty(), w) == w);
    assert(seq![cmd].last() == cmd);
}

/// A number within the 32-bit signed range wraps to itself.
pub proof fn lemma_wrap_fits(x: int)
    requires
        i32::MIN <= x <= i32::MAX,
    ensures
        wrap(x) == x,
{
    reveal(wrap);
}

/// Wrapping commutes with the addition of a number, and gives a 32-bit
/// signed number.
pub proof fn lemma_wrap_add(x: int, y: int)
    ensures
        wrap(wrap(x) + y) == wrap(x + y),
        i32::MIN <= wrap(x) <= i32::MAX,
{
    reveal(wrap);
}

} // verus!
