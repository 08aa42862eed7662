//! Primitive operations of the target machine: guarded reads and writes of
//! named counters attached to entities.

use vstd::prelude::*;
use crate::ast::{reg_name, tests_of, Cond, Test};
use crate::types::{Interval, Pos};

verus! {

/// The arithmetic that one counter operation applies to its left operand.
#[derive(Clone, Copy, Debug, PartialEq, Eq, Structural)]
pub enum PlayerOp {
    Add,
    Sub,
    Mul,
    Div,
    Rem,
    Asn,
    Min,
    Max,
}

/// One requirement of a selector on a counter.
#[derive(Debug)]
pub struct ScoreTest {
    pub objective: String,
    pub interval: Interval,
}

impl View for ScoreTest {
    type V = Test;

    open spec fn view(&self) -> Test {
        Test { objective: self.objective@, interval: self.interval }
    }
}

impl Clone for ScoreTest {
    fn clone(&self) -> (r: ScoreTest)
        ensures
            r@ == self@,
    {
        ScoreTest { objective: self.objective.clone(), interval: self.interval }
    }
}

/// The tests that a list of score requirements stands for, in order.
pub open spec fn scores_of(scores: Seq<ScoreTest>) -> Seq<Test> {
    Seq::new(scores.len(), |i: int| scores[i]@)
}

/// What a selector stands for: the entities with the given name and team
/// whose counters pass every test; with `single`, only the nearest of them.
pub struct SelectorModel {
    pub name: Option<Seq<char>>,
    pub team: Option<Seq<char>>,
    pub single: bool,
    pub scores: Seq<Test>,
}

/// A predicate that picks entities of the target machine.
#[derive(Debug)]
pub struct Selector {
    pub name: Option<String>,
    pub team: Option<String>,
    pub single: bool,
    pub scores: Vec<ScoreTest>,
}

pub open spec fn opt_text(s: Option<String>) -> Option<Seq<char>> {
    match s {
        Some(t) => Some(t@),
        None => None,
    }
}

impl View for Selector {
    type V = SelectorModel;

    open spec fn view(&self) -> SelectorModel {
        SelectorModel {
            name: opt_text(self.name),
            team: opt_text(self.team),
            single: self.single,
            scores: scores_of(self.scores@),
        }
    }
}

/// A copy of an optional text.
pub fn clone_opt(s: &Option<String>) -> (r: Option<String>)
    ensures
        opt_text(r) == opt_text(*s),
{
    match s {
        Some(t) => Some(t.clone()),
        None => None,
    }
}

impl Clone for Selector {
    fn clone(&self) -> (r: Selector)
        ensures
            r@ == self@,
    {
        let mut scores: Vec<ScoreTest> = Vec::new();
        let mut i: usize = 0;
        while i < self.scores.len()
            invariant
                i <= self.scores.len(),
                scores.len() == i,
                forall|j: int| 0 <= j < i ==> scores[j]@ == self.scores[j]@,
            decreases self.scores.len() - i,
        {
            scores.push(self.scores[i].clone());
            i += 1;
        }
        assert(scores_of(scores@) =~= scores_of(self.scores@));
        Selector {
            name: clone_opt(&self.name),
            team: clone_opt(&self.team),
            single: self.single,
            scores,
        }
    }
}

impl SelectorModel {
    /// Every entity.
    pub open spec fn entity() -> SelectorModel {
        SelectorModel { name: None, team: None, single: false, scores: Seq::empty() }
    }

    /// The entities called `name`.
    pub open spec fn named(name: Seq<char>) -> SelectorModel {
        SelectorModel { name: Some(name), team: None, single: false, scores: Seq::empty() }
    }

    /// The members of `team`.
    pub open spec fn on_team(team: Seq<char>) -> SelectorModel {
        SelectorModel { name: None, team: Some(team), single: false, scores: Seq::empty() }
    }

    /// The same selection, narrowed to the nearest entity.
    pub open spec fn nearest(self) -> SelectorModel {
        SelectorModel { single: true, ..self }
    }

    /// The same selection, narrowed by one more test.
    pub open spec fn with_score(self, objective: Seq<char>, interval: Interval) -> SelectorModel {
        SelectorModel { scores: self.scores.push(Test { objective, interval }), ..self }
    }

    /// The same selection, narrowed by the given tests.
    pub open spec fn with_tests(self, tests: Seq<Test>) -> SelectorModel {
        SelectorModel { scores: self.scores + tests, ..self }
    }
}

impl Selector {
    /// Selects every entity.
    pub fn entity() -> (r: Selector)
        ensures
            r@ == SelectorModel::entity(),
    {
        let r = Selector { name: None, team: None, single: false, scores: Vec::new() };
        assert(r@.scores =~= Seq::empty());
        r
    }

    /// Selects the entities called `name`.
    pub fn named(name: &str) -> (r: Selector)
        ensures
            r@ == SelectorModel::named(name@),
    {
        let r = Selector {
            name: Some(String::from_str(name)),
            team: None,
            single: false,
            scores: Vec::new(),
        };
        assert(r@.scores =~= Seq::empty());
        r
    }

    /// Selects the members of `team`.
    pub fn on_team(team: &str) -> (r: Selector)
        ensures
            r@ == SelectorModel::on_team(team@),
    {
        let r = Selector {
            name: None,
            team: Some(String::from_str(team)),
            single: false,
            scores: Vec::new(),
        };
        assert(r@.scores =~= Seq::empty());
        r
    }

    /// Narrows the selection to the nearest entity.
    pub fn nearest(self) -> (r: Selector)
        ensures
            r@ == self@.nearest(),
    {
        Selector { name: self.name, team: self.team, single: true, scores: self.scores }
    }

    /// Narrows the selection by one more test.
    pub fn with_score(self, objective: &str, interval: Interval) -> (r: Selector)
        ensures
            r@ == self@.with_score(objective@, interval),
    {
        let mut scores = self.scores;
        let ghost before = scores@;
        scores.push(ScoreTest { objective: String::from_str(objective), interval });
        assert(scores_of(scores@) =~= scores_of(before).push(
            Test { objective: objective@, interval },
        ));
        Selector { name: self.name, team: self.team, single: self.single, scores }
    }

    /// Narrows the selection by the tests of the guards `conds`.
    pub fn with_conds(self, conds: &Vec<Cond>) -> (r: Selector)
        ensures
            r@ == self@.with_tests(tests_of(conds@)),
    {
        let mut scores = self.scores;
        let ghost before = scores@;
        let mut i: usize = 0;
        while i < conds.len()
            invariant
                i <= conds.len(),
                scores_of(scores@) == scores_of(before) + tests_of(conds@).take(i as int),
            decreases conds.len() - i,
        {
            let ghost prev = scores@;
            scores.push(ScoreTest { objective: reg_name(&conds[i].reg), interval: conds[i].interval });
            assert(scores_of(scores@) =~= scores_of(prev).push(conds[i as int]@));
            assert(tests_of(conds@).take(i + 1) =~= tests_of(conds@).take(i as int).push(
                conds[i as int]@,
            ));
            assert(scores_of(scores@) =~= scores_of(before) + tests_of(conds@).take(i + 1));
            i += 1;
        }
        assert(tests_of(conds@).take(i as int) =~= tests_of(conds@));
        Selector { name: self.name, team: self.team, single: self.single, scores }
    }
}

/// What a target stands for.
pub enum TargetModel {
    Sel(SelectorModel),
    Raw(Seq<char>),
}

/// Whom an operation addresses: the entities a selector picks, or a holder
/// of counters that is known by name only.
#[derive(Debug)]
pub enum Target {
    Sel(Selector),
    Raw(String),
}

impl View for Target {
    type V = TargetModel;

    open spec fn view(&self) -> TargetModel {
        match self {
            Target::Sel(s) => TargetModel::Sel(s@),
            Target::Raw(s) => TargetModel::Raw(s@),
        }
    }
}

impl Clone for Target {
    fn clone(&self) -> (r: Target)
        ensures
            r@ == self@,
    {
        match self {
            Target::Sel(s) => Target::Sel(s.clone()),
            Target::Raw(s) => Target::Raw(s.clone()),
        }
    }
}

/// What a primitive operation stands for.
pub enum CommandModel {
    /// Set a counter of every addressed entity.
    ScoreSet(TargetModel, Seq<char>, int),
    /// Add to a counter of every addressed entity.
    ScoreAdd(TargetModel, Seq<char>, int),
    /// Subtract from a counter of every addressed entity.
    ScoreRemove(TargetModel, Seq<char>, int),
    /// Combine a counter of every addressed entity with a counter of another.
    ScoreOp(TargetModel, Seq<char>, PlayerOp, TargetModel, Seq<char>),
    /// Fill the space between two positions with a kind of block.
    Fill(Pos, Pos, Seq<char>),
    /// Run an operation once as each addressed entity.
    Execute(TargetModel, Box<CommandModel>),
    /// An operation given verbatim.
    Raw(Seq<char>),
}

/// A primitive operation of the target machine.
#[derive(Debug)]
pub enum Command {
    ScoreSet(Target, String, i32),
    ScoreAdd(Target, String, i32),
    ScoreRemove(Target, String, i32),
    ScoreOp(Target, String, PlayerOp, Target, String),
    Fill(Pos, Pos, String),
    Execute(Target, Box<Command>),
    Raw(String),
}

impl Command {
    /// What the operation stands for.
    pub open spec fn model(&self) -> CommandModel
        decreases self,
    {
        match self {
            Command::ScoreSet(t, o, v) => CommandModel::ScoreSet(t@, o@, *v as int),
            Command::ScoreAdd(t, o, v) => CommandModel::ScoreAdd(t@, o@, *v as int),
            Command::ScoreRemove(t, o, v) => CommandModel::ScoreRemove(t@, o@, *v as int),
            Command::ScoreOp(lt, lo, op, rt, ro) => CommandModel::ScoreOp(lt@, lo@, *op, rt@, ro@),
            Command::Fill(a, b, k) => CommandModel::Fill(*a, *b, k@),
            Command::Execute(t, c) => CommandModel::Execute(t@, Box::new(c.model())),
            Command::Raw(s) => CommandModel::Raw(s@),
        }
    }
}

impl View for Command {
    type V = CommandModel;

    open spec fn view(&self) -> CommandModel {
        self.model()
    }
}

/// `target.objective = value`
pub fn players_set(target: Target, objective: String, value: i32) -> (r: Command)
    ensures
        r@ == CommandModel::ScoreSet(target@, objective@, value as int),
{
    Command::ScoreSet(target, objective, value)
}

/// `target.objective += count`
pub fn players_add(target: Target, objective: String, count: i32) -> (r: Command)
    ensures
        r@ == CommandModel::ScoreAdd(target@, objective@, count as int),
{
    Command::ScoreAdd(target, objective, count)
}

/// `target.objective -= count`
pub fn players_remove(target: Target, objective: String, count: i32) -> (r: Command)
    ensures
        r@ == CommandModel::ScoreRemove(target@, objective@, count as int),
{
    Command::ScoreRemove(target, objective, count)
}

/// `ltarget.lobjective op= rtarget.robjective`
pub fn players_op(
    ltarget: Target,
    lobjective: String,
    op: PlayerOp,
    rtarget: Target,
    robjective: String,
) -> (r: Command)
    ensures
        r@ == CommandModel::ScoreOp(ltarget@, lobjective@, op, rtarget@, robjective@),
{
    Command::ScoreOp(ltarget, lobjective, op, rtarget, robjective)
}

/// `ltarget.lobjective %= rtarget.robjective`
pub fn players_rem_op(ltarget: Target, lobjective: String, rtarget: Target, robjective: String) -> (r:
    Command)
    ensures
        r@ == CommandModel::ScoreOp(ltarget@, lobjective@, PlayerOp::Rem, rtarget@, robjective@),
{
    Command::ScoreOp(ltarget, lobjective, PlayerOp::Rem, rtarget, robjective)
}

/// Runs `cmd` once as each entity that `target` addresses.
pub fn execute(target: Target, cmd: Command) -> (r: Command)
    ensures
        r@ == CommandModel::Execute(target@, Box::new(cmd@)),
{
    Command::Execute(target, Box::new(cmd))
}

} // verus!
