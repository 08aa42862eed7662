//! Command blocks, and the items that the assembler hands to the placement
//! stage.

use vstd::prelude::*;
use crate::ast::{reg_name, tests_of, CommandBlockOut, Cond, Register, Test};
use crate::commands::{
    execute, Command, CommandModel, Selector, SelectorModel, Target, TargetModel,
};
use crate::names;
use crate::types::Extent;

verus! {

/// An output of a command block and the counter that captures it.
#[derive(Debug)]
pub struct StatOut {
    pub out: CommandBlockOut,
    pub objective: String,
}

/// Where a command block stores its outputs.
#[derive(Debug)]
pub struct CommandStats {
    pub target: Target,
    pub outs: Vec<StatOut>,
}

/// What a `CommandStats` stands for. Where an output occurs twice, the later
/// entry counts.
pub struct StatsModel {
    pub target: TargetModel,
    pub outs: Seq<(CommandBlockOut, Seq<char>)>,
}

pub open spec fn outs_of(outs: Seq<StatOut>) -> Seq<(CommandBlockOut, Seq<char>)> {
    Seq::new(outs.len(), |i: int| (outs[i].out, outs[i].objective@))
}

impl View for CommandStats {
    type V = StatsModel;

    open spec fn view(&self) -> StatsModel {
        StatsModel { target: self.target@, outs: outs_of(self.outs@) }
    }
}

/// The captures that a list of outputs and registers asks for.
pub open spec fn captures_of(outs: Seq<(CommandBlockOut, Register)>) -> Seq<
    (CommandBlockOut, Seq<char>),
> {
    Seq::new(outs.len(), |i: int| (outs[i].0, outs[i].1.name()))
}

/// Stores each of the given outputs of a block in the counter of `target`
/// that backs the register beside it.
pub fn make_command_stats(target: Target, outs: Vec<(CommandBlockOut, Register)>) -> (r:
    CommandStats)
    ensures
        r@ == (StatsModel { target: target@, outs: captures_of(outs@) }),
{
    let mut list: Vec<StatOut> = Vec::new();
    let mut i: usize = 0;
    while i < outs.len()
        invariant
            i <= outs.len(),
            list.len() == i,
            forall|j: int|
                0 <= j < i ==> list[j].out == outs[j].0 && list[j].objective@ == outs[j].1.name(),
        decreases outs.len() - i,
    {
        list.push(StatOut { out: outs[i].0, objective: reg_name(&outs[i].1) });
        i += 1;
    }
    assert(outs_of(list@) =~= captures_of(outs@));
    CommandStats { target, outs: list }
}

/// What a command block stands for.
pub struct BlockModel {
    pub command: CommandModel,
    pub track_output: bool,
    pub stats: Option<StatsModel>,
}

/// A command block: one primitive operation, ready for placement.
#[derive(Debug)]
pub struct Block {
    pub command: Command,
    pub track_output: bool,
    pub stats: Option<CommandStats>,
}

pub open spec fn opt_stats(s: Option<CommandStats>) -> Option<StatsModel> {
    match s {
        Some(c) => Some(c@),
        None => None,
    }
}

impl View for Block {
    type V = BlockModel;

    open spec fn view(&self) -> BlockModel {
        BlockModel {
            command: self.command@,
            track_output: self.track_output,
            stats: opt_stats(self.stats),
        }
    }
}

/// The block that holds `cmd` and captures nothing.
pub open spec fn plain_block(cmd: CommandModel, track_output: bool) -> BlockModel {
    BlockModel { command: cmd, track_output, stats: None }
}

/// Wraps `cmd` in a command block.
pub fn cmd_block(cmd: Command, track_output: bool) -> (r: Block)
    ensures
        r@ == plain_block(cmd@, track_output),
{
    Block { command: cmd, track_output, stats: None }
}

/// `cmd` under the guards `tests`: with no guard, `cmd` itself; otherwise
/// `cmd` run as each entity that `selector` picks and that passes every test.
pub open spec fn guarded(
    selector: SelectorModel,
    tests: Seq<Test>,
    cmd: CommandModel,
) -> CommandModel {
    if tests.len() == 0 {
        cmd
    } else {
        CommandModel::Execute(TargetModel::Sel(selector.with_tests(tests)), Box::new(cmd))
    }
}

/// The block that holds `cmd` under the guards `conds`.
pub fn make_cmd_block(selector: Selector, conds: &Vec<Cond>, cmd: Command, track_output: bool) -> (r:
    Block)
    ensures
        r@ == plain_block(guarded(selector@, tests_of(conds@), cmd@), track_output),
{
    if conds.len() == 0 {
        cmd_block(cmd, track_output)
    } else {
        let sel = selector.with_conds(conds);
        cmd_block(execute(Target::Sel(sel), cmd), track_output)
    }
}

/// What a deferred fill stands for.
pub struct FillModel {
    pub tests: Seq<Test>,
    pub kind: Seq<char>,
    pub track_output: bool,
}

/// A block that can only be completed once the extent of a program point is
/// known: under its guards, it fills that extent with a kind of block.
#[derive(Debug)]
pub struct PendingFill {
    pub conds: Vec<Cond>,
    pub kind: String,
    pub track_output: bool,
}

impl View for PendingFill {
    type V = FillModel;

    open spec fn view(&self) -> FillModel {
        FillModel { tests: tests_of(self.conds@), kind: self.kind@, track_output: self.track_output }
    }
}

impl FillModel {
    /// The block that the fill becomes once the extent is known.
    pub open spec fn resolve(self, extent: Extent) -> BlockModel
        recommends
            extent != Extent::Empty,
    {
        match extent {
            Extent::MinMax(min, max) => plain_block(
                guarded(
                    names::computer_selector(),
                    self.tests,
                    CommandModel::Fill(min, max, self.kind),
                ),
                self.track_output,
            ),
            Extent::Empty => arbitrary(),
        }
    }
}

impl PendingFill {
    /// Completes the block for the given extent. The fill is used up.
    pub fn resolve(self, extent: Extent) -> (r: Block)
        requires
            extent != Extent::Empty,
        ensures
            r@ == self@.resolve(extent),
    {
        match extent {
            Extent::MinMax(min, max) => make_cmd_block(
                names::make_computer_selector(),
                &self.conds,
                Command::Fill(min, max, self.kind),
                self.track_output,
            ),
            Extent::Empty => vstd::pervasive::unreached(),
        }
    }
}

/// What an assembled item stands for.
pub enum ItemModel {
    Label(Seq<char>),
    Complete(BlockModel),
    Pending(Seq<char>, FillModel),
    Terminal,
}

/// One element of the assembler's output.
#[derive(Debug)]
pub enum AssembledItem {
    /// The items that follow occupy the named program point.
    Label(String),
    /// A resolved operation.
    Complete(Block),
    /// An operation that depends on the extent of the named program point.
    Pending(String, PendingFill),
    /// The end of one pulse of execution.
    Terminal,
}

impl View for AssembledItem {
    type V = ItemModel;

    open spec fn view(&self) -> ItemModel {
        match self {
            AssembledItem::Label(l) => ItemModel::Label(l@),
            AssembledItem::Complete(b) => ItemModel::Complete(b@),
            AssembledItem::Pending(l, f) => ItemModel::Pending(l@, f@),
            AssembledItem::Terminal => ItemModel::Terminal,
        }
    }
}

/// The item that powers the program point `label` where every test holds.
pub open spec fn power_item(tests: Seq<Test>, label: Seq<char>, track_output: bool) -> ItemModel {
    ItemModel::Pending(label, FillModel { tests, kind: names::power_block(), track_output })
}

/// The item that takes the power from the program point `label`.
pub open spec fn power_off_item(label: Seq<char>, track_output: bool) -> ItemModel {
    ItemModel::Pending(
        label,
        FillModel { tests: Seq::empty(), kind: names::idle_block(), track_output },
    )
}

/// Takes the power from the program point `label`.
pub fn power_off(label: String, track_output: bool) -> (r: AssembledItem)
    ensures
        r@ == power_off_item(label@, track_output),
{
    let conds: Vec<Cond> = Vec::new();
    assert(tests_of(conds@) =~= Seq::empty());
    AssembledItem::Pending(
        label,
        PendingFill { conds, kind: String::from_str("minecraft:obsidian"), track_output },
    )
}

/// Powers the program point `label` where every guard holds.
pub fn power_on(conds: Vec<Cond>, label: String, track_output: bool) -> (r: AssembledItem)
    ensures
        r@ == power_item(tests_of(conds@), label@, track_output),
{
    AssembledItem::Pending(
        label,
        PendingFill { conds, kind: String::from_str("minecraft:redstone_block"), track_output },
    )
}

} // verus!
