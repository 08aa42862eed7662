//! The fixed names of the machine: its control entity, the team of the bit
//! lanes, and the counters that the lowering reserves for itself.

use vstd::prelude::*;
use crate::commands::{Selector, SelectorModel, Target, TargetModel};

verus! {

/// The name of the control entity, which holds the registers.
pub open spec fn computer() -> Seq<char> {
    "computer"@
}

/// The team of the 32 bit lanes.
pub open spec fn shifters() -> Seq<char> {
    "Shifters"@
}

/// The counter of a lane that holds two to the power of the lane's rank.
pub open spec fn bit_component() -> Seq<char> {
    "BitComponent"@
}

/// The counter of a lane that holds the lane's rank.
pub open spec fn bit_number() -> Seq<char> {
    "BitNumber"@
}

pub open spec fn tmp0() -> Seq<char> {
    "t0"@
}

pub open spec fn tmp1() -> Seq<char> {
    "t1"@
}

pub open spec fn tmp2() -> Seq<char> {
    "t2"@
}

/// The counter of the control entity that holds the constant two.
pub open spec fn two() -> Seq<char> {
    "TWO"@
}

/// The counter of the control entity that holds the least 32-bit value.
pub open spec fn min() -> Seq<char> {
    "MIN"@
}

pub open spec fn mem_op() -> Seq<char> {
    "MemOp"@
}

pub open spec fn mem_addr() -> Seq<char> {
    "MemAddr"@
}

pub open spec fn mem_data() -> Seq<char> {
    "MemData"@
}

pub open spec fn mem_tag() -> Seq<char> {
    "MemTag"@
}

/// The link register.
pub open spec fn link() -> Seq<char> {
    "lr"@
}

/// The register that holds the destination of an indirect branch.
pub open spec fn ind_addr() -> Seq<char> {
    "IndAddr"@
}

/// The program point of the table that dispatches indirect branches.
pub open spec fn jump_indirect() -> Seq<char> {
    "@jump_indirect"@
}

/// The kind of block that powers a program point.
pub open spec fn power_block() -> Seq<char> {
    "minecraft:redstone_block"@
}

/// The kind of block that leaves a program point without power.
pub open spec fn idle_block() -> Seq<char> {
    "minecraft:obsidian"@
}

/// The selector of the control entity.
pub open spec fn computer_selector() -> SelectorModel {
    SelectorModel::named(computer())
}

/// The control entity as a target.
pub open spec fn computer_target() -> TargetModel {
    TargetModel::Sel(computer_selector())
}

/// Every bit lane.
pub open spec fn all_lanes() -> TargetModel {
    TargetModel::Sel(SelectorModel::on_team(shifters()))
}

/// The nearest bit lane: the lane itself where a lane executes.
pub open spec fn one_lane() -> TargetModel {
    TargetModel::Sel(SelectorModel::on_team(shifters()).nearest())
}

pub fn make_computer_selector() -> (r: Selector)
    ensures
        r@ == computer_selector(),
{
    Selector::named("computer")
}

pub fn make_computer_target() -> (r: Target)
    ensures
        r@ == computer_target(),
{
    Target::Sel(Selector::named("computer"))
}

pub fn make_all_lanes() -> (r: Target)
    ensures
        r@ == all_lanes(),
{
    Target::Sel(Selector::on_team("Shifters"))
}

pub fn make_one_lane() -> (r: Target)
    ensures
        r@ == one_lane(),
{
    Target::Sel(Selector::on_team("Shifters").nearest())
}

} // verus!
