//! The instruction model: registers, guards, instructions and statements.

use vstd::prelude::*;
use crate::text::{decimal, numbered};
use crate::types::Interval;
use crate::commands::Target;

verus! {

/// A logical register: general-purpose, predicate, or a named special slot.
#[derive(Debug)]
pub enum Register {
    Gen(u32),
    Pred(u32),
    Spec(String),
}

impl Register {
    /// The name of the counter that backs the register.
    pub open spec fn name(&self) -> Seq<char> {
        match self {
            Register::Gen(n) => seq!['r'] + decimal(*n as nat),
            Register::Pred(n) => seq!['p'] + decimal(*n as nat),
            Register::Spec(s) => s@,
        }
    }

    /// A special register with the given counter name.
    pub fn spec(name: &str) -> (r: Register)
        ensures
            r.name() == name@,
    {
        Register::Spec(String::from_str(name))
    }
}

impl Clone for Register {
    fn clone(&self) -> (r: Register)
        ensures
            r.name() == self.name(),
    {
        match self {
            Register::Gen(n) => Register::Gen(*n),
            Register::Pred(n) => Register::Pred(*n),
            Register::Spec(s) => Register::Spec(s.clone()),
        }
    }
}

/// The name of the counter that backs `reg`.
pub fn reg_name(reg: &Register) -> (r: String)
    ensures
        r@ == reg.name(),
{
    proof {
        reveal_strlit("r");
        reveal_strlit("p");
    }
    match reg {
        Register::Gen(n) => {
            let r = numbered("r", *n);
            assert(r@ =~= seq!['r'] + decimal(*n as nat));
            r
        },
        Register::Pred(n) => {
            let r = numbered("p", *n);
            assert(r@ =~= seq!['p'] + decimal(*n as nat));
            r
        },
        Register::Spec(s) => s.clone(),
    }
}

/// What a guard or a selector asks of one counter of an entity.
pub struct Test {
    pub objective: Seq<char>,
    pub interval: Interval,
}

/// A guard: the register's value must lie in the interval.
#[derive(Debug)]
pub struct Cond {
    pub reg: Register,
    pub interval: Interval,
}

impl View for Cond {
    type V = Test;

    open spec fn view(&self) -> Test {
        Test { objective: self.reg.name(), interval: self.interval }
    }
}

impl Clone for Cond {
    fn clone(&self) -> (r: Cond)
        ensures
            r@ == self@,
    {
        Cond { reg: self.reg.clone(), interval: self.interval }
    }
}

impl Cond {
    pub fn new(reg: Register, interval: Interval) -> (r: Cond)
        ensures
            r@ == (Test { objective: reg.name(), interval }),
    {
        Cond { reg, interval }
    }

    /// `reg == value`
    pub fn eq(reg: Register, value: i32) -> (r: Cond)
        ensures
            r@ == (Test { objective: reg.name(), interval: Interval::Bounded(value, value) }),
    {
        Cond { reg, interval: Interval::Bounded(value, value) }
    }

    /// `min <= reg <= max`
    pub fn bounded(reg: Register, min: i32, max: i32) -> (r: Cond)
        ensures
            r@ == (Test { objective: reg.name(), interval: Interval::Bounded(min, max) }),
    {
        Cond { reg, interval: Interval::Bounded(min, max) }
    }

    /// `reg < value`
    pub fn lt(reg: Register, value: i32) -> (r: Cond)
        requires
            value > i32::MIN,
        ensures
            r@ == (Test { objective: reg.name(), interval: Interval::Max((value - 1) as i32) }),
    {
        Cond { reg, interval: Interval::Max(value - 1) }
    }

    /// `reg >= value`
    pub fn ge(reg: Register, value: i32) -> (r: Cond)
        ensures
            r@ == (Test { objective: reg.name(), interval: Interval::Min(value) }),
    {
        Cond { reg, interval: Interval::Min(value) }
    }
}

/// The tests that a list of guards stands for, in order.
pub open spec fn tests_of(conds: Seq<Cond>) -> Seq<Test> {
    Seq::new(conds.len(), |i: int| conds[i]@)
}

/// Copies a list of guards.
pub fn clone_conds(conds: &Vec<Cond>) -> (r: Vec<Cond>)
    ensures
        tests_of(r@) == tests_of(conds@),
{
    let mut r: Vec<Cond> = Vec::new();
    let mut i: usize = 0;
    while i < conds.len()
        invariant
            i <= conds.len(),
            r.len() == i,
            forall|j: int| 0 <= j < i ==> r[j]@ == conds[j]@,
        decreases conds.len() - i,
    {
        r.push(conds[i].clone());
        i += 1;
    }
    assert(tests_of(r@) =~= tests_of(conds@));
    r
}

/// The guards `conds` followed by `extra`.
pub fn with_cond(conds: &Vec<Cond>, extra: Cond) -> (r: Vec<Cond>)
    ensures
        tests_of(r@) == tests_of(conds@).push(extra@),
{
    let mut r = clone_conds(conds);
    let ghost before = r@;
    r.push(extra);
    assert(tests_of(r@) =~= tests_of(conds@).push(extra@)) by {
        assert(tests_of(before).len() == tests_of(conds@).len());
        assert forall|j: int| 0 <= j < conds.len() implies r[j]@ == conds[j]@ by {
            assert(tests_of(before)[j] == tests_of(conds@)[j]);
        }
    }
    r
}

/// The outputs of a command block that can be captured in a counter.
#[derive(Clone, Copy, Debug, PartialEq, Eq, Structural)]
pub enum CommandBlockOut {
    SuccessCount,
    AffectedBlocks,
    AffectedEntities,
    AffectedItems,
    QueryResult,
}

} // verus!

verus! {

/// An instruction with its operands.
#[derive(Debug)]
pub enum Op {
    LdrRR(Register, Register),
    StrRR(Register, Register),
    AddRR(Register, Register),
    AddRI(Register, i32),
    AddXR(Target, String, Register, Register),
    SubRR(Register, Register),
    SubRI(Register, i32),
    SubXR(Target, String, Register, Register),
    AndRR(Register, Register),
    OrrRR(Register, Register),
    EorRR(Register, Register),
    AsrRR(Register, Register),
    LsrRR(Register, Register),
    LslRR(Register, Register),
    MovRR(Register, Register),
    MovRI(Register, i32),
    MovRX(Register, Target, String),
    MovXR(Target, String, Register, Register),
    MulRR(Register, Register),
    SdivRR(Register, Register),
    UdivRR(Register, Register),
    SremRR(Register, Register),
    UremRR(Register, Register),
    Srng(Register, Register, Option<i32>, Option<i32>),
    Urng(Register, Register, Option<u32>, Option<u32>),
    BrL(String),
    BrR(Register),
    BrLnkL(String),
    BrLnkR(Register),
    Halt,
    RawCmd(Vec<(CommandBlockOut, Register)>, String),
    Push(Register),
    Pop(Register),
}

impl Op {
    /// Whether the instruction has a lowering.
    pub open spec fn supported(&self) -> bool {
        match self {
            Op::Push(_) => false,
            Op::Pop(_) => false,
            _ => true,
        }
    }

    /// Whether the instruction reads or writes memory.
    pub open spec fn touches_memory(&self) -> bool {
        match self {
            Op::LdrRR(_, _) => true,
            Op::StrRR(_, _) => true,
            _ => false,
        }
    }

    /// Tests whether the instruction has a lowering.
    pub fn is_supported(&self) -> (r: bool)
        ensures
            r == self.supported(),
    {
        match self {
            Op::Push(_) => false,
            Op::Pop(_) => false,
            _ => true,
        }
    }

    /// Tests whether the instruction reads or writes memory.
    pub fn is_memory_access(&self) -> (r: bool)
        ensures
            r == self.touches_memory(),
    {
        match self {
            Op::LdrRR(_, _) => true,
            Op::StrRR(_, _) => true,
            _ => false,
        }
    }
}

/// One line of a program: a label declaration or a guarded instruction.
#[derive(Debug)]
pub enum Statement {
    LabelStmt(String),
    Instr(Vec<Cond>, Op),
}

} // verus!
