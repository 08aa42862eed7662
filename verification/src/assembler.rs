//! The assembler: it lowers one statement at a time and hands out the
//! resulting items on demand.

use vstd::prelude::*;
use std::collections::VecDeque;
use crate::ast::{
    clone_conds, reg_name, tests_of, with_cond, CommandBlockOut, Cond, Op, Register, Statement,
};
use crate::block::{
    make_cmd_block, make_command_stats, power_off, power_on, AssembledItem, Block, CommandStats,
    ItemModel,
};
use crate::code;
use crate::commands::{
    execute, players_add, players_op, players_rem_op, players_remove, players_set, Command,
    CommandModel, PlayerOp, Selector, Target,
};
use crate::hw::{Computer, MemoryRegion};
use crate::labels::{
    assign, assign_all, coalesced, first_known, knows, lemma_addr_at, lemma_first_known,
    lemma_place, lookup, next_after, place, shared_addr, slot, table_of, texts_of, within,
    LabelAddr,
};
use crate::names;
use crate::state::{
    jump_items, lemma_pump_progress, stream, lemma_emit_all_push, lemma_emit_cmds_concat, lemma_emit_cmds_none,
    lemma_emit_cmds_one, lemma_emit_cmds_push, lemma_emit_settles, mem_tag_code, mem_tagged,
    mem_tests, power_mem_items, State,
};
use crate::text::numbered;
use crate::types::Interval;

verus! {

/// The items that a queue of assembled items stands for, oldest first.
pub open spec fn items_of(q: Seq<AssembledItem>) -> Seq<ItemModel> {
    Seq::new(q.len(), |i: int| q[i]@)
}

/// Whether a statement can be assembled for the machine: its instruction
/// has a lowering, and a memory access finds every region addressable.
pub open spec fn statement_ok(computer: &Computer, stmt: Statement) -> bool {
    match stmt {
        Statement::LabelStmt(_) => true,
        Statement::Instr(_, op) => op.supported() && (op.touches_memory()
            ==> computer.addressable()),
    }
}

/// Whether every statement of a program can be assembled for the machine.
pub open spec fn acceptable(computer: &Computer, input: Seq<Statement>) -> bool {
    forall|i: int| 0 <= i < input.len() ==> statement_ok(computer, #[trigger] input[i])
}

/// The longest program that an assembler takes: each statement may use up
/// two addresses and two unique numbers.
pub const MAX_STATEMENTS: usize = 0x3fff_fff0;

/// Whether the addresses and unique numbers that are left suffice for `n`
/// more statements and the closing items.
pub open spec fn budget(st: State, n: int) -> bool {
    &&& st.next_addr + 2 * n + (if st.done { 0int } else { 2int }) <= i32::MAX
    &&& st.unique + 2 * n <= i32::MAX
}

/// An assembler over a program for a machine.
pub struct Assembler<'c> {
    computer: &'c Computer,
    input: VecDeque<Statement>,
    track_output: bool,
    buffer: VecDeque<AssembledItem>,
    uses_memory: bool,
    uses_bitwise: bool,
    done: bool,
    unique: u32,
    pending_labels: Vec<String>,
    next_addr: i32,
    label_addrs: Vec<LabelAddr>,
}

impl<'c> View for Assembler<'c> {
    type V = State;

    closed spec fn view(&self) -> State {
        State {
            track_output: self.track_output,
            buffer: items_of(self.buffer@),
            uses_memory: self.uses_memory,
            uses_bitwise: self.uses_bitwise,
            done: self.done,
            unique: self.unique as int,
            pending_labels: texts_of(self.pending_labels@),
            next_addr: self.next_addr as int,
            table: table_of(self.label_addrs@),
        }
    }
}

impl<'c> Assembler<'c> {
    /// The statements that are not assembled yet.
    pub closed spec fn input(&self) -> Seq<Statement> {
        self.input@
    }

    /// The machine that the program is assembled for.
    pub closed spec fn machine(&self) -> &Computer {
        self.computer
    }

    /// The memory regions of the machine.
    pub open spec fn regions(&self) -> Seq<MemoryRegion> {
        self.machine().memory@
    }

    /// The state is well-formed, the rest of the program can be assembled,
    /// and addresses and unique numbers suffice for it.
    pub open spec fn wf(&self) -> bool {
        &&& self@.wf()
        &&& budget(self@, self.input().len() as int)
        &&& acceptable(self.machine(), self.input())
    }

    /// The assembler is in the state `st`, with the input and the machine
    /// of `pre`.
    pub open spec fn steps_to(&self, pre: &Assembler<'c>, st: State) -> bool {
        &&& self@ == st
        &&& self.input() == pre.input()
        &&& self.machine() == pre.machine()
    }

    /// An assembler over the program `assembly` for the machine `computer`.
    pub fn new(computer: &'c Computer, assembly: Vec<Statement>) -> (r: Assembler<'c>)
        requires
            assembly.len() <= MAX_STATEMENTS,
            acceptable(computer, assembly@),
        ensures
            r@ == State::initial(),
            r.input() == assembly@,
            r.machine() == computer,
            r.wf(),
    {
        let mut input: VecDeque<Statement> = VecDeque::new();
        let mut assembly = assembly;
        let ghost all = assembly@;
        while assembly.len() > 0
            invariant
                assembly@ + input@ == all,
            decreases assembly.len(),
        {
            let ghost before = assembly@;
            let ghost queued = input@;
            let stmt = assembly.pop().unwrap();
            input.push_front(stmt);
            assert(assembly@ + input@ =~= before + queued);
        }
        assert(input@ =~= all);
        let r = Assembler {
            computer,
            input,
            track_output: false,
            buffer: VecDeque::new(),
            uses_memory: false,
            uses_bitwise: false,
            done: false,
            unique: 0,
            pending_labels: Vec::new(),
            next_addr: 0,
            label_addrs: Vec::new(),
        };
        assert(r@.buffer =~= Seq::empty());
        assert(r@.pending_labels =~= Seq::empty());
        assert(r@.table =~= Seq::empty());
        r
    }

    /// Sets whether the blocks emitted from now on record their output.
    pub fn set_track_output(&mut self, value: bool)
        ensures
            final(self).steps_to(old(self), (State { track_output: value, ..old(self)@ })),
    {
        self.track_output = value;
    }

    /// Whether a memory access was assembled so far.
    pub fn uses_memory(&self) -> (r: bool)
        ensures
            r == self@.uses_memory,
    {
        self.uses_memory
    }

    /// Whether a bitwise operation or a shift was assembled so far.
    pub fn uses_bitwise(&self) -> (r: bool)
        ensures
            r == self@.uses_bitwise,
    {
        self.uses_bitwise
    }

    /// The address of `label`, if it has one.
    pub fn find_label_addr(&self, label: &String) -> (r: Option<i32>)
        requires
            self@.wf(),
        ensures
            match r {
                Some(a) => lookup(self@.table, label@) == Some(a as int),
                None => lookup(self@.table, label@).is_none(),
            },
    {
        let mut i: usize = 0;
        while i < self.label_addrs.len()
            invariant
                i <= self.label_addrs.len(),
                self@.wf(),
                forall|j: int| 0 <= j < i ==> (#[trigger] self@.table[j]).label != label@,
            decreases self.label_addrs.len() - i,
        {
            if self.label_addrs[i].label == *label {
                proof {
                    assert(self@.table[i as int].label == label@);
                    lemma_addr_at(self@.table, i as int);
                }
                return Some(self.label_addrs[i].addr);
            }
            i += 1;
        }
        None
    }

    /// Enters `label` with the address `addr` into the table, in its place.
    fn place_label(&mut self, label: String, addr: i32)
        requires
            old(self)@.wf(),
        ensures
            final(self).steps_to(
                old(self),
                (State { table: place(old(self)@.table, label@, addr as int), ..old(self)@ }),
            ),
    {
        let mut p: usize = self.label_addrs.len();
        assert(self@.table.take(p as int) =~= self@.table);
        while p > 0 && self.label_addrs[p - 1].addr > addr
            invariant
                p <= self.label_addrs.len(),
                slot(self@.table, addr as int) == slot(self@.table.take(p as int), addr as int),
            decreases p,
        {
            proof {
                let t = self@.table.take(p as int);
                assert(t.last() == self@.table[p - 1]);
                assert(t.drop_last() =~= self@.table.take(p - 1));
            }
            p -= 1;
        }
        proof {
            let t = self@.table.take(p as int);
            if p > 0 {
                assert(t.last() == self@.table[p - 1]);
            }
            assert(slot(t, addr as int) == p);
        }
        let ghost before = self@.table;
        self.label_addrs.insert(p, LabelAddr { label, addr });
        assert(self@.table =~= place(before, label@, addr as int));
    }

    /// The address of `label`: its own, or else a new one.
    pub fn get_label_addr(&mut self, label: &String) -> (r: i32)
        requires
            old(self)@.wf(),
            old(self)@.next_addr < i32::MAX,
        ensures
            final(self).steps_to(old(self), old(self)@.label_addr(label@).0),
            r == old(self)@.label_addr(label@).1,
            final(self)@.wf(),
            old(self)@.next_addr <= final(self)@.next_addr <= old(self)@.next_addr + 1,
    {
        if let Some(addr) = self.find_label_addr(label) {
            return addr;
        }
        proof {
            lemma_place(self@.table, label@, self@.next_addr + 1);
            assert(within(self@.table, self@.next_addr + 1));
        }
        // Zero is no address.
        self.next_addr += 1;
        let addr = self.next_addr;
        self.place_label(label.clone(), addr);
        addr
    }
}

} // verus!

verus! {

impl<'c> Assembler<'c> {
    /// Gives the labels of one program point one address: that of the first
    /// of them that has one, else a new one. A label that has an address
    /// keeps it.
    pub fn coalesce_label_addrs(&mut self, labels: &Vec<String>)
        requires
            old(self)@.wf(),
            labels.len() > 0 ==> old(self)@.next_addr < i32::MAX,
        ensures
            final(self).steps_to(
                old(self),
                (State {
                    table: coalesced(old(self)@.table, old(self)@.next_addr, texts_of(labels@)),
                    next_addr: next_after(
                        old(self)@.table,
                        old(self)@.next_addr,
                        texts_of(labels@),
                    ),
                    ..old(self)@
                }),
            ),
            final(self)@.wf(),
    {
        let ghost group = texts_of(labels@);
        let ghost t0 = self@.table;
        let ghost n0 = self@.next_addr;
        if labels.len() == 0 {
            return ;
        }
        let mut existing: Option<i32> = None;
        let mut i: usize = 0;
        assert(group.skip(0) =~= group);
        while i < labels.len() && existing.is_none()
            invariant
                i <= labels.len(),
                group == texts_of(labels@),
                self@.wf(),
                self@.table == t0,
                existing is None ==> first_known(t0, group) == first_known(t0, group.skip(i as int)),
                existing is Some ==> first_known(t0, group) == Some(existing.unwrap() as int),
                existing is Some ==> 1 <= existing.unwrap() <= self@.next_addr,
            decreases labels.len() - i, (if existing.is_none() { 1int } else { 0int }),
        {
            proof {
                assert(group.skip(i as int)[0] == group[i as int]);
                assert(group.skip(i as int).drop_first() =~= group.skip(i + 1));
                assert(group[i as int] == labels[i as int]@);
            }
            match self.find_label_addr(&labels[i]) {
                Some(addr) => {
                    existing = Some(addr);
                },
                None => {
                    i += 1;
                },
            }
        }
        let ghost shared = shared_addr(t0, n0, group);
        let addr: i32 = match existing {
            Some(a) => a,
            None => {
                proof {
                    lemma_first_known(t0, group);
                    assert(!knows(t0, group[0]));
                    assert(group[0] == labels[0]@);
                }
                self.get_label_addr(&labels[0])
            },
        };
        proof {
            assert(addr == shared);
            assert(assign_all(self@.table, group, shared) == coalesced(t0, n0, group)) by {
                if existing is None {
                    lemma_place(t0, group[0], shared);
                    assert(knows(self@.table, group[0]));
                    assert(assign(self@.table, group[0], shared) == self@.table);
                    assert(assign(t0, group[0], shared) == self@.table);
                }
            }
            assert(group.skip(0) =~= group);
        }
        let mut k: usize = 0;
        while k < labels.len()
            invariant
                k <= labels.len(),
                group == texts_of(labels@),
                self@.wf(),
                1 <= addr <= self@.next_addr,
                addr == shared,
                assign_all(self@.table, group.skip(k as int), shared) == coalesced(t0, n0, group),
                self.steps_to(
                    old(self),
                    (State {
                        table: self@.table,
                        next_addr: next_after(t0, n0, group),
                        ..old(self)@
                    }),
                ),
            decreases labels.len() - k,
        {
            proof {
                assert(group.skip(k as int)[0] == group[k as int]);
                assert(group.skip(k as int).drop_first() =~= group.skip(k + 1));
                assert(group[k as int] == labels[k as int]@);
            }
            if self.find_label_addr(&labels[k]).is_none() {
                proof {
                    lemma_place(self@.table, group[k as int], addr as int);
                }
                self.place_label(labels[k].clone(), addr);
            }
            k += 1;
        }
        assert(group.skip(labels.len() as int) =~= Seq::<Seq<char>>::empty());
    }

    /// Emits `item`. A label waits until an operation follows; an operation
    /// first settles the labels that wait: they get one address, their label
    /// items enter the buffer, and one item takes the power from them.
    pub fn emit(&mut self, item: AssembledItem)
        requires
            old(self)@.wf(),
            (item is Label) || old(self)@.can_emit(),
        ensures
            final(self).steps_to(old(self), old(self)@.emit(item@)),
            final(self)@.wf(),
            !(item is Label) ==> final(self)@.follows(old(self)@),
    {
        match item {
            AssembledItem::Label(label) => {
                let ghost before = self.pending_labels@;
                self.pending_labels.push(label);
                assert(texts_of(self.pending_labels@) =~= texts_of(before).push(label@));
            },
            other => {
                proof {
                    lemma_emit_settles(self@, other@);
                }
                if self.pending_labels.len() > 0 {
                    let ghost start = self@;
                    let first_label = self.pending_labels[0].clone();
                    let mut labels: Vec<String> = Vec::new();
                    std::mem::swap(&mut labels, &mut self.pending_labels);
                    let ghost group = texts_of(labels@);
                    assert(group == start.pending_labels);
                    assert(self@.pending_labels =~= Seq::empty());
                    self.coalesce_label_addrs(&labels);
                    let ghost mid = self@;
                    let mut i: usize = 0;
                    while i < labels.len()
                        invariant
                            i <= labels.len(),
                            group == texts_of(labels@),
                            self.steps_to(
                                old(self),
                                (State {
                                    buffer: start.buffer + crate::state::label_items(group).take(
                                        i as int,
                                    ),
                                    ..mid
                                }),
                            ),
                        decreases labels.len() - i,
                    {
                        let ghost queued = self.buffer@;
                        self.buffer.push_back(AssembledItem::Label(labels[i].clone()));
                        proof {
                            let li = crate::state::label_items(group);
                            assert(items_of(self.buffer@) =~= items_of(queued).push(li[i as int]));
                            assert(li.take(i + 1) =~= li.take(i as int).push(li[i as int]));
                            assert(start.buffer + li.take(i + 1) =~= (start.buffer + li.take(
                                i as int,
                            )).push(li[i as int]));
                        }
                        i += 1;
                    }
                    let ghost queued = self.buffer@;
                    self.buffer.push_back(power_off(first_label, self.track_output));
                    proof {
                        let li = crate::state::label_items(group);
                        assert(li.take(labels.len() as int) =~= li);
                        assert(items_of(self.buffer@) =~= items_of(queued).push(
                            crate::block::power_off_item(group[0], self.track_output),
                        ));
                    }
                    assert(self@ == start.flushed());
                }
                let ghost queued = self.buffer@;
                self.buffer.push_back(other);
                assert(items_of(self.buffer@) =~= items_of(queued).push(other@));
            },
        }
    }

    /// Takes the next unique number.
    pub fn gen_unique_int(&mut self) -> (r: u32)
        requires
            old(self)@.unique < i32::MAX,
        ensures
            r == old(self)@.unique,
            final(self).steps_to(old(self), old(self)@.bumped()),
    {
        let value = self.unique;
        self.unique += 1;
        value
    }

    /// Makes a label of `prefix` and the next unique number.
    pub fn gen_unique_label(&mut self, prefix: &str) -> (r: String)
        requires
            old(self)@.unique < i32::MAX,
            0 <= old(self)@.unique,
        ensures
            r@ == old(self)@.unique_label(prefix@),
            final(self).steps_to(old(self), old(self)@.bumped()),
    {
        let n = self.gen_unique_int();
        numbered(prefix, n)
    }
}

} // verus!

verus! {

impl<'c> Assembler<'c> {
    /// `lhs op= rhs`, both registers.
    pub fn make_op_cmd_rr(&self, lhs: &Register, op: PlayerOp, rhs: &Register) -> (r: Command)
        ensures
            r@ == CommandModel::ScoreOp(
                names::computer_target(),
                lhs.name(),
                op,
                names::computer_target(),
                rhs.name(),
            ),
    {
        players_op(
            names::make_computer_target(),
            reg_name(lhs),
            op,
            names::make_computer_target(),
            reg_name(rhs),
        )
    }

    /// `lhs op= rtgt.robj`
    pub fn make_op_cmd_rx(&self, lhs: &Register, op: PlayerOp, rtgt: Target, robj: String) -> (r:
        Command)
        ensures
            r@ == CommandModel::ScoreOp(names::computer_target(), lhs.name(), op, rtgt@, robj@),
    {
        players_op(names::make_computer_target(), reg_name(lhs), op, rtgt, robj)
    }

    /// `ltgt.lobj op= rhs`
    pub fn make_op_cmd_xr(&self, ltgt: Target, lobj: String, op: PlayerOp, rhs: &Register) -> (r:
        Command)
        ensures
            r@ == CommandModel::ScoreOp(ltgt@, lobj@, op, names::computer_target(), rhs.name()),
    {
        players_op(ltgt, lobj, op, names::make_computer_target(), reg_name(rhs))
    }

    /// Emits `cmd` as a block under the guards `conds`.
    pub fn emit_cmd(&mut self, conds: &Vec<Cond>, cmd: Command)
        requires
            old(self)@.wf(),
            old(self)@.can_emit(),
        ensures
            final(self).steps_to(
                old(self),
                old(self)@.emit_cmd(code::on_computer(tests_of(conds@), cmd@)),
            ),
            final(self)@.follows(old(self)@),
    {
        let block = make_cmd_block(names::make_computer_selector(), conds, cmd, self.track_output);
        self.emit(AssembledItem::Complete(block));
    }

    /// Emits `dst op= src`.
    pub fn emit_rr(&mut self, conds: &Vec<Cond>, dst: &Register, op: PlayerOp, src: &Register)
        requires
            old(self)@.wf(),
            old(self)@.can_emit(),
        ensures
            final(self).steps_to(
                old(self),
                old(self)@.emit_cmd(code::rr(tests_of(conds@), dst.name(), op, src.name())),
            ),
            final(self)@.follows(old(self)@),
    {
        let cmd = self.make_op_cmd_rr(dst, op, src);
        self.emit_cmd(conds, cmd);
    }

    /// Stores the success count of `block` in the register `reg`.
    pub fn add_success_count(&self, block: &mut Block, reg: &Register)
        ensures
            final(block)@ == (crate::block::BlockModel {
                stats: Some(
                    crate::block::StatsModel {
                        target: names::computer_target(),
                        outs: seq![(CommandBlockOut::SuccessCount, reg.name())],
                    },
                ),
                ..old(block)@
            }),
    {
        let mut outs: Vec<(CommandBlockOut, Register)> = Vec::new();
        outs.push((CommandBlockOut::SuccessCount, reg.clone()));
        let stats = make_command_stats(names::make_computer_target(), outs);
        assert(stats@.outs =~= seq![(CommandBlockOut::SuccessCount, reg.name())]);
        self.add_command_stats(block, stats);
    }

    /// Attaches `stats` to `block`, in place of any it had.
    pub fn add_command_stats(&self, block: &mut Block, stats: CommandStats)
        ensures
            final(block)@ == (crate::block::BlockModel { stats: Some(stats@), ..old(block)@ }),
    {
        block.stats = Some(stats);
    }

    /// Emits `tgt.obj op= src`, with the success count stored in `success`.
    pub fn emit_xr(
        &mut self,
        conds: &Vec<Cond>,
        tgt: &Target,
        obj: &String,
        op: PlayerOp,
        src: &Register,
        success: &Register,
    )
        requires
            old(self)@.wf(),
            old(self)@.can_emit(),
        ensures
            final(self).steps_to(
                old(self),
                old(self)@.emit(
                    old(self)@.counted(
                        code::xr(tests_of(conds@), tgt@, obj@, op, src.name()),
                        success.name(),
                    ),
                ),
            ),
            final(self)@.follows(old(self)@),
    {
        let cmd = self.make_op_cmd_xr(tgt.clone(), obj.clone(), op, src);
        let mut block = make_cmd_block(
            names::make_computer_selector(),
            conds,
            cmd,
            self.track_output,
        );
        self.add_success_count(&mut block, success);
        self.emit(AssembledItem::Complete(block));
    }

    /// Emits `dst op= tgt.obj`.
    pub fn emit_rx(
        &mut self,
        conds: &Vec<Cond>,
        dst: &Register,
        op: PlayerOp,
        tgt: &Target,
        obj: &String,
    )
        requires
            old(self)@.wf(),
            old(self)@.can_emit(),
        ensures
            final(self).steps_to(
                old(self),
                old(self)@.emit_cmd(code::rx(tests_of(conds@), dst.name(), op, tgt@, obj@)),
            ),
            final(self)@.follows(old(self)@),
    {
        let cmd = self.make_op_cmd_rx(dst, op, tgt.clone(), obj.clone());
        self.emit_cmd(conds, cmd);
    }

    /// Emits `dst = value`.
    pub fn emit_rset(&mut self, conds: &Vec<Cond>, dst: &Register, value: i32)
        requires
            old(self)@.wf(),
            old(self)@.can_emit(),
        ensures
            final(self).steps_to(
                old(self),
                old(self)@.emit_cmd(code::rset(tests_of(conds@), dst.name(), value as int)),
            ),
            final(self)@.follows(old(self)@),
    {
        let cmd = players_set(names::make_computer_target(), reg_name(dst), value);
        self.emit_cmd(conds, cmd);
    }

    /// Emits `dst += count`.
    pub fn emit_radd(&mut self, conds: &Vec<Cond>, dst: &Register, count: i32)
        requires
            old(self)@.wf(),
            old(self)@.can_emit(),
        ensures
            final(self).steps_to(
                old(self),
                old(self)@.emit_cmd(code::radd(tests_of(conds@), dst.name(), count as int)),
            ),
            final(self)@.follows(old(self)@),
    {
        let cmd = players_add(names::make_computer_target(), reg_name(dst), count);
        self.emit_cmd(conds, cmd);
    }

    /// Emits `dst -= count`.
    pub fn emit_rsub(&mut self, conds: &Vec<Cond>, dst: &Register, count: i32)
        requires
            old(self)@.wf(),
            old(self)@.can_emit(),
        ensures
            final(self).steps_to(
                old(self),
                old(self)@.emit_cmd(code::rsub(tests_of(conds@), dst.name(), count as int)),
            ),
            final(self)@.follows(old(self)@),
    {
        let cmd = players_remove(names::make_computer_target(), reg_name(dst), count);
        self.emit_cmd(conds, cmd);
    }

    /// Emits `tgt.obj = value`.
    pub fn emit_xset(&mut self, conds: &Vec<Cond>, tgt: &Target, obj: &String, value: i32)
        requires
            old(self)@.wf(),
            old(self)@.can_emit(),
        ensures
            final(self).steps_to(
                old(self),
                old(self)@.emit_cmd(code::xset(tests_of(conds@), tgt@, obj@, value as int)),
            ),
            final(self)@.follows(old(self)@),
    {
        let cmd = players_set(tgt.clone(), obj.clone(), value);
        self.emit_cmd(conds, cmd);
    }

    /// Emits the item that powers `label` where the guards hold.
    pub fn emit_power_label(&mut self, conds: Vec<Cond>, label: String)
        requires
            old(self)@.wf(),
            old(self)@.can_emit(),
        ensures
            final(self).steps_to(
                old(self),
                old(self)@.emit(old(self)@.power(tests_of(conds@), label@)),
            ),
            final(self)@.follows(old(self)@),
    {
        let item = power_on(conds, label, self.track_output);
        self.emit(item);
    }

    /// In every lane: `lhs op= rhs`, both counters of the lane.
    pub fn bit_vec_op(&mut self, conds: &Vec<Cond>, lhs: &str, op: PlayerOp, rhs: &str)
        requires
            old(self)@.wf(),
            old(self)@.can_emit(),
        ensures
            final(self).steps_to(
                old(self),
                old(self)@.emit_cmd(code::bit_vec_op(tests_of(conds@), lhs@, op, rhs@)),
            ),
            final(self)@.follows(old(self)@),
    {
        let inner = players_op(
            names::make_one_lane(),
            String::from_str(lhs),
            op,
            names::make_one_lane(),
            String::from_str(rhs),
        );
        self.emit_cmd(conds, execute(names::make_all_lanes(), inner));
    }

    /// Spreads the bits of `reg` over the lanes, into their counter
    /// `bit_obj`.
    pub fn expand_bits(&mut self, conds: &Vec<Cond>, reg: &Register, bit_obj: &str)
        requires
            old(self)@.wf(),
            old(self)@.can_emit(),
        ensures
            final(self).steps_to(
                old(self),
                old(self)@.emit_cmds(code::expand_bits(tests_of(conds@), reg.name(), bit_obj@)),
            ),
            final(self)@.follows(old(self)@),
    {
        broadcast use lemma_emit_cmds_push;

        let lt_zero_conds = with_cond(conds, Cond::lt(reg.clone(), 0));
        let min_reg = Register::spec("MIN");

        // Every lane takes the value of the register.
        let cmd = self.make_op_cmd_xr(
            names::make_all_lanes(),
            String::from_str(bit_obj),
            PlayerOp::Asn,
            reg,
        );
        self.emit_cmd(conds, cmd);

        // A negative value loses its sign bit, which is restored below.
        let cmd = self.make_op_cmd_xr(
            names::make_all_lanes(),
            String::from_str(bit_obj),
            PlayerOp::Sub,
            &min_reg,
        );
        self.emit_cmd(&lt_zero_conds, cmd);

        // Every lane divides by its component and keeps the lowest bit.
        self.bit_vec_op(conds, bit_obj, PlayerOp::Div, "BitComponent");
        let cmd = players_rem_op(
            names::make_all_lanes(),
            String::from_str(bit_obj),
            names::make_computer_target(),
            String::from_str("TWO"),
        );
        self.emit_cmd(conds, cmd);

        // The sign lane of a negative value holds one.
        let tgt_high = Target::Sel(
            Selector::on_team("Shifters").with_score("BitNumber", Interval::Bounded(31, 31)),
        );
        let cmd = players_set(tgt_high, String::from_str(bit_obj), 1);
        self.emit_cmd(&lt_zero_conds, cmd);
    }

    /// Gathers the bits in the counter `bit_obj` of the lanes into `dst`.
    pub fn accum_bits(&mut self, conds: &Vec<Cond>, dst: &Register, bit_obj: &str)
        requires
            old(self)@.wf(),
            old(self)@.can_emit(),
        ensures
            final(self).steps_to(
                old(self),
                old(self)@.emit_cmds(code::accum_bits(tests_of(conds@), dst.name(), bit_obj@)),
            ),
            final(self)@.follows(old(self)@),
    {
        broadcast use lemma_emit_cmds_push;

        self.bit_vec_op(conds, bit_obj, PlayerOp::Mul, "BitComponent");
        self.emit_rset(conds, dst, 0);
        let inner = self.make_op_cmd_rx(
            dst,
            PlayerOp::Add,
            names::make_one_lane(),
            String::from_str(bit_obj),
        );
        self.emit_cmd(conds, execute(names::make_all_lanes(), inner));
    }
}

} // verus!

verus! {

/// Emitting the operations of a bitwise instruction, piece by piece.
proof fn lemma_emit_bitwise(
    st: State,
    tests: Seq<crate::ast::Test>,
    dst: Seq<char>,
    src: Seq<char>,
    op: PlayerOp,
    wrap: bool,
)
    ensures
        st.emit_cmds(code::bitwise(tests, dst, src, op, wrap)) == ({
            let s1 = st.emit_cmds(code::expand_bits(tests, dst, names::tmp0())).emit_cmds(
                code::expand_bits(tests, src, names::tmp1()),
            ).emit_cmd(code::bit_vec_op(tests, names::tmp0(), op, names::tmp1()));
            let s2 = if wrap {
                s1.emit_cmd(
                    code::xr(tests, names::all_lanes(), names::tmp0(), PlayerOp::Rem, names::two()),
                )
            } else {
                s1
            };
            s2.emit_cmds(code::accum_bits(tests, dst, names::tmp0()))
        }),
{
    let a = code::expand_bits(tests, dst, names::tmp0());
    let b = code::expand_bits(tests, src, names::tmp1());
    let c = seq![code::bit_vec_op(tests, names::tmp0(), op, names::tmp1())];
    let d = if wrap {
        seq![code::xr(tests, names::all_lanes(), names::tmp0(), PlayerOp::Rem, names::two())]
    } else {
        Seq::empty()
    };
    let e = code::accum_bits(tests, dst, names::tmp0());
    lemma_emit_cmds_concat(st, a, b);
    lemma_emit_cmds_concat(st, a + b, c);
    lemma_emit_cmds_concat(st, a + b + c, d);
    lemma_emit_cmds_concat(st, a + b + c + d, e);
    lemma_emit_cmds_one(st.emit_cmds(a + b), c[0]);
    if wrap {
        lemma_emit_cmds_one(st.emit_cmds(a + b + c), d[0]);
    } else {
        lemma_emit_cmds_none(st.emit_cmds(a + b + c));
    }
}

impl<'c> Assembler<'c> {
    /// Records that the bit lanes are used.
    fn mark_bitwise(&mut self)
        ensures
            final(self).steps_to(old(self), old(self)@.bitwise()),
    {
        self.uses_bitwise = true;
    }

    /// Emits `dst &= src`.
    pub fn emit_and_rr(&mut self, conds: &Vec<Cond>, dst: &Register, src: &Register)
        requires
            old(self)@.wf(),
            old(self)@.can_emit(),
        ensures
            final(self).steps_to(
                old(self),
                old(self)@.bitwise().emit_cmds(
                    code::and_rr(tests_of(conds@), dst.name(), src.name()),
                ),
            ),
            final(self)@.follows(old(self)@),
    {
        self.mark_bitwise();
        proof {
            lemma_emit_bitwise(
                self@,
                tests_of(conds@),
                dst.name(),
                src.name(),
                PlayerOp::Mul,
                false,
            );
        }
        self.expand_bits(conds, dst, "t0");
        self.expand_bits(conds, src, "t1");
        self.bit_vec_op(conds, "t0", PlayerOp::Mul, "t1");
        self.accum_bits(conds, dst, "t0");
    }

    /// Emits `dst |= src`.
    pub fn emit_orr_rr(&mut self, conds: &Vec<Cond>, dst: &Register, src: &Register)
        requires
            old(self)@.wf(),
            old(self)@.can_emit(),
        ensures
            final(self).steps_to(
                old(self),
                old(self)@.bitwise().emit_cmds(
                    code::orr_rr(tests_of(conds@), dst.name(), src.name()),
                ),
            ),
            final(self)@.follows(old(self)@),
    {
        self.mark_bitwise();
        proof {
            lemma_emit_bitwise(
                self@,
                tests_of(conds@),
                dst.name(),
                src.name(),
                PlayerOp::Max,
                false,
            );
        }
        self.expand_bits(conds, dst, "t0");
        self.expand_bits(conds, src, "t1");
        self.bit_vec_op(conds, "t0", PlayerOp::Max, "t1");
        self.accum_bits(conds, dst, "t0");
    }

    /// Emits `dst ^= src`.
    pub fn emit_eor_rr(&mut self, conds: &Vec<Cond>, dst: &Register, src: &Register)
        requires
            old(self)@.wf(),
            old(self)@.can_emit(),
        ensures
            final(self).steps_to(
                old(self),
                old(self)@.bitwise().emit_cmds(
                    code::eor_rr(tests_of(conds@), dst.name(), src.name()),
                ),
            ),
            final(self)@.follows(old(self)@),
    {
        self.mark_bitwise();
        proof {
            lemma_emit_bitwise(
                self@,
                tests_of(conds@),
                dst.name(),
                src.name(),
                PlayerOp::Add,
                true,
            );
        }
        self.expand_bits(conds, dst, "t0");
        self.expand_bits(conds, src, "t1");
        self.bit_vec_op(conds, "t0", PlayerOp::Add, "t1");
        let cmd = players_rem_op(
            names::make_all_lanes(),
            String::from_str("t0"),
            names::make_computer_target(),
            String::from_str("TWO"),
        );
        self.emit_cmd(conds, cmd);
        self.accum_bits(conds, dst, "t0");
    }

    /// Marks the lanes that take part in a shift by the amount in `amount`.
    pub fn activate_bitwise_entities(&mut self, conds: &Vec<Cond>, amount: &Register)
        requires
            old(self)@.wf(),
            old(self)@.can_emit(),
        ensures
            final(self).steps_to(
                old(self),
                old(self)@.emit_cmds(
                    code::activate_bitwise_entities(tests_of(conds@), amount.name()),
                ),
            ),
            final(self)@.follows(old(self)@),
    {
        broadcast use lemma_emit_cmds_push;

        // Every lane takes its rank, less 32, plus the amount: the lanes
        // that take part end at zero or above.
        self.bit_vec_op(conds, "t0", PlayerOp::Asn, "BitNumber");
        let cmd = players_remove(names::make_all_lanes(), String::from_str("t0"), 32);
        self.emit_cmd(conds, cmd);
        let cmd = self.make_op_cmd_xr(
            names::make_all_lanes(),
            String::from_str("t0"),
            PlayerOp::Add,
            amount,
        );
        self.emit_cmd(conds, cmd);
    }

    /// Emits, once as each lane marked for the shift, `dst op= TWO`.
    fn emit_per_active_lane(&mut self, conds: &Vec<Cond>, dst: &Register, op: PlayerOp)
        requires
            old(self)@.wf(),
            old(self)@.can_emit(),
        ensures
            final(self).steps_to(
                old(self),
                old(self)@.emit_cmd(code::per_active_lane(tests_of(conds@), dst.name(), op)),
            ),
            final(self)@.follows(old(self)@),
    {
        let two_reg = Register::spec("TWO");
        let active_bit_tgt = Target::Sel(
            Selector::on_team("Shifters").with_score("t0", Interval::Min(0)),
        );
        let inner = self.make_op_cmd_rr(dst, op, &two_reg);
        self.emit_cmd(conds, execute(active_bit_tgt, inner));
    }

    /// Leaves in `t0` the value of `dst` without its sign bit, shifted right
    /// by the amount in `src`.
    pub fn raw_shift_right(&mut self, conds: &Vec<Cond>, dst: &Register, src: &Register)
        requires
            old(self)@.wf(),
            old(self)@.can_emit(),
        ensures
            final(self).steps_to(
                old(self),
                old(self)@.emit_cmds(
                    code::raw_shift_right(tests_of(conds@), dst.name(), src.name()),
                ),
            ),
            final(self)@.follows(old(self)@),
    {
        broadcast use lemma_emit_cmds_push;

        let lt_zero_conds = with_cond(conds, Cond::lt(dst.clone(), 0));
        let t0 = Register::spec("t0");
        let min_reg = Register::spec("MIN");
        let ghost tests = tests_of(conds@);
        let ghost head = Seq::<CommandModel>::empty().push(
            code::rr(tests, names::tmp0(), PlayerOp::Asn, dst.name()),
        ).push(
            code::rr(tests.push(code::negative(dst.name())), names::tmp0(), PlayerOp::Sub, names::min()),
        );
        let ghost mid = code::activate_bitwise_entities(tests, src.name());
        let ghost tail = seq![code::per_active_lane(tests, names::tmp0(), PlayerOp::Div)];
        proof {
            lemma_emit_cmds_concat(self@, head, mid);
            lemma_emit_cmds_concat(self@, head + mid, tail);
            lemma_emit_cmds_one(self@.emit_cmds(head + mid), tail[0]);
        }

        self.emit_rr(conds, &t0, PlayerOp::Asn, dst);
        self.emit_rr(&lt_zero_conds, &t0, PlayerOp::Sub, &min_reg);
        self.activate_bitwise_entities(conds, src);
        self.emit_per_active_lane(conds, &t0, PlayerOp::Div);
    }

    /// Emits `dst >>= src`, arithmetic.
    pub fn emit_asr_rr(&mut self, conds: &Vec<Cond>, dst: &Register, src: &Register)
        requires
            old(self)@.wf(),
            old(self)@.can_emit(),
        ensures
            final(self).steps_to(
                old(self),
                old(self)@.bitwise().emit_cmds(
                    code::asr_rr(tests_of(conds@), dst.name(), src.name()),
                ),
            ),
            final(self)@.follows(old(self)@),
    {
        broadcast use lemma_emit_cmds_push;

        self.mark_bitwise();
        let ghost start = self@;
        self.raw_shift_right(conds, dst, src);

        let lt_zero_conds = with_cond(conds, Cond::lt(dst.clone(), 0));
        let t0 = Register::spec("t0");
        let sign_bits_tgt = Target::Sel(
            Selector::on_team("Shifters").with_score("t0", Interval::Min(-1)),
        );
        // A negative value gets back the bits that the shift drew in.
        let inner = self.make_op_cmd_rx(
            &t0,
            PlayerOp::Add,
            names::make_one_lane(),
            String::from_str("BitComponent"),
        );
        let ghost fill = code::on_computer(
            tests_of(lt_zero_conds@),
            CommandModel::Execute(sign_bits_tgt@, Box::new(inner@)),
        );
        self.emit_cmd(&lt_zero_conds, execute(sign_bits_tgt, inner));
        self.emit_rr(conds, dst, PlayerOp::Asn, &t0);
        proof {
            let tests = tests_of(conds@);
            let head = code::raw_shift_right(tests, dst.name(), src.name());
            let tail = Seq::<CommandModel>::empty().push(fill).push(
                code::rr(tests, dst.name(), PlayerOp::Asn, names::tmp0()),
            );
            lemma_emit_cmds_concat(start, head, tail);
            assert(code::asr_rr(tests, dst.name(), src.name()) == head + tail);
        }
    }

    /// Emits `dst >>= src`, logical.
    pub fn emit_lsr_rr(&mut self, conds: &Vec<Cond>, dst: &Register, src: &Register)
        requires
            old(self)@.wf(),
            old(self)@.can_emit(),
        ensures
            final(self).steps_to(
                old(self),
                old(self)@.bitwise().emit_cmds(
                    code::lsr_rr(tests_of(conds@), dst.name(), src.name()),
                ),
            ),
            final(self)@.follows(old(self)@),
    {
        broadcast use lemma_emit_cmds_push;

        self.mark_bitwise();
        let ghost start = self@;
        self.raw_shift_right(conds, dst, src);

        let lt_zero_conds = with_cond(conds, Cond::lt(dst.clone(), 0));
        let t0 = Register::spec("t0");
        let high_bit_tgt = Target::Sel(
            Selector::on_team("Shifters").nearest().with_score("t0", Interval::Bounded(-1, -1)),
        );
        // A negative value gets back its sign bit, at its new place.
        self.emit_rx(
            &lt_zero_conds,
            &t0,
            PlayerOp::Add,
            &high_bit_tgt,
            &String::from_str("BitComponent"),
        );
        self.emit_rr(conds, dst, PlayerOp::Asn, &t0);
        proof {
            let tests = tests_of(conds@);
            let head = code::raw_shift_right(tests, dst.name(), src.name());
            let tail = Seq::<CommandModel>::empty().push(
                code::rx(
                    tests.push(code::negative(dst.name())),
                    names::tmp0(),
                    PlayerOp::Add,
                    code::lane_where(names::tmp0(), Interval::Bounded(-1i32, -1i32)),
                    names::bit_component(),
                ),
            ).push(code::rr(tests, dst.name(), PlayerOp::Asn, names::tmp0()));
            lemma_emit_cmds_concat(start, head, tail);
            assert(code::lsr_rr(tests, dst.name(), src.name()) == head + tail);
        }
    }

    /// Emits `dst <<= src`.
    pub fn emit_lsl_rr(&mut self, conds: &Vec<Cond>, dst: &Register, src: &Register)
        requires
            old(self)@.wf(),
            old(self)@.can_emit(),
        ensures
            final(self).steps_to(
                old(self),
                old(self)@.bitwise().emit_cmds(
                    code::lsl_rr(tests_of(conds@), dst.name(), src.name()),
                ),
            ),
            final(self)@.follows(old(self)@),
    {
        self.mark_bitwise();
        let ghost start = self@;
        self.activate_bitwise_entities(conds, src);
        self.emit_per_active_lane(conds, dst, PlayerOp::Mul);
        proof {
            let tests = tests_of(conds@);
            let head = code::activate_bitwise_entities(tests, src.name());
            let tail = seq![code::per_active_lane(tests, dst.name(), PlayerOp::Mul)];
            lemma_emit_cmds_concat(start, head, tail);
            lemma_emit_cmds_one(start.emit_cmds(head), tail[0]);
        }
    }
}

} // verus!

verus! {

/// The 32-bit signed number with the bits of `v`.
pub fn to_signed(v: u32) -> (r: i32)
    ensures
        r == code::as_signed(v),
{
    if v <= 0x7fff_ffff {
        v as i32
    } else {
        let low: u32 = v - 0x8000_0000;
        (low as i32) + i32::MIN
    }
}

impl<'c> Assembler<'c> {
    /// Saves the register under test in `t0` where it is also the
    /// destination, and gives the register that holds it afterwards.
    fn emit_save_test(&mut self, conds: &Vec<Cond>, dst: &Register, test: &Register) -> (r:
        Register)
        requires
            old(self)@.wf(),
            old(self)@.can_emit(),
        ensures
            final(self).steps_to(
                old(self),
                old(self)@.emit_cmds(code::save_test(tests_of(conds@), dst.name(), test.name())),
            ),
            final(self)@.advances(old(self)@),
            final(self)@.can_emit(),
            r.name() == code::safe_test(dst.name(), test.name()),
    {
        let same = reg_name(dst) == reg_name(test);
        if same {
            let t0 = Register::spec("t0");
            proof {
                lemma_emit_cmds_one(
                    self@,
                    code::rr(tests_of(conds@), names::tmp0(), PlayerOp::Asn, test.name()),
                );
            }
            self.emit_rr(conds, &t0, PlayerOp::Asn, test);
            t0
        } else {
            proof {
                lemma_emit_cmds_none(self@);
            }
            test.clone()
        }
    }

    /// Emits a signed range test: `dst` becomes one if `test` lies within
    /// the bounds, else zero. With no bound at all, `dst` becomes one.
    pub fn emit_srng(
        &mut self,
        conds: &Vec<Cond>,
        dst: &Register,
        test: &Register,
        min: Option<i32>,
        max: Option<i32>,
    )
        requires
            old(self)@.wf(),
            old(self)@.can_emit(),
        ensures
            final(self).steps_to(
                old(self),
                old(self)@.emit_cmds(
                    code::srng(tests_of(conds@), dst.name(), test.name(), min, max),
                ),
            ),
            final(self)@.follows(old(self)@),
    {
        broadcast use lemma_emit_cmds_push;

        let ghost start = self@;
        let ghost tests = tests_of(conds@);
        let safe_test = self.emit_save_test(conds, dst, test);
        let ghost saved = self@;
        let one_conds = match Interval::new(min, max) {
            Some(interval) => with_cond(conds, Cond::new(safe_test, interval)),
            None => clone_conds(conds),
        };
        self.emit_rset(conds, dst, 0);
        self.emit_rset(&one_conds, dst, 1);
        proof {
            let head = code::save_test(tests, dst.name(), test.name());
            let tail = Seq::<CommandModel>::empty().push(code::rset(tests, dst.name(), 0)).push(
                code::rset(
                    code::range_tests(
                        tests,
                        code::safe_test(dst.name(), test.name()),
                        min,
                        max,
                    ),
                    dst.name(),
                    1,
                ),
            );
            lemma_emit_cmds_concat(start, head, tail);
            assert(code::srng(tests, dst.name(), test.name(), min, max) == head + tail);
        }
    }

    /// Emits an unsigned range test: `dst` becomes one if `test`, read as an
    /// unsigned number, lies within the bounds, else zero.
    pub fn emit_urng(
        &mut self,
        conds: &Vec<Cond>,
        dst: &Register,
        test: &Register,
        min: Option<u32>,
        max: Option<u32>,
    )
        requires
            old(self)@.wf(),
            old(self)@.can_emit(),
        ensures
            final(self).steps_to(
                old(self),
                old(self)@.emit_cmds(
                    code::urng(tests_of(conds@), dst.name(), test.name(), min, max),
                ),
            ),
            final(self)@.follows(old(self)@),
    {
        broadcast use lemma_emit_cmds_push;

        let min: u32 = match min {
            Some(v) => v,
            None => 0,
        };
        let max: u32 = match max {
            Some(v) => v,
            None => 0xffff_ffff,
        };
        if min <= 0x7fff_ffff && max <= 0x7fff_ffff {
            // Both bounds are signed numbers as they stand.
            let lo = Some(to_signed(min));
            let hi = if max == 0x7fff_ffff {
                None
            } else {
                Some(to_signed(max))
            };
            self.emit_srng(conds, dst, test, lo, hi);
        } else if min > 0x7fff_ffff && max > 0x7fff_ffff {
            // Both bounds are negative as signed numbers.
            let lo = if min == 0x8000_0000 {
                None
            } else {
                Some(to_signed(min))
            };
            let hi = Some(to_signed(max));
            self.emit_srng(conds, dst, test, lo, hi);
        } else {
            // The range is the union of two signed ranges.
            let ghost start = self@;
            let ghost tests = tests_of(conds@);
            let safe_test = self.emit_save_test(conds, dst, test);
            let a_conds = with_cond(
                conds,
                Cond::new(safe_test.clone(), Interval::Bounded(to_signed(min), i32::MAX)),
            );
            let b_conds = with_cond(
                conds,
                Cond::new(safe_test, Interval::Bounded(i32::MIN, to_signed(max))),
            );
            self.emit_rset(conds, dst, 0);
            self.emit_rset(&a_conds, dst, 1);
            self.emit_rset(&b_conds, dst, 1);
            proof {
                let head = code::save_test(tests, dst.name(), test.name());
                let safe = code::safe_test(dst.name(), test.name());
                let tail = Seq::<CommandModel>::empty().push(code::rset(tests, dst.name(), 0)).push(
                    code::rset(
                        tests.push(
                            crate::ast::Test {
                                objective: safe,
                                interval: Interval::Bounded(code::as_signed(min), i32::MAX),
                            },
                        ),
                        dst.name(),
                        1,
                    ),
                ).push(
                    code::rset(
                        tests.push(
                            crate::ast::Test {
                                objective: safe,
                                interval: Interval::Bounded(i32::MIN, code::as_signed(max)),
                            },
                        ),
                        dst.name(),
                        1,
                    ),
                );
                lemma_emit_cmds_concat(start, head, tail);
            }
        }
    }

    /// Emits `dst /= src`, both read as unsigned numbers.
    pub fn emit_udiv(&mut self, conds: &Vec<Cond>, dst: &Register, src: &Register)
        requires
            old(self)@.wf(),
            old(self)@.can_emit(),
        ensures
            final(self).steps_to(
                old(self),
                old(self)@.emit_cmds(code::udiv(tests_of(conds@), dst.name(), src.name())),
            ),
            final(self)@.follows(old(self)@),
    {
        broadcast use lemma_emit_cmds_push;

        let t0 = Register::spec("t0");
        let t1 = Register::spec("t1");
        let t2 = Register::spec("t2");
        let min_reg = Register::spec("MIN");
        let two_reg = Register::spec("TWO");

        let src_pos_conds = with_cond(conds, Cond::ge(src.clone(), 0));
        let neg_pos_conds = with_cond(
            &with_cond(conds, Cond::lt(t0.clone(), 0)),
            Cond::ge(src.clone(), 0),
        );

        // Keep the dividend for the tests that follow.
        self.emit_rr(conds, &t0, PlayerOp::Asn, dst);

        // A dividend with its top bit set is halved, so that it fits 31 bits.
        self.emit_rr(&neg_pos_conds, dst, PlayerOp::Add, &min_reg);
        self.emit_rr(&neg_pos_conds, dst, PlayerOp::Div, &two_reg);
        self.emit_radd(&neg_pos_conds, dst, 0x4000_0000);
        self.emit_rr(&neg_pos_conds, &t1, PlayerOp::Asn, dst);

        // The division of 31 bits by 31 bits.
        self.emit_rr(&src_pos_conds, dst, PlayerOp::Div, src);

        // The quotient of a halved dividend is doubled, and the last round
        // of the division is made by hand.
        self.emit_rr(&neg_pos_conds, dst, PlayerOp::Mul, &two_reg);
        self.emit_rr(&neg_pos_conds, &t1, PlayerOp::Rem, src);
        self.emit_rr(&neg_pos_conds, &t1, PlayerOp::Mul, &two_reg);
        self.emit_rr(&neg_pos_conds, &t2, PlayerOp::Asn, &t0);
        self.emit_rr(&neg_pos_conds, &t2, PlayerOp::Add, &min_reg);
        self.emit_rr(&neg_pos_conds, &t2, PlayerOp::Rem, &two_reg);
        self.emit_rr(&neg_pos_conds, &t1, PlayerOp::Add, &t2);
        self.emit_rr(&neg_pos_conds, &t2, PlayerOp::Asn, &t1);
        self.emit_rr(&neg_pos_conds, &t2, PlayerOp::Sub, src);
        self.emit_radd(&neg_pos_conds, dst, 1);
        let fits_conds = with_cond(
            &with_cond(&neg_pos_conds, Cond::ge(t1.clone(), 0)),
            Cond::lt(t2.clone(), 0),
        );
        self.emit_rsub(&fits_conds, dst, 1);

        // A divisor with its top bit set goes into the dividend once or
        // not at all.
        let src_neg_conds = with_cond(conds, Cond::lt(src.clone(), 0));
        self.emit_rset(&src_neg_conds, dst, 0);
        self.emit_rr(&src_neg_conds, &t1, PlayerOp::Asn, &t0);
        self.emit_rr(&src_neg_conds, &t1, PlayerOp::Sub, src);
        let once_conds = with_cond(
            &with_cond(&src_neg_conds, Cond::lt(t0.clone(), 0)),
            Cond::ge(t1.clone(), 0),
        );
        self.emit_rset(&once_conds, dst, 1);
    }

    /// Emits `dst %= src`, both read as unsigned numbers.
    pub fn emit_urem(&mut self, conds: &Vec<Cond>, dst: &Register, src: &Register)
        requires
            old(self)@.wf(),
            old(self)@.can_emit(),
        ensures
            final(self).steps_to(
                old(self),
                old(self)@.emit_cmds(code::urem(tests_of(conds@), dst.name(), src.name())),
            ),
            final(self)@.follows(old(self)@),
    {
        broadcast use lemma_emit_cmds_push;

        let t0 = Register::spec("t0");
        let t1 = Register::spec("t1");
        let min_reg = Register::spec("MIN");
        let two_reg = Register::spec("TWO");

        // Keep the dividend for the tests that follow.
        self.emit_rr(conds, &t0, PlayerOp::Asn, dst);

        // Where both have the top bit set, the divisor is taken off once;
        // a difference below zero is put back.
        let neg_neg_conds = with_cond(
            &with_cond(conds, Cond::lt(dst.clone(), 0)),
            Cond::lt(src.clone(), 0),
        );
        self.emit_rr(&neg_neg_conds, dst, PlayerOp::Sub, src);
        self.emit_rr(&neg_neg_conds, dst, PlayerOp::Add, src);

        let src_pos_conds = with_cond(conds, Cond::ge(src.clone(), 0));
        let neg_pos_conds = with_cond(
            &with_cond(conds, Cond::lt(t0.clone(), 0)),
            Cond::ge(src.clone(), 0),
        );

        // A dividend with its top bit set is halved, so that it fits 31 bits.
        self.emit_rr(&neg_pos_conds, dst, PlayerOp::Add, &min_reg);
        self.emit_rr(&neg_pos_conds, dst, PlayerOp::Div, &two_reg);
        self.emit_radd(&neg_pos_conds, dst, 0x4000_0000);

        // The remainder of 31 bits by 31 bits.
        self.emit_rr(&src_pos_conds, dst, PlayerOp::Rem, src);

        // The remainder of a halved dividend is doubled, gets the bit that
        // the halving dropped, and is reduced once more.
        self.emit_rr(&neg_pos_conds, dst, PlayerOp::Mul, &two_reg);
        self.emit_rr(&neg_pos_conds, &t1, PlayerOp::Asn, &t0);
        self.emit_rr(&neg_pos_conds, &t1, PlayerOp::Add, &min_reg);
        self.emit_rr(&neg_pos_conds, &t1, PlayerOp::Rem, &two_reg);
        self.emit_rr(&neg_pos_conds, dst, PlayerOp::Add, &t1);
        self.emit_rr(&neg_pos_conds, &t1, PlayerOp::Asn, dst);
        self.emit_rr(&neg_pos_conds, &t1, PlayerOp::Sub, src);
        let small_conds = with_cond(
            &with_cond(&neg_pos_conds, Cond::lt(t1.clone(), 0)),
            Cond::ge(dst.clone(), 0),
        );
        self.emit_rr(&small_conds, dst, PlayerOp::Add, src);
        self.emit_rr(&neg_pos_conds, dst, PlayerOp::Sub, src);
    }
}

} // verus!

verus! {

impl<'c> Assembler<'c> {
    /// The guards `conds`, and the address in `addr` within `region`.
    pub fn mem_conds(&self, conds: &Vec<Cond>, region: &MemoryRegion, addr: &Register) -> (r: Vec<
        Cond,
    >)
        requires
            region.addressable(),
        ensures
            tests_of(r@) == mem_tests(tests_of(conds@), *region, addr.name()),
    {
        let end: u32 = region.start + region.size;
        let last: i32 = (end as i32) - 1;
        with_cond(conds, Cond::bounded(addr.clone(), region.start as i32, last))
    }

    /// Tags the entities of every region that holds the address in `addr`
    /// with the transaction `id`.
    pub fn emit_mem_tag(&mut self, conds: &Vec<Cond>, addr: &Register, id: u32)
        requires
            old(self)@.wf(),
            old(self)@.can_emit(),
            old(self).machine().addressable(),
            id <= i32::MAX,
        ensures
            final(self).steps_to(
                old(self),
                old(self)@.emit_cmds(
                    mem_tag_code(old(self).regions(), tests_of(conds@), addr.name(), id as int),
                ),
            ),
            final(self)@.advances(old(self)@),
            final(self)@.can_emit(),
    {
        broadcast use lemma_emit_cmds_push;

        let computer = self.computer;
        let ghost start = self@;
        let ghost all = mem_tag_code(computer.memory@, tests_of(conds@), addr.name(), id as int);
        let mut i: usize = 0;
        assert(all.take(0) =~= Seq::empty());
        while i < computer.memory.len()
            invariant
                i <= computer.memory.len(),
                computer == old(self).machine(),
                computer.addressable(),
                id <= i32::MAX,
                all == mem_tag_code(computer.memory@, tests_of(conds@), addr.name(), id as int),
                self.steps_to(old(self), start.emit_cmds(all.take(i as int))),
                start == old(self)@,
                self@.advances(start),
                self@.can_emit(),
                i > 0 ==> self@.settled(),
            decreases computer.memory.len() - i,
        {
            let region = &computer.memory[i];
            let region_conds = self.mem_conds(conds, region, addr);
            let tgt = Target::Sel(region.selector.clone());
            self.emit_xset(&region_conds, &tgt, &String::from_str("MemTag"), id as i32);
            proof {
                assert(all.take(i + 1) =~= all.take(i as int).push(all[i as int]));
                lemma_emit_cmds_push(start, all.take(i as int), all[i as int]);
            }
            i += 1;
        }
        assert(all.take(i as int) =~= all);
    }

    /// Powers the control logic of every region that holds the address in
    /// `addr`.
    pub fn emit_power_mem(&mut self, conds: &Vec<Cond>, addr: &Register)
        requires
            old(self)@.wf(),
            old(self)@.can_emit(),
            old(self).machine().addressable(),
        ensures
            final(self).steps_to(
                old(self),
                old(self)@.emit_all(
                    power_mem_items(
                        old(self).regions(),
                        tests_of(conds@),
                        addr.name(),
                        old(self)@.track_output,
                    ),
                ),
            ),
            final(self)@.advances(old(self)@),
            final(self)@.can_emit(),
            final(self)@.track_output == old(self)@.track_output,
    {
        broadcast use lemma_emit_all_push;

        let computer = self.computer;
        let ghost start = self@;
        let ghost all = power_mem_items(
            computer.memory@,
            tests_of(conds@),
            addr.name(),
            start.track_output,
        );
        let mut i: usize = 0;
        assert(all.take(0) =~= Seq::empty());
        while i < computer.memory.len()
            invariant
                i <= computer.memory.len(),
                computer == old(self).machine(),
                computer.addressable(),
                all == power_mem_items(
                    computer.memory@,
                    tests_of(conds@),
                    addr.name(),
                    start.track_output,
                ),
                self.steps_to(old(self), start.emit_all(all.take(i as int))),
                start == old(self)@,
                self@.advances(start),
                self@.can_emit(),
                self@.track_output == start.track_output,
                i > 0 ==> self@.settled(),
            decreases computer.memory.len() - i,
        {
            let region = &computer.memory[i];
            let region_conds = self.mem_conds(conds, region, addr);
            let ghost prev = self@;
            self.emit_power_label(region_conds, region.label.clone());
            proof {
                lemma_emit_settles(prev, all[i as int]);
                assert(all.take(i + 1) =~= all.take(i as int).push(all[i as int]));
                lemma_emit_all_push(start, all.take(i as int), all[i as int]);
            }
            i += 1;
        }
        assert(all.take(i as int) =~= all);
    }

    /// The entities tagged with the transaction `id`.
    pub fn mem_tagged(&self, id: u32) -> (r: Target)
        requires
            id <= i32::MAX,
        ensures
            r@ == mem_tagged(id as int),
    {
        Target::Sel(
            Selector::entity().with_score("MemTag", Interval::Bounded(id as i32, id as i32)),
        )
    }

    /// Records that memory is used.
    fn mark_memory(&mut self)
        ensures
            final(self).steps_to(old(self), (State { uses_memory: true, ..old(self)@ })),
    {
        self.uses_memory = true;
    }

    /// Emits `dst = [src]`: the request, the hand-off to the memory, and,
    /// one tick later, the transfer of the datum.
    pub fn emit_ldr_rr(&mut self, conds: &Vec<Cond>, dst: &Register, src: &Register)
        requires
            old(self)@.wf(),
            old(self)@.next_addr + 2 <= i32::MAX,
            old(self)@.unique + 2 <= i32::MAX,
            old(self).machine().addressable(),
        ensures
            final(self).steps_to(
                old(self),
                old(self)@.ldr(old(self).regions(), tests_of(conds@), dst.name(), src.name()),
            ),
            final(self)@.grows(old(self)@),
    {
        self.mark_memory();
        let ldr_id = self.gen_unique_int();
        self.emit_mem_tag(conds, src, ldr_id);
        let tagged = self.mem_tagged(ldr_id);

        // The operation code of a load is zero.
        self.emit_xset(conds, &tagged, &String::from_str("MemOp"), 0);
        // The success count goes to t0, where it does no harm.
        let t0 = Register::spec("t0");
        self.emit_xr(conds, &tagged, &String::from_str("MemAddr"), PlayerOp::Asn, src, &t0);

        self.emit_power_mem(conds, src);

        // The memory needs one tick to produce the datum.
        let cont_label = self.gen_unique_label("ldr_cont_");
        self.emit_power_label(clone_conds(conds), cont_label.clone());
        self.emit(AssembledItem::Terminal);
        self.emit(AssembledItem::Label(cont_label));

        self.emit_rx(conds, dst, PlayerOp::Asn, &tagged, &String::from_str("MemData"));
    }

    /// Emits `[dst] = src`: the request with the datum, and the hand-off to
    /// the memory.
    pub fn emit_str_rr(&mut self, conds: &Vec<Cond>, src: &Register, dst: &Register)
        requires
            old(self)@.wf(),
            old(self)@.next_addr + 2 <= i32::MAX,
            old(self)@.unique + 2 <= i32::MAX,
            old(self).machine().addressable(),
        ensures
            final(self).steps_to(
                old(self),
                old(self)@.str(old(self).regions(), tests_of(conds@), src.name(), dst.name()),
            ),
            final(self)@.grows(old(self)@),
    {
        self.mark_memory();
        let str_id = self.gen_unique_int();
        self.emit_mem_tag(conds, dst, str_id);
        let tagged = self.mem_tagged(str_id);

        // The operation code of a store is one.
        self.emit_xset(conds, &tagged, &String::from_str("MemOp"), 1);
        // The success counts go to t0, where they do no harm.
        let t0 = Register::spec("t0");
        self.emit_xr(conds, &tagged, &String::from_str("MemAddr"), PlayerOp::Asn, dst, &t0);
        self.emit_xr(conds, &tagged, &String::from_str("MemData"), PlayerOp::Asn, src, &t0);

        self.emit_power_mem(conds, dst);

        // The memory needs one tick to take the datum.
        let cont_label = self.gen_unique_label("str_cont_");
        self.emit_power_label(clone_conds(conds), cont_label.clone());
        self.emit(AssembledItem::Terminal);
        self.emit(AssembledItem::Label(cont_label));
    }
}

} // verus!

verus! {

/// The single guard `reg == value`.
fn single_eq(reg: &Register, value: i32) -> (r: Vec<Cond>)
    ensures
        tests_of(r@) == seq![code::equals(reg.name(), value)],
{
    let mut r: Vec<Cond> = Vec::new();
    r.push(Cond::eq(reg.clone(), value));
    assert(tests_of(r@) =~= seq![code::equals(reg.name(), value)]);
    r
}

impl<'c> Assembler<'c> {
    /// Emits a branch to `label` where the guards hold.
    pub fn emit_br_l(&mut self, conds: &Vec<Cond>, label: String)
        requires
            old(self)@.wf(),
            old(self)@.next_addr + 2 <= i32::MAX,
            old(self)@.unique + 2 <= i32::MAX,
        ensures
            final(self).steps_to(old(self), old(self)@.br_label(tests_of(conds@), label@, false)),
            final(self)@.grows(old(self)@),
    {
        self.emit_br_label(conds, label, false);
    }

    /// Emits a branch to the address in `reg` where the guards hold.
    pub fn emit_br_r(&mut self, conds: &Vec<Cond>, reg: &Register)
        requires
            old(self)@.wf(),
            old(self)@.next_addr + 2 <= i32::MAX,
            old(self)@.unique + 2 <= i32::MAX,
        ensures
            final(self).steps_to(old(self), old(self)@.br_reg(tests_of(conds@), reg.name(), false)),
            final(self)@.grows(old(self)@),
    {
        self.emit_br_reg(conds, reg, false);
    }

    /// Emits a branch with link to `label` where the guards hold.
    pub fn emit_br_lnk_l(&mut self, conds: &Vec<Cond>, label: String)
        requires
            old(self)@.wf(),
            old(self)@.next_addr + 2 <= i32::MAX,
            old(self)@.unique + 2 <= i32::MAX,
        ensures
            final(self).steps_to(old(self), old(self)@.br_label(tests_of(conds@), label@, true)),
            final(self)@.grows(old(self)@),
    {
        self.emit_br_label(conds, label, true);
    }

    /// Emits a branch with link to the address in `reg` where the guards
    /// hold.
    pub fn emit_br_lnk_r(&mut self, conds: &Vec<Cond>, reg: &Register)
        requires
            old(self)@.wf(),
            old(self)@.next_addr + 2 <= i32::MAX,
            old(self)@.unique + 2 <= i32::MAX,
        ensures
            final(self).steps_to(old(self), old(self)@.br_reg(tests_of(conds@), reg.name(), true)),
            final(self)@.grows(old(self)@),
    {
        self.emit_br_reg(conds, reg, true);
    }

    /// Emits a branch to `label`: `t0` records whether the guards hold; if
    /// so, the label is powered, else the label that follows the branch.
    /// With `link`, the link register first takes the address of the label
    /// that follows.
    pub fn emit_br_label(&mut self, conds: &Vec<Cond>, label: String, link: bool)
        requires
            old(self)@.wf(),
            old(self)@.next_addr + 2 <= i32::MAX,
            old(self)@.unique + 2 <= i32::MAX,
        ensures
            final(self).steps_to(old(self), old(self)@.br_label(tests_of(conds@), label@, link)),
            final(self)@.grows(old(self)@),
    {
        broadcast use lemma_emit_cmds_push;

        let t0 = Register::spec("t0");
        let always: Vec<Cond> = Vec::new();
        assert(tests_of(always@) =~= Seq::empty());
        self.emit_rset(&always, &t0, 0);
        self.emit_rset(conds, &t0, 1);

        let true_conds = single_eq(&t0, 1);
        let false_conds = single_eq(&t0, 0);

        let cont_label = self.gen_unique_label("br_cont_");
        proof {
            let st = self@;
            let link_addr = if link {
                Some(st.label_addr(cont_label@).1)
            } else {
                None
            };
            let a = match link_addr {
                Some(addr) => seq![code::rset(code::taken(), names::link(), addr)],
                None => Seq::empty(),
            };
            let b = Seq::<CommandModel>::empty();
            let base = if link {
                st.label_addr(cont_label@).0
            } else {
                st
            };
            lemma_emit_cmds_concat(base, a, b);
            lemma_emit_cmds_none(base.emit_cmds(a));
            if link {
                lemma_emit_cmds_one(base, a[0]);
            } else {
                lemma_emit_cmds_none(base);
            }
        }
        if link {
            self.emit_branch_link(&true_conds, &cont_label);
        }
        self.emit_power_label(true_conds, label);
        self.emit_power_label(false_conds, cont_label.clone());
        self.emit(AssembledItem::Terminal);
        self.emit(AssembledItem::Label(cont_label));
    }

    /// Emits a branch to the address in `reg`: as a branch to a label, but
    /// the address goes to the indirect address register and the table of
    /// indirect branches is powered.
    pub fn emit_br_reg(&mut self, conds: &Vec<Cond>, reg: &Register, link: bool)
        requires
            old(self)@.wf(),
            old(self)@.next_addr + 2 <= i32::MAX,
            old(self)@.unique + 2 <= i32::MAX,
        ensures
            final(self).steps_to(old(self), old(self)@.br_reg(tests_of(conds@), reg.name(), link)),
            final(self)@.grows(old(self)@),
    {
        broadcast use lemma_emit_cmds_push;

        let t0 = Register::spec("t0");
        let always: Vec<Cond> = Vec::new();
        assert(tests_of(always@) =~= Seq::empty());
        self.emit_rset(&always, &t0, 0);
        self.emit_rset(conds, &t0, 1);

        let true_conds = single_eq(&t0, 1);
        let false_conds = single_eq(&t0, 0);

        let cont_label = self.gen_unique_label("br_cont_");
        proof {
            let st = self@;
            let link_addr = if link {
                Some(st.label_addr(cont_label@).1)
            } else {
                None
            };
            let a = match link_addr {
                Some(addr) => seq![code::rset(code::taken(), names::link(), addr)],
                None => Seq::empty(),
            };
            let b = seq![code::rr(code::taken(), names::ind_addr(), PlayerOp::Asn, reg.name())];
            let base = if link {
                st.label_addr(cont_label@).0
            } else {
                st
            };
            lemma_emit_cmds_concat(base, a, b);
            lemma_emit_cmds_one(base.emit_cmds(a), b[0]);
            if link {
                lemma_emit_cmds_one(base, a[0]);
            } else {
                lemma_emit_cmds_none(base);
            }
        }
        if link {
            self.emit_branch_link(&true_conds, &cont_label);
        }
        let ind_addr_reg = Register::spec("IndAddr");
        self.emit_rr(&true_conds, &ind_addr_reg, PlayerOp::Asn, reg);

        self.emit_power_label(true_conds, String::from_str("@jump_indirect"));
        self.emit_power_label(false_conds, cont_label.clone());
        self.emit(AssembledItem::Terminal);
        self.emit(AssembledItem::Label(cont_label));
    }

    /// Emits the link of a branch: the link register takes the address of
    /// `label`.
    pub fn emit_branch_link(&mut self, conds: &Vec<Cond>, label: &String)
        requires
            old(self)@.settled(),
            old(self)@.next_addr < i32::MAX,
        ensures
            final(self).steps_to(
                old(self),
                old(self)@.label_addr(label@).0.emit_cmd(
                    code::rset(
                        tests_of(conds@),
                        names::link(),
                        old(self)@.label_addr(label@).1,
                    ),
                ),
            ),
            final(self)@.settled(),
            old(self)@.next_addr <= final(self)@.next_addr <= old(self)@.next_addr + 1,
            final(self)@.unique == old(self)@.unique,
            final(self)@.done == old(self)@.done,
    {
        let lr = Register::spec("lr");
        let addr = self.get_label_addr(label);
        self.emit_rset(conds, &lr, addr);
    }

    /// Emits the table of indirect branches: its label, then for each label
    /// with an address, in ascending order of address, the item that powers
    /// the label where the indirect address register holds its address, and
    /// the end of the pulse.
    pub fn emit_indirect_jump_table(&mut self)
        requires
            old(self)@.settled(),
            old(self)@.next_addr < i32::MAX,
        ensures
            final(self).steps_to(old(self), old(self)@.jump_table()),
            final(self)@.settled(),
            old(self)@.next_addr <= final(self)@.next_addr <= old(self)@.next_addr + 1,
            final(self)@.unique == old(self)@.unique,
            final(self)@.done == old(self)@.done,
    {
        self.emit(AssembledItem::Label(String::from_str("@jump_indirect")));

        let ind_addr_reg = Register::spec("IndAddr");
        let ghost s1 = self@;
        let mut label_addrs: Vec<LabelAddr> = Vec::new();
        std::mem::swap(&mut label_addrs, &mut self.label_addrs);
        assert(self@.table =~= Seq::empty());
        let ghost s2 = self@;
        let ghost all = jump_items(s1.table, s1.track_output);
        let mut i: usize = 0;
        assert(all.take(0) =~= Seq::empty());
        while i < label_addrs.len()
            invariant
                i <= label_addrs.len(),
                table_of(label_addrs@) == s1.table,
                all == jump_items(s1.table, s1.track_output),
                ind_addr_reg.name() == names::ind_addr(),
                s2.wf(),
                s2.pending_labels.len() == 1,
                s2.next_addr < i32::MAX,
                s2.track_output == s1.track_output,
                self.steps_to(old(self), s2.emit_all(all.take(i as int))),
                self@.advances(s2),
                self@.can_emit(),
                self@.track_output == s2.track_output,
                i > 0 ==> self@.settled(),
                i == 0 ==> self@ == s2,
            decreases label_addrs.len() - i,
        {
            let conds = single_eq(&ind_addr_reg, label_addrs[i].addr);
            let ghost prev = self@;
            self.emit_power_label(conds, label_addrs[i].label.clone());
            proof {
                assert(s1.table[i as int] == label_addrs[i as int]@);
                lemma_emit_settles(prev, all[i as int]);
                assert(all.take(i + 1) =~= all.take(i as int).push(all[i as int]));
                lemma_emit_all_push(s2, all.take(i as int), all[i as int]);
            }
            i += 1;
        }
        assert(all.take(i as int) =~= all);
        self.emit(AssembledItem::Terminal);
    }

    /// Lowers the instruction `op` under the guards `conds`.
    pub fn assemble_instr(&mut self, conds: Vec<Cond>, op: Op)
        requires
            old(self)@.wf(),
            old(self)@.next_addr + 2 <= i32::MAX,
            old(self)@.unique + 2 <= i32::MAX,
            op.supported(),
            op.touches_memory() ==> old(self).machine().addressable(),
        ensures
            final(self).steps_to(
                old(self),
                old(self)@.lower(old(self).regions(), tests_of(conds@), op),
            ),
            final(self)@.grows(old(self)@),
    {
        match op {
            Op::LdrRR(dst, src) => self.emit_ldr_rr(&conds, &dst, &src),
            Op::StrRR(src, dst) => self.emit_str_rr(&conds, &src, &dst),
            Op::AddRR(dst, src) => self.emit_rr(&conds, &dst, PlayerOp::Add, &src),
            Op::AddRI(dst, imm) => self.emit_radd(&conds, &dst, imm),
            Op::AddXR(tgt, obj, src, success) => self.emit_xr(
                &conds,
                &tgt,
                &obj,
                PlayerOp::Add,
                &src,
                &success,
            ),
            Op::SubRR(dst, src) => self.emit_rr(&conds, &dst, PlayerOp::Sub, &src),
            Op::SubRI(dst, imm) => self.emit_rsub(&conds, &dst, imm),
            Op::SubXR(tgt, obj, src, success) => self.emit_xr(
                &conds,
                &tgt,
                &obj,
                PlayerOp::Sub,
                &src,
                &success,
            ),
            Op::AndRR(dst, src) => self.emit_and_rr(&conds, &dst, &src),
            Op::OrrRR(dst, src) => self.emit_orr_rr(&conds, &dst, &src),
            Op::EorRR(dst, src) => self.emit_eor_rr(&conds, &dst, &src),
            Op::AsrRR(dst, src) => self.emit_asr_rr(&conds, &dst, &src),
            Op::LsrRR(dst, src) => self.emit_lsr_rr(&conds, &dst, &src),
            Op::LslRR(dst, src) => self.emit_lsl_rr(&conds, &dst, &src),
            Op::MovRR(dst, src) => self.emit_rr(&conds, &dst, PlayerOp::Asn, &src),
            Op::MovRI(dst, imm) => self.emit_rset(&conds, &dst, imm),
            Op::MovRX(dst, tgt, obj) => self.emit_rx(&conds, &dst, PlayerOp::Asn, &tgt, &obj),
            Op::MovXR(tgt, obj, src, success) => self.emit_xr(
                &conds,
                &tgt,
                &obj,
                PlayerOp::Asn,
                &src,
                &success,
            ),
            Op::MulRR(dst, src) => self.emit_rr(&conds, &dst, PlayerOp::Mul, &src),
            Op::SdivRR(dst, src) => self.emit_rr(&conds, &dst, PlayerOp::Div, &src),
            Op::UdivRR(dst, src) => self.emit_udiv(&conds, &dst, &src),
            Op::SremRR(dst, src) => self.emit_rr(&conds, &dst, PlayerOp::Rem, &src),
            Op::UremRR(dst, src) => self.emit_urem(&conds, &dst, &src),
            Op::Srng(dst, tst, min, max) => self.emit_srng(&conds, &dst, &tst, min, max),
            Op::Urng(dst, tst, min, max) => self.emit_urng(&conds, &dst, &tst, min, max),
            Op::BrL(label) => self.emit_br_l(&conds, label),
            Op::BrR(reg) => self.emit_br_r(&conds, &reg),
            Op::BrLnkL(label) => self.emit_br_lnk_l(&conds, label),
            Op::BrLnkR(reg) => self.emit_br_lnk_r(&conds, &reg),
            Op::Halt => self.emit(AssembledItem::Terminal),
            Op::RawCmd(outs, cmd) => {
                let mut block = make_cmd_block(
                    names::make_computer_selector(),
                    &conds,
                    Command::Raw(cmd),
                    self.track_output,
                );
                let stats = make_command_stats(names::make_computer_target(), outs);
                self.add_command_stats(&mut block, stats);
                self.emit(AssembledItem::Complete(block));
            },
            Op::Push(_) => {},
            Op::Pop(_) => {},
        }
    }

    /// Assembles one statement: a label waits for the next operation, an
    /// instruction is lowered.
    pub fn assemble(&mut self, stmt: Statement)
        requires
            old(self)@.wf(),
            old(self)@.next_addr + 2 <= i32::MAX,
            old(self)@.unique + 2 <= i32::MAX,
            statement_ok(old(self).machine(), stmt),
        ensures
            final(self).steps_to(old(self), old(self)@.assemble(old(self).regions(), stmt)),
            final(self)@.grows(old(self)@),
    {
        match stmt {
            Statement::LabelStmt(label) => {
                self.emit(AssembledItem::Label(label));
            },
            Statement::Instr(conds, op) => {
                self.assemble_instr(conds, op);
            },
        }
    }

    /// Emits the closing items: the end of the last pulse, then the table of
    /// indirect branches.
    fn finish(&mut self)
        requires
            old(self)@.wf(),
            old(self)@.next_addr + 2 <= i32::MAX,
            !old(self)@.done,
        ensures
            final(self).steps_to(old(self), old(self)@.finish()),
            final(self)@.wf(),
            final(self)@.next_addr <= old(self)@.next_addr + 2,
            final(self)@.unique == old(self)@.unique,
    {
        self.emit(AssembledItem::Terminal);
        self.emit_indirect_jump_table();
        self.done = true;
    }

    /// Hands out the next item. Where none waits, the statements of the
    /// input are assembled one by one until an item waits; once the input
    /// is exhausted, the closing items are emitted. There is no item only
    /// when all that has been handed out.
    pub fn next(&mut self) -> (r: Option<AssembledItem>)
        requires
            old(self).wf(),
        ensures
            final(self).wf(),
            final(self).machine() == old(self).machine(),
            ({
                let (st, rest) = old(self)@.pump(old(self).regions(), old(self).input());
                &&& final(self).input() == rest
                &&& match r {
                    Some(item) => {
                        &&& st.buffer.len() > 0
                        &&& item@ == st.buffer[0]
                        &&& final(self)@ == (State { buffer: st.buffer.drop_first(), ..st })
                    },
                    None => {
                        &&& st.buffer.len() == 0
                        &&& final(self)@ == st
                        &&& rest.len() == 0
                        &&& st.done
                    },
                }
            }),
    {
        while self.buffer.len() == 0 && (self.input.len() > 0 || !self.done)
            invariant
                self.wf(),
                self.machine() == old(self).machine(),
                self@.pump(self.regions(), self.input()) == old(self)@.pump(
                    old(self).regions(),
                    old(self).input(),
                ),
            decreases self.input@.len(), (if self.done { 0int } else { 1int }),
        {
            let ghost before = self.input@;
            match self.input.pop_front() {
                Some(stmt) => {
                    assert(self.input@ =~= before.drop_first());
                    assert(statement_ok(self.computer, before[0]));
                    assert forall|i: int| 0 <= i < self.input@.len() implies statement_ok(
                        self.computer,
                        #[trigger] self.input@[i],
                    ) by {
                        assert(self.input@[i] == before[i + 1]);
                    }
                    self.assemble(stmt);
                },
                None => {
                    self.finish();
                },
            }
        }
        let ghost queued = self.buffer@;
        let r = self.buffer.pop_front();
        proof {
            if queued.len() > 0 {
                assert(items_of(self.buffer@) =~= items_of(queued).drop_first());
            }
        }
        r
    }
}

impl<'c> Assembler<'c> {
    /// An assembler over the program `assembly` for the machine `computer`,
    /// if the program can be assembled for the machine and is not too long.
    pub fn try_new(computer: &'c Computer, assembly: Vec<Statement>) -> (r: Option<Assembler<'c>>)
        ensures
            r is Some <==> assembly.len() <= MAX_STATEMENTS && acceptable(computer, assembly@),
            match r {
                Some(a) => a@ == State::initial() && a.input() == assembly@ && a.machine()
                    == computer && a.wf(),
                None => true,
            },
    {
        if assembly.len() <= MAX_STATEMENTS && accepts(computer, &assembly) {
            Some(Assembler::new(computer, assembly))
        } else {
            None
        }
    }

    /// Hands out every item that is left, in order. The sequence is finite:
    /// afterwards the input is exhausted, the closing items are emitted, and
    /// the buffer is empty.
    pub fn drain(&mut self) -> (r: Vec<AssembledItem>)
        requires
            old(self).wf(),
        ensures
            items_of(r@) == stream(old(self)@, old(self).regions(), old(self).input()),
            final(self).wf(),
            final(self).machine() == old(self).machine(),
            final(self).input().len() == 0,
            final(self)@.buffer.len() == 0,
            final(self)@.done,
    {
        let mut items: Vec<AssembledItem> = Vec::new();
        let mut more = true;
        assert(items_of(items@) =~= Seq::empty());
        while more
            invariant
                self.wf(),
                self.machine() == old(self).machine(),
                more ==> items_of(items@) + stream(self@, self.regions(), self.input()) == stream(
                    old(self)@,
                    old(self).regions(),
                    old(self).input(),
                ),
                !more ==> items_of(items@) == stream(
                    old(self)@,
                    old(self).regions(),
                    old(self).input(),
                ) && self.input().len() == 0 && self@.buffer.len() == 0 && self@.done,
            decreases
                    (if more { 1int } else { 0int }),
                    self.input().len(),
                    (if self@.done { 0int } else { 1int }),
                    self@.buffer.len(),
        {
            let ghost before = self@;
            let ghost input = self.input();
            let ghost sofar = items_of(items@);
            proof {
                lemma_pump_progress(before, self.regions(), input);
            }
            match self.next() {
                Some(item) => {
                    items.push(item);
                    proof {
                        let filled = before.pump(self.regions(), input);
                        assert(items_of(items@) =~= sofar.push(filled.0.buffer[0]));
                        assert(sofar.push(filled.0.buffer[0]) + stream(
                            self@,
                            self.regions(),
                            self.input(),
                        ) =~= sofar + stream(before, self.regions(), input));
                    }
                },
                None => {
                    more = false;
                    assert(stream(before, self.regions(), input) =~= Seq::empty());
                    assert(sofar + Seq::<ItemModel>::empty() =~= sofar);
                },
            }
        }
        items
    }
}

/// Tests whether a program can be assembled for a machine: no instruction
/// lacks a lowering, and if one accesses memory, every region is
/// addressable.
pub fn accepts(computer: &Computer, assembly: &Vec<Statement>) -> (r: bool)
    ensures
        r == acceptable(computer, assembly@),
{
    let addressable = computer.is_addressable();
    let mut i: usize = 0;
    while i < assembly.len()
        invariant
            i <= assembly.len(),
            addressable == computer.addressable(),
            forall|j: int| 0 <= j < i ==> statement_ok(computer, #[trigger] assembly@[j]),
        decreases assembly.len() - i,
    {
        match &assembly[i] {
            Statement::LabelStmt(_) => {},
            Statement::Instr(_, op) => {
                if !op.is_supported() || (op.is_memory_access() && !addressable) {
                    assert(!statement_ok(computer, assembly@[i as int]));
                    return false;
                }
            },
        }
        i += 1;
    }
    true
}

} // verus!
