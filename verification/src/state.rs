//! The assembler's state as a mathematical value, and what emitting an item
//! and lowering a statement do to it.

use vstd::prelude::*;
use crate::ast::{tests_of, CommandBlockOut, Op, Statement, Test};
use crate::block::{
    captures_of, plain_block, power_item, power_off_item, BlockModel, ItemModel, StatsModel,
};
use crate::code;
use crate::commands::{CommandModel, PlayerOp, SelectorModel, TargetModel};
use crate::hw::MemoryRegion;
use crate::labels::{coalesced, distinct, knows, lookup, next_after, place, sorted, within, Entry};
use crate::names;
use crate::text::decimal;
use crate::types::Interval;

verus! {

/// The state of an assembler, without its input.
pub struct State {
    /// Whether the blocks that are emitted record their output.
    pub track_output: bool,
    /// The items that wait to be handed out, oldest first.
    pub buffer: Seq<ItemModel>,
    pub uses_memory: bool,
    pub uses_bitwise: bool,
    /// Whether the closing items have been emitted.
    pub done: bool,
    /// The next unique number.
    pub unique: int,
    /// The labels declared since the last operation, oldest first.
    pub pending_labels: Seq<Seq<char>>,
    /// The last address given to a label; zero when none was given.
    pub next_addr: int,
    /// The addresses of the labels.
    pub table: Seq<Entry>,
}

/// The block that holds `cmd` and stores its success count in the register
/// `success`.
pub open spec fn counted_block(
    cmd: CommandModel,
    success: Seq<char>,
    track_output: bool,
) -> BlockModel {
    BlockModel {
        command: cmd,
        track_output,
        stats: Some(
            StatsModel {
                target: names::computer_target(),
                outs: seq![(CommandBlockOut::SuccessCount, success)],
            },
        ),
    }
}

/// The label items of a group of labels.
pub open spec fn label_items(labels: Seq<Seq<char>>) -> Seq<ItemModel> {
    Seq::new(labels.len(), |i: int| ItemModel::Label(labels[i]))
}

/// The guard of the memory region `region` on the address register `addr`:
/// the guards `tests`, and the address within the region.
pub open spec fn mem_tests(tests: Seq<Test>, region: MemoryRegion, addr: Seq<char>) -> Seq<Test> {
    tests.push(
        Test {
            objective: addr,
            interval: Interval::Bounded(region.start as i32, (region.end() - 1) as i32),
        },
    )
}

/// The entities tagged with the transaction `id`.
pub open spec fn mem_tagged(id: int) -> TargetModel {
    TargetModel::Sel(
        SelectorModel::entity().with_score(
            names::mem_tag(),
            Interval::Bounded(id as i32, id as i32),
        ),
    )
}

/// Tags the entities of every region that holds the address in `addr` with
/// the transaction `id`.
pub open spec fn mem_tag_code(
    regions: Seq<MemoryRegion>,
    tests: Seq<Test>,
    addr: Seq<char>,
    id: int,
) -> Seq<CommandModel> {
    Seq::new(
        regions.len(),
        |i: int|
            code::xset(
                mem_tests(tests, regions[i], addr),
                TargetModel::Sel(regions[i].selector@),
                names::mem_tag(),
                id,
            ),
    )
}

/// Powers the control logic of every region that holds the address in
/// `addr`.
pub open spec fn power_mem_items(
    regions: Seq<MemoryRegion>,
    tests: Seq<Test>,
    addr: Seq<char>,
    track_output: bool,
) -> Seq<ItemModel> {
    Seq::new(
        regions.len(),
        |i: int| power_item(mem_tests(tests, regions[i], addr), regions[i].label@, track_output),
    )
}

/// The dispatch table of indirect branches: for each label of the table, in
/// its order, power the label where the indirect address is its address.
pub open spec fn jump_items(table: Seq<Entry>, track_output: bool) -> Seq<ItemModel> {
    Seq::new(
        table.len(),
        |i: int|
            power_item(
                seq![code::equals(names::ind_addr(), table[i].addr as i32)],
                table[i].label,
                track_output,
            ),
    )
}

impl State {
    /// The state of a new assembler.
    pub open spec fn initial() -> State {
        State {
            track_output: false,
            buffer: Seq::empty(),
            uses_memory: false,
            uses_bitwise: false,
            done: false,
            unique: 0,
            pending_labels: Seq::empty(),
            next_addr: 0,
            table: Seq::empty(),
        }
    }

    /// The table ascends, names no label twice, and holds only addresses
    /// that were given out.
    pub open spec fn wf(self) -> bool {
        &&& distinct(self.table)
        &&& sorted(self.table)
        &&& within(self.table, self.next_addr)
        &&& 0 <= self.next_addr
        &&& 0 <= self.unique
    }

    /// No label waits for an operation.
    pub open spec fn settled(self) -> bool {
        self.wf() && self.pending_labels.len() == 0
    }

    /// What holds of the state after an operation was emitted in the state
    /// `pre`: no label waits, at most one address was used, and none if no
    /// label waited before.
    pub open spec fn follows(self, pre: State) -> bool {
        &&& self.settled()
        &&& pre.next_addr <= self.next_addr <= pre.next_addr + 1
        &&& pre.pending_labels.len() == 0 ==> self.next_addr == pre.next_addr
        &&& self.unique == pre.unique
        &&& self.done == pre.done
    }

    /// What holds of the state after a run of operations, possibly none,
    /// was emitted in the state `pre`: at most one address was used, and
    /// none unless a waiting label was settled.
    pub open spec fn advances(self, pre: State) -> bool {
        &&& self.wf()
        &&& pre.next_addr <= self.next_addr <= pre.next_addr + 1
        &&& pre.pending_labels.len() == 0 ==> self.settled() && self.next_addr == pre.next_addr
        &&& self.pending_labels.len() > 0 ==> self.next_addr == pre.next_addr
        &&& self.unique == pre.unique
        &&& self.done == pre.done
    }

    /// What holds of the state after a statement was assembled in the state
    /// `pre`: at most two addresses and two unique numbers were used.
    pub open spec fn grows(self, pre: State) -> bool {
        &&& self.wf()
        &&& pre.next_addr <= self.next_addr <= pre.next_addr + 2
        &&& pre.unique <= self.unique <= pre.unique + 2
        &&& self.done == pre.done
    }

    /// Whether an operation can be emitted without running out of addresses.
    pub open spec fn can_emit(self) -> bool {
        self.pending_labels.len() == 0 || self.next_addr < i32::MAX
    }

    /// The block that holds `cmd` and captures nothing.
    pub open spec fn complete(self, cmd: CommandModel) -> ItemModel {
        ItemModel::Complete(plain_block(cmd, self.track_output))
    }

    /// The item of the block that holds `cmd` and stores its success count
    /// in the register `success`.
    pub open spec fn counted(self, cmd: CommandModel, success: Seq<char>) -> ItemModel {
        ItemModel::Complete(counted_block(cmd, success, self.track_output))
    }

    /// The item that powers `label` where every test holds.
    pub open spec fn power(self, tests: Seq<Test>, label: Seq<char>) -> ItemModel {
        power_item(tests, label, self.track_output)
    }

    /// The state once the pending labels are settled: they share one
    /// address, and their label items and one item that takes the power from
    /// the first of them are in the buffer.
    pub open spec fn flushed(self) -> State {
        if self.pending_labels.len() == 0 {
            self
        } else {
            State {
                buffer: (self.buffer + label_items(self.pending_labels)).push(
                    power_off_item(self.pending_labels[0], self.track_output),
                ),
                pending_labels: Seq::empty(),
                next_addr: next_after(self.table, self.next_addr, self.pending_labels),
                table: coalesced(self.table, self.next_addr, self.pending_labels),
                ..self
            }
        }
    }

    /// The state once `item` is emitted: a label waits with the pending
    /// labels; anything else settles them and enters the buffer.
    pub open spec fn emit(self, item: ItemModel) -> State {
        match item {
            ItemModel::Label(label) => State {
                pending_labels: self.pending_labels.push(label),
                ..self
            },
            _ => State { buffer: self.flushed().buffer.push(item), ..self.flushed() },
        }
    }

    /// The state once each of `items` is emitted, in order.
    pub open spec fn emit_all(self, items: Seq<ItemModel>) -> State
        decreases items.len(),
    {
        if items.len() == 0 {
            self
        } else {
            self.emit_all(items.drop_last()).emit(items.last())
        }
    }

    /// The state once `cmd` is emitted as a block.
    pub open spec fn emit_cmd(self, cmd: CommandModel) -> State {
        self.emit(self.complete(cmd))
    }

    /// The state once each of `cmds` is emitted as a block, in order.
    pub open spec fn emit_cmds(self, cmds: Seq<CommandModel>) -> State
        decreases cmds.len(),
    {
        if cmds.len() == 0 {
            self
        } else {
            self.emit_cmds(cmds.drop_last()).emit_cmd(cmds.last())
        }
    }

    /// The address of `label`: its own, or else a new one.
    pub open spec fn label_addr(self, label: Seq<char>) -> (State, int) {
        match lookup(self.table, label) {
            Some(a) => (self, a),
            None => (
                State {
                    next_addr: self.next_addr + 1,
                    table: place(self.table, label, self.next_addr + 1),
                    ..self
                },
                self.next_addr + 1,
            ),
        }
    }

    /// The state with the next unique number taken.
    pub open spec fn bumped(self) -> State {
        State { unique: self.unique + 1, ..self }
    }

    /// The label made of `prefix` and the next unique number.
    pub open spec fn unique_label(self, prefix: Seq<char>) -> Seq<char> {
        prefix + decimal(self.unique as nat)
    }

    /// A branch to `target`, which is a label or the table of indirect
    /// branches: the test, a new label for the program point behind the
    /// branch, what the branch sets up where it is taken, the items that
    /// power the target where it is taken and the new label where it is not,
    /// the end of the pulse, and the new label.
    pub open spec fn branch(
        self,
        tests: Seq<Test>,
        target: Seq<char>,
        link: bool,
        indirect: Option<Seq<char>>,
    ) -> State {
        let s1 = self.emit_cmds(code::branch_test(tests));
        let cont = s1.unique_label("br_cont_"@);
        let s2 = s1.bumped();
        let s3 = if link {
            s2.label_addr(cont).0
        } else {
            s2
        };
        let link_addr = if link {
            Some(s2.label_addr(cont).1)
        } else {
            None
        };
        let s4 = s3.emit_cmds(code::branch_setup(link_addr, indirect));
        s4.emit(s4.power(code::taken(), target)).emit(s4.power(code::skipped(), cont)).emit(
            ItemModel::Terminal,
        ).emit(ItemModel::Label(cont))
    }

    /// A branch to the label `label`, with or without link.
    pub open spec fn br_label(self, tests: Seq<Test>, label: Seq<char>, link: bool) -> State {
        self.branch(tests, label, link, None)
    }

    /// A branch to the address in the register `reg`, with or without link.
    pub open spec fn br_reg(self, tests: Seq<Test>, reg: Seq<char>, link: bool) -> State {
        self.branch(tests, names::jump_indirect(), link, Some(reg))
    }

    /// The request of a memory access: tag, operation code and address,
    /// under the transaction number that is taken.
    pub open spec fn mem_request(
        self,
        regions: Seq<MemoryRegion>,
        tests: Seq<Test>,
        addr: Seq<char>,
        opcode: int,
    ) -> State {
        let id = self.unique;
        let tagged = mem_tagged(id);
        let s1 = State { uses_memory: true, ..self }.bumped();
        let s2 = s1.emit_cmds(mem_tag_code(regions, tests, addr, id));
        let s3 = s2.emit_cmd(code::xset(tests, tagged, names::mem_op(), opcode));
        s3.emit(
            s3.counted(
                code::xr(tests, tagged, names::mem_addr(), PlayerOp::Asn, addr),
                names::tmp0(),
            ),
        )
    }

    /// The hand-off of a memory access: the control logic of the regions is
    /// powered, and the program goes on one tick later at a new label.
    pub open spec fn mem_yield(
        self,
        regions: Seq<MemoryRegion>,
        tests: Seq<Test>,
        addr: Seq<char>,
        prefix: Seq<char>,
    ) -> State {
        let s1 = self.emit_all(power_mem_items(regions, tests, addr, self.track_output));
        let cont = s1.unique_label(prefix);
        let s2 = s1.bumped();
        s2.emit(s2.power(tests, cont)).emit(ItemModel::Terminal).emit(ItemModel::Label(cont))
    }

    /// `dst = [src]`
    pub open spec fn ldr(
        self,
        regions: Seq<MemoryRegion>,
        tests: Seq<Test>,
        dst: Seq<char>,
        src: Seq<char>,
    ) -> State {
        let tagged = mem_tagged(self.unique);
        self.mem_request(regions, tests, src, 0).mem_yield(regions, tests, src, "ldr_cont_"@).emit_cmd(
            code::rx(tests, dst, PlayerOp::Asn, tagged, names::mem_data()),
        )
    }

    /// `[dst] = src`
    pub open spec fn str(
        self,
        regions: Seq<MemoryRegion>,
        tests: Seq<Test>,
        src: Seq<char>,
        dst: Seq<char>,
    ) -> State {
        let tagged = mem_tagged(self.unique);
        let s1 = self.mem_request(regions, tests, dst, 1);
        s1.emit(
            s1.counted(
                code::xr(tests, tagged, names::mem_data(), PlayerOp::Asn, src),
                names::tmp0(),
            ),
        ).mem_yield(regions, tests, dst, "str_cont_"@)
    }

    /// The state with the use of the bit lanes recorded.
    pub open spec fn bitwise(self) -> State {
        State { uses_bitwise: true, ..self }
    }

    /// The state once the instruction `op` is lowered under the guards
    /// `tests`.
    pub open spec fn lower(self, regions: Seq<MemoryRegion>, tests: Seq<Test>, op: Op) -> State {
        match op {
            Op::LdrRR(dst, src) => self.ldr(regions, tests, dst.name(), src.name()),
            Op::StrRR(src, dst) => self.str(regions, tests, src.name(), dst.name()),
            Op::AddRR(dst, src) => self.emit_cmd(
                code::rr(tests, dst.name(), PlayerOp::Add, src.name()),
            ),
            Op::AddRI(dst, imm) => self.emit_cmd(code::radd(tests, dst.name(), imm as int)),
            Op::AddXR(tgt, obj, src, success) => self.emit(
                self.counted(code::xr(tests, tgt@, obj@, PlayerOp::Add, src.name()), success.name()),
            ),
            Op::SubRR(dst, src) => self.emit_cmd(
                code::rr(tests, dst.name(), PlayerOp::Sub, src.name()),
            ),
            Op::SubRI(dst, imm) => self.emit_cmd(code::rsub(tests, dst.name(), imm as int)),
            Op::SubXR(tgt, obj, src, success) => self.emit(
                self.counted(code::xr(tests, tgt@, obj@, PlayerOp::Sub, src.name()), success.name()),
            ),
            Op::AndRR(dst, src) => self.bitwise().emit_cmds(
                code::and_rr(tests, dst.name(), src.name()),
            ),
            Op::OrrRR(dst, src) => self.bitwise().emit_cmds(
                code::orr_rr(tests, dst.name(), src.name()),
            ),
            Op::EorRR(dst, src) => self.bitwise().emit_cmds(
                code::eor_rr(tests, dst.name(), src.name()),
            ),
            Op::AsrRR(dst, src) => self.bitwise().emit_cmds(
                code::asr_rr(tests, dst.name(), src.name()),
            ),
            Op::LsrRR(dst, src) => self.bitwise().emit_cmds(
                code::lsr_rr(tests, dst.name(), src.name()),
            ),
            Op::LslRR(dst, src) => self.bitwise().emit_cmds(
                code::lsl_rr(tests, dst.name(), src.name()),
            ),
            Op::MovRR(dst, src) => self.emit_cmd(
                code::rr(tests, dst.name(), PlayerOp::Asn, src.name()),
            ),
            Op::MovRI(dst, imm) => self.emit_cmd(code::rset(tests, dst.name(), imm as int)),
            Op::MovRX(dst, tgt, obj) => self.emit_cmd(
                code::rx(tests, dst.name(), PlayerOp::Asn, tgt@, obj@),
            ),
            Op::MovXR(tgt, obj, src, success) => self.emit(
                self.counted(code::xr(tests, tgt@, obj@, PlayerOp::Asn, src.name()), success.name()),
            ),
            Op::MulRR(dst, src) => self.emit_cmd(
                code::rr(tests, dst.name(), PlayerOp::Mul, src.name()),
            ),
            Op::SdivRR(dst, src) => self.emit_cmd(
                code::rr(tests, dst.name(), PlayerOp::Div, src.name()),
            ),
            Op::UdivRR(dst, src) => self.emit_cmds(code::udiv(tests, dst.name(), src.name())),
            Op::SremRR(dst, src) => self.emit_cmd(
                code::rr(tests, dst.name(), PlayerOp::Rem, src.name()),
            ),
            Op::UremRR(dst, src) => self.emit_cmds(code::urem(tests, dst.name(), src.name())),
            Op::Srng(dst, tst, min, max) => self.emit_cmds(
                code::srng(tests, dst.name(), tst.name(), min, max),
            ),
            Op::Urng(dst, tst, min, max) => self.emit_cmds(
                code::urng(tests, dst.name(), tst.name(), min, max),
            ),
            Op::BrL(label) => self.br_label(tests, label@, false),
            Op::BrR(reg) => self.br_reg(tests, reg.name(), false),
            Op::BrLnkL(label) => self.br_label(tests, label@, true),
            Op::BrLnkR(reg) => self.br_reg(tests, reg.name(), true),
            Op::Halt => self.emit(ItemModel::Terminal),
            Op::RawCmd(outs, cmd) => self.emit(
                ItemModel::Complete(
                    BlockModel {
                        command: code::on_computer(tests, CommandModel::Raw(cmd@)),
                        track_output: self.track_output,
                        stats: Some(
                            StatsModel {
                                target: names::computer_target(),
                                outs: captures_of(outs@),
                            },
                        ),
                    },
                ),
            ),
            Op::Push(_) => self,
            Op::Pop(_) => self,
        }
    }

    /// The state once the statement `stmt` is assembled.
    pub open spec fn assemble(self, regions: Seq<MemoryRegion>, stmt: Statement) -> State {
        match stmt {
            Statement::LabelStmt(label) => self.emit(ItemModel::Label(label@)),
            Statement::Instr(conds, op) => self.lower(regions, tests_of(conds@), op),
        }
    }

    /// The table of indirect branches: its label, one entry for each label
    /// with an address, in ascending order of address, and the end of the
    /// pulse. The table of addresses is used up.
    pub open spec fn jump_table(self) -> State {
        let s1 = self.emit(ItemModel::Label(names::jump_indirect()));
        let s2 = State { table: Seq::empty(), ..s1 };
        s2.emit_all(jump_items(s1.table, s1.track_output)).emit(ItemModel::Terminal)
    }

    /// The state once the input is exhausted: the end of the last pulse,
    /// then the table of indirect branches.
    pub open spec fn finish(self) -> State {
        State { done: true, ..self.emit(ItemModel::Terminal).jump_table() }
    }

    /// The state and the rest of the input once the buffer holds an item, or
    /// once everything is assembled and handed out.
    pub open spec fn pump(
        self,
        regions: Seq<MemoryRegion>,
        input: Seq<Statement>) -> (State, Seq<Statement>,
    )
        decreases input.len(), (if self.done { 0int } else { 1int }),
    {
        if self.buffer.len() > 0 {
            (self, input)
        } else if input.len() > 0 {
            self.assemble(regions, input[0]).pump(regions, input.drop_first())
        } else if !self.done {
            self.finish().pump(regions, input)
        } else {
            (self, input)
        }
    }
}

/// Emitting one more operation after a sequence.
pub broadcast proof fn lemma_emit_cmds_push(st: State, cmds: Seq<CommandModel>, cmd: CommandModel)
    ensures
        #[trigger] st.emit_cmds(cmds.push(cmd)) == st.emit_cmds(cmds).emit_cmd(cmd),
{
    assert(cmds.push(cmd).drop_last() =~= cmds);
}

/// Emitting one more item after a sequence.
pub broadcast proof fn lemma_emit_all_push(st: State, items: Seq<ItemModel>, item: ItemModel)
    ensures
        #[trigger] st.emit_all(items.push(item)) == st.emit_all(items).emit(item),
{
    assert(items.push(item).drop_last() =~= items);
}

/// Emitting a sequence of one operation.
pub proof fn lemma_emit_cmds_one(st: State, cmd: CommandModel)
    ensures
        st.emit_cmds(seq![cmd]) == st.emit_cmd(cmd),
{
    assert(seq![cmd].drop_last() =~= Seq::<CommandModel>::empty());
    assert(st.emit_cmds(Seq::<CommandModel>::empty()) == st);
}

/// Emitting no operation.
pub proof fn lemma_emit_cmds_none(st: State)
    ensures
        st.emit_cmds(Seq::<CommandModel>::empty()) == st,
{
}

/// Emitting two sequences one after the other is emitting their
/// concatenation.
pub proof fn lemma_emit_cmds_concat(st: State, a: Seq<CommandModel>, b: Seq<CommandModel>)
    ensures
        st.emit_cmds(a + b) == st.emit_cmds(a).emit_cmds(b),
    decreases b.len(),
{
    if b.len() == 0 {
        assert(a + b =~= a);
    } else {
        lemma_emit_cmds_concat(st, a, b.drop_last());
        assert((a + b).drop_last() =~= a + b.drop_last());
        assert((a + b).last() == b.last());
    }
}

/// Emitting an operation keeps the state well-formed, settles the pending
/// labels, uses at most one address, and keeps the unique number and the
/// flags.
pub proof fn lemma_emit_settles(st: State, item: ItemModel)
    requires
        st.wf(),
        !(item is Label),
    ensures
        st.emit(item).wf(),
        st.emit(item).pending_labels.len() == 0,
        st.next_addr <= st.emit(item).next_addr <= st.next_addr + 1,
        st.pending_labels.len() == 0 ==> st.emit(item).next_addr == st.next_addr && st.emit(
            item,
        ).table == st.table,
        st.emit(item).unique == st.unique,
        st.emit(item).track_output == st.track_output,
        st.emit(item).uses_memory == st.uses_memory,
        st.emit(item).uses_bitwise == st.uses_bitwise,
        st.emit(item).done == st.done,
        st.emit(item).buffer.len() > 0,
{
    crate::labels::lemma_coalesced_wf(st.table, st.next_addr, st.pending_labels);
}

/// Labels that are declared with no operation between them resolve to one
/// address: once an operation is emitted, every label that waited has an
/// address, and any two of them have the same one, whatever the order in
/// which they were declared. This holds provided that those of them that
/// had an address before all had the same.
pub proof fn lemma_pending_labels_share_address(st: State, item: ItemModel, i: int, j: int)
    requires
        st.wf(),
        !(item is Label),
        0 <= i < st.pending_labels.len(),
        0 <= j < st.pending_labels.len(),
        forall|a: int, b: int|
            0 <= a < st.pending_labels.len() && 0 <= b < st.pending_labels.len() && knows(
                st.table,
                st.pending_labels[a],
            ) && knows(st.table, st.pending_labels[b]) ==> crate::labels::addr_of(
                st.table,
                st.pending_labels[a],
            ) == crate::labels::addr_of(st.table, st.pending_labels[b]),
    ensures
        knows(st.emit(item).table, st.pending_labels[i]),
        knows(st.emit(item).table, st.pending_labels[j]),
        crate::labels::addr_of(st.emit(item).table, st.pending_labels[i]) == crate::labels::addr_of(
            st.emit(item).table,
            st.pending_labels[j],
        ),
{
    crate::labels::lemma_coalesced_labels_share_address(
        st.table,
        st.next_addr,
        st.pending_labels,
        i,
        j,
    );
}

/// An address that a label has is final: emitting an item changes the
/// address of no label that had one.
pub proof fn lemma_label_address_is_final(st: State, item: ItemModel, label: Seq<char>)
    requires
        st.wf(),
        knows(st.table, label),
    ensures
        knows(st.emit(item).table, label),
        crate::labels::addr_of(st.emit(item).table, label) == crate::labels::addr_of(
            st.table,
            label,
        ),
{
    crate::labels::lemma_coalesced_wf(st.table, st.next_addr, st.pending_labels);
}

/// Emitting operations keeps the state well-formed and the address of
/// every label that has one.
pub proof fn lemma_emit_cmds_keeps(st: State, cmds: Seq<CommandModel>, label: Seq<char>)
    requires
        st.wf(),
    ensures
        st.emit_cmds(cmds).wf(),
        knows(st.table, label) ==> knows(st.emit_cmds(cmds).table, label) && crate::labels::addr_of(
            st.emit_cmds(cmds).table,
            label,
        ) == crate::labels::addr_of(st.table, label),
    decreases cmds.len(),
{
    if cmds.len() > 0 {
        lemma_emit_cmds_keeps(st, cmds.drop_last(), label);
        let prev = st.emit_cmds(cmds.drop_last());
        lemma_emit_settles(prev, prev.complete(cmds.last()));
        if knows(st.table, label) {
            lemma_label_address_is_final(prev, prev.complete(cmds.last()), label);
        }
    }
}

/// The label behind a branch.
pub open spec fn branch_cont(st: State, tests: Seq<Test>) -> Seq<char> {
    st.emit_cmds(code::branch_test(tests)).unique_label("br_cont_"@)
}

/// The return address of a branch with link.
pub open spec fn branch_link_addr(st: State, tests: Seq<Test>) -> int {
    st.emit_cmds(code::branch_test(tests)).bumped().label_addr(branch_cont(st, tests)).1
}

/// The return address that a branch with link puts into the link register
/// is the address of the label behind the branch: once the branch is
/// assembled, the table of addresses holds that label with that address.
pub proof fn lemma_link_is_address_of_label_behind(
    st: State,
    tests: Seq<Test>,
    target: Seq<char>,
    indirect: Option<Seq<char>>,
)
    requires
        st.wf(),
    ensures
        st.branch(tests, target, true, indirect).wf(),
        knows(st.branch(tests, target, true, indirect).table, branch_cont(st, tests)),
        crate::labels::addr_of(
            st.branch(tests, target, true, indirect).table,
            branch_cont(st, tests),
        ) == branch_link_addr(st, tests),
{
    let cont = branch_cont(st, tests);
    let s1 = st.emit_cmds(code::branch_test(tests));
    lemma_emit_cmds_keeps(st, code::branch_test(tests), cont);
    let s2 = s1.bumped();
    let s3 = s2.label_addr(cont).0;
    let a = s2.label_addr(cont).1;
    if !knows(s2.table, cont) {
        crate::labels::lemma_place(s2.table, cont, s2.next_addr + 1);
        assert(within(s2.table, s2.next_addr + 1));
    }
    assert(s3.wf());
    assert(knows(s3.table, cont) && crate::labels::addr_of(s3.table, cont) == a);
    let setup = code::branch_setup(Some(a), indirect);
    let s4 = s3.emit_cmds(setup);
    lemma_emit_cmds_keeps(s3, setup, cont);
    let i1 = s4.power(code::taken(), target);
    let s5 = s4.emit(i1);
    lemma_emit_settles(s4, i1);
    lemma_label_address_is_final(s4, i1, cont);
    let i2 = s4.power(code::skipped(), cont);
    let s6 = s5.emit(i2);
    lemma_emit_settles(s5, i2);
    lemma_label_address_is_final(s5, i2, cont);
    let s7 = s6.emit(ItemModel::Terminal);
    lemma_emit_settles(s6, ItemModel::Terminal);
    lemma_label_address_is_final(s6, ItemModel::Terminal, cont);
    lemma_label_address_is_final(s7, ItemModel::Label(cont), cont);
}

/// The blocks of a run of operations enter the buffer in their order,
/// behind what the labels that waited have put there.
pub proof fn lemma_emit_cmds_buffer(st: State, cmds: Seq<CommandModel>)
    requires
        cmds.len() > 0,
    ensures
        st.emit_cmds(cmds).buffer == st.flushed().buffer + Seq::new(
            cmds.len(),
            |i: int| st.complete(cmds[i]),
        ),
        st.emit_cmds(cmds).pending_labels.len() == 0,
        st.emit_cmds(cmds).track_output == st.track_output,
    decreases cmds.len(),
{
    let items = Seq::new(cmds.len(), |i: int| st.complete(cmds[i]));
    if cmds.len() == 1 {
        assert(cmds.drop_last() =~= Seq::<CommandModel>::empty());
        assert(st.emit_cmds(cmds.drop_last()) == st);
        assert(st.emit_cmds(cmds).buffer =~= st.flushed().buffer + items);
    } else {
        let front = cmds.drop_last();
        lemma_emit_cmds_buffer(st, front);
        let prev = st.emit_cmds(front);
        assert(prev.flushed() == prev);
        let front_items = Seq::new(front.len(), |i: int| st.complete(front[i]));
        assert(st.emit_cmds(cmds).buffer =~= st.flushed().buffer + items) by {
            assert(items =~= front_items.push(st.complete(cmds.last())));
        }
    }
}

/// Filling the buffer makes progress: it takes statements from the input
/// or, once at the end, emits the closing items; it leaves the buffer empty
/// only when all is assembled.
pub proof fn lemma_pump_progress(st: State, regions: Seq<MemoryRegion>, input: Seq<Statement>)
    ensures
        ({
            let (s, rest) = st.pump(regions, input);
            &&& rest.len() <= input.len()
            &&& st.buffer.len() > 0 ==> s == st && rest == input
            &&& st.buffer.len() == 0 && rest.len() == input.len() ==> input.len() == 0 && s.done
            &&& st.buffer.len() == 0 && rest.len() == input.len() && s.buffer.len() > 0
                ==> !st.done
            &&& s.buffer.len() == 0 ==> rest.len() == 0 && s.done
        }),
    decreases input.len(), (if st.done { 0int } else { 1int }),
{
    if st.buffer.len() > 0 {
    } else if input.len() > 0 {
        lemma_pump_progress(st.assemble(regions, input[0]), regions, input.drop_first());
    } else if !st.done {
        lemma_pump_progress(st.finish(), regions, input);
    }
}

/// Every item that the assembler hands out from the state `st` on, with the
/// statements `input` still to assemble: the items in the buffer, then
/// those of each statement, then the closing items.
pub open spec fn stream(st: State, regions: Seq<MemoryRegion>, input: Seq<Statement>) -> Seq<
    ItemModel,
>
    decreases input.len(), (if st.done { 0int } else { 1int }), st.buffer.len(),
{
    let filled = st.pump(regions, input);
    if filled.0.buffer.len() == 0 {
        Seq::empty()
    } else {
        proof {
            lemma_pump_progress(st, regions, input);
        }
        seq![filled.0.buffer[0]] + stream(
            State { buffer: filled.0.buffer.drop_first(), ..filled.0 },
            regions,
            filled.1,
        )
    }
}

} // verus!
