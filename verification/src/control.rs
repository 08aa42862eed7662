//! What the branches decide on the machine, and how the table of indirect
//! branches finds the label of an address.

use vstd::prelude::*;
use crate::ast::Test;
use crate::block::{power_item, ItemModel};
use crate::code;
use crate::commands::PlayerOp;
use crate::labels::{addr_of, distinct, knows, lemma_addr_at, within, Entry};
use crate::machine::{holds, lemma_run_concat, lemma_run_one, mentions, run, World};
use crate::names;
use crate::registers::group_registers;
use crate::state::jump_items;

verus! {

/// Whether `item` powers the program point `label` on the machine `w`: it
/// is an item for that label which fills with the powering kind of block,
/// and the control entity passes its guards.
pub open spec fn powers(item: ItemModel, w: World, label: Seq<char>) -> bool {
    match item {
        ItemModel::Pending(l, fill) => l == label && fill.kind == names::power_block() && holds(
            w.computer,
            fill.tests,
        ),
        _ => false,
    }
}

/// The registers of a branch differ from one another.
pub proof fn lemma_branch_names_differ()
    ensures
        names::tmp0() != names::link(),
        names::tmp0() != names::ind_addr(),
        names::link() != names::ind_addr(),
{
    reveal_strlit("t0");
    reveal_strlit("lr");
    reveal_strlit("IndAddr");
    assert(names::tmp0()[0] != names::link()[0]);
    assert(names::tmp0()[0] != names::ind_addr()[0]);
    assert(names::link()[0] != names::ind_addr()[0]);
}

/// What a branch may be asked: no guard is on `t0`, and the register of an
/// indirect branch is neither `t0` nor, with a link, the link register.
pub open spec fn branch_ok(
    tests: Seq<Test>,
    link: Option<int>,
    indirect: Option<Seq<char>>,
) -> bool {
    &&& !mentions(tests, names::tmp0())
    &&& match indirect {
        Some(reg) => reg != names::tmp0() && (link is Some ==> reg != names::link()),
        None => true,
    }
}

/// A branch is taken exactly where its guards hold. Where it is taken, the
/// item for the target powers it and the item for the program point behind
/// the branch does not; with a link, the link register holds the return
/// address; for a branch through a register, the indirect address register
/// holds the destination. Where it is not taken, the item for the program
/// point behind the branch powers that, the item for the target does not
/// power it, and no register but `t0` changes.
pub proof fn lemma_branch_decides(
    w: World,
    tests: Seq<Test>,
    link: Option<int>,
    indirect: Option<Seq<char>>,
    target: Seq<char>,
    cont: Seq<char>,
    track_output: bool,
)
    requires
        w.apart(),
        branch_ok(tests, link, indirect),
    ensures
        ({
            let r = run(code::branch_test(tests) + code::branch_setup(link, indirect), w);
            let took = holds(w.computer, tests);
            &&& r.lanes == w.lanes
            &&& r.cells == w.cells
            &&& powers(power_item(code::taken(), target, track_output), r, target) <==> took
            &&& powers(power_item(code::skipped(), cont, track_output), r, cont) <==> !took
            &&& took && link is Some ==> r.computer[names::link()] == link.unwrap()
            &&& took && indirect is Some ==> r.computer[names::ind_addr()]
                == w.computer[indirect.unwrap()]
            &&& !took ==> forall|name: Seq<char>|
                name != names::tmp0() ==> r.computer[name] == w.computer[name]
        }),
{
    broadcast use group_registers;

    lemma_branch_names_differ();
    let t0 = names::tmp0();
    let test = code::branch_test(tests);
    let setup = code::branch_setup(link, indirect);
    lemma_run_concat(test, setup, w);
    let w1 = run(test, w);
    assert(holds(w.computer, Seq::<Test>::empty()));
    assert(w1.computer[t0] == (if holds(w.computer, tests) {
        1int
    } else {
        0int
    }));
    let a = match link {
        Some(addr) => seq![code::rset(code::taken(), names::link(), addr)],
        None => Seq::empty(),
    };
    let b = match indirect {
        Some(reg) => seq![code::rr(code::taken(), names::ind_addr(), PlayerOp::Asn, reg)],
        None => Seq::empty(),
    };
    lemma_run_concat(a, b, w1);
    let w2 = run(a, w1);
    if link is Some {
        lemma_run_one(a[0], w1);
    }
    if indirect is Some {
        lemma_run_one(b[0], w2);
    }
    let r = run(b, w2);
    assert(code::taken()[0] == code::equals(t0, 1));
    assert(code::skipped()[0] == code::equals(t0, 0));
    assert(holds(w1.computer, code::taken()) <==> w1.computer[t0] == 1);
    assert(holds(w2.computer, code::taken()) <==> w2.computer[t0] == 1);
    assert(r.computer[t0] == w1.computer[t0]);
    assert(holds(r.computer, code::taken()) <==> r.computer[t0] == 1);
    assert(holds(r.computer, code::skipped()) <==> r.computer[t0] == 0);
}

/// The table of indirect branches powers a label exactly where the
/// indirect address register holds the address of the label.
pub proof fn lemma_jump_table_dispatches(
    table: Seq<Entry>,
    track_output: bool,
    w: World,
    i: int,
)
    requires
        0 <= i < table.len(),
        within(table, i32::MAX as int),
    ensures
        powers(jump_items(table, track_output)[i], w, table[i].label) <==> w.computer[names::ind_addr()]
            == table[i].addr,
{
    let item = jump_items(table, track_output)[i];
    let tests = seq![code::equals(names::ind_addr(), table[i].addr as i32)];
    assert(item == power_item(tests, table[i].label, track_output));
    assert(tests[0] == code::equals(names::ind_addr(), table[i].addr as i32));
    assert(1 <= table[i].addr <= i32::MAX);
}

/// A label with an address is found by the table of indirect branches:
/// where the indirect address register holds its address, an entry of the
/// table powers it, and no entry powers a label with another address.
pub proof fn lemma_jump_table_finds_label(
    table: Seq<Entry>,
    track_output: bool,
    w: World,
    label: Seq<char>,
)
    requires
        distinct(table),
        within(table, i32::MAX as int),
        knows(table, label),
    ensures
        (exists|i: int|
            0 <= i < table.len() && powers(
                #[trigger] jump_items(table, track_output)[i],
                w,
                label,
            )) <==> w.computer[names::ind_addr()] == addr_of(table, label),
{
    let k = choose|k: int| 0 <= k < table.len() && (#[trigger] table[k]).label == label;
    lemma_addr_at(table, k);
    lemma_jump_table_dispatches(table, track_output, w, k);
    if exists|i: int|
        0 <= i < table.len() && powers(#[trigger] jump_items(table, track_output)[i], w, label) {
        let i = choose|i: int|
            0 <= i < table.len() && powers(
                #[trigger] jump_items(table, track_output)[i],
                w,
                label,
            );
        assert(table[i].label == label);
        lemma_addr_at(table, i);
        lemma_jump_table_dispatches(table, track_output, w, i);
    }
    if w.computer[names::ind_addr()] == addr_of(table, label) {
        assert(powers(jump_items(table, track_output)[k], w, label));
    }
}

} // verus!
