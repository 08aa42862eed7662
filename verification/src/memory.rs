//! What the memory accesses ask of the memory, and that a datum which was
//! stored is the datum that is loaded.
//!
//! The memory itself is no part of the assembler. It is modelled here by
//! what a region does when its control logic is powered: it reads the
//! operation code, the address and the datum from the counters of its
//! entity, and stores the datum or puts the stored datum into the counter.

use vstd::prelude::*;
use crate::ast::Test;
use crate::code;
use crate::commands::{CommandModel, PlayerOp, SelectorModel, TargetModel};
use crate::control::powers;
use crate::hw::MemoryRegion;
use crate::machine::{
    apply, captured, change, change_each, exec, holds, lemma_run_push, mentions, run, run_block,
    Actor, Cell, Change, World,
};
use crate::names;
use crate::registers::{
    guard_actor, lemma_change_each_one, lemma_computer_target, lemma_holds_insert,
    lemma_holds_push, lemma_on_computer, on_reg,
};
use crate::state::{counted_block, mem_tag_code, mem_tagged, mem_tests, power_mem_items};

verus! {

/// Whether the region holds the address `a`.
pub open spec fn holds_addr(region: MemoryRegion, a: int) -> bool {
    region.start <= a < region.end()
}

/// Whether `sel` asks nothing of an entity but what `cell` is called and
/// which team it is on.
pub open spec fn fits(sel: SelectorModel, cell: Cell) -> bool {
    &&& sel.name is None || sel.name == cell.name
    &&& sel.team is None || sel.team == cell.team
}

/// The machine has one entity for each region, in their order, and the
/// selector of a region picks the entity of that region and no other: it
/// asks for a name or a team, for no counter, and does not stop at the
/// nearest entity.
pub open spec fn wired(w: World, regions: Seq<MemoryRegion>) -> bool {
    &&& w.apart()
    &&& w.cells.len() == regions.len()
    &&& forall|i: int|
        0 <= i < regions.len() ==> {
            let sel = (#[trigger] regions[i]).selector@;
            &&& sel.scores.len() == 0
            &&& !sel.single
            &&& sel.name is Some || sel.team is Some
            &&& sel.name != Some(names::computer())
            &&& sel.team != Some(names::shifters())
            &&& forall|c: int| 0 <= c < w.cells.len() ==> (fits(sel, #[trigger] w.cells[c]) <==> c == i)
        }
}

/// No entity carries the tag `id`.
pub open spec fn untagged(w: World, id: int) -> bool {
    &&& w.computer[names::mem_tag()] != id
    &&& forall|k: int| 0 <= k < w.lanes.len() ==> (#[trigger] w.lanes[k])[names::mem_tag()] != id
    &&& forall|c: int|
        0 <= c < w.cells.len() ==> (#[trigger] w.cells[c]).scores[names::mem_tag()] != id
}

/// The entity of the region `i` carries the tag `id`, and no other entity
/// does.
pub open spec fn tagged_only(w: World, id: int, i: int) -> bool {
    &&& 0 <= i < w.cells.len()
    &&& w.computer[names::mem_tag()] != id
    &&& forall|k: int| 0 <= k < w.lanes.len() ==> (#[trigger] w.lanes[k])[names::mem_tag()] != id
    &&& forall|c: int|
        0 <= c < w.cells.len() ==> ((#[trigger] w.cells[c]).scores[names::mem_tag()] == id <==> c
            == i)
}

/// Two worlds have the same entities: they differ in counters at most.
pub open spec fn same_cast(w: World, r: World) -> bool {
    &&& r.cells.len() == w.cells.len()
    &&& r.lanes.len() == w.lanes.len()
    &&& forall|c: int|
        0 <= c < w.cells.len() ==> (#[trigger] r.cells[c]).name == w.cells[c].name
            && r.cells[c].team == w.cells[c].team
}

/// The wiring of a machine depends on its entities, not on their counters.
pub proof fn lemma_wired_kept(w: World, r: World, regions: Seq<MemoryRegion>)
    requires
        wired(w, regions),
        same_cast(w, r),
    ensures
        wired(r, regions),
{
    assert forall|i: int| 0 <= i < regions.len() implies ({
        let sel = (#[trigger] regions[i]).selector@;
        forall|c: int| 0 <= c < r.cells.len() ==> (fits(sel, #[trigger] r.cells[c]) <==> c == i)
    }) by {
        let sel = regions[i].selector@;
        assert forall|c: int| 0 <= c < r.cells.len() implies (fits(sel, #[trigger] r.cells[c])
            <==> c == i) by {
            assert(fits(sel, w.cells[c]) <==> c == i);
        }
    }
    assert forall|j: int| 0 <= j < r.cells.len() implies (#[trigger] r.cells[j]).name != Some(
        names::computer(),
    ) && r.cells[j].team != Some(names::shifters()) by {
        assert(w.cells[j].name != Some(names::computer()));
    }
}

/// A selector that no lane passes picks no lane.
proof fn lemma_no_lane(w: World, sel: SelectorModel, n: int)
    requires
        forall|k: int| 0 <= k < w.lanes.len() ==> !w.matches(sel, Actor::Lane(k)),
        n <= w.lanes.len(),
    ensures
        w.lanes_matching(sel, n) == Seq::<Actor>::empty(),
    decreases n,
{
    if n > 0 {
        lemma_no_lane(w, sel, n - 1);
    }
}

/// A selector that one entity of the memory passes picks that entity.
proof fn lemma_one_cell(w: World, sel: SelectorModel, i: int, n: int)
    requires
        0 <= i < w.cells.len(),
        0 <= n <= w.cells.len(),
        forall|c: int| 0 <= c < w.cells.len() ==> (w.matches(sel, Actor::Cell(c)) <==> c == i),
    ensures
        w.cells_matching(sel, n) == (if n > i {
            seq![Actor::Cell(i)]
        } else {
            Seq::<Actor>::empty()
        }),
    decreases n,
{
    if n > 0 {
        lemma_one_cell(w, sel, i, n - 1);
    }
}

/// What holds of a selector that picks the entity `i` of the memory and
/// nothing else.
pub open spec fn picks_cell(w: World, sel: SelectorModel, i: int) -> bool {
    &&& 0 <= i < w.cells.len()
    &&& !w.matches(sel, Actor::Computer)
    &&& forall|k: int| 0 <= k < w.lanes.len() ==> !w.matches(sel, Actor::Lane(k))
    &&& forall|c: int| 0 <= c < w.cells.len() ==> (w.matches(sel, Actor::Cell(c)) <==> c == i)
}

/// A selector that picks one entity of the memory addresses that entity,
/// whether it stops at the nearest entity or not, where the control entity
/// or nobody runs the operation.
proof fn lemma_targets_cell(w: World, sel: SelectorModel, i: int, actor: Actor)
    requires
        picks_cell(w, sel, i),
        actor is Nobody || actor is Computer,
    ensures
        w.targets(TargetModel::Sel(sel), actor) == seq![Actor::Cell(i)],
{
    lemma_no_lane(w, sel, w.lanes.len() as int);
    lemma_one_cell(w, sel, i, w.cells.len() as int);
    assert(w.everyone(sel) =~= seq![Actor::Cell(i)]);
    assert(w.targets(TargetModel::Sel(sel), actor) =~= seq![Actor::Cell(i)]);
}

/// The selector of a region picks the entity of the region.
proof fn lemma_region_picks_cell(w: World, regions: Seq<MemoryRegion>, i: int)
    requires
        wired(w, regions),
        0 <= i < regions.len(),
    ensures
        picks_cell(w, regions[i].selector@, i),
{
    let sel = regions[i].selector@;
    assert forall|c: int| 0 <= c < w.cells.len() implies (w.matches(sel, Actor::Cell(c)) <==> c
        == i) by {
        assert(fits(sel, w.cells[c]) <==> c == i);
    }
}

/// The selector of a tag picks the entity that alone carries the tag.
proof fn lemma_tag_picks_cell(w: World, id: int, i: int)
    requires
        tagged_only(w, id, i),
        i32::MIN <= id <= i32::MAX,
    ensures
        picks_cell(w, mem_tagged(id)->Sel_0, i),
{
    let sel = mem_tagged(id)->Sel_0;
    assert(sel.scores =~= seq![
        Test {
            objective: names::mem_tag(),
            interval: crate::types::Interval::Bounded(id as i32, id as i32),
        },
    ]);
    assert(sel.scores[0].objective == names::mem_tag());
    assert forall|c: int| 0 <= c < w.cells.len() implies (w.matches(sel, Actor::Cell(c)) <==> c
        == i) by {
        assert(w.cells[c].scores[names::mem_tag()] == id <==> c == i);
        assert(holds(w.cells[c].scores, sel.scores) <==> sel.scores[0].interval.contains(
            w.cells[c].scores[sel.scores[0].objective],
        ));
    }
    assert forall|k: int| 0 <= k < w.lanes.len() implies !w.matches(sel, Actor::Lane(k)) by {
        assert(w.lanes[k][names::mem_tag()] != id);
        assert(holds(w.lanes[k], sel.scores) ==> sel.scores[0].interval.contains(
            w.lanes[k][sel.scores[0].objective],
        ));
    }
    assert(!w.matches(sel, Actor::Computer)) by {
        assert(holds(w.computer, sel.scores) ==> sel.scores[0].interval.contains(
            w.computer[sel.scores[0].objective],
        ));
    }
}

/// The world in which the counter `name` of the entity `i` of the memory
/// holds `v`.
pub open spec fn with_cell(w: World, i: int, name: Seq<char>, v: int) -> World {
    w.with_score(Actor::Cell(i), name, v)
}

/// The guard of a region holds exactly where the guards hold and the
/// address lies in the region.
pub proof fn lemma_region_guard(w: World, tests: Seq<Test>, region: MemoryRegion, addr: Seq<char>)
    requires
        region.addressable(),
    ensures
        holds(w.computer, mem_tests(tests, region, addr)) <==> holds(w.computer, tests)
            && holds_addr(region, w.computer[addr]),
{
    lemma_holds_push(
        w.computer,
        tests,
        Test {
            objective: addr,
            interval: crate::types::Interval::Bounded(
                region.start as i32,
                (region.end() - 1) as i32,
            ),
        },
    );
}

} // verus!

verus! {

/// `target.name = v` where the target is one entity of the memory.
proof fn lemma_xset_cell(
    w: World,
    tests: Seq<Test>,
    sel: SelectorModel,
    i: int,
    name: Seq<char>,
    v: int,
)
    requires
        w.apart(),
        picks_cell(w, sel, i),
    ensures
        exec(code::xset(tests, TargetModel::Sel(sel), name, v), w, Actor::Nobody) == (if holds(
            w.computer,
            tests,
        ) {
            with_cell(w, i, name, v)
        } else {
            w
        }),
{
    let cmd = CommandModel::ScoreSet(TargetModel::Sel(sel), name, v);
    lemma_on_computer(w, tests, cmd);
    lemma_targets_cell(w, sel, i, guard_actor(tests));
    lemma_change_each_one(w, Actor::Cell(i), name, Change::Assign(v));
}

/// `target.name op= src` where the target is one entity of the memory.
proof fn lemma_xr_cell(
    w: World,
    tests: Seq<Test>,
    sel: SelectorModel,
    i: int,
    name: Seq<char>,
    op: PlayerOp,
    src: Seq<char>,
)
    requires
        w.apart(),
        picks_cell(w, sel, i),
    ensures
        exec(code::xr(tests, TargetModel::Sel(sel), name, op, src), w, Actor::Nobody) == (if holds(
            w.computer,
            tests,
        ) {
            with_cell(w, i, name, apply(op, w.cells[i].scores[name], w.computer[src]))
        } else {
            w
        }),
{
    let cmd = CommandModel::ScoreOp(TargetModel::Sel(sel), name, op, names::computer_target(), src);
    lemma_on_computer(w, tests, cmd);
    lemma_targets_cell(w, sel, i, guard_actor(tests));
    lemma_computer_target(w, guard_actor(tests));
    lemma_change_each_one(w, Actor::Cell(i), name, Change::Op(op, Actor::Computer, src));
}

/// `dst op= source.name` where the source is one entity of the memory.
proof fn lemma_rx_cell(
    w: World,
    tests: Seq<Test>,
    dst: Seq<char>,
    op: PlayerOp,
    sel: SelectorModel,
    i: int,
    name: Seq<char>,
)
    requires
        w.apart(),
        picks_cell(w, sel, i),
    ensures
        exec(code::rx(tests, dst, op, TargetModel::Sel(sel), name), w, Actor::Nobody) == on_reg(
            w,
            tests,
            dst,
            apply(op, w.computer[dst], w.cells[i].scores[name]),
        ),
{
    let cmd = CommandModel::ScoreOp(names::computer_target(), dst, op, TargetModel::Sel(sel), name);
    lemma_on_computer(w, tests, cmd);
    lemma_targets_cell(w, sel, i, guard_actor(tests));
    lemma_computer_target(w, guard_actor(tests));
    lemma_change_each_one(w, Actor::Computer, dst, Change::Op(op, Actor::Cell(i), name));
}

/// A block that stores its success count in a register changes that
/// register after its operation, and nothing else.
proof fn lemma_counted(
    w: World,
    cmd: CommandModel,
    success: Seq<char>,
    track_output: bool,
    count: int,
)
    requires
        exec(cmd, w, Actor::Nobody).apart(),
    ensures
        run_block(counted_block(cmd, success, track_output), w, seq![count]) == ({
            let done = exec(cmd, w, Actor::Nobody);
            World { computer: done.computer.insert(success, count), ..done }
        }),
{
    let done = exec(cmd, w, Actor::Nobody);
    let outs = seq![(crate::ast::CommandBlockOut::SuccessCount, success)];
    assert(outs.drop_last() =~= Seq::empty());
    assert(captured(done, names::computer_target(), outs.drop_last(), seq![count]) == done);
    lemma_computer_target(done, Actor::Nobody);
    lemma_change_each_one(done, Actor::Computer, success, Change::Assign(count));
}

/// The entities of the memory once the regions of index below `n` that
/// hold the address `a` are tagged.
pub open spec fn cells_tagged(w: World, regions: Seq<MemoryRegion>, a: int, id: int, n: int) -> Seq<
    Cell,
> {
    Seq::new(
        w.cells.len(),
        |c: int|
            if c < n && holds_addr(regions[c], a) {
                Cell { scores: w.cells[c].scores.insert(names::mem_tag(), id), ..w.cells[c] }
            } else {
                w.cells[c]
            },
    )
}

/// Every region is addressable.
pub open spec fn all_addressable(regions: Seq<MemoryRegion>) -> bool {
    forall|i: int| 0 <= i < regions.len() ==> (#[trigger] regions[i]).addressable()
}

/// Tagging reaches the entities of the regions that hold the address, and
/// changes nothing else.
proof fn lemma_tagging(
    w: World,
    regions: Seq<MemoryRegion>,
    tests: Seq<Test>,
    addr: Seq<char>,
    id: int,
    n: int,
)
    requires
        wired(w, regions),
        all_addressable(regions),
        holds(w.computer, tests),
        0 <= n <= regions.len(),
    ensures
        run(mem_tag_code(regions, tests, addr, id).take(n), w) == (World {
            cells: cells_tagged(w, regions, w.computer[addr], id, n),
            ..w
        }),
    decreases n,
{
    let all = mem_tag_code(regions, tests, addr, id);
    let a = w.computer[addr];
    if n == 0 {
        assert(all.take(0) =~= Seq::empty());
        assert(cells_tagged(w, regions, a, id, 0) =~= w.cells);
    } else {
        lemma_tagging(w, regions, tests, addr, id, n - 1);
        assert(all.take(n) =~= all.take(n - 1).push(all[n - 1]));
        lemma_run_push(all.take(n - 1), all[n - 1], w);
        let mid = World { cells: cells_tagged(w, regions, a, id, n - 1), ..w };
        assert(same_cast(w, mid));
        lemma_wired_kept(w, mid, regions);
        let region = regions[n - 1];
        lemma_region_guard(mid, tests, region, addr);
        lemma_region_picks_cell(mid, regions, n - 1);
        lemma_xset_cell(
            mid,
            mem_tests(tests, region, addr),
            region.selector@,
            n - 1,
            names::mem_tag(),
            id,
        );
        let done = exec(all[n - 1], mid, Actor::Nobody);
        assert(done.cells =~= cells_tagged(w, regions, a, id, n));
    }
}

} // verus!

verus! {

/// The counters of a memory access differ from one another.
pub proof fn lemma_memory_names_differ()
    ensures
        names::mem_tag() != names::mem_op(),
        names::mem_tag() != names::mem_addr(),
        names::mem_tag() != names::mem_data(),
        names::mem_op() != names::mem_addr(),
        names::mem_op() != names::mem_data(),
        names::mem_addr() != names::mem_data(),
{
    reveal_strlit("MemTag");
    reveal_strlit("MemOp");
    reveal_strlit("MemAddr");
    reveal_strlit("MemData");
    assert(names::mem_tag()[3] != names::mem_op()[3]);
    assert(names::mem_tag()[3] != names::mem_addr()[3]);
    assert(names::mem_tag()[3] != names::mem_data()[3]);
    assert(names::mem_op()[3] != names::mem_addr()[3]);
    assert(names::mem_op()[3] != names::mem_data()[3]);
    assert(names::mem_addr()[3] != names::mem_data()[3]);
}

/// The world once the request of a memory access has run: the regions that
/// hold the address are tagged with `id`; the tagged entities take the
/// operation code and the address; the block that hands over the address
/// reports `count`.
pub open spec fn requested(
    w: World,
    regions: Seq<MemoryRegion>,
    tests: Seq<Test>,
    addr: Seq<char>,
    id: int,
    opcode: int,
    count: int,
    track_output: bool,
) -> World {
    let w1 = run(mem_tag_code(regions, tests, addr, id), w);
    let w2 = exec(code::xset(tests, mem_tagged(id), names::mem_op(), opcode), w1, Actor::Nobody);
    run_block(
        counted_block(
            code::xr(tests, mem_tagged(id), names::mem_addr(), PlayerOp::Asn, addr),
            names::tmp0(),
            track_output,
        ),
        w2,
        seq![count],
    )
}

/// What a memory access may be asked on a machine: the machine is wired to
/// the regions, which are addressable; the guards hold; nothing carries the
/// tag of the access yet; and the region `i`, and no other, holds the
/// address in the register `addr`.
pub open spec fn access_ok(
    w: World,
    regions: Seq<MemoryRegion>,
    tests: Seq<Test>,
    addr: Seq<char>,
    id: int,
    i: int,
) -> bool {
    &&& wired(w, regions)
    &&& all_addressable(regions)
    &&& holds(w.computer, tests)
    &&& !mentions(tests, names::tmp0())
    &&& addr != names::tmp0()
    &&& untagged(w, id)
    &&& 0 <= id <= i32::MAX
    &&& 0 <= i < regions.len()
    &&& forall|j: int|
        0 <= j < regions.len() ==> (holds_addr(#[trigger] regions[j], w.computer[addr]) <==> j == i)
}

/// The counters of an entity of the memory with a request in them.
pub open spec fn with_request(cell: Cell, id: int, opcode: int, a: int) -> Cell {
    Cell {
        scores: cell.scores.insert(names::mem_tag(), id).insert(names::mem_op(), opcode).insert(
            names::mem_addr(),
            a,
        ),
        ..cell
    }
}

/// The request reaches the entity of the region that holds the address:
/// the entity takes the tag, the operation code and the address. Besides,
/// only `t0` changes, to what the last block reports.
proof fn lemma_requested(
    w: World,
    regions: Seq<MemoryRegion>,
    tests: Seq<Test>,
    addr: Seq<char>,
    id: int,
    opcode: int,
    count: int,
    track_output: bool,
    i: int,
)
    requires
        access_ok(w, regions, tests, addr, id, i),
    ensures
        requested(w, regions, tests, addr, id, opcode, count, track_output) == (World {
            computer: w.computer.insert(names::tmp0(), count),
            cells: w.cells.update(i, with_request(w.cells[i], id, opcode, w.computer[addr])),
            ..w
        }),
        tagged_only(requested(w, regions, tests, addr, id, opcode, count, track_output), id, i),
        wired(requested(w, regions, tests, addr, id, opcode, count, track_output), regions),
{
    lemma_memory_names_differ();
    let a = w.computer[addr];
    let all = mem_tag_code(regions, tests, addr, id);
    lemma_tagging(w, regions, tests, addr, id, regions.len() as int);
    assert(all.take(regions.len() as int) =~= all);
    let w1 = run(all, w);
    let c1 = Cell { scores: w.cells[i].scores.insert(names::mem_tag(), id), ..w.cells[i] };
    assert(w1.cells =~= w.cells.update(i, c1)) by {
        assert forall|c: int| 0 <= c < w.cells.len() implies w1.cells[c] == w.cells.update(
            i,
            c1,
        )[c] by {
            assert(holds_addr(regions[c], a) <==> c == i);
        }
    }
    assert(same_cast(w, w1));
    lemma_wired_kept(w, w1, regions);
    assert(tagged_only(w1, id, i)) by {
        assert forall|c: int| 0 <= c < w1.cells.len() implies ((#[trigger] w1.cells[c]).scores[names::mem_tag()]
            == id <==> c == i) by {
            assert(w.cells[c].scores[names::mem_tag()] != id);
        }
    }
    let sel = mem_tagged(id)->Sel_0;
    lemma_tag_picks_cell(w1, id, i);
    lemma_xset_cell(w1, tests, sel, i, names::mem_op(), opcode);
    let w2 = exec(code::xset(tests, mem_tagged(id), names::mem_op(), opcode), w1, Actor::Nobody);
    assert(w2.cells =~= w.cells.update(
        i,
        Cell { scores: c1.scores.insert(names::mem_op(), opcode), ..c1 },
    ));
    assert(same_cast(w, w2));
    lemma_wired_kept(w, w2, regions);
    assert(tagged_only(w2, id, i)) by {
        assert forall|c: int| 0 <= c < w2.cells.len() implies ((#[trigger] w2.cells[c]).scores[names::mem_tag()]
            == id <==> c == i) by {
            assert(w1.cells[c].scores[names::mem_tag()] == id <==> c == i);
        }
    }
    lemma_tag_picks_cell(w2, id, i);
    let cmd = code::xr(tests, mem_tagged(id), names::mem_addr(), PlayerOp::Asn, addr);
    lemma_xr_cell(w2, tests, sel, i, names::mem_addr(), PlayerOp::Asn, addr);
    let w3 = exec(cmd, w2, Actor::Nobody);
    assert(w3.cells =~= w.cells.update(i, with_request(w.cells[i], id, opcode, a)));
    assert(same_cast(w, w3));
    lemma_wired_kept(w, w3, regions);
    lemma_counted(w2, cmd, names::tmp0(), track_output, count);
    let r = requested(w, regions, tests, addr, id, opcode, count, track_output);
    assert(r.cells == w3.cells);
    assert(same_cast(w, r));
    lemma_wired_kept(w, r, regions);
    assert(tagged_only(r, id, i)) by {
        assert forall|c: int| 0 <= c < r.cells.len() implies ((#[trigger] r.cells[c]).scores[names::mem_tag()]
            == id <==> c == i) by {
            assert(w.cells[c].scores[names::mem_tag()] != id);
        }
        assert(names::mem_tag() != names::tmp0()) by {
            reveal_strlit("MemTag");
            reveal_strlit("t0");
            assert(names::mem_tag()[0] != names::tmp0()[0]);
        }
    }
}

/// What a region does when its control logic is powered: with the
/// operation code one, it stores the datum of its entity at the address of
/// its entity; else it puts what is stored at that address into the datum
/// of its entity.
pub open spec fn serve(cell: Cell, store: Map<int, int>) -> (Cell, Map<int, int>) {
    if cell.scores[names::mem_op()] == 1 {
        (cell, store.insert(cell.scores[names::mem_addr()], cell.scores[names::mem_data()]))
    } else {
        (
            Cell {
                scores: cell.scores.insert(
                    names::mem_data(),
                    store[cell.scores[names::mem_addr()]],
                ),
                ..cell
            },
            store,
        )
    }
}

/// The machine and what is stored once the region `i` has served the
/// request in its entity.
pub open spec fn served(w: World, i: int, store: Map<int, int>) -> (World, Map<int, int>) {
    (World { cells: w.cells.update(i, serve(w.cells[i], store).0), ..w }, serve(w.cells[i], store).1)
}

/// The world once a store has handed over its request: the request with
/// the operation code one, then the datum from the register `src`. The two
/// blocks that report a success count report `c1` and `c2`.
pub open spec fn store_requested(
    w: World,
    regions: Seq<MemoryRegion>,
    tests: Seq<Test>,
    src: Seq<char>,
    addr: Seq<char>,
    id: int,
    c1: int,
    c2: int,
    track_output: bool,
) -> World {
    run_block(
        counted_block(
            code::xr(tests, mem_tagged(id), names::mem_data(), PlayerOp::Asn, src),
            names::tmp0(),
            track_output,
        ),
        requested(w, regions, tests, addr, id, 1, c1, track_output),
        seq![c2],
    )
}

/// The world once a load has run: the request with the operation code
/// zero, the region that holds the address serves it, and the datum goes to
/// the register `dst`.
pub open spec fn loaded(
    w: World,
    regions: Seq<MemoryRegion>,
    tests: Seq<Test>,
    dst: Seq<char>,
    addr: Seq<char>,
    id: int,
    count: int,
    track_output: bool,
    i: int,
    store: Map<int, int>,
) -> World {
    let asked = requested(w, regions, tests, addr, id, 0, count, track_output);
    exec(
        code::rx(tests, dst, PlayerOp::Asn, mem_tagged(id), names::mem_data()),
        served(asked, i, store).0,
        Actor::Nobody,
    )
}

/// A store hands the address and the datum to the region that holds the
/// address, and powers the control logic of that region and of no other;
/// once the region has served the request, the datum is stored at the
/// address.
pub proof fn lemma_store_reaches_memory(
    w: World,
    regions: Seq<MemoryRegion>,
    tests: Seq<Test>,
    src: Seq<char>,
    addr: Seq<char>,
    id: int,
    c1: int,
    c2: int,
    track_output: bool,
    i: int,
    store: Map<int, int>,
)
    requires
        access_ok(w, regions, tests, addr, id, i),
        src != names::tmp0(),
    ensures
        ({
            let asked = store_requested(w, regions, tests, src, addr, id, c1, c2, track_output);
            &&& served(asked, i, store).1 == store.insert(w.computer[addr], w.computer[src])
            &&& forall|j: int|
                0 <= j < regions.len() ==> (powers(
                    #[trigger] power_mem_items(regions, tests, addr, track_output)[j],
                    asked,
                    regions[j].label@,
                ) <==> j == i)
            &&& asked.lanes == w.lanes
            &&& forall|name: Seq<char>|
                name != names::tmp0() ==> asked.computer[name] == w.computer[name]
        }),
{
    broadcast use lemma_holds_insert;

    lemma_memory_names_differ();
    let w3 = requested(w, regions, tests, addr, id, 1, c1, track_output);
    lemma_requested(w, regions, tests, addr, id, 1, c1, track_output, i);
    let sel = mem_tagged(id)->Sel_0;
    lemma_tag_picks_cell(w3, id, i);
    let cmd = code::xr(tests, mem_tagged(id), names::mem_data(), PlayerOp::Asn, src);
    lemma_xr_cell(w3, tests, sel, i, names::mem_data(), PlayerOp::Asn, src);
    let w4 = exec(cmd, w3, Actor::Nobody);
    assert(same_cast(w, w4));
    lemma_wired_kept(w, w4, regions);
    lemma_counted(w3, cmd, names::tmp0(), track_output, c2);
    let asked = store_requested(w, regions, tests, src, addr, id, c1, c2, track_output);
    assert forall|j: int| 0 <= j < regions.len() implies (powers(
        #[trigger] power_mem_items(regions, tests, addr, track_output)[j],
        asked,
        regions[j].label@,
    ) <==> j == i) by {
        lemma_region_guard(asked, tests, regions[j], addr);
        assert(holds_addr(regions[j], w.computer[addr]) <==> j == i);
    }
}

/// A load hands the address to the region that holds the address; once the
/// region has served the request, the load leaves in its destination what
/// is stored at the address.
pub proof fn lemma_load_reads_memory(
    w: World,
    regions: Seq<MemoryRegion>,
    tests: Seq<Test>,
    dst: Seq<char>,
    addr: Seq<char>,
    id: int,
    count: int,
    track_output: bool,
    i: int,
    store: Map<int, int>,
)
    requires
        access_ok(w, regions, tests, addr, id, i),
    ensures
        ({
            let asked = requested(w, regions, tests, addr, id, 0, count, track_output);
            let r = loaded(w, regions, tests, dst, addr, id, count, track_output, i, store);
            &&& r.computer[dst] == store[w.computer[addr]]
            &&& served(asked, i, store).1 == store
            &&& forall|j: int|
                0 <= j < regions.len() ==> (powers(
                    #[trigger] power_mem_items(regions, tests, addr, track_output)[j],
                    asked,
                    regions[j].label@,
                ) <==> j == i)
            &&& r.lanes == w.lanes
            &&& forall|name: Seq<char>|
                name != names::tmp0() && name != dst ==> r.computer[name] == w.computer[name]
        }),
{
    broadcast use lemma_holds_insert;

    lemma_memory_names_differ();
    let asked = requested(w, regions, tests, addr, id, 0, count, track_output);
    lemma_requested(w, regions, tests, addr, id, 0, count, track_output, i);
    let ready = served(asked, i, store).0;
    assert(same_cast(w, ready));
    lemma_wired_kept(w, ready, regions);
    assert(tagged_only(ready, id, i)) by {
        assert forall|c: int| 0 <= c < ready.cells.len() implies ((#[trigger] ready.cells[c]).scores[names::mem_tag()]
            == id <==> c == i) by {
            assert(asked.cells[c].scores[names::mem_tag()] == id <==> c == i);
        }
    }
    let sel = mem_tagged(id)->Sel_0;
    lemma_tag_picks_cell(ready, id, i);
    lemma_rx_cell(ready, tests, dst, PlayerOp::Asn, sel, i, names::mem_data());
    assert forall|j: int| 0 <= j < regions.len() implies (powers(
        #[trigger] power_mem_items(regions, tests, addr, track_output)[j],
        asked,
        regions[j].label@,
    ) <==> j == i) by {
        lemma_region_guard(asked, tests, regions[j], addr);
        assert(holds_addr(regions[j], w.computer[addr]) <==> j == i);
    }
}

/// A datum that is stored at an address is the datum that a later load
/// from the same address gets: the store runs on the machine `w`, the
/// region serves it, and the load runs on a machine `later` in which its
/// address register holds the same address.
pub proof fn lemma_store_then_load(
    w: World,
    later: World,
    regions: Seq<MemoryRegion>,
    i: int,
    store: Map<int, int>,
    store_tests: Seq<Test>,
    src: Seq<char>,
    store_addr: Seq<char>,
    store_id: int,
    c1: int,
    c2: int,
    load_tests: Seq<Test>,
    dst: Seq<char>,
    load_addr: Seq<char>,
    load_id: int,
    c3: int,
    track_output: bool,
)
    requires
        access_ok(w, regions, store_tests, store_addr, store_id, i),
        src != names::tmp0(),
        access_ok(later, regions, load_tests, load_addr, load_id, i),
        later.computer[load_addr] == w.computer[store_addr],
    ensures
        ({
            let asked = store_requested(
                w,
                regions,
                store_tests,
                src,
                store_addr,
                store_id,
                c1,
                c2,
                track_output,
            );
            let kept = served(asked, i, store).1;
            loaded(
                later,
                regions,
                load_tests,
                dst,
                load_addr,
                load_id,
                c3,
                track_output,
                i,
                kept,
            ).computer[dst] == w.computer[src]
        }),
{
    lemma_store_reaches_memory(
        w,
        regions,
        store_tests,
        src,
        store_addr,
        store_id,
        c1,
        c2,
        track_output,
        i,
        store,
    );
    let asked = store_requested(
        w,
        regions,
        store_tests,
        src,
        store_addr,
        store_id,
        c1,
        c2,
        track_output,
    );
    let kept = served(asked, i, store).1;
    lemma_load_reads_memory(
        later,
        regions,
        load_tests,
        dst,
        load_addr,
        load_id,
        c3,
        track_output,
        i,
        kept,
    );
}

} // verus!
