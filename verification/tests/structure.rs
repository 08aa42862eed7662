// Tests of what the assembler emits, item by item, and of the small parts
// it is built from.

use sbbm_asm::assembler::{accepts, to_signed, Assembler};
use sbbm_asm::ast::{reg_name, CommandBlockOut, Cond, Op, Register, Statement};
use sbbm_asm::block::{make_cmd_block, make_command_stats, AssembledItem};
use sbbm_asm::commands::{Command, PlayerOp, Selector, Target};
use sbbm_asm::hw::{Computer, MemoryRegion};
use sbbm_asm::text::numbered;
use sbbm_asm::types::{Extent, Interval, Pos};

fn no_memory() -> Computer {
    Computer { memory: vec![] }
}

fn region(start: u32, size: u32) -> MemoryRegion {
    MemoryRegion {
        start,
        size,
        selector: Selector::named("bank"),
        label: "bank_ctrl".to_string(),
    }
}

fn label(name: &str) -> Statement {
    Statement::LabelStmt(name.to_string())
}

fn plain(op: Op) -> Statement {
    Statement::Instr(vec![], op)
}

fn drain(assembler: &mut Assembler) -> Vec<AssembledItem> {
    assembler.drain()
}

fn is_label(item: &AssembledItem, name: &str) -> bool {
    match item {
        AssembledItem::Label(l) => l == name,
        _ => false,
    }
}

fn is_power(item: &AssembledItem, name: &str, kind: &str) -> bool {
    match item {
        AssembledItem::Pending(l, fill) => l == name && fill.kind == kind,
        _ => false,
    }
}

#[test]
fn interval_needs_a_bound() {
    assert_eq!(Interval::new(Some(1), Some(5)), Some(Interval::Bounded(1, 5)));
    assert_eq!(Interval::new(Some(1), None), Some(Interval::Min(1)));
    assert_eq!(Interval::new(None, Some(5)), Some(Interval::Max(5)));
    assert_eq!(Interval::new(None, None), None);
}

#[test]
fn interval_bounds_are_inclusive() {
    let i = Interval::Bounded(-2, 3);
    assert!(i.includes(-2));
    assert!(i.includes(3));
    assert!(!i.includes(-3));
    assert!(!i.includes(4));
    assert!(Interval::Min(7).includes(i32::MAX));
    assert!(!Interval::Min(7).includes(6));
    assert!(Interval::Max(7).includes(i32::MIN));
    assert!(!Interval::Max(7).includes(8));
}

#[test]
fn registers_have_counter_names() {
    assert_eq!(reg_name(&Register::Gen(0)), "r0");
    assert_eq!(reg_name(&Register::Gen(10)), "r10");
    assert_eq!(reg_name(&Register::Gen(u32::MAX)), "r4294967295");
    assert_eq!(reg_name(&Register::Pred(12)), "p12");
    assert_eq!(reg_name(&Register::Spec("lr".to_string())), "lr");
}

#[test]
fn numbered_labels_are_decimal() {
    assert_eq!(numbered("br_cont_", 0), "br_cont_0");
    assert_eq!(numbered("ldr_cont_", 907), "ldr_cont_907");
    assert_eq!(numbered("", 1000), "1000");
}

#[test]
fn unsigned_bounds_keep_their_bits() {
    assert_eq!(to_signed(0), 0);
    assert_eq!(to_signed(0x7fff_ffff), i32::MAX);
    assert_eq!(to_signed(0x8000_0000), i32::MIN);
    assert_eq!(to_signed(u32::MAX), -1);
}

#[test]
fn conditions_are_intervals() {
    assert_eq!(Cond::eq(Register::Gen(1), 4).interval, Interval::Bounded(4, 4));
    assert_eq!(Cond::lt(Register::Gen(1), 0).interval, Interval::Max(-1));
    assert_eq!(Cond::ge(Register::Gen(1), 0).interval, Interval::Min(0));
    assert_eq!(Cond::bounded(Register::Gen(1), 2, 9).interval, Interval::Bounded(2, 9));
}

#[test]
fn regions_must_end_within_31_bits() {
    assert!(region(0, 0).is_addressable());
    assert!(region(0x10, 0x100).is_addressable());
    assert!(region(0x7fff_fff0, 0xf).is_addressable());
    assert!(!region(0x7fff_fff0, 0x10).is_addressable());
    assert!(!region(0xffff_ffff, 1).is_addressable());
    assert!(!region(0, 0x8000_0000).is_addressable());
}

#[test]
fn programs_without_lowering_are_refused() {
    let computer = no_memory();
    assert!(accepts(&computer, &vec![]));
    assert!(accepts(&computer, &vec![label("main"), plain(Op::Halt)]));
    assert!(!accepts(&computer, &vec![label("main"), plain(Op::Push(Register::Gen(0)))]));
    assert!(!accepts(&computer, &vec![plain(Op::Pop(Register::Gen(0)))]));
}

#[test]
fn memory_access_needs_addressable_regions() {
    let good = Computer { memory: vec![region(0x10, 0x100)] };
    let bad = Computer { memory: vec![region(0x10, 0x100), region(0x7fff_ffff, 2)] };
    let load = || vec![plain(Op::LdrRR(Register::Gen(0), Register::Gen(1)))];
    let store = || vec![plain(Op::StrRR(Register::Gen(0), Register::Gen(1)))];
    assert!(accepts(&good, &load()));
    assert!(accepts(&good, &store()));
    assert!(!accepts(&bad, &load()));
    assert!(!accepts(&bad, &store()));
    // Without a memory access the regions do not matter.
    assert!(accepts(&bad, &vec![plain(Op::MovRI(Register::Gen(0), 1))]));
}

#[test]
fn a_program_ends_with_the_jump_table() {
    let computer = no_memory();
    let mut assembler =
        Assembler::new(&computer, vec![label("main"), plain(Op::MovRI(Register::Gen(0), 7))]);
    let items = drain(&mut assembler);
    assert_eq!(items.len(), 8);
    assert!(is_label(&items[0], "main"));
    assert!(is_power(&items[1], "main", "minecraft:obsidian"));
    match &items[2] {
        AssembledItem::Complete(block) => {
            assert!(!block.track_output);
            assert!(block.stats.is_none());
            match &block.command {
                Command::ScoreSet(Target::Sel(sel), objective, value) => {
                    assert_eq!(sel.name, Some("computer".to_string()));
                    assert_eq!(sel.team, None);
                    assert!(sel.scores.is_empty());
                    assert_eq!(objective, "r0");
                    assert_eq!(*value, 7);
                }
                other => panic!("{:?}", other),
            }
        }
        other => panic!("{:?}", other),
    }
    assert!(matches!(items[3], AssembledItem::Terminal));
    assert!(is_label(&items[4], "@jump_indirect"));
    assert!(is_power(&items[5], "@jump_indirect", "minecraft:obsidian"));
    match &items[6] {
        AssembledItem::Pending(name, fill) => {
            assert_eq!(name, "main");
            assert_eq!(fill.kind, "minecraft:redstone_block");
            assert_eq!(fill.conds.len(), 1);
            assert_eq!(reg_name(&fill.conds[0].reg), "IndAddr");
            assert_eq!(fill.conds[0].interval, Interval::Bounded(1, 1));
        }
        other => panic!("{:?}", other),
    }
    assert!(matches!(items[7], AssembledItem::Terminal));
    // Nothing follows the end.
    assert!(assembler.next().is_none());
    assert!(assembler.next().is_none());
}

#[test]
fn an_empty_program_still_ends() {
    let computer = no_memory();
    let mut assembler = Assembler::new(&computer, vec![]);
    let items = drain(&mut assembler);
    assert_eq!(items.len(), 4);
    assert!(matches!(items[0], AssembledItem::Terminal));
    assert!(is_label(&items[1], "@jump_indirect"));
    assert!(is_power(&items[2], "@jump_indirect", "minecraft:obsidian"));
    assert!(matches!(items[3], AssembledItem::Terminal));
}

#[test]
fn labels_at_one_point_share_an_address() {
    let computer = no_memory();
    let mut assembler = Assembler::new(
        &computer,
        vec![label("a"), label("b"), plain(Op::Halt), label("c"), plain(Op::Halt)],
    );
    // The first item comes once the first operation is assembled.
    let first = assembler.next().unwrap();
    assert!(is_label(&first, "a"));
    let a = assembler.find_label_addr(&"a".to_string());
    let b = assembler.find_label_addr(&"b".to_string());
    assert_eq!(a, Some(1));
    assert_eq!(b, Some(1));
    assert_eq!(assembler.find_label_addr(&"c".to_string()), None);
    // Label b, the power-off item and the halt; then c is assembled.
    assert!(is_label(&assembler.next().unwrap(), "b"));
    assert!(is_power(&assembler.next().unwrap(), "a", "minecraft:obsidian"));
    assert!(matches!(assembler.next().unwrap(), AssembledItem::Terminal));
    assert!(is_label(&assembler.next().unwrap(), "c"));
    assert_eq!(assembler.find_label_addr(&"a".to_string()), Some(1));
    assert_eq!(assembler.find_label_addr(&"c".to_string()), Some(2));
}

#[test]
fn the_order_of_declaration_does_not_matter() {
    let computer = no_memory();
    let mut assembler =
        Assembler::new(&computer, vec![label("b"), label("a"), plain(Op::Halt)]);
    assert!(is_label(&assembler.next().unwrap(), "b"));
    let a = assembler.find_label_addr(&"a".to_string());
    let b = assembler.find_label_addr(&"b".to_string());
    assert_eq!(a, b);
    assert_eq!(a, Some(1));
}

#[test]
fn a_linked_label_keeps_its_address() {
    let computer = no_memory();
    let mut assembler = Assembler::new(
        &computer,
        vec![
            label("main"),
            plain(Op::BrLnkL("sub".to_string())),
            label("after"),
            plain(Op::Halt),
        ],
    );
    let first = assembler.next().unwrap();
    assert!(is_label(&first, "main"));
    // main has address 1; the label behind the branch got 2 for the link.
    assert_eq!(assembler.find_label_addr(&"br_cont_0".to_string()), Some(2));
    let mut items = vec![first];
    while items.len() < 9 {
        items.push(assembler.next().unwrap());
    }
    // t0 = 0, t0 = 1, lr = 2, power sub, power br_cont_0, end of pulse.
    match &items[4] {
        AssembledItem::Complete(block) => match &block.command {
            Command::Execute(_, inner) => match &**inner {
                Command::ScoreSet(_, objective, value) => {
                    assert_eq!(objective, "lr");
                    assert_eq!(*value, 2);
                }
                other => panic!("{:?}", other),
            },
            other => panic!("{:?}", other),
        },
        other => panic!("{:?}", other),
    }
    assert!(is_power(&items[5], "sub", "minecraft:redstone_block"));
    assert!(is_power(&items[6], "br_cont_0", "minecraft:redstone_block"));
    assert!(matches!(items[7], AssembledItem::Terminal));
    assert!(is_label(&items[8], "br_cont_0"));
    // The label declared behind the branch shares the address of the link.
    assert_eq!(assembler.find_label_addr(&"after".to_string()), Some(2));
    assert_eq!(assembler.find_label_addr(&"br_cont_0".to_string()), Some(2));
}

#[test]
fn the_jump_table_ascends() {
    let computer = no_memory();
    let mut assembler = Assembler::new(
        &computer,
        vec![
            label("main"),
            plain(Op::BrLnkL("x".to_string())),
            plain(Op::BrLnkL("y".to_string())),
            label("x"),
            label("y"),
            plain(Op::Halt),
        ],
    );
    let items = drain(&mut assembler);
    let at = items.iter().position(|i| is_label(i, "@jump_indirect")).unwrap();
    let mut addrs = Vec::new();
    for item in items[at..].iter() {
        if let AssembledItem::Pending(_, fill) = item {
            if fill.kind == "minecraft:redstone_block" {
                match fill.conds[0].interval {
                    Interval::Bounded(lo, hi) => {
                        assert_eq!(lo, hi);
                        addrs.push(lo);
                    }
                    other => panic!("{:?}", other),
                }
            }
        }
    }
    // main, br_cont_0, br_cont_1 with x and y.
    assert_eq!(addrs, vec![1, 2, 3, 3, 3]);
}

#[test]
fn flags_follow_the_instructions() {
    let computer = Computer { memory: vec![region(0x10, 0x100)] };
    let mut assembler = Assembler::new(
        &computer,
        vec![
            plain(Op::MovRI(Register::Gen(0), 1)),
            plain(Op::AndRR(Register::Gen(0), Register::Gen(1))),
            plain(Op::LdrRR(Register::Gen(0), Register::Gen(1))),
        ],
    );
    assert!(!assembler.uses_memory());
    assert!(!assembler.uses_bitwise());
    assert!(assembler.next().is_some());
    assert!(!assembler.uses_memory());
    assert!(!assembler.uses_bitwise());
    drain(&mut assembler);
    assert!(assembler.uses_memory());
    assert!(assembler.uses_bitwise());
}

#[test]
fn blocks_record_output_on_request() {
    let computer = no_memory();
    let mut assembler =
        Assembler::new(&computer, vec![plain(Op::MovRI(Register::Gen(0), 1))]);
    assembler.set_track_output(true);
    match assembler.next().unwrap() {
        AssembledItem::Complete(block) => assert!(block.track_output),
        other => panic!("{:?}", other),
    }
}

#[test]
fn guards_become_tests_of_the_control_entity() {
    let conds = vec![Cond::lt(Register::Gen(3), 0), Cond::eq(Register::Pred(9), 5)];
    let block = make_cmd_block(
        Selector::named("computer"),
        &conds,
        Command::Raw("say hi".to_string()),
        false,
    );
    match block.command {
        Command::Execute(Target::Sel(sel), inner) => {
            assert_eq!(sel.name, Some("computer".to_string()));
            assert_eq!(sel.scores.len(), 2);
            assert_eq!(sel.scores[0].objective, "r3");
            assert_eq!(sel.scores[0].interval, Interval::Max(-1));
            assert_eq!(sel.scores[1].objective, "p9");
            assert_eq!(sel.scores[1].interval, Interval::Bounded(5, 5));
            assert!(matches!(*inner, Command::Raw(_)));
        }
        other => panic!("{:?}", other),
    }
    let bare = make_cmd_block(
        Selector::named("computer"),
        &vec![],
        Command::Raw("say hi".to_string()),
        true,
    );
    assert!(matches!(bare.command, Command::Raw(_)));
    assert!(bare.track_output);
}

#[test]
fn stats_name_the_counters_of_registers() {
    let stats = make_command_stats(
        Target::Raw("someone".to_string()),
        vec![
            (CommandBlockOut::SuccessCount, Register::Gen(2)),
            (CommandBlockOut::QueryResult, Register::Spec("q".to_string())),
        ],
    );
    assert!(matches!(stats.target, Target::Raw(_)));
    assert_eq!(stats.outs.len(), 2);
    assert_eq!(stats.outs[0].out, CommandBlockOut::SuccessCount);
    assert_eq!(stats.outs[0].objective, "r2");
    assert_eq!(stats.outs[1].out, CommandBlockOut::QueryResult);
    assert_eq!(stats.outs[1].objective, "q");
}

#[test]
fn raw_commands_pass_through() {
    let computer = no_memory();
    let mut assembler = Assembler::new(
        &computer,
        vec![plain(Op::RawCmd(
            vec![(CommandBlockOut::AffectedBlocks, Register::Gen(5))],
            "fill ~ ~ ~ ~ ~ ~ stone".to_string(),
        ))],
    );
    match assembler.next().unwrap() {
        AssembledItem::Complete(block) => {
            match &block.command {
                Command::Raw(text) => assert_eq!(text, "fill ~ ~ ~ ~ ~ ~ stone"),
                other => panic!("{:?}", other),
            }
            let stats = block.stats.unwrap();
            assert_eq!(stats.outs.len(), 1);
            assert_eq!(stats.outs[0].out, CommandBlockOut::AffectedBlocks);
            assert_eq!(stats.outs[0].objective, "r5");
        }
        other => panic!("{:?}", other),
    }
}

#[test]
fn a_deferred_block_fills_its_extent() {
    let computer = no_memory();
    let mut assembler =
        Assembler::new(&computer, vec![plain(Op::BrL("there".to_string()))]);
    let items = drain(&mut assembler);
    let fill = items
        .into_iter()
        .find_map(|i| match i {
            AssembledItem::Pending(name, fill) if name == "there" => Some(fill),
            _ => None,
        })
        .unwrap();
    let min = Pos { x: 1, y: 2, z: 3 };
    let max = Pos { x: 4, y: 5, z: 6 };
    let block = fill.resolve(Extent::MinMax(min, max));
    match block.command {
        Command::Execute(Target::Sel(sel), inner) => {
            assert_eq!(sel.scores.len(), 1);
            assert_eq!(sel.scores[0].objective, "t0");
            assert_eq!(sel.scores[0].interval, Interval::Bounded(1, 1));
            match *inner {
                Command::Fill(a, b, kind) => {
                    assert_eq!(a, min);
                    assert_eq!(b, max);
                    assert_eq!(kind, "minecraft:redstone_block");
                }
                other => panic!("{:?}", other),
            }
        }
        other => panic!("{:?}", other),
    }
}

#[test]
fn a_region_is_guarded_by_its_addresses() {
    let computer = Computer { memory: vec![region(0x10, 0x100)] };
    let mut assembler = Assembler::new(
        &computer,
        vec![plain(Op::StrRR(Register::Gen(0), Register::Gen(1)))],
    );
    match assembler.next().unwrap() {
        AssembledItem::Complete(block) => match block.command {
            Command::Execute(Target::Sel(guard), inner) => {
                assert_eq!(guard.scores.len(), 1);
                assert_eq!(guard.scores[0].objective, "r1");
                assert_eq!(guard.scores[0].interval, Interval::Bounded(0x10, 0x10f));
                match *inner {
                    Command::ScoreSet(Target::Sel(sel), objective, id) => {
                        assert_eq!(sel.name, Some("bank".to_string()));
                        assert_eq!(objective, "MemTag");
                        assert_eq!(id, 0);
                    }
                    other => panic!("{:?}", other),
                }
            }
            other => panic!("{:?}", other),
        },
        other => panic!("{:?}", other),
    }
}

#[test]
fn the_operations_of_a_division_are_counted() {
    let computer = no_memory();
    let count = |op: Op| {
        let mut assembler = Assembler::new(&computer, vec![plain(op)]);
        let mut n = 0;
        while let Some(item) = assembler.next() {
            if let AssembledItem::Complete(_) = item {
                n += 1;
            }
        }
        n
    };
    assert_eq!(count(Op::UdivRR(Register::Gen(0), Register::Gen(1))), 21);
    assert_eq!(count(Op::UremRR(Register::Gen(0), Register::Gen(1))), 16);
    assert_eq!(count(Op::AndRR(Register::Gen(0), Register::Gen(1))), 14);
    assert_eq!(count(Op::EorRR(Register::Gen(0), Register::Gen(1))), 15);
    assert_eq!(count(Op::AsrRR(Register::Gen(0), Register::Gen(1))), 8);
    assert_eq!(count(Op::LslRR(Register::Gen(0), Register::Gen(1))), 4);
    assert_eq!(count(Op::Srng(Register::Gen(0), Register::Gen(1), Some(1), None)), 2);
    assert_eq!(count(Op::Srng(Register::Gen(0), Register::Gen(0), Some(1), None)), 3);
    assert_eq!(count(Op::AddRR(Register::Gen(0), Register::Gen(1))), 1);
    assert_eq!(count(Op::AddRI(Register::Gen(0), 1)), 1);
    // PlayerOp is the arithmetic of one operation.
    assert_ne!(PlayerOp::Add, PlayerOp::Sub);
}

#[test]
fn an_assembler_is_made_only_for_what_it_can_assemble() {
    let computer = no_memory();
    assert!(Assembler::try_new(&computer, vec![plain(Op::Halt)]).is_some());
    assert!(Assembler::try_new(&computer, vec![]).is_some());
    assert!(Assembler::try_new(&computer, vec![plain(Op::Push(Register::Gen(1)))]).is_none());
    let bad = Computer { memory: vec![region(0x7fff_ffff, 1)] };
    assert!(Assembler::try_new(
        &bad,
        vec![plain(Op::LdrRR(Register::Gen(0), Register::Gen(1)))]
    )
    .is_none());
    assert!(Assembler::try_new(&bad, vec![plain(Op::Halt)]).is_some());
}

#[test]
fn draining_hands_out_what_next_hands_out() {
    let computer = Computer { memory: vec![region(0x10, 0x100)] };
    let program = || {
        vec![
            label("main"),
            plain(Op::MovRI(Register::Gen(0), 0x20)),
            plain(Op::LdrRR(Register::Gen(1), Register::Gen(0))),
            plain(Op::BrLnkR(Register::Gen(1))),
            label("end"),
            plain(Op::Halt),
        ]
    };
    let mut one = Assembler::new(&computer, program());
    let mut by_next = Vec::new();
    while let Some(item) = one.next() {
        by_next.push(format!("{:?}", item));
    }
    let mut two = Assembler::new(&computer, program());
    // Part of the items by next, the rest at once.
    let mut mixed = Vec::new();
    for _ in 0..3 {
        mixed.push(format!("{:?}", two.next().unwrap()));
    }
    for item in two.drain().iter() {
        mixed.push(format!("{:?}", item));
    }
    assert_eq!(by_next, mixed);
    assert!(two.next().is_none());
    assert!(two.drain().is_empty());
}
