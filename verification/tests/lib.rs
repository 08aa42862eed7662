// The tests assemble small programs and run the resulting items on a
// simulated machine: one control entity, 32 bit lanes and one memory
// controller per region.

use std::collections::HashMap;

use sbbm_asm::assembler::{accepts, Assembler};
use sbbm_asm::ast::{Cond, Op, Register, Statement};
use sbbm_asm::block::AssembledItem;
use sbbm_asm::commands::{Command, PlayerOp, Selector, Target};
use sbbm_asm::hw::{Computer, MemoryRegion};
use sbbm_asm::types::{Extent, Interval, Pos};

struct Entity {
    name: Option<String>,
    team: Option<String>,
    scores: HashMap<String, i32>,
}

impl Entity {
    fn score(&self, objective: &str) -> i32 {
        match self.scores.get(objective) {
            Some(v) => *v,
            None => 0,
        }
    }
}

struct Server {
    computer: Computer,
    entities: Vec<Entity>,
    cells: HashMap<i32, i32>,
}

fn includes(interval: &Interval, v: i32) -> bool {
    match *interval {
        Interval::Min(lo) => lo <= v,
        Interval::Max(hi) => v <= hi,
        Interval::Bounded(lo, hi) => lo <= v && v <= hi,
    }
}

fn apply(op: PlayerOp, a: i32, b: i32) -> i32 {
    match op {
        PlayerOp::Add => a.wrapping_add(b),
        PlayerOp::Sub => a.wrapping_sub(b),
        PlayerOp::Mul => a.wrapping_mul(b),
        PlayerOp::Div => {
            if b == 0 {
                a
            } else {
                a.wrapping_div(b)
            }
        }
        PlayerOp::Rem => {
            if b == 0 {
                a
            } else {
                a.wrapping_rem(b)
            }
        }
        PlayerOp::Asn => b,
        PlayerOp::Min => {
            if a <= b {
                a
            } else {
                b
            }
        }
        PlayerOp::Max => {
            if a >= b {
                a
            } else {
                b
            }
        }
    }
}

impl Server {
    fn new() -> Server {
        let mut entities = Vec::new();
        let mut scores = HashMap::new();
        scores.insert("MIN".to_string(), i32::MIN);
        scores.insert("TWO".to_string(), 2);
        scores.insert("ZERO".to_string(), 0);
        entities.push(Entity { name: Some("computer".to_string()), team: None, scores });
        for k in 0..32 {
            let mut scores = HashMap::new();
            scores.insert("BitNumber".to_string(), k);
            scores.insert("BitComponent".to_string(), 1i32.wrapping_shl(k as u32));
            entities.push(Entity { name: None, team: Some("Shifters".to_string()), scores });
        }
        entities.push(Entity {
            name: Some("mem0".to_string()),
            team: None,
            scores: HashMap::new(),
        });
        let computer = Computer {
            memory: vec![MemoryRegion {
                start: 0x10,
                size: 0x100,
                selector: Selector::named("mem0"),
                label: "mem0_ctrl".to_string(),
            }],
        };
        Server { computer, entities, cells: HashMap::new() }
    }

    fn get_computer(&self, objective: &str) -> Option<i32> {
        self.entities[0].scores.get(objective).cloned()
    }

    fn matches(&self, sel: &Selector, index: usize) -> bool {
        let e = &self.entities[index];
        if let Some(name) = &sel.name {
            if e.name.as_ref() != Some(name) {
                return false;
            }
        }
        if let Some(team) = &sel.team {
            if e.team.as_ref() != Some(team) {
                return false;
            }
        }
        // An entity without a value for a counter passes no test on it.
        sel.scores.iter().all(|t| match e.scores.get(&t.objective) {
            Some(v) => includes(&t.interval, *v),
            None => false,
        })
    }

    fn select(&self, target: &Target, actor: Option<usize>) -> Vec<usize> {
        let sel = match target {
            Target::Sel(sel) => sel,
            Target::Raw(_) => return vec![],
        };
        let all: Vec<usize> =
            (0..self.entities.len()).filter(|i| self.matches(sel, *i)).collect();
        if !sel.single {
            return all;
        }
        if let Some(a) = actor {
            if self.matches(sel, a) {
                return vec![a];
            }
        }
        all.into_iter().take(1).collect()
    }

    fn exec(&mut self, cmd: &Command, actor: Option<usize>, powered: &mut Vec<usize>) -> i32 {
        match cmd {
            Command::ScoreSet(t, obj, v) => {
                let targets = self.select(t, actor);
                for i in targets.iter() {
                    self.entities[*i].scores.insert(obj.clone(), *v);
                }
                targets.len() as i32
            }
            Command::ScoreAdd(t, obj, v) => {
                let targets = self.select(t, actor);
                for i in targets.iter() {
                    let old = self.entities[*i].score(obj);
                    self.entities[*i].scores.insert(obj.clone(), old.wrapping_add(*v));
                }
                targets.len() as i32
            }
            Command::ScoreRemove(t, obj, v) => {
                let targets = self.select(t, actor);
                for i in targets.iter() {
                    let old = self.entities[*i].score(obj);
                    self.entities[*i].scores.insert(obj.clone(), old.wrapping_sub(*v));
                }
                targets.len() as i32
            }
            Command::ScoreOp(lt, lobj, op, rt, robj) => {
                let sources = self.select(rt, actor);
                if sources.is_empty() {
                    return 0;
                }
                let targets = self.select(lt, actor);
                for i in targets.iter() {
                    let rhs = self.entities[sources[0]].score(robj);
                    let old = self.entities[*i].score(lobj);
                    self.entities[*i].scores.insert(lobj.clone(), apply(*op, old, rhs));
                }
                targets.len() as i32
            }
            Command::Fill(min, _, kind) => {
                if kind == "minecraft:redstone_block" {
                    powered.push(min.x as usize);
                }
                1
            }
            Command::Execute(t, inner) => {
                let actors = self.select(t, actor);
                let mut count = 0;
                for a in actors.iter() {
                    count += self.exec(inner, Some(*a), powered);
                }
                count
            }
            Command::Raw(_) => 0,
        }
    }

    // The memory controller of a region: it serves the request that its
    // entity holds.
    fn serve_memory(&mut self) {
        let index = self.entities.len() - 1;
        let op = self.entities[index].score("MemOp");
        let addr = self.entities[index].score("MemAddr");
        if op == 1 {
            let data = self.entities[index].score("MemData");
            self.cells.insert(addr, data);
        } else {
            let data = match self.cells.get(&addr) {
                Some(v) => *v,
                None => 0,
            };
            self.entities[index].scores.insert("MemData".to_string(), data);
        }
    }

    fn run(&mut self, program: Vec<Statement>) {
        assert!(accepts(&self.computer, &program));
        let computer = Computer {
            memory: vec![MemoryRegion {
                start: 0x10,
                size: 0x100,
                selector: Selector::named("mem0"),
                label: "mem0_ctrl".to_string(),
            }],
        };
        let mut assembler = Assembler::new(&computer, program);
        let mut items = Vec::new();
        while let Some(item) = assembler.next() {
            items.push(item);
        }

        // Every label gets a number, which stands for its extent.
        let mut labels: Vec<String> = vec!["mem0_ctrl".to_string()];
        let mut starts: HashMap<usize, usize> = HashMap::new();
        let mut number = |labels: &mut Vec<String>, name: &String| -> usize {
            match labels.iter().position(|l| l == name) {
                Some(i) => i,
                None => {
                    labels.push(name.clone());
                    labels.len() - 1
                }
            }
        };
        enum Step {
            Label,
            Run(sbbm_asm::block::Block),
            Terminal,
        }
        let mut steps = Vec::new();
        for item in items.into_iter() {
            match item {
                AssembledItem::Label(name) => {
                    let n = number(&mut labels, &name);
                    starts.insert(n, steps.len());
                    steps.push(Step::Label);
                }
                AssembledItem::Complete(block) => steps.push(Step::Run(block)),
                AssembledItem::Pending(name, fill) => {
                    let n = number(&mut labels, &name) as i32;
                    let at = Pos { x: n, y: 0, z: 0 };
                    steps.push(Step::Run(fill.resolve(Extent::MinMax(at, at))));
                }
                AssembledItem::Terminal => steps.push(Step::Terminal),
            }
        }

        let main = labels.iter().position(|l| l == "main").unwrap();
        let mut powered = vec![main];
        let mut ticks = 0;
        while !powered.is_empty() {
            ticks += 1;
            assert!(ticks < 1000);
            let now = powered;
            powered = Vec::new();
            for label in now.into_iter() {
                if label == 0 {
                    self.serve_memory();
                    continue;
                }
                let mut pc = match starts.get(&label) {
                    Some(pc) => *pc,
                    None => continue,
                };
                while pc < steps.len() {
                    match &steps[pc] {
                        Step::Label => {}
                        Step::Terminal => break,
                        Step::Run(block) => {
                            let count = self.exec(&block.command, None, &mut powered);
                            if let Some(stats) = &block.stats {
                                let targets = self.select(&stats.target, None);
                                for out in stats.outs.iter() {
                                    for i in targets.iter() {
                                        self.entities[*i]
                                            .scores
                                            .insert(out.objective.clone(), count);
                                    }
                                }
                            }
                        }
                    }
                    pc += 1;
                }
            }
        }
    }

    fn run_asm(&mut self, body: Vec<Statement>) {
        let mut program = vec![Statement::LabelStmt("main".to_string())];
        program.extend(body);
        self.run(program);
    }
}

fn r(n: u32) -> Register {
    Register::Gen(n)
}

fn ins(op: Op) -> Statement {
    Statement::Instr(vec![], op)
}

fn mov(reg: u32, value: i32) -> Statement {
    ins(Op::MovRI(r(reg), value))
}

#[test]
fn test_constant_regs() {
    let server = Server::new();

    assert_eq!(i32::MIN, server.get_computer("MIN").unwrap());
    assert_eq!(2, server.get_computer("TWO").unwrap());
    assert_eq!(0, server.get_computer("ZERO").unwrap());
}

#[test]
fn test_add() {
    let mut server = Server::new();

    server.run_asm(vec![mov(0, 100), mov(1, 37), ins(Op::AddRR(r(0), r(1)))]);

    assert_eq!(100 + 37, server.get_computer("r0").unwrap());
}

#[test]
fn test_sub() {
    let mut server = Server::new();

    server.run_asm(vec![mov(0, 100), mov(1, 37), ins(Op::SubRR(r(0), r(1)))]);

    assert_eq!(100 - 37, server.get_computer("r0").unwrap());
}

#[test]
fn test_mul() {
    let mut server = Server::new();

    server.run_asm(vec![mov(0, 100), mov(1, 37), ins(Op::MulRR(r(0), r(1)))]);

    assert_eq!(100 * 37, server.get_computer("r0").unwrap());
}

#[test]
fn test_sdiv() {
    let mut server = Server::new();

    server.run_asm(vec![mov(0, 100), mov(1, 37), ins(Op::SdivRR(r(0), r(1)))]);

    assert_eq!(100 / 37, server.get_computer("r0").unwrap());
}

#[test]
fn test_udiv() {
    let mut server = Server::new();

    let values = [
        i32::MIN, -1234568, -1234567, -33, -32, -3, -2, -1,
        1, 2, 3, 32, 33, 1234567, 1234568, i32::MAX];

    for left in values.iter() {
        for right in values.iter() {
            server.run_asm(vec![mov(0, *left), mov(1, *right), ins(Op::UdivRR(r(0), r(1)))]);

            assert_eq!(
                ((*left as u32) / (*right as u32)) as i32,
                server.get_computer("r0").unwrap());
        }
    }
}

#[test]
fn test_srem() {
    let mut server = Server::new();

    server.run_asm(vec![mov(0, 100), mov(1, 37), ins(Op::SremRR(r(0), r(1)))]);

    assert_eq!(100 % 37, server.get_computer("r0").unwrap());
}

#[test]
fn test_urem() {
    let mut server = Server::new();

    let values = [
        i32::MIN, -1234568, -1234567, -33, -32, -3, -2,
        -1,
        1, 2, 3, 32, 33, 1234567, 1234568, i32::MAX];

    for left in values.iter() {
        for right in values.iter() {
            server.run_asm(vec![mov(0, *left), mov(1, *right), ins(Op::UremRR(r(0), r(1)))]);

            assert_eq!(
                ((*left as u32) % (*right as u32)) as i32,
                server.get_computer("r0").unwrap());
        }
    }
}

#[test]
fn test_and() {
    let mut server = Server::new();

    let values = [
        i32::MIN, -1234568, -1234567, -1,
        0, 1, 1234567, 1234568, i32::MAX];

    for left in values.iter() {
        for right in values.iter() {
            server.run_asm(vec![mov(0, *left), mov(1, *right), ins(Op::AndRR(r(0), r(1)))]);

            assert_eq!(left & right, server.get_computer("r0").unwrap());
        }
    }
}

#[test]
fn test_orr() {
    let mut server = Server::new();

    let values = [
        i32::MIN, -1234568, -1234567, -1,
        0, 1, 1234567, 1234568, i32::MAX];

    for left in values.iter() {
        for right in values.iter() {
            server.run_asm(vec![mov(0, *left), mov(1, *right), ins(Op::OrrRR(r(0), r(1)))]);

            assert_eq!(left | right, server.get_computer("r0").unwrap());
        }
    }
}

#[test]
fn test_eor() {
    let mut server = Server::new();

    let values = [
        i32::MIN, -1234568, -1234567, -1,
        0, 1, 1234567, 1234568, i32::MAX];

    for left in values.iter() {
        for right in values.iter() {
            server.run_asm(vec![mov(0, *left), mov(1, *right), ins(Op::EorRR(r(0), r(1)))]);

            assert_eq!(left ^ right, server.get_computer("r0").unwrap());
        }
    }
}

#[test]
fn test_asr() {
    let mut server = Server::new();

    let values = [
        i32::MIN, -1234568, -1234567, -3, -2, -1,
        0, 1, 2, 3, 1234567, 1234568, i32::MAX];
    let amounts = [0, 1, 2, 30, 31];

    for value in values.iter() {
        for amount in amounts.iter() {
            server.run_asm(vec![mov(0, *value), mov(1, *amount), ins(Op::AsrRR(r(0), r(1)))]);

            assert_eq!(value >> amount, server.get_computer("r0").unwrap());
        }
    }
}

#[test]
fn test_lsr() {
    let mut server = Server::new();

    let values = [
        i32::MIN, -1234568, -1234567, -3, -2, -1,
        0, 1, 2, 3, 1234567, 1234568, i32::MAX];
    let amounts = [0, 1, 2, 30, 31];

    for value in values.iter() {
        for amount in amounts.iter() {
            server.run_asm(vec![mov(0, *value), mov(1, *amount), ins(Op::LsrRR(r(0), r(1)))]);

            assert_eq!(
                ((*value as u32) >> amount) as i32,
                server.get_computer("r0").unwrap());
        }
    }
}

#[test]
fn test_lsl() {
    let mut server = Server::new();

    let values = [
        i32::MIN, -1234568, -1234567, -3, -2, -1,
        0, 1, 2, 3, 1234567, 1234568, i32::MAX];
    let amounts = [0, 1, 2, 30, 31];

    for value in values.iter() {
        for amount in amounts.iter() {
            server.run_asm(vec![mov(0, *value), mov(1, *amount), ins(Op::LslRR(r(0), r(1)))]);

            assert_eq!(value << amount, server.get_computer("r0").unwrap());
        }
    }
}

#[test]
fn test_urng() {
    let mut server = Server::new();

    let data = [
        ((0u32, 100u32),
         vec!((0, 1), (10, 1), (100, 1), (-1, 0), (500, 0))),
        ((u32::MAX - 2, u32::MAX),
         vec!((-4, 0), (-3, 1), (-2, 1), (-1, 1), (0, 0))),
        ((1u32 << 30, 1u32 << 31),
         vec!((-1, 0), (i32::MAX, 1), (i32::MIN, 1))),
    ];

    for &((min, max), ref in_outs) in data.iter() {
        for &(input, output) in in_outs.iter() {
            server.run_asm(vec![
                mov(0, input),
                ins(Op::Urng(r(0), r(0), Some(min), Some(max))),
            ]);

            assert_eq!(output, server.get_computer("r0").unwrap());
        }
    }
}

#[test]
#[allow(overflowing_literals)]
fn test_ldr_str() {
    let mut server = Server::new();

    let addr_val = [
        (0x10, 1),
        (0x14, -1),
        (0x18, 0xfedcba97),
        (0x1c, 0x12345678),
        (0x20, 0),
        (0x10c, 0xedbca987),
    ];

    for &(addr, value) in addr_val.iter() {
        server.run_asm(vec![mov(0, value), mov(1, addr), ins(Op::StrRR(r(0), r(1)))]);
    }

    for &(addr, value) in addr_val.iter() {
        server.run_asm(vec![mov(0, addr), ins(Op::LdrRR(r(1), r(0)))]);

        assert_eq!(value, server.get_computer("r1").unwrap());
    }
}

#[test]
fn test_br_r() {
    let mut server = Server::new();
    server.run(vec![
        Statement::LabelStmt("foo".to_string()),
        mov(1, 0),
        mov(0, 1234),
        ins(Op::BrR(Register::Spec("lr".to_string()))),
        Statement::LabelStmt("main".to_string()),
        mov(0, 0),
        ins(Op::BrLnkL("foo".to_string())),
        mov(1, 5678),
    ]);

    assert_eq!(1234, server.get_computer("r0").unwrap());
    assert_eq!(5678, server.get_computer("r1").unwrap());
}

#[test]
fn guard_skips_instruction() {
    let mut server = Server::new();
    server.run_asm(vec![
        mov(0, 5),
        mov(1, 7),
        Statement::Instr(vec![Cond::eq(r(1), 8)], Op::MovRI(r(0), 99)),
    ]);
    assert_eq!(5, server.get_computer("r0").unwrap());
    server.run_asm(vec![
        mov(0, 5),
        mov(1, 7),
        Statement::Instr(vec![Cond::eq(r(1), 7)], Op::MovRI(r(0), 99)),
    ]);
    assert_eq!(99, server.get_computer("r0").unwrap());
}

#[test]
fn srng_tests_signed_ranges() {
    let mut server = Server::new();
    let cases = [
        (Some(-5), Some(5), vec![(-6, 0), (-5, 1), (0, 1), (5, 1), (6, 0)]),
        (Some(10), None, vec![(9, 0), (10, 1), (i32::MAX, 1), (i32::MIN, 0)]),
        (None, Some(-10), vec![(-9, 0), (-10, 1), (i32::MIN, 1), (i32::MAX, 0)]),
        (None, None, vec![(0, 1), (i32::MIN, 1), (i32::MAX, 1)]),
    ];
    for (min, max, in_outs) in cases.iter() {
        for &(input, output) in in_outs.iter() {
            // The register under test is another one than the destination.
            server.run_asm(vec![mov(1, input), ins(Op::Srng(r(0), r(1), *min, *max))]);
            assert_eq!(output, server.get_computer("r0").unwrap());
            assert_eq!(input, server.get_computer("r1").unwrap());
            // The register under test is the destination.
            server.run_asm(vec![mov(0, input), ins(Op::Srng(r(0), r(0), *min, *max))]);
            assert_eq!(output, server.get_computer("r0").unwrap());
        }
    }
}

#[test]
fn urng_tests_open_unsigned_ranges() {
    let mut server = Server::new();
    let cases = [
        (None, Some(5u32), vec![(0, 1), (5, 1), (6, 0), (-1, 0)]),
        (Some(5u32), None, vec![(4, 0), (5, 1), (-1, 1), (i32::MIN, 1)]),
        (Some(0x8000_0000u32), None, vec![(i32::MAX, 0), (i32::MIN, 1), (-1, 1)]),
        (None, Some(0x7fff_ffffu32), vec![(i32::MAX, 1), (0, 1), (i32::MIN, 0), (-1, 0)]),
        (None, None, vec![(0, 1), (-1, 1), (i32::MIN, 1)]),
    ];
    for (min, max, in_outs) in cases.iter() {
        for &(input, output) in in_outs.iter() {
            server.run_asm(vec![mov(1, input), ins(Op::Urng(r(0), r(1), *min, *max))]);
            assert_eq!(output, server.get_computer("r0").unwrap());
        }
    }
}

#[test]
fn bitwise_operations_on_one_register() {
    let mut server = Server::new();
    for value in [-1, 0, 1, i32::MIN, i32::MAX, 0x5555_5555].iter() {
        server.run_asm(vec![mov(0, *value), ins(Op::AndRR(r(0), r(0)))]);
        assert_eq!(*value, server.get_computer("r0").unwrap());
        server.run_asm(vec![mov(0, *value), ins(Op::OrrRR(r(0), r(0)))]);
        assert_eq!(*value, server.get_computer("r0").unwrap());
        server.run_asm(vec![mov(0, *value), ins(Op::EorRR(r(0), r(0)))]);
        assert_eq!(0, server.get_computer("r0").unwrap());
    }
}

#[test]
fn a_branch_that_is_not_taken_goes_on() {
    let mut server = Server::new();
    server.run(vec![
        Statement::LabelStmt("main".to_string()),
        mov(0, 1),
        mov(1, 0),
        Statement::Instr(vec![Cond::eq(r(0), 2)], Op::BrL("away".to_string())),
        mov(1, 10),
        ins(Op::Halt),
        Statement::LabelStmt("away".to_string()),
        mov(1, 20),
    ]);
    assert_eq!(10, server.get_computer("r1").unwrap());
    server.run(vec![
        Statement::LabelStmt("main".to_string()),
        mov(0, 2),
        mov(1, 0),
        Statement::Instr(vec![Cond::eq(r(0), 2)], Op::BrL("away".to_string())),
        mov(1, 10),
        ins(Op::Halt),
        Statement::LabelStmt("away".to_string()),
        mov(1, 20),
    ]);
    assert_eq!(20, server.get_computer("r1").unwrap());
}

#[test]
fn a_link_returns_behind_the_branch() {
    let mut server = Server::new();
    server.run(vec![
        Statement::LabelStmt("twice".to_string()),
        ins(Op::AddRR(r(0), r(0))),
        ins(Op::BrR(Register::Spec("lr".to_string()))),
        Statement::LabelStmt("main".to_string()),
        mov(0, 3),
        ins(Op::BrLnkL("twice".to_string())),
        ins(Op::BrLnkL("twice".to_string())),
        ins(Op::AddRI(r(0), 1)),
    ]);
    assert_eq!(13, server.get_computer("r0").unwrap());
}

#[test]
fn memory_keeps_what_was_stored_last() {
    let mut server = Server::new();
    server.run_asm(vec![mov(0, 11), mov(1, 0x10), ins(Op::StrRR(r(0), r(1)))]);
    server.run_asm(vec![mov(0, 22), mov(1, 0x10f), ins(Op::StrRR(r(0), r(1)))]);
    server.run_asm(vec![mov(0, 33), mov(1, 0x10), ins(Op::StrRR(r(0), r(1)))]);
    server.run_asm(vec![mov(0, 0x10), ins(Op::LdrRR(r(2), r(0)))]);
    assert_eq!(33, server.get_computer("r2").unwrap());
    server.run_asm(vec![mov(0, 0x10f), ins(Op::LdrRR(r(2), r(0)))]);
    assert_eq!(22, server.get_computer("r2").unwrap());
}

#[test]
fn immediates_add_and_subtract() {
    let mut server = Server::new();
    server.run_asm(vec![mov(0, i32::MAX), ins(Op::AddRI(r(0), 1))]);
    assert_eq!(i32::MIN, server.get_computer("r0").unwrap());
    server.run_asm(vec![mov(0, i32::MIN), ins(Op::SubRI(r(0), 1))]);
    assert_eq!(i32::MAX, server.get_computer("r0").unwrap());
    server.run_asm(vec![mov(0, 5), ins(Op::MovRR(r(1), r(0)))]);
    assert_eq!(5, server.get_computer("r1").unwrap());
}
