//! Lowering of a small RISC-like instruction set to guarded operations on
//! named counters, for a machine that knows nothing but counters attached
//! to entities, guards on their values, and pulses of execution.
//!
//! The assembler ([`assembler`]) takes one statement at a time and hands out
//! items ([`block`]): resolved operations ([`commands`]), operations that
//! wait for the extent of a program point, labels, and ends of pulses. What
//! it emits is stated over its state as a mathematical value ([`state`]),
//! the table of label addresses ([`labels`]) and the sequences of operations
//! of each instruction ([`code`]).
//!
//! What the operations compute is stated over a model of the machine
//! ([`machine`]): guarded operations on registers ([`registers`]) and on the
//! bit lanes ([`lanes`], [`bits`]), and from these the range tests
//! ([`range`]), the unsigned division and remainder ([`division`]), the
//! bitwise operations ([`bitwise`]), the shifts ([`shifts`]), the branches
//! ([`control`]) and the memory accesses ([`memory`]).

pub mod types;
pub mod text;
pub mod ast;
pub mod commands;
pub mod hw;
pub mod names;
pub mod block;
pub mod labels;
pub mod code;
pub mod state;
pub mod assembler;
pub mod machine;
pub mod registers;
pub mod range;
pub mod division;
pub mod lanes;
pub mod bits;
pub mod bitwise;
pub mod shifts;
pub mod control;
pub mod memory;
