//! An ahead-of-time lowering engine for a small EVM opcode subset.
//!
//! A [`program::Program`] is an ordered sequence of stack-machine operations
//! over 256-bit words (`PUSH`, `POP`, `ADD`, `MUL`, `BYTE`, `JUMP`,
//! `JUMPDEST`).  The crate provides:
//!
//! * [`word`]: 256-bit unsigned words with proved wraparound arithmetic;
//! * [`semantics`]: the runtime contract of a compiled program — every run
//!   either halts with the low byte of the stack top as its exit code, or
//!   collapses into the single *revert* outcome;
//! * [`ir`] and [`lowering`]: translation of a program into a control-flow
//!   IR with one revert sink and one jump-table block, with the jump table
//!   pinned, sorted by program counter, as a function of the program alone.

pub mod constants;
pub mod ir;
pub mod lemmas;
pub mod lowering;
pub mod program;
pub mod semantics;
pub mod word;
