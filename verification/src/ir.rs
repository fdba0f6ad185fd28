//! The control-flow IR that lowering produces.
//!
//! A module is a list of basic blocks plus a jump table.  Registers are
//! block-local temporaries, numbered by the position of their defining
//! instruction in the block.  Two blocks are distinguished and implicit:
//! the *revert sink*, which exits with the revert code, and the *jump-table
//! block*, which takes the target program counter as its one argument and
//! dispatches over the table, defaulting to the revert sink.  Every block
//! ends in exactly one terminator, so no block is ever left open.

use crate::word::Word;
use vstd::prelude::*;

verus! {

/// A branch target.
#[derive(Clone, Copy, PartialEq, Eq, Structural, Debug)]
pub enum BlockRef {
    /// The singleton revert sink.
    Revert,
    /// The jump-table block; a branch here carries the target PC.
    JumpTable,
    /// A numbered block of the module.
    Block(usize),
}

/// Comparison predicates available to stack guards.
#[derive(Clone, Copy, PartialEq, Eq, Structural, Debug)]
pub enum Pred {
    /// Unsigned less-than.
    Lt,
    /// Unsigned greater-or-equal.
    Ge,
    /// Equality.
    Eq,
}

/// One IR instruction.  Registers hold 256-bit words.
#[derive(Clone, Copy, PartialEq, Eq, Structural, Debug)]
pub enum Inst {
    /// `dst <- value`
    Const { dst: usize, value: Word },
    /// `dst <- (lhs + rhs) mod 2^256`
    Add { dst: usize, lhs: usize, rhs: usize },
    /// `dst <- (lhs * rhs) mod 2^256`
    Mul { dst: usize, lhs: usize, rhs: usize },
    /// `dst <- byte of value at big-endian offset` (byte 0 most significant)
    Byte { dst: usize, offset: usize, value: usize },
    /// `dst <- 1 if pred(lhs, rhs) else 0`
    Cmp { dst: usize, pred: Pred, lhs: usize, rhs: usize },
    /// Push the register onto the runtime stack.
    Push { src: usize },
    /// Pop the runtime stack into the register.
    Pop { dst: usize },
    /// `dst <- current stack depth`
    Depth { dst: usize },
}

/// A block terminator.
#[derive(Clone, Copy, PartialEq, Eq, Structural, Debug)]
pub enum Term {
    /// Unconditional branch; `arg` is the forwarded PC when the target is
    /// the jump-table block.
    Br { target: BlockRef, arg: Option<usize> },
    /// Branch to `then_target` when the comparison register is nonzero,
    /// else to `else_target`.
    CondBr { cond: usize, then_target: BlockRef, else_target: BlockRef },
    /// Exit the program with the low byte of the register as status code.
    Return { src: usize },
}

/// A basic block: instructions followed by one terminator.
#[derive(Clone, PartialEq, Eq, Debug)]
pub struct Block {
    pub insts: Vec<Inst>,
    pub term: Term,
}

/// A lowered module.  `blocks[0]` is the entry block; `jumptable` maps each
/// registered `JUMPDEST` PC, in strictly ascending order, to its block.
#[derive(Clone, PartialEq, Eq, Debug)]
pub struct IrModule {
    pub blocks: Vec<Block>,
    pub jumptable: Vec<(usize, usize)>,
}

impl BlockRef {
    /// Whether this target stays inside a module of `n` blocks.
    pub open spec fn in_bounds(self, n: nat) -> bool {
        match self {
            BlockRef::Block(b) => (b as nat) < n,
            _ => true,
        }
    }
}

impl Block {
    /// Whether this block carries exactly these instructions and terminator.
    pub open spec fn is_block(self, insts: Seq<Inst>, term: Term) -> bool {
        self.insts@ == insts && self.term == term
    }
}

impl Term {
    /// Whether every target of this terminator stays inside a module of `n`
    /// blocks.
    pub open spec fn in_bounds(self, n: nat) -> bool {
        match self {
            Term::Br { target, .. } => target.in_bounds(n),
            Term::CondBr { then_target, else_target, .. } => then_target.in_bounds(n)
                && else_target.in_bounds(n),
            Term::Return { .. } => true,
        }
    }
}

/// Whether a PC-to-block table is strictly ascending by PC; this makes its
/// keys unique and the generated dispatch deterministic.
pub open spec fn registry_sorted(s: Seq<(usize, usize)>) -> bool {
    forall|i: int, j: int| 0 <= i < j < s.len() ==> (#[trigger] s[i]).0 < (#[trigger] s[j]).0
}

/// Whether the table has an entry for `pc`.
pub open spec fn registry_contains(s: Seq<(usize, usize)>, pc: usize) -> bool {
    exists|k: int| 0 <= k < s.len() && (#[trigger] s[k]).0 == pc
}

impl IrModule {
    /// Well-formedness: every branch target names a block of the module, and
    /// the jump table is strictly ascending by PC with in-bounds targets.
    pub open spec fn wf(self) -> bool {
        &&& forall|b: int|
            0 <= b < self.blocks@.len() ==> (#[trigger] self.blocks@[b]).term.in_bounds(
                self.blocks@.len(),
            )
        &&& forall|k: int|
            0 <= k < self.jumptable@.len() ==> ((#[trigger] self.jumptable@[k]).1 as nat)
                < self.blocks@.len()
        &&& registry_sorted(self.jumptable@)
    }
}

} // verus!
