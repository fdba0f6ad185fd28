//! The program model: operations and ordered operation sequences.

use crate::word::Word;
use vstd::prelude::*;

verus! {

/// One operation of the supported EVM opcode subset.
///
/// `Push` covers `PUSH0` through `PUSH32`: the pushed word already carries
/// its full 256-bit value.  The `pc` of a `Jumpdest` is the opcode's byte
/// offset in the canonical EVM encoding; the lowering treats it as an opaque
/// unique jump key.
#[derive(Clone, Copy, PartialEq, Eq, Structural, Debug)]
pub enum Operation {
    Push(Word),
    Pop,
    Add,
    Mul,
    Byte,
    Jump,
    Jumpdest { pc: usize },
}

/// An ordered finite sequence of operations, immutable during lowering.
pub struct Program {
    pub operations: Vec<Operation>,
}

impl Program {
    /// The mathematical content of the program.
    pub open spec fn ops(self) -> Seq<Operation> {
        self.operations@
    }
}

impl From<Vec<Operation>> for Program {
    fn from(operations: Vec<Operation>) -> (r: Program) {
        Program { operations }
    }
}

impl vstd::std_specs::convert::FromSpecImpl<Vec<Operation>> for Program {
    open spec fn obeys_from_spec() -> bool {
        true
    }

    open spec fn from_spec(operations: Vec<Operation>) -> Program {
        Program { operations }
    }
}

} // verus!
