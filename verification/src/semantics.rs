//! Runtime semantics of a program: the contract the emitted code satisfies.
//!
//! [`spec_run`] is the small-step reference semantics over a bounded stack of
//! 256-bit words.  Every run either halts with a final stack, reverts (stack
//! overflow, stack underflow, or a jump to an unregistered program counter),
//! or exhausts its fuel.  [`Program::run`] executes that semantics and is
//! proved to agree with it; its exit code is the low byte of the stack top —
//! zero for an empty stack — or [`REVERT_EXIT_CODE`] on revert.

use crate::constants::{REVERT_EXIT_CODE, STACK_CAPACITY};
use crate::program::{Operation, Program};
use crate::word::{add_wrap, byte_of, mul_wrap, Word};
use vstd::prelude::*;

verus! {

/// The result of running a program's operations from a given state.
pub enum RunResult {
    /// The run reached the end of the operation sequence; `stack` is the
    /// final stack, least recently pushed first.
    Halted { stack: Seq<nat> },
    /// The run branched to the revert sink.
    Reverted,
    /// The step budget ran out before the run finished.
    OutOfFuel,
}

/// How many stack operands an operation consumes.
pub open spec fn op_arity(op: Operation) -> nat {
    match op {
        Operation::Push(_) => 0,
        Operation::Pop => 1,
        Operation::Add => 2,
        Operation::Mul => 2,
        Operation::Byte => 2,
        Operation::Jump => 1,
        Operation::Jumpdest { .. } => 0,
    }
}

/// Index of the first `Jumpdest` at or after `i` whose `pc` equals `target`.
pub open spec fn find_jumpdest_from(ops: Seq<Operation>, target: nat, i: nat) -> Option<nat>
    decreases ops.len() - i,
    when i <= ops.len()
{
    if i >= ops.len() {
        None
    } else {
        match ops[i as int] {
            Operation::Jumpdest { pc } => if pc as nat == target {
                Some(i)
            } else {
                find_jumpdest_from(ops, target, i + 1)
            },
            _ => find_jumpdest_from(ops, target, i + 1),
        }
    }
}

/// Whether some `Jumpdest` of the program carries `pc` equal to `target`.
pub open spec fn has_jumpdest(ops: Seq<Operation>, target: nat) -> bool {
    exists|j: int|
        0 <= j < ops.len() && ((#[trigger] ops[j]) matches Operation::Jumpdest { pc } && pc as nat
            == target)
}

/// The reference semantics: run `ops` from operation index `i` with the
/// given stack, taking at most `fuel` steps.
pub open spec fn spec_run(ops: Seq<Operation>, i: nat, stack: Seq<nat>, fuel: nat) -> RunResult
    decreases fuel,
{
    if fuel == 0 {
        RunResult::OutOfFuel
    } else if i >= ops.len() {
        RunResult::Halted { stack }
    } else {
        let f: nat = (fuel - 1) as nat;
        match ops[i as int] {
            Operation::Push(w) => if stack.len() >= STACK_CAPACITY {
                RunResult::Reverted
            } else {
                spec_run(ops, i + 1, stack.push(w.as_nat()), f)
            },
            Operation::Pop => if stack.len() < 1 {
                RunResult::Reverted
            } else {
                spec_run(ops, i + 1, stack.drop_last(), f)
            },
            Operation::Add => if stack.len() < 2 {
                RunResult::Reverted
            } else {
                spec_run(
                    ops,
                    i + 1,
                    stack.drop_last().drop_last().push(
                        add_wrap(stack[stack.len() - 1], stack[stack.len() - 2]),
                    ),
                    f,
                )
            },
            Operation::Mul => if stack.len() < 2 {
                RunResult::Reverted
            } else {
                spec_run(
                    ops,
                    i + 1,
                    stack.drop_last().drop_last().push(
                        mul_wrap(stack[stack.len() - 1], stack[stack.len() - 2]),
                    ),
                    f,
                )
            },
            Operation::Byte => if stack.len() < 2 {
                RunResult::Reverted
            } else {
                spec_run(
                    ops,
                    i + 1,
                    stack.drop_last().drop_last().push(
                        byte_of(stack[stack.len() - 1], stack[stack.len() - 2]),
                    ),
                    f,
                )
            },
            Operation::Jump => if stack.len() < 1 {
                RunResult::Reverted
            } else {
                match find_jumpdest_from(ops, stack[stack.len() - 1], 0) {
                    Some(j) => spec_run(ops, j, stack.drop_last(), f),
                    None => RunResult::Reverted,
                }
            },
            Operation::Jumpdest { .. } => spec_run(ops, i + 1, stack, f),
        }
    }
}

/// The exit byte of a normal halt: the low byte of the stack top, or zero
/// for an empty stack.
pub open spec fn exit_byte(stack: Seq<nat>) -> nat {
    if stack.len() == 0 {
        0
    } else {
        stack.last() % 256
    }
}

/// The observable outcome of executing a program.
#[derive(Clone, Copy, PartialEq, Eq, Structural, Debug)]
pub enum Outcome {
    /// Normal termination with the given exit byte.
    Halted(u8),
    /// The run reverted; the process exit code is [`REVERT_EXIT_CODE`].
    Reverted,
    /// The step budget was exhausted (the program may loop forever).
    OutOfFuel,
}

/// Whether the executable outcome `r` reports the semantic result `s`.
pub open spec fn outcome_matches(r: Outcome, s: RunResult) -> bool {
    match s {
        RunResult::Halted { stack } => r == Outcome::Halted(exit_byte(stack) as u8),
        RunResult::Reverted => r == Outcome::Reverted,
        RunResult::OutOfFuel => r == Outcome::OutOfFuel,
    }
}

impl Outcome {
    /// The process exit code this outcome maps to, if the run finished.
    pub fn exit_code(&self) -> (r: Option<u8>)
        ensures
            match *self {
                Outcome::Halted(b) => r == Some(b),
                Outcome::Reverted => r == Some(REVERT_EXIT_CODE),
                Outcome::OutOfFuel => r is None,
            },
    {
        match self {
            Outcome::Halted(b) => Some(*b),
            Outcome::Reverted => Some(REVERT_EXIT_CODE),
            Outcome::OutOfFuel => None,
        }
    }
}

/// The values of a runtime stack of words.
pub open spec fn stack_model(s: Seq<Word>) -> Seq<nat> {
    s.map_values(|w: Word| w.as_nat())
}

proof fn lemma_model_push(s: Seq<Word>, w: Word)
    ensures
        stack_model(s.push(w)) == stack_model(s).push(w.as_nat()),
{
    assert(stack_model(s.push(w)) =~= stack_model(s).push(w.as_nat()));
}

proof fn lemma_model_drop(s: Seq<Word>)
    requires
        s.len() > 0,
    ensures
        stack_model(s.drop_last()) == stack_model(s).drop_last(),
        stack_model(s).last() == s.last().as_nat(),
{
    assert(stack_model(s.drop_last()) =~= stack_model(s).drop_last());
}

/// A non-matching operation does not change where the jump-destination
/// search lands.
proof fn lemma_find_jumpdest_step(ops: Seq<Operation>, target: nat, j: nat)
    requires
        j < ops.len(),
        !(ops[j as int] matches Operation::Jumpdest { pc } && pc as nat == target),
    ensures
        find_jumpdest_from(ops, target, j) == find_jumpdest_from(ops, target, j + 1),
{
}

/// Locates the first matching jump destination, as the semantics does.
fn find_jumpdest(ops: &Vec<Operation>, target: &Word) -> (r: Option<usize>)
    ensures
        match r {
            Some(j) => j < ops@.len() && find_jumpdest_from(ops@, target.as_nat(), 0) == Some(
                j as nat,
            ),
            None => find_jumpdest_from(ops@, target.as_nat(), 0) is None,
        },
{
    let n = ops.len();
    let mut j: usize = 0;
    while j < n
        invariant
            j <= n == ops@.len(),
            find_jumpdest_from(ops@, target.as_nat(), 0) == find_jumpdest_from(
                ops@,
                target.as_nat(),
                j as nat,
            ),
        decreases n - j,
    {
        let hit: bool = match ops[j] {
            Operation::Jumpdest { pc } => target.eq_u64(pc as u64),
            _ => false,
        };
        if hit {
            return Some(j);
        }
        proof {
            lemma_find_jumpdest_step(ops@, target.as_nat(), j as nat);
        }
        j = j + 1;
    }
    None
}

impl Program {
    /// Executes the program's runtime semantics for at most `fuel` steps.
    ///
    /// The returned outcome reports exactly what [`spec_run`] yields from
    /// the initial state: an empty stack at the first operation.
    pub fn run(&self, fuel: u64) -> (r: Outcome)
        ensures
            outcome_matches(r, spec_run(self.ops(), 0, Seq::empty(), fuel as nat)),
    {
        let ops = &self.operations;
        let n = ops.len();
        let mut stack: Vec<Word> = Vec::new();
        let mut i: usize = 0;
        let mut gas: u64 = fuel;
        proof {
            assert(stack_model(stack@) =~= Seq::<nat>::empty());
        }
        loop
            invariant
                i <= n == ops@.len(),
                ops@ == self.ops(),
                stack@.len() <= STACK_CAPACITY,
                spec_run(ops@, 0, Seq::empty(), fuel as nat) == spec_run(
                    ops@,
                    i as nat,
                    stack_model(stack@),
                    gas as nat,
                ),
            decreases gas,
        {
            if gas == 0 {
                proof {
                    assert(spec_run(ops@, i as nat, stack_model(stack@), gas as nat)
                        == RunResult::OutOfFuel);
                }
                return Outcome::OutOfFuel;
            }
            if i >= n {
                let b: u8 = if stack.len() == 0 {
                    0
                } else {
                    proof {
                        lemma_model_drop(stack@);
                    }
                    stack[stack.len() - 1].low_byte()
                };
                proof {
                    assert(spec_run(ops@, i as nat, stack_model(stack@), gas as nat)
                        == (RunResult::Halted { stack: stack_model(stack@) }));
                }
                return Outcome::Halted(b);
            }
            let ghost pre_model = stack_model(stack@);
            let ghost pre_gas: nat = gas as nat;
            let ghost pre_i: nat = i as nat;
            let op = ops[i];
            match op {
                Operation::Push(w) => {
                    if stack.len() >= STACK_CAPACITY {
                        proof {
                            assert(spec_run(ops@, i as nat, stack_model(stack@), gas as nat)
                                == RunResult::Reverted);
                        }
                        return Outcome::Reverted;
                    }
                    proof {
                        lemma_model_push(stack@, w);
                    }
                    stack.push(w);
                    i = i + 1;
                },
                Operation::Pop => {
                    if stack.len() < 1 {
                        proof {
                            assert(spec_run(ops@, i as nat, stack_model(stack@), gas as nat)
                                == RunResult::Reverted);
                        }
                        return Outcome::Reverted;
                    }
                    proof {
                        lemma_model_drop(stack@);
                    }
                    let _ = stack.pop();
                    i = i + 1;
                },
                Operation::Add => {
                    if stack.len() < 2 {
                        proof {
                            assert(spec_run(ops@, i as nat, stack_model(stack@), gas as nat)
                                == RunResult::Reverted);
                        }
                        return Outcome::Reverted;
                    }
                    proof {
                        lemma_model_drop(stack@);
                        lemma_model_drop(stack@.drop_last());
                    }
                    let a = stack.pop().unwrap();
                    let b = stack.pop().unwrap();
                    let s = a.add_mod(&b);
                    proof {
                        lemma_model_push(stack@, s);
                    }
                    stack.push(s);
                    i = i + 1;
                },
                Operation::Mul => {
                    if stack.len() < 2 {
                        proof {
                            assert(spec_run(ops@, i as nat, stack_model(stack@), gas as nat)
                                == RunResult::Reverted);
                        }
                        return Outcome::Reverted;
                    }
                    proof {
                        lemma_model_drop(stack@);
                        lemma_model_drop(stack@.drop_last());
                    }
                    let a = stack.pop().unwrap();
                    let b = stack.pop().unwrap();
                    let s = a.mul_mod(&b);
                    proof {
                        lemma_model_push(stack@, s);
                    }
                    stack.push(s);
                    i = i + 1;
                },
                Operation::Byte => {
                    if stack.len() < 2 {
                        proof {
                            assert(spec_run(ops@, i as nat, stack_model(stack@), gas as nat)
                                == RunResult::Reverted);
                        }
                        return Outcome::Reverted;
                    }
                    proof {
                        lemma_model_drop(stack@);
                        lemma_model_drop(stack@.drop_last());
                    }
                    let offset = stack.pop().unwrap();
                    let value = stack.pop().unwrap();
                    let s = Word::byte_value(&offset, &value);
                    proof {
                        lemma_model_push(stack@, s);
                    }
                    stack.push(s);
                    i = i + 1;
                },
                Operation::Jump => {
                    if stack.len() < 1 {
                        proof {
                            assert(spec_run(ops@, i as nat, stack_model(stack@), gas as nat)
                                == RunResult::Reverted);
                        }
                        return Outcome::Reverted;
                    }
                    proof {
                        lemma_model_drop(stack@);
                    }
                    let target = stack.pop().unwrap();
                    match find_jumpdest(ops, &target) {
                        Some(j) => {
                            i = j;
                        },
                        None => {
                            proof {
                                assert(spec_run(ops@, pre_i, pre_model, pre_gas)
                                    == RunResult::Reverted);
                            }
                            return Outcome::Reverted;
                        },
                    }
                },
                Operation::Jumpdest { .. } => {
                    i = i + 1;
                },
            }
            gas = gas - 1;
            proof {
                assert(spec_run(ops@, pre_i, pre_model, pre_gas) == spec_run(
                    ops@,
                    i as nat,
                    stack_model(stack@),
                    gas as nat,
                ));
            }
        }
    }
}

} // verus!
