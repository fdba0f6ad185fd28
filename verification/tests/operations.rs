use evm_lowering::constants::REVERT_EXIT_CODE;
use evm_lowering::ir::{BlockRef, Inst, Pred, Term};
use evm_lowering::lowering::{compile, LoweringError};
use evm_lowering::program::{Operation, Program};
use evm_lowering::semantics::Outcome;
use evm_lowering::word::Word;

fn run_program_assert_result(operations: Vec<Operation>, expected_result: u8) {
    let program = Program::from(operations);
    let outcome = program.run(1_000_000);
    assert_eq!(outcome.exit_code(), Some(expected_result));
}

fn run_program_assert_revert(program: Vec<Operation>) {
    run_program_assert_result(program, REVERT_EXIT_CODE);
}

fn word_from_bytes(bytes: Vec<u8>) -> Word {
    Word::from_be_bytes(&bytes)
}

#[test]
fn push_once() {
    // For PUSH0
    let program = vec![Operation::Push(Word::zero())];
    run_program_assert_result(program, 0);

    // For PUSH1, ... , PUSH32: the value 5 shifted left by 8 * i bits
    for i in 0..32 {
        let mut bytes = vec![0u8; 32];
        bytes[31 - i] = 5;
        let shifted_value = word_from_bytes(bytes);
        let program = vec![Operation::Push(shifted_value)];
        let expected_result: u8 = if i == 0 { 5 } else { 0 };
        run_program_assert_result(program, expected_result);
    }
}

#[test]
fn push_twice() {
    let the_answer = Word::from_u64(42);

    let program = vec![Operation::Push(Word::from_u64(1)), Operation::Push(the_answer)];
    run_program_assert_result(program, 42);
}

#[test]
fn push_fill_stack() {
    let stack_top = Word::from_u64(88);

    // Push 1024 times
    let program = vec![Operation::Push(stack_top); 1024];
    run_program_assert_result(program, 88);
}

#[test]
fn push_stack_overflow() {
    // Push 1025 times
    let program = vec![Operation::Push(Word::from_u64(88)); 1025];
    run_program_assert_revert(program);
}

#[test]
fn push_push_add() {
    let (a, b) = (Word::from_u64(11), Word::from_u64(31));

    let program = vec![Operation::Push(a), Operation::Push(b), Operation::Add];
    run_program_assert_result(program, 42);
}

#[test]
fn add_with_stack_underflow() {
    run_program_assert_revert(vec![Operation::Add]);
}

#[test]
fn push_push_normal_mul() {
    let (a, b) = (Word::from_u64(2), Word::from_u64(42));

    let program = vec![Operation::Push(a), Operation::Push(b), Operation::Mul];
    run_program_assert_result(program, 84);
}

#[test]
fn mul_wraps_result() {
    let a = word_from_bytes(vec![0xff; 32]);
    let program = vec![Operation::Push(a), Operation::Push(Word::from_u64(2)), Operation::Mul];
    run_program_assert_result(program, 254);
}

#[test]
fn mul_with_stack_underflow() {
    run_program_assert_revert(vec![Operation::Mul]);
}

#[test]
fn push_push_pop() {
    // Push two values to the stack and then pop once
    // The program result should be equal to the first
    // pushed value
    let (a, b) = (Word::from_u64(1), Word::from_u64(2));

    let program = vec![Operation::Push(a), Operation::Push(b), Operation::Pop];
    run_program_assert_result(program, 1);
}

#[test]
fn pop_with_stack_underflow() {
    // Pop with an empty stack
    let program = vec![Operation::Pop];
    run_program_assert_revert(program);
}

#[test]
fn push_push_byte() {
    let mut value = vec![0u8; 32];
    let desired_byte = 0xff;
    let offset: u8 = 16;
    value[offset as usize] = desired_byte;
    let value = word_from_bytes(value);
    let program = vec![
        Operation::Push(value),
        Operation::Push(Word::from_u64(offset as u64)),
        Operation::Byte,
    ];
    run_program_assert_result(program, desired_byte);
}

#[test]
fn byte_with_stack_underflow() {
    let program = vec![Operation::Byte];
    run_program_assert_revert(program);
}

#[test]
fn byte_with_offset_out_of_bounds() {
    let value = word_from_bytes(vec![0xff; 32]);
    let offset = Word::from_u64(32);
    let program = vec![Operation::Push(value), Operation::Push(offset), Operation::Byte];
    run_program_assert_result(program, 0);
}

#[test]
fn jumpdest() {
    let expected = 5;
    let program = vec![
        Operation::Jumpdest { pc: 0 },
        Operation::Push(Word::from_u64(expected as u64)),
        Operation::Jumpdest { pc: 34 },
    ];
    run_program_assert_result(program, expected)
}

#[test]
fn jump() {
    // the program executes sequentially until the JUMP where
    // it jumps to the opcode in the position 7 so the PUSH1 10
    // opcode is not executed => the return value should be equal
    // to the first pushed value (a = 5)
    //
    // [00] PUSH1 5
    // [02] PUSH1 7  // push pc
    // [04] JUMP
    // [05] PUSH1 10
    // [07] JUMPDEST
    let (a, b) = (5u8, 10u8);
    let pc: usize = 7;
    let program = vec![
        Operation::Push(Word::from_u64(a as u64)),
        Operation::Push(Word::from_u64(pc as u64)),
        Operation::Jump,
        Operation::Push(Word::from_u64(b as u64)), // this should not be executed
        Operation::Jumpdest { pc },
    ];
    run_program_assert_result(program, a);
}

#[test]
fn jump_reverts_if_pc_is_wrong() {
    // if the pc given does not correspond to a jump destination then
    // the program should revert
    let pc = Word::from_u64(7);
    let program = vec![Operation::Push(pc), Operation::Jump, Operation::Jumpdest { pc: 83 }];
    run_program_assert_revert(program);
}

#[test]
fn empty_program_exits_zero() {
    run_program_assert_result(vec![], 0);
}

#[test]
fn push_pop_exits_zero() {
    let program = vec![Operation::Push(Word::from_u64(1)), Operation::Pop];
    run_program_assert_result(program, 0);
}

#[test]
fn add_wraps_to_zero() {
    // (2^256 - 1) + 1 wraps to 0
    let max = word_from_bytes(vec![0xff; 32]);
    let program = vec![Operation::Push(max), Operation::Push(Word::from_u64(1)), Operation::Add];
    run_program_assert_result(program, 0);
}

#[test]
fn add_commutes_on_sample() {
    let (a, b) = (Word::from_u64(17), Word::from_u64(25));
    let forward = Program::from(vec![Operation::Push(a), Operation::Push(b), Operation::Add]);
    let backward = Program::from(vec![Operation::Push(b), Operation::Push(a), Operation::Add]);
    assert_eq!(forward.run(100), backward.run(100));
}

#[test]
fn mul_commutes_on_sample() {
    let (a, b) = (Word::from_u64(1255), Word::from_u64(333));
    let forward = Program::from(vec![Operation::Push(a), Operation::Push(b), Operation::Mul]);
    let backward = Program::from(vec![Operation::Push(b), Operation::Push(a), Operation::Mul]);
    assert_eq!(forward.run(100), backward.run(100));
}

#[test]
fn exit_code_is_low_byte_of_top() {
    // 0x0201 has low byte 0x01
    let mut bytes = vec![0u8; 32];
    bytes[30] = 0x02;
    bytes[31] = 0x01;
    let program = vec![Operation::Push(word_from_bytes(bytes))];
    run_program_assert_result(program, 0x01);
}

#[test]
fn backward_jump_runs_out_of_fuel() {
    // an infinite loop never halts and never reverts
    let program = Program::from(vec![
        Operation::Jumpdest { pc: 0 },
        Operation::Push(Word::from_u64(0)),
        Operation::Jump,
    ]);
    let outcome = program.run(10_000);
    assert_eq!(outcome, Outcome::OutOfFuel);
    assert_eq!(outcome.exit_code(), None);
}

#[test]
fn word_from_bytes_matches_from_u64() {
    let mut bytes = vec![0u8; 32];
    bytes[31] = 7;
    bytes[24] = 3;
    let w = word_from_bytes(bytes);
    // 3 * 2^56 + 7
    assert_eq!(w, Word::from_u64(0x0300_0000_0000_0007));
}

#[test]
fn revert_exit_code_is_pinned() {
    assert_eq!(REVERT_EXIT_CODE, 255);
}

#[test]
fn compile_rejects_duplicate_jumpdest() {
    let program = Program::from(vec![
        Operation::Jumpdest { pc: 5 },
        Operation::Push(Word::from_u64(1)),
        Operation::Jumpdest { pc: 5 },
    ]);
    let result = compile(&program);
    assert_eq!(result.unwrap_err(), LoweringError::DuplicateJumpDest { pc: 5 });
}

#[test]
fn compile_jumptable_is_sorted_by_pc() {
    // JUMPDESTs appear out of PC order; the table comes out ascending
    let program = Program::from(vec![
        Operation::Jumpdest { pc: 34 },
        Operation::Jumpdest { pc: 0 },
        Operation::Push(Word::from_u64(9)),
    ]);
    let module = compile(&program).unwrap();
    assert_eq!(module.jumptable, vec![(0, 2), (34, 1)]);
}

#[test]
fn compile_block_count_is_pinned() {
    // one block per plain opcode, two per JUMP, three for the exit sequence
    let program = Program::from(vec![
        Operation::Push(Word::from_u64(7)),
        Operation::Jump,
        Operation::Jumpdest { pc: 7 },
    ]);
    let module = compile(&program).unwrap();
    assert_eq!(module.blocks.len(), 1 + 2 + 1 + 3);
}

#[test]
fn compile_push_emits_stack_guard() {
    let program = Program::from(vec![Operation::Push(Word::from_u64(1))]);
    let module = compile(&program).unwrap();
    let entry = &module.blocks[0];
    assert_eq!(entry.insts[0], Inst::Depth { dst: 0 });
    assert_eq!(
        entry.insts[1],
        Inst::Const { dst: 1, value: Word::from_u64(1024) }
    );
    assert_eq!(
        entry.insts[2],
        Inst::Cmp { dst: 2, pred: Pred::Lt, lhs: 0, rhs: 1 }
    );
    assert_eq!(
        entry.term,
        Term::CondBr { cond: 2, then_target: BlockRef::Block(1), else_target: BlockRef::Revert }
    );
    // the fall-through block pushes the constant
    let ok = &module.blocks[1];
    assert_eq!(ok.insts[0], Inst::Const { dst: 0, value: Word::from_u64(1) });
    assert_eq!(ok.insts[1], Inst::Push { src: 0 });
}

#[test]
fn compile_jump_branches_to_jumptable() {
    let program = Program::from(vec![
        Operation::Push(Word::from_u64(2)),
        Operation::Jump,
        Operation::Jumpdest { pc: 2 },
    ]);
    let module = compile(&program).unwrap();
    // block 1 is the push body plus the jump guard; block 2 pops the target
    // and branches into the jump table
    let jump_block = &module.blocks[2];
    assert_eq!(jump_block.insts[0], Inst::Pop { dst: 0 });
    assert_eq!(
        jump_block.term,
        Term::Br { target: BlockRef::JumpTable, arg: Some(0) }
    );
}
