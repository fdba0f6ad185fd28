//! Proved laws of the runtime semantics and the lowering.

use crate::constants::STACK_CAPACITY;
use crate::ir::{registry_contains, IrModule};
use crate::lowering::{blocks_used, sorted_insert, spec_registry};
use crate::program::Operation;
use crate::semantics::{
    exit_byte, find_jumpdest_from, has_jumpdest, op_arity, spec_run, RunResult,
};
use crate::word::{add_wrap, byte_of, mul_wrap, word_modulus, Word};
use vstd::arithmetic::div_mod::{lemma_div_multiples_vanish, lemma_small_mod};
use vstd::arithmetic::mul::lemma_mul_is_commutative;
use vstd::arithmetic::power2::{lemma_pow2_pos, pow2};
use vstd::prelude::*;

verus! {

/// A program that pushes one word and ends halts with exactly that word on
/// the stack; its exit code is the word's value modulo 256.
pub proof fn lemma_push_once(w: Word, fuel: nat)
    requires
        fuel >= 2,
    ensures
        spec_run(seq![Operation::Push(w)], 0, Seq::empty(), fuel) == (RunResult::Halted {
            stack: seq![w.as_nat()],
        }),
        exit_byte(seq![w.as_nat()]) == w.as_nat() % 256,
{
    let ops = seq![Operation::Push(w)];
    assert(Seq::<nat>::empty().push(w.as_nat()) =~= seq![w.as_nat()]);
    assert(spec_run(ops, 0, Seq::empty(), fuel) == spec_run(ops, 1, seq![w.as_nat()], (fuel
        - 1) as nat));
}

/// A run that halts normally with a non-empty stack exits with the low byte
/// of the word its last stack-writing operation left on top.
pub proof fn lemma_normal_exit_is_top_low_byte(stack: Seq<nat>)
    requires
        stack.len() > 0,
    ensures
        exit_byte(stack) == stack.last() % 256,
{
}

/// An operation that consumes more operands than the stack holds reverts.
pub proof fn lemma_underflow_reverts(ops: Seq<Operation>, i: nat, stack: Seq<nat>, fuel: nat)
    requires
        i < ops.len(),
        fuel >= 1,
        stack.len() < op_arity(ops[i as int]),
    ensures
        spec_run(ops, i, stack, fuel) == RunResult::Reverted,
{
}

/// Running a block of pushes from a state that cannot fit them all reverts.
proof fn lemma_push_overflow_from(ops: Seq<Operation>, i: nat, stack: Seq<nat>, fuel: nat)
    requires
        i <= ops.len(),
        forall|j: int| i <= j < ops.len() ==> (#[trigger] ops[j]) is Push,
        stack.len() <= STACK_CAPACITY,
        ops.len() - i >= 1 + STACK_CAPACITY - stack.len(),
        fuel >= 1 + STACK_CAPACITY - stack.len(),
    ensures
        spec_run(ops, i, stack, fuel) == RunResult::Reverted,
    decreases ops.len() - i,
{
    if stack.len() == STACK_CAPACITY {
        assert(spec_run(ops, i, stack, fuel) == RunResult::Reverted);
    } else {
        let w = ops[i as int]->Push_0;
        lemma_push_overflow_from(ops, i + 1, stack.push(w.as_nat()), (fuel - 1) as nat);
    }
}

/// A sequence of 1025 or more pushes (with no pops) reverts: the 1025th
/// push overflows the 1024-slot stack.
pub proof fn lemma_stack_overflow(ops: Seq<Operation>, fuel: nat)
    requires
        forall|j: int| 0 <= j < ops.len() ==> (#[trigger] ops[j]) is Push,
        ops.len() > STACK_CAPACITY,
        fuel > STACK_CAPACITY,
    ensures
        spec_run(ops, 0, Seq::empty(), fuel) == RunResult::Reverted,
{
    lemma_push_overflow_from(ops, 0, Seq::empty(), fuel);
}

/// The exact run of `PUSH a; PUSH b; ADD`: out of fuel below four steps,
/// else a halt with the wraparound sum on the stack.
pub proof fn lemma_run_push_push_add(a: Word, b: Word, fuel: nat)
    ensures
        spec_run(
            seq![Operation::Push(a), Operation::Push(b), Operation::Add],
            0,
            Seq::empty(),
            fuel,
        ) == if fuel >= 4 {
            RunResult::Halted { stack: seq![add_wrap(a.as_nat(), b.as_nat())] }
        } else {
            RunResult::OutOfFuel
        },
{
    let ops = seq![Operation::Push(a), Operation::Push(b), Operation::Add];
    let s1 = seq![a.as_nat()];
    let s2 = seq![a.as_nat(), b.as_nat()];
    let s3 = seq![add_wrap(a.as_nat(), b.as_nat())];
    if fuel >= 1 {
        assert(Seq::<nat>::empty().push(a.as_nat()) =~= s1);
        assert(spec_run(ops, 0, Seq::empty(), fuel) == spec_run(ops, 1, s1, (fuel - 1) as nat));
        if fuel >= 2 {
            assert(s1.push(b.as_nat()) =~= s2);
            assert(spec_run(ops, 1, s1, (fuel - 1) as nat) == spec_run(
                ops,
                2,
                s2,
                (fuel - 2) as nat,
            ));
            if fuel >= 3 {
                assert(s2[s2.len() - 1] == b.as_nat());
                assert(s2[s2.len() - 2] == a.as_nat());
                assert(add_wrap(b.as_nat(), a.as_nat()) == add_wrap(a.as_nat(), b.as_nat()));
                let pushed = s2.drop_last().drop_last().push(
                    add_wrap(s2[s2.len() - 1], s2[s2.len() - 2]),
                );
                assert(pushed =~= s3);
                assert(spec_run(ops, 2, s2, (fuel - 2) as nat) == spec_run(
                    ops,
                    3,
                    pushed,
                    (fuel - 3) as nat,
                ));
                assert(spec_run(ops, 3, pushed, (fuel - 3) as nat) == spec_run(
                    ops,
                    3,
                    s3,
                    (fuel - 3) as nat,
                ));
            }
        }
    }
}

/// The exact run of `PUSH a; PUSH b; MUL`, as for addition.
pub proof fn lemma_run_push_push_mul(a: Word, b: Word, fuel: nat)
    ensures
        spec_run(
            seq![Operation::Push(a), Operation::Push(b), Operation::Mul],
            0,
            Seq::empty(),
            fuel,
        ) == if fuel >= 4 {
            RunResult::Halted { stack: seq![mul_wrap(a.as_nat(), b.as_nat())] }
        } else {
            RunResult::OutOfFuel
        },
{
    let ops = seq![Operation::Push(a), Operation::Push(b), Operation::Mul];
    let s1 = seq![a.as_nat()];
    let s2 = seq![a.as_nat(), b.as_nat()];
    let s3 = seq![mul_wrap(a.as_nat(), b.as_nat())];
    if fuel >= 1 {
        assert(Seq::<nat>::empty().push(a.as_nat()) =~= s1);
        assert(spec_run(ops, 0, Seq::empty(), fuel) == spec_run(ops, 1, s1, (fuel - 1) as nat));
        if fuel >= 2 {
            assert(s1.push(b.as_nat()) =~= s2);
            assert(spec_run(ops, 1, s1, (fuel - 1) as nat) == spec_run(
                ops,
                2,
                s2,
                (fuel - 2) as nat,
            ));
            if fuel >= 3 {
                assert(s2[s2.len() - 1] == b.as_nat());
                assert(s2[s2.len() - 2] == a.as_nat());
                assert(mul_wrap(b.as_nat(), a.as_nat()) == mul_wrap(a.as_nat(), b.as_nat())) by {
                    lemma_mul_is_commutative(a.as_nat() as int, b.as_nat() as int);
                }
                let pushed = s2.drop_last().drop_last().push(
                    mul_wrap(s2[s2.len() - 1], s2[s2.len() - 2]),
                );
                assert(pushed =~= s3);
                assert(spec_run(ops, 2, s2, (fuel - 2) as nat) == spec_run(
                    ops,
                    3,
                    pushed,
                    (fuel - 3) as nat,
                ));
                assert(spec_run(ops, 3, pushed, (fuel - 3) as nat) == spec_run(
                    ops,
                    3,
                    s3,
                    (fuel - 3) as nat,
                ));
            }
        }
    }
}

/// `PUSH a; PUSH b; ADD` runs exactly as `PUSH b; PUSH a; ADD`, whatever the
/// fuel.
pub proof fn lemma_add_commutes(a: Word, b: Word, fuel: nat)
    ensures
        spec_run(
            seq![Operation::Push(a), Operation::Push(b), Operation::Add],
            0,
            Seq::empty(),
            fuel,
        ) == spec_run(
            seq![Operation::Push(b), Operation::Push(a), Operation::Add],
            0,
            Seq::empty(),
            fuel,
        ),
{
    lemma_run_push_push_add(a, b, fuel);
    lemma_run_push_push_add(b, a, fuel);
    assert(add_wrap(b.as_nat(), a.as_nat()) == add_wrap(a.as_nat(), b.as_nat()));
}

/// `PUSH a; PUSH b; MUL` runs exactly as `PUSH b; PUSH a; MUL`, whatever the
/// fuel.
pub proof fn lemma_mul_commutes(a: Word, b: Word, fuel: nat)
    ensures
        spec_run(
            seq![Operation::Push(a), Operation::Push(b), Operation::Mul],
            0,
            Seq::empty(),
            fuel,
        ) == spec_run(
            seq![Operation::Push(b), Operation::Push(a), Operation::Mul],
            0,
            Seq::empty(),
            fuel,
        ),
{
    lemma_run_push_push_mul(a, b, fuel);
    lemma_run_push_push_mul(b, a, fuel);
    assert(mul_wrap(b.as_nat(), a.as_nat()) == mul_wrap(a.as_nat(), b.as_nat())) by {
        lemma_mul_is_commutative(a.as_nat() as int, b.as_nat() as int);
    }
}

/// Wraparound: `PUSH a; PUSH b; ADD` halts with `(a + b) mod 2^256` on the
/// stack, and its exit byte is that value modulo 256; likewise for `MUL`.
pub proof fn lemma_wraparound(a: Word, b: Word, fuel: nat)
    requires
        fuel >= 4,
    ensures
        spec_run(
            seq![Operation::Push(a), Operation::Push(b), Operation::Add],
            0,
            Seq::empty(),
            fuel,
        ) == (RunResult::Halted { stack: seq![add_wrap(a.as_nat(), b.as_nat())] }),
        add_wrap(a.as_nat(), b.as_nat()) == (a.as_nat() + b.as_nat()) % word_modulus(),
        exit_byte(seq![add_wrap(a.as_nat(), b.as_nat())]) == add_wrap(a.as_nat(), b.as_nat())
            % 256,
        spec_run(
            seq![Operation::Push(a), Operation::Push(b), Operation::Mul],
            0,
            Seq::empty(),
            fuel,
        ) == (RunResult::Halted { stack: seq![mul_wrap(a.as_nat(), b.as_nat())] }),
        mul_wrap(a.as_nat(), b.as_nat()) == (a.as_nat() * b.as_nat()) % word_modulus(),
        exit_byte(seq![mul_wrap(a.as_nat(), b.as_nat())]) == mul_wrap(a.as_nat(), b.as_nat())
            % 256,
{
    assert(seq![add_wrap(a.as_nat(), b.as_nat())].last() == add_wrap(a.as_nat(), b.as_nat()));
    assert(seq![mul_wrap(a.as_nat(), b.as_nat())].last() == mul_wrap(a.as_nat(), b.as_nat()));
    lemma_run_push_push_add(a, b, fuel);
    lemma_run_push_push_mul(a, b, fuel);
}

/// `BYTE` round trip: a byte placed at big-endian index `i` by shifting is
/// read back unchanged, and any offset of 32 or more reads zero.
pub proof fn lemma_byte_roundtrip(i: nat, b: u8, offset: nat, value: nat)
    requires
        i < 32,
        offset >= 32,
    ensures
        byte_of(i, (b * pow2((8 * (31 - i)) as nat)) as nat) == b,
        byte_of(offset, value) == 0,
{
    let p = pow2((8 * (31 - i)) as nat);
    lemma_pow2_pos((8 * (31 - i)) as nat);
    assert(b * p == p * b) by {
        lemma_mul_is_commutative(b as int, p as int);
    }
    lemma_div_multiples_vanish(b as int, p as int);
    assert(((b * p) as nat) / p == b);
    lemma_small_mod(b as nat, 256);
}

/// Searching for a jump destination that no operation provides finds none.
proof fn lemma_find_jumpdest_none(ops: Seq<Operation>, target: nat, j: nat)
    requires
        j <= ops.len(),
        !has_jumpdest(ops, target),
    ensures
        find_jumpdest_from(ops, target, j) is None,
    decreases ops.len() - j,
{
    if j < ops.len() {
        lemma_find_jumpdest_none(ops, target, j + 1);
    }
}

/// A `JUMP` whose target PC no `JUMPDEST` of the program carries reverts.
pub proof fn lemma_jump_unregistered_reverts(
    ops: Seq<Operation>,
    i: nat,
    stack: Seq<nat>,
    fuel: nat,
)
    requires
        i < ops.len(),
        ops[i as int] is Jump,
        stack.len() >= 1,
        fuel >= 1,
        !has_jumpdest(ops, stack.last()),
    ensures
        spec_run(ops, i, stack, fuel) == RunResult::Reverted,
{
    lemma_find_jumpdest_none(ops, stack.last(), 0);
}

/// Deterministic lowering: the compiler's contract pins the jump table and
/// the block count as functions of the program alone, so two lowerings of
/// one program agree on both.
pub proof fn lemma_lowering_deterministic(ops: Seq<Operation>, m1: IrModule, m2: IrModule)
    requires
        spec_registry(ops, ops.len()) is Ok,
        m1.jumptable@ == spec_registry(ops, ops.len()).unwrap(),
        m2.jumptable@ == spec_registry(ops, ops.len()).unwrap(),
        m1.blocks@.len() == blocks_used(ops, ops.len()) + 3,
        m2.blocks@.len() == blocks_used(ops, ops.len()) + 3,
    ensures
        m1.jumptable@ == m2.jumptable@,
        m1.blocks@.len() == m2.blocks@.len(),
{
}

/// The `JUMPDEST` PC an operation carries, if any.
pub open spec fn jumpdest_pc(op: Operation) -> Option<usize> {
    match op {
        Operation::Jumpdest { pc } => Some(pc),
        _ => None,
    }
}

/// Whether two `JUMPDEST` operations of the program share a PC.
pub open spec fn has_duplicate_jumpdest(ops: Seq<Operation>) -> bool {
    exists|i: int, j: int|
        0 <= i < j < ops.len() && (#[trigger] jumpdest_pc(ops[i])) is Some && jumpdest_pc(
            ops[i],
        ) == #[trigger] jumpdest_pc(ops[j])
}

/// Sorted insertion adds exactly the new PC to the table's key set.
proof fn lemma_sorted_insert_contains(s: Seq<(usize, usize)>, pc: usize, block: usize, q: usize)
    ensures
        registry_contains(sorted_insert(s, pc, block), q) <==> (q == pc || registry_contains(
            s,
            q,
        )),
    decreases s.len(),
{
    let r = sorted_insert(s, pc, block);
    if s.len() == 0 {
        assert(r[0].0 == pc);
        if registry_contains(r, q) {
            let k = choose|k: int| 0 <= k < r.len() && (#[trigger] r[k]).0 == q;
            assert(k == 0);
        }
    } else if pc < s[0].0 {
        assert(r == seq![(pc, block)] + s);
        if q == pc {
            assert(r[0].0 == q);
        }
        if registry_contains(s, q) {
            let k = choose|k: int| 0 <= k < s.len() && (#[trigger] s[k]).0 == q;
            assert(r[k + 1].0 == q);
        }
        if registry_contains(r, q) && q != pc {
            let k = choose|k: int| 0 <= k < r.len() && (#[trigger] r[k]).0 == q;
            assert(k > 0);
            assert(s[k - 1].0 == q);
        }
    } else {
        let rest = s.drop_first();
        lemma_sorted_insert_contains(rest, pc, block, q);
        assert(r == seq![s[0]] + sorted_insert(rest, pc, block));
        if q == pc || registry_contains(s, q) {
            if q == s[0].0 {
                assert(r[0].0 == q);
            } else if q == pc || registry_contains(rest, q) {
                let k = choose|k: int|
                    0 <= k < sorted_insert(rest, pc, block).len() && (#[trigger] sorted_insert(
                        rest,
                        pc,
                        block,
                    )[k]).0 == q;
                assert(r[k + 1].0 == q);
            } else {
                let k = choose|k: int| 0 <= k < s.len() && (#[trigger] s[k]).0 == q;
                assert(k > 0);
                assert(rest[k - 1].0 == q);
            }
        }
        if registry_contains(r, q) {
            let k = choose|k: int| 0 <= k < r.len() && (#[trigger] r[k]).0 == q;
            if k == 0 {
                assert(s[0].0 == q);
            } else {
                assert(sorted_insert(rest, pc, block)[k - 1].0 == q);
                if q != pc {
                    let t = choose|t: int| 0 <= t < rest.len() && (#[trigger] rest[t]).0 == q;
                    assert(s[t + 1].0 == q);
                }
            }
        }
    }
}

/// While the folding succeeds, the registry's key set is exactly the set of
/// `JUMPDEST` PCs of the prefix.
proof fn lemma_registry_tracks(ops: Seq<Operation>, n: nat, q: usize)
    requires
        n <= ops.len(),
        spec_registry(ops, n) is Ok,
    ensures
        registry_contains(spec_registry(ops, n).unwrap(), q) <==> exists|i: int|
            0 <= i < n && #[trigger] jumpdest_pc(ops[i]) == Some(q),
    decreases n,
{
    if n > 0 {
        lemma_registry_tracks(ops, (n - 1) as nat, q);
        let prev = spec_registry(ops, (n - 1) as nat).unwrap();
        let reg = spec_registry(ops, n).unwrap();
        match ops[n - 1] {
            Operation::Jumpdest { pc } => {
                lemma_sorted_insert_contains(
                    prev,
                    pc,
                    (blocks_used(ops, (n - 1) as nat) + 1) as usize,
                    q,
                );
                if q == pc {
                    assert(jumpdest_pc(ops[n - 1]) == Some(q));
                }
            },
            _ => {
                assert(reg == prev);
                if exists|i: int| 0 <= i < n && #[trigger] jumpdest_pc(ops[i]) == Some(q) {
                    let i = choose|i: int|
                        0 <= i < n && #[trigger] jumpdest_pc(ops[i]) == Some(q);
                    assert(i < n - 1);
                }
            },
        }
    }
}

/// A successful folding stays successful on every shorter prefix.
proof fn lemma_registry_ok_prefix(ops: Seq<Operation>, n: nat, m: nat)
    requires
        m <= n <= ops.len(),
        spec_registry(ops, n) is Ok,
    ensures
        spec_registry(ops, m) is Ok,
    decreases n,
{
    if m < n {
        assert(spec_registry(ops, (n - 1) as nat) is Ok);
        lemma_registry_ok_prefix(ops, (n - 1) as nat, m);
    }
}

/// An error in the folding exposes a duplicated `JUMPDEST` PC.
proof fn lemma_registry_err_gives_duplicate(ops: Seq<Operation>, n: nat)
    requires
        n <= ops.len(),
        spec_registry(ops, n) is Err,
    ensures
        has_duplicate_jumpdest(ops),
    decreases n,
{
    if spec_registry(ops, (n - 1) as nat) is Err {
        lemma_registry_err_gives_duplicate(ops, (n - 1) as nat);
    } else {
        let prev = spec_registry(ops, (n - 1) as nat).unwrap();
        let pc = ops[n - 1]->Jumpdest_pc;
        assert(jumpdest_pc(ops[n - 1]) == Some(pc));
        assert(registry_contains(prev, pc));
        lemma_registry_tracks(ops, (n - 1) as nat, pc);
        let i = choose|i: int| 0 <= i < n - 1 && #[trigger] jumpdest_pc(ops[i]) == Some(pc);
        assert(0 <= i < n - 1 && jumpdest_pc(ops[i]) is Some && jumpdest_pc(ops[i])
            == jumpdest_pc(ops[n - 1]));
    }
}

/// Lowering fails exactly when two `JUMPDEST` operations share a PC: the
/// registry folding, and with it [`crate::lowering::compile`], reports an
/// error if and only if the program carries a duplicate jump key.
pub proof fn lemma_lowering_fails_iff_duplicate_pc(ops: Seq<Operation>)
    ensures
        spec_registry(ops, ops.len()) is Err <==> has_duplicate_jumpdest(ops),
{
    if spec_registry(ops, ops.len()) is Err {
        lemma_registry_err_gives_duplicate(ops, ops.len());
    }
    if has_duplicate_jumpdest(ops) && spec_registry(ops, ops.len()) is Ok {
        let (i, j): (int, int) = choose|i: int, j: int|
            0 <= i < j < ops.len() && (#[trigger] jumpdest_pc(ops[i])) is Some && jumpdest_pc(
                ops[i],
            ) == #[trigger] jumpdest_pc(ops[j]);
        let pc = ops[j]->Jumpdest_pc;
        lemma_registry_ok_prefix(ops, ops.len(), (j + 1) as nat);
        lemma_registry_ok_prefix(ops, (j + 1) as nat, j as nat);
        lemma_registry_tracks(ops, j as nat, pc);
        assert(jumpdest_pc(ops[i]) == Some(pc));
        assert(registry_contains(spec_registry(ops, j as nat).unwrap(), pc));
        assert(spec_registry(ops, (j + 1) as nat) is Err);
    }
}

} // verus!
