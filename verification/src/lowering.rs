//! Lowering a program to the control-flow IR.
//!
//! The lowering walks the operations in order, appending instructions to the
//! current open block.  Every opcode that can fail at runtime closes the
//! current block with a guard that branches to the single revert sink.  Each
//! `JUMPDEST` opens a fresh block and registers its PC; each `JUMP` funnels
//! through the jump-table block, which the finished module dispatches over
//! the registry in ascending PC order, defaulting to the revert sink.  The
//! jump table, and the number of blocks, are pinned as functions of the
//! program alone; a duplicate `JUMPDEST` PC is the one lowering-time error.

use crate::constants::STACK_CAPACITY;
use crate::ir::{registry_contains, registry_sorted, Block, BlockRef, Inst, IrModule, Pred, Term};
use crate::program::{Operation, Program};
use crate::word::Word;
use vstd::prelude::*;

verus! {

/// A lowering-time failure.  Malformed push words cannot arise (words carry
/// their range by construction) and the IR is well-formed by proof, so the
/// only failure left is a duplicated jump destination.
#[derive(Clone, Copy, PartialEq, Eq, Structural, Debug)]
pub enum LoweringError {
    /// Two `JUMPDEST` operations share this PC.
    DuplicateJumpDest { pc: usize },
}

/// Insertion into a PC-sorted table, keeping ascending order.
pub open spec fn sorted_insert(s: Seq<(usize, usize)>, pc: usize, block: usize) -> Seq<
    (usize, usize),
>
    decreases s.len(),
{
    if s.len() == 0 {
        seq![(pc, block)]
    } else if pc < s[0].0 {
        seq![(pc, block)] + s
    } else {
        seq![s[0]] + sorted_insert(s.drop_first(), pc, block)
    }
}

/// How many blocks the lowering of one operation closes.
pub open spec fn op_blocks(op: Operation) -> nat {
    match op {
        Operation::Jump => 2,
        _ => 1,
    }
}

/// How many blocks lowering the first `n` operations closes.
pub open spec fn blocks_used(ops: Seq<Operation>, n: nat) -> nat
    decreases n,
    when n <= ops.len()
{
    if n == 0 {
        0
    } else {
        blocks_used(ops, (n - 1) as nat) + op_blocks(ops[n - 1])
    }
}

/// The jump-destination registry after lowering the first `n` operations:
/// each `JUMPDEST` PC mapped, in ascending PC order, to the block the
/// lowering opens for it — or the duplicated PC on which lowering fails.
pub open spec fn spec_registry(ops: Seq<Operation>, n: nat) -> Result<Seq<(usize, usize)>, usize>
    decreases n,
    when n <= ops.len()
{
    if n == 0 {
        Ok(Seq::empty())
    } else {
        match spec_registry(ops, (n - 1) as nat) {
            Err(pc) => Err(pc),
            Ok(reg) => match ops[n - 1] {
                Operation::Jumpdest { pc } => if registry_contains(reg, pc) {
                    Err(pc)
                } else {
                    Ok(
                        sorted_insert(
                            reg,
                            pc,
                            (blocks_used(ops, (n - 1) as nat) + 1) as usize,
                        ),
                    )
                },
                _ => Ok(reg),
            },
        }
    }
}

/// The guard sequence that reads the stack depth and compares it against a
/// bound; `base` is the index of its first instruction in the block.
pub open spec fn guard_insts(base: nat, bound: u64, pred: Pred) -> Seq<Inst> {
    seq![
        Inst::Depth { dst: base as usize },
        Inst::Const { dst: (base + 1) as usize, value: (Word { l0: bound, l1: 0, l2: 0, l3: 0 }) },
        Inst::Cmp {
            dst: (base + 2) as usize,
            pred,
            lhs: base as usize,
            rhs: (base + 1) as usize,
        },
    ]
}

/// Mutable lowering state, scoped to one program: the finished blocks in
/// creation order, the instructions of the single open block (whose id is
/// `blocks.len()`), and the jump-destination registry.
pub struct OperationCtx {
    pub blocks: Vec<Block>,
    pub current: Vec<Inst>,
    pub jumpdest_blocks: Vec<(usize, usize)>,
}

impl OperationCtx {
    /// Invariant kept across lowering steps: the registry ascends by PC and
    /// points at blocks that exist (or at the open block), every finished
    /// block branches no further than the open block, and the open block is
    /// short.
    pub open spec fn wf(self) -> bool {
        &&& registry_sorted(self.jumpdest_blocks@)
        &&& forall|k: int|
            0 <= k < self.jumpdest_blocks@.len() ==> ((#[trigger] self.jumpdest_blocks@[k]).1
                as nat) <= self.blocks@.len()
        &&& forall|b: int|
            0 <= b < self.blocks@.len() ==> (#[trigger] self.blocks@[b]).term.in_bounds(
                self.blocks@.len() + 1,
            )
        &&& self.current@.len() <= 4
    }

    /// A context with one empty open block (the entry block) and an empty
    /// registry.
    pub fn new() -> (r: OperationCtx)
        ensures
            r.blocks@ == Seq::<Block>::empty(),
            r.current@ == Seq::<Inst>::empty(),
            r.jumpdest_blocks@ == Seq::<(usize, usize)>::empty(),
            r.wf(),
    {
        OperationCtx { blocks: Vec::new(), current: Vec::new(), jumpdest_blocks: Vec::new() }
    }

    /// Closes the open block with `term`; the next block becomes current.
    fn finish_block(&mut self, term: Term)
        ensures
            final(self).blocks@.len() == old(self).blocks@.len() + 1,
            final(self).blocks@.drop_last() == old(self).blocks@,
            final(self).blocks@.last().is_block(old(self).current@, term),
            final(self).current@ == Seq::<Inst>::empty(),
            final(self).jumpdest_blocks == old(self).jumpdest_blocks,
    {
        let mut insts: Vec<Inst> = Vec::new();
        core::mem::swap(&mut insts, &mut self.current);
        self.blocks.push(Block { insts, term });
        proof {
            assert(self.blocks@.drop_last() =~= old(self).blocks@);
        }
    }

    /// Registers the block that will open next as the jump destination for
    /// `pc`.  Fails, leaving the context unchanged, if `pc` is already
    /// registered.
    pub fn register_jump_destination(&mut self, pc: usize, block: usize) -> (r: Result<
        (),
        LoweringError,
    >)
        requires
            registry_sorted(old(self).jumpdest_blocks@),
        ensures
            final(self).blocks == old(self).blocks,
            final(self).current == old(self).current,
            match r {
                Ok(()) => !registry_contains(old(self).jumpdest_blocks@, pc)
                    && final(self).jumpdest_blocks@ == sorted_insert(
                    old(self).jumpdest_blocks@,
                    pc,
                    block,
                ) && registry_sorted(final(self).jumpdest_blocks@) && forall|k: int|
                    0 <= k < final(self).jumpdest_blocks@.len() ==> ((
                    #[trigger] final(self).jumpdest_blocks@[k]).1 == block || registry_has_entry(
                        old(self).jumpdest_blocks@,
                        final(self).jumpdest_blocks@[k],
                    )),
                Err(e) => e == (LoweringError::DuplicateJumpDest { pc }) && registry_contains(
                    old(self).jumpdest_blocks@,
                    pc,
                ) && final(self).jumpdest_blocks == old(self).jumpdest_blocks,
            },
    {
        let ghost s = self.jumpdest_blocks@;
        let n = self.jumpdest_blocks.len();
        let mut k: usize = 0;
        while k < n && self.jumpdest_blocks[k].0 < pc
            invariant
                k <= n == self.jumpdest_blocks@.len(),
                self.jumpdest_blocks@ == s,
                forall|t: int| 0 <= t < k ==> (#[trigger] s[t]).0 < pc,
            decreases n - k,
        {
            k = k + 1;
        }
        if k < n && self.jumpdest_blocks[k].0 == pc {
            return Err(LoweringError::DuplicateJumpDest { pc });
        }
        proof {
            if k < s.len() {
                assert(s[k as int].0 > pc);
            }
            assert(!registry_contains(s, pc)) by {
                assert forall|t: int| 0 <= t < s.len() implies (#[trigger] s[t]).0 != pc by {
                    if t >= k && k < s.len() && t > k {
                        assert(s[k as int].0 < s[t].0);
                    }
                }
            }
            lemma_sorted_insert_at(s, pc, block, k as int);
        }
        self.jumpdest_blocks.insert(k, (pc, block));
        proof {
            let post = self.jumpdest_blocks@;
            assert(post =~= s.subrange(0, k as int) + seq![(pc, block)] + s.subrange(
                k as int,
                s.len() as int,
            ));
            assert(registry_sorted(post)) by {
                assert forall|i: int, j: int| 0 <= i < j < post.len() implies (
                #[trigger] post[i]).0 < (#[trigger] post[j]).0 by {
                    if i < k && j == k {
                    } else if i == k && j > k {
                        assert(post[j] == s[j - 1]);
                        if j - 1 > k {
                            assert(s[k as int].0 < s[j - 1].0);
                        }
                    } else if i < k && j > k {
                        assert(post[j] == s[j - 1]);
                        if j - 1 > k {
                            assert(s[k as int].0 < s[j - 1].0);
                        }
                    }
                }
            }
            assert forall|t: int| 0 <= t < post.len() implies ((#[trigger] post[t]).1 == block
                || registry_has_entry(s, post[t])) by {
                if t < k {
                    assert(post[t] == s[t]);
                } else if t > k {
                    assert(post[t] == s[t - 1]);
                }
            }
        }
        Ok(())
    }

    /// Closes the open block with an unconditional branch to the jump-table
    /// block, forwarding the register that holds the target PC.
    pub fn add_jump_op(&mut self, pc_value: usize)
        ensures
            final(self).blocks@.len() == old(self).blocks@.len() + 1,
            final(self).blocks@.drop_last() == old(self).blocks@,
            final(self).blocks@.last().is_block(
                old(self).current@,
                Term::Br { target: BlockRef::JumpTable, arg: Some(pc_value) },
            ),
            final(self).current@ == Seq::<Inst>::empty(),
            final(self).jumpdest_blocks == old(self).jumpdest_blocks,
    {
        self.finish_block(Term::Br { target: BlockRef::JumpTable, arg: Some(pc_value) });
    }

    /// Closes the open block with a stack guard: fall through to the block
    /// that opens next when `pred(depth, bound)` holds, else revert.
    fn emit_guard(&mut self, bound: u64, pred: Pred)
        requires
            old(self).current@.len() <= 4,
            old(self).blocks@.len() < usize::MAX,
        ensures
            final(self).blocks@.len() == old(self).blocks@.len() + 1,
            final(self).blocks@.drop_last() == old(self).blocks@,
            final(self).blocks@.last().is_block(
                old(self).current@ + guard_insts(old(self).current@.len(), bound, pred),
                Term::CondBr {
                    cond: (old(self).current@.len() + 2) as usize,
                    then_target: BlockRef::Block((old(self).blocks@.len() + 1) as usize),
                    else_target: BlockRef::Revert,
                },
            ),
            final(self).current@ == Seq::<Inst>::empty(),
            final(self).jumpdest_blocks == old(self).jumpdest_blocks,
    {
        let d = self.current.len();
        self.current.push(Inst::Depth { dst: d });
        self.current.push(
            Inst::Const { dst: d + 1, value: Word { l0: bound, l1: 0, l2: 0, l3: 0 } },
        );
        self.current.push(Inst::Cmp { dst: d + 2, pred, lhs: d, rhs: d + 1 });
        proof {
            assert(self.current@ =~= old(self).current@ + guard_insts(
                old(self).current@.len(),
                bound,
                pred,
            ));
        }
        let ok = self.blocks.len() + 1;
        self.finish_block(
            Term::CondBr {
                cond: d + 2,
                then_target: BlockRef::Block(ok),
                else_target: BlockRef::Revert,
            },
        );
    }

    /// Lowers `PUSH`: revert unless the stack has room for one more word,
    /// then push the constant.
    pub fn lower_push(&mut self, w: Word)
        requires
            old(self).wf(),
            old(self).blocks@.len() < usize::MAX,
        ensures
            final(self).wf(),
            final(self).blocks@.len() == old(self).blocks@.len() + 1,
            final(self).blocks@.drop_last() == old(self).blocks@,
            guard_block_shape(
                final(self).blocks@.last(),
                old(self).current@,
                STACK_CAPACITY as u64,
                Pred::Lt,
                old(self).blocks@.len() + 1,
            ),
            final(self).current@ == seq![
                Inst::Const { dst: 0, value: w },
                Inst::Push { src: 0 },
            ],
            final(self).jumpdest_blocks == old(self).jumpdest_blocks,
    {
        self.emit_guard(STACK_CAPACITY as u64, Pred::Lt);
        self.current.push(Inst::Const { dst: 0, value: w });
        self.current.push(Inst::Push { src: 0 });
        proof {
            assert(self.current@ =~= seq![
                Inst::Const { dst: 0, value: w },
                Inst::Push { src: 0 },
            ]);
            lemma_wf_after_plain(*old(self), *self);
        }
    }

    /// Lowers `POP`: revert on an empty stack, else discard the top word.
    pub fn lower_pop(&mut self)
        requires
            old(self).wf(),
            old(self).blocks@.len() < usize::MAX,
        ensures
            final(self).wf(),
            final(self).blocks@.len() == old(self).blocks@.len() + 1,
            final(self).blocks@.drop_last() == old(self).blocks@,
            guard_block_shape(
                final(self).blocks@.last(),
                old(self).current@,
                1,
                Pred::Ge,
                old(self).blocks@.len() + 1,
            ),
            final(self).current@ == seq![Inst::Pop { dst: 0 }],
            final(self).jumpdest_blocks == old(self).jumpdest_blocks,
    {
        self.emit_guard(1, Pred::Ge);
        self.current.push(Inst::Pop { dst: 0 });
        proof {
            assert(self.current@ =~= seq![Inst::Pop { dst: 0 }]);
            lemma_wf_after_plain(*old(self), *self);
        }
    }

    /// Lowers a binary arithmetic opcode: revert unless two operands are on
    /// the stack, else pop both and push the wraparound result.
    fn lower_binary(&mut self, second: Inst)
        requires
            old(self).wf(),
            old(self).blocks@.len() < usize::MAX,
        ensures
            final(self).wf(),
            final(self).blocks@.len() == old(self).blocks@.len() + 1,
            final(self).blocks@.drop_last() == old(self).blocks@,
            guard_block_shape(
                final(self).blocks@.last(),
                old(self).current@,
                2,
                Pred::Ge,
                old(self).blocks@.len() + 1,
            ),
            final(self).current@ == seq![
                Inst::Pop { dst: 0 },
                Inst::Pop { dst: 1 },
                second,
                Inst::Push { src: 2 },
            ],
            final(self).jumpdest_blocks == old(self).jumpdest_blocks,
    {
        self.emit_guard(2, Pred::Ge);
        self.current.push(Inst::Pop { dst: 0 });
        self.current.push(Inst::Pop { dst: 1 });
        self.current.push(second);
        self.current.push(Inst::Push { src: 2 });
        proof {
            assert(self.current@ =~= seq![
                Inst::Pop { dst: 0 },
                Inst::Pop { dst: 1 },
                second,
                Inst::Push { src: 2 },
            ]);
            lemma_wf_after_plain(*old(self), *self);
        }
    }

    /// Lowers `ADD`.
    pub fn lower_add(&mut self)
        requires
            old(self).wf(),
            old(self).blocks@.len() < usize::MAX,
        ensures
            final(self).wf(),
            final(self).blocks@.len() == old(self).blocks@.len() + 1,
            final(self).blocks@.drop_last() == old(self).blocks@,
            guard_block_shape(
                final(self).blocks@.last(),
                old(self).current@,
                2,
                Pred::Ge,
                old(self).blocks@.len() + 1,
            ),
            final(self).current@ == seq![
                Inst::Pop { dst: 0 },
                Inst::Pop { dst: 1 },
                Inst::Add { dst: 2, lhs: 0, rhs: 1 },
                Inst::Push { src: 2 },
            ],
            final(self).jumpdest_blocks == old(self).jumpdest_blocks,
    {
        self.lower_binary(Inst::Add { dst: 2, lhs: 0, rhs: 1 });
    }

    /// Lowers `MUL`.
    pub fn lower_mul(&mut self)
        requires
            old(self).wf(),
            old(self).blocks@.len() < usize::MAX,
        ensures
            final(self).wf(),
            final(self).blocks@.len() == old(self).blocks@.len() + 1,
            final(self).blocks@.drop_last() == old(self).blocks@,
            guard_block_shape(
                final(self).blocks@.last(),
                old(self).current@,
                2,
                Pred::Ge,
                old(self).blocks@.len() + 1,
            ),
            final(self).current@ == seq![
                Inst::Pop { dst: 0 },
                Inst::Pop { dst: 1 },
                Inst::Mul { dst: 2, lhs: 0, rhs: 1 },
                Inst::Push { src: 2 },
            ],
            final(self).jumpdest_blocks == old(self).jumpdest_blocks,
    {
        self.lower_binary(Inst::Mul { dst: 2, lhs: 0, rhs: 1 });
    }

    /// Lowers `BYTE`: pops the offset, then the value, and pushes the
    /// selected byte.
    pub fn lower_byte(&mut self)
        requires
            old(self).wf(),
            old(self).blocks@.len() < usize::MAX,
        ensures
            final(self).wf(),
            final(self).blocks@.len() == old(self).blocks@.len() + 1,
            final(self).blocks@.drop_last() == old(self).blocks@,
            guard_block_shape(
                final(self).blocks@.last(),
                old(self).current@,
                2,
                Pred::Ge,
                old(self).blocks@.len() + 1,
            ),
            final(self).current@ == seq![
                Inst::Pop { dst: 0 },
                Inst::Pop { dst: 1 },
                Inst::Byte { dst: 2, offset: 0, value: 1 },
                Inst::Push { src: 2 },
            ],
            final(self).jumpdest_blocks == old(self).jumpdest_blocks,
    {
        self.lower_binary(Inst::Byte { dst: 2, offset: 0, value: 1 });
    }

    /// Lowers `JUMP`: revert on an empty stack, else pop the target PC and
    /// branch to the jump-table block.  The block that opens next is
    /// unreachable unless a later `JUMPDEST` lands in it.
    pub fn lower_jump(&mut self)
        requires
            old(self).wf(),
            old(self).blocks@.len() + 1 < usize::MAX,
        ensures
            final(self).wf(),
            final(self).blocks@.len() == old(self).blocks@.len() + 2,
            final(self).blocks@.drop_last().drop_last() == old(self).blocks@,
            guard_block_shape(
                final(self).blocks@.drop_last().last(),
                old(self).current@,
                1,
                Pred::Ge,
                old(self).blocks@.len() + 1,
            ),
            final(self).blocks@.last().is_block(
                seq![Inst::Pop { dst: 0 }],
                Term::Br { target: BlockRef::JumpTable, arg: Some(0) },
            ),
            final(self).current@ == Seq::<Inst>::empty(),
            final(self).jumpdest_blocks == old(self).jumpdest_blocks,
    {
        self.emit_guard(1, Pred::Ge);
        let ghost mid = *self;
        proof {
            lemma_wf_after_plain(*old(self), *self);
        }
        self.current.push(Inst::Pop { dst: 0 });
        self.add_jump_op(0);
        proof {
            assert(self.blocks@.drop_last().drop_last() =~= old(self).blocks@);
            assert(self.blocks@.drop_last() == mid.blocks@);
            lemma_wf_after_plain(mid, *self);
        }
    }

    /// Lowers `JUMPDEST`: closes the current block with a fall-through
    /// branch into a fresh block and registers that block under `pc`.
    /// Fails, leaving the context unchanged, on a duplicate `pc`.
    pub fn lower_jumpdest(&mut self, pc: usize) -> (r: Result<(), LoweringError>)
        requires
            old(self).wf(),
            old(self).blocks@.len() < usize::MAX,
        ensures
            final(self).wf(),
            match r {
                Ok(()) => !registry_contains(old(self).jumpdest_blocks@, pc)
                    && final(self).blocks@.len() == old(self).blocks@.len() + 1
                    && final(self).blocks@.drop_last()
                    == old(self).blocks@ && final(self).blocks@.last().is_block(
                    old(self).current@,
                    Term::Br {
                        target: BlockRef::Block((old(self).blocks@.len() + 1) as usize),
                        arg: None,
                    },
                ) && final(self).current@ == Seq::<Inst>::empty() && final(self).jumpdest_blocks@
                    == sorted_insert(
                    old(self).jumpdest_blocks@,
                    pc,
                    (old(self).blocks@.len() + 1) as usize,
                ),
                Err(e) => e == (LoweringError::DuplicateJumpDest { pc }) && registry_contains(
                    old(self).jumpdest_blocks@,
                    pc,
                ) && *final(self) == *old(self),
            },
    {
        let fresh = self.blocks.len() + 1;
        let result = self.register_jump_destination(pc, fresh);
        match result {
            Err(e) => Err(e),
            Ok(()) => {
                self.finish_block(Term::Br { target: BlockRef::Block(fresh), arg: None });
                proof {
                    assert forall|k: int|
                        0 <= k < self.jumpdest_blocks@.len() implies ((
                    #[trigger] self.jumpdest_blocks@[k]).1 as nat) <= old(self).blocks@.len()
                        + 1 by {
                        if self.jumpdest_blocks@[k].1 != fresh {
                            assert(registry_has_entry(
                                old(self).jumpdest_blocks@,
                                self.jumpdest_blocks@[k],
                            ));
                        }
                    }
                    lemma_wf_after_plain(*old(self), *self);
                }
                Ok(())
            },
        }
    }
}

/// Whether a finished block is a stack guard: the prefix the block already
/// held, then the depth test against `bound`, falling through to block `ok`
/// and reverting otherwise.
pub open spec fn guard_block_shape(
    b: Block,
    prefix: Seq<Inst>,
    bound: u64,
    pred: Pred,
    ok: nat,
) -> bool {
    b.is_block(
        prefix + guard_insts(prefix.len(), bound, pred),
        Term::CondBr {
            cond: (prefix.len() + 2) as usize,
            then_target: BlockRef::Block(ok as usize),
            else_target: BlockRef::Revert,
        },
    )
}

/// A target that stays inside `n` blocks stays inside `m >= n` blocks.
proof fn lemma_in_bounds_mono(t: Term, n: nat, m: nat)
    requires
        t.in_bounds(n),
        n <= m,
    ensures
        t.in_bounds(m),
{
}

/// Closing one more block preserves the context invariant, provided the new
/// block branches no further than the block after the one now open.
proof fn lemma_wf_after_plain(pre: OperationCtx, post: OperationCtx)
    requires
        pre.wf(),
        post.blocks@.len() == pre.blocks@.len() + 1,
        post.blocks@.drop_last() == pre.blocks@,
        post.blocks@.last().term.in_bounds(pre.blocks@.len() + 2),
        post.current@.len() <= 4,
        post.jumpdest_blocks@ == pre.jumpdest_blocks@ || (registry_sorted(post.jumpdest_blocks@)
            && forall|k: int|
            0 <= k < post.jumpdest_blocks@.len() ==> ((#[trigger] post.jumpdest_blocks@[k]).1
                as nat) <= pre.blocks@.len() + 1),
    ensures
        post.wf(),
{
    assert forall|b: int| 0 <= b < post.blocks@.len() implies (
    #[trigger] post.blocks@[b]).term.in_bounds(post.blocks@.len() + 1) by {
        if b < pre.blocks@.len() {
            assert(post.blocks@[b] == post.blocks@.drop_last()[b]);
            assert(pre.blocks@[b].term.in_bounds(pre.blocks@.len() + 1));
            lemma_in_bounds_mono(pre.blocks@[b].term, pre.blocks@.len() + 1, post.blocks@.len() + 1);
        }
    }
    if post.jumpdest_blocks@ == pre.jumpdest_blocks@ {
        assert forall|k: int| 0 <= k < post.jumpdest_blocks@.len() implies ((
        #[trigger] post.jumpdest_blocks@[k]).1 as nat) <= post.blocks@.len() by {
            assert(pre.jumpdest_blocks@[k].1 as nat <= pre.blocks@.len());
        }
    }
}



/// Whether `entry` is one of the table's entries.
pub open spec fn registry_has_entry(s: Seq<(usize, usize)>, entry: (usize, usize)) -> bool {
    exists|k: int| 0 <= k < s.len() && (#[trigger] s[k]) == entry
}

/// Insertion at the position the scan found equals the recursive insertion.
proof fn lemma_sorted_insert_at(s: Seq<(usize, usize)>, pc: usize, block: usize, k: int)
    requires
        0 <= k <= s.len(),
        forall|t: int| 0 <= t < k ==> (#[trigger] s[t]).0 < pc,
        k < s.len() ==> s[k].0 > pc,
    ensures
        sorted_insert(s, pc, block) == s.subrange(0, k) + seq![(pc, block)] + s.subrange(
            k,
            s.len() as int,
        ),
    decreases k,
{
    if k == 0 {
        if s.len() == 0 {
            assert(sorted_insert(s, pc, block) =~= s.subrange(0, 0) + seq![(pc, block)]
                + s.subrange(0, 0));
        } else {
            assert(pc < s[0].0);
            assert(sorted_insert(s, pc, block) =~= s.subrange(0, 0) + seq![(pc, block)]
                + s.subrange(0, s.len() as int));
        }
    } else {
        let rest = s.drop_first();
        assert(forall|t: int| 0 <= t < k - 1 ==> (#[trigger] rest[t]).0 < pc);
        lemma_sorted_insert_at(rest, pc, block, k - 1);
        assert(sorted_insert(s, pc, block) == seq![s[0]] + sorted_insert(rest, pc, block));
        assert(sorted_insert(s, pc, block) =~= s.subrange(0, k) + seq![(pc, block)] + s.subrange(
            k,
            s.len() as int,
        ));
    }
}

/// Once the registry folding fails, it stays failed.
proof fn lemma_registry_err_stable(ops: Seq<Operation>, m: nat)
    requires
        m <= ops.len(),
        spec_registry(ops, m) is Err,
    ensures
        spec_registry(ops, ops.len()) == spec_registry(ops, m),
    decreases ops.len() - m,
{
    if m < ops.len() {
        assert(spec_registry(ops, m + 1) == spec_registry(ops, m));
        lemma_registry_err_stable(ops, m + 1);
    }
}

/// Lowers a program to an IR module.
///
/// Succeeds if and only if the program's `JUMPDEST` PCs are all distinct (a
/// duplicate is reported in the error); the module is then well-formed, its
/// jump table is exactly the registry the program determines — ascending by
/// PC, each PC mapped to the block its `JUMPDEST` opens — and its block
/// count is a function of the program alone.  Block 0 is the entry block.
pub fn compile(program: &Program) -> (r: Result<IrModule, LoweringError>)
    requires
        2 * program.ops().len() + 3 <= usize::MAX,
    ensures
        match r {
            Ok(m) => m.wf() && (spec_registry(program.ops(), program.ops().len()) matches Ok(reg)
                && m.jumptable@ == reg) && m.blocks@.len() == blocks_used(
                program.ops(),
                program.ops().len(),
            ) + 3,
            Err(e) => (e matches LoweringError::DuplicateJumpDest { pc } && spec_registry(
                program.ops(),
                program.ops().len(),
            ) == Err::<Seq<(usize, usize)>, usize>(pc)),
        },
{
    let ops = &program.operations;
    let n = ops.len();
    let mut ctx = OperationCtx::new();
    let mut i: usize = 0;
    while i < n
        invariant
            i <= n == ops@.len(),
            ops@ == program.ops(),
            2 * ops@.len() + 3 <= usize::MAX,
            ctx.wf(),
            ctx.blocks@.len() == blocks_used(ops@, i as nat),
            blocks_used(ops@, i as nat) <= 2 * i,
            spec_registry(ops@, i as nat) == Ok::<Seq<(usize, usize)>, usize>(
                ctx.jumpdest_blocks@,
            ),
        decreases n - i,
    {
        let op = ops[i];
        match op {
            Operation::Push(w) => {
                ctx.lower_push(w);
            },
            Operation::Pop => {
                ctx.lower_pop();
            },
            Operation::Add => {
                ctx.lower_add();
            },
            Operation::Mul => {
                ctx.lower_mul();
            },
            Operation::Byte => {
                ctx.lower_byte();
            },
            Operation::Jump => {
                ctx.lower_jump();
            },
            Operation::Jumpdest { pc } => {
                let result = ctx.lower_jumpdest(pc);
                match result {
                    Ok(()) => {},
                    Err(e) => {
                        proof {
                            assert(spec_registry(ops@, (i + 1) as nat) == Err::<
                                Seq<(usize, usize)>,
                                usize,
                            >(pc));
                            lemma_registry_err_stable(ops@, (i + 1) as nat);
                        }
                        return Err(e);
                    },
                }
            },
        }
        proof {
            assert(blocks_used(ops@, (i + 1) as nat) == blocks_used(ops@, i as nat) + op_blocks(
                ops@[i as int],
            ));
            assert(spec_registry(ops@, (i + 1) as nat) == Ok::<Seq<(usize, usize)>, usize>(
                ctx.jumpdest_blocks@,
            ));
        }
        i = i + 1;
    }
    // Natural exit: zero for an empty stack, else the low byte of the top.
    let ghost loop_ctx = ctx;
    let d = ctx.current.len();
    ctx.current.push(Inst::Depth { dst: d });
    ctx.current.push(Inst::Const { dst: d + 1, value: Word::zero() });
    ctx.current.push(Inst::Cmp { dst: d + 2, pred: Pred::Eq, lhs: d, rhs: d + 1 });
    let empty_exit = ctx.blocks.len() + 1;
    let top_exit = ctx.blocks.len() + 2;
    ctx.finish_block(
        Term::CondBr {
            cond: d + 2,
            then_target: BlockRef::Block(empty_exit),
            else_target: BlockRef::Block(top_exit),
        },
    );
    ctx.current.push(Inst::Const { dst: 0, value: Word::zero() });
    ctx.finish_block(Term::Return { src: 0 });
    ctx.current.push(Inst::Pop { dst: 0 });
    ctx.finish_block(Term::Return { src: 0 });
    let m = IrModule { blocks: ctx.blocks, jumptable: ctx.jumpdest_blocks };
    proof {
        let fin = m.blocks@.len();
        assert(fin == loop_ctx.blocks@.len() + 3);
        assert forall|b: int| 0 <= b < fin implies (#[trigger] m.blocks@[b]).term.in_bounds(
            fin,
        ) by {
            if b < loop_ctx.blocks@.len() {
                assert(m.blocks@[b] == loop_ctx.blocks@[b]);
                assert(loop_ctx.blocks@[b].term.in_bounds(loop_ctx.blocks@.len() + 1));
                lemma_in_bounds_mono(loop_ctx.blocks@[b].term, loop_ctx.blocks@.len() + 1, fin);
            }
        }
        assert forall|k: int| 0 <= k < m.jumptable@.len() implies ((
        #[trigger] m.jumptable@[k]).1 as nat) < fin by {
            assert(loop_ctx.jumpdest_blocks@[k].1 as nat <= loop_ctx.blocks@.len());
        }
    }
    Ok(m)
}

} // verus!
