//! Byte constants shared by the runtime semantics and the lowering.

use vstd::prelude::*;

verus! {

/// Exit code of a program run that reverts: stack overflow, stack underflow,
/// or a jump to a program counter that is not a registered `JUMPDEST`.
/// Every revert path yields exactly this byte.
pub const REVERT_EXIT_CODE: u8 = 255;

/// Maximum number of 256-bit words the runtime stack can hold.
pub const STACK_CAPACITY: usize = 1024;

} // verus!
