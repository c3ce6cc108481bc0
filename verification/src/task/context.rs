//! The task context: the registers that a switch between kernel threads
//! saves and restores.

use vstd::prelude::*;

verus! {

/// Return address, stack pointer and the callee-saved registers `s0` to
/// `s11` of a kernel thread that is not running.
#[derive(Clone, Copy, Debug)]
pub struct TaskContext {
    pub ra: u64,
    pub sp: u64,
    pub s: [u64; 12],
}

impl TaskContext {
    /// A context with every register zero.
    pub fn new() -> (r: Self)
        ensures
            r.ra == 0,
            r.sp == 0,
            forall|i: int| 0 <= i < 12 ==> r.s[i] == 0,
    {
        TaskContext { ra: 0, sp: 0, s: [0u64;12] }
    }

    /// Prepares the context of a task that has not run yet: a switch to
    /// it returns into the code at `trap_return`, which leaves for user
    /// mode, on the kernel stack whose top is `kernel_sp`.
    pub fn init(&mut self, kernel_sp: u64, trap_return: u64)
        ensures
            final(self).ra == trap_return,
            final(self).sp == kernel_sp,
            forall|i: int| 0 <= i < 12 ==> final(self).s[i] == 0,
    {
        self.ra = trap_return;
        self.sp = kernel_sp;
        self.s = [0u64;12];
    }
}

} // verus!
