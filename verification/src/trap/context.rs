//! The trap frame: the user registers saved on a trap, and what the
//! trap entry code needs to get into the kernel.

use vstd::prelude::*;
use crate::mem::address::Page;
use crate::mem::phys_mem::PhysMemory;

verus! {

/// Number of machine words that a trap frame takes up in memory.
pub const TRAP_CONTEXT_WORDS: usize = 36;

/// The saved state of a user task, laid out as the trap entry code
/// expects it.
#[derive(Clone, Copy, Debug)]
pub struct TrapContext {
    /// The general-purpose registers; `x[2]` is the stack pointer.
    pub x: [u64; 32],
    /// SATP value of the kernel page table.
    pub kernel_satp: u64,
    /// Top of the task's kernel stack.
    pub kernel_sp: u64,
    /// Address of the kernel's handler for traps from user mode.
    pub kernel_trap: u64,
    /// Saved user program counter.
    pub epc: u64,
}

impl TrapContext {
    /// The trap frame as words in memory: the registers, then the kernel
    /// SATP, the kernel stack pointer, the handler address and the saved
    /// program counter.
    pub open spec fn words(&self) -> Seq<u64> {
        self.x@.push(self.kernel_satp).push(self.kernel_sp).push(self.kernel_trap).push(self.epc)
    }

    /// Whether the frame at `page` holds this trap frame in its first
    /// words.
    pub open spec fn stored_at(&self, mem: &PhysMemory, page: u64) -> bool {
        forall|i: int| 0 <= i < 36 ==> #[trigger] mem.word(page, i) == self.words()[i]
    }

    /// A trap frame with all registers and the program counter zero.
    pub fn new(kernel_satp: u64, kernel_sp: u64, kernel_trap: u64) -> (r: Self)
        ensures
            forall|i: int| 0 <= i < 32 ==> r.x[i] == 0,
            r.kernel_satp == kernel_satp,
            r.kernel_sp == kernel_sp,
            r.kernel_trap == kernel_trap,
            r.epc == 0,
    {
        TrapContext { x: [0u64;32], kernel_satp, kernel_sp, kernel_trap, epc: 0 }
    }

    pub fn set_sp(&mut self, sp: u64)
        ensures
            final(self).x@ == old(self).x@.update(2, sp),
            final(self).kernel_satp == old(self).kernel_satp,
            final(self).kernel_sp == old(self).kernel_sp,
            final(self).kernel_trap == old(self).kernel_trap,
            final(self).epc == old(self).epc,
    {
        self.x[2] = sp;
    }

    pub fn set_epc(&mut self, epc: u64)
        ensures
            final(self).epc == epc,
            final(self).x == old(self).x,
            final(self).kernel_satp == old(self).kernel_satp,
            final(self).kernel_sp == old(self).kernel_sp,
            final(self).kernel_trap == old(self).kernel_trap,
    {
        self.epc = epc;
    }

    /// The trap frame of a task that has not run yet: every register
    /// zero but the stack pointer, and the program counter at the entry
    /// of the program.
    pub fn app_init_context(
        entry: u64,
        sp: u64,
        kernel_satp: u64,
        kernel_sp: u64,
        kernel_trap: u64,
    ) -> (r: Self)
        ensures
            forall|i: int| 0 <= i < 32 ==> r.x[i] == if i == 2 {
                sp
            } else {
                0
            },
            r.kernel_satp == kernel_satp,
            r.kernel_sp == kernel_sp,
            r.kernel_trap == kernel_trap,
            r.epc == entry,
    {
        let mut x = [0u64;32];
        x[2] = sp;
        TrapContext { x, kernel_satp, kernel_sp, kernel_trap, epc: entry }
    }

    /// Reads the trap frame held in the first words of the frame at
    /// `page`.
    pub fn load(mem: &PhysMemory, page: Page) -> (r: Self)
        requires
            mem.wf(),
            mem.contains_page(page.addr),
        ensures
            r.stored_at(mem, page.addr),
    {
        let mut x = [0u64;32];
        let mut i: usize = 0;
        while i < 32
            invariant
                i <= 32,
                mem.wf(),
                mem.contains_page(page.addr),
                forall|j: int| 0 <= j < i ==> x[j] == mem.word(page.addr, j),
            decreases 32 - i,
        {
            x[i] = mem.read(page, i);
            i = i + 1;
        }
        let r = TrapContext {
            x,
            kernel_satp: mem.read(page, 32),
            kernel_sp: mem.read(page, 33),
            kernel_trap: mem.read(page, 34),
            epc: mem.read(page, 35),
        };
        r
    }

    /// Writes the trap frame to the first words of the frame at `page`;
    /// every other word of memory keeps its value.
    pub fn store(&self, mem: &mut PhysMemory, page: Page)
        requires
            old(mem).wf(),
            old(mem).contains_page(page.addr),
        ensures
            final(mem).wf(),
            final(mem).same_range(old(mem)),
            self.stored_at(final(mem), page.addr),
            forall|p: u64, i: int|
                old(mem).contains_page(p) && 0 <= i < 512 && !(p == page.addr && i < 36)
                    ==> #[trigger] final(mem).word(p, i) == old(mem).word(p, i),
    {
        let mut i: usize = 0;
        while i < 32
            invariant
                i <= 32,
                mem.wf(),
                mem.same_range(old(mem)),
                old(mem).contains_page(page.addr),
                forall|j: int| 0 <= j < i ==> #[trigger] mem.word(page.addr, j) == self.x[j],
                forall|p: u64, k: int|
                    old(mem).contains_page(p) && 0 <= k < 512 && !(p == page.addr && k < 36)
                        ==> #[trigger] mem.word(p, k) == old(mem).word(p, k),
            decreases 32 - i,
        {
            mem.write(page, i, self.x[i]);
            i = i + 1;
        }
        mem.write(page, 32, self.kernel_satp);
        mem.write(page, 33, self.kernel_sp);
        mem.write(page, 34, self.kernel_trap);
        mem.write(page, 35, self.epc);
    }
}

} // verus!
