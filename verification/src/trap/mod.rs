//! Traps from user mode: the trap frame and the dispatch of trap causes.

pub mod cause;
pub mod context;
pub mod interrupt;

use vstd::prelude::*;
use crate::mem::address::Page;
use crate::mem::page_allocator::PageAllocator;
use crate::mem::phys_mem::PhysMemory;
use crate::mem::user_space::UserSpace;
use crate::syscall::fs::{KernelFault, write_result};
use crate::syscall::{
    SYSCALL_EXIT, SYSCALL_WRITE, SYSCALL_YIELD, SyscallResult, killed, suspended, syscall,
};
use crate::task::{Schedule, TaskManager, run_next_task_kill, run_next_task_suspend};
use crate::trap::cause::{Exception, Interrupt, Trap, cause_of, decode_cause};

verus! {

/// Word of the trap frame that holds register `a0`: the first argument
/// of a system call and its result.
pub const FRAME_A0: usize = 10;

/// Word of the trap frame that holds register `a1`.
pub const FRAME_A1: usize = 11;

/// Word of the trap frame that holds register `a2`.
pub const FRAME_A2: usize = 12;

/// Word of the trap frame that holds register `a7`: the number of a
/// system call.
pub const FRAME_A7: usize = 17;

/// Word of the trap frame that holds the saved user program counter.
pub const FRAME_EPC: usize = 35;

/// The address of the instruction after an environment call at `sepc`:
/// four bytes on, going round at the end of the address range.
pub open spec fn next_pc(sepc: u64) -> u64 {
    if sepc > u64::MAX - 4 {
        (sepc - (u64::MAX - 3)) as u64
    } else {
        (sepc + 4) as u64
    }
}

/// Why the kernel ended a task.
#[derive(Clone, Copy, PartialEq, Eq, Structural, Debug)]
pub enum KillReason {
    PageFault,
    IllegalInstruction,
}

/// What is left to do after a trap from user mode has been handled.
#[derive(Debug)]
pub enum TrapAction {
    /// Print `console` and return to the task that trapped.
    Resume { console: Vec<u8> },
    /// The task ended with `code`; follow `schedule`.
    Exited { code: i32, schedule: Schedule },
    /// The task gave up the processor; follow `schedule`.
    Yielded { schedule: Schedule },
    /// The task was ended for `reason`; follow `schedule`.
    Killed { reason: KillReason, schedule: Schedule },
    /// The clock ticked: arm the next tick and follow `schedule`.
    Timer { schedule: Schedule },
    /// The kernel cannot go on.
    Fatal { fault: KernelFault },
}

impl TaskManager {
    /// Every task that takes part in scheduling holds an address space
    /// and a trap frame.
    pub open spec fn all_ready(&self, mem: &PhysMemory, allocator: &PageAllocator) -> bool {
        forall|i: int|
            0 <= i < self.task_num ==> (#[trigger] self.inner.tasks@[i]).ready(mem, allocator)
    }

    /// A change of memory within the trap frame of one task leaves all
    /// tasks in order, with their mappings and user memory as before.
    pub proof fn lemma_frame_write(
        &self,
        mem: &PhysMemory,
        allocator: &PageAllocator,
        mem2: &PhysMemory,
        task: int,
    )
        requires
            self.wf(),
            self.mem_inv(mem, allocator),
            self.all_ready(mem, allocator),
            0 <= task < self.task_num,
            mem2.wf(),
            mem2.same_range(mem),
            forall|p: u64, i: int|
                mem.contains_page(p) && p != self.inner.tasks@[task].trapframe.bits && 0 <= i
                    < 512 ==> #[trigger] mem2.word(p, i) == mem.word(p, i),
        ensures
            self.mem_inv(mem2, allocator),
            self.all_ready(mem2, allocator),
            forall|i: int, va: u64|
                0 <= i < self.inner.tasks@.len() && self.inner.tasks@[i].space.is_some()
                    ==> #[trigger] self.inner.tasks@[i].space.unwrap().user_byte(mem2, va)
                    == self.inner.tasks@[i].space.unwrap().user_byte(mem, va),
    {
        let tf = self.inner.tasks@[task].trapframe.bits;
        assert(self.inner.tasks@[task].ready(mem, allocator));
        assert(self.inner.tasks@[task].frames().contains(tf));
        assert forall|i: int| 0 <= i < self.inner.tasks@.len() implies {
            let t = #[trigger] self.inner.tasks@[i];
            &&& t.wf(mem2, allocator)
            &&& (i < self.task_num ==> t.ready(mem2, allocator))
            &&& t.space.is_some() ==> forall|va: u64| #[trigger]
                t.space.unwrap().user_byte(mem2, va) == t.space.unwrap().user_byte(mem, va)
        } by {
            let t = self.inner.tasks@[i];
            if t.space.is_some() {
                let s = t.space.unwrap();
                assert(t.wf(mem, allocator));
                if i == task {
                    s.lemma_trap_frame_write(mem, allocator, mem2, tf);
                } else {
                    if i < task {
                        assert(self.inner.tasks@[i].frames().disjoint(
                            self.inner.tasks@[task].frames(),
                        ));
                    } else {
                        assert(self.inner.tasks@[task].frames().disjoint(
                            self.inner.tasks@[i].frames(),
                        ));
                    }
                    assert(!t.frames().contains(tf));
                    assert forall|p: u64, k: int|
                        (s.table().tables().contains(p) || s.data().dom().contains(p)) && 0 <= k
                            < 512 implies #[trigger] mem2.word(p, k) == mem.word(p, k) by {
                        assert(t.frames().contains(p));
                        t.lemma_frames_issued(mem, allocator);
                    }
                    s.lemma_kept(mem, allocator, mem2, allocator);
                    if i < self.task_num {
                        assert(t.ready(mem, allocator));
                    }
                }
            } else {
                if i < self.task_num {
                    assert(t.ready(mem, allocator));
                }
            }
        }
    }

    /// Writes word `idx` of the trap frame of task `task`. Every other
    /// word of memory keeps its value, and every task its mappings and
    /// its user memory.
    pub fn write_frame_word(
        &self,
        mem: &mut PhysMemory,
        allocator: &PageAllocator,
        task: usize,
        idx: usize,
        value: u64,
    )
        requires
            self.wf(),
            self.mem_inv(old(mem), allocator),
            self.all_ready(old(mem), allocator),
            task < self.task_num,
            idx < 512,
        ensures
            self.mem_inv(final(mem), allocator),
            self.all_ready(final(mem), allocator),
            final(mem).same_range(old(mem)),
            final(mem).word(self.inner.tasks@[task as int].trapframe.bits, idx as int) == value,
            forall|p: u64, i: int|
                old(mem).contains_page(p) && 0 <= i < 512 && !(p == self.inner.tasks@[task as int].trapframe.bits
                    && i == idx) ==> #[trigger] final(mem).word(p, i) == old(mem).word(p, i),
            forall|i: int, va: u64|
                0 <= i < self.inner.tasks@.len() && self.inner.tasks@[i].space.is_some()
                    ==> #[trigger] self.inner.tasks@[i].space.unwrap().user_byte(final(mem), va)
                    == self.inner.tasks@[i].space.unwrap().user_byte(old(mem), va),
    {
        proof {
            assert(self.inner.tasks@[task as int].ready(mem, allocator));
        }
        let tf = Page { addr: self.inner.tasks[task].trapframe.bits };
        mem.write(tf, idx, value);
        proof {
            self.lemma_frame_write(old(mem), allocator, mem, task as int);
        }
    }
}

/// Whether an exception is one of the memory faults for which the
/// kernel ends the task.
pub open spec fn is_page_fault(e: Exception) -> bool {
    e == Exception::StoreFault || e == Exception::StorePageFault || e == Exception::LoadPageFault
        || e == Exception::InstructionPageFault
}

/// What handling a trap with the cause `scause` at `sepc` comes to, from
/// the task table `om` and memory `omem` to `m` and `mem`, with `r` left
/// to do. The saved program counter of the task that trapped becomes
/// `sepc`, or the address after it for an environment call. An
/// environment call is carried out as the system call that register `a7`
/// names, with the arguments in `a0` to `a2`: a write returns the bytes
/// for the console and leaves their number in `a0`; a yield leaves zero
/// there. A memory fault or an illegal instruction ends the task, and a
/// timer interrupt takes the processor from it; in each case the next
/// runnable task is chosen. Any other cause is a fault of the kernel.
pub open spec fn trap_handled(
    om: &TaskManager,
    omem: &PhysMemory,
    m: &TaskManager,
    mem: &PhysMemory,
    sepc: u64,
    scause: u64,
    r: TrapAction,
) -> bool {
    let c = om.inner.current as int;
    let tf = om.inner.tasks@[c].trapframe.bits;
    let space = om.inner.tasks@[c].space.unwrap();
    let a0 = omem.word(tf, FRAME_A0 as int);
    let a1 = omem.word(tf, FRAME_A1 as int);
    let a2 = omem.word(tf, FRAME_A2 as int);
    let a7 = omem.word(tf, FRAME_A7 as int);
    match cause_of(scause) {
        Trap::Exception(Exception::UserEnvCall) => {
            &&& mem.word(tf, FRAME_EPC as int) == next_pc(sepc)
            &&& if a7 == SYSCALL_WRITE {
                &&& *m == *om
                &&& match write_result(&space, omem, a0, a1, a2) {
                    Ok(bytes) => {
                        &&& (r matches TrapAction::Resume { console } && console@ == bytes)
                        &&& mem.word(tf, FRAME_A0 as int) == a2
                    },
                    Err(f) => {
                        &&& (r matches TrapAction::Fatal { fault } && fault == f)
                        &&& mem.word(tf, FRAME_A0 as int) == a0
                    },
                }
            } else if a7 == SYSCALL_EXIT {
                &&& (r matches TrapAction::Exited { code, schedule } && code == a0 as i32
                    && killed(om, m, schedule))
                &&& mem.word(tf, FRAME_A0 as int) == a0
            } else if a7 == SYSCALL_YIELD {
                &&& (r matches TrapAction::Yielded { schedule } && suspended(om, m, schedule))
                &&& mem.word(tf, FRAME_A0 as int) == 0
            } else {
                &&& *m == *om
                &&& (r matches TrapAction::Fatal { fault } && fault
                    == KernelFault::UnsupportedSyscall)
                &&& mem.word(tf, FRAME_A0 as int) == a0
            }
        },
        Trap::Exception(e) => {
            &&& mem.word(tf, FRAME_EPC as int) == sepc
            &&& mem.word(tf, FRAME_A0 as int) == a0
            &&& if is_page_fault(e) {
                r matches TrapAction::Killed { reason, schedule } && reason == KillReason::PageFault
                    && killed(om, m, schedule)
            } else if e == Exception::IllegalInstruction {
                r matches TrapAction::Killed { reason, schedule } && reason
                    == KillReason::IllegalInstruction && killed(om, m, schedule)
            } else {
                &&& *m == *om
                &&& (r matches TrapAction::Fatal { fault } && fault == KernelFault::UnsupportedTrap)
            }
        },
        Trap::Interrupt(i) => {
            &&& mem.word(tf, FRAME_EPC as int) == sepc
            &&& mem.word(tf, FRAME_A0 as int) == a0
            &&& if i == Interrupt::SupervisorTimer {
                r matches TrapAction::Timer { schedule } && suspended(om, m, schedule)
            } else {
                &&& *m == *om
                &&& (r matches TrapAction::Fatal { fault } && fault == KernelFault::UnsupportedTrap)
            }
        },
    }
}

/// A write reads the same from two memories in which user memory reads
/// the same.
pub proof fn lemma_write_result_same(
    space: &UserSpace,
    mem1: &PhysMemory,
    mem2: &PhysMemory,
    fd: u64,
    buf: u64,
    len: u64,
)
    requires
        forall|va: u64| #[trigger] space.user_byte(mem2, va) == space.user_byte(mem1, va),
    ensures
        write_result(space, mem2, fd, buf, len) == write_result(space, mem1, fd, buf, len),
{
    assert(space.user_readable(mem2, buf, len as int) == space.user_readable(
        mem1,
        buf,
        len as int,
    )) by {
        if space.user_readable(mem1, buf, len as int) {
            assert forall|k: int| 0 <= k < len implies (#[trigger] space.user_byte(
                mem2,
                (buf + k) as u64,
            )).is_some() by {
                assert(space.user_byte(mem1, (buf + k) as u64).is_some());
            }
        }
        if space.user_readable(mem2, buf, len as int) {
            assert forall|k: int| 0 <= k < len implies (#[trigger] space.user_byte(
                mem1,
                (buf + k) as u64,
            )).is_some() by {
                assert(space.user_byte(mem2, (buf + k) as u64).is_some());
            }
        }
    }
    assert(Seq::new(len as nat, |k: int| space.user_byte(mem2, (buf + k) as u64).unwrap())
        =~= Seq::new(len as nat, |k: int| space.user_byte(mem1, (buf + k) as u64).unwrap()));
}

/// Handles a trap from user mode, taken by the current task at `sepc`
/// with the cause `scause`. Changes the trap frame of the task in
/// memory and the task table, and returns what is left to do: printing,
/// the switch to another task, the next clock tick, or stopping the
/// kernel.
pub fn user_trap_handler(
    manager: &mut TaskManager,
    mem: &mut PhysMemory,
    allocator: &PageAllocator,
    sepc: u64,
    scause: u64,
) -> (r: TrapAction)
    requires
        old(manager).wf(),
        old(manager).mem_inv(old(mem), allocator),
        old(manager).all_ready(old(mem), allocator),
    ensures
        final(manager).wf(),
        final(manager).same_tasks(old(manager)),
        final(manager).mem_inv(final(mem), allocator),
        final(manager).all_ready(final(mem), allocator),
        final(mem).same_range(old(mem)),
        forall|p: u64, i: int|
            old(mem).contains_page(p) && 0 <= i < 512 && !(p == old(manager).inner.tasks@[old(
                manager,
            ).inner.current as int].trapframe.bits && (i == FRAME_EPC || i == FRAME_A0))
                ==> #[trigger] final(mem).word(p, i) == old(mem).word(p, i),
        trap_handled(old(manager), old(mem), final(manager), final(mem), sepc, scause, r),
{
    let c = manager.inner.current;
    let tf = Page { addr: manager.inner.tasks[c].trapframe.bits };
    let ghost space = manager.inner.tasks@[c as int].space.unwrap();
    proof {
        assert(manager.inner.tasks@[c as int].ready(mem, allocator));
    }
    manager.write_frame_word(mem, allocator, c, FRAME_EPC, sepc);
    let action = match decode_cause(scause) {
        Trap::Exception(Exception::UserEnvCall) => {
            let pc: u64 = if sepc > u64::MAX - 4 {
                sepc - (u64::MAX - 3)
            } else {
                sepc + 4
            };
            manager.write_frame_word(mem, allocator, c, FRAME_EPC, pc);
            let id = mem.read(tf, FRAME_A7);
            let a0 = mem.read(tf, FRAME_A0);
            let a1 = mem.read(tf, FRAME_A1);
            let a2 = mem.read(tf, FRAME_A2);
            proof {
                assert(manager.inner.tasks@[c as int].ready(mem, allocator));
                lemma_write_result_same(&space, old(mem), mem, a0, a1, a2);
            }
            let ghost before = *manager;
            match syscall(manager, mem, id, [a0, a1, a2]) {
                SyscallResult::Done { ret, console } => {
                    manager.write_frame_word(mem, allocator, c, FRAME_A0, ret);
                    TrapAction::Resume { console }
                },
                SyscallResult::Exited { code, schedule } => {
                    proof {
                        lemma_tasks_kept(&before, manager, mem, allocator);
                    }
                    TrapAction::Exited { code, schedule }
                },
                SyscallResult::Yielded { schedule } => {
                    proof {
                        lemma_tasks_kept(&before, manager, mem, allocator);
                    }
                    manager.write_frame_word(mem, allocator, c, FRAME_A0, 0);
                    TrapAction::Yielded { schedule }
                },
                SyscallResult::Fault { fault } => TrapAction::Fatal { fault },
            }
        },
        Trap::Exception(Exception::StoreFault)
        | Trap::Exception(Exception::StorePageFault)
        | Trap::Exception(Exception::LoadPageFault)
        | Trap::Exception(Exception::InstructionPageFault) => {
            let ghost before = *manager;
            let schedule = run_next_task_kill(manager);
            proof {
                lemma_tasks_kept(&before, manager, mem, allocator);
            }
            TrapAction::Killed { reason: KillReason::PageFault, schedule }
        },
        Trap::Exception(Exception::IllegalInstruction) => {
            let ghost before = *manager;
            let schedule = run_next_task_kill(manager);
            proof {
                lemma_tasks_kept(&before, manager, mem, allocator);
            }
            TrapAction::Killed { reason: KillReason::IllegalInstruction, schedule }
        },
        Trap::Interrupt(Interrupt::SupervisorTimer) => {
            let ghost before = *manager;
            let schedule = run_next_task_suspend(manager);
            proof {
                lemma_tasks_kept(&before, manager, mem, allocator);
            }
            TrapAction::Timer { schedule }
        },
        _ => TrapAction::Fatal { fault: KernelFault::UnsupportedTrap },
    };
    action
}

/// A change of statuses and of the current task leaves the tasks in
/// order in memory.
pub proof fn lemma_tasks_kept(
    before: &TaskManager,
    after: &TaskManager,
    mem: &PhysMemory,
    allocator: &PageAllocator,
)
    requires
        before.wf(),
        after.same_tasks(before),
        before.mem_inv(mem, allocator),
        before.all_ready(mem, allocator),
    ensures
        after.mem_inv(mem, allocator),
        after.all_ready(mem, allocator),
        forall|i: int|
            0 <= i < before.inner.tasks@.len() ==> (#[trigger] after.inner.tasks@[i]).trapframe
                == before.inner.tasks@[i].trapframe && after.inner.tasks@[i].space
                == before.inner.tasks@[i].space,
{
    assert forall|i: int| 0 <= i < after.inner.tasks@.len() implies (
    #[trigger] after.inner.tasks@[i]).wf(mem, allocator) by {
        assert(before.inner.tasks@[i].wf(mem, allocator));
    }
    assert forall|i: int, j: int| 0 <= i < j < after.inner.tasks@.len() implies (
    #[trigger] after.inner.tasks@[i]).frames().disjoint(
        (#[trigger] after.inner.tasks@[j]).frames(),
    ) by {
        assert(before.inner.tasks@[i].frames().disjoint(before.inner.tasks@[j].frames()));
    }
    assert forall|i: int| 0 <= i < after.task_num implies (#[trigger] after.inner.tasks@[i]).ready(
        mem,
        allocator,
    ) by {
        assert(before.inner.tasks@[i].ready(mem, allocator));
    }
}

/// What the return to user mode needs of the current task.
#[derive(Clone, Copy, PartialEq, Eq, Structural, Debug)]
pub struct UserReturn {
    /// SATP value of the task's page table.
    pub satp: u64,
    /// The user program counter to continue at.
    pub epc: u64,
}

/// Prepares the return to user mode: the page table to switch to and
/// the program counter to continue at, both of the current task.
pub fn user_trap_return(manager: &TaskManager, mem: &PhysMemory, allocator: &PageAllocator) -> (r:
    UserReturn)
    requires
        manager.wf(),
        manager.all_ready(mem, allocator),
    ensures
        r.satp == 0x8000_0000_0000_0000 + manager.inner.tasks@[manager.inner.current as int].space.unwrap().table().root()
            / 4096,
        r.epc == mem.word(
            manager.inner.tasks@[manager.inner.current as int].trapframe.bits,
            FRAME_EPC as int,
        ),
{
    proof {
        assert(manager.inner.tasks@[manager.inner.current as int].ready(mem, allocator));
        manager.inner.tasks@[manager.inner.current as int].space.unwrap().table().lemma_wf_tables(
            mem,
        );
    }
    let satp = match manager.current_user_satp() {
        Some(satp) => satp,
        None => 0,
    };
    UserReturn { satp, epc: manager.current_user_epc(mem) }
}

} // verus!
