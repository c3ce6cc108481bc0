//! The system call surface: write, exit and yield.

pub mod fs;
pub mod process;

use vstd::prelude::*;
use crate::mem::phys_mem::PhysMemory;
use crate::syscall::fs::{KernelFault, sys_write, write_result};
use crate::syscall::process::{sys_exit, sys_yield};
use crate::task::scheduler::next_runnable;
use crate::task::task::TaskStatus;
use crate::task::{Schedule, TaskManager};

verus! {

/// Number of the write system call.
pub const SYSCALL_WRITE: u64 = 64;

/// Number of the exit system call.
pub const SYSCALL_EXIT: u64 = 93;

/// Number of the yield system call.
pub const SYSCALL_YIELD: u64 = 124;

/// What a system call comes to.
#[derive(Debug)]
pub enum SyscallResult {
    /// The call is done: `ret` goes back to the caller, and `console`
    /// holds the bytes to print.
    Done { ret: u64, console: Vec<u8> },
    /// The caller has ended with `code`.
    Exited { code: i32, schedule: Schedule },
    /// The caller gave up the processor; zero goes back to it.
    Yielded { schedule: Schedule },
    /// The kernel cannot go on.
    Fault { fault: KernelFault },
}

/// What the scheduler does when the current task ends: the next
/// runnable task in the round runs, or the machine shuts down.
pub open spec fn killed(
    old_manager: &TaskManager,
    manager: &TaskManager,
    schedule: Schedule,
) -> bool {
    let marked = old_manager.statuses().update(
        old_manager.inner.current as int,
        TaskStatus::Zombie,
    );
    let next = next_runnable(
        marked,
        old_manager.inner.current as int,
        old_manager.task_num as int,
        1,
    );
    match schedule {
        Schedule::Switch { from, to } => {
            &&& next == Some(to as int)
            &&& from == old_manager.inner.current
            &&& to < old_manager.task_num
            &&& manager.inner.current == to
            &&& manager.statuses() == marked.update(to as int, TaskStatus::Running)
        },
        Schedule::Shutdown => {
            &&& next.is_none()
            &&& manager.inner.current == old_manager.inner.current
            &&& manager.statuses() == marked
        },
    }
}

/// What the scheduler does when the current task gives up the
/// processor: the next runnable task in the round runs.
pub open spec fn suspended(
    old_manager: &TaskManager,
    manager: &TaskManager,
    schedule: Schedule,
) -> bool {
    &&& manager.sched() == old_manager.sched().suspend()
    &&& schedule == (Schedule::Switch {
        from: old_manager.inner.current,
        to: manager.inner.current,
    })
}

/// Carries out the system call `id` of the current task with the
/// arguments `args`. A write hands back the bytes for the console and
/// returns their number; exit and yield change the task table and hand
/// back what the scheduler asks for; any other number is a fault.
pub fn syscall(manager: &mut TaskManager, mem: &PhysMemory, id: u64, args: [u64; 3]) -> (r:
    SyscallResult)
    requires
        old(manager).wf(),
        old(manager).inner.tasks@[old(manager).inner.current as int].space.is_some(),
        old(manager).inner.tasks@[old(manager).inner.current as int].space.unwrap().table().wf(mem),
    ensures
        final(manager).wf(),
        final(manager).same_tasks(old(manager)),
        id == SYSCALL_WRITE ==> {
            &&& *final(manager) == *old(manager)
            &&& match write_result(
                &old(manager).inner.tasks@[old(manager).inner.current as int].space.unwrap(),
                mem,
                args[0],
                args[1],
                args[2],
            ) {
                Ok(bytes) => (r matches SyscallResult::Done { ret, console } && ret == args[2]
                    && console@ == bytes),
                Err(f) => (r matches SyscallResult::Fault { fault } && fault == f),
            }
        },
        id == SYSCALL_EXIT ==> (r matches SyscallResult::Exited { code, schedule } && code
            == args[0] as i32 && killed(old(manager), final(manager), schedule)),
        id == SYSCALL_YIELD ==> (r matches SyscallResult::Yielded { schedule } && suspended(
            old(manager),
            final(manager),
            schedule,
        )),
        id != SYSCALL_WRITE && id != SYSCALL_EXIT && id != SYSCALL_YIELD ==> {
            &&& *final(manager) == *old(manager)
            &&& (r matches SyscallResult::Fault { fault } && fault
                == KernelFault::UnsupportedSyscall)
        },
{
    if id == SYSCALL_WRITE {
        let space = match &manager.inner.tasks[manager.inner.current].space {
            Some(s) => s,
            None => {
                return SyscallResult::Fault { fault: KernelFault::UnsupportedSyscall };
            },
        };
        match sys_write(space, mem, args[0], args[1], args[2]) {
            Ok(console) => SyscallResult::Done { ret: args[2], console },
            Err(fault) => SyscallResult::Fault { fault },
        }
    } else if id == SYSCALL_EXIT {
        let code: i32 = #[verifier::truncate]
        (args[0] as i32);
        SyscallResult::Exited { code, schedule: sys_exit(manager, code) }
    } else if id == SYSCALL_YIELD {
        SyscallResult::Yielded { schedule: sys_yield(manager) }
    } else {
        SyscallResult::Fault { fault: KernelFault::UnsupportedSyscall }
    }
}

} // verus!
