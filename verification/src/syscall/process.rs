//! System calls that manage the running task.

use vstd::prelude::*;
use crate::task::scheduler::next_runnable;
use crate::task::task::TaskStatus;
use crate::task::{Schedule, TaskManager, run_next_task_kill, run_next_task_suspend};

verus! {

/// Ends the current task. Returns what the scheduler asks for next.
pub fn sys_exit(manager: &mut TaskManager, exit_code: i32) -> (r: Schedule)
    requires
        old(manager).wf(),
    ensures
        final(manager).wf(),
        final(manager).same_tasks(old(manager)),
        match r {
            Schedule::Switch { from, to } => {
                &&& next_runnable(
                    old(manager).statuses().update(
                        old(manager).inner.current as int,
                        TaskStatus::Zombie,
                    ),
                    old(manager).inner.current as int,
                    old(manager).task_num as int,
                    1,
                ) == Some(to as int)
                &&& from == old(manager).inner.current
                &&& to < old(manager).task_num
                &&& final(manager).inner.current == to
                &&& final(manager).statuses() == old(manager).statuses().update(
                    old(manager).inner.current as int,
                    TaskStatus::Zombie,
                ).update(to as int, TaskStatus::Running)
            },
            Schedule::Shutdown => {
                &&& next_runnable(
                    old(manager).statuses().update(
                        old(manager).inner.current as int,
                        TaskStatus::Zombie,
                    ),
                    old(manager).inner.current as int,
                    old(manager).task_num as int,
                    1,
                ).is_none()
                &&& final(manager).inner.current == old(manager).inner.current
                &&& final(manager).statuses() == old(manager).statuses().update(
                    old(manager).inner.current as int,
                    TaskStatus::Zombie,
                )
            },
        },
{
    run_next_task_kill(manager)
}

/// Gives up the processor; the current task stays runnable.
pub fn sys_yield(manager: &mut TaskManager) -> (r: Schedule)
    requires
        old(manager).wf(),
    ensures
        final(manager).wf(),
        final(manager).same_tasks(old(manager)),
        final(manager).sched() == old(manager).sched().suspend(),
        r == (Schedule::Switch {
            from: old(manager).inner.current,
            to: final(manager).inner.current,
        }),
{
    run_next_task_suspend(manager)
}

} // verus!
