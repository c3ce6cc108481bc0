//! Task subsystem: the task table and round-robin scheduling.

pub mod context;
pub mod loader;
pub mod param;
pub mod scheduler;
pub mod task;

use vstd::prelude::*;
use crate::mem::page_allocator::PageAllocator;
use crate::mem::page_table::PageTable;
use crate::mem::phys_mem::PhysMemory;
use crate::mem::user_space::LoadError;
use crate::mem_layout::{KERNEL_STACK_SIZE, MAX_PHYS_ADDR, PAGE_SIZE, TRAMPOLINE};
use crate::task::loader::{app_data, get_app_data};
use crate::task::param::MAX_APP_NUM;
use crate::mem::elf::elf_segments;
use crate::mem::page_table::TableShape;
use crate::mem::user_space::lemma_load_cost;
use crate::task::task::{loadable, task_cost};
use crate::trap::context::TrapContext;
use crate::task::scheduler::{SchedState, lemma_next_runnable, lemma_wrap, next_runnable};
use crate::task::task::{TaskControlBlock, TaskStatus};

verus! {

/// The task table and the task that has the processor.
pub struct TaskManagerInner {
    pub tasks: Vec<TaskControlBlock>,
    pub current: usize,
}

/// The task manager: the number of tasks loaded at boot, and the table.
pub struct TaskManager {
    pub task_num: usize,
    pub inner: TaskManagerInner,
}

/// What the scheduler asks of the code that switches kernel threads.
#[derive(Clone, Copy, PartialEq, Eq, Structural, Debug)]
pub enum Schedule {
    /// Save the context of task `from` and continue in that of task `to`.
    Switch { from: usize, to: usize },
    /// No task is runnable: shut the machine down.
    Shutdown,
}

/// Whether two task control blocks differ in nothing but the status.
pub open spec fn same_but_status(a: TaskControlBlock, b: TaskControlBlock) -> bool {
    &&& a.context == b.context
    &&& a.space == b.space
    &&& a.trapframe == b.trapframe
}

impl TaskManager {
    /// The table has its full length, and the current task is one of the
    /// tasks.
    pub open spec fn wf(&self) -> bool {
        &&& self.inner.tasks@.len() == MAX_APP_NUM
        &&& 0 < self.task_num <= MAX_APP_NUM
        &&& self.inner.current < self.task_num
    }

    /// The statuses of the tasks.
    pub open spec fn statuses(&self) -> Seq<TaskStatus> {
        Seq::new(self.inner.tasks@.len(), |i: int| self.inner.tasks@[i].status)
    }

    /// What the scheduler sees of the table.
    pub open spec fn sched(&self) -> SchedState {
        SchedState {
            statuses: self.statuses(),
            task_num: self.task_num as int,
            current: self.inner.current as int,
        }
    }

    /// Nothing changed but statuses and the current task.
    pub open spec fn same_tasks(&self, other: &TaskManager) -> bool {
        &&& self.task_num == other.task_num
        &&& self.inner.tasks@.len() == other.inner.tasks@.len()
        &&& forall|i: int|
            0 <= i < self.inner.tasks@.len() ==> same_but_status(
                #[trigger] self.inner.tasks@[i],
                other.inner.tasks@[i],
            )
    }

    /// A table of unused tasks, the first `task_num` of which take part
    /// in scheduling; the first task is current.
    pub fn new(task_num: usize) -> (r: Self)
        requires
            0 < task_num <= MAX_APP_NUM,
        ensures
            r.wf(),
            r.task_num == task_num,
            r.inner.current == 0,
            forall|i: int|
                0 <= i < MAX_APP_NUM ==> {
                    &&& (#[trigger] r.inner.tasks@[i]).status == TaskStatus::Unused
                    &&& r.inner.tasks@[i].space.is_none()
                },
    {
        let mut tasks: Vec<TaskControlBlock> = Vec::new();
        let mut i: usize = 0;
        while i < MAX_APP_NUM
            invariant
                i <= MAX_APP_NUM,
                tasks@.len() == i,
                forall|j: int|
                    0 <= j < i ==> {
                        &&& (#[trigger] tasks@[j]).status == TaskStatus::Unused
                        &&& tasks@[j].space.is_none()
                    },
            decreases MAX_APP_NUM - i,
        {
            tasks.push(TaskControlBlock::new());
            i = i + 1;
        }
        TaskManager { task_num, inner: TaskManagerInner { tasks, current: 0 } }
    }

    /// Gives the processor to the current task for the first time.
    /// Returns the task whose context is to be switched to.
    pub fn run_first_task(&mut self) -> (r: usize)
        requires
            old(self).wf(),
        ensures
            final(self).wf(),
            r == old(self).inner.current,
            final(self).inner.current == old(self).inner.current,
            final(self).same_tasks(old(self)),
            final(self).statuses() == old(self).statuses().update(r as int, TaskStatus::Running),
    {
        let current = self.inner.current;
        self.inner.tasks[current].status = TaskStatus::Running;
        assert(self.statuses() =~= old(self).statuses().update(
            current as int,
            TaskStatus::Running,
        ));
        current
    }

    /// The current task stays runnable.
    pub fn mark_current_runnable(&mut self)
        requires
            old(self).wf(),
        ensures
            final(self).wf(),
            final(self).inner.current == old(self).inner.current,
            final(self).same_tasks(old(self)),
            final(self).statuses() == old(self).statuses().update(
                old(self).inner.current as int,
                TaskStatus::Runable,
            ),
    {
        let current = self.inner.current;
        self.inner.tasks[current].status = TaskStatus::Runable;
        assert(self.statuses() =~= old(self).statuses().update(
            current as int,
            TaskStatus::Runable,
        ));
    }

    /// The current task has ended.
    pub fn mark_current_zombie(&mut self)
        requires
            old(self).wf(),
        ensures
            final(self).wf(),
            final(self).inner.current == old(self).inner.current,
            final(self).same_tasks(old(self)),
            final(self).statuses() == old(self).statuses().update(
                old(self).inner.current as int,
                TaskStatus::Zombie,
            ),
    {
        let current = self.inner.current;
        self.inner.tasks[current].status = TaskStatus::Zombie;
        assert(self.statuses() =~= old(self).statuses().update(
            current as int,
            TaskStatus::Zombie,
        ));
    }

    /// The first runnable task after the current one, going round the
    /// tasks and ending with the current task itself.
    pub fn find_next_task(&self) -> (r: Option<usize>)
        requires
            self.wf(),
        ensures
            next_runnable(self.statuses(), self.inner.current as int, self.task_num as int, 1)
                == match r {
                Some(id) => Some(id as int),
                None => None,
            },
            r.is_some() ==> r.unwrap() < self.task_num,
    {
        let current = self.inner.current;
        let n = self.task_num;
        let mut d: usize = 1;
        while d <= n
            invariant
                self.wf(),
                current == self.inner.current,
                n == self.task_num,
                1 <= d <= n + 1,
                next_runnable(self.statuses(), current as int, n as int, 1) == next_runnable(
                    self.statuses(),
                    current as int,
                    n as int,
                    d as int,
                ),
            decreases n + 1 - d,
        {
            let id = (current + d) % n;
            proof {
                lemma_wrap(current + d, n as int);
            }
            if self.inner.tasks[id].status == TaskStatus::Runable {
                return Some(id);
            }
            d = d + 1;
        }
        None
    }

    /// Gives the processor to the next runnable task, or asks for
    /// shutdown when there is none.
    pub fn run_next_task(&mut self) -> (r: Schedule)
        requires
            old(self).wf(),
        ensures
            final(self).wf(),
            final(self).same_tasks(old(self)),
            match r {
                Schedule::Switch { from, to } => {
                    &&& next_runnable(
                        old(self).statuses(),
                        old(self).inner.current as int,
                        old(self).task_num as int,
                        1,
                    ) == Some(to as int)
                    &&& from == old(self).inner.current
                    &&& to < old(self).task_num
                    &&& final(self).inner.current == to
                    &&& final(self).statuses() == old(self).statuses().update(
                        to as int,
                        TaskStatus::Running,
                    )
                },
                Schedule::Shutdown => {
                    &&& next_runnable(
                        old(self).statuses(),
                        old(self).inner.current as int,
                        old(self).task_num as int,
                        1,
                    ).is_none()
                    &&& final(self).inner.current == old(self).inner.current
                    &&& final(self).statuses() == old(self).statuses()
                },
            },
    {
        match self.find_next_task() {
            Some(next) => {
                let current = self.inner.current;
                self.inner.tasks[next].status = TaskStatus::Running;
                self.inner.current = next;
                assert(self.statuses() =~= old(self).statuses().update(
                    next as int,
                    TaskStatus::Running,
                ));
                Schedule::Switch { from: current, to: next }
            },
            None => {
                assert(self.statuses() =~= old(self).statuses());
                Schedule::Shutdown
            },
        }
    }
}

/// Ends the current task and gives the processor to the next runnable
/// task.
pub fn run_next_task_kill(manager: &mut TaskManager) -> (r: Schedule)
    requires
        old(manager).wf(),
    ensures
        final(manager).wf(),
        final(manager).same_tasks(old(manager)),
        match r {
            Schedule::Switch { from, to } => {
                &&& next_runnable(
                    old(manager).statuses().update(
                        old(manager).inner.current as int,
                        TaskStatus::Zombie,
                    ),
                    old(manager).inner.current as int,
                    old(manager).task_num as int,
                    1,
                ) == Some(to as int)
                &&& from == old(manager).inner.current
                &&& to < old(manager).task_num
                &&& final(manager).inner.current == to
                &&& final(manager).statuses() == old(manager).statuses().update(
                    old(manager).inner.current as int,
                    TaskStatus::Zombie,
                ).update(to as int, TaskStatus::Running)
            },
            Schedule::Shutdown => {
                &&& next_runnable(
                    old(manager).statuses().update(
                        old(manager).inner.current as int,
                        TaskStatus::Zombie,
                    ),
                    old(manager).inner.current as int,
                    old(manager).task_num as int,
                    1,
                ).is_none()
                &&& final(manager).inner.current == old(manager).inner.current
                &&& final(manager).statuses() == old(manager).statuses().update(
                    old(manager).inner.current as int,
                    TaskStatus::Zombie,
                )
            },
        },
{
    manager.mark_current_zombie();
    manager.run_next_task()
}

/// Takes the processor from the current task, which stays runnable, and
/// gives it to the next runnable task in the round.
pub fn run_next_task_suspend(manager: &mut TaskManager) -> (r: Schedule)
    requires
        old(manager).wf(),
    ensures
        final(manager).wf(),
        final(manager).same_tasks(old(manager)),
        final(manager).sched() == old(manager).sched().suspend(),
        r == (Schedule::Switch {
            from: old(manager).inner.current,
            to: final(manager).inner.current,
        }),
        Some(final(manager).inner.current as int) == old(manager).sched().next_after_suspend(),
{
    manager.mark_current_runnable();
    proof {
        let marked = manager.statuses();
        let c = manager.inner.current as int;
        let n = manager.task_num as int;
        lemma_next_runnable(marked, c, n, 1);
        lemma_wrap(c + n, n);
        assert(marked[(c + n) % n] == TaskStatus::Runable);
    }
    manager.run_next_task()
}

/// Gives the processor to the current task for the first time.
pub fn run_first_task(manager: &mut TaskManager) -> (r: usize)
    requires
        old(manager).wf(),
    ensures
        final(manager).wf(),
        r == old(manager).inner.current,
        final(manager).inner.current == old(manager).inner.current,
        final(manager).same_tasks(old(manager)),
        final(manager).statuses() == old(manager).statuses().update(r as int, TaskStatus::Running),
{
    manager.run_first_task()
}

/// Whether each of the first `n` programs of the blob is there and can
/// be loaded.
pub open spec fn all_loadable(blob: Seq<u8>, n: int) -> bool {
    forall|id: int|
        0 <= id < n ==> (#[trigger] app_data(blob, id)).is_some() && loadable(
            app_data(blob, id).unwrap(),
        )
}

/// How many frames it takes to load the first `n` programs of the blob.
pub open spec fn tasks_cost(blob: Seq<u8>, n: int) -> int
    decreases n,
{
    if n <= 0 {
        0
    } else {
        tasks_cost(blob, n - 1) + task_cost(app_data(blob, n - 1).unwrap())
    }
}

/// The cost of loading programs is not negative and grows with their
/// number.
pub proof fn lemma_tasks_cost_grows(blob: Seq<u8>, a: int, b: int)
    requires
        0 <= a <= b,
    ensures
        0 <= tasks_cost(blob, a) <= tasks_cost(blob, b),
    decreases b,
{
    if a < b {
        lemma_tasks_cost_grows(blob, a, b - 1);
        lemma_load_cost(
            TableShape::bare(),
            elf_segments(app_data(blob, b - 1).unwrap()).unwrap(),
        );
    } else if a > 0 {
        lemma_tasks_cost_grows(blob, a - 1, a - 1);
        lemma_load_cost(
            TableShape::bare(),
            elf_segments(app_data(blob, a - 1).unwrap()).unwrap(),
        );
    }
}

impl TaskManager {
    /// Memory and the allocator are in order, the address space of
    /// every task is in order in them, and no frame belongs to two
    /// tasks.
    pub open spec fn mem_inv(&self, mem: &PhysMemory, allocator: &PageAllocator) -> bool {
        &&& mem.wf()
        &&& allocator@.wf()
        &&& mem.base() <= allocator@.start
        &&& allocator@.end <= mem.top()
        &&& forall|i: int|
            0 <= i < self.inner.tasks@.len() ==> (#[trigger] self.inner.tasks@[i]).wf(
                mem,
                allocator,
            )
        &&& forall|i: int, j: int|
            0 <= i < j < self.inner.tasks@.len() ==> (#[trigger] self.inner.tasks@[i]).frames().disjoint(
                (#[trigger] self.inner.tasks@[j]).frames(),
            )
    }

    /// The first `n` tasks hold the programs of the blob and are ready
    /// for their first run.
    pub open spec fn holds_apps(
        &self,
        mem: &PhysMemory,
        allocator: &PageAllocator,
        blob: Seq<u8>,
        n: int,
        trampoline: u64,
        kernel_satp: u64,
        trap_handler: u64,
        trap_return: u64,
    ) -> bool {
        forall|id: int|
            0 <= id < n ==> {
                let t = #[trigger] self.inner.tasks@[id];
                &&& app_data(blob, id).is_some()
                &&& t.status == TaskStatus::Runable
                &&& t.holds_image(
                    mem,
                    allocator,
                    app_data(blob, id).unwrap(),
                    id,
                    trampoline,
                    kernel_satp,
                    trap_handler,
                )
                &&& t.context.ra == trap_return
                &&& t.context.sp == TRAMPOLINE - (id + 1) * (KERNEL_STACK_SIZE + PAGE_SIZE)
                    + KERNEL_STACK_SIZE
            }
    }

    /// The tasks that hold their programs keep holding them while the
    /// frames that were in use keep their contents and stay in use.
    proof fn lemma_apps_kept(
        &self,
        mem: &PhysMemory,
        allocator: &PageAllocator,
        mem2: &PhysMemory,
        allocator2: &PageAllocator,
        blob: Seq<u8>,
        n: int,
        trampoline: u64,
        kernel_satp: u64,
        trap_handler: u64,
        trap_return: u64,
    )
        requires
            0 <= n <= self.inner.tasks@.len(),
            self.mem_inv(mem, allocator),
            self.holds_apps(
                mem,
                allocator,
                blob,
                n,
                trampoline,
                kernel_satp,
                trap_handler,
                trap_return,
            ),
            mem2.wf(),
            mem2.same_range(mem),
            allocator2@.wf(),
            allocator2@.start == allocator@.start,
            allocator2@.end == allocator@.end,
            allocator@.issued.subset_of(allocator2@.issued),
            forall|p: u64, i: int|
                mem.contains_page(p) && allocator@.issued.contains(p) && 0 <= i < 512
                    ==> #[trigger] mem2.word(p, i) == mem.word(p, i),
        ensures
            self.holds_apps(
                mem2,
                allocator2,
                blob,
                n,
                trampoline,
                kernel_satp,
                trap_handler,
                trap_return,
            ),
            forall|i: int|
                0 <= i < self.inner.tasks@.len() ==> (#[trigger] self.inner.tasks@[i]).wf(
                    mem2,
                    allocator2,
                ),
    {
        assert forall|id: int| 0 <= id < n implies {
            let t = #[trigger] self.inner.tasks@[id];
            t.holds_image(
                mem2,
                allocator2,
                app_data(blob, id).unwrap(),
                id,
                trampoline,
                kernel_satp,
                trap_handler,
            )
        } by {
            self.inner.tasks@[id].lemma_image_kept(
                mem,
                allocator,
                mem2,
                allocator2,
                app_data(blob, id).unwrap(),
                id,
                trampoline,
                kernel_satp,
                trap_handler,
            );
        }
        assert forall|i: int| 0 <= i < self.inner.tasks@.len() implies (
        #[trigger] self.inner.tasks@[i]).wf(mem2, allocator2) by {
            self.inner.tasks@[i].lemma_kept(mem, allocator, mem2, allocator2);
        }
    }

    /// Loads the programs of the blob into the first tasks, one program
    /// for each task, in order. Stops at the first program that is
    /// missing from the blob, cannot be loaded, or finds no frame left.
    /// Frames that were in use keep their contents.
    pub fn load_tasks(
        &mut self,
        mem: &mut PhysMemory,
        allocator: &mut PageAllocator,
        blob: &[u8],
        trampoline: u64,
        kernel_satp: u64,
        trap_handler: u64,
        trap_return: u64,
    ) -> (r: Result<(), LoadError>)
        requires
            old(self).wf(),
            old(self).mem_inv(old(mem), old(allocator)),
            forall|i: int|
                0 <= i < MAX_APP_NUM ==> (#[trigger] old(self).inner.tasks@[i]).space.is_none(),
            trampoline <= MAX_PHYS_ADDR,
        ensures
            final(self).wf(),
            final(self).task_num == old(self).task_num,
            final(self).inner.current == old(self).inner.current,
            final(self).mem_inv(final(mem), final(allocator)),
            final(mem).same_range(old(mem)),
            final(allocator)@.start == old(allocator)@.start,
            final(allocator)@.end == old(allocator)@.end,
            old(allocator)@.issued.subset_of(final(allocator)@.issued),
            forall|p: u64, i: int|
                old(mem).contains_page(p) && old(allocator)@.issued.contains(p) && 0 <= i < 512
                    ==> #[trigger] final(mem).word(p, i) == old(mem).word(p, i),
            forall|i: int|
                old(self).task_num <= i < MAX_APP_NUM ==> #[trigger] final(self).inner.tasks@[i]
                    == old(self).inner.tasks@[i],
            r.is_ok() ==> final(self).holds_apps(
                final(mem),
                final(allocator),
                blob@,
                old(self).task_num as int,
                trampoline,
                kernel_satp,
                trap_handler,
                trap_return,
            ),
            r == Err::<(), LoadError>(LoadError::BadImage) ==> exists|id: int|
                0 <= id < old(self).task_num && ((#[trigger] app_data(blob@, id)).is_none()
                    || !loadable(app_data(blob@, id).unwrap())),
            r == Err::<(), LoadError>(LoadError::OutOfFrames)
                ==> final(allocator)@.available() == 0,
            r.is_ok() <==> all_loadable(blob@, old(self).task_num as int) && tasks_cost(
                blob@,
                old(self).task_num as int,
            ) <= old(allocator)@.available(),
            r.is_ok() ==> final(allocator)@ == old(allocator)@.after_allocs(
                tasks_cost(blob@, old(self).task_num as int) as nat,
            ),
    {
        let n = self.task_num;
        let ghost a0 = allocator@.available();
        proof {
            lemma_tasks_cost_grows(blob@, 0, n as int);
            allocator@.lemma_allocs(0);
        }
        let mut id: usize = 0;
        while id < n
            invariant
                id <= n,
                n == self.task_num,
                trampoline <= MAX_PHYS_ADDR,
                old(self).wf(),
                forall|i: int|
                    0 <= i < MAX_APP_NUM ==> (#[trigger] old(self).inner.tasks@[i]).space.is_none(),
                self.wf(),
                self.task_num == old(self).task_num,
                self.inner.current == old(self).inner.current,
                self.mem_inv(mem, allocator),
                mem.same_range(old(mem)),
                allocator@.start == old(allocator)@.start,
                allocator@.end == old(allocator)@.end,
                old(allocator)@.issued.subset_of(allocator@.issued),
                forall|p: u64, i: int|
                    old(mem).contains_page(p) && old(allocator)@.issued.contains(p) && 0 <= i
                        < 512 ==> #[trigger] mem.word(p, i) == old(mem).word(p, i),
                forall|i: int|
                    id <= i < MAX_APP_NUM ==> #[trigger] self.inner.tasks@[i] == old(
                        self,
                    ).inner.tasks@[i],
                self.holds_apps(
                    mem,
                    allocator,
                    blob@,
                    id as int,
                    trampoline,
                    kernel_satp,
                    trap_handler,
                    trap_return,
                ),
                a0 == old(allocator)@.available(),
                old(allocator)@.wf(),
                all_loadable(blob@, id as int),
                0 <= tasks_cost(blob@, id as int) <= a0,
                allocator@.available() == a0 - tasks_cost(blob@, id as int),
                allocator@ == old(allocator)@.after_allocs(tasks_cost(blob@, id as int) as nat),
            decreases n - id,
        {
            let data = match get_app_data(blob, id) {
                Some(d) => d,
                None => {
                    assert(app_data(blob@, id as int).is_none());
                    return Err(LoadError::BadImage);
                },
            };
            let ghost mid = *self;
            let ghost mid_mem = *mem;
            let ghost mid_allocator = *allocator;
            proof {
                assert(self.inner.tasks@[id as int] == old(self).inner.tasks@[id as int]);
                assert(self.inner.tasks@[id as int].space.is_none());
                mid_allocator@.lemma_alloc();
                lemma_tasks_cost_grows(blob@, id as int + 1, n as int);
                lemma_load_cost(TableShape::bare(), elf_segments(data@).unwrap());
                let used = tasks_cost(blob@, id as int) as nat;
                let step = mid_allocator@.capped(
                    if loadable(data@) {
                        task_cost(data@)
                    } else {
                        1
                    },
                );
                old(allocator)@.lemma_allocs_add(used, step);
                mid_allocator@.lemma_allocs(step);
            }
            let res = self.inner.tasks[id].init_from_elf(
                mem,
                allocator,
                data,
                id,
                trampoline,
                kernel_satp,
                trap_handler,
                trap_return,
            );
            proof {
                mid.lemma_apps_kept(
                    &mid_mem,
                    &mid_allocator,
                    mem,
                    allocator,
                    blob@,
                    id as int,
                    trampoline,
                    kernel_satp,
                    trap_handler,
                    trap_return,
                );
                assert forall|i: int| 0 <= i < self.inner.tasks@.len() implies (
                #[trigger] self.inner.tasks@[i]).wf(mem, allocator) by {
                    if i != id {
                        assert(self.inner.tasks@[i] == mid.inner.tasks@[i]);
                    }
                }
                assert forall|i: int, j: int|
                    0 <= i < j < self.inner.tasks@.len() implies (
                #[trigger] self.inner.tasks@[i]).frames().disjoint(
                    (#[trigger] self.inner.tasks@[j]).frames(),
                ) by {
                    if i == id {
                        assert(self.inner.tasks@[j] == mid.inner.tasks@[j]);
                        mid.inner.tasks@[j].lemma_frames_issued(&mid_mem, &mid_allocator);
                    } else if j == id {
                        assert(self.inner.tasks@[i] == mid.inner.tasks@[i]);
                        mid.inner.tasks@[i].lemma_frames_issued(&mid_mem, &mid_allocator);
                    } else {
                        assert(self.inner.tasks@[i] == mid.inner.tasks@[i]);
                        assert(self.inner.tasks@[j] == mid.inner.tasks@[j]);
                    }
                }
                assert forall|p: u64, i: int|
                    old(mem).contains_page(p) && old(allocator)@.issued.contains(p) && 0 <= i
                        < 512 implies #[trigger] mem.word(p, i) == old(mem).word(p, i) by {
                    assert(mid_mem.word(p, i) == old(mem).word(p, i));
                    assert(mid_allocator@.issued.contains(p));
                }
            }
            match res {
                Err(e) => {
                    proof {
                        if e == LoadError::BadImage {
                            assert(mid_allocator@.available() > 0);
                            assert(!loadable(app_data(blob@, id as int).unwrap()));
                        }
                    }
                    return Err(e);
                },
                Ok(()) => {},
            }
            proof {
                assert forall|k: int| 0 <= k < id + 1 implies {
                    let t = #[trigger] self.inner.tasks@[k];
                    &&& app_data(blob@, k).is_some()
                    &&& t.status == TaskStatus::Runable
                    &&& t.holds_image(
                        mem,
                        allocator,
                        app_data(blob@, k).unwrap(),
                        k,
                        trampoline,
                        kernel_satp,
                        trap_handler,
                    )
                    &&& t.context.ra == trap_return
                    &&& t.context.sp == TRAMPOLINE - (k + 1) * (KERNEL_STACK_SIZE + PAGE_SIZE)
                        + KERNEL_STACK_SIZE
                } by {
                    if k < id {
                        assert(self.inner.tasks@[k] == mid.inner.tasks@[k]);
                    }
                }
            }
            id = id + 1;
        }
        Ok(())
    }

    /// The SATP value that selects the page table of the current task;
    /// `None` while the task has no address space.
    pub fn current_user_satp(&self) -> (r: Option<u64>)
        requires
            self.wf(),
        ensures
            r == match self.inner.tasks@[self.inner.current as int].space {
                Some(s) => Some((0x8000_0000_0000_0000 + s.table().root() / 4096) as u64),
                None => None,
            },
    {
        self.inner.tasks[self.inner.current].user_satp()
    }

    /// The saved user program counter of the current task.
    pub fn current_user_epc(&self, mem: &PhysMemory) -> (r: u64)
        requires
            self.wf(),
            mem.wf(),
            mem.contains_page(self.inner.tasks@[self.inner.current as int].trapframe.bits),
        ensures
            r == mem.word(self.inner.tasks@[self.inner.current as int].trapframe.bits, 35),
    {
        self.inner.tasks[self.inner.current].user_epc(mem)
    }

    /// The page table of the current task, for printing; `None` while
    /// the task has no address space.
    pub fn current_pagetable(&self) -> (r: Option<&PageTable>)
        requires
            self.wf(),
        ensures
            r == match self.inner.tasks@[self.inner.current as int].space {
                Some(s) => Some(s.table()),
                None => None,
            },
    {
        match &self.inner.tasks[self.inner.current].space {
            Some(s) => Some(s.page_table()),
            None => None,
        }
    }

    /// The trap frame of the current task as it stands in memory.
    pub fn current_user_trapcontex(&self, mem: &PhysMemory) -> (r: TrapContext)
        requires
            self.wf(),
            mem.wf(),
            mem.contains_page(self.inner.tasks@[self.inner.current as int].trapframe.bits),
        ensures
            r.stored_at(mem, self.inner.tasks@[self.inner.current as int].trapframe.bits),
    {
        self.inner.tasks[self.inner.current].trap_context(mem)
    }
}

/// Loads the programs of the blob into the first tasks of the table.
pub fn load_tasks(
    manager: &mut TaskManager,
    mem: &mut PhysMemory,
    allocator: &mut PageAllocator,
    blob: &[u8],
    trampoline: u64,
    kernel_satp: u64,
    trap_handler: u64,
    trap_return: u64,
) -> (r: Result<(), LoadError>)
    requires
        old(manager).wf(),
        old(manager).mem_inv(old(mem), old(allocator)),
        forall|i: int|
            0 <= i < MAX_APP_NUM ==> (#[trigger] old(manager).inner.tasks@[i]).space.is_none(),
        trampoline <= MAX_PHYS_ADDR,
    ensures
        final(manager).wf(),
        final(manager).task_num == old(manager).task_num,
        final(manager).inner.current == old(manager).inner.current,
        final(manager).mem_inv(final(mem), final(allocator)),
        final(mem).same_range(old(mem)),
        final(allocator)@.start == old(allocator)@.start,
        final(allocator)@.end == old(allocator)@.end,
        old(allocator)@.issued.subset_of(final(allocator)@.issued),
        forall|p: u64, i: int|
            old(mem).contains_page(p) && old(allocator)@.issued.contains(p) && 0 <= i < 512
                ==> #[trigger] final(mem).word(p, i) == old(mem).word(p, i),
        forall|i: int|
            old(manager).task_num <= i < MAX_APP_NUM ==> #[trigger] final(manager).inner.tasks@[i]
                == old(manager).inner.tasks@[i],
        r.is_ok() ==> final(manager).holds_apps(
            final(mem),
            final(allocator),
            blob@,
            old(manager).task_num as int,
            trampoline,
            kernel_satp,
            trap_handler,
            trap_return,
        ),
        r == Err::<(), LoadError>(LoadError::BadImage) ==> exists|id: int|
            0 <= id < old(manager).task_num && ((#[trigger] app_data(blob@, id)).is_none()
                || !loadable(app_data(blob@, id).unwrap())),
        r == Err::<(), LoadError>(LoadError::OutOfFrames) ==> final(allocator)@.available() == 0,
        r.is_ok() <==> all_loadable(blob@, old(manager).task_num as int) && tasks_cost(
            blob@,
            old(manager).task_num as int,
        ) <= old(allocator)@.available(),
        r.is_ok() ==> final(allocator)@ == old(allocator)@.after_allocs(
            tasks_cost(blob@, old(manager).task_num as int) as nat,
        ),
{
    manager.load_tasks(
        mem,
        allocator,
        blob,
        trampoline,
        kernel_satp,
        trap_handler,
        trap_return,
    )
}

/// The SATP value that selects the page table of the current task.
pub fn current_user_satp(manager: &TaskManager) -> (r: Option<u64>)
    requires
        manager.wf(),
    ensures
        r == match manager.inner.tasks@[manager.inner.current as int].space {
            Some(s) => Some((0x8000_0000_0000_0000 + s.table().root() / 4096) as u64),
            None => None,
        },
{
    manager.current_user_satp()
}

/// The saved user program counter of the current task.
pub fn current_user_epc(manager: &TaskManager, mem: &PhysMemory) -> (r: u64)
    requires
        manager.wf(),
        mem.wf(),
        mem.contains_page(manager.inner.tasks@[manager.inner.current as int].trapframe.bits),
    ensures
        r == mem.word(manager.inner.tasks@[manager.inner.current as int].trapframe.bits, 35),
{
    manager.current_user_epc(mem)
}

/// The page table of the current task, for printing.
pub fn current_pagetable(manager: &TaskManager) -> (r: Option<&PageTable>)
    requires
        manager.wf(),
    ensures
        r == match manager.inner.tasks@[manager.inner.current as int].space {
            Some(s) => Some(s.table()),
            None => None,
        },
{
    manager.current_pagetable()
}

/// The trap frame of the current task as it stands in memory.
pub fn current_user_trapcontext(manager: &TaskManager, mem: &PhysMemory) -> (r: TrapContext)
    requires
        manager.wf(),
        mem.wf(),
        mem.contains_page(manager.inner.tasks@[manager.inner.current as int].trapframe.bits),
    ensures
        r.stored_at(mem, manager.inner.tasks@[manager.inner.current as int].trapframe.bits),
{
    manager.current_user_trapcontex(mem)
}

} // verus!
