//! The task control block.

use vstd::prelude::*;
use crate::mem::address::{Addr, Page};
use crate::mem::elf::elf_segments;
use crate::mem::kernel_space::kernel_sp_i;
use crate::mem::mapper::{flags_rw, with_valid};
use crate::mem::page_allocator::{AllocatorState, PageAllocator};
use crate::mem::page_table::{PageTableEntry, TableShape};
use crate::mem::phys_mem::PhysMemory;
use crate::mem::user_space::{
    LoadError, UserSpace, has_magic, image_ok, lemma_load_cost, lemma_pages_grow, load_cost,
    stack_first, user_pages,
};
use crate::mem_layout::{
    KERNEL_STACK_SIZE, MAX_PHYS_ADDR, PAGE_SIZE, TRAMPOLINE, TRAP_FRAME, USER_STACK_SIZE,
};
use crate::task::context::TaskContext;
use crate::task::param::{APP_BASE_ADDRESS, MAX_APP_NUM};
use crate::trap::context::TrapContext;

verus! {

/// The state of a task control block.
#[derive(Clone, Copy, PartialEq, Eq, Structural, Debug)]
pub enum TaskStatus {
    Unused,
    Used,
    Sleeping,
    Runable,
    Running,
    Zombie,
}

/// What the kernel keeps of a task: its status, the context of its
/// kernel thread, its address space once a program is loaded, and the
/// physical address of its trap frame.
pub struct TaskControlBlock {
    pub status: TaskStatus,
    pub context: TaskContext,
    pub space: Option<UserSpace>,
    pub trapframe: Addr,
}

/// Whether an image can be loaded: it has the ELF magic number, its
/// program headers can be read, and they can be placed.
pub open spec fn loadable(image: Seq<u8>) -> bool {
    &&& has_magic(image)
    &&& elf_segments(image).is_some()
    &&& image_ok(image, elf_segments(image).unwrap())
}

/// How many frames it takes to load an image into a task: the root of
/// a page table, and what the program costs on a table that has a root
/// only.
pub open spec fn task_cost(image: Seq<u8>) -> int {
    1 + load_cost(TableShape::bare(), elf_segments(image).unwrap())
}

/// The trap frame of a task that has not run yet.
pub open spec fn initial_trap_context(
    cx: TrapContext,
    user_sp: u64,
    kernel_satp: u64,
    kernel_sp: u64,
    trap_handler: u64,
) -> bool {
    &&& forall|i: int| 0 <= i < 32 ==> cx.x[i] == if i == 2 {
        user_sp
    } else {
        0
    }
    &&& cx.kernel_satp == kernel_satp
    &&& cx.kernel_sp == kernel_sp
    &&& cx.kernel_trap == trap_handler
    &&& cx.epc == APP_BASE_ADDRESS
}

impl TaskControlBlock {
    /// The task's address space, if it has one, is in order.
    pub open spec fn wf(&self, mem: &PhysMemory, allocator: &PageAllocator) -> bool {
        self.space.is_some() ==> self.space.unwrap().inv(mem, allocator)
    }

    /// The frames that the task's address space holds.
    pub open spec fn frames(&self) -> Set<u64> {
        match self.space {
            Some(s) => s.table().tables().union(s.data().dom()),
            None => Set::empty(),
        }
    }

    /// The task has an address space in order, and its trap frame is a
    /// data frame of the space, mapped at the trap frame page.
    pub open spec fn ready(&self, mem: &PhysMemory, allocator: &PageAllocator) -> bool {
        &&& self.space.is_some()
        &&& self.space.unwrap().inv(mem, allocator)
        &&& self.space.unwrap().table().mapping(mem, TRAP_FRAME) == Some(
            PageTableEntry::spec_new(self.trapframe.bits, with_valid(flags_rw())),
        )
        &&& self.space.unwrap().data().dom().contains(self.trapframe.bits)
        &&& mem.contains_page(self.trapframe.bits)
    }

    /// The task holds the program of `image`, ready for its first run as
    /// task `id`: its space holds the program and the stack, and its trap
    /// frame in memory is that of a task that has not run yet.
    pub open spec fn holds_image(
        &self,
        mem: &PhysMemory,
        allocator: &PageAllocator,
        image: Seq<u8>,
        id: int,
        trampoline: u64,
        kernel_satp: u64,
        trap_handler: u64,
    ) -> bool {
        let segs = elf_segments(image).unwrap();
        let user_sp = (stack_first(segs) * 4096 + USER_STACK_SIZE) as u64;
        let kernel_sp = (TRAMPOLINE - (id + 1) * (KERNEL_STACK_SIZE + PAGE_SIZE)
            + KERNEL_STACK_SIZE) as u64;
        &&& self.ready(mem, allocator)
        &&& self.space.unwrap().loaded(
            mem,
            image,
            segs,
            trampoline,
            user_sp,
            self.trapframe.bits,
        )
        &&& exists|cx: TrapContext|
            #![trigger cx.stored_at(mem, self.trapframe.bits)]
            cx.stored_at(mem, self.trapframe.bits) && initial_trap_context(
                cx,
                user_sp,
                kernel_satp,
                kernel_sp,
                trap_handler,
            )
    }

    /// An unused task with no address space, no trap frame, and a
    /// context with every register zero.
    pub fn new() -> (r: Self)
        ensures
            r.status == TaskStatus::Unused,
            r.space.is_none(),
            r.trapframe.bits == 0,
            r.context.ra == 0,
            r.context.sp == 0,
            forall|i: int| 0 <= i < 12 ==> r.context.s[i] == 0,
    {
        TaskControlBlock {
            status: TaskStatus::Unused,
            context: TaskContext::new(),
            space: None,
            trapframe: Addr::empty(),
        }
    }

    /// Does nothing.
    pub fn clear(&mut self)
        ensures
            *final(self) == *old(self),
    {
    }

    /// The SATP value that selects the task's page table; `None` while
    /// the task has no address space.
    pub fn user_satp(&self) -> (r: Option<u64>)
        ensures
            r == match self.space {
                Some(s) => Some((0x8000_0000_0000_0000 + s.table().root() / 4096) as u64),
                None => None,
            },
    {
        match &self.space {
            Some(s) => Some(s.make_satp()),
            None => None,
        }
    }

    /// The trap frame of the task as it stands in memory.
    pub fn trap_context(&self, mem: &PhysMemory) -> (r: TrapContext)
        requires
            mem.wf(),
            mem.contains_page(self.trapframe.bits),
        ensures
            r.stored_at(mem, self.trapframe.bits),
    {
        TrapContext::load(mem, Page { addr: self.trapframe.bits })
    }

    /// The saved user program counter of the task.
    pub fn user_epc(&self, mem: &PhysMemory) -> (r: u64)
        requires
            mem.wf(),
            mem.contains_page(self.trapframe.bits),
        ensures
            r == mem.word(self.trapframe.bits, 35),
    {
        mem.read(Page { addr: self.trapframe.bits }, 35)
    }
}

impl TaskControlBlock {
    /// Loads the program of an ELF image into a fresh address space for
    /// task `id` and makes the task runnable: its trap frame is set up
    /// for a first run at the program's entry on the new user stack, and
    /// its context so that a switch to it returns into `trap_return` on
    /// the kernel stack of task `id`. On failure the task keeps its
    /// status and context. Frames that were in use keep their contents.
    pub fn init_from_elf(
        &mut self,
        mem: &mut PhysMemory,
        allocator: &mut PageAllocator,
        elf_data: &[u8],
        id: usize,
        trampoline: u64,
        kernel_satp: u64,
        trap_handler: u64,
        trap_return: u64,
    ) -> (r: Result<(), LoadError>)
        requires
            old(self).space.is_none(),
            old(mem).wf(),
            old(allocator)@.wf(),
            old(mem).base() <= old(allocator)@.start,
            old(allocator)@.end <= old(mem).top(),
            id < MAX_APP_NUM,
            trampoline <= MAX_PHYS_ADDR,
        ensures
            final(mem).wf(),
            final(mem).same_range(old(mem)),
            final(allocator)@.wf(),
            final(allocator)@.start == old(allocator)@.start,
            final(allocator)@.end == old(allocator)@.end,
            old(allocator)@.issued.subset_of(final(allocator)@.issued),
            final(self).wf(final(mem), final(allocator)),
            final(self).frames().subset_of(final(allocator)@.issued),
            final(self).frames().disjoint(old(allocator)@.issued),
            forall|p: u64, i: int|
                old(mem).contains_page(p) && old(allocator)@.issued.contains(p) && 0 <= i < 512
                    ==> #[trigger] final(mem).word(p, i) == old(mem).word(p, i),
            old(allocator)@.available() == 0 ==> r == Err::<(), LoadError>(LoadError::OutOfFrames),
            old(allocator)@.available() > 0 ==> (r == Err::<(), LoadError>(LoadError::BadImage)
                <==> !loadable(elf_data@)),
            r == Err::<(), LoadError>(LoadError::OutOfFrames)
                ==> final(allocator)@.available() == 0,
            loadable(elf_data@) && old(allocator)@.available() >= 12 + 3 * user_pages(
                elf_segments(elf_data@).unwrap(),
                elf_segments(elf_data@).unwrap().len() as int,
            ) ==> r.is_ok(),
            r.is_ok() <==> loadable(elf_data@) && task_cost(elf_data@) <= old(
                allocator,
            )@.available(),
            final(allocator)@ == old(allocator)@.after_allocs(
                old(allocator)@.capped(
                    if loadable(elf_data@) {
                        task_cost(elf_data@)
                    } else {
                        1
                    },
                ),
            ),
            r.is_ok() ==> {
                &&& final(self).status == TaskStatus::Runable
                &&& final(self).holds_image(
                    final(mem),
                    final(allocator),
                    elf_data@,
                    id as int,
                    trampoline,
                    kernel_satp,
                    trap_handler,
                )
                &&& final(self).context.ra == trap_return
                &&& final(self).context.sp == TRAMPOLINE - (id + 1) * (KERNEL_STACK_SIZE
                    + PAGE_SIZE) + KERNEL_STACK_SIZE
            },
            r.is_err() ==> final(self).status == old(self).status && final(self).context == old(
                self,
            ).context,
    {
        proof {
            if elf_segments(elf_data@).is_some() {
                lemma_load_cost(TableShape::bare(), elf_segments(elf_data@).unwrap());
                lemma_pages_grow(
                    elf_segments(elf_data@).unwrap(),
                    0,
                    elf_segments(elf_data@).unwrap().len() as int,
                );
            }
        }
        let loaded = match Self::load_space(mem, allocator, elf_data, trampoline) {
            Some(l) => l,
            None => {
                return Err(LoadError::OutOfFrames);
            },
        };
        let space = loaded.0;
        match loaded.1 {
            Err(e) => {
                self.space = Some(space);
                Err(e)
            },
            Ok((sp, trapframe)) => {
                let ghost before = *mem;
                let cx = TrapContext::app_init_context(
                    APP_BASE_ADDRESS,
                    sp.bits,
                    kernel_satp,
                    kernel_sp_i(id),
                    trap_handler,
                );
                cx.store(mem, Page { addr: trapframe.bits });
                proof {
                    space.lemma_first_trap_frame(
                        &before,
                        allocator,
                        mem,
                        elf_data@,
                        trampoline,
                        sp.bits,
                        trapframe.bits,
                    );
                    assert(space.data().dom().contains(trapframe.bits));
                    assert(space.table().tables().union(space.data().dom()).contains(
                        trapframe.bits,
                    ));
                    assert(!old(allocator)@.issued.contains(trapframe.bits));
                    assert forall|p: u64, i: int|
                        old(mem).contains_page(p) && old(allocator)@.issued.contains(p) && 0 <= i
                            < 512 implies #[trigger] mem.word(p, i) == old(mem).word(p, i) by {
                        assert(p != trapframe.bits);
                        assert(before.word(p, i) == old(mem).word(p, i));
                    }
                }
                self.trapframe = trapframe;
                self.context.init(kernel_sp_i(id), trap_return);
                self.status = TaskStatus::Runable;
                self.space = Some(space);
                proof {
                    assert(self.ready(mem, allocator));
                    assert(cx.stored_at(mem, self.trapframe.bits));
                    assert(initial_trap_context(
                        cx,
                        sp.bits,
                        kernel_satp,
                        (TRAMPOLINE - (id + 1) * (KERNEL_STACK_SIZE + PAGE_SIZE)
                            + KERNEL_STACK_SIZE) as u64,
                        trap_handler,
                    ));
                }
                Ok(())
            },
        }
    }

    /// Makes a fresh address space and loads the program of an ELF image
    /// into it. `None` when there is no frame for the root of the page
    /// table; else the space, and with it the initial user stack pointer
    /// and the address of the trap frame, or why the program was not
    /// loaded. The frames of the space are frames that were not in use,
    /// and frames that were in use keep their contents.
    fn load_space(
        mem: &mut PhysMemory,
        allocator: &mut PageAllocator,
        elf_data: &[u8],
        trampoline: u64,
    ) -> (r: Option<(UserSpace, Result<(Addr, Addr), LoadError>)>)
        requires
            old(mem).wf(),
            old(allocator)@.wf(),
            old(mem).base() <= old(allocator)@.start,
            old(allocator)@.end <= old(mem).top(),
            trampoline <= MAX_PHYS_ADDR,
        ensures
            final(mem).wf(),
            final(mem).same_range(old(mem)),
            final(allocator)@.wf(),
            final(allocator)@.start == old(allocator)@.start,
            final(allocator)@.end == old(allocator)@.end,
            old(allocator)@.issued.subset_of(final(allocator)@.issued),
            forall|p: u64, i: int|
                old(mem).contains_page(p) && old(allocator)@.issued.contains(p) && 0 <= i < 512
                    ==> #[trigger] final(mem).word(p, i) == old(mem).word(p, i),
            r.is_none() <==> old(allocator)@.available() == 0,
            r.is_none() ==> final(allocator)@.available() == 0,
            final(allocator)@ == old(allocator)@.after_allocs(
                old(allocator)@.capped(
                    if loadable(elf_data@) {
                        task_cost(elf_data@)
                    } else {
                        1
                    },
                ),
            ),
            r.is_some() ==> {
                let space = r.unwrap().0;
                let res = r.unwrap().1;
                &&& space.inv(final(mem), final(allocator))
                &&& space.table().tables().union(space.data().dom()).subset_of(
                    final(allocator)@.issued,
                )
                &&& space.table().tables().union(space.data().dom()).disjoint(
                    old(allocator)@.issued,
                )
                &&& res == Err::<(Addr, Addr), LoadError>(LoadError::BadImage) <==> !loadable(
                    elf_data@,
                )
                &&& res == Err::<(Addr, Addr), LoadError>(LoadError::OutOfFrames)
                    ==> final(allocator)@.available() == 0
                &&& res.is_ok() <==> loadable(elf_data@) && task_cost(elf_data@) <= old(
                    allocator,
                )@.available()
                &&& loadable(elf_data@) && old(allocator)@.available() >= 12 + 3 * user_pages(
                    elf_segments(elf_data@).unwrap(),
                    elf_segments(elf_data@).unwrap().len() as int,
                ) ==> res.is_ok()
                &&& res.is_ok() ==> space.loaded(
                    final(mem),
                    elf_data@,
                    elf_segments(elf_data@).unwrap(),
                    trampoline,
                    res.unwrap().0.bits,
                    res.unwrap().1.bits,
                )
            },
    {
        proof {
            allocator@.lemma_alloc();
            reveal_with_fuel(AllocatorState::after_allocs, 2);
            allocator@.lemma_allocs(0);
            if elf_segments(elf_data@).is_some() {
                lemma_load_cost(TableShape::bare(), elf_segments(elf_data@).unwrap());
                allocator@.lemma_allocs_seq(
                    1,
                    load_cost(TableShape::bare(), elf_segments(elf_data@).unwrap()),
                );
                lemma_pages_grow(
                    elf_segments(elf_data@).unwrap(),
                    0,
                    elf_segments(elf_data@).unwrap().len() as int,
                );
            }
        }
        let mut space = match UserSpace::new(mem, allocator) {
            Some(s) => s,
            None => {
                return None;
            },
        };
        let ghost s1 = space;
        let ghost m1 = *mem;
        let ghost al1 = *allocator;
        let res = space.init_from_elf(mem, allocator, elf_data, trampoline);
        proof {
            space.table().lemma_wf_tables(mem);
            assert forall|p: u64, i: int|
                old(mem).contains_page(p) && old(allocator)@.issued.contains(p) && 0 <= i
                    < 512 implies #[trigger] mem.word(p, i) == old(mem).word(p, i) by {
                assert(m1.word(p, i) == old(mem).word(p, i));
                assert(al1@.issued.contains(p));
                assert(!space.data().dom().contains(p));
            }
            assert forall|p: u64|
                space.table().tables().union(space.data().dom()).contains(
                    p,
                ) implies !old(allocator)@.issued.contains(p) && allocator@.issued.contains(p) by {
                if space.table().tables().contains(p) {
                    if s1.table().tables().contains(p) {
                    } else {
                        assert(!al1@.issued.contains(p));
                    }
                } else {
                    assert(space.data().dom().contains(p));
                    assert(!al1@.issued.contains(p));
                }
            }
        }
        Some((space, res))
    }
}

impl TaskControlBlock {
    /// The frames of a task in order count as in use.
    pub proof fn lemma_frames_issued(&self, mem: &PhysMemory, allocator: &PageAllocator)
        requires
            self.wf(mem, allocator),
        ensures
            self.frames().subset_of(allocator@.issued),
            forall|p: u64| #[trigger] self.frames().contains(p) ==> mem.contains_page(p),
    {
        if self.space.is_some() {
            self.space.unwrap().table().lemma_wf_tables(mem);
        }
    }

    /// A task stays in order while the frames that were in use keep
    /// their contents and stay in use.
    pub proof fn lemma_kept(
        &self,
        mem: &PhysMemory,
        allocator: &PageAllocator,
        mem2: &PhysMemory,
        allocator2: &PageAllocator,
    )
        requires
            self.wf(mem, allocator),
            mem2.wf(),
            mem2.same_range(mem),
            allocator2@.wf(),
            allocator2@.start == allocator@.start,
            allocator2@.end == allocator@.end,
            allocator@.issued.subset_of(allocator2@.issued),
            forall|p: u64, i: int|
                mem.contains_page(p) && allocator@.issued.contains(p) && 0 <= i < 512
                    ==> #[trigger] mem2.word(p, i) == mem.word(p, i),
        ensures
            self.wf(mem2, allocator2),
    {
        if self.space.is_some() {
            self.lemma_frames_issued(mem, allocator);
            let s = self.space.unwrap();
            assert forall|p: u64, i: int|
                (s.table().tables().contains(p) || s.data().dom().contains(p)) && 0 <= i
                    < 512 implies #[trigger] mem2.word(p, i) == mem.word(p, i) by {
                assert(self.frames().contains(p));
            }
            s.lemma_kept(mem, allocator, mem2, allocator2);
        }
    }

    /// A task keeps holding its program while the frames that were in
    /// use keep their contents and stay in use.
    pub proof fn lemma_image_kept(
        &self,
        mem: &PhysMemory,
        allocator: &PageAllocator,
        mem2: &PhysMemory,
        allocator2: &PageAllocator,
        image: Seq<u8>,
        id: int,
        trampoline: u64,
        kernel_satp: u64,
        trap_handler: u64,
    )
        requires
            self.holds_image(mem, allocator, image, id, trampoline, kernel_satp, trap_handler),
            mem2.wf(),
            mem2.same_range(mem),
            allocator2@.wf(),
            allocator2@.start == allocator@.start,
            allocator2@.end == allocator@.end,
            allocator@.issued.subset_of(allocator2@.issued),
            forall|p: u64, i: int|
                mem.contains_page(p) && allocator@.issued.contains(p) && 0 <= i < 512
                    ==> #[trigger] mem2.word(p, i) == mem.word(p, i),
        ensures
            self.holds_image(mem2, allocator2, image, id, trampoline, kernel_satp, trap_handler),
    {
        let s = self.space.unwrap();
        self.lemma_frames_issued(mem, allocator);
        assert forall|p: u64, i: int|
            (s.table().tables().contains(p) || s.data().dom().contains(p)) && 0 <= i
                < 512 implies #[trigger] mem2.word(p, i) == mem.word(p, i) by {
            assert(self.frames().contains(p));
        }
        s.lemma_kept(mem, allocator, mem2, allocator2);
        let segs = elf_segments(image).unwrap();
        let user_sp = (stack_first(segs) * 4096 + USER_STACK_SIZE) as u64;
        let kernel_sp = (TRAMPOLINE - (id + 1) * (KERNEL_STACK_SIZE + PAGE_SIZE)
            + KERNEL_STACK_SIZE) as u64;
        let cx = choose|cx: TrapContext|
            #![trigger cx.stored_at(mem, self.trapframe.bits)]
            cx.stored_at(mem, self.trapframe.bits) && initial_trap_context(
                cx,
                user_sp,
                kernel_satp,
                kernel_sp,
                trap_handler,
            );
        assert(self.frames().contains(self.trapframe.bits));
        assert forall|i: int| 0 <= i < 36 implies #[trigger] mem2.word(self.trapframe.bits, i)
            == cx.words()[i] by {
            assert(mem.word(self.trapframe.bits, i) == cx.words()[i]);
        }
        assert(cx.stored_at(mem2, self.trapframe.bits));
        assert(s.loaded(mem2, image, segs, trampoline, user_sp, self.trapframe.bits)) by {
            assert(s.table().mapping(mem2, TRAMPOLINE) == s.table().mapping(mem, TRAMPOLINE));
            assert(s.table().mapping(mem2, TRAP_FRAME) == s.table().mapping(mem, TRAP_FRAME));
            assert forall|va: u64| #[trigger] s.user_byte(mem2, va) == s.user_byte(mem, va) by {}
        }
    }
}

} // verus!
