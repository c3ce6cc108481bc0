use kernel::mem::address::{Addr, Page};
use kernel::mem::page_allocator::PageAllocator;
use kernel::mem::phys_mem::PhysMemory;
use kernel::mem::user_space::LoadError;
use kernel::mem_layout::{TRAMPOLINE, TRAP_FRAME};
use kernel::syscall::fs::{sys_write, KernelFault};
use kernel::syscall::process::{sys_exit, sys_yield};
use kernel::syscall::{syscall, SyscallResult, SYSCALL_EXIT, SYSCALL_WRITE, SYSCALL_YIELD};
use kernel::task::context::TaskContext;
use kernel::task::loader::{get_app_data, get_app_num};
use kernel::task::task::{TaskControlBlock, TaskStatus};
use kernel::task::{
    current_pagetable, current_user_epc, current_user_satp, current_user_trapcontext, load_tasks,
    run_first_task, run_next_task_kill, run_next_task_suspend, Schedule, TaskManager,
};
use kernel::trap::cause::{decode_cause, Exception, Interrupt, Trap};
use kernel::trap::context::TrapContext;
use kernel::trap::interrupt::next_clock_interrupt;
use kernel::trap::{user_trap_handler, user_trap_return, KillReason, TrapAction};

const TRAMPOLINE_PA: u64 = 0x8020_4000;
const KERNEL_SATP: u64 = 0x8000_0000_0008_7000;
const HANDLER: u64 = 0x8020_1230;
const RETURN: u64 = 0x8020_4560;
const TIMER: u64 = (1u64 << 63) | 5;

fn put16(v: &mut Vec<u8>, x: u16) {
    v.extend_from_slice(&x.to_le_bytes());
}

fn put32(v: &mut Vec<u8>, x: u32) {
    v.extend_from_slice(&x.to_le_bytes());
}

fn put64(v: &mut Vec<u8>, x: u64) {
    v.extend_from_slice(&x.to_le_bytes());
}

/// A 64-bit ELF image with one load segment for read and write at
/// 0x10000 that holds `data`.
fn app(data: &[u8]) -> Vec<u8> {
    let mut v: Vec<u8> = Vec::new();
    v.extend_from_slice(&[0x7f, 0x45, 0x4c, 0x46, 2, 1, 1, 0, 0, 0, 0, 0, 0, 0, 0, 0]);
    put16(&mut v, 2);
    put16(&mut v, 0xf3);
    put32(&mut v, 1);
    put64(&mut v, 0x1_0000);
    put64(&mut v, 64);
    put64(&mut v, 0);
    put32(&mut v, 0);
    put16(&mut v, 64);
    put16(&mut v, 56);
    put16(&mut v, 1);
    put16(&mut v, 64);
    put16(&mut v, 0);
    put16(&mut v, 0);
    put32(&mut v, 1);
    put32(&mut v, 7);
    put64(&mut v, 120);
    put64(&mut v, 0x1_0000);
    put64(&mut v, 0x1_0000);
    put64(&mut v, data.len() as u64);
    put64(&mut v, 0x1000);
    put64(&mut v, 0x1000);
    v.extend_from_slice(data);
    while v.len() % 8 != 0 {
        v.push(0);
    }
    v
}

/// The packed blob of the given images.
fn blob(apps: &[Vec<u8>]) -> Vec<u8> {
    let mut v: Vec<u8> = Vec::new();
    put64(&mut v, apps.len() as u64);
    let mut offset = 8 + 8 * (apps.len() as u64 + 1);
    for a in apps {
        put64(&mut v, offset);
        offset += a.len() as u64;
    }
    put64(&mut v, offset);
    for a in apps {
        v.extend_from_slice(a);
    }
    v
}

struct Kernel {
    mem: PhysMemory,
    allocator: PageAllocator,
    manager: TaskManager,
}

fn boot(apps: &[Vec<u8>]) -> Kernel {
    let mut mem = PhysMemory::new(0x8000_0000, 256);
    let mut allocator = PageAllocator::empty();
    allocator.init(Addr::new(0x8000_0000), Addr::new(0x8000_0000 + 256 * 4096));
    let mut manager = TaskManager::new(apps.len());
    let r = load_tasks(
        &mut manager,
        &mut mem,
        &mut allocator,
        &blob(apps),
        TRAMPOLINE_PA,
        KERNEL_SATP,
        HANDLER,
        RETURN,
    );
    assert_eq!(r, Ok(()));
    Kernel { mem, allocator, manager }
}

impl Kernel {
    fn set_reg(&mut self, task: usize, reg: usize, value: u64) {
        self.manager.write_frame_word(&mut self.mem, &self.allocator, task, reg, value);
    }

    fn reg(&self, task: usize, reg: usize) -> u64 {
        let tf = self.manager.inner.tasks[task].trapframe.bits;
        self.mem.read(Page { addr: tf }, reg)
    }

    fn ecall(&mut self, sepc: u64, id: u64, args: [u64; 3]) -> TrapAction {
        let c = self.manager.inner.current;
        self.set_reg(c, 17, id);
        self.set_reg(c, 10, args[0]);
        self.set_reg(c, 11, args[1]);
        self.set_reg(c, 12, args[2]);
        user_trap_handler(&mut self.manager, &mut self.mem, &self.allocator, sepc, 8)
    }

    fn trap(&mut self, sepc: u64, scause: u64) -> TrapAction {
        user_trap_handler(&mut self.manager, &mut self.mem, &self.allocator, sepc, scause)
    }

    fn statuses(&self) -> Vec<TaskStatus> {
        let n = self.manager.task_num;
        self.manager.inner.tasks[..n].iter().map(|t| t.status).collect()
    }
}

#[test]
fn blob_is_split_into_images() {
    let a0 = app(b"zero");
    let a1 = app(b"one!");
    let b = blob(&[a0.clone(), a1.clone()]);
    assert_eq!(get_app_num(&b), Some(2));
    assert_eq!(get_app_data(&b, 0), Some(&a0[..]));
    assert_eq!(get_app_data(&b, 1), Some(&a1[..]));
    assert_eq!(get_app_data(&b, 2), None);
    assert_eq!(get_app_num(&[1, 2, 3]), None);
    assert_eq!(get_app_num(&[0u8; 8]), Some(0));
    assert_eq!(get_app_data(&[0u8; 8], 0), None);
    // An end offset beyond the blob.
    let mut bad = b.clone();
    bad.truncate(b.len() - 1);
    assert_eq!(get_app_data(&bad, 1), None);
    assert_eq!(get_app_data(&bad, 0), Some(&a0[..]));
    // Offsets that go backwards.
    let mut v: Vec<u8> = Vec::new();
    put64(&mut v, 1);
    put64(&mut v, 24);
    put64(&mut v, 23);
    assert_eq!(get_app_data(&v, 0), None);
}

#[test]
fn trap_context_for_a_first_run() {
    let cx = TrapContext::app_init_context(0x1_0000, 0x1_6000, 7, 8, 9);
    for i in 0..32 {
        assert_eq!(cx.x[i], if i == 2 { 0x1_6000 } else { 0 });
    }
    assert_eq!(cx.epc, 0x1_0000);
    assert_eq!((cx.kernel_satp, cx.kernel_sp, cx.kernel_trap), (7, 8, 9));
    let mut n = TrapContext::new(1, 2, 3);
    assert_eq!(n.x, [0u64; 32]);
    assert_eq!((n.kernel_satp, n.kernel_sp, n.kernel_trap, n.epc), (1, 2, 3, 0));
    n.set_sp(0x55);
    n.set_epc(0x66);
    assert_eq!(n.x[2], 0x55);
    assert_eq!(n.x[1], 0);
    assert_eq!(n.epc, 0x66);
}

#[test]
fn trap_context_is_stored_as_thirty_six_words() {
    let mut mem = PhysMemory::new(0x8000_0000, 2);
    let mut cx = TrapContext::app_init_context(0x1_0000, 0x1_6000, 7, 8, 9);
    cx.x[31] = 0x31;
    let page = Page { addr: 0x8000_1000 };
    mem.write(page, 36, 0x77);
    cx.store(&mut mem, page);
    assert_eq!(mem.read(page, 2), 0x1_6000);
    assert_eq!(mem.read(page, 31), 0x31);
    assert_eq!(mem.read(page, 32), 7);
    assert_eq!(mem.read(page, 33), 8);
    assert_eq!(mem.read(page, 34), 9);
    assert_eq!(mem.read(page, 35), 0x1_0000);
    assert_eq!(mem.read(page, 36), 0x77);
    let back = TrapContext::load(&mem, page);
    assert_eq!(back.x, cx.x);
    assert_eq!(
        (back.kernel_satp, back.kernel_sp, back.kernel_trap, back.epc),
        (7, 8, 9, 0x1_0000)
    );
}

#[test]
fn task_context_for_a_first_run() {
    let mut c = TaskContext::new();
    assert_eq!((c.ra, c.sp, c.s), (0, 0, [0u64; 12]));
    c.s[3] = 5;
    c.init(0x1000, 0x2000);
    assert_eq!((c.ra, c.sp, c.s), (0x2000, 0x1000, [0u64; 12]));
}

#[test]
fn fresh_task_is_unused() {
    let mut t = TaskControlBlock::new();
    assert_eq!(t.status, TaskStatus::Unused);
    assert!(t.space.is_none());
    assert_eq!(t.trapframe.bits, 0);
    assert_eq!(t.user_satp(), None);
    t.clear();
    assert_eq!(t.status, TaskStatus::Unused);
}

#[test]
fn causes_are_decoded() {
    assert_eq!(decode_cause(8), Trap::Exception(Exception::UserEnvCall));
    assert_eq!(decode_cause(2), Trap::Exception(Exception::IllegalInstruction));
    assert_eq!(decode_cause(7), Trap::Exception(Exception::StoreFault));
    assert_eq!(decode_cause(12), Trap::Exception(Exception::InstructionPageFault));
    assert_eq!(decode_cause(13), Trap::Exception(Exception::LoadPageFault));
    assert_eq!(decode_cause(15), Trap::Exception(Exception::StorePageFault));
    assert_eq!(decode_cause(0), Trap::Exception(Exception::InstructionMisaligned));
    assert_eq!(decode_cause(4), Trap::Exception(Exception::Unknown));
    assert_eq!(decode_cause(1 << 62), Trap::Exception(Exception::Unknown));
    assert_eq!(decode_cause(TIMER), Trap::Interrupt(Interrupt::SupervisorTimer));
    assert_eq!(decode_cause(1 << 63), Trap::Interrupt(Interrupt::UserSoft));
    assert_eq!(decode_cause((1 << 63) | 9), Trap::Interrupt(Interrupt::SupervisorExternal));
    assert_eq!(decode_cause((1 << 63) | 2), Trap::Interrupt(Interrupt::Unknown));
}

#[test]
fn next_clock_interrupt_is_one_tick_on() {
    assert_eq!(next_clock_interrupt(1_000, 12_500_000), 126_000);
    assert_eq!(next_clock_interrupt(0, 99), 0);
    assert_eq!(next_clock_interrupt(5, 100), 6);
}

#[test]
fn tasks_are_loaded_and_ready_for_their_first_run() {
    let k = boot(&[app(b"zero"), app(b"one!")]);
    assert_eq!(k.statuses(), vec![TaskStatus::Runable, TaskStatus::Runable]);
    assert_eq!(k.manager.inner.tasks[2].status, TaskStatus::Unused);
    assert!(k.manager.inner.tasks[2].space.is_none());
    for id in 0..2usize {
        let t = &k.manager.inner.tasks[id];
        let space = t.space.as_ref().unwrap();
        assert_eq!(t.context.ra, RETURN);
        assert_eq!(t.context.sp, TRAMPOLINE - (id as u64 + 1) * 0x3000 + 0x2000);
        assert_eq!(
            space.page_table().translate(&k.mem, Addr::new(TRAP_FRAME), false),
            Some(t.trapframe)
        );
        let cx = t.trap_context(&k.mem);
        assert_eq!(cx.epc, 0x1_0000);
        // One page of program at 0x10000, a guard page, two pages of stack.
        assert_eq!(cx.x[2], 0x1_2000 + 0x2000);
        assert_eq!(cx.x[10], 0);
        assert_eq!(cx.kernel_satp, KERNEL_SATP);
        assert_eq!(cx.kernel_sp, t.context.sp);
        assert_eq!(cx.kernel_trap, HANDLER);
        assert_eq!(t.user_epc(&k.mem), 0x1_0000);
        assert_eq!(t.user_satp(), Some(space.make_satp()));
    }
    let s0 = k.manager.inner.tasks[0].space.as_ref().unwrap();
    let s1 = k.manager.inner.tasks[1].space.as_ref().unwrap();
    assert_eq!(s0.copy_from_user(&k.mem, Addr::new(0x1_0000), 4), Some(b"zero".to_vec()));
    assert_eq!(s1.copy_from_user(&k.mem, Addr::new(0x1_0000), 4), Some(b"one!".to_vec()));
    assert_ne!(s0.make_satp(), s1.make_satp());
}

#[test]
fn loading_stops_at_a_bad_image() {
    let mut mem = PhysMemory::new(0x8000_0000, 256);
    let mut allocator = PageAllocator::empty();
    allocator.init(Addr::new(0x8000_0000), Addr::new(0x8000_0000 + 256 * 4096));
    let mut manager = TaskManager::new(2);
    let mut bad = app(b"one!");
    bad[0] = 0;
    let r = load_tasks(
        &mut manager,
        &mut mem,
        &mut allocator,
        &blob(&[app(b"zero"), bad]),
        TRAMPOLINE_PA,
        KERNEL_SATP,
        HANDLER,
        RETURN,
    );
    assert_eq!(r, Err(LoadError::BadImage));
    assert_eq!(manager.inner.tasks[0].status, TaskStatus::Runable);
    assert_eq!(manager.inner.tasks[1].status, TaskStatus::Unused);
    // A blob with fewer images than tasks.
    let mut mem = PhysMemory::new(0x8000_0000, 256);
    let mut manager = TaskManager::new(2);
    let mut allocator = PageAllocator::empty();
    allocator.init(Addr::new(0x8000_0000), Addr::new(0x8000_0000 + 256 * 4096));
    let r = load_tasks(
        &mut manager,
        &mut mem,
        &mut allocator,
        &blob(&[app(b"zero")]),
        TRAMPOLINE_PA,
        KERNEL_SATP,
        HANDLER,
        RETURN,
    );
    assert_eq!(r, Err(LoadError::BadImage));
}

#[test]
fn loading_tasks_fails_when_frames_run_out() {
    let mut mem = PhysMemory::new(0x8000_0000, 12);
    let mut allocator = PageAllocator::empty();
    allocator.init(Addr::new(0x8000_0000), Addr::new(0x8000_0000 + 12 * 4096));
    let mut manager = TaskManager::new(2);
    let r = load_tasks(
        &mut manager,
        &mut mem,
        &mut allocator,
        &blob(&[app(b"zero"), app(b"one!")]),
        TRAMPOLINE_PA,
        KERNEL_SATP,
        HANDLER,
        RETURN,
    );
    assert_eq!(r, Err(LoadError::OutOfFrames));
    assert_eq!(manager.inner.tasks[0].status, TaskStatus::Runable);
    assert_eq!(manager.inner.tasks[1].status, TaskStatus::Unused);
}

#[test]
fn first_task_runs_first() {
    let mut k = boot(&[app(b"a"), app(b"b")]);
    assert_eq!(run_first_task(&mut k.manager), 0);
    assert_eq!(k.statuses(), vec![TaskStatus::Running, TaskStatus::Runable]);
    assert_eq!(
        current_user_satp(&k.manager),
        k.manager.inner.tasks[0].user_satp()
    );
    assert_eq!(current_user_epc(&k.manager, &k.mem), 0x1_0000);
    assert_eq!(current_user_trapcontext(&k.manager, &k.mem).x[2], 0x1_4000);
    assert!(current_pagetable(&k.manager).is_some());
    let r = user_trap_return(&k.manager, &k.mem, &k.allocator);
    assert_eq!(Some(r.satp), k.manager.inner.tasks[0].user_satp());
    assert_eq!(r.epc, 0x1_0000);
}

#[test]
fn suspended_tasks_take_turns() {
    let mut k = boot(&[app(b"a"), app(b"b"), app(b"c")]);
    run_first_task(&mut k.manager);
    let mut order = vec![k.manager.inner.current];
    for _ in 0..9 {
        let from = k.manager.inner.current;
        let s = run_next_task_suspend(&mut k.manager);
        assert_eq!(s, Schedule::Switch { from, to: (from + 1) % 3 });
        order.push(k.manager.inner.current);
        let mut expect = vec![TaskStatus::Runable; 3];
        expect[k.manager.inner.current] = TaskStatus::Running;
        assert_eq!(k.statuses(), expect);
    }
    assert_eq!(order, vec![0, 1, 2, 0, 1, 2, 0, 1, 2, 0]);
}

#[test]
fn a_lone_task_follows_itself() {
    let mut k = boot(&[app(b"a")]);
    run_first_task(&mut k.manager);
    assert_eq!(
        run_next_task_suspend(&mut k.manager),
        Schedule::Switch { from: 0, to: 0 }
    );
    assert_eq!(k.manager.find_next_task(), None);
    assert_eq!(k.statuses(), vec![TaskStatus::Running]);
}

#[test]
fn killed_tasks_are_passed_over_until_none_is_left() {
    let mut k = boot(&[app(b"a"), app(b"b"), app(b"c")]);
    run_first_task(&mut k.manager);
    assert_eq!(run_next_task_kill(&mut k.manager), Schedule::Switch { from: 0, to: 1 });
    assert_eq!(
        k.statuses(),
        vec![TaskStatus::Zombie, TaskStatus::Running, TaskStatus::Runable]
    );
    assert_eq!(run_next_task_suspend(&mut k.manager), Schedule::Switch { from: 1, to: 2 });
    assert_eq!(run_next_task_suspend(&mut k.manager), Schedule::Switch { from: 2, to: 1 });
    assert_eq!(run_next_task_kill(&mut k.manager), Schedule::Switch { from: 1, to: 2 });
    assert_eq!(run_next_task_kill(&mut k.manager), Schedule::Shutdown);
    assert_eq!(k.statuses(), vec![TaskStatus::Zombie; 3]);
    assert_eq!(k.manager.inner.current, 2);
}

#[test]
fn find_next_task_is_the_next_runnable_in_the_round() {
    let mut k = boot(&[app(b"a"), app(b"b"), app(b"c"), app(b"d")]);
    k.manager.inner.current = 2;
    k.manager.inner.tasks[2].status = TaskStatus::Running;
    k.manager.inner.tasks[3].status = TaskStatus::Zombie;
    k.manager.inner.tasks[0].status = TaskStatus::Sleeping;
    assert_eq!(k.manager.find_next_task(), Some(1));
    k.manager.inner.tasks[1].status = TaskStatus::Zombie;
    assert_eq!(k.manager.find_next_task(), None);
    k.manager.mark_current_runnable();
    assert_eq!(k.manager.find_next_task(), Some(2));
    k.manager.mark_current_zombie();
    assert_eq!(k.manager.inner.tasks[2].status, TaskStatus::Zombie);
    assert_eq!(k.manager.run_next_task(), Schedule::Shutdown);
}

#[test]
fn hello_write_exit() {
    let mut k = boot(&[app(b"hi\n")]);
    run_first_task(&mut k.manager);
    match k.ecall(0x1_0010, SYSCALL_WRITE, [1, 0x1_0000, 3]) {
        TrapAction::Resume { console } => assert_eq!(console, b"hi\n".to_vec()),
        other => panic!("{:?}", other),
    }
    assert_eq!(k.reg(0, 10), 3);
    assert_eq!(k.reg(0, 35), 0x1_0014);
    assert_eq!(user_trap_return(&k.manager, &k.mem, &k.allocator).epc, 0x1_0014);
    match k.ecall(0x1_0020, SYSCALL_EXIT, [0, 0, 0]) {
        TrapAction::Exited { code, schedule } => {
            assert_eq!(code, 0);
            assert_eq!(schedule, Schedule::Shutdown);
        }
        other => panic!("{:?}", other),
    }
    assert_eq!(k.statuses(), vec![TaskStatus::Zombie]);
}

#[test]
fn yield_round_robin() {
    let mut k = boot(&[app(b"0"), app(b"1"), app(b"2")]);
    run_first_task(&mut k.manager);
    let mut printed: Vec<u8> = Vec::new();
    for _ in 0..30 {
        let c = k.manager.inner.current;
        match k.ecall(0x1_0000, SYSCALL_WRITE, [1, 0x1_0000, 1]) {
            TrapAction::Resume { console } => printed.extend_from_slice(&console),
            other => panic!("{:?}", other),
        }
        match k.ecall(0x1_0004, SYSCALL_YIELD, [0, 0, 0]) {
            TrapAction::Yielded { schedule } => {
                assert_eq!(schedule, Schedule::Switch { from: c, to: (c + 1) % 3 });
            }
            other => panic!("{:?}", other),
        }
        assert_eq!(k.reg(c, 10), 0);
        assert_eq!(k.reg(c, 35), 0x1_0008);
    }
    assert_eq!(printed, b"012012012012012012012012012012".to_vec());
    let mut left = 3;
    loop {
        match k.ecall(0x1_0008, SYSCALL_EXIT, [7, 0, 0]) {
            TrapAction::Exited { code, schedule } => {
                assert_eq!(code, 7);
                left -= 1;
                if left == 0 {
                    assert_eq!(schedule, Schedule::Shutdown);
                    break;
                }
                assert!(matches!(schedule, Schedule::Switch { .. }));
            }
            other => panic!("{:?}", other),
        }
    }
    assert_eq!(k.statuses(), vec![TaskStatus::Zombie; 3]);
}

#[test]
fn null_pointer_store_kills_the_task() {
    let mut k = boot(&[app(b"a"), app(b"b")]);
    run_first_task(&mut k.manager);
    match k.trap(0x1_0040, 15) {
        TrapAction::Killed { reason, schedule } => {
            assert_eq!(reason, KillReason::PageFault);
            assert_eq!(schedule, Schedule::Switch { from: 0, to: 1 });
        }
        other => panic!("{:?}", other),
    }
    assert_eq!(k.statuses(), vec![TaskStatus::Zombie, TaskStatus::Running]);
    assert_eq!(k.reg(0, 35), 0x1_0040);
    // The last task: the kernel shuts down.
    for cause in [7u64, 13, 12] {
        let mut k = boot(&[app(b"a")]);
        run_first_task(&mut k.manager);
        match k.trap(0x1_0040, cause) {
            TrapAction::Killed { reason, schedule } => {
                assert_eq!(reason, KillReason::PageFault);
                assert_eq!(schedule, Schedule::Shutdown);
            }
            other => panic!("{:?}", other),
        }
    }
}

#[test]
fn illegal_instruction_kills_the_task() {
    let mut k = boot(&[app(b"a"), app(b"b")]);
    run_first_task(&mut k.manager);
    match k.trap(0x1_0040, 2) {
        TrapAction::Killed { reason, schedule } => {
            assert_eq!(reason, KillReason::IllegalInstruction);
            assert_eq!(schedule, Schedule::Switch { from: 0, to: 1 });
        }
        other => panic!("{:?}", other),
    }
    assert_eq!(k.statuses(), vec![TaskStatus::Zombie, TaskStatus::Running]);
}

#[test]
fn timer_preempts_a_task_that_never_yields() {
    let mut k = boot(&[app(b"a"), app(b"b")]);
    run_first_task(&mut k.manager);
    let mut ran = vec![0usize; 2];
    for tick in 0..10u64 {
        let c = k.manager.inner.current;
        ran[c] += 1;
        match k.trap(0x1_0000 + 4 * tick, TIMER) {
            TrapAction::Timer { schedule } => {
                assert_eq!(schedule, Schedule::Switch { from: c, to: 1 - c });
            }
            other => panic!("{:?}", other),
        }
        // The program counter is kept as it was, not advanced.
        assert_eq!(k.reg(c, 35), 0x1_0000 + 4 * tick);
    }
    assert_eq!(ran, vec![5, 5]);
}

#[test]
fn other_traps_and_calls_stop_the_kernel() {
    let mut k = boot(&[app(b"a")]);
    run_first_task(&mut k.manager);
    for cause in [3u64, 5, 0, (1 << 63) | 9, (1 << 63) | 1] {
        match k.trap(0x1_0000, cause) {
            TrapAction::Fatal { fault } => assert_eq!(fault, KernelFault::UnsupportedTrap),
            other => panic!("{:?}", other),
        }
    }
    match k.ecall(0x1_0000, 1, [0, 0, 0]) {
        TrapAction::Fatal { fault } => assert_eq!(fault, KernelFault::UnsupportedSyscall),
        other => panic!("{:?}", other),
    }
    match k.ecall(0x1_0000, SYSCALL_WRITE, [2, 0x1_0000, 1]) {
        TrapAction::Fatal { fault } => assert_eq!(fault, KernelFault::UnsupportedFd),
        other => panic!("{:?}", other),
    }
    match k.ecall(0x1_0000, SYSCALL_WRITE, [1, 0x1_0000, 1025]) {
        TrapAction::Fatal { fault } => assert_eq!(fault, KernelFault::BufferTooLong),
        other => panic!("{:?}", other),
    }
    match k.ecall(0x1_0000, SYSCALL_WRITE, [1, 0x5_0000, 1]) {
        TrapAction::Fatal { fault } => assert_eq!(fault, KernelFault::BadUserBuffer),
        other => panic!("{:?}", other),
    }
    assert_eq!(k.statuses(), vec![TaskStatus::Running]);
}

#[test]
fn environment_call_at_the_end_of_the_address_range_goes_round() {
    let mut k = boot(&[app(b"a")]);
    run_first_task(&mut k.manager);
    k.ecall(u64::MAX - 1, SYSCALL_YIELD, [0, 0, 0]);
    assert_eq!(k.reg(0, 35), 2);
}

#[test]
fn system_calls_by_number() {
    let mut k = boot(&[app(b"hello"), app(b"b")]);
    run_first_task(&mut k.manager);
    let space = k.manager.inner.tasks[0].space.as_ref().unwrap();
    assert_eq!(sys_write(space, &k.mem, 1, 0x1_0001, 3), Ok(b"ell".to_vec()));
    assert_eq!(sys_write(space, &k.mem, 1, 0x1_0001, 0), Ok(vec![]));
    assert_eq!(sys_write(space, &k.mem, 0, 0x1_0001, 3), Err(KernelFault::UnsupportedFd));
    match syscall(&mut k.manager, &k.mem, SYSCALL_WRITE, [1, 0x1_0000, 5]) {
        SyscallResult::Done { ret, console } => {
            assert_eq!(ret, 5);
            assert_eq!(console, b"hello".to_vec());
        }
        other => panic!("{:?}", other),
    }
    assert_eq!(sys_yield(&mut k.manager), Schedule::Switch { from: 0, to: 1 });
    assert_eq!(sys_exit(&mut k.manager, -1), Schedule::Switch { from: 1, to: 0 });
    match syscall(&mut k.manager, &k.mem, SYSCALL_EXIT, [0xffff_ffff_ffff_fffe, 0, 0]) {
        SyscallResult::Exited { code, schedule } => {
            assert_eq!(code, -2);
            assert_eq!(schedule, Schedule::Shutdown);
        }
        other => panic!("{:?}", other),
    }
}

#[test]
fn a_task_takes_exactly_the_frames_it_costs() {
    // The root; two pages and a frame for trampoline and trap frame; a
    // frame and two pages for the program; two frames for the stack.
    let cost = 1 + 3 + 3 + 2;
    for (frames, ok) in [(cost, true), (cost - 1, false), (2 * cost - 1, true)] {
        let mut mem = PhysMemory::new(0x8000_0000, frames);
        let mut allocator = PageAllocator::empty();
        allocator.init(Addr::new(0x8000_0000), Addr::new(0x8000_0000 + 4096 * frames as u64));
        let mut manager = TaskManager::new(1);
        let r = load_tasks(
            &mut manager,
            &mut mem,
            &mut allocator,
            &blob(&[app(b"zero")]),
            TRAMPOLINE_PA,
            KERNEL_SATP,
            HANDLER,
            RETURN,
        );
        assert_eq!(r.is_ok(), ok);
        if frames == 2 * cost - 1 {
            assert_eq!(
                allocator.alloc_page(),
                Some(Page { addr: 0x8000_0000 + 4096 * cost as u64 })
            );
        } else {
            assert_eq!(allocator.alloc_page(), None);
        }
    }
    // Two tasks cost twice as much.
    for (frames, ok) in [(2 * cost, true), (2 * cost - 1, false)] {
        let mut mem = PhysMemory::new(0x8000_0000, frames);
        let mut allocator = PageAllocator::empty();
        allocator.init(Addr::new(0x8000_0000), Addr::new(0x8000_0000 + 4096 * frames as u64));
        let mut manager = TaskManager::new(2);
        let r = load_tasks(
            &mut manager,
            &mut mem,
            &mut allocator,
            &blob(&[app(b"zero"), app(b"one!")]),
            TRAMPOLINE_PA,
            KERNEL_SATP,
            HANDLER,
            RETURN,
        );
        assert_eq!(r.is_ok(), ok);
    }
}
