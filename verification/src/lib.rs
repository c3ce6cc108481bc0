//! Core of a small preemptive multitasking kernel for RISC-V Sv39:
//! the virtual memory subsystem and the task subsystem, with their
//! behaviour stated as contracts and proved.

pub mod mem_layout;
pub mod mem;
pub mod syscall;
pub mod task;
pub mod trap;

