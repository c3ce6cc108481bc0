//! Virtual memory subsystem.

pub mod address;
pub mod phys_mem;
pub mod page_allocator;
pub mod frame_map;
pub mod page_table;
pub mod mapper;
pub mod kernel_space;
pub mod elf;
pub mod user_space;
pub mod self_test;
