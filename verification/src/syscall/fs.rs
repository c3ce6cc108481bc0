//! File-related system calls.

use vstd::prelude::*;
use crate::mem::address::Addr;
use crate::mem::phys_mem::PhysMemory;
use crate::mem::user_space::UserSpace;
use crate::mem_layout::MAX_BUF_SIZE;

verus! {

/// Standard input.
pub const FD_STDIN: u64 = 0;

/// Standard output.
pub const FD_STDOUT: u64 = 1;

/// Standard error.
pub const FD_STDERR: u64 = 2;

/// Why the kernel cannot go on.
#[derive(Clone, Copy, PartialEq, Eq, Structural, Debug)]
pub enum KernelFault {
    /// A trap with a cause that the kernel does not handle.
    UnsupportedTrap,
    /// A system call with a number that the kernel does not know.
    UnsupportedSyscall,
    /// A write to a file descriptor other than standard output.
    UnsupportedFd,
    /// A write of more bytes than the staging buffer holds.
    BufferTooLong,
    /// A write from memory that the user cannot read.
    BadUserBuffer,
}

/// What a write of `len` bytes at `buf` to `fd` comes to: the bytes for
/// the console, or the fault that stops the kernel. The faults are
/// tried in this order: the file descriptor, the length, the buffer.
pub open spec fn write_result(
    space: &UserSpace,
    mem: &PhysMemory,
    fd: u64,
    buf: u64,
    len: u64,
) -> Result<Seq<u8>, KernelFault> {
    if fd != FD_STDOUT {
        Err(KernelFault::UnsupportedFd)
    } else if len > MAX_BUF_SIZE {
        Err(KernelFault::BufferTooLong)
    } else if !space.user_readable(mem, buf, len as int) {
        Err(KernelFault::BadUserBuffer)
    } else {
        Ok(Seq::new(len as nat, |k: int| space.user_byte(mem, (buf + k) as u64).unwrap()))
    }
}

/// Writes `len` bytes at `buf` in the user space to the file `fd`,
/// which must be standard output. Returns the bytes, copied from user
/// memory, for the console to print. The bytes pass through the
/// kernel's staging buffer, whose size the memory layout fixes as
/// `MAX_BUF_SIZE`: a longer write does not fit and is refused.
pub fn sys_write(space: &UserSpace, mem: &PhysMemory, fd: u64, buf: u64, len: u64) -> (r: Result<
    Vec<u8>,
    KernelFault,
>)
    requires
        space.table().wf(mem),
    ensures
        match write_result(space, mem, fd, buf, len) {
            Ok(bytes) => r.is_ok() && r.unwrap()@ == bytes,
            Err(fault) => r == Err::<Vec<u8>, KernelFault>(fault),
        },
{
    if fd != FD_STDOUT {
        return Err(KernelFault::UnsupportedFd);
    }
    if len > MAX_BUF_SIZE {
        return Err(KernelFault::BufferTooLong);
    }
    match space.copy_from_user(mem, Addr::new(buf), len as usize) {
        Some(bytes) => {
            proof {
                assert(bytes@ =~= Seq::new(
                    len as nat,
                    |k: int| space.user_byte(mem, (buf + k) as u64).unwrap(),
                ));
            }
            Ok(bytes)
        },
        None => Err(KernelFault::BadUserBuffer),
    }
}

} // verus!
