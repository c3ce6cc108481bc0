//! Causes of traps, as the supervisor cause register encodes them.

use vstd::prelude::*;
use riscv::register::scause;

verus! {

/// An interrupt cause.
#[derive(Clone, Copy, PartialEq, Eq, Structural, Debug)]
pub enum Interrupt {
    UserSoft,
    SupervisorSoft,
    UserTimer,
    SupervisorTimer,
    UserExternal,
    SupervisorExternal,
    Unknown,
}

/// An exception cause.
#[derive(Clone, Copy, PartialEq, Eq, Structural, Debug)]
pub enum Exception {
    InstructionMisaligned,
    InstructionFault,
    IllegalInstruction,
    Breakpoint,
    LoadFault,
    StoreMisaligned,
    StoreFault,
    UserEnvCall,
    InstructionPageFault,
    LoadPageFault,
    StorePageFault,
    Unknown,
}

/// The cause of a trap.
#[derive(Clone, Copy, PartialEq, Eq, Structural, Debug)]
pub enum Trap {
    Interrupt(Interrupt),
    Exception(Exception),
}

/// The interrupt that a cause code stands for.
pub open spec fn interrupt_of(code: int) -> Interrupt {
    if code == 0 {
        Interrupt::UserSoft
    } else if code == 1 {
        Interrupt::SupervisorSoft
    } else if code == 4 {
        Interrupt::UserTimer
    } else if code == 5 {
        Interrupt::SupervisorTimer
    } else if code == 8 {
        Interrupt::UserExternal
    } else if code == 9 {
        Interrupt::SupervisorExternal
    } else {
        Interrupt::Unknown
    }
}

/// The exception that a cause code stands for.
pub open spec fn exception_of(code: int) -> Exception {
    if code == 0 {
        Exception::InstructionMisaligned
    } else if code == 1 {
        Exception::InstructionFault
    } else if code == 2 {
        Exception::IllegalInstruction
    } else if code == 3 {
        Exception::Breakpoint
    } else if code == 5 {
        Exception::LoadFault
    } else if code == 6 {
        Exception::StoreMisaligned
    } else if code == 7 {
        Exception::StoreFault
    } else if code == 8 {
        Exception::UserEnvCall
    } else if code == 12 {
        Exception::InstructionPageFault
    } else if code == 13 {
        Exception::LoadPageFault
    } else if code == 15 {
        Exception::StorePageFault
    } else {
        Exception::Unknown
    }
}

/// The cause that a value of the 64-bit cause register stands for: an
/// interrupt where the top bit is set, else an exception, with the
/// other bits as the code.
pub open spec fn cause_of(bits: u64) -> Trap {
    if bits >= 0x8000_0000_0000_0000 {
        Trap::Interrupt(interrupt_of(bits - 0x8000_0000_0000_0000))
    } else {
        Trap::Exception(exception_of(bits as int))
    }
}

/// Decodes an interrupt code with `riscv::register::scause::Interrupt::from`,
/// which maps the codes 0, 1, 4, 5, 8 and 9 to the six interrupts and
/// every other code to `Unknown`.
#[verifier::external_body]
fn interrupt_from(code: usize) -> (r: Interrupt)
    ensures
        r == interrupt_of(code as int),
{
    match scause::Interrupt::from(code) {
        scause::Interrupt::UserSoft => Interrupt::UserSoft,
        scause::Interrupt::SupervisorSoft => Interrupt::SupervisorSoft,
        scause::Interrupt::UserTimer => Interrupt::UserTimer,
        scause::Interrupt::SupervisorTimer => Interrupt::SupervisorTimer,
        scause::Interrupt::UserExternal => Interrupt::UserExternal,
        scause::Interrupt::SupervisorExternal => Interrupt::SupervisorExternal,
        scause::Interrupt::Unknown => Interrupt::Unknown,
    }
}

/// Decodes an exception code with `riscv::register::scause::Exception::from`,
/// which maps the codes 0 to 3, 5 to 8, 12, 13 and 15 to the eleven
/// exceptions and every other code to `Unknown`.
#[verifier::external_body]
fn exception_from(code: usize) -> (r: Exception)
    ensures
        r == exception_of(code as int),
{
    match scause::Exception::from(code) {
        scause::Exception::InstructionMisaligned => Exception::InstructionMisaligned,
        scause::Exception::InstructionFault => Exception::InstructionFault,
        scause::Exception::IllegalInstruction => Exception::IllegalInstruction,
        scause::Exception::Breakpoint => Exception::Breakpoint,
        scause::Exception::LoadFault => Exception::LoadFault,
        scause::Exception::StoreMisaligned => Exception::StoreMisaligned,
        scause::Exception::StoreFault => Exception::StoreFault,
        scause::Exception::UserEnvCall => Exception::UserEnvCall,
        scause::Exception::InstructionPageFault => Exception::InstructionPageFault,
        scause::Exception::LoadPageFault => Exception::LoadPageFault,
        scause::Exception::StorePageFault => Exception::StorePageFault,
        scause::Exception::Unknown => Exception::Unknown,
    }
}

/// Decodes a value of the cause register.
pub fn decode_cause(bits: u64) -> (r: Trap)
    ensures
        r == cause_of(bits),
{
    if bits >= 0x8000_0000_0000_0000 {
        let code: u64 = bits - 0x8000_0000_0000_0000;
        if code > usize::MAX as u64 {
            Trap::Interrupt(Interrupt::Unknown)
        } else {
            Trap::Interrupt(interrupt_from(code as usize))
        }
    } else {
        if bits > usize::MAX as u64 {
            Trap::Exception(Exception::Unknown)
        } else {
            Trap::Exception(exception_from(bits as usize))
        }
    }
}

} // verus!
