//! The system control block: which fault handlers are on, and the
//! priorities of the traps.

use vstd::prelude::*;

verus! {

/// Address of the system handler control and state register.
pub const SHCSR_ADDR: u32 = 0xE000_ED24;

/// Address of the system handler priority register of the system call.
pub const SHPR2_ADDR: u32 = 0xE000_ED1C;

/// Address of the system handler priority register of the context switch
/// and the timer.
pub const SHPR3_ADDR: u32 = 0xE000_ED20;

/// Address of the vector table offset register.
pub const VTOR_ADDR: u32 = 0xE000_ED08;

/// The bits that switch the usage, bus and memory management fault
/// handlers on.
pub const FAULT_HANDLERS_ON: u32 = 0x0007_0000;

/// Priority of the system-call trap: below the faults, above the context
/// switch.
pub const SVCALL_PRIORITY: u32 = 2;

/// The control value that switches the three fault handlers on:
/// `shcsr_value` with their enable bits.
pub fn enable_system_handler_fault(shcsr_value: u32) -> (shcsr: u32)
    ensures
        shcsr == shcsr_value | 0x0007_0000,
{
    shcsr_value | FAULT_HANDLERS_ON
}

/// The priority values of the traps: `shpr2_value` with the field of the
/// system call, its highest byte, set to 2, and `shpr3_value` with the
/// fields of the context switch and the timer, its two highest bytes, set
/// to 0.
pub fn setup_priority_handler(shpr2_value: u32, shpr3_value: u32) -> (values: (u32, u32))
    ensures
        values.0 == (shpr2_value & 0x00FF_FFFF) | 0x0200_0000,
        values.1 == shpr3_value & 0x0000_FFFF,
{
    let shpr3: u32 = (shpr3_value & 0xFF00_FFFF) & 0x00FF_FFFF;
    assert(shpr3 == shpr3_value & 0x0000_FFFF) by (bit_vector)
        requires
            shpr3 == (shpr3_value & 0xFF00_FFFF) & 0x00FF_FFFF,
    ;
    let shpr2: u32 = (shpr2_value & 0x00FF_FFFF) | (SVCALL_PRIORITY << 24);
    assert(shpr2 == (shpr2_value & 0x00FF_FFFF) | 0x0200_0000) by (bit_vector)
        requires
            shpr2 == (shpr2_value & 0x00FF_FFFF) | (2u32 << 24),
    ;
    (shpr2, shpr3)
}

} // verus!
