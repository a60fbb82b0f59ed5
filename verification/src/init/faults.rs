//! What the fault status registers say. The fault handlers read the
//! registers, ask here, log the answer and stop.

use vstd::prelude::*;

verus! {

/// Address of the hard fault status register.
pub const HFSR_ADDR: u32 = 0xE000_ED2C;

/// Address of the configurable fault status register.
pub const CFSR_ADDR: u32 = 0xE000_ED28;

/// Address of the bus fault address register.
pub const BFAR_ADDR: u32 = 0xE000_ED38;

/// Address of the memory management fault address register.
pub const MMFAR_ADDR: u32 = 0xE000_ED34;

/// The bits of the usage fault status that name a cause.
pub const UFSR_MASK: u32 = 0b11_0000_1111;

/// The bits of the bus fault status that say something.
pub const BFSR_MASK: u32 = 0b1011_1111;

/// The bits of the memory management fault status that say something.
pub const MMFSR_MASK: u32 = 0b1011_1011;

/// Whether bit `n` of `value` is set.
pub open spec fn bit_spec(value: u32, n: u32) -> bool {
    (value >> n) & 1 == 1
}

/// Whether bit `n` of `value` is set.
pub fn bit(value: u32, n: u32) -> (set: bool)
    requires
        n < 32,
    ensures
        set == bit_spec(value, n),
{
    (value >> n) & 1 == 1
}

/// The usage fault status: the upper half of the configurable fault status.
pub open spec fn ufsr_spec(cfsr: u32) -> u32 {
    cfsr >> 16
}

/// The bus fault status: the second byte of the configurable fault status.
pub open spec fn bfsr_spec(cfsr: u32) -> u32 {
    (cfsr & 0xffff) >> 8
}

/// The memory management fault status: the lowest byte of the configurable
/// fault status.
pub open spec fn mmfsr_spec(cfsr: u32) -> u32 {
    cfsr & 0xff
}

/// What the hard fault status register says.
#[derive(Clone, Copy, Debug, PartialEq, Eq, Structural)]
pub struct HardFault {
    /// Bit 31: the debugger is in use.
    pub debug_vt: bool,
    /// Bit 30: another fault was escalated; the other status registers
    /// name it.
    pub forced: bool,
    /// Bit 1: the vector table could not be read.
    pub vecttbl: bool,
}

/// Reads the hard fault status `hfsr`.
pub fn hard_fault(hfsr: u32) -> (report: HardFault)
    ensures
        report == (HardFault {
            debug_vt: bit_spec(hfsr, 31),
            forced: bit_spec(hfsr, 30),
            vecttbl: bit_spec(hfsr, 1),
        }),
{
    HardFault { debug_vt: bit(hfsr, 31), forced: bit(hfsr, 30), vecttbl: bit(hfsr, 1) }
}

/// The kind of an escalated fault.
#[derive(Clone, Copy, Debug, PartialEq, Eq, Structural)]
pub enum FaultClass {
    Usage,
    Bus,
    MemoryManagement,
}

/// The kind that the configurable fault status `cfsr` names: a usage fault
/// before a bus fault before a memory management fault.
pub open spec fn fault_class_spec(cfsr: u32) -> Option<FaultClass> {
    if ufsr_spec(cfsr) & 0b11_0000_1111 != 0 {
        Some(FaultClass::Usage)
    } else if bfsr_spec(cfsr) & 0b1011_1111 != 0 {
        Some(FaultClass::Bus)
    } else if mmfsr_spec(cfsr) & 0b1011_1011 != 0 {
        Some(FaultClass::MemoryManagement)
    } else {
        None
    }
}

/// The kind of the fault that was escalated to a hard fault.
pub fn fault_class(cfsr: u32) -> (class: Option<FaultClass>)
    ensures
        class == fault_class_spec(cfsr),
{
    let ufsr: u32 = cfsr >> 16;
    let bfsr: u32 = (cfsr & 0xffff) >> 8;
    let mmfsr: u32 = cfsr & 0xff;
    if (ufsr & UFSR_MASK) != 0 {
        Some(FaultClass::Usage)
    } else if (bfsr & BFSR_MASK) != 0 {
        Some(FaultClass::Bus)
    } else if (mmfsr & MMFSR_MASK) != 0 {
        Some(FaultClass::MemoryManagement)
    } else {
        None
    }
}

/// Why a fault was raised.
#[derive(Clone, Copy, Debug, PartialEq, Eq, Structural)]
pub enum FaultCause {
    DivideByZero,
    UnalignedAccess,
    NoCoprocessor,
    InvalidPcLoad,
    InvalidState,
    UndefinedInstruction,
    BusLazyStatePreservation,
    BusStacking,
    BusUnstacking,
    ImpreciseDataBus,
    PreciseDataBus,
    InstructionBus,
    MemLazyStatePreservation,
    MemStacking,
    MemUnstacking,
    DataAccessViolation,
    InstructionAccessViolation,
}

impl FaultCause {
    /// The line that the log gets for the cause.
    pub fn message(self) -> (text: &'static str)
        ensures
            text == self.message_spec(),
    {
        match self {
            FaultCause::DivideByZero => "Divide by zero usage fault.",
            FaultCause::UnalignedAccess => "Unaligned access usage fault.",
            FaultCause::NoCoprocessor => "No coprocessor usage fault.",
            FaultCause::InvalidPcLoad => "Invalid PC load usage fault, caused by an invalid PC load by EXC_RETURN.",
            FaultCause::InvalidState => "Invalid state usage fault.",
            FaultCause::UndefinedInstruction => "Undefined instruction usage fault.",
            FaultCause::BusLazyStatePreservation => "Bus fault on floating-point lazy state preservation.",
            FaultCause::BusStacking => "Bus fault on stacking for exception entry.",
            FaultCause::BusUnstacking => "Bus fault on unstacking for a return from exception.",
            FaultCause::ImpreciseDataBus => "Imprecise data bus error.",
            FaultCause::PreciseDataBus => "Precise data bus error.",
            FaultCause::InstructionBus => "Instruction bus error.",
            FaultCause::MemLazyStatePreservation => "MemManage fault occurred during floating-point lazy state preservation.",
            FaultCause::MemStacking => "Memory manager fault on stacking for exception entry.",
            FaultCause::MemUnstacking => "Memory manager fault on unstacking for a return from exception.",
            FaultCause::DataAccessViolation => "Data access violation flag.",
            FaultCause::InstructionAccessViolation => "Instruction access violation flag.",
        }
    }

    /// The line that the log gets for the cause.
    pub open spec fn message_spec(self) -> &'static str {
        match self {
            FaultCause::DivideByZero => "Divide by zero usage fault.",
            FaultCause::UnalignedAccess => "Unaligned access usage fault.",
            FaultCause::NoCoprocessor => "No coprocessor usage fault.",
            FaultCause::InvalidPcLoad => "Invalid PC load usage fault, caused by an invalid PC load by EXC_RETURN.",
            FaultCause::InvalidState => "Invalid state usage fault.",
            FaultCause::UndefinedInstruction => "Undefined instruction usage fault.",
            FaultCause::BusLazyStatePreservation => "Bus fault on floating-point lazy state preservation.",
            FaultCause::BusStacking => "Bus fault on stacking for exception entry.",
            FaultCause::BusUnstacking => "Bus fault on unstacking for a return from exception.",
            FaultCause::ImpreciseDataBus => "Imprecise data bus error.",
            FaultCause::PreciseDataBus => "Precise data bus error.",
            FaultCause::InstructionBus => "Instruction bus error.",
            FaultCause::MemLazyStatePreservation => "MemManage fault occurred during floating-point lazy state preservation.",
            FaultCause::MemStacking => "Memory manager fault on stacking for exception entry.",
            FaultCause::MemUnstacking => "Memory manager fault on unstacking for a return from exception.",
            FaultCause::DataAccessViolation => "Data access violation flag.",
            FaultCause::InstructionAccessViolation => "Instruction access violation flag.",
        }
    }
}

/// What a fault status says.
#[derive(Clone, Copy, Debug, PartialEq, Eq, Structural)]
pub struct FaultReport {
    /// Whether the status names a fault of the handler's kind.
    pub raised: bool,
    /// The cause, where a status bit names one: of several the one of the
    /// highest bit.
    pub cause: Option<FaultCause>,
    /// Whether the fault address register holds the address of the fault.
    pub address_valid: bool,
}

/// The cause that the usage fault bits of `cfsr` name.
pub open spec fn usage_cause_spec(cfsr: u32) -> Option<FaultCause> {
    if bit_spec(cfsr, 25) {
        Some(FaultCause::DivideByZero)
    } else if bit_spec(cfsr, 24) {
        Some(FaultCause::UnalignedAccess)
    } else if bit_spec(cfsr, 19) {
        Some(FaultCause::NoCoprocessor)
    } else if bit_spec(cfsr, 18) {
        Some(FaultCause::InvalidPcLoad)
    } else if bit_spec(cfsr, 17) {
        Some(FaultCause::InvalidState)
    } else if bit_spec(cfsr, 16) {
        Some(FaultCause::UndefinedInstruction)
    } else {
        None
    }
}

/// The cause that the bus fault bits of `cfsr` name.
pub open spec fn bus_cause_spec(cfsr: u32) -> Option<FaultCause> {
    if bit_spec(cfsr, 13) {
        Some(FaultCause::BusLazyStatePreservation)
    } else if bit_spec(cfsr, 12) {
        Some(FaultCause::BusStacking)
    } else if bit_spec(cfsr, 11) {
        Some(FaultCause::BusUnstacking)
    } else if bit_spec(cfsr, 10) {
        Some(FaultCause::ImpreciseDataBus)
    } else if bit_spec(cfsr, 9) {
        Some(FaultCause::PreciseDataBus)
    } else if bit_spec(cfsr, 8) {
        Some(FaultCause::InstructionBus)
    } else {
        None
    }
}

/// The cause that the memory management fault bits of `cfsr` name.
pub open spec fn mem_cause_spec(cfsr: u32) -> Option<FaultCause> {
    if bit_spec(cfsr, 5) {
        Some(FaultCause::MemLazyStatePreservation)
    } else if bit_spec(cfsr, 4) {
        Some(FaultCause::MemStacking)
    } else if bit_spec(cfsr, 3) {
        Some(FaultCause::MemUnstacking)
    } else if bit_spec(cfsr, 1) {
        Some(FaultCause::DataAccessViolation)
    } else if bit_spec(cfsr, 0) {
        Some(FaultCause::InstructionAccessViolation)
    } else {
        None
    }
}

/// Reads the usage fault part of the configurable fault status `cfsr`. A
/// usage fault always has a cause, and never a fault address.
pub fn usage_fault(cfsr: u32) -> (report: FaultReport)
    ensures
        report.raised == (ufsr_spec(cfsr) & 0b11_0000_1111 != 0),
        report.raised ==> report.cause == usage_cause_spec(cfsr) && report.cause.is_some(),
        !report.raised ==> report.cause.is_none(),
        !report.address_valid,
{
    let ufsr: u32 = cfsr >> 16;
    if (ufsr & UFSR_MASK) != 0 {
        assert(bit_spec(cfsr, 25) || bit_spec(cfsr, 24) || bit_spec(cfsr, 19) || bit_spec(cfsr, 18)
            || bit_spec(cfsr, 17) || bit_spec(cfsr, 16)) by (bit_vector)
            requires
                ((cfsr >> 16) & 0b11_0000_1111u32) != 0,
        ;
        let cause = if bit(cfsr, 25) {
            Some(FaultCause::DivideByZero)
        } else if bit(cfsr, 24) {
            Some(FaultCause::UnalignedAccess)
        } else if bit(cfsr, 19) {
            Some(FaultCause::NoCoprocessor)
        } else if bit(cfsr, 18) {
            Some(FaultCause::InvalidPcLoad)
        } else if bit(cfsr, 17) {
            Some(FaultCause::InvalidState)
        } else if bit(cfsr, 16) {
            Some(FaultCause::UndefinedInstruction)
        } else {
            None
        };
        FaultReport { raised: true, cause, address_valid: false }
    } else {
        FaultReport { raised: false, cause: None, address_valid: false }
    }
}

/// Reads the bus fault part of the configurable fault status `cfsr`. The
/// fault address is valid where bit 15 says so, whether or not a fault is
/// named.
pub fn bus_fault(cfsr: u32) -> (report: FaultReport)
    ensures
        report.raised == (bfsr_spec(cfsr) & 0b1011_1111 != 0),
        report.cause == (if report.raised {
            bus_cause_spec(cfsr)
        } else {
            None
        }),
        report.address_valid == bit_spec(cfsr, 15),
{
    let bfsr: u32 = (cfsr & 0xffff) >> 8;
    let cause = if (bfsr & BFSR_MASK) != 0 {
        if bit(cfsr, 13) {
            Some(FaultCause::BusLazyStatePreservation)
        } else if bit(cfsr, 12) {
            Some(FaultCause::BusStacking)
        } else if bit(cfsr, 11) {
            Some(FaultCause::BusUnstacking)
        } else if bit(cfsr, 10) {
            Some(FaultCause::ImpreciseDataBus)
        } else if bit(cfsr, 9) {
            Some(FaultCause::PreciseDataBus)
        } else if bit(cfsr, 8) {
            Some(FaultCause::InstructionBus)
        } else {
            None
        }
    } else {
        None
    };
    FaultReport { raised: (bfsr & BFSR_MASK) != 0, cause, address_valid: bit(cfsr, 15) }
}

/// Reads the memory management fault part of the configurable fault status
/// `cfsr`. The fault address is valid where bit 7 says so, whether or not a
/// fault is named.
pub fn memory_management_fault(cfsr: u32) -> (report: FaultReport)
    ensures
        report.raised == (mmfsr_spec(cfsr) & 0b1011_1011 != 0),
        report.cause == (if report.raised {
            mem_cause_spec(cfsr)
        } else {
            None
        }),
        report.address_valid == bit_spec(cfsr, 7),
{
    let mmfsr: u32 = cfsr & 0xff;
    let cause = if (mmfsr & MMFSR_MASK) != 0 {
        if bit(cfsr, 5) {
            Some(FaultCause::MemLazyStatePreservation)
        } else if bit(cfsr, 4) {
            Some(FaultCause::MemStacking)
        } else if bit(cfsr, 3) {
            Some(FaultCause::MemUnstacking)
        } else if bit(cfsr, 1) {
            Some(FaultCause::DataAccessViolation)
        } else if bit(cfsr, 0) {
            Some(FaultCause::InstructionAccessViolation)
        } else {
            None
        }
    } else {
        None
    };
    FaultReport { raised: (mmfsr & MMFSR_MASK) != 0, cause, address_valid: bit(cfsr, 7) }
}

} // verus!
