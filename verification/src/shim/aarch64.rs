//! Hardware exceptions of aarch64.
use crate::shim::FrameBacktrace;
use vstd::prelude::*;

verus! {

/// Information about a hardware exception on aarch64.
#[derive(Clone, Copy, Debug)]
pub struct ExceptionInfo {
    /// The exception class from ESR_EL1\[31:26\].
    pub exception: Exception,
    /// The fault address (FAR_EL1).
    pub fault_address: usize,
    /// The exception syndrome register value (ESR_EL1).
    pub esr: u64,
    /// Whether the exception occurred in kernel mode.
    pub kernel_mode: bool,
    /// The return-address chain captured at the fault, if the platform can provide one. Purely
    /// diagnostic.
    pub backtrace: FrameBacktrace,
}

/// An aarch64 exception class from ESR_EL1\[31:26\].
#[derive(Clone, Copy, Debug, PartialEq, Eq, Structural)]
pub struct Exception(pub u8);

impl Exception {
    /// Unknown reason, the class an undefined instruction raises among others.
    pub const UNKNOWN: u8 = 0x00;

    /// Trapped system-register or system-instruction access.
    pub const SYSTEM_REGISTER_TRAP: u8 = 0x18;

    /// Instruction abort taken from a lower exception level.
    pub const INSTRUCTION_ABORT_LOWER_EL: u8 = 0x20;

    /// Instruction abort taken without a change in exception level.
    pub const INSTRUCTION_ABORT_CURRENT_EL: u8 = 0x21;

    /// Data abort taken from a lower exception level.
    pub const DATA_ABORT_LOWER_EL: u8 = 0x24;

    /// Data abort taken without a change in exception level.
    pub const DATA_ABORT_CURRENT_EL: u8 = 0x25;

    /// Trapped floating-point exception.
    pub const FP_EXCEPTION_A64: u8 = 0x2c;

    /// Breakpoint exception from a lower exception level.
    pub const BREAKPOINT_LOWER_EL: u8 = 0x30;

    /// Breakpoint exception taken without a change in exception level.
    pub const BREAKPOINT_CURRENT_EL: u8 = 0x31;

    /// BRK instruction trap.
    pub const BRK64: u8 = 0x3c;
}

} // verus!
