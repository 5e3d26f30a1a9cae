//! Event Status Register (ESR) bits.

use vstd::prelude::*;

verus! {

/// Operation Complete.
pub const OPC: u8 = 0x01;

/// Request Control.
pub const RQC: u8 = 0x02;

/// Query Error.
pub const QYE: u8 = 0x04;

/// Device Dependent Error.
pub const DDE: u8 = 0x08;

/// Execution Error.
pub const EXE: u8 = 0x10;

/// Command Error.
pub const CME: u8 = 0x20;

/// User Request.
pub const URQ: u8 = 0x40;

/// Power On.
pub const PON: u8 = 0x80;

} // verus!
