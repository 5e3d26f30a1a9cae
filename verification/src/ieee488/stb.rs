//! Status Byte Register (STB) bits.

use vstd::prelude::*;

verus! {

/// Error/Event Queue not empty.
pub const ERR_QUEUE: u8 = 0x04;

/// Questionable Status summary.
pub const QUESTIONABLE: u8 = 0x08;

/// Message Available (MAV).
pub const MAV: u8 = 0x10;

/// Event Status Bit (ESB).
pub const ESB: u8 = 0x20;

/// Master Summary Status / Request for Service (RQS).
pub const MSS_RQS: u8 = 0x40;

/// Operation Status summary.
pub const OPERATION: u8 = 0x80;

} // verus!
