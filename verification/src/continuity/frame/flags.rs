//! Flag bits of the common frame header.
use vstd::prelude::*;

verus! {

pub const START: u16 = 0x0001;

pub const END: u16 = 0x0002;

pub const RESET: u16 = 0x0004;

pub const ACK_REQUEST: u16 = 0x0008;

pub const REPLAY: u16 = 0x0010;

pub const FIN: u16 = 0x0020;

pub const HAS_SACK: u16 = 0x0040;

/// Every defined bit; a frame with any other bit is refused.
pub const KNOWN_MASK: u16 = 0x007F;

} // verus!
