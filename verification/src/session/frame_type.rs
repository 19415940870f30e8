//! Types of the frames of a control stream.
use vstd::prelude::*;

verus! {

pub const HELLO: u8 = 0x01;

pub const MSG: u8 = 0x03;

pub const REDEEM_INTENT: u8 = 0x10;

pub const REDEEM_CHALLENGE: u8 = 0x11;

pub const REDEEM_PROOF: u8 = 0x12;

pub const REDEEM_OK: u8 = 0x13;

pub const REDEEM_ERR: u8 = 0x14;

/// The receipt of a token of the second version: the facts, then capabilities.
pub const REDEEM_OK2: u8 = 0x15;

} // verus!
