//! Reasons of a refused session.
use vstd::prelude::*;

verus! {

/// The peer already has a canonical session.
pub const ALREADY_ACTIVE: u8 = 0x01;

/// The payload or its identity fields are not acceptable.
pub const MALFORMED: u8 = 0x02;

/// The session belongs to another peer.
pub const POLICY_DENIED: u8 = 0x03;

} // verus!
