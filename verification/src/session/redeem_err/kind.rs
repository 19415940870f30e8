//! Kinds of the records of a refusal.
use vstd::prelude::*;

verus! {

/// The invite has been used.
pub const CONSUMED: u8 = 0x00;

/// The issuer of the token is not the root.
pub const NOT_ROOT: u8 = 0x01;

/// The proof of possession does not hold.
pub const BAD_POP: u8 = 0x02;

/// Another reason, in words.
pub const OTHER: u8 = 0x03;

} // verus!
