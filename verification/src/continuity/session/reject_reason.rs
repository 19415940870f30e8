//! Reasons of a refused resume. They share no number space with those of a refused
//! session.
use vstd::prelude::*;

verus! {

pub const UNKNOWN_SESSION: u8 = 0x01;

pub const TOKEN_INVALID: u8 = 0x02;

pub const RECOVERY_WINDOW_EXPIRED: u8 = 0x03;

pub const STALE_EPOCH: u8 = 0x04;

pub const JOURNAL_EVICTED: u8 = 0x05;

pub const POLICY_DENIED: u8 = 0x06;

pub const VERSION_UNSUPPORTED: u8 = 0x07;

pub const REQUEST_STATE_LOST: u8 = 0x08;

pub const TOKEN_REVOKED: u8 = 0x09;

} // verus!
