//! Networking kernel of a fabric: canonical signed formats, the membership
//! roster, invite redemption and session continuity.
//!
//! Everything that decides or computes stands here, with its contract. Sockets,
//! files, clocks and locks belong to the embedding program, which hands plain
//! values in and takes plain values back.
use vstd::prelude::*;

pub mod clock;
pub mod continuity;
pub mod identity;
pub mod octets;
pub mod outside;
pub mod protocol;
pub mod radix;
pub mod roster;
pub mod session;
pub mod table;
pub mod text;

pub use session::{FabricError, LinkStatus, RedeemError, SessionError};

verus! {

/// The capability token of one fixed input: the key of 32 bytes 1 signs for the fabric of 32
/// bytes 3, the server of 32 bytes 2 and the key of 32 bytes 4, with all capabilities, from
/// 1800000000000 to 1800003600000. Servers anchor the same text.
pub const CROSS_CRATE_CAP_VECTOR: &'static str = "dwebr1.AQMDAwMDAwMDAwMDAwMDAwMDAwMDAwMDAwMDAwMDAwMDAgICAgICAgICAgICAgICAgICAgICAgICAgICAgICAgKKiOPddAnxlf1S2y08ul1yymcJvx2UEhvzdIgBtA9vXMqTrBcFGHBx1nuDx_8O_oEI6OxFMFdddyaHkzPb2r58BwAAAaMYXFAAAAABoxiTPoDKl8Nfr0zIfv5h5qDsMVtPs9G5afdFkgIsPxzjf50TA8kUtCXBkblcrYsEAzRO7TUzDx5Mm2kAOM7aVZ6FaV8J";

} // verus!
