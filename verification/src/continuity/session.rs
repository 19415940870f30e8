//! Sessions: streams multiplexed over one connection at a time, with credentials
//! that let a session resume on the next connection.
pub mod agreement;
pub mod conduct;
pub mod control;
pub mod delivery;
pub mod frames;
pub mod handshake;
pub mod init_reason;
pub mod registry;
pub mod reject_reason;
pub mod shared;
pub mod streams;
pub mod wire;
