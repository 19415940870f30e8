//! Session continuity: framed streams that survive a change of connection.
use vstd::prelude::*;

pub mod arrival;
pub mod frame;
pub mod http;
pub mod manager;
pub mod model;
pub mod segments;
pub mod session;
pub mod state;
pub mod transport;

pub use frame::{Direction, Frame, FrameError, FrameType, HEADER_LEN, MAGIC, MAX_FRAME, WIRE_VERSION};
pub use model::{GapOverflow, JournalError, JournalLimits, RecvWindow, SegmentAction, StreamJournal};
pub use session::control::SessionPhase;
pub use session::handshake::SessionOptions;
pub use session::registry::SessionRegistry;
pub use session::shared::{RequestState, SessionShared};
pub use state::{ConnHandle, ConnectionPhase, ConnectionStateSnapshot, ContinuityState};
pub use transport::{StreamFramer, TransportError};

verus! {

/// ALPN of the continuity protocol, `/dweb/fabric-continuity/1`.
pub const ALPN_CONTINUITY: [u8; 25] = [
    47, 100, 119, 101, 98, 47, 102, 97, 98, 114, 105, 99, 45, 99, 111, 110, 116, 105, 110, 117,
    105, 116, 121, 47, 49,
];

} // verus!
