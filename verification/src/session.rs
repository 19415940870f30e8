//! Session layer: frames of the control stream, the greeting of two members, redemption of
//! invites over its own channel, and the errors that the layers above report.
use vstd::prelude::*;
use vstd::string::*;

use crate::octets::{be32, be_value, lemma_be_widths, push_be, push_bytes, read_be32};
use crate::protocol::signed::{list_of, signed_views, SignedFact, SignedView};
use crate::protocol::{fault_text, Fault, ProtocolError};
use crate::roster::error::{roster_fault_text, RosterError, RosterFault};
use crate::text::{cat, cat3, decimal, decimal_text, hex_number, hex_number_text};

pub mod addressing;
pub mod conduct;
pub mod frame_type;
pub mod issuer;
pub mod joiner;
pub mod ok2;
pub mod redeem_err;
pub mod redemption;

pub use addressing::{endpoint_addr_from_invite, endpoint_addr_from_invite_v2, EndpointAddr};
pub use issuer::redeem_verify_emit;
pub use joiner::{RedeemError, RedeemReceiptV2};
pub use ok2::{
    encode_ok2_cap_segment, parse_ok2_caps, Ok2Caps, RedeemCapMinter, OK2_CAP_ITEM_MAX,
    OK2_ITEM_BYTES_MAX,
};

verus! {

/// Protocol of connections between members, `/dweb/fabric/1`.
pub const ALPN_REGULAR: [u8; 14] = [47, 100, 119, 101, 98, 47, 102, 97, 98, 114, 105, 99, 47, 49];

/// Protocol of redemptions, `/dweb/fabric-redeem/1`.
pub const ALPN_REDEEM: [u8; 21] = [
    47,
    100,
    119,
    101,
    98,
    47,
    102,
    97,
    98,
    114,
    105,
    99,
    45,
    114,
    101,
    100,
    101,
    101,
    109,
    47,
    49,
];

/// Bytes of a frame between members, with its header.
pub const MAX_FRAME: usize = 1_048_576;

/// Bytes of a frame of a redemption, with its header.
pub const MAX_REDEEM_FRAME: usize = 32_768;

/// Milliseconds that a redemption may take.
pub const REDEEM_DEADLINE_MS: u64 = 5_000;

/// Facts of a greeting.
pub const MAX_HELLO_FACTS: usize = 10_000;

/// Why a session operation failed.
#[derive(Debug)]
pub enum SessionError {
    /// A frame or a fact list exceeds its limit.
    FrameTooLarge { limit: usize },
    Io(String),
    Protocol(ProtocolError),
    Roster(RosterError),
    NotMember(String),
    NotConnected(String),
    NoAddressingInfo(String),
    RedeemRejected(String),
    Connect(String),
    Identity(String),
    Connection(String),
    StreamClosed,
}

/// What a [`SessionError`] says.
pub enum SessionFault {
    FrameTooLarge { limit: usize },
    Io(Seq<char>),
    Protocol(Fault),
    Roster(RosterFault),
    NotMember(Seq<char>),
    NotConnected(Seq<char>),
    NoAddressingInfo(Seq<char>),
    RedeemRejected(Seq<char>),
    Connect(Seq<char>),
    Identity(Seq<char>),
    Connection(Seq<char>),
    StreamClosed,
}

impl View for SessionError {
    type V = SessionFault;

    open spec fn view(&self) -> SessionFault {
        match self {
            SessionError::FrameTooLarge { limit } => SessionFault::FrameTooLarge { limit: *limit },
            SessionError::Io(t) => SessionFault::Io(t@),
            SessionError::Protocol(e) => SessionFault::Protocol(e@),
            SessionError::Roster(e) => SessionFault::Roster(e@),
            SessionError::NotMember(t) => SessionFault::NotMember(t@),
            SessionError::NotConnected(t) => SessionFault::NotConnected(t@),
            SessionError::NoAddressingInfo(t) => SessionFault::NoAddressingInfo(t@),
            SessionError::RedeemRejected(t) => SessionFault::RedeemRejected(t@),
            SessionError::Connect(t) => SessionFault::Connect(t@),
            SessionError::Identity(t) => SessionFault::Identity(t@),
            SessionError::Connection(t) => SessionFault::Connection(t@),
            SessionError::StreamClosed => SessionFault::StreamClosed,
        }
    }
}

/// An error as text.
pub open spec fn session_fault_text(e: SessionFault) -> Seq<char> {
    match e {
        SessionFault::FrameTooLarge { limit } => "frame exceeds limit "@ + decimal(limit as nat)
            + "B"@,
        SessionFault::Io(t) => "io error: "@ + t,
        SessionFault::Protocol(f) => "protocol: "@ + fault_text(f),
        SessionFault::Roster(f) => "roster: "@ + roster_fault_text(f),
        SessionFault::NotMember(t) => "peer "@ + t + " is not a member"@,
        SessionFault::NotConnected(t) => "peer "@ + t + " not connected"@,
        SessionFault::NoAddressingInfo(t) => "no addressing information for "@ + t
            + " (need relay or direct addr)"@,
        SessionFault::RedeemRejected(t) => "redeem rejected: "@ + t,
        SessionFault::Connect(t) => "connect: "@ + t,
        SessionFault::Identity(t) => "identity: "@ + t,
        SessionFault::Connection(t) => "connection: "@ + t,
        SessionFault::StreamClosed => "stream closed"@,
    }
}

impl SessionError {
    /// The error as text.
    pub fn message(&self) -> (r: String)
        ensures
            r@ == session_fault_text(self@),
    {
        match self {
            SessionError::FrameTooLarge { limit } => cat3(
                "frame exceeds limit ",
                decimal_text(*limit as u64).as_str(),
                "B",
            ),
            SessionError::Io(t) => cat("io error: ", t.as_str()),
            SessionError::Protocol(e) => cat("protocol: ", e.message().as_str()),
            SessionError::Roster(e) => cat("roster: ", e.message().as_str()),
            SessionError::NotMember(t) => cat3("peer ", t.as_str(), " is not a member"),
            SessionError::NotConnected(t) => cat3("peer ", t.as_str(), " not connected"),
            SessionError::NoAddressingInfo(t) => cat3(
                "no addressing information for ",
                t.as_str(),
                " (need relay or direct addr)",
            ),
            SessionError::RedeemRejected(t) => cat("redeem rejected: ", t.as_str()),
            SessionError::Connect(t) => cat("connect: ", t.as_str()),
            SessionError::Identity(t) => cat("identity: ", t.as_str()),
            SessionError::Connection(t) => cat("connection: ", t.as_str()),
            SessionError::StreamClosed => "stream closed".to_owned(),
        }
    }
}

/// Why an operation of a fabric failed.
#[derive(Debug)]
pub enum FabricError {
    Session(SessionError),
}

impl FabricError {
    /// The error as text.
    pub fn message(&self) -> (r: String)
        ensures
            match self {
                FabricError::Session(e) => r@ == session_fault_text(e@),
            },
    {
        match self {
            FabricError::Session(e) => e.message(),
        }
    }
}

/// The error says that a connection failed, with the given text.
pub open spec fn connect_error(e: FabricError, text: Seq<char>) -> bool {
    match e {
        FabricError::Session(SessionError::Connect(m)) => m@ == text,
        _ => false,
    }
}

/// A failed connection with a text.
pub fn connect_err(text: String) -> (r: FabricError)
    ensures
        connect_error(r, text@),
{
    FabricError::Session(SessionError::Connect(text))
}

// ---- frames -----------------------------------------------------------------------

/// A frame: the length of type and payload in four bytes, the type, the payload. The length
/// is its low 32 bits.
pub open spec fn control_frame(frame_type: u8, payload: Seq<u8>) -> Seq<u8> {
    be32(((1 + payload.len()) % 0x1_0000_0000) as u32) + seq![frame_type] + payload
}

/// A frame as it is sent.
pub fn write_frame(frame_type: u8, payload: &[u8]) -> (r: Vec<u8>)
    requires
        payload@.len() < usize::MAX,
    ensures
        r@ == control_frame(frame_type, payload@),
{
    let n: u64 = (1 + payload.len()) as u64;
    let mut buf: Vec<u8> = Vec::new();
    push_be(&mut buf, n % 0x1_0000_0000, 4);
    buf.push(frame_type);
    push_bytes(&mut buf, payload);
    assert(buf@ =~= control_frame(frame_type, payload@));
    buf
}

/// The length of the payload behind the header of a frame, if the frame is within the limit.
pub open spec fn payload_len(head: Seq<u8>, limit: usize) -> Option<nat> {
    let n = be_value(head.subrange(0, 4));
    if n == 0 || 4 + n > limit {
        None
    } else {
        Some((n - 1) as nat)
    }
}

/// Reads the header of a frame: its type and the length of its payload. A frame that is
/// larger than the limit is refused before anything is set aside for it.
pub fn read_frame(head: &[u8; 5], limit: usize) -> (r: Result<(u8, usize), SessionError>)
    ensures
        match payload_len(head@, limit) {
            Some(n) => r is Ok && (r->Ok_0).0 == head@[4] && (r->Ok_0).1 == n,
            None => r is Err && r->Err_0@ == (SessionFault::FrameTooLarge { limit }),
        },
{
    let n: u32 = read_be32(head, 0);
    if n == 0 || 4 + n as u64 > limit as u64 {
        return Err(SessionError::FrameTooLarge { limit });
    }
    Ok((head[4], (n - 1) as usize))
}

/// A frame that was sent is read back where the limit admits it, and refused elsewhere. A
/// frame of exactly the limit is admitted.
pub proof fn frames_are_read_back(frame_type: u8, payload: Seq<u8>, limit: usize)
    requires
        1 + payload.len() <= u32::MAX,
    ensures
        ({
            let b = control_frame(frame_type, payload);
            let head = b.subrange(0, 5);
            &&& b.len() == 5 + payload.len()
            &&& head[4] == frame_type
            &&& payload_len(head, limit) == if b.len() <= limit {
                Some(payload.len())
            } else {
                None::<nat>
            }
            &&& b.subrange(5, b.len() as int) == payload
        }),
{
    let b = control_frame(frame_type, payload);
    let n = (1 + payload.len()) as u64;
    lemma_be_widths(n);
    assert(b.subrange(0, 5).subrange(0, 4) =~= be32(n as u32));
    assert(b.subrange(5, b.len() as int) =~= payload);
}

// ---- greeting ---------------------------------------------------------------------

/// The facts of a greeting, or why it is refused.
pub open spec fn greeted(frame_type: u8, payload: Seq<u8>) -> Result<Seq<SignedView>, SessionFault> {
    if frame_type != frame_type::HELLO {
        Err(
            SessionFault::RedeemRejected(
                "expect HELLO, got 0x"@ + hex_number(frame_type as nat),
            ),
        )
    } else {
        match list_of(payload) {
            Err(e) => Err(SessionFault::Protocol(e)),
            Ok(s) => if s.len() > MAX_HELLO_FACTS {
                Err(SessionFault::FrameTooLarge { limit: MAX_HELLO_FACTS })
            } else {
                Ok(s)
            },
        }
    }
}

/// Reads the greeting of a peer: its facts.
pub fn read_hello(frame_type: u8, payload: &[u8]) -> (r: Result<Vec<SignedFact>, SessionError>)
    ensures
        match greeted(frame_type, payload@) {
            Ok(s) => r is Ok && signed_views(r->Ok_0@) == s,
            Err(e) => r is Err && r->Err_0@ == e,
        },
{
    if frame_type != frame_type::HELLO {
        return Err(
            SessionError::RedeemRejected(
                cat("expect HELLO, got 0x", hex_number_text(frame_type as u64).as_str()),
            ),
        );
    }
    let facts = match SignedFact::decode_all(payload) {
        Ok(f) => f,
        Err(e) => return Err(SessionError::Protocol(e)),
    };
    if facts.len() > MAX_HELLO_FACTS {
        return Err(SessionError::FrameTooLarge { limit: MAX_HELLO_FACTS });
    }
    Ok(facts)
}

// ---- paths ------------------------------------------------------------------------

/// The kind of path that carries a connection.
#[derive(Debug, Clone, Copy, PartialEq, Eq, Structural)]
pub enum LinkStatus {
    Direct,
    Relay,
    Unknown,
}

/// The kind of address at the far end of a path.
#[derive(Debug, Clone, Copy, PartialEq, Eq, Structural)]
pub enum PathKind {
    Ip,
    Relay,
    Other,
}

pub open spec fn link_of(path: Option<PathKind>) -> LinkStatus {
    match path {
        Some(PathKind::Ip) => LinkStatus::Direct,
        Some(PathKind::Relay) => LinkStatus::Relay,
        _ => LinkStatus::Unknown,
    }
}

/// The kind of path that carries a connection, from the path that is selected.
pub fn link_status(path: Option<PathKind>) -> (r: LinkStatus)
    ensures
        r == link_of(path),
{
    match path {
        Some(PathKind::Ip) => LinkStatus::Direct,
        Some(PathKind::Relay) => LinkStatus::Relay,
        _ => LinkStatus::Unknown,
    }
}

/// What to do on an event of a path.
#[derive(Debug, Clone, Copy, PartialEq, Eq, Structural)]
pub enum PathStep {
    /// The fabric shuts down: stop watching.
    Stop,
    /// Nothing.
    Ignore,
    /// Note the status, and tell of it if it changed.
    Note { status: LinkStatus, changed: bool },
}

/// Decides on an event of a path: `selected` says that a path was selected, `path` is the one
/// that is, `last` is the status that was told last.
pub fn on_path_event(
    shutting_down: bool,
    selected: bool,
    path: Option<PathKind>,
    last: Option<LinkStatus>,
) -> (r: PathStep)
    ensures
        r == if shutting_down {
            PathStep::Stop
        } else if !selected {
            PathStep::Ignore
        } else {
            PathStep::Note { status: link_of(path), changed: last != Some(link_of(path)) }
        },
{
    if shutting_down {
        return PathStep::Stop;
    }
    if !selected {
        return PathStep::Ignore;
    }
    let status = link_status(path);
    let changed = match last {
        Some(l) => l != status,
        None => true,
    };
    PathStep::Note { status, changed }
}

} // verus!
