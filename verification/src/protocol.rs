//! Canonical formats: membership facts, invite tokens, relay capabilities and the
//! material that proves possession of a key.
//!
//! Everything that is signed is a domain prefix followed by fields of explicit length, so
//! that one content has one byte string. Integers are big-endian.
use vstd::prelude::*;

pub mod fact;
pub mod invite;
pub mod invite2;
pub mod relay_cap;
pub mod signed;

pub use fact::{random_bytes, FabricId, Fact, FactId, FactKind};
pub use invite::{redeem_challenge_bytes, InviteToken, InviteV1};
pub use invite2::{DirectAddr, InviteRelayV2, InviteV2, InviteV2Token, InviteVersion};
pub use relay_cap::{RelayCapV1, RELAY_CAP_TOKEN_LEN};
pub use signed::{genesis, SignedFact};

verus! {

/// Domain prefix of canonical facts, `dweb/fact/v1` and a NUL.
pub const FACT_DOMAIN: [u8; 13] = [100, 119, 101, 98, 47, 102, 97, 99, 116, 47, 118, 49, 0];

/// Domain prefix of canonical invites, `dweb/invite/v1` and a NUL.
pub const INVITE_DOMAIN: [u8; 15] = [100, 119, 101, 98, 47, 105, 110, 118, 105, 116, 101, 47, 118, 49, 0];

/// Domain prefix of proofs of possession, `dweb/redeem-pop/v1` and a NUL.
pub const POP_DOMAIN: [u8; 19] = [100, 119, 101, 98, 47, 114, 101, 100, 101, 101, 109, 45, 112, 111, 112, 47, 118, 49, 0];

/// Domain prefix of canonical invites of the second version, `dweb/invite/v2` and a NUL.
pub const INVITE2_DOMAIN: [u8; 15] = [100, 119, 101, 98, 47, 105, 110, 118, 105, 116, 101, 47, 118, 50, 0];

/// Domain prefix of relay capabilities, `dweb/relay-cap/v1` and a NUL. It is signed but
/// not sent.
pub const RELAY_CAP_DOMAIN: [u8; 18] = [100, 119, 101, 98, 47, 114, 101, 108, 97, 121, 45, 99, 97, 112, 47, 118, 49, 0];

/// Version byte of an invite.
pub const INVITE_VERSION: u8 = 0x01;

/// Version byte of an invite of the second version.
pub const INVITE2_VERSION: u8 = 0x02;

/// Prefix of invite tokens.
pub const TOKEN_PREFIX: &'static str = "dweb1.";

/// Prefix of invite tokens of the second version.
pub const TOKEN2_PREFIX: &'static str = "dweb2.";

/// Prefix of relay capability tokens.
pub const RELAY_CAP_TOKEN_PREFIX: &'static str = "dwebr1.";

/// Relays of an invite of the second version.
pub const MAX_RELAYS_V2: usize = 8;

/// Bytes of a relay capability inside an invite.
pub const MAX_RELAY_CAP_BYTES: usize = 512;

/// Capability to use a relay.
pub const CAP_RELAY: u8 = 1;

/// Capability to announce at a rendezvous.
pub const CAP_RDZ_ANNOUNCE: u8 = 2;

/// Capability to resolve at a rendezvous.
pub const CAP_RDZ_RESOLVE: u8 = 4;

/// Every defined capability.
pub const CAP_KNOWN_MASK: u8 = 7;

/// Longest life of a relay capability: 180 days.
pub const RELAY_CAP_MAX_TTL_MS: u64 = 15_552_000_000;

/// Life of the capability that a root gives itself: just below the longest.
pub const ROOT_CAP_TTL_MS: u64 = RELAY_CAP_MAX_TTL_MS - 1;

/// Life of the capability that a new member gets: 90 days.
pub const MEMBER_CAP_TTL_MS: u64 = 7_776_000_000;

/// Capabilities that a root gives itself.
pub const ROOT_CAPS: u8 = CAP_KNOWN_MASK;

/// Capabilities that a new member gets.
pub const MEMBER_CAPS: u8 = CAP_RELAY;

/// Bytes of the display name of a fact.
pub const MAX_NAME_BYTES: usize = 512;

/// Bytes of a relay URL.
pub const MAX_RELAY_URL_BYTES: usize = 2048;

/// Direct addresses of an invite.
pub const MAX_DIRECT_ADDRS: usize = 4;

/// Bytes of a direct address in an invite of the first version.
pub const MAX_DIRECT_ADDR_BYTES: usize = 64;

/// Why bytes or a token are not accepted, or a value cannot be written.
#[derive(Debug)]
pub enum ProtocolError {
    /// The value has no canonical form.
    Encoding(String),
    /// The bytes are not canonical, or a signature does not hold: not to be trusted.
    Quarantine { reason: String },
    /// The token is of a version that this reader does not know.
    UnsupportedInviteVersion(String),
    /// Writing JSON failed.
    Json(String),
}

/// What a [`ProtocolError`] says.
pub enum Fault {
    Encoding(Seq<char>),
    Quarantine(Seq<char>),
    Unsupported(Seq<char>),
    Json(Seq<char>),
}

impl View for ProtocolError {
    type V = Fault;

    open spec fn view(&self) -> Fault {
        match self {
            ProtocolError::Encoding(t) => Fault::Encoding(t@),
            ProtocolError::Quarantine { reason } => Fault::Quarantine(reason@),
            ProtocolError::UnsupportedInviteVersion(t) => Fault::Unsupported(t@),
            ProtocolError::Json(t) => Fault::Json(t@),
        }
    }
}

/// The text of an error with its kind.
pub open spec fn fault_text(f: Fault) -> Seq<char> {
    match f {
        Fault::Encoding(t) => "canonical encoding error: "@ + t,
        Fault::Quarantine(t) => "quarantine: "@ + t,
        Fault::Unsupported(t) => "unsupported invite version: "@ + t,
        Fault::Json(t) => "debug JSON error: "@ + t,
    }
}

impl ProtocolError {
    /// The error as text.
    pub fn message(&self) -> (r: String)
        ensures
            r@ == fault_text(self@),
    {
        match self {
            ProtocolError::Encoding(t) => crate::text::cat("canonical encoding error: ", t.as_str()),
            ProtocolError::Quarantine { reason } => crate::text::cat("quarantine: ", reason.as_str()),
            ProtocolError::UnsupportedInviteVersion(t) => crate::text::cat(
                "unsupported invite version: ",
                t.as_str(),
            ),
            ProtocolError::Json(t) => crate::text::cat("debug JSON error: ", t.as_str()),
        }
    }
}

/// An error for input that is not to be trusted.
pub fn quarantine(reason: String) -> (r: ProtocolError)
    ensures
        r@ == Fault::Quarantine(reason@),
{
    ProtocolError::Quarantine { reason }
}

} // verus!
