//! Why an operation on a roster fails.
use vstd::prelude::*;
use vstd::string::*;

use crate::identity::EndpointId;
use crate::protocol::fact::{FabricId, FactId};
use crate::protocol::{fault_text, Fault, ProtocolError};
use crate::text::{
    byte_list, byte_list_text, cat, cat3, cat5, decimal, decimal_text, hex_chars, hex_str,
};

verus! {

/// Why an operation on a roster fails.
#[derive(Debug)]
pub enum RosterError {
    /// A value has no canonical form, or a signature does not hold.
    Protocol(ProtocolError),
    /// The operation is for the root.
    NotRoot { caller: EndpointId, root: Option<EndpointId> },
    /// The fact to be revoked is not a stored grant.
    InvalidRevokeTarget { fact_id: FactId },
    /// A stored file cannot be replayed.
    Corrupted { path: String, reason: String },
    /// There is no stored roster.
    NotFound { path: String },
    /// There is a stored roster already.
    AlreadyExists { path: String },
    /// A token is of another fabric.
    WrongFabric { got: FabricId, expected: FabricId },
    /// The stored roster is of another fabric.
    DirFabricMismatch { path: String, stored: FabricId, requested: FabricId },
    /// The issuer of an invite is not the root.
    InviteNotRoot { issuer: EndpointId, root: Option<EndpointId> },
    /// The invite has expired.
    InviteExpired { expires_at_ms: u64, now_ms: u64 },
    /// The invite is for another endpoint.
    InviteRecipientMismatch { expected: EndpointId, redeemer: EndpointId },
    /// The proof of possession does not hold.
    BadPoP { redeemer: EndpointId },
    /// Reading or writing a file failed.
    Persistence { path: String, source: String },
}

/// What a [`RosterError`] says.
pub enum RosterFault {
    Protocol(Fault),
    NotRoot { caller: Seq<u8>, root: Option<Seq<u8>> },
    InvalidRevokeTarget { fact_id: Seq<u8> },
    Corrupted { path: Seq<char>, reason: Seq<char> },
    NotFound { path: Seq<char> },
    AlreadyExists { path: Seq<char> },
    WrongFabric { got: Seq<u8>, expected: Seq<u8> },
    DirFabricMismatch { path: Seq<char>, stored: Seq<u8>, requested: Seq<u8> },
    InviteNotRoot { issuer: Seq<u8>, root: Option<Seq<u8>> },
    InviteExpired { expires_at_ms: u64, now_ms: u64 },
    InviteRecipientMismatch { expected: Seq<u8>, redeemer: Seq<u8> },
    BadPoP { redeemer: Seq<u8> },
    Persistence { path: Seq<char>, source: Seq<char> },
}

pub open spec fn root_view(root: Option<EndpointId>) -> Option<Seq<u8>> {
    match root {
        Some(r) => Some(r@),
        None => None,
    }
}

impl View for RosterError {
    type V = RosterFault;

    open spec fn view(&self) -> RosterFault {
        match self {
            RosterError::Protocol(e) => RosterFault::Protocol(e@),
            RosterError::NotRoot { caller, root } => RosterFault::NotRoot {
                caller: caller@,
                root: root_view(*root),
            },
            RosterError::InvalidRevokeTarget { fact_id } => RosterFault::InvalidRevokeTarget {
                fact_id: fact_id@,
            },
            RosterError::Corrupted { path, reason } => RosterFault::Corrupted {
                path: path@,
                reason: reason@,
            },
            RosterError::NotFound { path } => RosterFault::NotFound { path: path@ },
            RosterError::AlreadyExists { path } => RosterFault::AlreadyExists { path: path@ },
            RosterError::WrongFabric { got, expected } => RosterFault::WrongFabric {
                got: got@,
                expected: expected@,
            },
            RosterError::DirFabricMismatch { path, stored, requested } => RosterFault::DirFabricMismatch {
                path: path@,
                stored: stored@,
                requested: requested@,
            },
            RosterError::InviteNotRoot { issuer, root } => RosterFault::InviteNotRoot {
                issuer: issuer@,
                root: root_view(*root),
            },
            RosterError::InviteExpired { expires_at_ms, now_ms } => RosterFault::InviteExpired {
                expires_at_ms: *expires_at_ms,
                now_ms: *now_ms,
            },
            RosterError::InviteRecipientMismatch { expected, redeemer } => RosterFault::InviteRecipientMismatch {
                expected: expected@,
                redeemer: redeemer@,
            },
            RosterError::BadPoP { redeemer } => RosterFault::BadPoP { redeemer: redeemer@ },
            RosterError::Persistence { path, source } => RosterFault::Persistence {
                path: path@,
                source: source@,
            },
        }
    }
}

/// A key as errors show it.
pub open spec fn key_text(id: Seq<u8>) -> Seq<char> {
    "PublicKey("@ + hex_chars(id) + ")"@
}

/// An optional key as errors show it.
pub open spec fn root_text(root: Option<Seq<u8>>) -> Seq<char> {
    match root {
        Some(r) => "Some("@ + key_text(r) + ")"@,
        None => "None"@,
    }
}

/// An error as text.
pub open spec fn roster_fault_text(f: RosterFault) -> Seq<char> {
    match f {
        RosterFault::Protocol(e) => fault_text(e),
        RosterFault::NotRoot { caller, root } => "operation requires root "@ + root_text(root)
            + ", caller is "@ + key_text(caller),
        RosterFault::InvalidRevokeTarget { fact_id } => "revoke target "@ + byte_list(fact_id)
            + " is not a stored grant fact"@,
        RosterFault::Corrupted { path, reason } => "roster file "@ + path + " is corrupted: "@
            + reason,
        RosterFault::NotFound { path } => "no persisted roster for this data directory: "@ + path,
        RosterFault::AlreadyExists { path } => "data directory already hosts a roster: "@ + path,
        RosterFault::WrongFabric { got, expected } => "fact belongs to fabric "@ + hex_chars(got)
            + ", roster is "@ + hex_chars(expected),
        RosterFault::DirFabricMismatch { path, stored, requested } => "data dir "@ + path
            + " belongs to fabric "@ + hex_chars(stored) + ", but this operation targets fabric "@
            + hex_chars(requested) + "; use a fresh --data directory"@,
        RosterFault::InviteNotRoot { issuer, root } => "invite issuer "@ + key_text(issuer)
            + " is not the fabric root "@ + root_text(root),
        RosterFault::InviteExpired { expires_at_ms, now_ms } => "invite expired at "@ + decimal(
            expires_at_ms as nat,
        ) + " ms (now "@ + decimal(now_ms as nat) + " ms)"@,
        RosterFault::InviteRecipientMismatch { expected, redeemer } => "invite is bound to "@
            + key_text(expected) + ", redeemer is "@ + key_text(redeemer),
        RosterFault::BadPoP { redeemer } => "proof-of-possession verification failed for "@
            + key_text(redeemer),
        RosterFault::Persistence { path, source } => "roster persistence failed for "@ + path
            + ": "@ + source,
    }
}

fn key_message(id: &EndpointId) -> (r: String)
    ensures
        r@ == key_text(id@),
{
    cat3("PublicKey(", hex_str(id.as_bytes()).as_str(), ")")
}

fn root_message(root: &Option<EndpointId>) -> (r: String)
    ensures
        r@ == root_text(root_view(*root)),
{
    match root {
        Some(id) => cat3("Some(", key_message(id).as_str(), ")"),
        None => "None".to_owned(),
    }
}

fn cat4(a: &str, b: &str, c: &str, d: &str) -> (r: String)
    ensures
        r@ == a@ + b@ + c@ + d@,
{
    cat(cat3(a, b, c).as_str(), d)
}

impl RosterError {
    /// The error as text.
    pub fn message(&self) -> (r: String)
        ensures
            r@ == roster_fault_text(self@),
    {
        match self {
            RosterError::Protocol(e) => e.message(),
            RosterError::NotRoot { caller, root } => cat4(
                "operation requires root ",
                root_message(root).as_str(),
                ", caller is ",
                key_message(caller).as_str(),
            ),
            RosterError::InvalidRevokeTarget { fact_id } => cat3(
                "revoke target ",
                byte_list_text(fact_id).as_str(),
                " is not a stored grant fact",
            ),
            RosterError::Corrupted { path, reason } => cat4(
                "roster file ",
                path.as_str(),
                " is corrupted: ",
                reason.as_str(),
            ),
            RosterError::NotFound { path } => cat(
                "no persisted roster for this data directory: ",
                path.as_str(),
            ),
            RosterError::AlreadyExists { path } => cat(
                "data directory already hosts a roster: ",
                path.as_str(),
            ),
            RosterError::WrongFabric { got, expected } => cat4(
                "fact belongs to fabric ",
                got.display().as_str(),
                ", roster is ",
                expected.display().as_str(),
            ),
            RosterError::DirFabricMismatch { path, stored, requested } => cat3(
                cat5(
                    "data dir ",
                    path.as_str(),
                    " belongs to fabric ",
                    stored.display().as_str(),
                    ", but this operation targets fabric ",
                ).as_str(),
                requested.display().as_str(),
                "; use a fresh --data directory",
            ),
            RosterError::InviteNotRoot { issuer, root } => cat4(
                "invite issuer ",
                key_message(issuer).as_str(),
                " is not the fabric root ",
                root_message(root).as_str(),
            ),
            RosterError::InviteExpired { expires_at_ms, now_ms } => cat5(
                "invite expired at ",
                decimal_text(*expires_at_ms).as_str(),
                " ms (now ",
                decimal_text(*now_ms).as_str(),
                " ms)",
            ),
            RosterError::InviteRecipientMismatch { expected, redeemer } => cat4(
                "invite is bound to ",
                key_message(expected).as_str(),
                ", redeemer is ",
                key_message(redeemer).as_str(),
            ),
            RosterError::BadPoP { redeemer } => cat(
                "proof-of-possession verification failed for ",
                key_message(redeemer).as_str(),
            ),
            RosterError::Persistence { path, source } => cat4(
                "roster persistence failed for ",
                path.as_str(),
                ": ",
                source.as_str(),
            ),
        }
    }
}

} // verus!
