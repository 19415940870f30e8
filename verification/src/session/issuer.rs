//! Redeeming an invite: what the issuer makes of the messages of a joiner.
//!
//! A refusal that the joiner may know of is sent as a record; everything else closes the
//! channel without a word. The steps are: read the token, send a challenge, read the proof,
//! verify, use the invite up, grant membership, send the receipt.
use vstd::prelude::*;
use vstd::string::*;
use vstd::utf8::{decode_utf8, valid_utf8};

use crate::identity::{EndpointId, Signature};
use crate::octets::{array_at, push_bytes};
use crate::outside::{ed25519_key, lossy_chars, utf8_lossy_text};
use crate::protocol::fact::fact_canonical;
use crate::protocol::fault_text;
use crate::protocol::invite2::{any_token_of, AnyTokenView, InviteVersion};
use crate::protocol::signed::{
    fact_list_roundtrip, list_bytes, signed_ok, signed_views, SignedFact, SignedView,
};
use crate::roster::error::{RosterError, RosterFault};
use crate::roster::files::fabric_id_short16;
use crate::roster::invites::{redeemed_v1, redeemed_v2};
use crate::roster::lemma_no_fault;
use crate::roster::state::RosterView;
use crate::roster::store::{ids_of, lists};
use crate::roster::Roster;
use crate::session::frame_type;
use crate::session::joiner::{answered, answered_v2, ReceiptView, RedeemFault};
use crate::session::ok2::{
    encode_ok2_cap_segment, member_expiry, minted, no_caps, pair_views,
    receipt_capabilities_are_read_back, segment_bytes, sendable, server_views, Ok2View,
    RedeemCapMinter,
};
use crate::session::redeem_err::{KindView, RedeemErrorKind};
use crate::session::{SessionError, SessionFault, MAX_HELLO_FACTS};
use crate::text::{cat, cat3, hex_chars};

verus! {

/// Whether a redemption may begin: not while the fabric shuts down.
pub fn redeem_entry(shutdown_requested: bool, closed: bool) -> (r: Result<(), SessionError>)
    ensures
        if shutdown_requested || closed {
            r is Err && r->Err_0@ == SessionFault::RedeemRejected("fabric is shutting down"@)
        } else {
            r is Ok
        },
{
    if shutdown_requested || closed {
        return Err(SessionError::RedeemRejected("fabric is shutting down".to_owned()));
    }
    Ok(())
}

/// The token of the first message, or why the channel is closed.
pub open spec fn intended(frame_type: u8, payload: Seq<u8>) -> Result<AnyTokenView, Seq<char>> {
    if frame_type != frame_type::REDEEM_INTENT {
        Err("first frame must be redeem intent"@)
    } else {
        match any_token_of(lossy_chars(payload)) {
            Ok(t) => Ok(t),
            Err(e) => Err(fault_text(e)),
        }
    }
}

/// Reads the first message of a redemption: the token.
pub fn read_intent(frame_type: u8, payload: &[u8]) -> (r: Result<InviteVersion, String>)
    ensures
        match intended(frame_type, payload@) {
            Ok(t) => r is Ok && r->Ok_0@ == t,
            Err(e) => r is Err && r->Err_0@ == e,
        },
        frame_type == frame_type::REDEEM_INTENT && valid_utf8(payload@) ==> match any_token_of(
            decode_utf8(payload@),
        ) {
            Ok(t) => r is Ok && r->Ok_0@ == t,
            Err(e) => r is Err && r->Err_0@ == fault_text(e),
        },
{
    if frame_type != frame_type::REDEEM_INTENT {
        return Err("first frame must be redeem intent".to_owned());
    }
    let text = utf8_lossy_text(payload);
    match InviteVersion::decode(text.as_str()) {
        Ok(t) => Ok(t),
        Err(e) => Err(e.message()),
    }
}

/// Who redeems and the signature of the challenge, or why the channel is closed.
pub open spec fn proved(frame_type: u8, payload: Seq<u8>, remote: Seq<u8>) -> Result<
    (Seq<u8>, Seq<u8>),
    Seq<char>,
> {
    if frame_type != frame_type::REDEEM_PROOF {
        Err("expect proof"@)
    } else if payload.len() != 96 {
        Err("bad proof length"@)
    } else if !ed25519_key(payload.subrange(0, 32)) {
        Err("data is not a valid public key"@)
    } else if payload.subrange(0, 32) != remote {
        Err("redeemer key does not match TLS peer"@)
    } else {
        Ok((payload.subrange(0, 32), payload.subrange(32, 96)))
    }
}

/// Reads the proof of a joiner. `remote` is the endpoint at the far end of the connection.
pub fn read_proof(frame_type: u8, payload: &[u8], remote: &EndpointId) -> (r: Result<
    (EndpointId, Signature),
    String,
>)
    ensures
        match proved(frame_type, payload@, remote@) {
            Ok((id, s)) => r is Ok && (r->Ok_0).0@ == id && (r->Ok_0).1@ == s,
            Err(e) => r is Err && r->Err_0@ == e,
        },
{
    if frame_type != frame_type::REDEEM_PROOF {
        return Err("expect proof".to_owned());
    }
    if payload.len() != 96 {
        return Err("bad proof length".to_owned());
    }
    let key = array_at::<32>(payload, 0);
    let redeemer = match EndpointId::from_bytes(&key) {
        Some(id) => id,
        None => return Err("data is not a valid public key".to_owned()),
    };
    if !redeemer.same(remote) {
        return Err("redeemer key does not match TLS peer".to_owned());
    }
    Ok((redeemer, Signature(array_at::<64>(payload, 32))))
}

/// What a joiner is told of a failed check; nothing where the channel is just closed.
pub open spec fn emitted(e: RosterFault) -> Option<KindView> {
    match e {
        RosterFault::WrongFabric { got, expected } => Some(
            KindView::Other(
                "wrong fabric "@ + hex_chars(got.subrange(0, 8)) + " vs "@ + hex_chars(
                    expected.subrange(0, 8),
                ),
            ),
        ),
        RosterFault::InviteNotRoot { issuer, root } => Some(KindView::NotRoot),
        RosterFault::InviteExpired { expires_at_ms, now_ms } => Some(
            KindView::Other("invite expired"@),
        ),
        RosterFault::InviteRecipientMismatch { expected, redeemer } => Some(
            KindView::Other("recipient mismatch"@),
        ),
        RosterFault::BadPoP { redeemer } => Some(KindView::BadPoP),
        _ => None,
    }
}

pub open spec fn kind_view(k: Option<RedeemErrorKind>) -> Option<KindView> {
    match k {
        Some(x) => Some(x@),
        None => None,
    }
}

/// What a joiner is told of a failed check; nothing where the channel is just closed.
pub fn redeem_verify_emit(e: &RosterError) -> (r: Option<RedeemErrorKind>)
    ensures
        kind_view(r) == emitted(e@),
{
    match e {
        RosterError::WrongFabric { got, expected } => Some(
            RedeemErrorKind::Other(
                cat(
                    cat3("wrong fabric ", fabric_id_short16(got).as_str(), " vs ").as_str(),
                    fabric_id_short16(expected).as_str(),
                ),
            ),
        ),
        RosterError::InviteNotRoot { .. } => Some(RedeemErrorKind::NotRoot),
        RosterError::InviteExpired { .. } => Some(
            RedeemErrorKind::Other("invite expired".to_owned()),
        ),
        RosterError::InviteRecipientMismatch { .. } => Some(
            RedeemErrorKind::Other("recipient mismatch".to_owned()),
        ),
        RosterError::BadPoP { .. } => Some(RedeemErrorKind::BadPoP),
        RosterError::Protocol(_) => None,
        RosterError::NotRoot { .. } => None,
        RosterError::InvalidRevokeTarget { .. } => None,
        RosterError::Corrupted { .. } => None,
        RosterError::NotFound { .. } => None,
        RosterError::AlreadyExists { .. } => None,
        RosterError::Persistence { .. } => None,
        RosterError::DirFabricMismatch { .. } => None,
    }
}

/// An endpoint may redeem a token of either version, or why not.
pub open spec fn redeemed_any(
    v: RosterView,
    t: AnyTokenView,
    redeemer: Seq<u8>,
    challenge: Seq<u8>,
    signature: Seq<u8>,
    now_ms: u64,
) -> Result<Seq<u8>, RosterFault> {
    match t {
        AnyTokenView::V1(x) => redeemed_v1(v, x, redeemer, challenge, signature, now_ms),
        AnyTokenView::V2(x) => redeemed_v2(v, x, redeemer, challenge, signature, now_ms),
    }
}

/// Checks a redemption: on success the invite is to be used up.
pub fn redeem_check(
    roster: &Roster,
    token: &InviteVersion,
    redeemer: &EndpointId,
    challenge: &[u8; 32],
    signature: &Signature,
    now_ms: u64,
) -> (r: Result<(), RosterError>)
    ensures
        match redeemed_any(roster@, token@, redeemer@, challenge@, signature@, now_ms) {
            Ok(_) => r is Ok,
            Err(e) => r is Err && r->Err_0@ == e,
        },
{
    let checked = match token {
        InviteVersion::V1(t) => roster.redeem_verify(t, redeemer, challenge, signature, now_ms),
        InviteVersion::V2(t) => roster.redeem_verify_v2(t, redeemer, challenge, signature, now_ms),
    };
    match checked {
        Ok(_) => Ok(()),
        Err(e) => Err(e),
    }
}

/// The id of the invite of a token.
pub open spec fn token_invite_id(t: AnyTokenView) -> Seq<u8> {
    match t {
        AnyTokenView::V1(x) => x.invite.invite_id,
        AnyTokenView::V2(x) => x.invite.invite_id,
    }
}

/// The id of the invite of a token.
pub fn redeem_invite_id(token: &InviteVersion) -> (r: [u8; 16])
    ensures
        r@ == token_invite_id(token@),
{
    match token {
        InviteVersion::V1(t) => t.invite.invite_id,
        InviteVersion::V2(t) => t.invite.invite_id,
    }
}

/// The capabilities that go with a receipt: none without a source of them.
pub open spec fn receipt_caps(
    minter: Option<&RedeemCapMinter>,
    t: AnyTokenView,
    redeemer: Seq<u8>,
    now_ms: u64,
) -> Seq<(Seq<char>, Seq<char>)> {
    match (minter, t) {
        (Some(m), AnyTokenView::V2(x)) => minted(
            m.fabric_id@,
            m.signer@,
            server_views(m.restricted@),
            redeemer,
            x.invite.relays,
            now_ms,
            member_expiry(now_ms, x.invite.expires_at_ms),
        ),
        _ => Seq::empty(),
    }
}

/// The receipt of a redemption: its frame type, and all facts, with the capabilities behind
/// them for a token of the second version.
pub open spec fn receipt_of(
    t: AnyTokenView,
    list: Seq<SignedView>,
    caps: Seq<(Seq<char>, Seq<char>)>,
) -> (u8, Seq<u8>) {
    match t {
        AnyTokenView::V1(_) => (frame_type::REDEEM_OK, list_bytes(list)),
        AnyTokenView::V2(_) => (
            frame_type::REDEEM_OK2,
            list_bytes(list) + segment_bytes(caps),
        ),
    }
}

/// The receipt of a redemption.
pub fn redeem_receipt(
    roster: &Roster,
    token: &InviteVersion,
    redeemer: &EndpointId,
    minter: Option<&RedeemCapMinter>,
    now_ms: u64,
) -> (r: Result<(u8, Vec<u8>), String>)
    requires
        roster.wf(),
    ensures
        r is Ok,
        exists|list: Seq<SignedView>| #[trigger]
            lists(roster@.facts, list) && (forall|k: int|
                0 <= k < list.len() ==> signed_ok(#[trigger] list[k])) && (
            (r->Ok_0).0,
            (r->Ok_0).1@,
        ) == receipt_of(token@, list, receipt_caps(minter, token@, redeemer@, now_ms)),
{
    let facts = roster.facts();
    let ghost list = signed_views(facts@);
    proof {
        assert forall|k: int| 0 <= k < list.len() implies fact_canonical((#[trigger] list[k]).fact) is Ok by {
            assert(roster@.facts.dom().contains(ids_of(list)[k]));
        }
        lemma_no_fault(list, 0);
    }
    let mut buf = match SignedFact::encode_all(facts) {
        Ok(b) => b,
        Err(e) => {
            return Err(cat("post-consume receipt encode failed: ", e.message().as_str()));
        },
    };
    match token {
        InviteVersion::V1(_) => Ok((frame_type::REDEEM_OK, buf)),
        InviteVersion::V2(t) => {
            let caps = match minter {
                Some(m) => m.mint_for(
                    redeemer,
                    t.invite.expires_at_ms,
                    t.invite.relays.as_slice(),
                    now_ms,
                ),
                None => Vec::new(),
            };
            assert(pair_views(caps@) =~= receipt_caps(minter, token@, redeemer@, now_ms));
            let segment = encode_ok2_cap_segment(caps.as_slice());
            push_bytes(&mut buf, segment.as_slice());
            Ok((frame_type::REDEEM_OK2, buf))
        },
    }
}

/// How a redemption ended.
#[derive(Debug, Clone, PartialEq, Eq)]
pub enum RedeemEnd {
    /// The receipt was sent.
    Done,
    /// It took too long.
    Deadline,
    /// The channel is closed without a word.
    Silent(String),
    /// A refusal was sent.
    Emitted(String),
}

/// How to close the connection, if at once, and what to report.
pub fn redeem_finish(end: RedeemEnd) -> (r: (Option<&'static str>, Result<(), SessionError>))
    ensures
        match end {
            RedeemEnd::Done => r.0 is None && r.1 is Ok,
            RedeemEnd::Deadline => r.0 is Some && (r.0->0)@ == "redeem-deadline"@ && r.1 is Err
                && r.1->Err_0@ == SessionFault::RedeemRejected("redeem deadline exceeded"@),
            RedeemEnd::Silent(t) => r.0 is Some && (r.0->0)@ == "redeem-rejected"@ && r.1 is Err
                && r.1->Err_0@ == SessionFault::RedeemRejected(t@),
            RedeemEnd::Emitted(t) => r.0 is None && r.1 is Err && r.1->Err_0@
                == SessionFault::RedeemRejected(t@),
        },
{
    match end {
        RedeemEnd::Done => (None, Ok(())),
        RedeemEnd::Deadline => (
            Some("redeem-deadline"),
            Err(SessionError::RedeemRejected("redeem deadline exceeded".to_owned())),
        ),
        RedeemEnd::Silent(t) => (Some("redeem-rejected"), Err(SessionError::RedeemRejected(t))),
        RedeemEnd::Emitted(t) => (None, Err(SessionError::RedeemRejected(t))),
    }
}

// ---- laws -------------------------------------------------------------------------

/// The joiner reads from the receipt of a token of the first version the facts that the
/// issuer had.
pub proof fn receipts_are_understood(t: AnyTokenView, list: Seq<SignedView>)
    requires
        t is V1,
        forall|k: int| 0 <= k < list.len() ==> signed_ok(#[trigger] list[k]),
        list.len() <= u32::MAX,
        list_bytes(list).len() <= usize::MAX,
    ensures
        ({
            let r = receipt_of(t, list, Seq::empty());
            answered(r.0, r.1) == Ok::<Seq<SignedView>, RedeemFault>(list)
        }),
{
    fact_list_roundtrip(list, Seq::empty());
    assert(list_bytes(list) + Seq::<u8>::empty() =~= list_bytes(list));
}

/// The joiner reads from the receipt of a token of the second version the facts that the
/// issuer had and the capabilities that it gave.
pub proof fn receipts_v2_are_understood(
    t: AnyTokenView,
    list: Seq<SignedView>,
    caps: Seq<(Seq<char>, Seq<char>)>,
    redeemer: Seq<u8>,
)
    requires
        t is V2,
        forall|k: int| 0 <= k < list.len() ==> signed_ok(#[trigger] list[k]),
        list.len() <= MAX_HELLO_FACTS,
        list_bytes(list).len() + segment_bytes(caps).len() <= usize::MAX,
        sendable(caps, redeemer),
    ensures
        ({
            let r = receipt_of(t, list, caps);
            answered_v2(r.0, r.1, redeemer) == Ok::<ReceiptView, RedeemFault>(
                ReceiptView {
                    facts: list,
                    relay_caps: caps,
                    skipped: Ok2View { items: caps, ..no_caps() },
                },
            )
        }),
{
    let seg = segment_bytes(caps);
    let b = list_bytes(list) + seg;
    fact_list_roundtrip(list, seg);
    let n = list_bytes(list).len() as int;
    assert(b.subrange(n, b.len() as int) =~= seg);
    receipt_capabilities_are_read_back(caps, redeemer);
}

/// A proof that the joiner makes for the challenge of the issuer is read as its own.
pub proof fn proofs_are_understood(redeemer: Seq<u8>, signature: Seq<u8>)
    requires
        redeemer.len() == 32,
        signature.len() == 64,
        ed25519_key(redeemer),
    ensures
        proved(frame_type::REDEEM_PROOF, redeemer + signature, redeemer) == Ok::<
            (Seq<u8>, Seq<u8>),
            Seq<char>,
        >((redeemer, signature)),
{
    let p = redeemer + signature;
    assert(p.subrange(0, 32) =~= redeemer);
    assert(p.subrange(32, 96) =~= signature);
}

} // verus!
