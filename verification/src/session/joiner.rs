//! Redeeming an invite: what the joiner sends, and what it makes of the answers.
use vstd::prelude::*;
use vstd::string::*;

use crate::identity::{EndpointId, SecretKey};
use crate::octets::{array_at, push_bytes};
use crate::outside::ed25519_signature;
use crate::protocol::fact::FabricId;
use crate::protocol::invite::{
    invite_fault, pop_bytes, redeem_challenge_bytes, token_text, InviteToken,
};
use crate::protocol::invite2::{invite2_fault, token2_text, InviteV2Token};
use crate::protocol::signed::{list_at, list_of, signed_views, SignedFact, SignedView};
use crate::protocol::{fault_text, Fault};
use crate::session::frame_type;
use crate::session::ok2::{
    no_caps, pair_views, parse_ok2_caps, segment_of, Ok2Caps, Ok2View,
};
use crate::session::redeem_err::{
    decode_records, records_from, reduce, reduced, rejection_debug, short_read_text,
    RedeemRejection, RejectionView,
};
use crate::session::MAX_HELLO_FACTS;
use crate::text::{cat, hex_number, hex_number_text};

verus! {

/// Why a redemption failed.
#[derive(Debug)]
pub enum RedeemError {
    /// The issuer refused.
    Rejected(RedeemRejection),
    /// The channel failed, or an answer was broken.
    Unstructured(String),
    /// The redemption took too long.
    Timeout,
}

/// What a [`RedeemError`] says.
pub enum RedeemFault {
    Rejected(RejectionView),
    Unstructured(Seq<char>),
    Timeout,
}

impl View for RedeemError {
    type V = RedeemFault;

    open spec fn view(&self) -> RedeemFault {
        match self {
            RedeemError::Rejected(r) => RedeemFault::Rejected(r@),
            RedeemError::Unstructured(t) => RedeemFault::Unstructured(t@),
            RedeemError::Timeout => RedeemFault::Timeout,
        }
    }
}

pub open spec fn redeem_fault_text(f: RedeemFault) -> Seq<char> {
    match f {
        RedeemFault::Rejected(r) => "redeem rejected: "@ + rejection_debug(r),
        RedeemFault::Unstructured(t) => "redeem channel failed: "@ + t,
        RedeemFault::Timeout => "redeem timeout"@,
    }
}

impl RedeemError {
    /// The error as text.
    pub fn message(&self) -> (r: String)
        ensures
            r@ == redeem_fault_text(self@),
    {
        match self {
            RedeemError::Rejected(r) => cat("redeem rejected: ", r.debug_text().as_str()),
            RedeemError::Unstructured(t) => cat("redeem channel failed: ", t.as_str()),
            RedeemError::Timeout => "redeem timeout".to_owned(),
        }
    }
}

/// The first message of a redemption: the text of the token.
pub fn redeem_intent(token: &InviteToken) -> (r: Result<String, RedeemError>)
    ensures
        match invite_fault(token@.invite) {
            None => r is Ok && r->Ok_0@ == token_text(token@),
            Some(e) => r is Err && r->Err_0@ == RedeemFault::Unstructured(fault_text(e)),
        },
{
    match token.encode() {
        Ok(t) => Ok(t),
        Err(e) => Err(RedeemError::Unstructured(e.message())),
    }
}

/// The first message of a redemption with a token of the second version.
pub fn redeem_intent_v2(token: &InviteV2Token) -> (r: Result<String, RedeemError>)
    ensures
        match invite2_fault(token@.invite) {
            None => r is Ok && r->Ok_0@ == token2_text(token@),
            Some(e) => r is Err && r->Err_0@ == RedeemFault::Unstructured(fault_text(e)),
        },
{
    match token.encode() {
        Ok(t) => Ok(t),
        Err(e) => Err(RedeemError::Unstructured(e.message())),
    }
}

/// The answer to a challenge: who redeems, and the proof that it holds its key.
pub open spec fn proof_of(
    fabric_id: Seq<u8>,
    invite_id: Seq<u8>,
    seed: Seq<u8>,
    redeemer: Seq<u8>,
    frame_type: u8,
    payload: Seq<u8>,
) -> Result<Seq<u8>, RedeemFault> {
    if frame_type != frame_type::REDEEM_CHALLENGE {
        Err(
            RedeemFault::Unstructured(
                "expect challenge, got frame 0x"@ + hex_number(frame_type as nat),
            ),
        )
    } else if payload.len() != 32 {
        Err(RedeemFault::Unstructured("bad challenge length"@))
    } else {
        Ok(redeemer + ed25519_signature(seed, pop_bytes(fabric_id, invite_id, payload)))
    }
}

/// Answers a challenge.
pub fn redeem_proof(
    fabric_id: &FabricId,
    invite_id: &[u8; 16],
    secret: &SecretKey,
    redeemer: &EndpointId,
    frame_type: u8,
    payload: &[u8],
) -> (r: Result<Vec<u8>, RedeemError>)
    ensures
        match proof_of(fabric_id@, invite_id@, secret@, redeemer@, frame_type, payload@) {
            Ok(b) => r is Ok && r->Ok_0@ == b,
            Err(e) => r is Err && r->Err_0@ == e,
        },
{
    if frame_type != frame_type::REDEEM_CHALLENGE {
        return Err(
            RedeemError::Unstructured(
                cat(
                    "expect challenge, got frame 0x",
                    hex_number_text(frame_type as u64).as_str(),
                ),
            ),
        );
    }
    if payload.len() != 32 {
        return Err(RedeemError::Unstructured("bad challenge length".to_owned()));
    }
    let challenge = array_at::<32>(payload, 0);
    assert(challenge@ =~= payload@);
    let pop = redeem_challenge_bytes(fabric_id, invite_id, &challenge);
    let signature = secret.sign(pop.as_slice());
    let mut out: Vec<u8> = Vec::new();
    push_bytes(&mut out, redeemer.as_bytes());
    push_bytes(&mut out, &signature.0);
    assert(out@ =~= redeemer@ + signature@);
    Ok(out)
}

/// A receipt whose facts cannot be read.
pub open spec fn bad_receipt(e: Fault) -> RedeemFault {
    RedeemFault::Unstructured("receipt fact decode failed: "@ + fault_text(e))
}

/// What the joiner makes of a refusal.
pub open spec fn refused(payload: Seq<u8>) -> RedeemFault {
    match records_from(payload, 0) {
        Err(at) => RedeemFault::Unstructured(
            "redeem error frame violated wire: "@ + short_read_text(at as nat),
        ),
        Ok(s) => if s.len() == 0 {
            RedeemFault::Unstructured("redeem error frame carries no record"@)
        } else {
            RedeemFault::Rejected(reduced(s))
        },
    }
}

pub open spec fn unexpected(frame_type: u8) -> RedeemFault {
    RedeemFault::Unstructured("unexpected frame 0x"@ + hex_number(frame_type as nat))
}

fn refusal(payload: &[u8]) -> (r: RedeemError)
    ensures
        r@ == refused(payload@),
{
    match decode_records(payload) {
        Err(v) => RedeemError::Unstructured(
            cat("redeem error frame violated wire: ", v.message().as_str()),
        ),
        Ok(records) => {
            if records.len() == 0 {
                RedeemError::Unstructured("redeem error frame carries no record".to_owned())
            } else {
                RedeemError::Rejected(reduce(records.as_slice()))
            }
        },
    }
}

fn unexpected_frame(frame_type: u8) -> (r: RedeemError)
    ensures
        r@ == unexpected(frame_type),
{
    RedeemError::Unstructured(
        cat("unexpected frame 0x", hex_number_text(frame_type as u64).as_str()),
    )
}

/// What a redemption gives: the facts of the fabric.
pub open spec fn answered(frame_type: u8, payload: Seq<u8>) -> Result<Seq<SignedView>, RedeemFault> {
    if frame_type == frame_type::REDEEM_OK {
        match list_of(payload) {
            Ok(s) => Ok(s),
            Err(e) => Err(bad_receipt(e)),
        }
    } else if frame_type == frame_type::REDEEM_ERR {
        Err(refused(payload))
    } else {
        Err(unexpected(frame_type))
    }
}

/// Reads the last answer to a redemption: the facts of the fabric.
pub fn redeem_answer(frame_type: u8, payload: &[u8]) -> (r: Result<Vec<SignedFact>, RedeemError>)
    ensures
        match answered(frame_type, payload@) {
            Ok(s) => r is Ok && signed_views(r->Ok_0@) == s,
            Err(e) => r is Err && r->Err_0@ == e,
        },
{
    if frame_type == frame_type::REDEEM_OK {
        match SignedFact::decode_all(payload) {
            Ok(f) => Ok(f),
            Err(e) => Err(
                RedeemError::Unstructured(
                    cat("receipt fact decode failed: ", e.message().as_str()),
                ),
            ),
        }
    } else if frame_type == frame_type::REDEEM_ERR {
        Err(refusal(payload))
    } else {
        Err(unexpected_frame(frame_type))
    }
}

/// What a redemption with a token of the second version gives.
#[derive(Debug, Clone, PartialEq, Eq)]
pub struct RedeemReceiptV2 {
    pub facts: Vec<SignedFact>,
    /// Relay URLs and capabilities that were taken.
    pub relay_caps: Vec<(String, String)>,
    /// The same with the numbers of those that were skipped.
    pub skipped: Ok2Caps,
}

/// What a [`RedeemReceiptV2`] holds.
#[verifier::ext_equal]
pub struct ReceiptView {
    pub facts: Seq<SignedView>,
    pub relay_caps: Seq<(Seq<char>, Seq<char>)>,
    pub skipped: Ok2View,
}

impl View for RedeemReceiptV2 {
    type V = ReceiptView;

    open spec fn view(&self) -> ReceiptView {
        ReceiptView {
            facts: signed_views(self.facts@),
            relay_caps: pair_views(self.relay_caps@),
            skipped: self.skipped@,
        }
    }
}

/// What a redemption with a token of the second version gives.
pub open spec fn answered_v2(frame_type: u8, payload: Seq<u8>, redeemer: Seq<u8>) -> Result<
    ReceiptView,
    RedeemFault,
> {
    if frame_type == frame_type::REDEEM_OK2 {
        match list_at(payload) {
            Err(e) => Err(bad_receipt(e)),
            Ok((facts, n)) => if facts.len() > MAX_HELLO_FACTS {
                Err(RedeemFault::Unstructured("receipt fact count exceeds the limit"@))
            } else {
                match segment_of(payload.subrange(n, payload.len() as int), redeemer) {
                    Err(why) => Err(
                        RedeemFault::Unstructured("OK2 frame violated wire: "@ + why),
                    ),
                    Ok(caps) => Ok(ReceiptView { facts, relay_caps: caps.items, skipped: caps }),
                }
            },
        }
    } else if frame_type == frame_type::REDEEM_OK {
        match list_of(payload) {
            Ok(facts) => Ok(
                ReceiptView { facts, relay_caps: Seq::empty(), skipped: no_caps() },
            ),
            Err(e) => Err(bad_receipt(e)),
        }
    } else if frame_type == frame_type::REDEEM_ERR {
        Err(refused(payload))
    } else {
        Err(unexpected(frame_type))
    }
}

fn copy_pairs(items: &Vec<(String, String)>) -> (r: Vec<(String, String)>)
    ensures
        pair_views(r@) == pair_views(items@),
{
    let mut out: Vec<(String, String)> = Vec::new();
    let mut i: usize = 0;
    while i < items.len()
        invariant
            i <= items@.len(),
            out@.len() == i,
            forall|k: int|
                0 <= k < i ==> (#[trigger] out@[k]).0@ == items@[k].0@ && out@[k].1@
                    == items@[k].1@,
        decreases items@.len() - i,
    {
        out.push((items[i].0.as_str().to_owned(), items[i].1.as_str().to_owned()));
        i = i + 1;
    }
    assert(pair_views(out@) =~= pair_views(items@));
    out
}

/// Reads the last answer to a redemption with a token of the second version.
pub fn redeem_answer_v2(frame_type: u8, payload: &[u8], redeemer: &EndpointId) -> (r: Result<
    RedeemReceiptV2,
    RedeemError,
>)
    ensures
        match answered_v2(frame_type, payload@, redeemer@) {
            Ok(v) => r is Ok && r->Ok_0@ == v,
            Err(e) => r is Err && r->Err_0@ == e,
        },
{
    if frame_type == frame_type::REDEEM_OK2 {
        let (facts, n) = match SignedFact::decode_all_prefix(payload) {
            Ok(x) => x,
            Err(e) => {
                return Err(
                    RedeemError::Unstructured(
                        cat("receipt fact decode failed: ", e.message().as_str()),
                    ),
                );
            },
        };
        if facts.len() > MAX_HELLO_FACTS {
            return Err(
                RedeemError::Unstructured("receipt fact count exceeds the limit".to_owned()),
            );
        }
        let tail = vstd::slice::slice_subrange(payload, n, payload.len());
        match parse_ok2_caps(tail, redeemer) {
            Ok(caps) => Ok(
                RedeemReceiptV2 { facts, relay_caps: copy_pairs(&caps.items), skipped: caps },
            ),
            Err(why) => Err(
                RedeemError::Unstructured(cat("OK2 frame violated wire: ", why.as_str())),
            ),
        }
    } else {
        match redeem_answer(frame_type, payload) {
            Ok(facts) => {
                let relay_caps: Vec<(String, String)> = Vec::new();
                assert(pair_views(relay_caps@) =~= Seq::<(Seq<char>, Seq<char>)>::empty());
                Ok(RedeemReceiptV2 { facts, relay_caps, skipped: Ok2Caps::default() })
            },
            Err(e) => Err(e),
        }
    }
}

} // verus!
