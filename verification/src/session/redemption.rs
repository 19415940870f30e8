//! The course of a redemption at the issuer: check the proof, use the invite up, grant
//! membership, send the receipt. The steps touch the disk; what follows from the outcome of
//! each is decided here.
use vstd::prelude::*;
use vstd::string::*;

use crate::identity::EndpointId;
use crate::outside::ed25519_public;
use crate::protocol::fact::fact_id_of;
use crate::protocol::invite2::AnyTokenView;
use crate::protocol::signed::SignedView;
use crate::roster::error::{roster_fault_text, RosterError, RosterFault};
use crate::roster::invites::{consuming, informed};
use crate::roster::state::{judged, RosterView};
use crate::roster::store::lists;
use crate::roster::{grant_fact, root_fact};
use crate::session::frame_type;
use crate::session::issuer::{
    emitted, receipt_of, redeem_verify_emit, redeemed_any, token_invite_id,
};
use crate::session::redeem_err::{
    kind_byte_of, payload_of, record_bytes, KindView, RedeemErrorKind,
};
use crate::text::cat;

verus! {

/// What a redemption waits for.
#[derive(Debug, Clone, Copy, PartialEq, Eq)]
pub enum RedeemPhase {
    /// The outcome of the check.
    Check,
    /// The outcome of the attempt to use the invite up.
    Consume { redeemer: EndpointId },
    /// The outcome of the grant and its storage.
    Grant { redeemer: EndpointId },
    /// The receipt.
    Receipt,
    /// Nothing: it is over.
    Ended,
}

/// What a [`RedeemPhase`] holds.
pub enum PhaseView {
    Check,
    Consume { redeemer: Seq<u8> },
    Grant { redeemer: Seq<u8> },
    Receipt,
    Ended,
}

impl View for RedeemPhase {
    type V = PhaseView;

    open spec fn view(&self) -> PhaseView {
        match self {
            RedeemPhase::Check => PhaseView::Check,
            RedeemPhase::Consume { redeemer } => PhaseView::Consume { redeemer: redeemer@ },
            RedeemPhase::Grant { redeemer } => PhaseView::Grant { redeemer: redeemer@ },
            RedeemPhase::Receipt => PhaseView::Receipt,
            RedeemPhase::Ended => PhaseView::Ended,
        }
    }
}

/// What has come out of a step.
#[derive(Debug)]
pub enum RedeemEvent {
    /// The fabric shuts down.
    ShuttingDown,
    /// The proof of `redeemer` for the invite was checked.
    Checked { outcome: Result<(), RosterError>, invite_id: [u8; 16], redeemer: EndpointId },
    /// The invite was to be used up; whether this redemption did it.
    Consumed(Result<bool, RosterError>),
    /// Membership was granted and stored.
    Granted(Result<(), RosterError>),
    /// The receipt: its frame type and payload.
    Encoded(Result<(u8, Vec<u8>), String>),
}

/// What a [`RedeemEvent`] says.
pub enum EventView {
    ShuttingDown,
    Checked { outcome: Result<(), RosterFault>, invite_id: Seq<u8>, redeemer: Seq<u8> },
    Consumed(Result<bool, RosterFault>),
    Granted(Result<(), RosterFault>),
    Encoded(Result<(u8, Seq<u8>), Seq<char>>),
}

impl View for RedeemEvent {
    type V = EventView;

    open spec fn view(&self) -> EventView {
        match self {
            RedeemEvent::ShuttingDown => EventView::ShuttingDown,
            RedeemEvent::Checked { outcome, invite_id, redeemer } => EventView::Checked {
                outcome: match outcome {
                    Ok(_) => Ok(()),
                    Err(e) => Err(e@),
                },
                invite_id: invite_id@,
                redeemer: redeemer@,
            },
            RedeemEvent::Consumed(o) => EventView::Consumed(
                match o {
                    Ok(b) => Ok(*b),
                    Err(e) => Err(e@),
                },
            ),
            RedeemEvent::Granted(o) => EventView::Granted(
                match o {
                    Ok(_) => Ok(()),
                    Err(e) => Err(e@),
                },
            ),
            RedeemEvent::Encoded(o) => EventView::Encoded(
                match o {
                    Ok(x) => Ok((x.0, x.1@)),
                    Err(t) => Err(t@),
                },
            ),
        }
    }
}

/// What is to be done next.
#[derive(Debug, Clone, PartialEq, Eq)]
pub enum RedeemAction {
    /// Use the invite up.
    Consume { invite_id: [u8; 16] },
    /// Grant membership and store the roster.
    Grant { redeemer: EndpointId },
    /// Make the receipt for the new member.
    Receipt { redeemer: EndpointId },
    /// Send the receipt.
    Send { frame_type: u8, payload: Vec<u8> },
    /// Send a refusal; the text is for this side.
    Emit(RedeemErrorKind, String),
    /// Close the channel without a word; the text is for this side.
    Silent(String),
}

/// What a [`RedeemAction`] says.
pub enum ActionView {
    Consume { invite_id: Seq<u8> },
    Grant { redeemer: Seq<u8> },
    Receipt { redeemer: Seq<u8> },
    Send { frame_type: u8, payload: Seq<u8> },
    Emit(KindView, Seq<char>),
    Silent(Seq<char>),
}

impl View for RedeemAction {
    type V = ActionView;

    open spec fn view(&self) -> ActionView {
        match self {
            RedeemAction::Consume { invite_id } => ActionView::Consume { invite_id: invite_id@ },
            RedeemAction::Grant { redeemer } => ActionView::Grant { redeemer: redeemer@ },
            RedeemAction::Receipt { redeemer } => ActionView::Receipt { redeemer: redeemer@ },
            RedeemAction::Send { frame_type, payload } => ActionView::Send {
                frame_type: *frame_type,
                payload: payload@,
            },
            RedeemAction::Emit(k, t) => ActionView::Emit(k@, t@),
            RedeemAction::Silent(t) => ActionView::Silent(t@),
        }
    }
}

/// What follows from the outcome of a step. An outcome that is not waited for ends the
/// redemption.
pub open spec fn next(phase: PhaseView, event: EventView) -> (PhaseView, ActionView) {
    match (phase, event) {
        (PhaseView::Check, EventView::ShuttingDown) => (
            PhaseView::Ended,
            ActionView::Silent("fabric is shutting down"@),
        ),
        (PhaseView::Check, EventView::Checked { outcome, invite_id, redeemer }) => match outcome {
            Ok(_) => (PhaseView::Consume { redeemer }, ActionView::Consume { invite_id }),
            Err(e) => (
                PhaseView::Ended,
                match emitted(e) {
                    Some(k) => ActionView::Emit(k, roster_fault_text(e)),
                    None => ActionView::Silent(roster_fault_text(e)),
                },
            ),
        },
        (PhaseView::Consume { redeemer }, EventView::Consumed(outcome)) => match outcome {
            Ok(true) => (PhaseView::Grant { redeemer }, ActionView::Grant { redeemer }),
            Ok(false) => (
                PhaseView::Ended,
                ActionView::Emit(KindView::Consumed, "invite already consumed"@),
            ),
            Err(e) => (PhaseView::Ended, ActionView::Silent(roster_fault_text(e))),
        },
        (PhaseView::Grant { redeemer }, EventView::Granted(outcome)) => match outcome {
            Ok(_) => (PhaseView::Receipt, ActionView::Receipt { redeemer }),
            Err(e) => (
                PhaseView::Ended,
                ActionView::Silent("post-consume grant failed: "@ + roster_fault_text(e)),
            ),
        },
        (PhaseView::Receipt, EventView::Encoded(outcome)) => match outcome {
            Ok(x) => (PhaseView::Ended, ActionView::Send { frame_type: x.0, payload: x.1 }),
            Err(t) => (PhaseView::Ended, ActionView::Silent(t)),
        },
        _ => (PhaseView::Ended, ActionView::Silent("redemption out of step"@)),
    }
}

/// What follows from the outcome of a step.
pub fn redeem_next(phase: RedeemPhase, event: RedeemEvent) -> (r: (RedeemPhase, RedeemAction))
    ensures
        (r.0@, r.1@) == next(phase@, event@),
        // an invite is used up only after a check that passed, and it is the one checked
        r.1@ matches ActionView::Consume { invite_id } ==> {
            &&& phase@ is Check
            &&& event@ matches EventView::Checked { outcome, invite_id: id, redeemer }
                && outcome is Ok && invite_id == id && r.0@ == (PhaseView::Consume { redeemer })
        },
        // membership is granted only where this redemption used the invite up, to the
        // endpoint that was checked
        r.1@ matches ActionView::Grant { redeemer } ==> {
            &&& phase@ == (PhaseView::Consume { redeemer })
            &&& event@ == EventView::Consumed(Ok(true))
            &&& r.0@ == (PhaseView::Grant { redeemer })
        },
        // the receipt is made only after a grant that succeeded
        r.1@ matches ActionView::Receipt { redeemer } ==> {
            &&& phase@ == (PhaseView::Grant { redeemer })
            &&& event@ == EventView::Granted(Ok(()))
            &&& r.0@ is Receipt
        },
        r.1@ is Send ==> phase@ is Receipt && r.0@ is Ended,
        r.1@ is Emit || r.1@ is Silent ==> r.0@ is Ended,
{
    match phase {
        RedeemPhase::Check => match event {
            RedeemEvent::ShuttingDown => (
                RedeemPhase::Ended,
                RedeemAction::Silent("fabric is shutting down".to_owned()),
            ),
            RedeemEvent::Checked { outcome, invite_id, redeemer } => match outcome {
                Ok(_) => (
                    RedeemPhase::Consume { redeemer },
                    RedeemAction::Consume { invite_id },
                ),
                Err(e) => match redeem_verify_emit(&e) {
                    Some(k) => (RedeemPhase::Ended, RedeemAction::Emit(k, e.message())),
                    None => (RedeemPhase::Ended, RedeemAction::Silent(e.message())),
                },
            },
            _ => out_of_step(),
        },
        RedeemPhase::Consume { redeemer } => match event {
            RedeemEvent::Consumed(outcome) => match outcome {
                Ok(fresh) => if fresh {
                    (RedeemPhase::Grant { redeemer }, RedeemAction::Grant { redeemer })
                } else {
                    (
                        RedeemPhase::Ended,
                        RedeemAction::Emit(
                            RedeemErrorKind::Consumed,
                            "invite already consumed".to_owned(),
                        ),
                    )
                },
                Err(e) => (RedeemPhase::Ended, RedeemAction::Silent(e.message())),
            },
            _ => out_of_step(),
        },
        RedeemPhase::Grant { redeemer } => match event {
            RedeemEvent::Granted(outcome) => match outcome {
                Ok(_) => (RedeemPhase::Receipt, RedeemAction::Receipt { redeemer }),
                Err(e) => (
                    RedeemPhase::Ended,
                    RedeemAction::Silent(
                        cat("post-consume grant failed: ", e.message().as_str()),
                    ),
                ),
            },
            _ => out_of_step(),
        },
        RedeemPhase::Receipt => match event {
            RedeemEvent::Encoded(outcome) => match outcome {
                Ok((frame_type, payload)) => (
                    RedeemPhase::Ended,
                    RedeemAction::Send { frame_type, payload },
                ),
                Err(t) => (RedeemPhase::Ended, RedeemAction::Silent(t)),
            },
            _ => out_of_step(),
        },
        RedeemPhase::Ended => out_of_step(),
    }
}

fn out_of_step() -> (r: (RedeemPhase, RedeemAction))
    ensures
        (r.0@, r.1@) == (
            PhaseView::Ended,
            ActionView::Silent("redemption out of step"@),
        ),
{
    (RedeemPhase::Ended, RedeemAction::Silent("redemption out of step".to_owned()))
}

/// The frame that an action sends to the joiner, if it sends one.
pub open spec fn sent(a: ActionView) -> Option<(u8, Seq<u8>)> {
    match a {
        ActionView::Send { frame_type, payload } => Some((frame_type, payload)),
        ActionView::Emit(k, _) => Some(
            (frame_type::REDEEM_ERR, record_bytes(kind_byte_of(k), payload_of(k))),
        ),
        _ => None,
    }
}

/// The frame that an action sends to the joiner, if it sends one: its type and payload.
pub fn redeem_frame(action: &RedeemAction) -> (r: Option<(u8, Vec<u8>)>)
    ensures
        match sent(action@) {
            Some(f) => r is Some && (r->0).0 == f.0 && (r->0).1@ == f.1,
            None => r is None,
        },
{
    match action {
        RedeemAction::Send { frame_type, payload } => Some((*frame_type, payload.clone())),
        RedeemAction::Emit(k, _) => Some((frame_type::REDEEM_ERR, k.encode_record())),
        _ => None,
    }
}

// ---- laws -------------------------------------------------------------------------

/// What a redemption waits for after events, from its beginning.
pub open spec fn phase_after(events: Seq<EventView>) -> PhaseView
    decreases events.len(),
{
    if events.len() == 0 {
        PhaseView::Check
    } else {
        next(phase_after(events.drop_last()), events.last()).0
    }
}

/// Whatever the events of a redemption are, an invite is used up only as the first thing,
/// after a check of it that passed; membership is granted only as the second, after that
/// invite was used up by this redemption, and to the endpoint that was checked; and a
/// receipt is made only as the third, for that endpoint, after the grant succeeded.
pub proof fn redemption_keeps_its_order(events: Seq<EventView>)
    requires
        events.len() > 0,
    ensures
        match next(phase_after(events.drop_last()), events.last()).1 {
            ActionView::Consume { invite_id } => events.len() == 1 && (events[0] matches
                EventView::Checked { outcome, invite_id: id, redeemer } && outcome is Ok && id
                == invite_id),
            ActionView::Grant { redeemer } => {
                &&& events.len() == 2
                &&& events[0] matches EventView::Checked { outcome, invite_id, redeemer: x }
                    && outcome is Ok && x == redeemer
                &&& events[1] == EventView::Consumed(Ok(true))
            },
            ActionView::Receipt { redeemer } => {
                &&& events.len() == 3
                &&& events[0] matches EventView::Checked { outcome, invite_id, redeemer: x }
                    && outcome is Ok && x == redeemer
                &&& events[1] == EventView::Consumed(Ok(true))
                &&& events[2] matches EventView::Granted(outcome) && outcome is Ok
            },
            ActionView::Send { frame_type, payload } => events.len() == 4 && events[3]
                == EventView::Encoded(Ok((frame_type, payload))),
            _ => true,
        },
{
    let before = events.drop_last();
    lemma_phase(before);
    assert(forall|i: int| 0 <= i < before.len() ==> #[trigger] before[i] == events[i]);
}

proof fn lemma_phase(events: Seq<EventView>)
    ensures
        match phase_after(events) {
            PhaseView::Check => events.len() == 0,
            PhaseView::Consume { redeemer } => events.len() == 1 && (events[0] matches
                EventView::Checked { outcome, invite_id, redeemer: x } && outcome is Ok && x
                == redeemer),
            PhaseView::Grant { redeemer } => {
                &&& events.len() == 2
                &&& events[0] matches EventView::Checked { outcome, invite_id, redeemer: x }
                    && outcome is Ok && x == redeemer
                &&& events[1] == EventView::Consumed(Ok(true))
            },
            PhaseView::Receipt => events.len() == 3,
            PhaseView::Ended => true,
        },
    decreases events.len(),
{
    if events.len() > 0 {
        let before = events.drop_last();
        lemma_phase(before);
        assert(forall|i: int| 0 <= i < before.len() ==> #[trigger] before[i] == events[i]);
    }
}

/// A redemption on a roster whose storage does not fail: the roster afterwards, and the last
/// action before a receipt is made. `log` is the log of used invites, `seed` the key of the
/// issuer, and the times are those of the three steps.
pub open spec fn redemption(
    v: RosterView,
    t: AnyTokenView,
    redeemer: Seq<u8>,
    challenge: Seq<u8>,
    signature: Seq<u8>,
    log: Option<Seq<u8>>,
    seed: Seq<u8>,
    checked_ms: u64,
    used_ms: u64,
    granted_ms: u64,
) -> (RosterView, ActionView) {
    let outcome = match redeemed_any(v, t, redeemer, challenge, signature, checked_ms) {
        Ok(_) => Ok(()),
        Err(e) => Err(e),
    };
    let first = next(
        PhaseView::Check,
        EventView::Checked { outcome, invite_id: token_invite_id(t), redeemer },
    );
    match first.1 {
        ActionView::Consume { invite_id } => {
            let known = informed(v, invite_id, log);
            let (w, outcome) = match consuming(v, invite_id, log, used_ms) {
                Ok(Some(_)) => (
                    RosterView { consumed: known.consumed.insert(invite_id), ..known },
                    Ok(true),
                ),
                Ok(None) => (known, Ok(false)),
                Err(e) => (known, Err(e)),
            };
            let second = next(first.0, EventView::Consumed(outcome));
            match second.1 {
                ActionView::Grant { redeemer: subject } => match granting(
                    w,
                    subject,
                    seed,
                    granted_ms,
                ) {
                    Ok(s) => (judged(w, s), next(second.0, EventView::Granted(Ok(()))).1),
                    Err(e) => (w, next(second.0, EventView::Granted(Err(e))).1),
                },
                a => (w, a),
            }
        },
        a => (v, a),
    }
}

/// The grant of membership to an endpoint, without a name or an end.
pub open spec fn granting(v: RosterView, subject: Seq<u8>, seed: Seq<u8>, now_ms: u64) -> Result<
    SignedView,
    RosterFault,
> {
    root_fact(
        v,
        seed,
        grant_fact(v.fabric_id, ed25519_public(seed), subject, None, None, now_ms),
    )
}

/// A redemption that fails the check leaves the roster as it was, and the joiner is sent the
/// refusal for the fault exactly where there is one for it.
pub proof fn failed_check_changes_nothing(
    v: RosterView,
    t: AnyTokenView,
    redeemer: Seq<u8>,
    challenge: Seq<u8>,
    signature: Seq<u8>,
    log: Option<Seq<u8>>,
    seed: Seq<u8>,
    checked_ms: u64,
    used_ms: u64,
    granted_ms: u64,
)
    requires
        redeemed_any(v, t, redeemer, challenge, signature, checked_ms) is Err,
    ensures
        ({
            let e = redeemed_any(v, t, redeemer, challenge, signature, checked_ms)->Err_0;
            let (w, a) = redemption(
                v,
                t,
                redeemer,
                challenge,
                signature,
                log,
                seed,
                checked_ms,
                used_ms,
                granted_ms,
            );
            &&& w == v
            &&& sent(a) == match emitted(e) {
                Some(k) => Some(
                    (frame_type::REDEEM_ERR, record_bytes(kind_byte_of(k), payload_of(k))),
                ),
                None => None,
            }
        }),
{
}

/// A redemption of an invite that has been used changes no fact, and the joiner is told so:
/// the refusal is one record of two zero bytes.
pub proof fn used_invite_grants_nothing(
    v: RosterView,
    t: AnyTokenView,
    redeemer: Seq<u8>,
    challenge: Seq<u8>,
    signature: Seq<u8>,
    log: Option<Seq<u8>>,
    seed: Seq<u8>,
    checked_ms: u64,
    used_ms: u64,
    granted_ms: u64,
)
    requires
        redeemed_any(v, t, redeemer, challenge, signature, checked_ms) is Ok,
        consuming(v, token_invite_id(t), log, used_ms) == Ok::<Option<Seq<u8>>, RosterFault>(None),
    ensures
        ({
            let (w, a) = redemption(
                v,
                t,
                redeemer,
                challenge,
                signature,
                log,
                seed,
                checked_ms,
                used_ms,
                granted_ms,
            );
            &&& w == RosterView { consumed: w.consumed, ..v }
            &&& w.consumed.contains(token_invite_id(t))
            &&& sent(a) == Some((frame_type::REDEEM_ERR, seq![0u8, 0u8]))
        }),
{
    assert(record_bytes(0, Seq::empty()) =~= seq![0u8, 0u8]);
}

/// A redemption that passes the check, of an invite that has not been used, uses the invite
/// up and stores the grant of the redeemer, if the issuer can make it; the joiner is then
/// sent all facts, with the capabilities behind them for a token of the second version.
pub proof fn redeemed_invite_grants_membership(
    v: RosterView,
    t: AnyTokenView,
    redeemer: Seq<u8>,
    challenge: Seq<u8>,
    signature: Seq<u8>,
    log: Option<Seq<u8>>,
    seed: Seq<u8>,
    checked_ms: u64,
    used_ms: u64,
    granted_ms: u64,
    list: Seq<SignedView>,
    caps: Seq<(Seq<char>, Seq<char>)>,
)
    requires
        redeemed_any(v, t, redeemer, challenge, signature, checked_ms) is Ok,
        consuming(v, token_invite_id(t), log, used_ms) is Ok,
        consuming(v, token_invite_id(t), log, used_ms)->Ok_0 is Some,
        lists(
            redemption(
                v,
                t,
                redeemer,
                challenge,
                signature,
                log,
                seed,
                checked_ms,
                used_ms,
                granted_ms,
            ).0.facts,
            list,
        ),
    ensures
        ({
            let (w, a) = redemption(
                v,
                t,
                redeemer,
                challenge,
                signature,
                log,
                seed,
                checked_ms,
                used_ms,
                granted_ms,
            );
            let used = RosterView { consumed: w.consumed, ..v };
            let receipt = receipt_of(t, list, caps);
            &&& w.consumed.contains(token_invite_id(t))
            &&& match granting(used, redeemer, seed, granted_ms) {
                Ok(s) => {
                    &&& s.fact == grant_fact(
                        v.fabric_id,
                        ed25519_public(seed),
                        redeemer,
                        None,
                        None,
                        granted_ms,
                    )
                    &&& w.facts == v.facts.insert(fact_id_of(s.fact), s)
                    &&& a == (ActionView::Receipt { redeemer })
                    &&& sent(next(PhaseView::Receipt, EventView::Encoded(Ok(receipt))).1) == Some(
                        receipt,
                    )
                },
                Err(_) => w == used && sent(a) is None,
            }
        }),
{
    let r = redemption(
        v,
        t,
        redeemer,
        challenge,
        signature,
        log,
        seed,
        checked_ms,
        used_ms,
        granted_ms,
    );
    let id = token_invite_id(t);
    let known = informed(v, id, log);
    let w = RosterView { consumed: known.consumed.insert(id), ..known };
    assert(r.0.consumed == w.consumed);
    assert(w == RosterView { consumed: w.consumed, ..v });
    match granting(w, redeemer, seed, granted_ms) {
        Ok(s) => {
            let f = fact_id_of(s.fact);
            if w.facts.dom().contains(f) {
                assert(w.facts[f] == s);
                assert(v.facts.insert(f, s) =~= v.facts);
            }
        },
        Err(_) => {},
    }
}

} // verus!
