//! Starting and resuming sessions: what each end answers, and what it makes of the answer
//! of the other.
//!
//! The functions take the frame that came in and the state of this end, and give the frame
//! to send and what to do next. Dialing, sending and waiting are the caller's.
use vstd::prelude::*;
use vstd::string::*;

use crate::continuity::frame::{field, type_label, Direction, Frame, FrameType, FrameView};
use crate::continuity::model::JournalLimits;
use crate::continuity::session::control::{
    decided, id16_of, lemma_id16, pending_answers, presented_generation, rotated_to, Id16,
    InstallPolicy, ResumeCtl, ResumeDecision, SessionPhase,
};
use crate::continuity::session::frames::{frame_view, hex8, mk_frame};
use crate::continuity::session::init_reason;
use crate::continuity::session::registry::{
    admitted, attempt_before, buried, lemma_admitted_is_there, lemma_forgotten_wf,
    lemma_reaped_wf, lemma_session_changed, reaped, reaped_from, resume_lookup, terminal,
    AdmissionView, EntryView, InitAdmission, RegistryView, ResumeLookup, SessionRegistry,
};
use crate::continuity::session::reject_reason;
use crate::continuity::session::shared::{summaries_of, SessionShared, SessionView};
use crate::continuity::session::wire::{
    decode_resume_init, decode_resume_ok_full, decode_session_init, decode_session_init_ok,
    decode_session_init_reject, encode_resume_init, encode_resume_ok_full, encode_resume_reject,
    encode_session_init, encode_session_init_ok, encode_session_init_reject, is_zero,
    resume_init_bytes, resume_init_of, resume_ok_bytes, resume_ok_of, resume_ok_roundtrip,
    session_init_bytes, session_init_ok_bytes, session_init_ok_roundtrip,
    session_init_reject_bytes, session_init_reject_roundtrip, summary_fits, u64_at, ResumeInitParsed, ResumeInitView,
    ResumeOkView, StreamSummary, PROTOCOL_VERSION,
};
use crate::continuity::transport::{transport_error_text, TransportError};
use crate::identity::EndpointId;
use crate::octets::{all_zero, bytes_eq, bytes_less};
use crate::session::{connect_err, connect_error, FabricError};
use crate::table::{
    has_key, key_index, lemma_key_index, lookup, value_of, with_value, without_key, NameTable,
};
use crate::text::{cat, cat3, decimal, decimal_text, hex_chars, hex_number, hex_number_text};

verus! {

/// Attempts to start or resume a session before giving up.
pub const CONVERGENCE_RETRY: usize = 3;

/// How a session is to be kept.
#[derive(Debug, Clone, Copy, PartialEq, Eq, Structural)]
pub struct SessionOptions {
    /// Bounds of what is kept until the peer has acknowledged it.
    pub limits: JournalLimits,
}

impl Default for SessionOptions {
    fn default() -> (r: Self)
        ensures
            r.limits == (JournalLimits {
                max_session_bytes: 8_388_608,
                max_stream_bytes: 2_097_152,
                max_segments: 512,
                max_session_segments: 4096,
            }),
    {
        SessionOptions { limits: JournalLimits::default() }
    }
}

/// The session that this node is starting with each peer.
pub type CampaignMap = NameTable<Id16>;

// ---- errors -----------------------------------------------------------------------

/// A failure that another attempt may overcome, or one that stands.
#[derive(Debug)]
pub enum TryAgain {
    Transport(FabricError),
    Definitive(FabricError),
}

/// A broken transport as an error of the fabric.
pub fn map_transport_err(e: TransportError) -> (r: FabricError)
    ensures
        connect_error(r, transport_error_text(e)),
{
    connect_err(e.message())
}

/// A broken transport as a failure to try again.
pub fn map_transport_err_try(e: TransportError) -> (r: TryAgain)
    ensures
        match r {
            TryAgain::Transport(x) => connect_error(x, transport_error_text(e)),
            _ => false,
        },
{
    TryAgain::Transport(map_transport_err(e))
}

/// An error on a channel as a failure to try again.
pub fn map_fabric_err_try(e: FabricError) -> (r: TryAgain)
    ensures
        r == TryAgain::Transport(e),
{
    TryAgain::Transport(e)
}

/// A handshake that took too long.
pub fn timeout_err(what: &str) -> (r: FabricError)
    ensures
        connect_error(r, what@ + " handshake timeout"@),
{
    connect_err(cat(what, " handshake timeout"))
}

/// No randomness for ids and tokens.
pub fn entropy_err() -> (r: FabricError)
    ensures
        connect_error(r, "entropy unavailable"@),
{
    connect_err("entropy unavailable".to_owned())
}

/// The transport lost to a channel that is alive.
pub fn channel_superseded_err() -> (r: FabricError)
    ensures
        connect_error(r, "transport superseded by live channel"@),
{
    connect_err("transport superseded by live channel".to_owned())
}

/// What to do after a failed attempt.
#[derive(Debug)]
pub enum RetryStep {
    /// Wait and try again.
    Again,
    /// Give up with this error.
    GiveUp(FabricError),
}

/// Whether a failed attempt is followed by another: a failure that stands is final, and so
/// is the last attempt. `made` counts the attempts, this one included.
pub fn after_failure(made: usize, failure: TryAgain) -> (r: RetryStep)
    ensures
        r == match failure {
            TryAgain::Definitive(e) => RetryStep::GiveUp(e),
            TryAgain::Transport(e) => if made < CONVERGENCE_RETRY {
                RetryStep::Again
            } else {
                RetryStep::GiveUp(e)
            },
        },
{
    match failure {
        TryAgain::Definitive(e) => RetryStep::GiveUp(e),
        TryAgain::Transport(e) => if made < CONVERGENCE_RETRY {
            RetryStep::Again
        } else {
            RetryStep::GiveUp(e)
        },
    }
}

/// What a caller does who shares the session that another caller is starting.
#[derive(Debug)]
pub enum WaitStep {
    /// The session has a channel.
    Ready,
    /// Look again later.
    Wait,
    /// Give up with this error.
    GiveUp(FabricError),
}

/// Whether a caller goes on waiting for the session of another caller.
pub fn wait_for_existing_session(has_channel: bool, phase: SessionPhase, late: bool) -> (r: WaitStep)
    ensures
        match r {
            WaitStep::Ready => has_channel,
            WaitStep::Wait => !has_channel && phase != SessionPhase::Dead && phase
                != SessionPhase::Closed && !late,
            WaitStep::GiveUp(e) => !has_channel && if phase == SessionPhase::Dead || phase
                == SessionPhase::Closed {
                connect_error(e, "concurrent session owner terminated; retry to open"@)
            } else {
                late && connect_error(e, "existing session negotiation timeout"@)
            },
        },
{
    if has_channel {
        return WaitStep::Ready;
    }
    if phase == SessionPhase::Dead || phase == SessionPhase::Closed {
        return WaitStep::GiveUp(
            connect_err("concurrent session owner terminated; retry to open".to_owned()),
        );
    }
    if late {
        return WaitStep::GiveUp(connect_err("existing session negotiation timeout".to_owned()));
    }
    WaitStep::Wait
}

/// Whether a node goes on waiting for the session that the peer says it has: `observed` says
/// that this node has it with a channel.
pub fn adopt_session(observed: bool, late: bool, canonical: &Id16) -> (r: WaitStep)
    ensures
        match r {
            WaitStep::Ready => observed,
            WaitStep::Wait => !observed && !late,
            WaitStep::GiveUp(e) => !observed && late && connect_error(
                e,
                "canonical session "@ + hex_chars(canonical@.subrange(0, 4))
                    + " not observed locally"@,
            ),
        },
{
    if observed {
        return WaitStep::Ready;
    }
    if late {
        return WaitStep::GiveUp(
            connect_err(
                cat3("canonical session ", hex8(canonical).as_str(), " not observed locally"),
            ),
        );
    }
    WaitStep::Wait
}

/// What the first frame of an accepted stream asks for.
#[derive(Debug)]
pub enum FirstFrame {
    /// To start a session.
    Init,
    /// To resume one.
    Resume,
    /// Nothing that may come first.
    Unexpected(FabricError),
}

/// Decides on the first frame of an accepted stream.
pub fn on_first_frame(frame_type: FrameType) -> (r: FirstFrame)
    ensures
        match r {
            FirstFrame::Init => frame_type == FrameType::SessionInit,
            FirstFrame::Resume => frame_type == FrameType::ResumeInit,
            FirstFrame::Unexpected(e) => frame_type != FrameType::SessionInit && frame_type
                != FrameType::ResumeInit && connect_error(
                e,
                "unexpected first frame "@ + type_label(frame_type),
            ),
        },
{
    match frame_type {
        FrameType::SessionInit => FirstFrame::Init,
        FrameType::ResumeInit => FirstFrame::Resume,
        other => FirstFrame::Unexpected(
            connect_err(cat("unexpected first frame ", other.name())),
        ),
    }
}

/// Withdraws an attempt, unless another has taken its place.
pub fn cleanup_campaign(campaigns: &mut CampaignMap, peer_id: &str, session_id: &Id16)
    requires
        old(campaigns).wf(),
    ensures
        final(campaigns).wf(),
        final(campaigns).view() == if lookup(old(campaigns).view(), peer_id@) == Some(session_id@) {
            without_key(old(campaigns).view(), peer_id@)
        } else {
            old(campaigns).view()
        },
{
    let mine = match campaigns.find(peer_id) {
        Some(i) => bytes_eq(campaigns.at(i), session_id),
        None => false,
    };
    if mine {
        let _ = campaigns.remove(peer_id);
    }
}

// ---- starting a session: client ---------------------------------------------------

/// The frame that asks for a new session.
pub open spec fn start_request(sid: Seq<u8>, token: Seq<u8>) -> FrameView {
    frame_view(
        FrameType::SessionInit,
        0,
        sid,
        0,
        Direction::ClientToProvider,
        0,
        session_init_bytes(sid, token, 1),
    )
}

/// The SESSION_INIT frame of an attempt.
pub fn session_init_frame(session_id: Id16, token: &Id16) -> (r: Frame)
    ensures
        r@ == start_request(session_id@, token@),
{
    let payload = encode_session_init(&session_id, token, 1);
    mk_frame(FrameType::SessionInit, 0, session_id, 0, Direction::ClientToProvider, 0, payload)
}

/// What the answer to SESSION_INIT means.
#[derive(Debug)]
pub enum OpenStep {
    /// The session is established.
    Established,
    /// The peer has this session already: adopt it.
    Adopt(Id16),
    /// The session was refused, or the answer is not acceptable.
    Failed(FabricError),
}

/// What an [`OpenStep`] says.
pub enum OpenStepView {
    Established,
    Adopt(Seq<u8>),
    Failed(Seq<char>),
}

/// The step says what the view says.
pub open spec fn open_step_is(r: OpenStep, v: OpenStepView) -> bool {
    match (r, v) {
        (OpenStep::Established, OpenStepView::Established) => true,
        (OpenStep::Adopt(id), OpenStepView::Adopt(x)) => id@ == x,
        (OpenStep::Failed(e), OpenStepView::Failed(t)) => connect_error(e, t),
        _ => false,
    }
}

/// The first byte of a payload, 0 where there is none.
pub open spec fn first_byte(p: Seq<u8>) -> u8 {
    if p.len() > 0 {
        p[0]
    } else {
        0
    }
}

pub open spec fn open_answer(f: FrameView, session_id: Seq<u8>) -> OpenStepView {
    let p = f.payload;
    match f.frame_type {
        FrameType::SessionInitOk => if f.session_id != session_id {
            OpenStepView::Failed("SESSION_INIT_OK header sid mismatch"@)
        } else if p.len() != 32 {
            OpenStepView::Failed("malformed SESSION_INIT_OK"@)
        } else if field(p, 0, 16) != session_id {
            OpenStepView::Failed("SESSION_INIT_OK sid mismatch"@)
        } else {
            OpenStepView::Established
        },
        FrameType::SessionInitReject => if f.session_id != session_id {
            OpenStepView::Failed("SESSION_INIT_REJECT header sid mismatch"@)
        } else if p.len() == 33 && p[0] == init_reason::ALREADY_ACTIVE && !is_zero(
            field(p, 1, 16),
        ) && field(p, 1, 16) != session_id {
            OpenStepView::Adopt(field(p, 1, 16))
        } else if p.len() == 33 && (p[0] == init_reason::MALFORMED || p[0]
            == init_reason::POLICY_DENIED) {
            OpenStepView::Failed("session init rejected: reason=0x"@ + hex_number(p[0] as nat))
        } else {
            OpenStepView::Failed("session init rejected: reason="@ + decimal(first_byte(p) as nat))
        },
        _ => OpenStepView::Failed("unexpected frame "@ + type_label(f.frame_type)),
    }
}

/// Takes the answer to SESSION_INIT.
pub fn on_init_response(resp: &Frame, session_id: &Id16) -> (r: OpenStep)
    ensures
        open_step_is(r, open_answer(resp@, session_id@)),
{
    match resp.frame_type {
        FrameType::SessionInitOk => {
            if !bytes_eq(&resp.session_id, session_id) {
                return OpenStep::Failed(
                    connect_err("SESSION_INIT_OK header sid mismatch".to_owned()),
                );
            }
            match decode_session_init_ok(resp.payload.as_slice()) {
                None => OpenStep::Failed(connect_err("malformed SESSION_INIT_OK".to_owned())),
                Some((echo, _, _)) => if bytes_eq(&echo, session_id) {
                    OpenStep::Established
                } else {
                    OpenStep::Failed(connect_err("SESSION_INIT_OK sid mismatch".to_owned()))
                },
            }
        },
        FrameType::SessionInitReject => {
            if !bytes_eq(&resp.session_id, session_id) {
                return OpenStep::Failed(
                    connect_err("SESSION_INIT_REJECT header sid mismatch".to_owned()),
                );
            }
            if let Some((reason, canonical, _, _)) = decode_session_init_reject(
                resp.payload.as_slice(),
            ) {
                if reason == init_reason::ALREADY_ACTIVE && !all_zero(&canonical) && !bytes_eq(
                    &canonical,
                    session_id,
                ) {
                    return OpenStep::Adopt(canonical);
                }
                if reason == init_reason::MALFORMED || reason == init_reason::POLICY_DENIED {
                    let code = hex_number_text(reason as u64);
                    return OpenStep::Failed(
                        connect_err(cat("session init rejected: reason=0x", code.as_str())),
                    );
                }
            }
            let first: u8 = if resp.payload.len() > 0 { resp.payload[0] } else { 0 };
            let code = decimal_text(first as u64);
            OpenStep::Failed(connect_err(cat("session init rejected: reason=", code.as_str())))
        },
        other => OpenStep::Failed(connect_err(cat("unexpected frame ", other.name()))),
    }
}

// ---- starting a session: provider -------------------------------------------------

/// The answer to SESSION_INIT.
#[derive(Debug)]
pub enum InitReply {
    /// Send the frame, close the stream and report the error.
    Rejected { reply: Frame, error: FabricError },
    /// The peer id is not that of an endpoint.
    BadPeer,
    /// Send the frame; then the session is active if it is fresh, and takes this stream by
    /// the policy.
    Accepted { reply: Frame, session_id: Id16, fresh: bool, policy: InstallPolicy },
}

/// What an [`InitReply`] says.
pub enum InitReplyView {
    Rejected { reply: FrameView, error: Seq<char> },
    BadPeer,
    Accepted { reply: FrameView, session_id: Seq<u8>, fresh: bool, policy: InstallPolicy },
}

/// The reply says what the view says.
pub open spec fn init_reply_is(r: InitReply, v: InitReplyView) -> bool {
    match (r, v) {
        (
            InitReply::Rejected { reply, error },
            InitReplyView::Rejected { reply: f, error: t },
        ) => reply@ == f && connect_error(error, t),
        (InitReply::BadPeer, InitReplyView::BadPeer) => true,
        (
            InitReply::Accepted { reply, session_id, fresh, policy },
            InitReplyView::Accepted { reply: f, session_id: id, fresh: x, policy: p },
        ) => reply@ == f && session_id@ == id && fresh == x && policy == p,
        _ => false,
    }
}

/// A session as a refusal names it: id, epoch of its channel, generation of its token.
pub open spec fn canonical_triple(s: Option<SessionView>) -> (Seq<u8>, u64, u64) {
    match s {
        Some(x) => (x.session_id@, x.ctl.active_epoch, x.ctl.tokens.current.0),
        None => (Seq::new(16, |i: int| 0u8), 0, 0),
    }
}

pub open spec fn init_reject_view(sid: Seq<u8>, reason: u8, s: Option<SessionView>) -> FrameView {
    let (id, epoch, generation) = canonical_triple(s);
    frame_view(
        FrameType::SessionInitReject,
        0,
        sid,
        0,
        Direction::ProviderToClient,
        0,
        session_init_reject_bytes(reason, id, epoch, generation),
    )
}

/// The session of an entry, if the entry is there.
pub open spec fn session_of(r: RegistryView, sid: Seq<u8>) -> Option<SessionView> {
    match lookup(r.sessions, sid) {
        Some(e) => Some(e.session),
        None => None,
    }
}

pub open spec fn rejected_init(sid: Seq<u8>, reason: u8, s: Option<SessionView>, error: Seq<char>) -> InitReplyView {
    InitReplyView::Rejected { reply: init_reject_view(sid, reason, s), error }
}

/// The answer to an attempt whose fields are in order and that no attempt of this node
/// stands against.
pub open spec fn admission_reply(
    r: RegistryView,
    a: AdmissionView,
    sid: Seq<u8>,
    transport_epoch: u64,
) -> InitReplyView {
    let accepted = |fresh: bool|
        InitReplyView::Accepted {
            reply: frame_view(
                FrameType::SessionInitOk,
                0,
                sid,
                0,
                Direction::ProviderToClient,
                0,
                session_init_ok_bytes(
                    sid,
                    transport_epoch,
                    value_of(r.sessions, sid).session.ctl.tokens.current.0,
                ),
            ),
            session_id: sid,
            fresh,
            policy: if fresh {
                InstallPolicy::Force
            } else {
                InstallPolicy::IfVacant
            },
        };
    match a {
        AdmissionView::Admitted { fresh } => accepted(fresh),
        AdmissionView::Replaced(_) => accepted(true),
        AdmissionView::Canonical(c) => rejected_init(
            sid,
            init_reason::ALREADY_ACTIVE,
            session_of(r, c),
            "session init rejected: ALREADY_ACTIVE"@,
        ),
        AdmissionView::PeerMismatch => rejected_init(
            sid,
            init_reason::POLICY_DENIED,
            None,
            "session init rejected: POLICY_DENIED (peer mismatch)"@,
        ),
        AdmissionView::TokenMismatch => rejected_init(
            sid,
            init_reason::MALFORMED,
            None,
            "session init rejected: MALFORMED"@,
        ),
        AdmissionView::TokenRevoked => rejected_init(
            sid,
            init_reason::MALFORMED,
            None,
            "session init rejected: revoked session"@,
        ),
    }
}

/// An attempt of this node with the same peer stands against another one: it is active, or
/// it comes first in the order of attempts.
pub open spec fn campaign_stands(
    r: RegistryView,
    campaign: Seq<u8>,
    local: Seq<u8>,
    sid: Seq<u8>,
    incoming: Seq<u8>,
) -> bool {
    ||| match session_of(r, campaign) {
        Some(s) => s.ctl.phase != SessionPhase::Negotiating,
        None => false,
    }
    ||| !attempt_before(incoming, sid, local, campaign)
}

/// The fields of a SESSION_INIT that must not be zero, and the id that must be that of the
/// frame.
pub open spec fn init_fields_ok(f: FrameView) -> bool {
    let p = f.payload;
    &&& field(p, 1, 16) == f.session_id
    &&& !is_zero(field(p, 1, 16))
    &&& !is_zero(field(p, 17, 16))
    &&& u64_at(p, 33) != 0
}

/// The answer to SESSION_INIT, and the sessions and attempts after it.
pub open spec fn init_answer(
    r: RegistryView,
    campaigns: Seq<(Seq<char>, Seq<u8>)>,
    peer: Seq<char>,
    incoming: Option<Seq<u8>>,
    local: Seq<u8>,
    f: FrameView,
    transport_epoch: u64,
    limits: JournalLimits,
) -> (RegistryView, Seq<(Seq<char>, Seq<u8>)>, InitReplyView) {
    let sid = id16_of(field(f.payload, 1, 16));
    let token = id16_of(field(f.payload, 17, 16));
    if f.payload.len() != 41 || f.payload[0] != PROTOCOL_VERSION {
        (
            r,
            campaigns,
            rejected_init(
                f.session_id,
                init_reason::MALFORMED,
                None,
                "malformed SESSION_INIT"@,
            ),
        )
    } else if !init_fields_ok(f) {
        (
            r,
            campaigns,
            rejected_init(
                f.session_id,
                init_reason::MALFORMED,
                None,
                "malformed SESSION_INIT identity fields"@,
            ),
        )
    } else if incoming is None {
        (r, campaigns, InitReplyView::BadPeer)
    } else {
        let id = incoming->0;
        match lookup(campaigns, peer) {
            Some(c) => if c == sid@ {
                let (r2, a) = admitted(r, sid, token, peer, id, limits);
                (r2, campaigns, admission_reply(r2, a, sid@, transport_epoch))
            } else if campaign_stands(reaped(r), c, local, sid@, id) {
                (
                    reaped(r),
                    campaigns,
                    rejected_init(
                        sid@,
                        init_reason::ALREADY_ACTIVE,
                        session_of(reaped(r), c),
                        "session init rejected: ALREADY_ACTIVE"@,
                    ),
                )
            } else {
                let (r2, a) = admitted(reaped(r), sid, token, peer, id, limits);
                (
                    r2,
                    without_key(campaigns, peer),
                    admission_reply(r2, a, sid@, transport_epoch),
                )
            },
            None => {
                let (r2, a) = admitted(r, sid, token, peer, id, limits);
                (r2, campaigns, admission_reply(r2, a, sid@, transport_epoch))
            },
        }
    }
}

/// The refusal of a SESSION_INIT.
fn init_reject_frame(sid: Id16, reason: u8, canonical: Option<&SessionShared>) -> (r: Frame)
    ensures
        r@ == init_reject_view(
            sid@,
            reason,
            match canonical {
                Some(s) => Some(s.view()),
                None => None,
            },
        ),
{
    let payload = match canonical {
        Some(s) => {
            let id = s.session_id();
            encode_session_init_reject(reason, &id, s.debug_active_epoch(), s.current_generation())
        },
        None => {
            let zero: Id16 = [0u8; 16];
            assert(zero@ =~= Seq::new(16, |i: int| 0u8));
            encode_session_init_reject(reason, &zero, 0, 0)
        },
    };
    mk_frame(FrameType::SessionInitReject, 0, sid, 0, Direction::ProviderToClient, 0, payload)
}

fn reject_init(sid: Id16, reason: u8, text: &str) -> (r: InitReply)
    ensures
        init_reply_is(r, rejected_init(sid@, reason, None, text@)),
{
    InitReply::Rejected {
        reply: init_reject_frame(sid, reason, None),
        error: connect_err(text.to_owned()),
    }
}

/// Takes a SESSION_INIT of a peer. `incoming` is the endpoint of the peer and `local` that
/// of this node; the stream came on a connection of the given epoch.
pub fn accept_session_init(
    registry: &mut SessionRegistry,
    campaigns: &mut CampaignMap,
    peer_id: &str,
    incoming: Option<EndpointId>,
    local: &EndpointId,
    init: &Frame,
    transport_epoch: u64,
    limits: JournalLimits,
) -> (r: InitReply)
    requires
        old(registry).wf(),
        old(campaigns).wf(),
    ensures
        final(registry).wf(),
        final(campaigns).wf(),
        ({
            let (reg, camp, reply) = init_answer(
                old(registry).view(),
                old(campaigns).view(),
                peer_id@,
                match incoming {
                    Some(x) => Some(x@),
                    None => None,
                },
                local@,
                init@,
                transport_epoch,
                limits,
            );
            &&& final(registry).view() == reg
            &&& final(campaigns).view() == camp
            &&& init_reply_is(r, reply)
        }),
{
    let (sid, token, epoch) = match decode_session_init(init.payload.as_slice()) {
        Some(x) => x,
        None => {
            return reject_init(init.session_id, init_reason::MALFORMED, "malformed SESSION_INIT");
        },
    };
    proof {
        lemma_id16(sid, sid);
        lemma_id16(token, token);
    }
    if !bytes_eq(&sid, &init.session_id) || all_zero(&sid) || all_zero(&token) || epoch == 0 {
        return reject_init(
            init.session_id,
            init_reason::MALFORMED,
            "malformed SESSION_INIT identity fields",
        );
    }
    let id = match incoming {
        Some(x) => x,
        None => return InitReply::BadPeer,
    };
    let mut against: Option<Id16> = None;
    if let Some(i) = campaigns.find(peer_id) {
        let c = *campaigns.at(i);
        if !bytes_eq(&c, &sid) {
            against = Some(c);
        }
    }
    if let Some(c) = against {
        let incoming_wins = id.before(local) || (id.same(local) && bytes_less(&sid, &c));
        let canonical = registry.get(&c);
        let active = match canonical {
            Some(s) => s.phase() != SessionPhase::Negotiating,
            None => false,
        };
        if active || !incoming_wins {
            return InitReply::Rejected {
                reply: init_reject_frame(sid, init_reason::ALREADY_ACTIVE, canonical),
                error: connect_err("session init rejected: ALREADY_ACTIVE".to_owned()),
            };
        }
        let _ = campaigns.remove(peer_id);
    }
    proof {
        lemma_admitted_is_there(registry.view(), sid, token, peer_id@, id@, limits);
    }
    let admission = registry.admit_init_ordered(sid, token, peer_id.to_owned(), id, limits);
    let fresh = match admission {
        InitAdmission::Admitted { fresh } => fresh,
        InitAdmission::Replaced(_) => true,
        InitAdmission::Canonical(c) => {
            let canonical = registry.peek(&c);
            return InitReply::Rejected {
                reply: init_reject_frame(sid, init_reason::ALREADY_ACTIVE, canonical),
                error: connect_err("session init rejected: ALREADY_ACTIVE".to_owned()),
            };
        },
        InitAdmission::PeerMismatch => {
            return reject_init(
                sid,
                init_reason::POLICY_DENIED,
                "session init rejected: POLICY_DENIED (peer mismatch)",
            );
        },
        InitAdmission::TokenMismatch => {
            return reject_init(
                sid,
                init_reason::MALFORMED,
                "session init rejected: MALFORMED",
            );
        },
        InitAdmission::TokenRevoked => {
            return reject_init(
                sid,
                init_reason::MALFORMED,
                "session init rejected: revoked session",
            );
        },
    };
    let generation: u64 = match registry.peek(&sid) {
        Some(s) => s.current_generation(),
        None => 0,
    };
    let payload = encode_session_init_ok(&sid, transport_epoch, generation);
    InitReply::Accepted {
        reply: mk_frame(
            FrameType::SessionInitOk,
            0,
            sid,
            0,
            Direction::ProviderToClient,
            0,
            payload,
        ),
        session_id: sid,
        fresh,
        policy: if fresh { InstallPolicy::Force } else { InstallPolicy::IfVacant },
    }
}

// ---- resuming a session: provider -------------------------------------------------

/// The answer to RESUME_INIT.
#[derive(Debug)]
pub enum ResumeReply {
    /// Send the frame, finish the stream where asked, and report the error.
    Rejected { reply: Frame, finish: bool, error: FabricError },
    /// There was no randomness for a new token.
    NoEntropy(FabricError),
    /// Send the frame; then take the reports of the peer, install this stream by the policy
    /// for the decision, replay, and set the session active unless the decision is cached.
    Accepted {
        reply: Frame,
        session_id: Id16,
        decision: ResumeDecision,
        policy: InstallPolicy,
        reports: Vec<StreamSummary>,
    },
}

/// What a [`ResumeReply`] says.
pub enum ResumeReplyView {
    Rejected { reply: FrameView, finish: bool, error: Seq<char> },
    NoEntropy,
    Accepted {
        reply: FrameView,
        session_id: Seq<u8>,
        decision: ResumeDecision,
        policy: InstallPolicy,
        reports: Seq<StreamSummary>,
    },
}

/// The reply says what the view says.
pub open spec fn resume_reply_is(r: ResumeReply, v: ResumeReplyView) -> bool {
    match (r, v) {
        (
            ResumeReply::Rejected { reply, finish, error },
            ResumeReplyView::Rejected { reply: f, finish: x, error: t },
        ) => reply@ == f && finish == x && connect_error(error, t),
        (ResumeReply::NoEntropy(e), ResumeReplyView::NoEntropy) => connect_error(
            e,
            "entropy unavailable"@,
        ),
        (
            ResumeReply::Accepted { reply, session_id, decision, policy, reports },
            ResumeReplyView::Accepted {
                reply: f,
                session_id: id,
                decision: d,
                policy: p,
                reports: x,
            },
        ) => reply@ == f && session_id@ == id && decision == d && policy == p && reports@ == x,
        _ => false,
    }
}

pub open spec fn resume_reject_view(sid: Seq<u8>, reason: u8) -> FrameView {
    frame_view(
        FrameType::ResumeReject,
        0,
        sid,
        0,
        Direction::ProviderToClient,
        0,
        seq![reason],
    )
}

pub open spec fn rejected_resume(sid: Seq<u8>, reason: u8, finish: bool, error: Seq<char>) -> ResumeReplyView {
    ResumeReplyView::Rejected { reply: resume_reject_view(sid, reason), finish, error }
}

/// The request was refused because the peer has since used a later connection.
pub open spec fn resume_is_stale(
    ctl: ResumeCtl,
    nonce: Id16,
    generation: u64,
    token: Id16,
    remote_epoch: u64,
) -> bool {
    let presented = match presented_generation(ctl, generation, token, remote_epoch) {
        Some(g) => g,
        None => generation,
    };
    &&& !pending_answers(ctl, nonce, Some(presented), token, remote_epoch)
    &&& remote_epoch != 0
    &&& remote_epoch < ctl.last_seen_remote_epoch
}

/// The answer to a resume request for a session that is there, and the session after it.
pub open spec fn resume_decision_reply(
    s: SessionView,
    q: ResumeInitView,
    transport_epoch: u64,
    new_token: Id16,
) -> (SessionView, ResumeReplyView) {
    let sid = s.session_id@;
    let nonce = id16_of(q.nonce);
    let token = id16_of(q.token);
    let epoch = q.local_connection_epoch;
    let (ctl, decision) = decided(s.ctl, nonce, epoch, token, new_token, epoch);
    match decision {
        None => {
            let reason = if resume_is_stale(s.ctl, nonce, epoch, token, epoch) {
                reject_reason::STALE_EPOCH
            } else {
                reject_reason::TOKEN_INVALID
            };
            (
                s,
                rejected_resume(
                    sid,
                    reason,
                    true,
                    "resume rejected: reason=0x"@ + hex_number(reason as nat),
                ),
            )
        },
        Some(d) => {
            let s2 = SessionView { ctl, ..s };
            (
                s2,
                ResumeReplyView::Accepted {
                    reply: frame_view(
                        FrameType::ResumeOk,
                        0,
                        sid,
                        0,
                        Direction::ProviderToClient,
                        0,
                        resume_ok_bytes(
                            ResumeOkView {
                                accepted_session_id: sid,
                                accepted_epoch: transport_epoch,
                                peer_epoch: epoch,
                                new_generation: d.result_generation,
                                new_resume_token: d.result_token@,
                                status_flags: 0,
                                replay_summaries: summaries_of(s2),
                            },
                        ),
                    ),
                    session_id: sid,
                    decision: d,
                    policy: if d.cached {
                        InstallPolicy::IfVacant
                    } else {
                        InstallPolicy::Force
                    },
                    reports: q.summaries,
                },
            )
        },
    }
}

/// The registry with a session changed.
pub open spec fn with_changed(r: RegistryView, sid: Seq<u8>, s: SessionView) -> RegistryView {
    RegistryView {
        sessions: with_value(
            r.sessions,
            sid,
            EntryView { session: s, ..value_of(r.sessions, sid) },
        ),
        ..r
    }
}

/// The answer to RESUME_INIT, and the sessions after it.
pub open spec fn resume_answer(
    before: RegistryView,
    f: FrameView,
    transport_epoch: u64,
    new_token: Option<Id16>,
) -> (RegistryView, ResumeReplyView) {
    let sid = f.session_id;
    let r = reaped(before);
    if is_zero(sid) {
        (
            before,
            rejected_resume(
                sid,
                reject_reason::TOKEN_INVALID,
                true,
                "resume rejected: zero session id"@,
            ),
        )
    } else if resume_init_of(f.payload) is None {
        (
            before,
            rejected_resume(
                sid,
                reject_reason::VERSION_UNSUPPORTED,
                false,
                "resume rejected: malformed RESUME_INIT"@,
            ),
        )
    } else {
        let q = resume_init_of(f.payload)->0;
        match resume_lookup(r, sid) {
            ResumeLookup::Revoked => (
                r,
                rejected_resume(
                    sid,
                    reject_reason::TOKEN_REVOKED,
                    true,
                    "resume rejected: TOKEN_REVOKED"@,
                ),
            ),
            ResumeLookup::Missing => (
                r,
                rejected_resume(
                    sid,
                    reject_reason::REQUEST_STATE_LOST,
                    true,
                    "resume rejected: REQUEST_STATE_LOST"@,
                ),
            ),
            ResumeLookup::Active => if q.last_seen_remote_epoch > transport_epoch {
                (
                    r,
                    rejected_resume(
                        sid,
                        reject_reason::STALE_EPOCH,
                        true,
                        "resume rejected: STALE_EPOCH (peer saw future epoch)"@,
                    ),
                )
            } else {
                match new_token {
                    None => (r, ResumeReplyView::NoEntropy),
                    Some(t) => {
                        let (s2, reply) = resume_decision_reply(
                            value_of(r.sessions, sid).session,
                            q,
                            transport_epoch,
                            t,
                        );
                        (with_changed(r, sid, s2), reply)
                    },
                }
            },
        }
    }
}

/// The session, if it is there, can still take a next generation of credentials.
pub open spec fn generations_left(r: RegistryView, sid: Seq<u8>) -> bool {
    forall|i: int|
        0 <= i < r.sessions.len() && (#[trigger] r.sessions[i]).0 == sid
            ==> r.sessions[i].1.session.ctl.tokens.current.0 < u64::MAX
}

proof fn lemma_reaped_generations(r: RegistryView, i: int, id: Seq<u8>)
    requires
        r.wf(),
        0 <= i,
        generations_left(r, id),
    ensures
        generations_left(reaped_from(r, i), id),
    decreases r.sessions.len() - i,
{
    if i < r.sessions.len() {
        if terminal(r.sessions[i].1.session.ctl.phase) {
            let sid = r.sessions[i].0;
            lemma_key_index(r.sessions, i);
            lemma_forgotten_wf(r, sid);
            let b = buried(r, sid);
            assert forall|k: int|
                0 <= k < b.sessions.len() && (#[trigger] b.sessions[k]).0
                    == id implies b.sessions[k].1.session.ctl.tokens.current.0 < u64::MAX by {
                let at = key_index(r.sessions, sid);
                let m = if k < at {
                    k
                } else {
                    k + 1
                };
                assert(b.sessions[k] == r.sessions[m]);
            }
            lemma_reaped_generations(b, i, id);
        } else {
            lemma_reaped_generations(r, i + 1, id);
        }
    }
}

fn reject_resume(sid: Id16, reason: u8, finish: bool, text: String) -> (r: ResumeReply)
    ensures
        resume_reply_is(r, rejected_resume(sid@, reason, finish, text@)),
{
    ResumeReply::Rejected {
        reply: mk_frame(
            FrameType::ResumeReject,
            0,
            sid,
            0,
            Direction::ProviderToClient,
            0,
            encode_resume_reject(reason),
        ),
        finish,
        error: connect_err(text),
    }
}

/// Takes a RESUME_INIT of a peer. `new_token` is a fresh random token, if there is one; the
/// stream came on a connection of the given epoch.
pub fn accept_resume(
    registry: &mut SessionRegistry,
    resume: &Frame,
    transport_epoch: u64,
    new_token: Option<Id16>,
) -> (r: ResumeReply)
    requires
        old(registry).wf(),
        generations_left(old(registry).view(), resume@.session_id),
    ensures
        final(registry).wf(),
        ({
            let (reg, reply) = resume_answer(
                old(registry).view(),
                resume@,
                transport_epoch,
                new_token,
            );
            &&& final(registry).view() == reg
            &&& resume_reply_is(r, reply)
        }),
{
    let sid = resume.session_id;
    if all_zero(&sid) {
        return reject_resume(
            sid,
            reject_reason::TOKEN_INVALID,
            true,
            "resume rejected: zero session id".to_owned(),
        );
    }
    let parsed = match decode_resume_init(resume.payload.as_slice()) {
        Some(p) => p,
        None => {
            return reject_resume(
                sid,
                reject_reason::VERSION_UNSUPPORTED,
                false,
                "resume rejected: malformed RESUME_INIT".to_owned(),
            );
        },
    };
    proof {
        lemma_reaped_wf(registry.view(), 0);
        lemma_reaped_generations(registry.view(), 0, sid@);
    }
    match registry.lookup_resume(&sid) {
        ResumeLookup::Active => {},
        ResumeLookup::Revoked => {
            return reject_resume(
                sid,
                reject_reason::TOKEN_REVOKED,
                true,
                "resume rejected: TOKEN_REVOKED".to_owned(),
            );
        },
        ResumeLookup::Missing => {
            return reject_resume(
                sid,
                reject_reason::REQUEST_STATE_LOST,
                true,
                "resume rejected: REQUEST_STATE_LOST".to_owned(),
            );
        },
    }
    if parsed.last_seen_remote_epoch > transport_epoch {
        return reject_resume(
            sid,
            reject_reason::STALE_EPOCH,
            true,
            "resume rejected: STALE_EPOCH (peer saw future epoch)".to_owned(),
        );
    }
    let token = match new_token {
        Some(t) => t,
        None => return ResumeReply::NoEntropy(entropy_err()),
    };
    let ghost r1 = registry.view();
    proof {
        let at = key_index(r1.sessions, sid@);
        assert(0 <= at < r1.sessions.len() && r1.sessions[at].0 == sid@);
        assert(r1.sessions[at].1.session.wf());
        assert(r1.sessions[at].1.session.ctl.tokens.current.0 < u64::MAX);
    }
    let reply = match registry.session_mut(&sid) {
        Some(s) => decide_resume_reply(s, parsed, transport_epoch, token),
        None => return ResumeReply::NoEntropy(entropy_err()),
    };
    proof {
        let s = value_of(r1.sessions, sid@).session;
        let q = resume_init_of(resume@.payload)->0;
        let s2 = resume_decision_reply(s, q, transport_epoch, token).0;
        lemma_session_changed(r1, sid@, s2);
        assert(registry.view() == with_changed(r1, sid@, s2));
    }
    reply
}

/// Decides on a resume request for a session that is there.
pub fn decide_resume_reply(
    shared: &mut SessionShared,
    parsed: ResumeInitParsed,
    transport_epoch: u64,
    new_token: Id16,
) -> (r: ResumeReply)
    requires
        old(shared).wf(),
        old(shared).view().ctl.tokens.current.0 < u64::MAX,
    ensures
        final(shared).wf(),
        ({
            let (s2, reply) = resume_decision_reply(
                old(shared).view(),
                parsed@,
                transport_epoch,
                new_token,
            );
            &&& final(shared).view() == s2
            &&& resume_reply_is(r, reply)
        }),
{
    let sid = shared.session_id();
    let epoch: u64 = parsed.local_connection_epoch;
    proof {
        lemma_id16(parsed.nonce, parsed.nonce);
        lemma_id16(parsed.token, parsed.token);
    }
    let decision = match shared.decide_resume_with_epoch(
        parsed.nonce,
        epoch,
        &parsed.token,
        new_token,
        epoch,
    ) {
        Some(d) => d,
        None => {
            let stale = shared.control().resume_epoch_is_stale(
                parsed.nonce,
                epoch,
                &parsed.token,
                epoch,
            );
            let reason: u8 = if stale {
                reject_reason::STALE_EPOCH
            } else {
                reject_reason::TOKEN_INVALID
            };
            let code = hex_number_text(reason as u64);
            return reject_resume(
                sid,
                reason,
                true,
                cat("resume rejected: reason=0x", code.as_str()),
            );
        },
    };
    let payload = encode_resume_ok_full(
        &sid,
        transport_epoch,
        epoch,
        decision.result_generation,
        &decision.result_token,
        shared.summaries().as_slice(),
        0,
    );
    ResumeReply::Accepted {
        reply: mk_frame(
            FrameType::ResumeOk,
            0,
            sid,
            0,
            Direction::ProviderToClient,
            0,
            payload,
        ),
        session_id: sid,
        decision,
        policy: if decision.cached { InstallPolicy::IfVacant } else { InstallPolicy::Force },
        reports: parsed.summaries,
    }
}

// ---- resuming a session: client ---------------------------------------------------

/// The frame that asks to resume a session on another connection.
pub open spec fn resume_request(s: SessionView, local_epoch: u64, nonce: Seq<u8>) -> FrameView {
    frame_view(
        FrameType::ResumeInit,
        0,
        s.session_id@,
        0,
        Direction::ClientToProvider,
        0,
        resume_init_bytes(
            ResumeInitView {
                local_connection_epoch: local_epoch,
                last_seen_remote_epoch: s.ctl.last_seen_remote_epoch,
                nonce,
                token: s.ctl.tokens.current.1@,
                summaries: summaries_of(s),
            },
        ),
    )
}

/// The RESUME_INIT frame of an attempt on a connection of the given epoch.
pub fn resume_init_frame(shared: &SessionShared, local_epoch: u64, nonce: &Id16) -> (r: Frame)
    ensures
        r@ == resume_request(shared.view(), local_epoch, nonce@),
{
    let (_, token) = shared.current_token();
    let payload = encode_resume_init(
        local_epoch,
        shared.last_seen_remote_epoch(),
        nonce,
        &token,
        shared.summaries().as_slice(),
    );
    mk_frame(
        FrameType::ResumeInit,
        0,
        shared.session_id(),
        0,
        Direction::ClientToProvider,
        0,
        payload,
    )
}

/// What the answer to RESUME_INIT means.
#[derive(Debug)]
pub enum ResumeStep {
    /// Install this stream for the new generation.
    Install { generation: u64 },
    /// A newer attempt has resumed the session: close this stream.
    AlreadyActive,
    /// The answer is of an older attempt: close this stream and try again.
    Superseded(FabricError),
    /// The resume was refused, or the answer is not acceptable.
    Failed(FabricError),
}

/// What a [`ResumeStep`] says.
pub enum ResumeStepView {
    Install { generation: u64 },
    AlreadyActive,
    Superseded,
    Failed(Seq<char>),
}

/// The step says what the view says.
pub open spec fn resume_step_is(r: ResumeStep, v: ResumeStepView) -> bool {
    match (r, v) {
        (ResumeStep::Install { generation }, ResumeStepView::Install { generation: g }) => generation
            == g,
        (ResumeStep::AlreadyActive, ResumeStepView::AlreadyActive) => true,
        (ResumeStep::Superseded(e), ResumeStepView::Superseded) => connect_error(
            e,
            "transport superseded by live channel"@,
        ),
        (ResumeStep::Failed(e), ResumeStepView::Failed(t)) => connect_error(e, t),
        _ => false,
    }
}

/// What an answer that comes too late means.
pub open spec fn late_answer(s: SessionView) -> ResumeStepView {
    if s.ctl.phase == SessionPhase::Active {
        ResumeStepView::AlreadyActive
    } else {
        ResumeStepView::Superseded
    }
}

/// What the answer to RESUME_INIT means, and the session after it.
pub open spec fn resumed(
    s: SessionView,
    f: FrameView,
    local_epoch: u64,
    generation_before: u64,
) -> (SessionView, ResumeStepView) {
    match f.frame_type {
        FrameType::ResumeOk => if f.session_id != s.session_id@ {
            (s, ResumeStepView::Failed("RESUME_OK header sid mismatch"@))
        } else {
            match resume_ok_of(f.payload) {
                None => (s, ResumeStepView::Failed("malformed RESUME_OK"@)),
                Some(ok) => if ok.accepted_session_id != s.session_id@ || ok.peer_epoch
                    != local_epoch || ok.new_generation <= s.ctl.tokens.current.0
                    || ok.accepted_epoch < s.ctl.last_seen_remote_epoch {
                    (s, late_answer(s))
                } else {
                    let seen = ResumeCtl { last_seen_remote_epoch: ok.accepted_epoch, ..s.ctl };
                    (
                        SessionView {
                            ctl: rotated_to(seen, ok.new_generation, id16_of(ok.new_resume_token)),
                            ..s
                        },
                        ResumeStepView::Install { generation: ok.new_generation },
                    )
                },
            }
        },
        FrameType::ResumeReject => (
            if s.ctl.tokens.current.0 == generation_before && s.ctl.phase != SessionPhase::Active {
                SessionView { ctl: ResumeCtl { phase: SessionPhase::Dead, ..s.ctl }, ..s }
            } else {
                s
            },
            ResumeStepView::Failed(
                "resume rejected: reason="@ + decimal(first_byte(f.payload) as nat),
            ),
        ),
        _ => (s, ResumeStepView::Failed("unexpected frame "@ + type_label(f.frame_type))),
    }
}

fn late_step(shared: &SessionShared) -> (r: ResumeStep)
    ensures
        resume_step_is(r, late_answer(shared.view())),
{
    if shared.phase() == SessionPhase::Active {
        ResumeStep::AlreadyActive
    } else {
        ResumeStep::Superseded(channel_superseded_err())
    }
}

/// Takes the answer to RESUME_INIT. `generation_before` is the generation at the beginning
/// of the attempt: a refusal ends the session only if no other attempt succeeded meanwhile.
pub fn on_resume_response(
    shared: &mut SessionShared,
    resp: &Frame,
    local_epoch: u64,
    generation_before: u64,
) -> (r: ResumeStep)
    requires
        old(shared).wf(),
    ensures
        final(shared).wf(),
        ({
            let (s2, step) = resumed(old(shared).view(), resp@, local_epoch, generation_before);
            &&& final(shared).view() == s2
            &&& resume_step_is(r, step)
        }),
{
    match resp.frame_type {
        FrameType::ResumeOk => {
            let sid = shared.session_id();
            if !bytes_eq(&resp.session_id, &sid) {
                return ResumeStep::Failed(
                    connect_err("RESUME_OK header sid mismatch".to_owned()),
                );
            }
            let ok = match decode_resume_ok_full(resp.payload.as_slice()) {
                Some(x) => x,
                None => {
                    return ResumeStep::Failed(connect_err("malformed RESUME_OK".to_owned()));
                },
            };
            if !bytes_eq(&ok.accepted_session_id, &sid) || ok.peer_epoch != local_epoch
                || ok.new_generation <= shared.current_generation() {
                return late_step(shared);
            }
            if !shared.observe_remote_epoch(ok.accepted_epoch) {
                return late_step(shared);
            }
            proof {
                lemma_id16(ok.new_resume_token, ok.new_resume_token);
            }
            shared.rotate_token(ok.new_generation, ok.new_resume_token);
            ResumeStep::Install { generation: ok.new_generation }
        },
        FrameType::ResumeReject => {
            if shared.current_generation() == generation_before && shared.phase()
                != SessionPhase::Active {
                shared.set_phase(SessionPhase::Dead);
            }
            let first: u8 = if resp.payload.len() > 0 { resp.payload[0] } else { 0 };
            let code = decimal_text(first as u64);
            ResumeStep::Failed(connect_err(cat("resume rejected: reason=", code.as_str())))
        },
        other => ResumeStep::Failed(connect_err(cat("unexpected frame ", other.name()))),
    }
}

/// What it means that the stream of an accepted resume could not be installed.
pub fn install_lost(shared: &SessionShared, generation: u64) -> (r: ResumeStep)
    ensures
        if shared.view().ctl.phase == SessionPhase::Active && shared.view().ctl.tokens.current.0
            >= generation {
            r == ResumeStep::AlreadyActive
        } else {
            resume_step_is(r, ResumeStepView::Superseded)
        },
{
    if shared.phase() == SessionPhase::Active && shared.current_generation() >= generation {
        ResumeStep::AlreadyActive
    } else {
        ResumeStep::Superseded(channel_superseded_err())
    }
}

// ---- laws -------------------------------------------------------------------------

/// The client that gets the answer of an accepting provider has its session.
pub proof fn accepted_start_is_established(
    r: RegistryView,
    a: AdmissionView,
    sid: Seq<u8>,
    transport_epoch: u64,
)
    requires
        sid.len() == 16,
        admission_reply(r, a, sid, transport_epoch) is Accepted,
    ensures
        open_answer(admission_reply(r, a, sid, transport_epoch)->Accepted_reply, sid)
            == OpenStepView::Established,
{
    let generation = value_of(r.sessions, sid).session.ctl.tokens.current.0;
    session_init_ok_roundtrip(sid, transport_epoch, generation);
}

/// The client whose attempt lost to another session of the peer adopts that one.
pub proof fn lost_start_adopts_the_canonical_session(sid: Seq<u8>, s: SessionView, error: Seq<char>)
    requires
        sid.len() == 16,
        s.session_id@ != sid,
        !is_zero(s.session_id@),
    ensures
        open_answer(init_reject_view(sid, init_reason::ALREADY_ACTIVE, Some(s)), sid)
            == OpenStepView::Adopt(s.session_id@),
{
    session_init_reject_roundtrip(
        init_reason::ALREADY_ACTIVE,
        s.session_id@,
        s.ctl.active_epoch,
        s.ctl.tokens.current.0,
    );
}

/// An accepted resume gives both ends the same credentials: the client that gets the answer
/// installs the generation that the provider decided on, and holds its token.
pub proof fn resume_agrees_on_credentials(
    provider: SessionView,
    client: SessionView,
    q: ResumeInitView,
    transport_epoch: u64,
    new_token: Id16,
    generation_before: u64,
)
    requires
        resume_decision_reply(provider, q, transport_epoch, new_token).1 is Accepted,
        client.session_id == provider.session_id,
        !is_zero(provider.session_id@),
        ({
            let d = resume_decision_reply(
                provider,
                q,
                transport_epoch,
                new_token,
            ).1->Accepted_decision;
            client.ctl.tokens.current.0 < d.result_generation && !is_zero(d.result_token@)
        }),
        transport_epoch != 0,
        client.ctl.last_seen_remote_epoch <= transport_epoch,
        q.local_connection_epoch != 0,
        provider.streams.len() <= u16::MAX,
        forall|i: int|
            0 <= i < provider.streams.len() ==> summary_fits(
                #[trigger] summaries_of(provider)[i],
            ),
    ensures
        ({
            let (p2, reply) = resume_decision_reply(provider, q, transport_epoch, new_token);
            let d = reply->Accepted_decision;
            let (c2, step) = resumed(
                client,
                reply->Accepted_reply,
                q.local_connection_epoch,
                generation_before,
            );
            &&& step == ResumeStepView::Install { generation: d.result_generation }
            &&& c2.ctl.tokens.current == (d.result_generation, d.result_token)
            &&& !d.cached ==> p2.ctl.tokens.current == c2.ctl.tokens.current
        }),
{
    let (p2, reply) = resume_decision_reply(provider, q, transport_epoch, new_token);
    let d = reply->Accepted_decision;
    let v = ResumeOkView {
        accepted_session_id: provider.session_id@,
        accepted_epoch: transport_epoch,
        peer_epoch: q.local_connection_epoch,
        new_generation: d.result_generation,
        new_resume_token: d.result_token@,
        status_flags: 0,
        replay_summaries: summaries_of(p2),
    };
    assert(summaries_of(p2) =~= summaries_of(provider));
    resume_ok_roundtrip(v);
    lemma_id16(d.result_token, d.result_token);
}

/// A resume request for a session that has ended, or that this node does not know, is
/// refused with a reason of its own.
pub proof fn unknown_sessions_are_refused_by_kind(
    r: RegistryView,
    f: FrameView,
    transport_epoch: u64,
    new_token: Option<Id16>,
)
    requires
        !is_zero(f.session_id),
        resume_init_of(f.payload) is Some,
        !has_key(reaped(r).sessions, f.session_id),
    ensures
        resume_answer(r, f, transport_epoch, new_token).1 is Rejected,
        resume_answer(r, f, transport_epoch, new_token).1->Rejected_reply == resume_reject_view(
            f.session_id,
            if reaped(r).tombstones.contains(f.session_id) {
                reject_reason::TOKEN_REVOKED
            } else {
                reject_reason::REQUEST_STATE_LOST
            },
        ),
{
}

} // verus!
