//! How two ends come to agree on a session and on its credentials, told by what each is sent
//! and what it answers.
use vstd::prelude::*;
use vstd::string::*;

use crate::continuity::frame::{Direction, FrameType, FrameView};
use crate::continuity::model::JournalLimits;
use crate::continuity::session::control::{
    confirmed, decided, install_allowed, installed, lemma_id16, rotated_to, Id16, InstallPolicy,
    ResumeCtl, ResumeDecision, SessionPhase,
};
use crate::continuity::session::handshake::{
    admission_reply, campaign_stands, init_answer, open_answer, resume_answer,
    resume_decision_reply, resume_request, resumed, session_of, start_request, OpenStepView,
    ResumeStepView,
};
use crate::continuity::session::registry::{
    admitted, attempts_are_totally_ordered, buried, lemma_forgotten_wf, lemma_reaped_wf, reaped,
    reaped_from, registered, AdmissionView, EntryView, RegistryView,
};
use crate::continuity::session::shared::{fresh_session, summaries_of, SessionView};
use crate::continuity::session::wire::{
    is_zero, resume_init_bytes, resume_init_of, resume_init_roundtrip, resume_ok_bytes,
    resume_ok_of, resume_ok_roundtrip, session_init_bytes, session_init_ok_bytes,
    session_init_ok_roundtrip, session_init_reject_bytes, session_init_roundtrip, summaries_at,
    summary_bytes, summary_fits, u16_at, ResumeInitView, ResumeOkView, StreamSummary,
};
use crate::octets::{be16, be64, be_value, lemma_be_fields, lemma_be_widths};
use crate::table::{
    has_key, key_index, lemma_key_index, lemma_with_value, lemma_without_key, lookup, value_of,
    without_key,
};

verus! {

// ---- credentials ------------------------------------------------------------------

/// A resume request that no pending decision answers is accepted exactly if it presents the
/// current or the previous token, and, where it names a connection, none older than the last
/// one seen. Without a connection the generation has to be that of the token. Accepting it
/// gives the next generation the new token, keeps the one before as the previous, gives a
/// new lease, and remembers the decision and the connection. Refusing it changes nothing.
pub proof fn known_credentials_are_accepted(
    ctl: ResumeCtl,
    nonce: Id16,
    generation: u64,
    token: Id16,
    new_token: Id16,
    epoch: u64,
)
    requires
        ctl.wf(),
        ctl.tokens.current.0 < u64::MAX,
        ctl.next_lease < u64::MAX,
        ctl.pending is None || (ctl.pending->0).decision.nonce != nonce,
    ensures
        ({
            let (c, d) = decided(ctl, nonce, generation, token, new_token, epoch);
            let (g1, t1) = ctl.tokens.current;
            let prev = ctl.tokens.previous;
            let known = if epoch != 0 {
                token == t1 || (prev is Some && (prev->0).1 == token)
            } else {
                (token == t1 && generation == g1) || prev == Some((generation, token))
            };
            &&& d is Some <==> known && (epoch == 0 || epoch >= ctl.last_seen_remote_epoch)
            &&& d is None ==> c == ctl
            &&& d is Some ==> {
                &&& d->0.result_generation == g1 + 1
                &&& d->0.result_token == new_token
                &&& d->0.lease_id == ctl.next_lease + 1
                &&& d->0.nonce == nonce && d->0.from_token == token && d->0.remote_epoch == epoch
                &&& !d->0.cached
                &&& c.tokens.current == ((g1 + 1) as u64, new_token)
                &&& c.tokens.previous == Some(ctl.tokens.current)
                &&& c.pending is Some && (c.pending->0).decision == d->0
                    && (c.pending->0).installed_owner is None
                &&& c.last_seen_remote_epoch == if epoch != 0 {
                    epoch
                } else {
                    ctl.last_seen_remote_epoch
                }
                &&& c.previous_live
                &&& c.phase == ctl.phase && c.channel == ctl.channel && c.channel_owner
                    == ctl.channel_owner && c.active_epoch == ctl.active_epoch
            }
        }),
{
}

/// A channel is installed for a decision only while that one is pending, and not twice for
/// one that was given fresh; for a generation only while it is the current one. Installing
/// gives the channel the next number and makes it the current one.
pub proof fn channels_are_installed_for_the_pending_decision(
    ctl: ResumeCtl,
    d: ResumeDecision,
    generation: u64,
    epoch: u64,
)
    requires
        ctl.wf(),
        ctl.channel_owner < u64::MAX,
    ensures
        install_allowed(ctl, None, None),
        install_allowed(ctl, None, Some(generation)) <==> ctl.tokens.current.0 == generation,
        ctl.pending is None ==> !install_allowed(ctl, Some(d), None),
        install_allowed(ctl, Some(d), None) ==> ctl.pending is Some && {
            let p = (ctl.pending->0).decision;
            &&& p.lease_id == d.lease_id && p.nonce == d.nonce
            &&& p.result_generation == d.result_generation && p.result_token == d.result_token
        },
        ctl.pending is Some && (ctl.pending->0).decision == d && (d.cached
            || (ctl.pending->0).installed_owner is None) ==> install_allowed(ctl, Some(d), None),
        !d.cached && ctl.pending is Some && (ctl.pending->0).installed_owner is Some
            ==> !install_allowed(ctl, Some(d), None),
        ({
            let c = installed(ctl, epoch, Some(d));
            &&& c.channel_owner == ctl.channel_owner + 1
            &&& c.channel == Some((ctl.channel_owner + 1) as u64)
            &&& c.active_epoch == epoch
            &&& c.tokens == ctl.tokens && c.phase == ctl.phase
            &&& ctl.previous_live ==> c.confirmation_owner == Some((ctl.channel_owner + 1) as u64)
            &&& ctl.pending is Some ==> c.pending is Some && (c.pending->0).installed_owner == Some(
                (ctl.channel_owner + 1) as u64,
            ) && (c.pending->0).decision == (ctl.pending->0).decision
        }),
{
}

/// The first use of the new channel confirms it: the previous token and the pending decision
/// are gone, and the current token stays.
pub proof fn use_confirms_the_new_channel(ctl: ResumeCtl, owner: u64)
    requires
        ctl.previous_live,
        ctl.channel_owner == owner,
        ctl.confirmation_owner == Some(owner),
    ensures
        ({
            let c = confirmed(ctl, Some(owner));
            &&& c.tokens.previous is None
            &&& c.tokens.current == ctl.tokens.current
            &&& c.pending is None
            &&& !c.previous_live
            &&& c.channel_owner == ctl.channel_owner && c.phase == ctl.phase
                && c.last_seen_remote_epoch == ctl.last_seen_remote_epoch
        }),
{
}

// ---- the sessions of a node -------------------------------------------------------

/// A session whose phase is one of the two last ones.
pub open spec fn over(e: EntryView) -> bool {
    e.session.ctl.phase == SessionPhase::Dead || e.session.ctl.phase == SessionPhase::Closed
}

proof fn lemma_reaped_from(r: RegistryView, i: int, sid: Seq<u8>)
    requires
        r.wf(),
        0 <= i,
        forall|k: int| 0 <= k < i && k < r.sessions.len() ==> !over((#[trigger] r.sessions[k]).1),
    ensures
        ({
            let q = reaped_from(r, i);
            &&& lookup(q.sessions, sid) == if has_key(r.sessions, sid) && !over(
                value_of(r.sessions, sid),
            ) {
                lookup(r.sessions, sid)
            } else {
                None
            }
            &&& q.tombstones.contains(sid) <==> r.tombstones.contains(sid) || (has_key(
                r.sessions,
                sid,
            ) && over(value_of(r.sessions, sid)))
        }),
    decreases r.sessions.len() - i,
{
    if i < r.sessions.len() {
        let (gone, e) = r.sessions[i];
        if over(e) {
            lemma_key_index(r.sessions, i);
            lemma_forgotten_wf(r, gone);
            lemma_without_key(r.sessions, gone);
            let b = buried(r, gone);
            assert(key_index(r.sessions, gone) == i);
            assert forall|k: int| 0 <= k < i && k < b.sessions.len() implies !over(
                (#[trigger] b.sessions[k]).1,
            ) by {
                assert(b.sessions[k] == r.sessions[k]);
            }
            lemma_reaped_from(b, i, sid);
            if sid != gone {
                assert(lookup(b.sessions, sid) == lookup(r.sessions, sid));
                assert(has_key(b.sessions, sid) == has_key(r.sessions, sid));
            } else {
                assert(!has_key(b.sessions, sid));
            }
        } else {
            lemma_reaped_from(r, i + 1, sid);
        }
    } else {
        if has_key(r.sessions, sid) {
            let k = key_index(r.sessions, sid);
            assert(0 <= k < r.sessions.len() && r.sessions[k].0 == sid);
            assert(!over(r.sessions[k].1));
        }
    }
}

/// Sessions that are over are removed, and their ids never come back; all others stay as
/// they are.
pub proof fn sessions_that_are_over_are_removed(r: RegistryView, sid: Seq<u8>)
    requires
        r.wf(),
    ensures
        has_key(reaped(r).sessions, sid) <==> has_key(r.sessions, sid) && !over(
            value_of(r.sessions, sid),
        ),
        has_key(reaped(r).sessions, sid) ==> value_of(reaped(r).sessions, sid) == value_of(
            r.sessions,
            sid,
        ),
        reaped(r).tombstones.contains(sid) <==> r.tombstones.contains(sid) || (has_key(
            r.sessions,
            sid,
        ) && over(value_of(r.sessions, sid))),
{
    lemma_reaped_from(r, 0, sid);
    assert(lookup(reaped(r).sessions, sid) is Some <==> has_key(reaped(r).sessions, sid));
}

/// A peer without a session that asks for one with a new id gets it: new, on the provider
/// side, with the token that it sent, and as the session of that peer.
pub proof fn new_sessions_are_admitted(
    r: RegistryView,
    session_id: Id16,
    token: Id16,
    peer: Seq<char>,
    incoming: Seq<u8>,
    limits: JournalLimits,
)
    requires
        r.wf(),
        !reaped(r).tombstones.contains(session_id@),
        !has_key(reaped(r).sessions, session_id@),
        !has_key(reaped(r).peers, peer),
    ensures
        ({
            let (q, a) = admitted(r, session_id, token, peer, incoming, limits);
            let e = value_of(q.sessions, session_id@);
            &&& a == AdmissionView::Admitted { fresh: true }
            &&& has_key(q.sessions, session_id@)
            &&& lookup(q.peers, peer) == Some(session_id@)
            &&& e.session.session_id == session_id
            &&& e.session.peer_id == peer
            &&& !e.session.is_client
            &&& e.session.ctl.tokens.current == (1u64, token)
            &&& e.session.ctl.phase == SessionPhase::Negotiating
            &&& e.session.streams.len() == 0
            &&& e.initiator == Some(incoming)
            &&& forall|x: Seq<u8>|
                x != session_id@ ==> #[trigger] lookup(q.sessions, x) == lookup(
                    reaped(r).sessions,
                    x,
                )
        }),
{
    lemma_reaped_wf(r, 0);
    let q = reaped(r);
    let session = fresh_session(session_id, token, peer, false, limits);
    let e = EntryView { session, initiator: Some(incoming) };
    lemma_with_value(q.sessions, session_id@, e);
    lemma_with_value(q.peers, peer, session_id@);
}

/// An attempt with the id of a session that is there gets that session exactly if it comes
/// from its peer with its token; an id that is gone is refused. The sessions do not change.
pub proof fn known_sessions_are_admitted_again(
    r: RegistryView,
    session_id: Id16,
    token: Id16,
    peer: Seq<char>,
    incoming: Seq<u8>,
    limits: JournalLimits,
)
    requires
        r.wf(),
        reaped(r).tombstones.contains(session_id@) || has_key(reaped(r).sessions, session_id@),
    ensures
        ({
            let (q, a) = admitted(r, session_id, token, peer, incoming, limits);
            let s = value_of(reaped(r).sessions, session_id@).session;
            &&& q == reaped(r)
            &&& reaped(r).tombstones.contains(session_id@) <==> a is TokenRevoked
            &&& !reaped(r).tombstones.contains(session_id@) ==> {
                &&& a == AdmissionView::Admitted { fresh: false } <==> s.peer_id == peer
                    && s.ctl.tokens.current.1 == token
                &&& a is PeerMismatch <==> s.peer_id != peer
                &&& a is TokenMismatch <==> s.peer_id == peer && s.ctl.tokens.current.1 != token
            }
        }),
{
}

/// A peer that has a session keeps it: another attempt is told which one it is. Only while
/// that one is being negotiated, and the new attempt comes first, by the endpoint that makes
/// it and then by its id, it takes its place.
pub proof fn peers_keep_their_session(
    r: RegistryView,
    session_id: Id16,
    token: Id16,
    peer: Seq<char>,
    incoming: Seq<u8>,
    limits: JournalLimits,
    has: Seq<u8>,
)
    requires
        r.wf(),
        !reaped(r).tombstones.contains(session_id@),
        !has_key(reaped(r).sessions, session_id@),
        lookup(reaped(r).peers, peer) == Some(has),
        has_key(reaped(r).sessions, has),
    ensures
        ({
            let (q, a) = admitted(r, session_id, token, peer, incoming, limits);
            let e = value_of(reaped(r).sessions, has);
            let first = e.session.ctl.phase == SessionPhase::Negotiating && e.initiator is Some && (
            be_value(incoming) < be_value(e.initiator->0) || (incoming == e.initiator->0
                && be_value(session_id@) < be_value(has)));
            &&& !first ==> a == AdmissionView::Canonical(has) && q == reaped(r)
            &&& first ==> {
                &&& a == AdmissionView::Replaced(e.session)
                &&& !has_key(q.sessions, has)
                &&& has_key(q.sessions, session_id@)
                &&& lookup(q.peers, peer) == Some(session_id@)
            }
        }),
{
    lemma_reaped_wf(r, 0);
    let q = reaped(r);
    let f = RegistryView {
        sessions: without_key(q.sessions, has),
        peers: without_key(q.peers, peer),
        ..q
    };
    lemma_without_key(q.sessions, has);
    lemma_without_key(q.peers, peer);
    let session = fresh_session(session_id, token, peer, false, limits);
    lemma_with_value(
        f.sessions,
        session_id@,
        EntryView { session, initiator: Some(incoming) },
    );
    lemma_with_value(f.peers, peer, session_id@);
}

/// Where two nodes start a session with each other at the same time, one of the attempts
/// stands and the other gives way, and both nodes see it so.
pub proof fn one_of_two_attempts_stands(
    ra: RegistryView,
    rb: RegistryView,
    a: Seq<u8>,
    x: Seq<u8>,
    b: Seq<u8>,
    y: Seq<u8>,
)
    requires
        a.len() == 32,
        b.len() == 32,
        x.len() == 16,
        y.len() == 16,
        a != b,
        session_of(ra, x) is Some && (session_of(ra, x)->0).ctl.phase == SessionPhase::Negotiating,
        session_of(rb, y) is Some && (session_of(rb, y)->0).ctl.phase == SessionPhase::Negotiating,
    ensures
        campaign_stands(ra, x, a, y, b) != campaign_stands(rb, y, b, x, a),
        campaign_stands(ra, x, a, y, b) <==> be_value(a) < be_value(b),
{
    attempts_are_totally_ordered(a, x, b, y);
}

/// A node whose own attempt is established does not give it up.
pub proof fn established_attempts_stand(
    r: RegistryView,
    own: Seq<u8>,
    local: Seq<u8>,
    sid: Seq<u8>,
    incoming: Seq<u8>,
)
    requires
        session_of(r, own) is Some,
        (session_of(r, own)->0).ctl.phase != SessionPhase::Negotiating,
    ensures
        campaign_stands(r, own, local, sid, incoming),
{
}

/// A peer that starts a session keeps one that it has: the one that is there is entered, and
/// a new one only where there is none.
pub proof fn own_sessions_are_entered_once(
    r: RegistryView,
    session: SessionView,
    peer: Seq<char>,
    initiator: Seq<u8>,
)
    requires
        r.wf(),
    ensures
        ({
            let q = reaped(r);
            let (t, x) = registered(r, session, peer, initiator);
            let there = has_key(q.peers, peer) && has_key(q.sessions, value_of(q.peers, peer));
            &&& there ==> t == q && x == (value_of(q.peers, peer), false)
            &&& !there ==> x == (session.session_id@, true) && lookup(t.peers, peer) == Some(
                session.session_id@,
            ) && lookup(t.sessions, session.session_id@) == Some(
                EntryView { session, initiator: Some(initiator) },
            )
        }),
{
    lemma_reaped_wf(r, 0);
    let q = reaped(r);
    lemma_without_key(q.peers, peer);
    lemma_with_value(without_key(q.peers, peer), peer, session.session_id@);
    lemma_with_value(
        q.sessions,
        session.session_id@,
        EntryView { session, initiator: Some(initiator) },
    );
}

// ---- answers ----------------------------------------------------------------------

/// A client has its session exactly if the answer is an acceptance of that session, in its
/// header and its payload; it adopts another one exactly if a refusal says that the peer has
/// that one already.
pub proof fn answers_establish_the_session_asked_for(f: FrameView, sid: Seq<u8>, id: Seq<u8>)
    requires
        sid.len() == 16,
    ensures
        open_answer(f, sid) is Established <==> {
            &&& f.frame_type == FrameType::SessionInitOk
            &&& f.session_id == sid
            &&& f.payload.len() == 32
            &&& f.payload.subrange(0, 16) == sid
        },
        open_answer(f, sid) == OpenStepView::Adopt(id) <==> {
            &&& f.frame_type == FrameType::SessionInitReject
            &&& f.session_id == sid
            &&& f.payload.len() == 33
            &&& f.payload[0] == 1
            &&& f.payload.subrange(1, 17) == id
            &&& id != sid
            &&& exists|j: int| 0 <= j < 16 && #[trigger] id[j] != 0
        },
{
    if f.payload.len() == 33 {
        let x = f.payload.subrange(1, 17);
        if !is_zero(x) {
            let j = choose|j: int| 0 <= j < x.len() && x[j] != 0;
            assert(x[j] != 0);
        }
    }
}

/// A request to resume with the current token, on a connection no older than the last one
/// seen, is accepted: the answer tells the next generation and its token, the channel takes
/// over, and the reports of the client are handed on.
pub proof fn current_token_resumes(
    s: SessionView,
    q: ResumeInitView,
    transport_epoch: u64,
    new_token: Id16,
)
    requires
        s.wf(),
        s.ctl.tokens.current.0 < u64::MAX,
        s.ctl.pending is None,
        q.token == s.ctl.tokens.current.1@,
        q.nonce.len() == 16,
        q.local_connection_epoch != 0,
        q.local_connection_epoch >= s.ctl.last_seen_remote_epoch,
    ensures
        ({
            let (t, r) = resume_decision_reply(s, q, transport_epoch, new_token);
            let next = (s.ctl.tokens.current.0 + 1) as u64;
            &&& r is Accepted
            &&& r->Accepted_session_id == s.session_id@
            &&& r->Accepted_policy == InstallPolicy::Force
            &&& r->Accepted_reports == q.summaries
            &&& r->Accepted_decision.result_generation == next
            &&& r->Accepted_decision.result_token == new_token
            &&& t.ctl.tokens.current == (next, new_token)
            &&& t.ctl.tokens.previous == Some(s.ctl.tokens.current)
            &&& t == SessionView { ctl: t.ctl, ..s }
            &&& r->Accepted_reply == (FrameView {
                frame_type: FrameType::ResumeOk,
                flags: 0,
                session_id: s.session_id@,
                stream_id: 0,
                direction: Direction::ProviderToClient,
                byte_offset: 0,
                payload: resume_ok_bytes(
                    ResumeOkView {
                        accepted_session_id: s.session_id@,
                        accepted_epoch: transport_epoch,
                        peer_epoch: q.local_connection_epoch,
                        new_generation: next,
                        new_resume_token: new_token@,
                        status_flags: 0,
                        replay_summaries: summaries_of(s),
                    },
                ),
            })
        }),
{
    lemma_id16(s.ctl.tokens.current.1, s.ctl.tokens.current.1);
    let t = resume_decision_reply(s, q, transport_epoch, new_token).0;
    assert(summaries_of(t) =~= summaries_of(s));
}

/// A request to resume with a token that is neither the current nor the previous one is
/// refused as such, and changes nothing; one on a connection older than the last one seen is
/// refused as stale.
pub proof fn unknown_tokens_do_not_resume(
    s: SessionView,
    q: ResumeInitView,
    transport_epoch: u64,
    new_token: Id16,
    token: Id16,
)
    requires
        s.wf(),
        s.ctl.pending is None,
        q.token == token@,
        q.local_connection_epoch != 0,
        token != s.ctl.tokens.current.1,
        s.ctl.tokens.previous is None || (s.ctl.tokens.previous->0).1 != token,
    ensures
        ({
            let (t, r) = resume_decision_reply(s, q, transport_epoch, new_token);
            &&& t == s
            &&& r is Rejected
            &&& r->Rejected_reply == (FrameView {
                frame_type: FrameType::ResumeReject,
                flags: 0,
                session_id: s.session_id@,
                stream_id: 0,
                direction: Direction::ProviderToClient,
                byte_offset: 0,
                payload: seq![
                    if q.local_connection_epoch < s.ctl.last_seen_remote_epoch {
                        4u8
                    } else {
                        2u8
                    },
                ],
            })
        }),
{
    lemma_id16(token, token);
}

/// A client takes the answer to its request exactly if that is about its session and its
/// connection, and brings a later generation, from a connection no older than the last one
/// seen. It then holds the new token, and knows the connection. Anything else leaves its
/// credentials as they are.
pub proof fn clients_take_later_credentials(
    s: SessionView,
    f: FrameView,
    local_epoch: u64,
    generation_before: u64,
    ok: ResumeOkView,
    token: Id16,
)
    requires
        f.frame_type == FrameType::ResumeOk,
        f.session_id == s.session_id@,
        resume_ok_of(f.payload) == Some(ok),
        ok.new_resume_token == token@,
    ensures
        ({
            let (t, step) = resumed(s, f, local_epoch, generation_before);
            let take = {
                &&& ok.accepted_session_id == s.session_id@
                &&& ok.peer_epoch == local_epoch
                &&& ok.new_generation > s.ctl.tokens.current.0
                &&& ok.accepted_epoch >= s.ctl.last_seen_remote_epoch
            };
            &&& take <==> step == ResumeStepView::Install { generation: ok.new_generation }
            &&& take ==> t.ctl.tokens.current == (ok.new_generation, token)
                && t.ctl.tokens.previous == Some(s.ctl.tokens.current)
                && t.ctl.last_seen_remote_epoch == ok.accepted_epoch && t.ctl.phase == s.ctl.phase
            &&& !take ==> t == s && (step is AlreadyActive <==> s.ctl.phase == SessionPhase::Active)
        }),
{
    lemma_id16(token, token);
}

/// A refusal ends the session of a client, unless another attempt succeeded meanwhile.
pub proof fn refusals_end_the_session(
    s: SessionView,
    f: FrameView,
    local_epoch: u64,
    generation_before: u64,
)
    requires
        f.frame_type == FrameType::ResumeReject,
    ensures
        ({
            let (t, step) = resumed(s, f, local_epoch, generation_before);
            let succeeded = s.ctl.tokens.current.0 != generation_before || s.ctl.phase
                == SessionPhase::Active;
            &&& step is Failed
            &&& succeeded ==> t == s
            &&& !succeeded ==> t.ctl.phase == SessionPhase::Dead && t.ctl.tokens == s.ctl.tokens
                && t.streams == s.streams
        }),
{
}

// ---- layouts ----------------------------------------------------------------------

/// Where the fields of the payloads stand.
pub proof fn start_payloads_have_their_layout(
    sid: Seq<u8>,
    token: Seq<u8>,
    reason: u8,
    epoch: u64,
    generation: u64,
)
    requires
        sid.len() == 16,
        token.len() == 16,
    ensures
        ({
            let p = session_init_bytes(sid, token, epoch);
            &&& p.len() == 41
            &&& p[0] == 1
            &&& p.subrange(1, 17) == sid
            &&& p.subrange(17, 33) == token
            &&& be_value(p.subrange(33, 41)) == epoch
        }),
        ({
            let p = session_init_ok_bytes(sid, epoch, generation);
            &&& p.len() == 32
            &&& p.subrange(0, 16) == sid
            &&& be_value(p.subrange(16, 24)) == epoch
            &&& be_value(p.subrange(24, 32)) == generation
        }),
        ({
            let p = session_init_reject_bytes(reason, sid, epoch, generation);
            &&& p.len() == 33
            &&& p[0] == reason
            &&& p.subrange(1, 17) == sid
            &&& be_value(p.subrange(17, 25)) == epoch
            &&& be_value(p.subrange(25, 33)) == generation
        }),
{
    lemma_be_widths(epoch);
    lemma_be_widths(generation);
    let p = session_init_bytes(sid, token, epoch);
    assert(p.subrange(1, 17) =~= sid);
    assert(p.subrange(17, 33) =~= token);
    assert(p.subrange(33, 41) =~= be64(epoch));
    let p = session_init_ok_bytes(sid, epoch, generation);
    assert(p.subrange(0, 16) =~= sid);
    assert(p.subrange(16, 24) =~= be64(epoch));
    assert(p.subrange(24, 32) =~= be64(generation));
    let p = session_init_reject_bytes(reason, sid, epoch, generation);
    assert(p.subrange(1, 17) =~= sid);
    assert(p.subrange(17, 25) =~= be64(epoch));
    assert(p.subrange(25, 33) =~= be64(generation));
}

/// Where the fields of the payloads of a resume and of its reports stand.
pub proof fn resume_payloads_have_their_layout(q: ResumeInitView, ok: ResumeOkView, x: StreamSummary)
    requires
        q.nonce.len() == 16,
        q.token.len() == 16,
        ok.accepted_session_id.len() == 16,
        ok.new_resume_token.len() == 16,
        q.summaries.len() <= u16::MAX,
        ok.replay_summaries.len() <= u16::MAX,
    ensures
        ({
            let p = resume_init_bytes(q);
            &&& p.len() >= 54
            &&& p[0] == 1 && p[1] == 0
            &&& be_value(p.subrange(2, 4)) == q.summaries.len()
            &&& be_value(p.subrange(4, 12)) == q.local_connection_epoch
            &&& be_value(p.subrange(12, 20)) == q.last_seen_remote_epoch
            &&& p.subrange(20, 36) == q.nonce
            &&& be_value(p.subrange(36, 38)) == 16
            &&& p.subrange(38, 54) == q.token
        }),
        ({
            let p = resume_ok_bytes(ok);
            &&& p.len() >= 60
            &&& p.subrange(0, 16) == ok.accepted_session_id
            &&& be_value(p.subrange(16, 24)) == ok.accepted_epoch
            &&& be_value(p.subrange(24, 32)) == ok.peer_epoch
            &&& be_value(p.subrange(32, 40)) == ok.new_generation
            &&& p.subrange(40, 56) == ok.new_resume_token
            &&& be_value(p.subrange(56, 58)) == ok.replay_summaries.len()
            &&& be_value(p.subrange(58, 60)) == ok.status_flags
        }),
        ({
            let p = summary_bytes(x);
            &&& p.len() == 36
            &&& be_value(p.subrange(0, 8)) == x.stream_id
            &&& be_value(p.subrange(12, 20)) == x.recv_ack
            &&& be_value(p.subrange(20, 28)) == x.send_next
            &&& be_value(p.subrange(28, 36)) == match x.final_sent {
                Some(e) => e,
                None => u64::MAX,
            }
        }),
{
    lemma_be_widths(q.summaries.len() as u64);
    lemma_be_widths(q.local_connection_epoch);
    lemma_be_widths(q.last_seen_remote_epoch);
    lemma_be_widths(16);
    let p = resume_init_bytes(q);
    assert(p.subrange(2, 4) =~= be16(q.summaries.len() as u16));
    assert(p.subrange(4, 12) =~= be64(q.local_connection_epoch));
    assert(p.subrange(12, 20) =~= be64(q.last_seen_remote_epoch));
    assert(p.subrange(20, 36) =~= q.nonce);
    assert(p.subrange(36, 38) =~= be16(16));
    assert(p.subrange(38, 54) =~= q.token);
    lemma_be_widths(ok.accepted_epoch);
    lemma_be_widths(ok.peer_epoch);
    lemma_be_widths(ok.new_generation);
    lemma_be_widths(ok.replay_summaries.len() as u64);
    lemma_be_widths(ok.status_flags as u64);
    let p = resume_ok_bytes(ok);
    assert(p.subrange(0, 16) =~= ok.accepted_session_id);
    assert(p.subrange(16, 24) =~= be64(ok.accepted_epoch));
    assert(p.subrange(24, 32) =~= be64(ok.peer_epoch));
    assert(p.subrange(32, 40) =~= be64(ok.new_generation));
    assert(p.subrange(40, 56) =~= ok.new_resume_token);
    assert(p.subrange(56, 58) =~= be16(ok.replay_summaries.len() as u16));
    assert(p.subrange(58, 60) =~= be16(ok.status_flags));
    lemma_be_widths(x.stream_id);
    lemma_be_widths(x.recv_ack);
    lemma_be_widths(x.send_next);
    let e = match x.final_sent {
        Some(e) => e,
        None => u64::MAX,
    };
    lemma_be_widths(e);
    let p = summary_bytes(x);
    assert(p.subrange(0, 8) =~= be64(x.stream_id));
    assert(p.subrange(12, 20) =~= be64(x.recv_ack));
    assert(p.subrange(20, 28) =~= be64(x.send_next));
    assert(p.subrange(28, 36) =~= be64(e));
}

// ---- whole handshakes -------------------------------------------------------------

/// A client that asks a provider for a new session gets it: the provider has the session
/// with the token of the client, and the client takes the answer for its session.
pub proof fn new_sessions_are_started_at_both_ends(
    r: RegistryView,
    campaigns: Seq<(Seq<char>, Seq<u8>)>,
    peer: Seq<char>,
    incoming: Seq<u8>,
    local: Seq<u8>,
    session_id: Id16,
    token: Id16,
    transport_epoch: u64,
    limits: JournalLimits,
)
    requires
        r.wf(),
        !is_zero(session_id@),
        !is_zero(token@),
        !has_key(campaigns, peer),
        !reaped(r).tombstones.contains(session_id@),
        !has_key(reaped(r).sessions, session_id@),
        !has_key(reaped(r).peers, peer),
    ensures
        ({
            let f = start_request(session_id@, token@);
            let (q, c, a) = init_answer(
                r,
                campaigns,
                peer,
                Some(incoming),
                local,
                f,
                transport_epoch,
                limits,
            );
            &&& a is Accepted
            &&& a->Accepted_fresh
            &&& a->Accepted_session_id == session_id@
            &&& a->Accepted_policy == InstallPolicy::Force
            &&& has_key(q.sessions, session_id@)
            &&& value_of(q.sessions, session_id@).session.ctl.tokens.current == (1u64, token)
            &&& value_of(q.sessions, session_id@).session.peer_id == peer
            &&& open_answer(a->Accepted_reply, session_id@) is Established
            &&& c == campaigns
        }),
{
    session_init_roundtrip(session_id@, token@, 1);
    lemma_id16(session_id, session_id);
    lemma_id16(token, token);
    new_sessions_are_admitted(r, session_id, token, peer, incoming, limits);
    let q = admitted(r, session_id, token, peer, incoming, limits).0;
    session_init_ok_roundtrip(
        session_id@,
        transport_epoch,
        value_of(q.sessions, session_id@).session.ctl.tokens.current.0,
    );
}

/// A client that asks a provider to resume their session on another connection gets it: both
/// hold the next generation and its token afterwards, and the provider has been told how far
/// the streams of the client have come.
pub proof fn sessions_are_resumed_at_both_ends(
    r: RegistryView,
    c: SessionView,
    epoch: u64,
    nonce: Id16,
    transport_epoch: u64,
    new_token: Id16,
    generation_before: u64,
)
    requires
        r.wf(),
        !is_zero(c.session_id@),
        has_key(reaped(r).sessions, c.session_id@),
        ({
            let p = value_of(reaped(r).sessions, c.session_id@).session;
            &&& p.ctl.tokens.current == c.ctl.tokens.current
            &&& p.ctl.pending is None
            &&& p.ctl.last_seen_remote_epoch <= epoch
            &&& p.streams.len() <= u16::MAX
            &&& forall|i: int|
                0 <= i < p.streams.len() ==> summary_fits(#[trigger] summaries_of(p)[i])
        }),
        c.ctl.tokens.current.0 < u64::MAX,
        !is_zero(c.ctl.tokens.current.1@),
        !is_zero(new_token@),
        epoch != 0,
        transport_epoch != 0,
        c.ctl.last_seen_remote_epoch <= transport_epoch,
        c.streams.len() <= u16::MAX,
        forall|i: int| 0 <= i < c.streams.len() ==> summary_fits(#[trigger] summaries_of(c)[i]),
    ensures
        ({
            let f = resume_request(c, epoch, nonce@);
            let (q, a) = resume_answer(r, f, transport_epoch, Some(new_token));
            let (c2, step) = resumed(c, a->Accepted_reply, epoch, generation_before);
            let next = (c.ctl.tokens.current.0 + 1) as u64;
            let p2 = value_of(q.sessions, c.session_id@).session;
            &&& a is Accepted
            &&& a->Accepted_reports == summaries_of(c)
            &&& has_key(q.sessions, c.session_id@)
            &&& step == ResumeStepView::Install { generation: next }
            &&& c2.ctl.tokens.current == (next, new_token)
            &&& p2.ctl.tokens.current == (next, new_token)
            &&& c2.streams == c.streams
            &&& p2.streams == value_of(reaped(r).sessions, c.session_id@).session.streams
        }),
{
    let sid = c.session_id@;
    let view = ResumeInitView {
        local_connection_epoch: epoch,
        last_seen_remote_epoch: c.ctl.last_seen_remote_epoch,
        nonce: nonce@,
        token: c.ctl.tokens.current.1@,
        summaries: summaries_of(c),
    };
    resume_init_roundtrip(view);
    lemma_reaped_wf(r, 0);
    let g = reaped(r);
    let p = value_of(g.sessions, sid).session;
    let i = key_index(g.sessions, sid);
    assert(0 <= i < g.sessions.len() && g.sessions[i].0 == sid);
    assert(p.wf() && p.session_id@ == sid);
    lemma_id16(p.session_id, c.session_id);
    current_token_resumes(p, view, transport_epoch, new_token);
    let (p2, a) = resume_decision_reply(p, view, transport_epoch, new_token);
    lemma_with_value(
        g.sessions,
        sid,
        EntryView { session: p2, ..value_of(g.sessions, sid) },
    );
    let ok = ResumeOkView {
        accepted_session_id: sid,
        accepted_epoch: transport_epoch,
        peer_epoch: epoch,
        new_generation: (c.ctl.tokens.current.0 + 1) as u64,
        new_resume_token: new_token@,
        status_flags: 0,
        replay_summaries: summaries_of(p),
    };
    resume_ok_roundtrip(ok);
    clients_take_later_credentials(
        c,
        a->Accepted_reply,
        epoch,
        generation_before,
        ok,
        new_token,
    );
}

/// Credentials that the peer issued are taken if they are of a later generation, and not
/// otherwise.
pub proof fn later_credentials_are_taken(ctl: ResumeCtl, generation: u64, token: Id16)
    ensures
        ({
            let c = rotated_to(ctl, generation, token);
            &&& generation > ctl.tokens.current.0 ==> c.tokens.current == (generation, token)
                && c.tokens.previous == Some(ctl.tokens.current) && c.previous_live
            &&& generation <= ctl.tokens.current.0 ==> c == ctl
            &&& c.pending == ctl.pending && c.phase == ctl.phase && c.channel_owner
                == ctl.channel_owner && c.last_seen_remote_epoch == ctl.last_seen_remote_epoch
        }),
{
}

/// Why an attempt to start a session is refused, and which session a refusal names.
pub proof fn refused_attempts_are_told_why(
    r: RegistryView,
    a: AdmissionView,
    sid: Seq<u8>,
    transport_epoch: u64,
    s: SessionView,
)
    requires
        sid.len() == 16,
    ensures
        ({
            let v = admission_reply(r, a, sid, transport_epoch);
            let p = v->Rejected_reply.payload;
            &&& v is Accepted <==> a is Admitted || a is Replaced
            &&& v is Rejected <==> a is Canonical || a is PeerMismatch || a is TokenMismatch
                || a is TokenRevoked
            &&& v is Rejected ==> v->Rejected_reply.frame_type == FrameType::SessionInitReject
                && v->Rejected_reply.session_id == sid
            &&& a is Canonical ==> p[0] == 1
            &&& a is PeerMismatch ==> p[0] == 3
            &&& a is TokenMismatch || a is TokenRevoked ==> p[0] == 2
            &&& a is Canonical && session_of(r, a->Canonical_0) == Some(s) ==> {
                &&& p.subrange(1, 17) == s.session_id@
                &&& be_value(p.subrange(17, 25)) == s.ctl.active_epoch
                &&& be_value(p.subrange(25, 33)) == s.ctl.tokens.current.0
            }
        }),
{
    start_payloads_have_their_layout(
        s.session_id@,
        s.session_id@,
        1,
        s.ctl.active_epoch,
        s.ctl.tokens.current.0,
    );
}

/// An attempt whose message is not in order is refused as malformed, and changes nothing.
pub proof fn malformed_attempts_change_nothing(
    r: RegistryView,
    campaigns: Seq<(Seq<char>, Seq<u8>)>,
    peer: Seq<char>,
    incoming: Option<Seq<u8>>,
    local: Seq<u8>,
    f: FrameView,
    transport_epoch: u64,
    limits: JournalLimits,
)
    requires
        f.payload.len() != 41 || f.payload[0] != 1 || f.payload.subrange(1, 17) != f.session_id
            || is_zero(f.payload.subrange(1, 17)) || is_zero(f.payload.subrange(17, 33))
            || be_value(f.payload.subrange(33, 41)) == 0,
    ensures
        ({
            let (q, c, v) = init_answer(
                r,
                campaigns,
                peer,
                incoming,
                local,
                f,
                transport_epoch,
                limits,
            );
            &&& q == r && c == campaigns
            &&& v is Rejected
            &&& v->Rejected_reply.payload[0] == 2
            &&& v->Rejected_reply.session_id == f.session_id
        }),
{
    if f.payload.len() == 41 {
        lemma_be_fields(f.payload.subrange(33, 41));
    }
}

/// A request to resume that is not in order, for a session that is not there, or from a peer
/// that saw a later connection than this one, is refused, each with a reason of its own, and
/// changes no session that is not over.
pub proof fn requests_out_of_order_are_refused(
    r: RegistryView,
    f: FrameView,
    transport_epoch: u64,
    new_token: Option<Id16>,
)
    requires
        r.wf(),
    ensures
        ({
            let (q, v) = resume_answer(r, f, transport_epoch, new_token);
            let reason = v->Rejected_reply.payload[0];
            let parsed = resume_init_of(f.payload);
            let there = has_key(reaped(r).sessions, f.session_id);
            &&& is_zero(f.session_id) ==> v is Rejected && reason == 2 && q == r
            &&& !is_zero(f.session_id) && parsed is None ==> v is Rejected && reason == 7 && q == r
            &&& !is_zero(f.session_id) && parsed is Some && !there ==> v is Rejected && q == reaped(
                r,
            ) && reason == (if reaped(r).tombstones.contains(f.session_id) {
                9u8
            } else {
                8u8
            })
            &&& !is_zero(f.session_id) && parsed is Some && there
                && (parsed->0).last_seen_remote_epoch > transport_epoch ==> v is Rejected && reason
                == 4 && q == reaped(r)
            &&& v is Rejected ==> v->Rejected_reply.session_id == f.session_id
        }),
{
    lemma_reaped_wf(r, 0);
    let g = reaped(r);
    if has_key(g.sessions, f.session_id) {
        let i = key_index(g.sessions, f.session_id);
        assert(0 <= i < g.sessions.len() && g.sessions[i].0 == f.session_id);
        assert(g.sessions[i].1.session.session_id@ == f.session_id);
    }
}

/// A message that is read as a request to resume is one: its version, its reserved byte and
/// the length of its token are what they must be, its connection and its token are not zero,
/// and it is as long as its reports make it.
pub proof fn only_requests_to_resume_are_read(p: Seq<u8>)
    requires
        resume_init_of(p) is Some,
    ensures
        ({
            let q = resume_init_of(p)->0;
            &&& p.len() == 54 + 36 * q.summaries.len()
            &&& p[0] == 1 && p[1] == 0
            &&& be_value(p.subrange(2, 4)) == q.summaries.len()
            &&& be_value(p.subrange(4, 12)) == q.local_connection_epoch
            &&& be_value(p.subrange(12, 20)) == q.last_seen_remote_epoch
            &&& p.subrange(20, 36) == q.nonce
            &&& be_value(p.subrange(36, 38)) == 16
            &&& p.subrange(38, 54) == q.token
            &&& q.local_connection_epoch != 0
            &&& !is_zero(q.token)
            &&& forall|i: int|
                0 <= i < q.summaries.len() ==> (#[trigger] q.summaries[i]).stream_id != 0
        }),
{
    let q = resume_init_of(p)->0;
    lemma_be_fields(p.subrange(2, 4));
    lemma_be_fields(p.subrange(4, 12));
    lemma_be_fields(p.subrange(12, 20));
    lemma_be_fields(p.subrange(36, 38));
    lemma_summaries_read(p, 54, u16_at(p, 2) as nat);
}

proof fn lemma_summaries_read(p: Seq<u8>, at: int, n: nat)
    requires
        summaries_at(p, at, n) is Some,
    ensures
        (summaries_at(p, at, n)->0).len() == n,
        forall|i: int|
            0 <= i < n ==> (#[trigger] (summaries_at(p, at, n)->0)[i]).stream_id != 0,
    decreases n,
{
    if n > 0 {
        lemma_summaries_read(p, at, (n - 1) as nat);
    }
}

/// The same of a message that is read as the acceptance of a resume.
pub proof fn only_acceptances_are_read(p: Seq<u8>)
    requires
        resume_ok_of(p) is Some,
    ensures
        ({
            let q = resume_ok_of(p)->0;
            &&& p.len() == 60 + 36 * q.replay_summaries.len()
            &&& p.subrange(0, 16) == q.accepted_session_id
            &&& be_value(p.subrange(16, 24)) == q.accepted_epoch
            &&& be_value(p.subrange(24, 32)) == q.peer_epoch
            &&& be_value(p.subrange(32, 40)) == q.new_generation
            &&& p.subrange(40, 56) == q.new_resume_token
            &&& be_value(p.subrange(56, 58)) == q.replay_summaries.len()
            &&& !is_zero(q.accepted_session_id) && !is_zero(q.new_resume_token)
            &&& q.accepted_epoch != 0 && q.peer_epoch != 0 && q.new_generation != 0
        }),
{
    let q = resume_ok_of(p)->0;
    lemma_be_fields(p.subrange(16, 24));
    lemma_be_fields(p.subrange(24, 32));
    lemma_be_fields(p.subrange(32, 40));
    lemma_be_fields(p.subrange(56, 58));
    lemma_summaries_read(p, 60, u16_at(p, 56) as nat);
}

} // verus!
