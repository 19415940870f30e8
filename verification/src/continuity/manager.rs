//! Keeping one connection to each peer: when to dial, which of two connections stays, and
//! when to dial again.
use vstd::prelude::*;
use vstd::string::*;

use crate::continuity::state::{
    adopted, can_grow, in_phase, slot_of, text_view, ConnHandle, ConnectionPhase, ContinuityState,
    SlotView,
};
use crate::identity::{endpoint_before, endpoint_id_display, endpoint_text, EndpointId};
use crate::octets::be_value;
use crate::session::{connect_err, connect_error, FabricError, LinkStatus, SessionError};
use crate::table::{lemma_put_twice, lemma_with_value, lookup, with_value};

verus! {

/// First wait before dialing again, in milliseconds.
pub const BACKOFF_START_MS: u64 = 1000;

/// Longest wait before dialing again, in milliseconds.
pub const BACKOFF_MAX_MS: u64 = 30_000;

/// The wait after another failure: twice as long, up to the longest.
pub open spec fn longer_wait(ms: u64) -> u64 {
    if 2 * ms <= BACKOFF_MAX_MS {
        (2 * ms) as u64
    } else {
        BACKOFF_MAX_MS
    }
}

/// The wait after another failure: twice as long, up to the longest.
pub fn next_backoff(ms: u64) -> (r: u64)
    ensures
        r == longer_wait(ms),
{
    if ms <= BACKOFF_MAX_MS / 2 {
        2 * ms
    } else {
        BACKOFF_MAX_MS
    }
}

/// What to do to get a connection.
#[derive(Debug)]
pub enum ConnectStep {
    /// Use the connection that is there.
    Use(ConnHandle),
    /// Dial.
    Dial,
    /// The node is shutting down.
    Fail(FabricError),
}

/// What to do to get a connection to a peer.
pub fn ensure_connection(state: &ContinuityState, remote: &EndpointId, closing: bool) -> (r:
    ConnectStep)
    requires
        state.wf(),
    ensures
        match lookup(state.view(), remote@) {
            Some(x) if x.handle is Some => r == ConnectStep::Use(x.handle->0),
            _ => if closing {
                match r {
                    ConnectStep::Fail(e) => connect_error(e, "fabric is shutting down"@),
                    _ => false,
                }
            } else {
                r == ConnectStep::Dial
            },
        },
{
    if let Some(h) = state.active(remote) {
        return ConnectStep::Use(h);
    }
    if closing {
        return ConnectStep::Fail(connect_err("fabric is shutting down".to_owned()));
    }
    ConnectStep::Dial
}

/// The slot of a peer that is dialed, or that is not because it is no member.
pub open spec fn dialed(x: SlotView, is_member: bool, now_ms: u64) -> SlotView {
    let y = in_phase(x, ConnectionPhase::Connecting, None, false, now_ms);
    if is_member {
        y
    } else {
        in_phase(y, ConnectionPhase::Disconnected, Some("not a member"@), false, now_ms)
    }
}

/// The slot of a peer that could not be dialed.
pub open spec fn undialed(x: SlotView, text: Seq<char>, now_ms: u64) -> SlotView {
    in_phase(x, ConnectionPhase::Disconnected, Some(text), false, now_ms)
}

/// The slot of a peer that was dialed, while it has no connection.
pub open spec fn reached(x: SlotView, now_ms: u64) -> SlotView {
    in_phase(x, ConnectionPhase::Handshaking, None, false, now_ms)
}

/// The slot of a peer whose connection was lost.
pub open spec fn lost(x: SlotView, reason: Option<Seq<char>>, now_ms: u64) -> SlotView {
    in_phase(
        x,
        ConnectionPhase::Disconnected,
        match reason {
            Some(t) => Some(t),
            None => Some("connection lost"@),
        },
        true,
        now_ms,
    )
}

/// The slot of a peer after a new connection came, and whether that one stays.
pub open spec fn contested(x: SlotView, candidate: ConnHandle, path: LinkStatus, now_ms: u64) -> (
    SlotView,
    bool,
) {
    match x.handle {
        Some(h) if !candidate_wins(candidate, h) => (
            in_phase(x, ConnectionPhase::Ready, None, false, now_ms),
            false,
        ),
        _ => (adopted(x, candidate, path, now_ms), true),
    }
}

/// Begins to dial; a peer that is no member is refused.
pub fn begin_dial(state: &mut ContinuityState, remote: &EndpointId, is_member: bool, now_ms: u64) -> (r:
    Result<(), FabricError>)
    requires
        old(state).wf(),
        slot_of(old(state).view(), remote@, now_ms).seq_next < u64::MAX - 1,
        slot_of(old(state).view(), remote@, now_ms).epoch_next < u64::MAX,
    ensures
        final(state).wf(),
        final(state).view() == with_value(
            old(state).view(),
            remote@,
            dialed(slot_of(old(state).view(), remote@, now_ms), is_member, now_ms),
        ),
        r is Ok <==> is_member,
        match r {
            Ok(_) => true,
            Err(FabricError::Session(SessionError::NotMember(m))) => m@ == endpoint_text(remote@),
            _ => false,
        },
{
    let ghost s = state.view();
    let ghost x = in_phase(
        slot_of(s, remote@, now_ms),
        ConnectionPhase::Connecting,
        None,
        false,
        now_ms,
    );
    state.set_phase(remote, ConnectionPhase::Connecting, None, false, now_ms);
    if !is_member {
        proof {
            lemma_with_value(s, remote@, x);
            assert(slot_of(state.view(), remote@, now_ms) == x);
        }
        state.set_phase(
            remote,
            ConnectionPhase::Disconnected,
            Some("not a member".to_owned()),
            false,
            now_ms,
        );
        proof {
            lemma_put_twice(
                s,
                remote@,
                x,
                in_phase(x, ConnectionPhase::Disconnected, Some("not a member"@), false, now_ms),
            );
        }
        return Err(FabricError::Session(SessionError::NotMember(endpoint_id_display(remote))));
    }
    Ok(())
}

/// Dialing has failed.
pub fn dial_failed(state: &mut ContinuityState, remote: &EndpointId, text: String, now_ms: u64) -> (r:
    FabricError)
    requires
        old(state).wf(),
        can_grow(slot_of(old(state).view(), remote@, now_ms)),
    ensures
        final(state).wf(),
        final(state).view() == with_value(
            old(state).view(),
            remote@,
            undialed(slot_of(old(state).view(), remote@, now_ms), text@, now_ms),
        ),
        connect_error(r, text@),
{
    state.set_phase(
        remote,
        ConnectionPhase::Disconnected,
        Some(text.clone()),
        false,
        now_ms,
    );
    connect_err(text)
}

/// Dialing has succeeded: the connection is being negotiated, unless the peer's own
/// connection was adopted meanwhile.
pub fn dial_connected(state: &mut ContinuityState, remote: &EndpointId, now_ms: u64)
    requires
        old(state).wf(),
        can_grow(slot_of(old(state).view(), remote@, now_ms)),
    ensures
        final(state).wf(),
        final(state).view() == match lookup(old(state).view(), remote@) {
            Some(x) if x.handle is Some => old(state).view(),
            _ => with_value(
                old(state).view(),
                remote@,
                reached(slot_of(old(state).view(), remote@, now_ms), now_ms),
            ),
        },
{
    if state.active(remote).is_none() {
        state.set_phase(remote, ConnectionPhase::Handshaking, None, false, now_ms);
    }
}

/// What becomes of a new connection.
#[derive(Debug)]
pub enum WinnerStep {
    /// The new connection is adopted; the old one, if there is one, is to be closed.
    Adopted { epoch: u64, close: Option<ConnHandle> },
    /// The old connection stays; the new one is to be closed.
    Kept(ConnHandle),
}

/// The new connection takes the place of the old one: its initiator comes first.
pub open spec fn candidate_wins(candidate: ConnHandle, old_handle: ConnHandle) -> bool {
    endpoint_before(candidate.initiator@, old_handle.initiator@)
}

/// Takes a new connection to a peer: of two, the one whose initiator comes first stays.
pub fn adopt_with_winner(
    state: &mut ContinuityState,
    remote: &EndpointId,
    candidate: ConnHandle,
    path: LinkStatus,
    now_ms: u64,
) -> (r: WinnerStep)
    requires
        old(state).wf(),
        can_grow(slot_of(old(state).view(), remote@, now_ms)),
    ensures
        final(state).wf(),
        ({
            let x = slot_of(old(state).view(), remote@, now_ms);
            let (y, stays) = contested(x, candidate, path, now_ms);
            &&& final(state).view() == with_value(old(state).view(), remote@, y)
            &&& stays ==> r == (WinnerStep::Adopted { epoch: x.epoch_next, close: x.handle })
            &&& !stays ==> x.handle is Some && r == WinnerStep::Kept(x.handle->0)
        }),
{
    let existing = state.active(remote);
    if let Some(h) = existing {
        if !candidate.initiator.before(&h.initiator) {
            state.set_phase(remote, ConnectionPhase::Ready, None, false, now_ms);
            return WinnerStep::Kept(h);
        }
    }
    let epoch: u64 = state.adopt(remote, candidate, path, now_ms);
    WinnerStep::Adopted { epoch, close: existing }
}

/// Of two connections that both ends hold, both ends keep the same one.
pub proof fn both_ends_keep_the_same_connection(a: ConnHandle, b: ConnHandle)
    requires
        a.initiator@ != b.initiator@,
    ensures
        candidate_wins(a, b) != candidate_wins(b, a),
{
    crate::identity::endpoints_are_totally_ordered(a.initiator@, b.initiator@);
}

/// What to do when a connection has closed.
#[derive(Debug, Clone, Copy, PartialEq, Eq, Structural)]
pub enum CloseStep {
    /// Nothing: the close was meant, or the node is shutting down.
    Leave,
    /// Note the loss and dial again after a wait.
    Reconnect,
}

/// What to do when a connection has closed.
pub fn after_close(closing: bool, deliberate: bool) -> (r: CloseStep)
    ensures
        r == if closing || deliberate {
            CloseStep::Leave
        } else {
            CloseStep::Reconnect
        },
{
    if closing || deliberate {
        CloseStep::Leave
    } else {
        CloseStep::Reconnect
    }
}

/// A connection was lost: the peer is disconnected, with the reason.
pub fn connection_lost(
    state: &mut ContinuityState,
    remote: &EndpointId,
    reason: Option<String>,
    now_ms: u64,
)
    requires
        old(state).wf(),
        can_grow(slot_of(old(state).view(), remote@, now_ms)),
    ensures
        final(state).wf(),
        final(state).view() == with_value(
            old(state).view(),
            remote@,
            lost(slot_of(old(state).view(), remote@, now_ms), text_view(reason), now_ms),
        ),
{
    let why = match reason {
        Some(t) => t,
        None => "connection lost".to_owned(),
    };
    state.set_phase(remote, ConnectionPhase::Disconnected, Some(why), true, now_ms);
}

/// What to do after an attempt to dial again.
#[derive(Debug, Clone, Copy, PartialEq, Eq, Structural)]
pub enum RedialStep {
    /// Done: connected, or the peer is no member any more.
    Stop,
    /// Wait this long and dial again.
    Again { backoff_ms: u64 },
}

/// What to do after an attempt to dial again.
pub fn after_redial(outcome: &Result<(), FabricError>, backoff_ms: u64) -> (r: RedialStep)
    ensures
        r == match outcome {
            Ok(()) => RedialStep::Stop,
            Err(FabricError::Session(SessionError::NotMember(_))) => RedialStep::Stop,
            Err(_) => RedialStep::Again { backoff_ms: longer_wait(backoff_ms) },
        },
{
    match outcome {
        Ok(()) => RedialStep::Stop,
        Err(FabricError::Session(SessionError::NotMember(_))) => RedialStep::Stop,
        Err(_) => RedialStep::Again { backoff_ms: next_backoff(backoff_ms) },
    }
}

// ---- laws -------------------------------------------------------------------------

/// Each wait is twice the one before, until it is half a minute; it stays that long then.
pub proof fn waits_grow_to_half_a_minute(ms: u64)
    ensures
        longer_wait(ms) <= 30_000,
        ms <= 15_000 ==> longer_wait(ms) == ms + ms,
        ms >= 15_000 ==> longer_wait(ms) == 30_000,
        0 < ms <= 30_000 ==> longer_wait(ms) >= ms,
{
}

/// Dialing never takes a connection from a peer, whether it is begun, fails or succeeds, and
/// tells how far it has come: a member is being connected, a peer that is none is not, with
/// that reason, and a failure is told with its text.
pub proof fn dialing_keeps_the_connection(
    x: SlotView,
    is_member: bool,
    text: Seq<char>,
    now_ms: u64,
)
    requires
        x.wf(),
        x.seq_next < u64::MAX - 1,
    ensures
        dialed(x, is_member, now_ms).handle == x.handle,
        undialed(x, text, now_ms).handle == x.handle,
        reached(x, now_ms).handle == x.handle,
        dialed(x, true, now_ms).snapshot.phase == ConnectionPhase::Connecting,
        dialed(x, true, now_ms).snapshot.reason is None,
        dialed(x, false, now_ms).snapshot.phase == ConnectionPhase::Disconnected,
        dialed(x, false, now_ms).snapshot.reason == Some("not a member"@),
        undialed(x, text, now_ms).snapshot.phase == ConnectionPhase::Disconnected,
        undialed(x, text, now_ms).snapshot.reason == Some(text),
        reached(x, now_ms).snapshot.phase == ConnectionPhase::Handshaking,
        dialed(x, is_member, now_ms).snapshot.epoch == x.snapshot.epoch,
        dialed(x, is_member, now_ms).snapshot.state_seq > x.snapshot.state_seq,
{
}

/// A lost connection is gone, and the peer is told disconnected with the reason, or with a
/// loss where there is none.
pub proof fn lost_connections_are_gone(x: SlotView, reason: Option<Seq<char>>, now_ms: u64)
    requires
        x.wf(),
        can_grow(x),
    ensures
        lost(x, reason, now_ms).handle is None,
        lost(x, reason, now_ms).snapshot.phase == ConnectionPhase::Disconnected,
        reason is Some ==> lost(x, reason, now_ms).snapshot.reason == reason,
        reason is None ==> lost(x, reason, now_ms).snapshot.reason == Some("connection lost"@),
        lost(x, reason, now_ms).epoch_next == x.epoch_next,
{
}

/// A peer has one connection: a new one stays exactly if there is none, or if the endpoint
/// that made it comes before the one that made the old one. The peer is ready on the one
/// that stays, and only a new one gets a new epoch.
pub proof fn peers_have_one_connection(
    x: SlotView,
    candidate: ConnHandle,
    path: LinkStatus,
    now_ms: u64,
)
    requires
        x.wf(),
        can_grow(x),
    ensures
        ({
            let (y, stays) = contested(x, candidate, path, now_ms);
            &&& stays <==> x.handle is None || be_value(candidate.initiator@) < be_value(
                (x.handle->0).initiator@,
            )
            &&& stays ==> y.handle == Some(candidate) && y.snapshot.epoch == x.epoch_next
                && y.snapshot.path == path
            &&& !stays ==> y.handle == x.handle && y.snapshot.epoch == x.snapshot.epoch
                && y.epoch_next == x.epoch_next
            &&& y.snapshot.phase == ConnectionPhase::Ready
            &&& y.snapshot.reason is None
        }),
{
}

} // verus!
