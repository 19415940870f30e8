//! State of the connection to each peer: the latest snapshot, the epoch of the adopted
//! connection, and the connection itself.
use vstd::prelude::*;
use vstd::string::*;

use crate::identity::{endpoint_id_display, endpoint_text, EndpointId};
use crate::session::LinkStatus;
use crate::table::{
    distinct_keys, has_key, key_index, lemma_key_index, lemma_with_value, lookup, with_value,
    IdTable,
};
use crate::radix::z32_of;

verus! {

/// Phase of the connection to a peer.
#[derive(Debug, Clone, Copy, PartialEq, Eq, Structural)]
pub enum ConnectionPhase {
    /// No connection and none wanted.
    Disconnected,
    /// Dialing, or waiting to dial again.
    Connecting,
    /// The transport is up, the connection not yet adopted.
    Handshaking,
    /// The connection is adopted.
    Ready,
    /// Shutting down.
    Closing,
}

/// The state of a connection at one moment.
#[derive(Debug, Clone, PartialEq, Eq)]
pub struct ConnectionStateSnapshot {
    /// The peer in its display form.
    pub peer_id: String,
    pub phase: ConnectionPhase,
    /// Epoch of the adopted connection, 0 before the first.
    pub epoch: u64,
    /// Grows with each change.
    pub state_seq: u64,
    pub path: LinkStatus,
    pub changed_at_ms: u64,
    pub reason: Option<String>,
}

/// What a [`ConnectionStateSnapshot`] holds.
pub struct SnapshotView {
    pub peer_id: Seq<char>,
    pub phase: ConnectionPhase,
    pub epoch: u64,
    pub state_seq: u64,
    pub path: LinkStatus,
    pub changed_at_ms: u64,
    pub reason: Option<Seq<char>>,
}

/// The view of an optional text.
pub open spec fn text_view(t: Option<String>) -> Option<Seq<char>> {
    match t {
        Some(s) => Some(s@),
        None => None,
    }
}

impl View for ConnectionStateSnapshot {
    type V = SnapshotView;

    open spec fn view(&self) -> SnapshotView {
        SnapshotView {
            peer_id: self.peer_id@,
            phase: self.phase,
            epoch: self.epoch,
            state_seq: self.state_seq,
            path: self.path,
            changed_at_ms: self.changed_at_ms,
            reason: text_view(self.reason),
        }
    }
}

/// A connection: the number under which the caller keeps it, and the endpoint that dialed.
#[derive(Debug, Clone, Copy, PartialEq, Eq)]
pub struct ConnHandle {
    pub conn: u64,
    pub initiator: EndpointId,
}

/// What is kept of one peer.
#[derive(Debug)]
pub struct PeerSlot {
    pub epoch_next: u64,
    pub seq_next: u64,
    pub snapshot: ConnectionStateSnapshot,
    pub handle: Option<ConnHandle>,
}

/// What a [`PeerSlot`] holds.
pub struct SlotView {
    pub epoch_next: u64,
    pub seq_next: u64,
    pub snapshot: SnapshotView,
    pub handle: Option<ConnHandle>,
}

impl View for PeerSlot {
    type V = SlotView;

    open spec fn view(&self) -> SlotView {
        SlotView {
            epoch_next: self.epoch_next,
            seq_next: self.seq_next,
            snapshot: self.snapshot@,
            handle: self.handle,
        }
    }
}

impl SlotView {
    /// The snapshot is behind the next numbers.
    pub open spec fn wf(self) -> bool {
        self.snapshot.epoch < self.epoch_next && self.snapshot.state_seq < self.seq_next
    }
}

/// The state of all connections.
#[derive(Debug)]
pub struct ContinuityState {
    slots: IdTable<32, PeerSlot>,
}

/// A peer of whom nothing has been heard.
pub open spec fn fresh_slot(peer: Seq<u8>, now_ms: u64) -> SlotView {
    SlotView {
        epoch_next: 1,
        seq_next: 1,
        snapshot: SnapshotView {
            peer_id: endpoint_text(peer),
            phase: ConnectionPhase::Disconnected,
            epoch: 0,
            state_seq: 0,
            path: LinkStatus::Unknown,
            changed_at_ms: now_ms,
            reason: None,
        },
        handle: None,
    }
}

/// The slot of a peer, made where there is none.
pub open spec fn slot_of(s: Seq<(Seq<u8>, SlotView)>, peer: Seq<u8>, now_ms: u64) -> SlotView {
    match lookup(s, peer) {
        Some(x) => x,
        None => fresh_slot(peer, now_ms),
    }
}

/// The slot with a connection adopted.
pub open spec fn adopted(x: SlotView, handle: ConnHandle, path: LinkStatus, now_ms: u64) -> SlotView {
    SlotView {
        epoch_next: (x.epoch_next + 1) as u64,
        seq_next: (x.seq_next + 1) as u64,
        handle: Some(handle),
        snapshot: SnapshotView {
            phase: ConnectionPhase::Ready,
            epoch: x.epoch_next,
            path,
            changed_at_ms: now_ms,
            reason: None,
            state_seq: x.seq_next,
            ..x.snapshot
        },
    }
}

/// The slot in another phase.
pub open spec fn in_phase(
    x: SlotView,
    phase: ConnectionPhase,
    reason: Option<Seq<char>>,
    clear_handle: bool,
    now_ms: u64,
) -> SlotView {
    SlotView {
        seq_next: (x.seq_next + 1) as u64,
        handle: if clear_handle {
            None
        } else {
            x.handle
        },
        snapshot: SnapshotView {
            phase,
            reason,
            changed_at_ms: now_ms,
            state_seq: x.seq_next,
            ..x.snapshot
        },
        ..x
    }
}

/// Every slot is well-formed.
pub open spec fn slots_wf(s: Seq<(Seq<u8>, SlotView)>) -> bool {
    &&& distinct_keys(s)
    &&& forall|i: int| 0 <= i < s.len() ==> (#[trigger] s[i]).1.wf()
}

/// The numbers of a slot can still grow.
pub open spec fn can_grow(x: SlotView) -> bool {
    x.epoch_next < u64::MAX && x.seq_next < u64::MAX
}

/// The numbers of every slot can still grow.
pub open spec fn all_can_grow(s: Seq<(Seq<u8>, SlotView)>) -> bool {
    forall|i: int| 0 <= i < s.len() ==> can_grow((#[trigger] s[i]).1)
}

/// All slots in another phase, without their connections.
pub open spec fn all_in_phase(
    s: Seq<(Seq<u8>, SlotView)>,
    phase: ConnectionPhase,
    reason: Seq<char>,
    now_ms: u64,
) -> Seq<(Seq<u8>, SlotView)> {
    Seq::new(
        s.len(),
        |i: int| (s[i].0, in_phase(s[i].1, phase, Some(reason), true, now_ms)),
    )
}

/// The connections of all slots, in order.
pub open spec fn connections(s: Seq<(Seq<u8>, SlotView)>) -> Seq<ConnHandle>
    decreases s.len(),
{
    if s.len() == 0 {
        Seq::empty()
    } else {
        match s.last().1.handle {
            Some(h) => connections(s.drop_last()).push(h),
            None => connections(s.drop_last()),
        }
    }
}

impl ContinuityState {
    pub closed spec fn view(&self) -> Seq<(Seq<u8>, SlotView)> {
        self.slots.view()
    }

    pub open spec fn wf(&self) -> bool {
        slots_wf(self.view())
    }

    pub fn new() -> (r: Self)
        ensures
            r.wf(),
            r.view() == Seq::<(Seq<u8>, SlotView)>::empty(),
    {
        ContinuityState { slots: IdTable::new() }
    }

    /// The place of a peer; it gets one where it has none.
    fn ensure_slot(&mut self, peer: &EndpointId, now_ms: u64) -> (i: usize)
        requires
            old(self).wf(),
        ensures
            final(self).wf(),
            i < final(self).view().len(),
            final(self).view()[i as int] == (peer@, slot_of(old(self).view(), peer@, now_ms)),
            final(self).view() == with_value(
                old(self).view(),
                peer@,
                slot_of(old(self).view(), peer@, now_ms),
            ),
    {
        let ghost s = self.view();
        let ghost x = slot_of(s, peer@, now_ms);
        proof {
            lemma_put_wf(s, peer@, x, now_ms);
        }
        match self.slots.find(peer.as_bytes()) {
            Some(i) => {
                proof {
                    lemma_key_index(s, i as int);
                    assert(s =~= with_value(s, peer@, x));
                }
                i
            },
            None => {
                let n: usize = self.slots.len();
                let snapshot = ConnectionStateSnapshot {
                    peer_id: endpoint_id_display(peer),
                    phase: ConnectionPhase::Disconnected,
                    epoch: 0,
                    state_seq: 0,
                    path: LinkStatus::Unknown,
                    changed_at_ms: now_ms,
                    reason: None,
                };
                self.slots.put(
                    peer.0,
                    PeerSlot { epoch_next: 1, seq_next: 1, snapshot, handle: None },
                );
                n
            },
        }
    }

    /// The latest snapshot of a peer.
    pub fn snapshot(&mut self, peer: &EndpointId, now_ms: u64) -> (r: ConnectionStateSnapshot)
        requires
            old(self).wf(),
        ensures
            final(self).wf(),
            final(self).view() == with_value(
                old(self).view(),
                peer@,
                slot_of(old(self).view(), peer@, now_ms),
            ),
            r@ == slot_of(old(self).view(), peer@, now_ms).snapshot,
    {
        let i: usize = self.ensure_slot(peer, now_ms);
        let s = &self.slots.at(i).snapshot;
        ConnectionStateSnapshot {
            peer_id: s.peer_id.clone(),
            phase: s.phase,
            epoch: s.epoch,
            state_seq: s.state_seq,
            path: s.path,
            changed_at_ms: s.changed_at_ms,
            reason: match &s.reason {
                Some(t) => Some(t.clone()),
                None => None,
            },
        }
    }

    /// The adopted connection of a peer.
    pub fn active(&self, peer: &EndpointId) -> (r: Option<ConnHandle>)
        requires
            self.wf(),
        ensures
            r == match lookup(self.view(), peer@) {
                Some(x) => x.handle,
                None => None,
            },
    {
        match self.slots.find(peer.as_bytes()) {
            Some(i) => self.slots.at(i).handle,
            None => None,
        }
    }

    /// Adopts a connection: it gets the next epoch and is ready.
    pub fn adopt(&mut self, peer: &EndpointId, handle: ConnHandle, path: LinkStatus, now_ms: u64) -> (r:
        u64)
        requires
            old(self).wf(),
            can_grow(slot_of(old(self).view(), peer@, now_ms)),
        ensures
            final(self).wf(),
            final(self).view() == with_value(
                old(self).view(),
                peer@,
                adopted(slot_of(old(self).view(), peer@, now_ms), handle, path, now_ms),
            ),
            r == slot_of(old(self).view(), peer@, now_ms).epoch_next,
    {
        let ghost s = self.view();
        let ghost x = slot_of(s, peer@, now_ms);
        let i: usize = self.ensure_slot(peer, now_ms);
        let ghost t = self.view();
        let slot = self.slots.at_mut(i);
        let epoch: u64 = slot.epoch_next;
        slot.epoch_next = epoch + 1;
        slot.handle = Some(handle);
        slot.snapshot.phase = ConnectionPhase::Ready;
        slot.snapshot.epoch = epoch;
        slot.snapshot.path = path;
        slot.snapshot.changed_at_ms = now_ms;
        slot.snapshot.reason = None;
        slot.snapshot.state_seq = slot.seq_next;
        slot.seq_next = slot.seq_next + 1;
        proof {
            lemma_slot_changed(s, t, peer@, x, adopted(x, handle, path, now_ms), i as int);
        }
        epoch
    }

    /// Sets the phase, with its reason; drops the connection where asked.
    pub fn set_phase(
        &mut self,
        peer: &EndpointId,
        phase: ConnectionPhase,
        reason: Option<String>,
        clear_handle: bool,
        now_ms: u64,
    )
        requires
            old(self).wf(),
            can_grow(slot_of(old(self).view(), peer@, now_ms)),
        ensures
            final(self).wf(),
            final(self).view() == with_value(
                old(self).view(),
                peer@,
                in_phase(
                    slot_of(old(self).view(), peer@, now_ms),
                    phase,
                    text_view(reason),
                    clear_handle,
                    now_ms,
                ),
            ),
    {
        let ghost s = self.view();
        let ghost x = slot_of(s, peer@, now_ms);
        let ghost why = text_view(reason);
        let i: usize = self.ensure_slot(peer, now_ms);
        let ghost t = self.view();
        let slot = self.slots.at_mut(i);
        if clear_handle {
            slot.handle = None;
        }
        slot.snapshot.phase = phase;
        slot.snapshot.reason = reason;
        slot.snapshot.changed_at_ms = now_ms;
        slot.snapshot.state_seq = slot.seq_next;
        slot.seq_next = slot.seq_next + 1;
        proof {
            lemma_slot_changed(
                s,
                t,
                peer@,
                x,
                in_phase(x, phase, why, clear_handle, now_ms),
                i as int,
            );
        }
    }

    /// Whether the numbers of every slot can still grow.
    pub fn has_room(&self) -> (r: bool)
        ensures
            r == all_can_grow(self.view()),
    {
        let n: usize = self.slots.len();
        let mut i: usize = 0;
        while i < n
            invariant
                i <= n,
                n == self.view().len(),
                forall|k: int| 0 <= k < i ==> can_grow((#[trigger] self.view()[k]).1),
            decreases n - i,
        {
            let slot = self.slots.at(i);
            if slot.epoch_next == u64::MAX || slot.seq_next == u64::MAX {
                assert(!can_grow(self.view()[i as int].1));
                return false;
            }
            assert(can_grow(self.view()[i as int].1));
            i = i + 1;
        }
        true
    }

    /// Drops all connections and sets their phase; gives the connections to close.
    pub fn close_all(&mut self, phase: ConnectionPhase, reason: &str, now_ms: u64) -> (r: Vec<
        ConnHandle,
    >)
        requires
            old(self).wf(),
            all_can_grow(old(self).view()),
        ensures
            final(self).wf(),
            final(self).view() == all_in_phase(old(self).view(), phase, reason@, now_ms),
            r@ == connections(old(self).view()),
    {
        let ghost s = self.view();
        let ghost goal = all_in_phase(s, phase, reason@, now_ms);
        let n: usize = self.slots.len();
        let mut out: Vec<ConnHandle> = Vec::new();
        let mut i: usize = 0;
        assert(s.subrange(0, 0) =~= Seq::<(Seq<u8>, SlotView)>::empty());
        while i < n
            invariant
                i <= n,
                n == s.len(),
                slots_wf(s),
                all_can_grow(s),
                goal == all_in_phase(s, phase, reason@, now_ms),
                self.view().len() == n,
                forall|k: int| 0 <= k < i ==> #[trigger] self.view()[k] == goal[k],
                forall|k: int| i <= k < n ==> #[trigger] self.view()[k] == s[k],
                out@ == connections(s.subrange(0, i as int)),
            decreases n - i,
        {
            proof {
                let t = s.subrange(0, i + 1);
                assert(t.drop_last() =~= s.subrange(0, i as int));
                assert(t.last() == s[i as int]);
                assert(self.view()[i as int] == s[i as int]);
                assert(can_grow(s[i as int].1));
            }
            let slot = self.slots.at_mut(i);
            if let Some(h) = slot.handle {
                out.push(h);
            }
            slot.handle = None;
            slot.snapshot.phase = phase;
            slot.snapshot.reason = Some(reason.to_owned());
            slot.snapshot.changed_at_ms = now_ms;
            slot.snapshot.state_seq = slot.seq_next;
            slot.seq_next = slot.seq_next + 1;
            i = i + 1;
        }
        proof {
            assert(s.subrange(0, n as int) =~= s);
            assert(self.view() =~= goal);
            assert forall|k: int| 0 <= k < goal.len() implies (#[trigger] goal[k]).1.wf() by {
                assert(s[k].1.wf());
                assert(can_grow(s[k].1));
            }
            assert(distinct_keys(goal)) by {
                assert forall|a: int, b: int|
                    0 <= a < goal.len() && 0 <= b < goal.len() && a != b implies (
                #[trigger] goal[a]).0 != (#[trigger] goal[b]).0 by {
                    assert(s[a].0 != s[b].0);
                }
            }
        }
        out
    }
}

proof fn lemma_put_wf(s: Seq<(Seq<u8>, SlotView)>, peer: Seq<u8>, x: SlotView, now_ms: u64)
    requires
        slots_wf(s),
        x == slot_of(s, peer, now_ms) || x.wf(),
    ensures
        slots_wf(with_value(s, peer, x)),
{
    lemma_with_value(s, peer, x);
    let t = with_value(s, peer, x);
    assert forall|i: int| 0 <= i < t.len() implies (#[trigger] t[i]).1.wf() by {
        if has_key(s, peer) {
            let k = key_index(s, peer);
            assert(0 <= k < s.len() && s[k].0 == peer);
            assert(s[k].1.wf());
        }
        if i < s.len() && t[i] == s[i] {
            assert(s[i].1.wf());
        }
    }
}

proof fn lemma_slot_changed(
    s: Seq<(Seq<u8>, SlotView)>,
    t: Seq<(Seq<u8>, SlotView)>,
    peer: Seq<u8>,
    x: SlotView,
    y: SlotView,
    i: int,
)
    requires
        slots_wf(s),
        slots_wf(t),
        t == with_value(s, peer, x),
        0 <= i < t.len(),
        t[i] == (peer, x),
        y.wf(),
    ensures
        t.update(i, (peer, y)) == with_value(s, peer, y),
        slots_wf(t.update(i, (peer, y))),
{
    lemma_key_index(t, i);
    lemma_put_wf(s, peer, y, 0);
    if has_key(s, peer) {
        let k = key_index(s, peer);
        assert(0 <= k < s.len() && s[k].0 == peer);
        assert(t[k].0 == peer);
        assert(k == i) by {
            if k != i {
                assert(t[k].0 != t[i].0);
            }
        }
        assert(t.update(i, (peer, y)) =~= with_value(s, peer, y));
    } else {
        assert(t[s.len() as int].0 == peer);
        assert(i == s.len()) by {
            if i != s.len() {
                assert(t[i].0 != t[s.len() as int].0);
            }
        }
        assert(t.update(i, (peer, y)) =~= with_value(s, peer, y));
    }
}

// ---- laws -------------------------------------------------------------------------

/// Each adoption has a later epoch than all before, and each change a later number.
pub proof fn epochs_and_numbers_only_grow(
    x: SlotView,
    handle: ConnHandle,
    path: LinkStatus,
    phase: ConnectionPhase,
    reason: Option<Seq<char>>,
    clear_handle: bool,
    now_ms: u64,
)
    requires
        x.wf(),
        can_grow(x),
    ensures
        adopted(x, handle, path, now_ms).snapshot.epoch > x.snapshot.epoch,
        adopted(x, handle, path, now_ms).snapshot.state_seq > x.snapshot.state_seq,
        adopted(x, handle, path, now_ms).wf(),
        in_phase(x, phase, reason, clear_handle, now_ms).snapshot.epoch == x.snapshot.epoch,
        in_phase(x, phase, reason, clear_handle, now_ms).snapshot.state_seq > x.snapshot.state_seq,
        in_phase(x, phase, reason, clear_handle, now_ms).wf(),
{
}

/// An adopted connection is the one of its peer: the peer is ready on it, with the path it
/// has and no reason, and the connection gets the next epoch.
pub proof fn adopted_connections_are_ready(
    x: SlotView,
    handle: ConnHandle,
    path: LinkStatus,
    now_ms: u64,
)
    requires
        x.wf(),
        can_grow(x),
    ensures
        ({
            let y = adopted(x, handle, path, now_ms);
            &&& y.handle == Some(handle)
            &&& y.snapshot.phase == ConnectionPhase::Ready
            &&& y.snapshot.epoch == x.epoch_next
            &&& y.epoch_next == x.epoch_next + 1
            &&& y.snapshot.state_seq == x.seq_next
            &&& y.seq_next == x.seq_next + 1
            &&& y.snapshot.path == path
            &&& y.snapshot.reason is None
            &&& y.snapshot.changed_at_ms == now_ms
            &&& y.snapshot.peer_id == x.snapshot.peer_id
        }),
{
}

/// A change of phase tells the phase, the reason and the moment, and keeps the rest; the
/// connection is dropped only where that is asked.
pub proof fn phases_are_told_with_their_reason(
    x: SlotView,
    phase: ConnectionPhase,
    reason: Option<Seq<char>>,
    clear_handle: bool,
    now_ms: u64,
)
    requires
        x.wf(),
        can_grow(x),
    ensures
        ({
            let y = in_phase(x, phase, reason, clear_handle, now_ms);
            &&& y.snapshot.phase == phase
            &&& y.snapshot.reason == reason
            &&& y.snapshot.changed_at_ms == now_ms
            &&& y.snapshot.state_seq == x.seq_next
            &&& y.seq_next == x.seq_next + 1
            &&& y.epoch_next == x.epoch_next
            &&& y.snapshot.epoch == x.snapshot.epoch
            &&& y.snapshot.path == x.snapshot.path
            &&& y.snapshot.peer_id == x.snapshot.peer_id
            &&& clear_handle ==> y.handle is None
            &&& !clear_handle ==> y.handle == x.handle
        }),
{
}

/// Closing everything leaves no peer a connection, tells all of them the phase and the
/// reason, and gives exactly the connections that there were.
pub proof fn closing_drops_every_connection(
    s: Seq<(Seq<u8>, SlotView)>,
    phase: ConnectionPhase,
    reason: Seq<char>,
    now_ms: u64,
    i: int,
)
    requires
        0 <= i < s.len(),
        all_can_grow(s),
    ensures
        ({
            let t = all_in_phase(s, phase, reason, now_ms);
            &&& t.len() == s.len()
            &&& t[i].0 == s[i].0
            &&& t[i].1.handle is None
            &&& t[i].1.snapshot.phase == phase
            &&& t[i].1.snapshot.reason == Some(reason)
            &&& t[i].1.snapshot.epoch == s[i].1.snapshot.epoch
            &&& s[i].1.handle is Some ==> connections(s).contains(s[i].1.handle->0)
        }),
        forall|k: int|
            0 <= k < connections(s).len() ==> exists|j: int|
                0 <= j < s.len() && (#[trigger] s[j]).1.handle == Some(#[trigger] connections(s)[k]),
{
    lemma_connections(s, i);
    assert forall|k: int| 0 <= k < connections(s).len() implies exists|j: int|
        0 <= j < s.len() && (#[trigger] s[j]).1.handle == Some(#[trigger] connections(s)[k]) by {
        lemma_connections_from(s, k);
    }
}

proof fn lemma_connections(s: Seq<(Seq<u8>, SlotView)>, i: int)
    requires
        0 <= i < s.len(),
    ensures
        s[i].1.handle is Some ==> connections(s).contains(s[i].1.handle->0),
    decreases s.len(),
{
    if s[i].1.handle is Some {
        let h = s[i].1.handle->0;
        let before = connections(s.drop_last());
        if i < s.len() - 1 {
            lemma_connections(s.drop_last(), i);
            let k = choose|k: int| 0 <= k < before.len() && before[k] == h;
            assert(connections(s)[k] == h);
        } else {
            assert(connections(s)[before.len() as int] == h);
        }
    }
}

proof fn lemma_connections_from(s: Seq<(Seq<u8>, SlotView)>, k: int)
    requires
        0 <= k < connections(s).len(),
    ensures
        exists|j: int| 0 <= j < s.len() && (#[trigger] s[j]).1.handle == Some(connections(s)[k]),
    decreases s.len(),
{
    if s.len() > 0 {
        let u = s.drop_last();
        if k < connections(u).len() {
            lemma_connections_from(u, k);
            let j = choose|j: int|
                0 <= j < u.len() && (#[trigger] u[j]).1.handle == Some(connections(u)[k]);
            assert(s[j] == u[j]);
        } else {
            assert(s[s.len() - 1].1.handle == Some(connections(s)[k]));
        }
    }
}

/// A peer of whom nothing was heard is disconnected, without a connection, a path or a reason,
/// and is named by the text of its endpoint.
pub proof fn unheard_peers_are_disconnected(s: Seq<(Seq<u8>, SlotView)>, peer: Seq<u8>, now_ms: u64)
    requires
        !has_key(s, peer),
    ensures
        ({
            let x = slot_of(s, peer, now_ms);
            &&& x.handle is None
            &&& x.snapshot.phase == ConnectionPhase::Disconnected
            &&& x.snapshot.peer_id == z32_of(peer)
            &&& x.snapshot.epoch == 0 && x.snapshot.state_seq == 0
            &&& x.epoch_next == 1 && x.seq_next == 1
            &&& x.snapshot.path == LinkStatus::Unknown
            &&& x.snapshot.reason is None
        }),
{
}

} // verus!
