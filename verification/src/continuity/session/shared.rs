//! The core of a session that both ends share: what frames from the peer do to it, what
//! the application takes and sends, and what has to be sent again after a resume.
use vstd::prelude::*;
use vstd::string::*;
use vstd::utf8::encode_utf8;

use crate::continuity::frame::{flags, Direction, Frame, FrameType, FrameView};
use crate::continuity::model::{
    acknowledged, byte_views, fed, feeding_accounts_for_every_byte, journal_error_text,
    record_fault, recorded, total_len, JournalError, JournalLimits, SegmentAction,
    SegmentActionView,
};
use crate::continuity::segments::{starts_at, total_bytes, SegmentView};
use crate::continuity::session::control::{
    confirmed, decidable, decided, install_allowed, installed, lemma_id16, rotated_to, same16, Id16, InstallPolicy,
    InstallStep, ResumeCtl, ResumeDecision, SessionPhase, TokenWindow,
};
use crate::continuity::session::frames::{
    ack_view, batch_views, frame_view, idem_key_of, interleave_replay, interleaved, item_views,
    mk_ack, mk_frame, mk_reset, open_payload, open_text, parse_idem_key, part_views, reset_view,
    Batches,
};
use crate::continuity::session::streams::{
    active_total, count_active, count_segments, fresh_stream, gap_measure, gap_total, held_measure,
    held_total, queue_measure, queued_total, segment_measure, segment_total, streams_wf,
    sum_gap_bytes, sum_held_bytes, sum_queued, DeliverQueue, QueueView, StreamCtx, StreamView,
};
use crate::continuity::session::wire::StreamSummary;
use crate::continuity::transport::frame_views;
use crate::outside::lossy_chars;
use crate::session::{connect_err, connect_error, FabricError};
use crate::table::{
    distinct_keys, has_key, key_index, lemma_key_index, lemma_put_then_remove, lemma_sum_push,
    lemma_sum_update, lemma_with_value, lemma_without_key, lookup, value_of, with_value, without_key, NameTable,
    Table,
};
use crate::text::{cat3, decimal, decimal_text};

verus! {

/// Early segments of one stream.
pub const GAP_CAP: usize = 64;

/// Bytes of early segments of one stream.
pub const GAP_BYTE_CAP: usize = 2 * 1024 * 1024;

/// Bytes of early segments of all streams.
pub const GAP_SESSION_BYTE_CAP: usize = 8 * 1024 * 1024;

/// Bytes in a delivery queue from which its consumer counts as slow.
pub const DELIVER_QUEUE_CAP: usize = 256 * 1024;

/// Bytes in the delivery queue of one stream.
pub const DELIVER_QUEUE_STREAM_CAP: usize = 2 * 1024 * 1024;

/// Bytes in the delivery queues of all streams.
pub const DELIVER_QUEUE_SESSION_CAP: usize = 8 * 1024 * 1024;

/// Streams that may be active at a time.
pub const MAX_ACTIVE_STREAMS: usize = 128;

/// How far the request of a stream has come. It never goes back, so its side effects
/// happen once.
#[derive(Debug, Clone, Copy, PartialEq, Eq, Structural)]
pub enum RequestState {
    Accepted,
    Started,
    Completed,
}

/// A request and its idempotency key.
#[derive(Debug)]
pub struct Request {
    pub state: RequestState,
    pub key: String,
}

/// What a [`Request`] holds.
pub struct RequestView {
    pub state: RequestState,
    pub key: Seq<char>,
}

impl View for Request {
    type V = RequestView;

    open spec fn view(&self) -> RequestView {
        RequestView { state: self.state, key: self.key@ }
    }
}

/// The state of one session.
#[derive(Debug)]
pub struct SessionShared {
    pub session_id: Id16,
    pub peer_id: String,
    is_client: bool,
    ctl: ResumeCtl,
    streams: Table<StreamCtx>,
    next_stream_id: u64,
    requests: Table<Request>,
    idem_index: NameTable<u64>,
    aliases: Table<u64>,
    stream_keys: Table<String>,
    open_metas: Table<Vec<u8>>,
    delivered: Table<DeliverQueue>,
    stale_frame_count: u64,
    ack_violation_count: u64,
    protocol_violation_count: u64,
    resume_in_flight: bool,
    limits: JournalLimits,
}

/// What a [`SessionShared`] holds.
pub struct SessionView {
    pub session_id: Id16,
    pub peer_id: Seq<char>,
    pub is_client: bool,
    pub ctl: ResumeCtl,
    pub streams: Seq<(u64, StreamView)>,
    pub next_stream_id: u64,
    pub requests: Seq<(u64, RequestView)>,
    /// Stream of each idempotency key.
    pub idem: Seq<(Seq<char>, u64)>,
    /// Streams that stand for another one with the same key.
    pub aliases: Seq<(u64, u64)>,
    /// Idempotency key of each stream.
    pub keys: Seq<(u64, Seq<char>)>,
    /// OPEN payload of each stream.
    pub metas: Seq<(u64, Seq<u8>)>,
    /// What was delivered and not yet taken.
    pub queues: Seq<(u64, QueueView)>,
    /// Frames of other sessions or of a superseded channel.
    pub stale: u64,
    /// Acknowledgements of bytes that were not sent.
    pub ack_violations: u64,
    /// Other frames that break the protocol.
    pub violations: u64,
    pub resuming: bool,
    pub limits: JournalLimits,
}

/// The queue of a stream: well-formed, within its cap, and with the bytes taken not
/// beyond what the window delivered.
pub open spec fn queue_fits(streams: Seq<(u64, StreamView)>, id: u64, q: QueueView) -> bool {
    &&& q.wf()
    &&& q.bytes <= DELIVER_QUEUE_STREAM_CAP
    &&& has_key(streams, id)
    &&& value_of(streams, id).committed + q.bytes <= value_of(streams, id).recv.expected
}

impl SessionView {
    pub open spec fn tables_wf(self) -> bool {
        &&& distinct_keys(self.streams)
        &&& distinct_keys(self.requests)
        &&& distinct_keys(self.idem)
        &&& distinct_keys(self.aliases)
        &&& distinct_keys(self.keys)
        &&& distinct_keys(self.metas)
        &&& distinct_keys(self.queues)
    }

    /// The tables are in order, every stream is well-formed, and the bounds on what is
    /// held back, journaled and queued hold.
    pub open spec fn wf(self) -> bool {
        &&& self.ctl.wf()
        &&& self.tables_wf()
        &&& streams_wf(self.streams)
        &&& gap_total(self.streams) <= GAP_SESSION_BYTE_CAP
        &&& held_total(self.streams) <= self.limits.max_session_bytes
        &&& segment_total(self.streams) <= self.limits.max_session_segments
        &&& forall|i: int|
            0 <= i < self.queues.len() ==> queue_fits(
                self.streams,
                (#[trigger] self.queues[i]).0,
                self.queues[i].1,
            )
        &&& queued_total(self.queues) <= DELIVER_QUEUE_SESSION_CAP
    }

    /// Direction of the data that the peer sends.
    pub open spec fn recv_direction(self) -> Direction {
        if self.is_client {
            Direction::ProviderToClient
        } else {
            Direction::ClientToProvider
        }
    }

    /// Direction of the data that this side sends.
    pub open spec fn send_direction(self) -> Direction {
        if self.is_client {
            Direction::ClientToProvider
        } else {
            Direction::ProviderToClient
        }
    }

    /// The stream that a stream id stands for.
    pub open spec fn resolve(self, raw: u64) -> u64 {
        match lookup(self.aliases, raw) {
            Some(c) => c,
            None => raw,
        }
    }
}

/// A counter one further; it starts again behind the last value.
pub open spec fn bumped(x: u64) -> u64 {
    if x == u64::MAX {
        0
    } else {
        (x + 1) as u64
    }
}

fn bump(x: u64) -> (r: u64)
    ensures
        r == bumped(x),
{
    if x == u64::MAX {
        0
    } else {
        x + 1
    }
}

/// What a frame makes this side do: a frame to send back, and a stream that it opened.
#[derive(Debug)]
pub struct FrameOutcome {
    pub reply: Option<Frame>,
    pub new_open: Option<u64>,
}

/// What a [`FrameOutcome`] says.
pub struct OutcomeView {
    pub reply: Option<FrameView>,
    pub new_open: Option<u64>,
}

impl View for FrameOutcome {
    type V = OutcomeView;

    open spec fn view(&self) -> OutcomeView {
        OutcomeView {
            reply: match self.reply {
                Some(f) => Some(f@),
                None => None,
            },
            new_open: self.new_open,
        }
    }
}

pub open spec fn no_outcome() -> OutcomeView {
    OutcomeView { reply: None, new_open: None }
}

pub open spec fn reply_with(f: FrameView) -> OutcomeView {
    OutcomeView { reply: Some(f), new_open: None }
}

impl FrameOutcome {
    pub fn none() -> (r: Self)
        ensures
            r@ == no_outcome(),
    {
        FrameOutcome { reply: None, new_open: None }
    }

    pub fn reply(f: Frame) -> (r: Self)
        ensures
            r@ == reply_with(f@),
    {
        FrameOutcome { reply: Some(f), new_open: None }
    }
}

// ---- what frames do ---------------------------------------------------------------

/// One more violation of the protocol.
pub open spec fn violated(s: SessionView) -> SessionView {
    SessionView { violations: bumped(s.violations), ..s }
}

/// The stream ends where its window stands.
pub open spec fn cut_off(c: StreamView) -> StreamView {
    StreamView { remote_final: Some(c.recv.expected as u64), ..c }
}

/// The acknowledgement of what was taken has been given.
pub open spec fn acked_up(c: StreamView) -> StreamView {
    StreamView {
        last_acked: if c.committed > c.last_acked {
            c.committed
        } else {
            c.last_acked
        },
        ..c
    }
}

/// The queue of a stream, empty where it has none.
pub open spec fn queue_of(s: SessionView, sid: u64) -> QueueView {
    match lookup(s.queues, sid) {
        Some(q) => q,
        None => QueueView { parts: Seq::empty(), bytes: 0 },
    }
}

/// Delivering parts to the queue of a stream, unless they do not fit: then the stream is
/// cut off, the parts are dropped and the peer gets a reset.
pub open spec fn delivered_to(
    s: SessionView,
    sid: u64,
    c: StreamView,
    parts: Seq<Seq<u8>>,
    direction: Direction,
    owner: Option<u64>,
) -> (SessionView, OutcomeView) {
    let n = total_len(parts);
    let q = queue_of(s, sid);
    if q.bytes + n > DELIVER_QUEUE_STREAM_CAP || queued_total(s.queues) + n
        > DELIVER_QUEUE_SESSION_CAP {
        (
            violated(
                SessionView { streams: with_value(s.streams, sid, cut_off(acked_up(c))), ..s },
            ),
            reply_with(reset_view(s.session_id@, sid, s.send_direction())),
        )
    } else {
        (
            SessionView {
                streams: with_value(s.streams, sid, acked_up(c)),
                queues: with_value(
                    s.queues,
                    sid,
                    QueueView { parts: q.parts + parts, bytes: q.bytes + n },
                ),
                ctl: confirmed(s.ctl, owner),
                ..s
            },
            reply_with(ack_view(s.session_id@, sid, direction, c.committed)),
        )
    }
}

/// DATA on a known stream whose bytes lie in the offset space and before the end of the
/// stream.
pub open spec fn data_on_stream(
    s: SessionView,
    sid: u64,
    f: FrameView,
    owner: Option<u64>,
) -> (SessionView, OutcomeView) {
    let c = value_of(s.streams, sid);
    let offset = f.byte_offset as nat;
    let incoming = if offset > c.recv.expected && !starts_at(c.recv.gaps, offset) {
        f.payload.len()
    } else {
        0
    };
    let reset = reset_view(s.session_id@, sid, s.send_direction());
    if gap_total(s.streams) + incoming > GAP_SESSION_BYTE_CAP {
        (
            violated(SessionView { streams: with_value(s.streams, sid, cut_off(c)), ..s }),
            reply_with(reset),
        )
    } else {
        let (w, action) = fed(c.recv, offset, f.payload, GAP_CAP, GAP_BYTE_CAP);
        let c2 = StreamView { recv: w, ..c };
        match action {
            Ok(SegmentActionView::Deliver(parts)) => delivered_to(
                s,
                sid,
                c2,
                parts,
                f.direction,
                owner,
            ),
            Ok(SegmentActionView::Duplicate) => (
                SessionView { streams: with_value(s.streams, sid, acked_up(c2)), ..s },
                reply_with(ack_view(s.session_id@, sid, f.direction, c.committed)),
            ),
            Ok(SegmentActionView::Buffered) => (
                SessionView { streams: with_value(s.streams, sid, c2), ..s },
                reply_with(ack_view(s.session_id@, sid, f.direction, c.committed)),
            ),
            _ => (
                SessionView { streams: with_value(s.streams, sid, cut_off(c2)), ..s },
                reply_with(reset),
            ),
        }
    }
}

pub open spec fn on_data(s: SessionView, f: FrameView, owner: Option<u64>) -> (
    SessionView,
    OutcomeView,
) {
    let sid = s.resolve(f.stream_id);
    let end = f.byte_offset + f.payload.len();
    if !has_key(s.streams, sid) {
        (violated(s), no_outcome())
    } else if end > u64::MAX {
        (violated(s), reply_with(reset_view(s.session_id@, sid, s.send_direction())))
    } else if value_of(s.streams, sid).remote_final is Some && end > value_of(
        s.streams,
        sid,
    ).remote_final->0 {
        (violated(s), no_outcome())
    } else {
        data_on_stream(s, sid, f, owner)
    }
}

/// ACK: the journal moves on; more than was sent is a violation, counted apart.
pub open spec fn on_ack(s: SessionView, f: FrameView, owner: Option<u64>) -> SessionView {
    let sid = s.resolve(f.stream_id);
    if !has_key(s.streams, sid) {
        violated(s)
    } else {
        let c = value_of(s.streams, sid);
        if f.byte_offset > c.journal.next {
            SessionView { ack_violations: bumped(s.ack_violations), ..s }
        } else {
            let c2 = StreamView {
                journal: acknowledged(c.journal, f.byte_offset as nat),
                ..c
            };
            SessionView {
                streams: with_value(s.streams, sid, c2),
                ctl: confirmed(s.ctl, owner),
                ..s
            }
        }
    }
}

/// FIN: the end of the stream is declared once; another end is a violation.
pub open spec fn on_fin(s: SessionView, f: FrameView) -> (SessionView, OutcomeView) {
    let sid = s.resolve(f.stream_id);
    let end = f.byte_offset + f.payload.len();
    if !has_key(s.streams, sid) {
        (violated(s), no_outcome())
    } else if end > u64::MAX {
        (violated(s), reply_with(reset_view(s.session_id@, sid, s.send_direction())))
    } else {
        let c = value_of(s.streams, sid);
        match c.remote_final {
            Some(e) => if e != end {
                (violated(s), no_outcome())
            } else {
                (s, no_outcome())
            },
            None => (
                SessionView {
                    streams: with_value(
                        s.streams,
                        sid,
                        StreamView { remote_final: Some(end as u64), ..c },
                    ),
                    ..s
                },
                no_outcome(),
            ),
        }
    }
}

/// RESET: the stream ends where its window stands.
pub open spec fn on_reset(s: SessionView, f: FrameView) -> SessionView {
    let sid = s.resolve(f.stream_id);
    if !has_key(s.streams, sid) {
        violated(s)
    } else {
        let c = value_of(s.streams, sid);
        SessionView {
            streams: with_value(
                s.streams,
                sid,
                StreamView { reset_by_peer: true, ..cut_off(c) },
            ),
            ..s
        }
    }
}

/// A stream with its idempotency key entered, where the key was not known.
pub open spec fn entered(s: SessionView, id: u64, key: Seq<char>) -> SessionView {
    SessionView {
        idem: s.idem.push((key, id)),
        keys: with_value(s.keys, id, key),
        requests: if has_key(s.requests, id) {
            s.requests
        } else {
            s.requests.push((id, RequestView { state: RequestState::Accepted, key }))
        },
        ..s
    }
}

/// The streams with one more, if it was not there.
pub open spec fn with_stream(s: SessionView, id: u64) -> SessionView {
    SessionView {
        streams: if has_key(s.streams, id) {
            s.streams
        } else {
            s.streams.push((id, fresh_stream(id, s.limits)))
        },
        ..s
    }
}

/// OPEN with an idempotency key: a known key only makes the stream an alias; a new one
/// opens the stream, unless too many are active.
pub open spec fn opened(s: SessionView, id: u64, key: Seq<char>, payload: Seq<u8>) -> (
    SessionView,
    OutcomeView,
) {
    if has_key(s.idem, key) {
        let canonical = value_of(s.idem, key);
        if canonical != id {
            (SessionView { aliases: with_value(s.aliases, id, canonical), ..s }, no_outcome())
        } else {
            (s, no_outcome())
        }
    } else if active_total(s.streams) >= MAX_ACTIVE_STREAMS {
        (
            violated(
                SessionView {
                    requests: without_key(s.requests, id),
                    keys: without_key(s.keys, id),
                    ..s
                },
            ),
            no_outcome(),
        )
    } else {
        let t = with_stream(entered(s, id, key), id);
        (
            SessionView { metas: with_value(t.metas, id, payload), ..t },
            OutcomeView { reply: None, new_open: Some(id) },
        )
    }
}

/// The frame does not flow in the direction that its type has here.
pub open spec fn wrong_direction(s: SessionView, f: FrameView) -> bool {
    match f.frame_type {
        FrameType::Data | FrameType::Open | FrameType::Fin | FrameType::Reset => f.direction
            != s.recv_direction(),
        FrameType::Ack => f.direction != s.send_direction(),
        _ => false,
    }
}

/// Clients open odd streams, providers even ones.
pub open spec fn wrong_parity(s: SessionView, f: FrameView) -> bool {
    f.frame_type == FrameType::Open && (f.stream_id % 2 == 1) == s.is_client
}

/// What a frame of the peer does to the session, and what it makes this side do.
pub open spec fn handled(s: SessionView, f: FrameView, owner: Option<u64>) -> (
    SessionView,
    OutcomeView,
) {
    if f.session_id != s.session_id@ {
        (SessionView { stale: bumped(s.stale), ..s }, no_outcome())
    } else if wrong_direction(s, f) || wrong_parity(s, f) {
        (violated(s), no_outcome())
    } else {
        match f.frame_type {
            FrameType::Data => on_data(s, f, owner),
            FrameType::Ack => (on_ack(s, f, owner), no_outcome()),
            FrameType::Fin => on_fin(s, f),
            FrameType::Open => opened(s, f.stream_id, idem_key_of(lossy_chars(f.payload)), f.payload),
            FrameType::Reset => (on_reset(s, f), no_outcome()),
            _ => (s, no_outcome()),
        }
    }
}

// ---- keeping the invariant --------------------------------------------------------

/// Changing one stream keeps the session well-formed if the stream stays so, holds no
/// more than the bounds allow, and still covers what is queued.
pub proof fn lemma_change_stream(s: SessionView, id: u64, c: StreamView)
    requires
        s.wf(),
        has_key(s.streams, id),
        c.wf(),
        gap_total(s.streams) + total_bytes(c.recv.gaps) <= GAP_SESSION_BYTE_CAP + total_bytes(
            value_of(s.streams, id).recv.gaps,
        ),
        total_bytes(c.journal.segments) + held_total(s.streams) <= s.limits.max_session_bytes
            + total_bytes(value_of(s.streams, id).journal.segments),
        c.journal.segments.len() + segment_total(s.streams) <= s.limits.max_session_segments
            + value_of(s.streams, id).journal.segments.len(),
        c.committed + queue_of(s, id).bytes <= c.recv.expected,
    ensures
        (SessionView { streams: with_value(s.streams, id, c), ..s }).wf(),
{
    let t = with_value(s.streams, id, c);
    let i = key_index(s.streams, id);
    assert(0 <= i < s.streams.len() && s.streams[i].0 == id);
    lemma_with_value(s.streams, id, c);
    lemma_sum_update(s.streams, i, (id, c), gap_measure());
    lemma_sum_update(s.streams, i, (id, c), held_measure());
    lemma_sum_update(s.streams, i, (id, c), segment_measure());
    assert forall|j: int| 0 <= j < t.len() implies (#[trigger] t[j]).1.wf() by {
        if j != i {
            assert(t[j] == s.streams[j]);
        }
    }
    assert forall|j: int| 0 <= j < s.queues.len() implies queue_fits(
        t,
        (#[trigger] s.queues[j]).0,
        s.queues[j].1,
    ) by {
        let k = s.queues[j].0;
        assert(queue_fits(s.streams, k, s.queues[j].1));
        lemma_key_index(s.queues, j);
        assert(has_key(t, k));
        if k != id {
            assert(lookup(t, k) == lookup(s.streams, k));
        } else {
            assert(lookup(t, k) == Some(c));
            assert(queue_of(s, id) == s.queues[j].1);
        }
    }
}

/// A stream on which nothing happened changes no bound.
pub proof fn lemma_add_stream(s: SessionView, id: u64)
    requires
        s.wf(),
    ensures
        with_stream(s, id).wf(),
        has_key(with_stream(s, id).streams, id),
        value_of(with_stream(s, id).streams, id) == match lookup(s.streams, id) {
            Some(c) => c,
            None => fresh_stream(id, s.limits),
        },
{
    if !has_key(s.streams, id) {
        let c = fresh_stream(id, s.limits);
        let t = s.streams.push((id, c));
        assert(t == with_value(s.streams, id, c));
        lemma_with_value(s.streams, id, c);
        assert(lookup(t, id) == Some(c));
        lemma_sum_push(s.streams, (id, c), gap_measure());
        lemma_sum_push(s.streams, (id, c), held_measure());
        lemma_sum_push(s.streams, (id, c), segment_measure());
        assert(c.wf());
        assert forall|j: int| 0 <= j < t.len() implies (#[trigger] t[j]).1.wf() by {
            if j < s.streams.len() {
                assert(t[j] == s.streams[j]);
            }
        }
        assert forall|j: int| 0 <= j < s.queues.len() implies queue_fits(
            t,
            (#[trigger] s.queues[j]).0,
            s.queues[j].1,
        ) by {
            let k = s.queues[j].0;
            assert(queue_fits(s.streams, k, s.queues[j].1));
            assert(has_key(t, k));
            assert(lookup(t, k) == lookup(s.streams, k));
        }
    }
}

/// Changing one queue keeps the session well-formed if the queue fits and the sum stays
/// within its cap.
pub proof fn lemma_change_queue(s: SessionView, id: u64, q: QueueView)
    requires
        s.wf(),
        queue_fits(s.streams, id, q),
        queued_total(s.queues) + q.bytes <= DELIVER_QUEUE_SESSION_CAP + queue_of(s, id).bytes,
    ensures
        (SessionView { queues: with_value(s.queues, id, q), ..s }).wf(),
{
    let t = with_value(s.queues, id, q);
    lemma_with_value(s.queues, id, q);
    if has_key(s.queues, id) {
        let i = key_index(s.queues, id);
        assert(0 <= i < s.queues.len() && s.queues[i].0 == id);
        lemma_sum_update(s.queues, i, (id, q), queue_measure());
    } else {
        lemma_sum_push(s.queues, (id, q), queue_measure());
    }
    assert forall|j: int| 0 <= j < t.len() implies queue_fits(
        s.streams,
        (#[trigger] t[j]).0,
        t[j].1,
    ) by {
        if j < s.queues.len() && t[j] == s.queues[j] {
            assert(queue_fits(s.streams, s.queues[j].0, s.queues[j].1));
        }
    }
}

// ---- the session ------------------------------------------------------------------

/// A session on which nothing has happened.
pub open spec fn fresh_session(
    session_id: Id16,
    token: Id16,
    peer_id: Seq<char>,
    is_client: bool,
    limits: JournalLimits,
) -> SessionView {
    SessionView {
        session_id,
        peer_id,
        is_client,
        ctl: ResumeCtl {
            tokens: TokenWindow { current: (1, token), previous: None },
            phase: SessionPhase::Negotiating,
            active_epoch: 0,
            channel_owner: 0,
            channel: None,
            pending: None,
            previous_live: false,
            last_seen_remote_epoch: 0,
            next_lease: 0,
            confirmation_owner: None,
        },
        streams: Seq::empty(),
        next_stream_id: if is_client {
            1
        } else {
            2
        },
        requests: Seq::empty(),
        idem: Seq::empty(),
        aliases: Seq::empty(),
        keys: Seq::empty(),
        metas: Seq::empty(),
        queues: Seq::empty(),
        stale: 0,
        ack_violations: 0,
        violations: 0,
        resuming: false,
        limits,
    }
}

impl SessionShared {
    pub closed spec fn view(&self) -> SessionView {
        SessionView {
            session_id: self.session_id,
            peer_id: self.peer_id@,
            is_client: self.is_client,
            ctl: self.ctl,
            streams: self.streams.view(),
            next_stream_id: self.next_stream_id,
            requests: self.requests.view(),
            idem: self.idem_index.view(),
            aliases: self.aliases.view(),
            keys: self.stream_keys.view(),
            metas: self.open_metas.view(),
            queues: self.delivered.view(),
            stale: self.stale_frame_count,
            ack_violations: self.ack_violation_count,
            violations: self.protocol_violation_count,
            resuming: self.resume_in_flight,
            limits: self.limits,
        }
    }

    pub open spec fn wf(&self) -> bool {
        self.view().wf()
    }

    /// A new session; the initiator is its client.
    pub fn new(
        session_id: Id16,
        token: Id16,
        peer_id: String,
        is_client: bool,
        limits: JournalLimits,
    ) -> (r: Self)
        ensures
            r.wf(),
            r.view() == fresh_session(session_id, token, peer_id@, is_client, limits),
    {
        SessionShared {
            session_id,
            peer_id,
            is_client,
            ctl: ResumeCtl::new(token),
            streams: Table::new(),
            next_stream_id: if is_client { 1 } else { 2 },
            requests: Table::new(),
            idem_index: NameTable::new(),
            aliases: Table::new(),
            stream_keys: Table::new(),
            open_metas: Table::new(),
            delivered: Table::new(),
            stale_frame_count: 0,
            ack_violation_count: 0,
            protocol_violation_count: 0,
            resume_in_flight: false,
            limits,
        }
    }

    /// Direction of the data that the peer sends.
    pub fn recv_direction(&self) -> (r: Direction)
        ensures
            r == self.view().recv_direction(),
    {
        if self.is_client {
            Direction::ProviderToClient
        } else {
            Direction::ClientToProvider
        }
    }

    /// Direction of the data that this side sends.
    pub fn send_direction(&self) -> (r: Direction)
        ensures
            r == self.view().send_direction(),
    {
        if self.is_client {
            Direction::ClientToProvider
        } else {
            Direction::ProviderToClient
        }
    }

    /// The stream that a stream id stands for.
    pub fn resolve_stream(&self, raw: u64) -> (r: u64)
        requires
            self.wf(),
        ensures
            r == self.view().resolve(raw),
    {
        match self.aliases.find(raw) {
            Some(i) => *self.aliases.at(i),
            None => raw,
        }
    }

    fn count_violation(&mut self)
        requires
            old(self).wf(),
        ensures
            final(self).wf(),
            final(self).view() == violated(old(self).view()),
    {
        self.protocol_violation_count = bump(self.protocol_violation_count);
    }

    /// Takes a frame that came without a channel.
    pub fn handle_frame(&mut self, f: &Frame) -> (r: FrameOutcome)
        requires
            old(self).wf(),
        ensures
            final(self).wf(),
            (final(self).view(), r@) == handled(old(self).view(), f@, None),
    {
        self.handle_frame_with_owner(f, None)
    }

    /// Takes a frame of the peer that came on a channel.
    pub fn handle_frame_with_owner(&mut self, f: &Frame, owner: Option<u64>) -> (r: FrameOutcome)
        requires
            old(self).wf(),
        ensures
            final(self).wf(),
            (final(self).view(), r@) == handled(old(self).view(), f@, owner),
    {
        proof {
            lemma_id16(f.session_id, self.session_id);
        }
        if !same16(&f.session_id, &self.session_id) {
            self.stale_frame_count = bump(self.stale_frame_count);
            return FrameOutcome::none();
        }
        let wrong = match f.frame_type {
            FrameType::Data | FrameType::Open | FrameType::Fin | FrameType::Reset => f.direction
                != self.recv_direction(),
            FrameType::Ack => f.direction != self.send_direction(),
            _ => false,
        };
        if wrong {
            self.count_violation();
            return FrameOutcome::none();
        }
        if f.frame_type == FrameType::Open && (f.stream_id % 2 == 1) == self.is_client {
            self.count_violation();
            return FrameOutcome::none();
        }
        match f.frame_type {
            FrameType::Data => self.handle_data(f, owner),
            FrameType::Ack => {
                self.handle_ack(f, owner);
                FrameOutcome::none()
            },
            FrameType::Fin => self.handle_fin(f),
            FrameType::Open => {
                let key = parse_idem_key(f.payload.as_slice());
                self.accept_open(f.stream_id, key, f.payload.as_slice())
            },
            FrameType::Reset => {
                self.handle_reset(f);
                FrameOutcome::none()
            },
            _ => FrameOutcome::none(),
        }
    }

    fn handle_data(&mut self, f: &Frame, owner: Option<u64>) -> (r: FrameOutcome)
        requires
            old(self).wf(),
        ensures
            final(self).wf(),
            (final(self).view(), r@) == on_data(old(self).view(), f@, owner),
    {
        let sid: u64 = self.resolve_stream(f.stream_id);
        let i: usize = match self.streams.find(sid) {
            Some(i) => i,
            None => {
                self.count_violation();
                return FrameOutcome::none();
            },
        };
        let reset = mk_reset(self.session_id, sid, self.send_direction());
        if f.payload.len() as u64 > u64::MAX - f.byte_offset {
            self.count_violation();
            return FrameOutcome::reply(reset);
        }
        let end: u64 = f.byte_offset + f.payload.len() as u64;
        if let Some(last) = self.streams.at(i).remote_final {
            if end > last {
                self.count_violation();
                return FrameOutcome::none();
            }
        }
        self.feed_stream(i, sid, f, owner, reset)
    }

    /// Feeds DATA to the stream at place `i`.
    fn feed_stream(
        &mut self,
        i: usize,
        sid: u64,
        f: &Frame,
        owner: Option<u64>,
        reset: Frame,
    ) -> (r: FrameOutcome)
        requires
            old(self).wf(),
            i < old(self).view().streams.len(),
            old(self).view().streams[i as int].0 == sid,
            f@.byte_offset + f@.payload.len() <= u64::MAX,
            reset@ == reset_view(
                old(self).view().session_id@,
                sid,
                old(self).view().send_direction(),
            ),
        ensures
            final(self).wf(),
            (final(self).view(), r@) == data_on_stream(old(self).view(), sid, f@, owner),
    {
        let ghost s = self.view();
        let ghost c = s.streams[i as int].1;
        proof {
            lemma_key_index(s.streams, i as int);
            assert(c.wf());
            lemma_queue_covered(s, sid);
        }
        let held: usize = sum_gap_bytes(&self.streams);
        let incoming: usize = self.streams.at(i).recv.incoming_gap_bytes(f.byte_offset, &f.payload);
        proof {
            feeding_accounts_for_every_byte(
                c.recv,
                f.byte_offset as nat,
                f.payload@,
                GAP_CAP,
                GAP_BYTE_CAP,
            );
        }
        if incoming > GAP_SESSION_BYTE_CAP - held {
            proof {
                lemma_change_stream(s, sid, cut_off(c));
            }
            self.cut_off_at(i);
            self.count_violation();
            return FrameOutcome::reply(reset);
        }
        let copy = vstd::slice::slice_to_vec(f.payload.as_slice());
        let ghost (w, result) = fed(
            c.recv,
            f.byte_offset as nat,
            f.payload@,
            GAP_CAP,
            GAP_BYTE_CAP,
        );
        let ghost c2 = StreamView { recv: w, ..c };
        let ctx = self.streams.at_mut(i);
        let action = ctx.recv.feed_with_limits(f.byte_offset, copy, GAP_CAP, GAP_BYTE_CAP);
        proof {
            lemma_change_stream(s, sid, c2);
            assert(self.view().streams =~= with_value(s.streams, sid, c2));
            lemma_key_index(self.view().streams, i as int);
        }
        let committed: u64 = self.streams.at(i).committed_offset;
        match action {
            Ok(SegmentAction::Deliver(parts)) => {
                self.deliver_at(i, sid, parts, f.direction, owner, reset, Ghost(s))
            },
            Ok(SegmentAction::Duplicate) => {
                proof {
                    lemma_change_stream(s, sid, acked_up(c2));
                }
                self.ack_up_at(i);
                assert(self.view().streams =~= with_value(s.streams, sid, acked_up(c2)));
                FrameOutcome::reply(mk_ack(self.session_id, sid, f.direction, committed))
            },
            Ok(SegmentAction::Buffered) => FrameOutcome::reply(
                mk_ack(self.session_id, sid, f.direction, committed),
            ),
            _ => {
                proof {
                    lemma_change_stream(s, sid, cut_off(c2));
                }
                self.cut_off_at(i);
                assert(self.view().streams =~= with_value(s.streams, sid, cut_off(c2)));
                FrameOutcome::reply(reset)
            },
        }
    }

    /// Ends the stream at place `i` where its window stands.
    fn cut_off_at(&mut self, i: usize)
        requires
            i < old(self).view().streams.len(),
        ensures
            final(self).view() == (SessionView {
                streams: old(self).view().streams.update(
                    i as int,
                    (
                        old(self).view().streams[i as int].0,
                        cut_off(old(self).view().streams[i as int].1),
                    ),
                ),
                ..old(self).view()
            }),
    {
        let ctx = self.streams.at_mut(i);
        ctx.remote_final = Some(ctx.recv.expected_offset());
    }

    /// Notes that what was taken from the stream at place `i` is acknowledged.
    fn ack_up_at(&mut self, i: usize)
        requires
            i < old(self).view().streams.len(),
        ensures
            final(self).view() == (SessionView {
                streams: old(self).view().streams.update(
                    i as int,
                    (
                        old(self).view().streams[i as int].0,
                        acked_up(old(self).view().streams[i as int].1),
                    ),
                ),
                ..old(self).view()
            }),
    {
        let ctx = self.streams.at_mut(i);
        if ctx.committed_offset > ctx.last_acked_offset {
            ctx.last_acked_offset = ctx.committed_offset;
        }
    }

    /// Puts delivered parts into the queue of the stream at place `i`, whose window has
    /// moved since the session was `s`.
    fn deliver_at(
        &mut self,
        i: usize,
        sid: u64,
        parts: Vec<Vec<u8>>,
        direction: Direction,
        owner: Option<u64>,
        reset: Frame,
        Ghost(s): Ghost<SessionView>,
    ) -> (r: FrameOutcome)
        requires
            s.wf(),
            old(self).wf(),
            i < s.streams.len(),
            s.streams[i as int].0 == sid,
            old(self).view().streams.len() == s.streams.len(),
            old(self).view() == (SessionView {
                streams: s.streams.update(
                    i as int,
                    (sid, old(self).view().streams[i as int].1),
                ),
                ..s
            }),
            ({
                let c = s.streams[i as int].1;
                let c2 = old(self).view().streams[i as int].1;
                &&& c2 == (StreamView { recv: c2.recv, ..c })
                &&& c2.recv.expected == c.recv.expected + total_len(byte_views(parts@))
            }),
            reset@ == reset_view(s.session_id@, sid, s.send_direction()),
        ensures
            final(self).wf(),
            (final(self).view(), r@) == delivered_to(
                s,
                sid,
                old(self).view().streams[i as int].1,
                byte_views(parts@),
                direction,
                owner,
            ),
    {
        let ghost t = self.view();
        let ghost c2 = t.streams[i as int].1;
        let ghost v = byte_views(parts@);
        proof {
            lemma_key_index(s.streams, i as int);
            lemma_key_index(t.streams, i as int);
            assert(s.streams[i as int].1.wf());
            assert(t.streams[i as int].1.wf());
            lemma_queue_covered(s, sid);
            lemma_change_stream(t, sid, acked_up(c2));
            lemma_change_stream(t, sid, cut_off(acked_up(c2)));
            assert(t.streams.update(i as int, (sid, acked_up(c2))) =~= s.streams.update(
                i as int,
                (sid, acked_up(c2)),
            ));
            assert(t.streams.update(i as int, (sid, cut_off(acked_up(c2)))) =~= s.streams.update(
                i as int,
                (sid, cut_off(acked_up(c2))),
            ));
        }
        let committed: u64 = self.streams.at(i).committed_offset;
        let ack = mk_ack(self.session_id, sid, direction, committed);
        self.ack_up_at(i);
        let n: usize = part_bytes(&parts);
        let session_bytes: usize = sum_queued(&self.delivered);
        let found = self.delivered.find(sid);
        let stream_bytes: usize = match found {
            Some(k) => self.delivered.at(k).bytes(),
            None => 0,
        };
        if n > DELIVER_QUEUE_STREAM_CAP - stream_bytes || n > DELIVER_QUEUE_SESSION_CAP
            - session_bytes {
            self.cut_off_at(i);
            assert(self.view().streams =~= with_value(s.streams, sid, cut_off(acked_up(c2))));
            self.count_violation();
            return FrameOutcome::reply(reset);
        }
        let ghost t2 = self.view();
        let ghost q = queue_of(t2, sid);
        let ghost q2 = QueueView { parts: q.parts + v, bytes: (q.bytes + n) as nat };
        proof {
            assert(t2.streams =~= with_value(s.streams, sid, acked_up(c2)));
            lemma_key_index(t2.streams, i as int);
            lemma_queue_wf(t2, sid);
            crate::continuity::model::lemma_total_len_concat(q.parts, v);
            lemma_change_queue(t2, sid, q2);
        }
        match found {
            Some(k) => {
                let dq = self.delivered.at_mut(k);
                dq.push_all(parts, n);
            },
            None => {
                let mut dq = DeliverQueue::new();
                assert(Seq::<Seq<u8>>::empty() + v =~= v);
                dq.push_all(parts, n);
                self.delivered.put(sid, dq);
            },
        }
        assert(self.view().queues =~= with_value(t2.queues, sid, q2));
        self.ctl.note_confirmed(owner);
        FrameOutcome::reply(ack)
    }

    fn handle_ack(&mut self, f: &Frame, owner: Option<u64>)
        requires
            old(self).wf(),
        ensures
            final(self).wf(),
            final(self).view() == on_ack(old(self).view(), f@, owner),
    {
        let ghost s = self.view();
        let sid: u64 = self.resolve_stream(f.stream_id);
        match self.streams.find(sid) {
            Some(i) => {
                let ghost c = s.streams[i as int].1;
                proof {
                    lemma_key_index(s.streams, i as int);
                    assert(c.wf());
                    lemma_queue_covered(s, sid);
                }
                if f.byte_offset > self.streams.at(i).journal.next_offset() {
                    self.ack_violation_count = bump(self.ack_violation_count);
                } else {
                    let ghost c2 = StreamView {
                        journal: acknowledged(c.journal, f.byte_offset as nat),
                        ..c
                    };
                    let ctx = self.streams.at_mut(i);
                    let _ = ctx.journal.advance_ack(f.byte_offset);
                    proof {
                        lemma_acknowledged(c.journal, f.byte_offset as nat);
                        lemma_change_stream(s, sid, c2);
                        assert(self.view().streams =~= with_value(s.streams, sid, c2));
                    }
                    self.ctl.note_confirmed(owner);
                }
            },
            None => {
                self.count_violation();
            },
        }
    }

    fn handle_fin(&mut self, f: &Frame) -> (r: FrameOutcome)
        requires
            old(self).wf(),
        ensures
            final(self).wf(),
            (final(self).view(), r@) == on_fin(old(self).view(), f@),
    {
        let ghost s = self.view();
        let sid: u64 = self.resolve_stream(f.stream_id);
        let i: usize = match self.streams.find(sid) {
            Some(i) => i,
            None => {
                self.count_violation();
                return FrameOutcome::none();
            },
        };
        let ghost c = s.streams[i as int].1;
        if f.payload.len() as u64 > u64::MAX - f.byte_offset {
            self.count_violation();
            return FrameOutcome::reply(mk_reset(self.session_id, sid, self.send_direction()));
        }
        let end: u64 = f.byte_offset + f.payload.len() as u64;
        if let Some(e) = self.streams.at(i).remote_final {
            if e != end {
                self.count_violation();
            }
            return FrameOutcome::none();
        }
        let ghost c2 = StreamView { remote_final: Some(end), ..c };
        proof {
            lemma_key_index(s.streams, i as int);
            assert(c.wf());
            lemma_queue_covered(s, sid);
            lemma_change_stream(s, sid, c2);
        }
        let ctx = self.streams.at_mut(i);
        ctx.remote_final = Some(end);
        assert(self.view().streams =~= with_value(s.streams, sid, c2));
        FrameOutcome::none()
    }

    fn handle_reset(&mut self, f: &Frame)
        requires
            old(self).wf(),
        ensures
            final(self).wf(),
            final(self).view() == on_reset(old(self).view(), f@),
    {
        let ghost s = self.view();
        let sid: u64 = self.resolve_stream(f.stream_id);
        match self.streams.find(sid) {
            Some(i) => {
                let ghost c = s.streams[i as int].1;
                let ghost c2 = StreamView { reset_by_peer: true, ..cut_off(c) };
                proof {
                    lemma_key_index(s.streams, i as int);
                    assert(c.wf());
                    lemma_queue_covered(s, sid);
                    lemma_change_stream(s, sid, c2);
                }
                let ctx = self.streams.at_mut(i);
                ctx.remote_final = Some(ctx.recv.expected_offset());
                ctx.reset_by_peer = true;
                assert(self.view().streams =~= with_value(s.streams, sid, c2));
            },
            None => {
                self.count_violation();
            },
        }
    }
}

/// Bytes of all parts together, as far as they can be counted.
fn part_bytes(parts: &Vec<Vec<u8>>) -> (r: usize)
    ensures
        r == if total_len(byte_views(parts@)) <= usize::MAX {
            total_len(byte_views(parts@))
        } else {
            usize::MAX as nat
        },
{
    let ghost v = byte_views(parts@);
    let n: usize = parts.len();
    let mut sum: usize = 0;
    let mut i: usize = 0;
    assert(v.subrange(0, 0) =~= Seq::<Seq<u8>>::empty());
    while i < n
        invariant
            i <= n,
            n == parts@.len(),
            v == byte_views(parts@),
            sum == if total_len(v.subrange(0, i as int)) <= usize::MAX {
                total_len(v.subrange(0, i as int))
            } else {
                usize::MAX as nat
            },
        decreases n - i,
    {
        proof {
            let a = v.subrange(0, i as int);
            let x = seq![v[i as int]];
            assert(v.subrange(0, i + 1) =~= a + x);
            crate::continuity::model::lemma_total_len_concat(a, x);
            assert(x.drop_first() =~= Seq::<Seq<u8>>::empty());
            assert(total_len(x) == v[i as int].len() + total_len(x.drop_first()));
        }
        let len: usize = parts[i].len();
        sum = if len <= usize::MAX - sum { sum + len } else { usize::MAX };
        i = i + 1;
    }
    assert(v.subrange(0, n as int) =~= v);
    sum
}

/// What is queued of a stream lies between what was taken and what was delivered.
pub proof fn lemma_queue_covered(s: SessionView, id: u64)
    requires
        s.wf(),
        has_key(s.streams, id),
    ensures
        value_of(s.streams, id).committed + queue_of(s, id).bytes <= value_of(
            s.streams,
            id,
        ).recv.expected,
{
    let i = key_index(s.streams, id);
    assert(0 <= i < s.streams.len() && s.streams[i].0 == id);
    assert(s.streams[i].1.wf());
    if has_key(s.queues, id) {
        let j = key_index(s.queues, id);
        assert(0 <= j < s.queues.len() && s.queues[j].0 == id);
        assert(queue_fits(s.streams, s.queues[j].0, s.queues[j].1));
    }
}

/// The queue of a stream, where it has one, is well-formed and within its cap.
pub proof fn lemma_queue_wf(s: SessionView, id: u64)
    requires
        s.wf(),
    ensures
        queue_of(s, id).wf(),
        queue_of(s, id).bytes <= DELIVER_QUEUE_STREAM_CAP,
{
    if has_key(s.queues, id) {
        let j = key_index(s.queues, id);
        assert(0 <= j < s.queues.len() && s.queues[j].0 == id);
        assert(queue_fits(s.streams, s.queues[j].0, s.queues[j].1));
    }
}

/// An acknowledgement frees bytes and segments.
pub proof fn lemma_acknowledged(j: crate::continuity::model::JournalView, offset: nat)
    requires
        j.wf(),
    ensures
        total_bytes(acknowledged(j, offset).segments) <= total_bytes(j.segments),
        acknowledged(j, offset).segments.len() <= j.segments.len(),
        acknowledged(j, offset).limits == j.limits,
{
    let acked = if offset <= j.next {
        offset
    } else {
        j.next
    };
    crate::continuity::model::lemma_unreleased(j.segments, j.next, acked);
}

// ---- opening streams --------------------------------------------------------------

/// A state after tables that hold no bytes were changed.
pub proof fn lemma_other_tables(s: SessionView, t: SessionView)
    requires
        s.wf(),
        t.ctl == s.ctl,
        t.streams == s.streams,
        t.queues == s.queues,
        t.limits == s.limits,
        t.tables_wf(),
    ensures
        t.wf(),
{
}

pub proof fn lemma_entered(s: SessionView, id: u64, key: Seq<char>)
    requires
        s.wf(),
        !has_key(s.idem, key),
    ensures
        entered(s, id, key).wf(),
        entered(s, id, key).idem == with_value(s.idem, key, id),
        entered(s, id, key).requests == if has_key(s.requests, id) {
            s.requests
        } else {
            with_value(s.requests, id, RequestView { state: RequestState::Accepted, key })
        },
{
    lemma_with_value(s.idem, key, id);
    lemma_with_value(s.keys, id, key);
    lemma_with_value(s.requests, id, RequestView { state: RequestState::Accepted, key });
    lemma_other_tables(s, entered(s, id, key));
}

/// Text of the error for too many active streams.
pub open spec fn active_cap_text(active: nat) -> Seq<char> {
    "active stream cap exceeded: "@ + decimal(active) + " >= "@ + decimal(128)
}

impl SessionShared {
    /// Enters a stream under its idempotency key. A known key gives the stream that has
    /// it, and `false`; nothing changes then.
    pub fn on_open(&mut self, stream_id: u64, idem_key: &str) -> (r: (u64, bool))
        requires
            old(self).wf(),
        ensures
            final(self).wf(),
            if has_key(old(self).view().idem, idem_key@) {
                r == (value_of(old(self).view().idem, idem_key@), false) && final(self).view()
                    == old(self).view()
            } else {
                r == (stream_id, true) && final(self).view() == entered(
                    old(self).view(),
                    stream_id,
                    idem_key@,
                )
            },
    {
        let ghost s = self.view();
        if let Some(i) = self.idem_index.find(idem_key) {
            return (*self.idem_index.at(i), false);
        }
        proof {
            lemma_entered(s, stream_id, idem_key@);
        }
        self.idem_index.put(idem_key.to_owned(), stream_id);
        self.stream_keys.put(stream_id, idem_key.to_owned());
        if !self.requests.contains(stream_id) {
            self.requests.put(
                stream_id,
                Request { state: RequestState::Accepted, key: idem_key.to_owned() },
            );
        }
        (stream_id, true)
    }

    /// Takes back the entry of a stream that could not be opened.
    fn rollback_open(&mut self, stream_id: u64, idem_key: &str)
        requires
            old(self).wf(),
        ensures
            final(self).wf(),
            final(self).view() == (SessionView {
                idem: without_key(old(self).view().idem, idem_key@),
                requests: without_key(old(self).view().requests, stream_id),
                keys: without_key(old(self).view().keys, stream_id),
                ..old(self).view()
            }),
    {
        let ghost s = self.view();
        proof {
            lemma_without_key(s.idem, idem_key@);
            lemma_without_key(s.requests, stream_id);
            lemma_without_key(s.keys, stream_id);
        }
        let _ = self.idem_index.remove(idem_key);
        let _ = self.requests.remove(stream_id);
        let _ = self.stream_keys.remove(stream_id);
        proof {
            lemma_other_tables(s, self.view());
        }
    }

    /// Takes a place among the active streams, if one is free.
    pub fn reserve_stream_slot(&mut self, stream_id: u64) -> (r: Result<(), FabricError>)
        requires
            old(self).wf(),
        ensures
            final(self).wf(),
            if active_total(old(self).view().streams) >= MAX_ACTIVE_STREAMS {
                r is Err && connect_error(
                    r->Err_0,
                    active_cap_text(active_total(old(self).view().streams)),
                ) && final(self).view() == old(self).view()
            } else {
                r is Ok && final(self).view() == with_stream(old(self).view(), stream_id)
            },
    {
        let active: usize = count_active(&self.streams);
        if active >= MAX_ACTIVE_STREAMS {
            let n = decimal_text(active as u64);
            let m = decimal_text(128);
            let mut text = cat3("active stream cap exceeded: ", n.as_str(), " >= ");
            text.append(m.as_str());
            return Err(connect_err(text));
        }
        self.ensure_stream(stream_id);
        Ok(())
    }

    /// Adds a stream that is not there yet; gives its place.
    fn ensure_stream(&mut self, stream_id: u64) -> (i: usize)
        requires
            old(self).wf(),
        ensures
            final(self).wf(),
            final(self).view() == with_stream(old(self).view(), stream_id),
            i < final(self).view().streams.len(),
            final(self).view().streams[i as int].0 == stream_id,
    {
        proof {
            lemma_add_stream(self.view(), stream_id);
        }
        match self.streams.find(stream_id) {
            Some(i) => i,
            None => {
                let n: usize = self.streams.len();
                self.streams.put(stream_id, StreamCtx::new(stream_id, self.limits));
                n
            },
        }
    }

    /// Takes an OPEN with its idempotency key.
    pub fn accept_open(&mut self, stream_id: u64, key: String, payload: &[u8]) -> (r: FrameOutcome)
        requires
            old(self).wf(),
        ensures
            final(self).wf(),
            (final(self).view(), r@) == opened(old(self).view(), stream_id, key@, payload@),
    {
        let ghost s = self.view();
        let (canonical, is_new) = self.on_open(stream_id, key.as_str());
        if !is_new {
            if canonical != stream_id {
                proof {
                    lemma_with_value(s.aliases, stream_id, canonical);
                    lemma_other_tables(
                        s,
                        SessionView { aliases: with_value(s.aliases, stream_id, canonical), ..s },
                    );
                }
                self.aliases.put(stream_id, canonical);
            }
            return FrameOutcome::none();
        }
        let ghost t = self.view();
        if self.reserve_stream_slot(stream_id).is_err() {
            proof {
                lemma_entered(s, stream_id, key@);
                lemma_put_then_remove(s.idem, key@, stream_id);
                lemma_put_then_remove(s.keys, stream_id, key@);
                lemma_put_then_remove(
                    s.requests,
                    stream_id,
                    RequestView { state: RequestState::Accepted, key: key@ },
                );
            }
            self.rollback_open(stream_id, key.as_str());
            self.count_violation();
            return FrameOutcome::none();
        }
        let ghost u = self.view();
        let copy = vstd::slice::slice_to_vec(payload);
        proof {
            lemma_with_value(u.metas, stream_id, payload@);
            lemma_other_tables(
                u,
                SessionView { metas: with_value(u.metas, stream_id, payload@), ..u },
            );
        }
        self.open_metas.put(stream_id, copy);
        FrameOutcome { reply: None, new_open: Some(stream_id) }
    }

    /// The OPEN payload of a stream.
    pub fn open_meta(&self, stream_id: u64) -> (r: Option<Vec<u8>>)
        requires
            self.wf(),
        ensures
            match lookup(self.view().metas, stream_id) {
                Some(b) => r is Some && r->0@ == b,
                None => r is None,
            },
    {
        match self.open_metas.find(stream_id) {
            Some(i) => Some(vstd::slice::slice_to_vec(self.open_metas.at(i).as_slice())),
            None => None,
        }
    }

    /// Moves a request from accepted to started; `true` for the one call that does.
    pub fn try_mark_started(&mut self, stream_id: u64) -> (r: bool)
        requires
            old(self).wf(),
        ensures
            final(self).wf(),
            (final(self).view(), r) == started(old(self).view(), stream_id),
    {
        let ghost s = self.view();
        if let Some(i) = self.requests.find(stream_id) {
            let ghost x = s.requests[i as int].1;
            if self.requests.at(i).state == RequestState::Accepted {
                self.set_request_state_at(i, RequestState::Started);
                return true;
            }
        }
        false
    }

    /// Moves a request from accepted to started, whoever does it.
    pub fn mark_started(&mut self, stream_id: u64)
        requires
            old(self).wf(),
        ensures
            final(self).wf(),
            final(self).view() == started(old(self).view(), stream_id).0,
    {
        let _ = self.try_mark_started(stream_id);
    }

    /// Completes a request.
    pub fn mark_completed(&mut self, stream_id: u64)
        requires
            old(self).wf(),
        ensures
            final(self).wf(),
            final(self).view() == completed(old(self).view(), stream_id),
    {
        if let Some(i) = self.requests.find(stream_id) {
            self.set_request_state_at(i, RequestState::Completed);
        }
    }

    fn set_request_state_at(&mut self, i: usize, state: RequestState)
        requires
            old(self).wf(),
            i < old(self).view().requests.len(),
        ensures
            final(self).wf(),
            final(self).view() == with_request_state(
                old(self).view(),
                old(self).view().requests[i as int].0,
                state,
            ),
    {
        let ghost s = self.view();
        let ghost id = s.requests[i as int].0;
        proof {
            lemma_key_index(s.requests, i as int);
            lemma_with_value(
                s.requests,
                id,
                RequestView { state, ..value_of(s.requests, id) },
            );
            lemma_other_tables(s, with_request_state(s, id, state));
        }
        let req = self.requests.at_mut(i);
        req.state = state;
        assert(self.view().requests =~= with_request_state(s, id, state).requests);
    }

    pub fn request_state(&self, stream_id: u64) -> (r: Option<RequestState>)
        requires
            self.wf(),
        ensures
            r == match lookup(self.view().requests, stream_id) {
                Some(q) => Some(q.state),
                None => None,
            },
    {
        match self.requests.find(stream_id) {
            Some(i) => Some(self.requests.at(i).state),
            None => None,
        }
    }
}

/// The session with another state of a request.
pub open spec fn with_request_state(s: SessionView, id: u64, state: RequestState) -> SessionView {
    SessionView {
        requests: with_value(
            s.requests,
            id,
            RequestView { state, ..value_of(s.requests, id) },
        ),
        ..s
    }
}

/// The session after a request was started, and whether this call did it.
pub open spec fn started(s: SessionView, id: u64) -> (SessionView, bool) {
    if has_key(s.requests, id) && value_of(s.requests, id).state == RequestState::Accepted {
        (with_request_state(s, id, RequestState::Started), true)
    } else {
        (s, false)
    }
}

/// The session after a request was completed.
pub open spec fn completed(s: SessionView, id: u64) -> SessionView {
    if has_key(s.requests, id) {
        with_request_state(s, id, RequestState::Completed)
    } else {
        s
    }
}

// ---- taking and sending data ------------------------------------------------------

/// What a read of a stream gives.
#[derive(Debug, PartialEq, Eq)]
pub enum RecvStep {
    /// The next part, and the acknowledgement to send for it.
    Data(Vec<u8>, Option<Frame>),
    /// The stream has ended and everything was taken.
    Ended,
    /// Nothing yet.
    Wait,
}

/// What a [`RecvStep`] says.
pub enum RecvStepView {
    Data(Seq<u8>, Option<FrameView>),
    Ended,
    Wait,
}

impl View for RecvStep {
    type V = RecvStepView;

    open spec fn view(&self) -> RecvStepView {
        match self {
            RecvStep::Data(b, f) => RecvStepView::Data(
                b@,
                match f {
                    Some(x) => Some(x@),
                    None => None,
                },
            ),
            RecvStep::Ended => RecvStepView::Ended,
            RecvStep::Wait => RecvStepView::Wait,
        }
    }
}

/// The stream after the application took `n` bytes.
pub open spec fn took(c: StreamView, n: nat) -> StreamView {
    acked_up(StreamView { committed: (c.committed + n) as u64, ..c })
}

/// What a read of a stream does and gives: the next part, which is acknowledged where
/// the acknowledgement moves on.
pub open spec fn taken(s: SessionView, id: u64) -> (SessionView, RecvStepView) {
    let q = queue_of(s, id);
    if q.parts.len() > 0 {
        let b = q.parts[0];
        let c = value_of(s.streams, id);
        let c2 = took(c, b.len());
        (
            SessionView {
                queues: with_value(
                    s.queues,
                    id,
                    QueueView { parts: q.parts.drop_first(), bytes: (q.bytes - b.len()) as nat },
                ),
                streams: with_value(s.streams, id, c2),
                ..s
            },
            RecvStepView::Data(
                b,
                if c2.committed > c.last_acked {
                    Some(ack_view(s.session_id@, id, s.recv_direction(), c2.committed))
                } else {
                    None
                },
            ),
        )
    } else if has_key(s.streams, id) && value_of(s.streams, id).remote_final == Some(
        value_of(s.streams, id).recv.expected as u64,
    ) {
        (s, RecvStepView::Ended)
    } else {
        (s, RecvStepView::Wait)
    }
}

/// What recording a segment for sending does, and the offset or the error text.
pub open spec fn sent(s: SessionView, id: u64, bytes: Seq<u8>) -> (
    SessionView,
    Result<u64, Seq<char>>,
) {
    let held = held_total(s.streams);
    let segments = segment_total(s.streams);
    if held + bytes.len() > s.limits.max_session_bytes {
        (
            s,
            Err(
                journal_error_text(
                    JournalError::SessionBytesCap {
                        held: held as usize,
                        incoming: bytes.len() as usize,
                        cap: s.limits.max_session_bytes,
                    },
                ),
            ),
        )
    } else if segments >= s.limits.max_session_segments {
        (
            s,
            Err(
                "journal session segment cap exceeded: "@ + decimal(segments) + " >= "@ + decimal(
                    s.limits.max_session_segments as nat,
                ),
            ),
        )
    } else {
        let t = with_stream(s, id);
        let c = value_of(t.streams, id);
        match record_fault(c.journal, bytes) {
            Some(e) => (t, Err(journal_error_text(e))),
            None => (
                SessionView {
                    streams: with_value(
                        t.streams,
                        id,
                        StreamView { journal: recorded(c.journal, bytes, false), ..c },
                    ),
                    ..t
                },
                Ok(c.journal.next as u64),
            ),
        }
    }
}

/// The next offset of a stream can take `n` bytes more.
pub open spec fn offset_space_left(s: SessionView, id: u64, n: nat) -> bool {
    match lookup(s.streams, id) {
        Some(c) => c.journal.next + n <= u64::MAX,
        None => true,
    }
}

/// The session after this side declared the end of a stream.
pub open spec fn finished(s: SessionView, id: u64) -> SessionView {
    let t = with_stream(s, id);
    let c = value_of(t.streams, id);
    SessionView {
        streams: with_value(
            t.streams,
            id,
            StreamView { final_sent: Some(c.journal.next as u64), ..c },
        ),
        ..t
    }
}

/// The stream id after the next one of this side.
pub open spec fn skip_two(x: u64) -> u64 {
    if x <= u64::MAX - 2 {
        (x + 2) as u64
    } else {
        (x + 2 - 0x1_0000_0000_0000_0000) as u64
    }
}

/// The session after this side opened a stream with a key.
pub open spec fn opening(s: SessionView, key: Seq<char>) -> SessionView {
    let id = s.next_stream_id;
    let t = with_stream(SessionView { next_stream_id: skip_two(id), ..s }, id);
    SessionView { keys: with_value(t.keys, id, key), ..t }
}

impl SessionShared {
    /// Takes the next part of a stream. Taking is what acknowledges: a slow reader holds
    /// the sender back.
    pub fn recv(&mut self, stream_id: u64) -> (r: RecvStep)
        requires
            old(self).wf(),
        ensures
            final(self).wf(),
            (final(self).view(), r@) == taken(old(self).view(), stream_id),
    {
        let ghost s = self.view();
        let ghost q = queue_of(s, stream_id);
        let popped: Option<Vec<u8>> = match self.delivered.find(stream_id) {
            Some(k) => {
                proof {
                    lemma_key_index(s.queues, k as int);
                    lemma_queue_wf(s, stream_id);
                }
                let dq = self.delivered.at_mut(k);
                let b = dq.pop();
                proof {
                    if b is None {
                        assert(self.view().queues =~= s.queues);
                    }
                }
                b
            },
            None => None,
        };
        match popped {
            Some(b) => {
                let ghost n = b@.len();
                let ghost c = value_of(s.streams, stream_id);
                let ghost q2 = QueueView {
                    parts: q.parts.drop_first(),
                    bytes: (q.bytes - n) as nat,
                };
                proof {
                    lemma_taken(s, stream_id);
                    assert(self.view().queues =~= with_value(s.queues, stream_id, q2));
                }
                let mut ack: Option<Frame> = None;
                if let Some(i) = self.streams.find(stream_id) {
                    let sid = self.session_id;
                    let direction = self.recv_direction();
                    let ctx = self.streams.at_mut(i);
                    ctx.committed_offset = ctx.committed_offset + b.len() as u64;
                    if ctx.committed_offset > ctx.last_acked_offset {
                        ctx.last_acked_offset = ctx.committed_offset;
                        ack = Some(mk_ack(sid, stream_id, direction, ctx.committed_offset));
                    }
                }
                assert(self.view().streams =~= with_value(s.streams, stream_id, took(c, n)));
                RecvStep::Data(b, ack)
            },
            None => {
                let ended = match self.streams.find(stream_id) {
                    Some(i) => {
                        let ctx = self.streams.at(i);
                        match ctx.remote_final {
                            Some(f) => f == ctx.recv.expected_offset(),
                            None => false,
                        }
                    },
                    None => false,
                };
                if ended {
                    RecvStep::Ended
                } else {
                    RecvStep::Wait
                }
            },
        }
    }

    /// Records a segment that is to be sent; gives its offset. The bounds of the session
    /// come before those of the stream.
    pub fn record_send(&mut self, stream_id: u64, payload: &Vec<u8>) -> (r: Result<u64, FabricError>)
        requires
            old(self).wf(),
            offset_space_left(old(self).view(), stream_id, payload@.len()),
        ensures
            final(self).wf(),
            ({
                let (t, x) = sent(old(self).view(), stream_id, payload@);
                &&& final(self).view() == t
                &&& match x {
                    Ok(offset) => r == Ok::<u64, FabricError>(offset),
                    Err(text) => r is Err && connect_error(r->Err_0, text),
                }
            }),
    {
        let ghost s = self.view();
        let held: usize = sum_held_bytes(&self.streams);
        let incoming: usize = payload.len();
        if incoming > self.limits.max_session_bytes - held {
            let e = JournalError::SessionBytesCap {
                held,
                incoming,
                cap: self.limits.max_session_bytes,
            };
            return Err(connect_err(e.message()));
        }
        let segments: usize = count_segments(&self.streams);
        if segments >= self.limits.max_session_segments {
            let n = decimal_text(segments as u64);
            let m = decimal_text(self.limits.max_session_segments as u64);
            let mut text = cat3("journal session segment cap exceeded: ", n.as_str(), " >= ");
            text.append(m.as_str());
            return Err(connect_err(text));
        }
        proof {
            lemma_add_stream(s, stream_id);
            lemma_with_stream_sums(s, stream_id);
        }
        let i: usize = self.ensure_stream(stream_id);
        let ghost t = self.view();
        let ghost c = t.streams[i as int].1;
        let ghost c2 = StreamView { journal: recorded(c.journal, payload@, false), ..c };
        proof {
            lemma_key_index(t.streams, i as int);
            assert(c.wf());
        }
        let copy = vstd::slice::slice_to_vec(payload.as_slice());
        let ctx = self.streams.at_mut(i);
        let x = ctx.journal.record(copy, false);
        match x {
            Ok(offset) => {
                proof {
                    crate::continuity::model::lemma_recorded(c.journal, payload@, false);
                    lemma_queue_covered(t, stream_id);
                    lemma_change_stream(t, stream_id, c2);
                    assert(self.view().streams =~= with_value(t.streams, stream_id, c2));
                }
                Ok(offset)
            },
            Err(e) => {
                assert(self.view().streams =~= t.streams);
                Err(connect_err(e.message()))
            },
        }
    }

    /// Records data and gives the DATA frame to send.
    pub fn send_data(&mut self, stream_id: u64, payload: Vec<u8>) -> (r: Result<Frame, FabricError>)
        requires
            old(self).wf(),
            offset_space_left(old(self).view(), stream_id, payload@.len()),
        ensures
            final(self).wf(),
            ({
                let s = old(self).view();
                let (t, x) = sent(s, stream_id, payload@);
                &&& final(self).view() == t
                &&& match x {
                    Ok(offset) => r is Ok && r->Ok_0@ == data_sent(s, stream_id, payload@),
                    Err(text) => r is Err && connect_error(r->Err_0, text),
                }
            }),
    {
        let offset: u64 = match self.record_send(stream_id, &payload) {
            Ok(o) => o,
            Err(e) => return Err(e),
        };
        Ok(
            mk_frame(
                FrameType::Data,
                0,
                self.session_id,
                stream_id,
                self.send_direction(),
                offset,
                payload,
            ),
        )
    }

    /// The DATA frame for a segment that was recorded before.
    pub fn send_data_at(&self, stream_id: u64, offset: u64, payload: Vec<u8>) -> (r: Frame)
        ensures
            r@ == data_view(self.view(), stream_id, offset, 0, payload@),
    {
        mk_frame(
            FrameType::Data,
            0,
            self.session_id,
            stream_id,
            self.send_direction(),
            offset,
            payload,
        )
    }

    /// Declares the end of a stream of this side; gives the FIN frame to send.
    pub fn finish(&mut self, stream_id: u64) -> (r: Frame)
        requires
            old(self).wf(),
        ensures
            final(self).wf(),
            final(self).view() == finished(old(self).view(), stream_id),
            r@ == fin_sent(old(self).view(), stream_id),
    {
        let i: usize = self.ensure_stream(stream_id);
        let ghost t = self.view();
        let ghost c = t.streams[i as int].1;
        let ghost c2 = StreamView { final_sent: Some(c.journal.next as u64), ..c };
        proof {
            lemma_key_index(t.streams, i as int);
            assert(c.wf());
            lemma_queue_covered(t, stream_id);
            lemma_change_stream(t, stream_id, c2);
        }
        let ctx = self.streams.at_mut(i);
        let end: u64 = ctx.journal.next_offset();
        ctx.final_sent = Some(end);
        assert(self.view().streams =~= with_value(t.streams, stream_id, c2));
        let empty: Vec<u8> = Vec::new();
        assert(empty@ =~= Seq::<u8>::empty());
        mk_frame(
            FrameType::Fin,
            flags::END,
            self.session_id,
            stream_id,
            self.send_direction(),
            end,
            empty,
        )
    }

    /// The next stream id of this side.
    pub fn alloc_stream_id(&mut self) -> (r: u64)
        requires
            old(self).wf(),
        ensures
            final(self).wf(),
            r == old(self).view().next_stream_id,
            final(self).view() == (SessionView {
                next_stream_id: skip_two(old(self).view().next_stream_id),
                ..old(self).view()
            }),
    {
        let id: u64 = self.next_stream_id;
        self.next_stream_id = if id <= u64::MAX - 2 { id + 2 } else { id - (u64::MAX - 2) - 1 };
        id
    }

    /// Opens a stream whose OPEN carries nothing but its key; gives the stream id and the
    /// frame to send.
    pub fn open_stream(&mut self, idem_key: &str) -> (r: Result<(u64, Frame), FabricError>)
        requires
            old(self).wf(),
        ensures
            final(self).wf(),
            ({
                let s = old(self).view();
                let id = s.next_stream_id;
                if active_total(s.streams) >= MAX_ACTIVE_STREAMS {
                    r is Err && connect_error(r->Err_0, active_cap_text(active_total(s.streams)))
                        && final(self).view() == (SessionView { next_stream_id: skip_two(id), ..s })
                } else {
                    r is Ok && (r->Ok_0).0 == id && (r->Ok_0).1@ == open_view(
                        s,
                        id,
                        flags::START,
                        encode_utf8(open_text(id, idem_key@)),
                    ) && final(self).view() == opening(s, idem_key@)
                }
            }),
    {
        let id: u64 = self.next_stream_id;
        let payload = open_payload(id, idem_key);
        self.open_stream_raw(idem_key, payload)
    }

    /// Opens a stream with the given OPEN payload; gives the stream id and the frame to
    /// send.
    pub fn open_stream_raw(&mut self, idem_key: &str, payload: Vec<u8>) -> (r: Result<
        (u64, Frame),
        FabricError,
    >)
        requires
            old(self).wf(),
        ensures
            final(self).wf(),
            ({
                let s = old(self).view();
                let id = s.next_stream_id;
                if active_total(s.streams) >= MAX_ACTIVE_STREAMS {
                    r is Err && connect_error(r->Err_0, active_cap_text(active_total(s.streams)))
                        && final(self).view() == (SessionView { next_stream_id: skip_two(id), ..s })
                } else {
                    r is Ok && (r->Ok_0).0 == id && (r->Ok_0).1@ == open_view(
                        s,
                        id,
                        flags::START,
                        payload@,
                    ) && final(self).view() == opening(s, idem_key@)
                }
            }),
    {
        let id: u64 = self.alloc_stream_id();
        match self.reserve_stream_slot(id) {
            Ok(()) => {},
            Err(e) => return Err(e),
        }
        let ghost t = self.view();
        proof {
            lemma_with_value(t.keys, id, idem_key@);
            lemma_other_tables(t, SessionView { keys: with_value(t.keys, id, idem_key@), ..t });
        }
        self.stream_keys.put(id, idem_key.to_owned());
        let f = mk_frame(
            FrameType::Open,
            flags::START,
            self.session_id,
            id,
            self.send_direction(),
            0,
            payload,
        );
        Ok((id, f))
    }
}

/// A DATA frame of this side.
pub open spec fn data_view(s: SessionView, id: u64, offset: u64, bits: u16, b: Seq<u8>) -> FrameView {
    frame_view(FrameType::Data, bits, s.session_id@, id, s.send_direction(), offset, b)
}

/// A FIN frame of this side.
pub open spec fn fin_view(s: SessionView, id: u64, end: u64, bits: u16) -> FrameView {
    frame_view(FrameType::Fin, bits, s.session_id@, id, s.send_direction(), end, Seq::empty())
}

/// The FIN frame that declaring the end of a stream gives.
pub open spec fn fin_sent(s: SessionView, id: u64) -> FrameView {
    fin_view(s, id, value_of(with_stream(s, id).streams, id).journal.next as u64, flags::END)
}

/// The DATA frame that sending gives.
pub open spec fn data_sent(s: SessionView, id: u64, bytes: Seq<u8>) -> FrameView {
    data_view(s, id, sent(s, id, bytes).1->Ok_0, 0, bytes)
}

/// An OPEN frame of this side.
pub open spec fn open_view(s: SessionView, id: u64, bits: u16, b: Seq<u8>) -> FrameView {
    frame_view(FrameType::Open, bits, s.session_id@, id, s.send_direction(), 0, b)
}

/// A new stream adds nothing to the sums.
proof fn lemma_with_stream_sums(s: SessionView, id: u64)
    requires
        s.wf(),
    ensures
        held_total(with_stream(s, id).streams) == held_total(s.streams),
        segment_total(with_stream(s, id).streams) == segment_total(s.streams),
{
    if !has_key(s.streams, id) {
        let c = fresh_stream(id, s.limits);
        lemma_sum_push(s.streams, (id, c), held_measure());
        lemma_sum_push(s.streams, (id, c), segment_measure());
    }
}

/// Taking a part keeps the session well-formed.
proof fn lemma_taken(s: SessionView, id: u64)
    requires
        s.wf(),
        queue_of(s, id).parts.len() > 0,
    ensures
        taken(s, id).0.wf(),
        has_key(s.streams, id),
        value_of(s.streams, id).committed + queue_of(s, id).parts[0].len() <= u64::MAX,
        queue_of(s, id).parts[0].len() <= queue_of(s, id).bytes,
{
    let q = queue_of(s, id);
    let j = key_index(s.queues, id);
    assert(0 <= j < s.queues.len() && s.queues[j].0 == id);
    assert(queue_fits(s.streams, s.queues[j].0, s.queues[j].1));
    let i = key_index(s.streams, id);
    assert(0 <= i < s.streams.len() && s.streams[i].0 == id);
    assert(s.streams[i].1.wf());
    let c = value_of(s.streams, id);
    let b = q.parts[0];
    let q2 = QueueView { parts: q.parts.drop_first(), bytes: (q.bytes - b.len()) as nat };
    assert(q.bytes == b.len() + total_len(q.parts.drop_first()));
    let c2 = took(c, b.len());
    assert(queue_fits(s.streams, id, q2));
    lemma_change_queue(s, id, q2);
    let t = SessionView { queues: with_value(s.queues, id, q2), ..s };
    lemma_with_value(s.queues, id, q2);
    assert(queue_of(t, id) == q2);
    assert(t.streams == s.streams);
    assert(c2.wf());
    lemma_change_stream(t, id, c2);
}

// ---- resuming ---------------------------------------------------------------------

/// What a stream reports of itself.
pub open spec fn summary_of(id: u64, c: StreamView) -> StreamSummary {
    StreamSummary {
        stream_id: id,
        recv_ack: c.committed,
        send_next: c.journal.next as u64,
        final_sent: c.final_sent,
    }
}

/// What all streams report, in the order of the streams.
pub open spec fn summaries_of(s: SessionView) -> Seq<StreamSummary> {
    Seq::new(s.streams.len(), |i: int| summary_of(s.streams[i].0, s.streams[i].1))
}

/// What one report of the peer does: its acknowledgement counts, unless it exceeds what
/// was sent.
pub open spec fn caught_up_one(s: SessionView, x: StreamSummary) -> SessionView {
    if !has_key(s.streams, x.stream_id) {
        s
    } else {
        let c = value_of(s.streams, x.stream_id);
        if x.recv_ack > c.journal.next {
            SessionView { ack_violations: bumped(s.ack_violations), ..s }
        } else {
            SessionView {
                streams: with_value(
                    s.streams,
                    x.stream_id,
                    StreamView { journal: acknowledged(c.journal, x.recv_ack as nat), ..c },
                ),
                ..s
            }
        }
    }
}

/// What the reports of the peer do, in order.
pub open spec fn caught_up(s: SessionView, xs: Seq<StreamSummary>) -> SessionView
    decreases xs.len(),
{
    if xs.len() == 0 {
        s
    } else {
        caught_up_one(caught_up(s, xs.drop_last()), xs.last())
    }
}

/// The segments of a stream as `(offset, payload)`.
pub open spec fn segment_pairs(v: Seq<SegmentView>) -> Seq<(u64, Seq<u8>)> {
    Seq::new(v.len(), |i: int| (v[i].offset as u64, v[i].bytes))
}

/// The streams that hold bytes for replay, with their segments.
pub open spec fn outstanding(streams: Seq<(u64, StreamView)>) -> Seq<(u64, Seq<(u64, Seq<u8>)>)>
    decreases streams.len(),
{
    if streams.len() == 0 {
        Seq::empty()
    } else {
        let (id, c) = streams.last();
        let before = outstanding(streams.drop_last());
        if total_bytes(c.journal.segments) > 0 {
            before.push((id, segment_pairs(c.journal.segments)))
        } else {
            before
        }
    }
}

/// The streams whose end this side declared, with that end.
pub open spec fn declared_ends(streams: Seq<(u64, StreamView)>) -> Seq<(u64, u64)>
    decreases streams.len(),
{
    if streams.len() == 0 {
        Seq::empty()
    } else {
        let (id, c) = streams.last();
        let before = declared_ends(streams.drop_last());
        match c.final_sent {
            Some(f) => before.push((id, f)),
            None => before,
        }
    }
}

/// The DATA frames of a replay.
pub open spec fn replay_data(s: SessionView) -> Seq<FrameView> {
    let items = interleaved(outstanding(s.streams));
    Seq::new(
        items.len(),
        |i: int| data_view(s, items[i].0, items[i].1, flags::REPLAY, items[i].2),
    )
}

/// The FIN frames of a replay.
pub open spec fn replay_fins(s: SessionView) -> Seq<FrameView> {
    let ends = declared_ends(s.streams);
    Seq::new(ends.len(), |i: int| fin_view(s, ends[i].0, ends[i].1, flags::END | flags::REPLAY))
}

/// The OPEN frames of a replay.
pub open spec fn replay_opens(s: SessionView) -> Seq<FrameView> {
    Seq::new(
        s.keys.len(),
        |i: int|
            open_view(
                s,
                s.keys[i].0,
                flags::START | flags::REPLAY,
                encode_utf8(open_text(s.keys[i].0, s.keys[i].1)),
            ),
    )
}

impl SessionShared {
    /// What the streams report in a handshake.
    pub fn summaries(&self) -> (r: Vec<StreamSummary>)
        ensures
            r@ == summaries_of(self.view()),
    {
        let ghost v = self.view();
        let n: usize = self.streams.len();
        let mut out: Vec<StreamSummary> = Vec::new();
        let mut i: usize = 0;
        while i < n
            invariant
                i <= n,
                v == self.view(),
                n == v.streams.len(),
                out@.len() == i,
                forall|k: int| 0 <= k < i ==> #[trigger] out@[k] == summaries_of(v)[k],
            decreases n - i,
        {
            let ctx = self.streams.at(i);
            out.push(
                StreamSummary {
                    stream_id: self.streams.key_at(i),
                    recv_ack: ctx.committed_offset,
                    send_next: ctx.journal.next_offset(),
                    final_sent: ctx.final_sent,
                },
            );
            i = i + 1;
        }
        assert(out@ =~= summaries_of(v));
        out
    }

    /// Takes the reports of the peer as acknowledgements.
    pub fn advance_journal_from_summary(&mut self, summaries: &[StreamSummary])
        requires
            old(self).wf(),
        ensures
            final(self).wf(),
            final(self).view() == caught_up(old(self).view(), summaries@),
    {
        let n: usize = summaries.len();
        let mut i: usize = 0;
        assert(summaries@.subrange(0, 0) =~= Seq::<StreamSummary>::empty());
        while i < n
            invariant
                i <= n,
                n == summaries@.len(),
                self.wf(),
                self.view() == caught_up(old(self).view(), summaries@.subrange(0, i as int)),
            decreases n - i,
        {
            let x = summaries[i];
            proof {
                let t = summaries@.subrange(0, i + 1);
                assert(t.drop_last() =~= summaries@.subrange(0, i as int));
                assert(t.last() == x);
            }
            self.catch_up(x);
            i = i + 1;
        }
        assert(summaries@.subrange(0, n as int) =~= summaries@);
    }

    fn catch_up(&mut self, x: StreamSummary)
        requires
            old(self).wf(),
        ensures
            final(self).wf(),
            final(self).view() == caught_up_one(old(self).view(), x),
    {
        let ghost s = self.view();
        if let Some(i) = self.streams.find(x.stream_id) {
            let ghost c = s.streams[i as int].1;
            proof {
                lemma_key_index(s.streams, i as int);
                assert(c.wf());
                lemma_queue_covered(s, x.stream_id);
            }
            if x.recv_ack > self.streams.at(i).journal.next_offset() {
                self.ack_violation_count = bump(self.ack_violation_count);
            } else {
                let ghost c2 = StreamView {
                    journal: acknowledged(c.journal, x.recv_ack as nat),
                    ..c
                };
                let ctx = self.streams.at_mut(i);
                let _ = ctx.journal.advance_ack(x.recv_ack);
                proof {
                    lemma_acknowledged(c.journal, x.recv_ack as nat);
                    lemma_change_stream(s, x.stream_id, c2);
                    assert(self.view().streams =~= with_value(s.streams, x.stream_id, c2));
                }
            }
        }
    }

    /// The segments that have to be sent again.
    pub fn replay_batches(&self) -> (r: Batches)
        requires
            self.wf(),
        ensures
            batch_views(r@) == outstanding(self.view().streams),
    {
        let ghost v = self.view().streams;
        let n: usize = self.streams.len();
        let mut out: Batches = Vec::new();
        let mut i: usize = 0;
        assert(v.subrange(0, 0) =~= Seq::<(u64, StreamView)>::empty());
        assert(batch_views(out@) =~= outstanding(v.subrange(0, 0)));
        while i < n
            invariant
                i <= n,
                v == self.view().streams,
                n == v.len(),
                streams_wf(v),
                batch_views(out@) == outstanding(v.subrange(0, i as int)),
            decreases n - i,
        {
            let ghost t = v.subrange(0, i + 1);
            proof {
                assert(t.drop_last() =~= v.subrange(0, i as int));
                assert(t.last() == v[i as int]);
                assert(v[i as int].1.wf());
            }
            let ctx = self.streams.at(i);
            if ctx.journal.held_bytes() > 0 {
                let ghost before = batch_views(out@);
                let ghost segs = v[i as int].1.journal.segments;
                let parts = ctx.journal.replay();
                proof {
                    assert forall|k: int| 0 <= k < segs.len() implies #[trigger] part_views(
                        parts@,
                    )[k] == segment_pairs(segs)[k] by {
                        assert(parts@[k].0 == segs[k].offset);
                    }
                    assert(part_views(parts@) =~= segment_pairs(segs));
                }
                out.push((self.streams.key_at(i), parts));
                assert(batch_views(out@) =~= before.push((v[i as int].0, segment_pairs(segs))));
            }
            i = i + 1;
        }
        assert(v.subrange(0, n as int) =~= v);
        out
    }

    /// The streams whose end was declared and may have to be declared again.
    pub fn fin_resent_streams(&self) -> (r: Vec<(u64, u64)>)
        ensures
            r@ == declared_ends(self.view().streams),
    {
        let ghost v = self.view().streams;
        let n: usize = self.streams.len();
        let mut out: Vec<(u64, u64)> = Vec::new();
        let mut i: usize = 0;
        assert(v.subrange(0, 0) =~= Seq::<(u64, StreamView)>::empty());
        while i < n
            invariant
                i <= n,
                v == self.view().streams,
                n == v.len(),
                out@ == declared_ends(v.subrange(0, i as int)),
            decreases n - i,
        {
            proof {
                let t = v.subrange(0, i + 1);
                assert(t.drop_last() =~= v.subrange(0, i as int));
                assert(t.last() == v[i as int]);
            }
            if let Some(f) = self.streams.at(i).final_sent {
                out.push((self.streams.key_at(i), f));
            }
            i = i + 1;
        }
        assert(v.subrange(0, n as int) =~= v);
        out
    }

    /// The streams with their keys, to be opened again.
    pub fn open_resend_list(&self) -> (r: Vec<(u64, String)>)
        ensures
            r@.len() == self.view().keys.len(),
            forall|i: int|
                0 <= i < r@.len() ==> (#[trigger] r@[i]).0 == self.view().keys[i].0 && r@[i].1@
                    == self.view().keys[i].1,
    {
        let n: usize = self.stream_keys.len();
        let mut out: Vec<(u64, String)> = Vec::new();
        let mut i: usize = 0;
        while i < n
            invariant
                i <= n,
                n == self.stream_keys.view().len(),
                out@.len() == i,
                forall|k: int|
                    0 <= k < i ==> (#[trigger] out@[k]).0 == self.stream_keys.view()[k].0
                        && out@[k].1@ == self.stream_keys.view()[k].1,
            decreases n - i,
        {
            out.push((self.stream_keys.key_at(i), self.stream_keys.at(i).clone()));
            i = i + 1;
        }
        out
    }

    /// The frames of a replay in the order in which they are sent: DATA, then FIN.
    pub fn replay_frames(&self) -> (r: Vec<Frame>)
        requires
            self.wf(),
        ensures
            frame_views(r@) == replay_data(self.view()) + replay_fins(self.view()),
    {
        let ghost s = self.view();
        let items = interleave_replay(self.replay_batches());
        let ghost v = item_views(items@);
        let mut out: Vec<Frame> = Vec::new();
        let n: usize = items.len();
        let mut i: usize = 0;
        while i < n
            invariant
                i <= n,
                n == items@.len(),
                v == item_views(items@),
                s == self.view(),
                v == interleaved(outstanding(s.streams)),
                frame_views(out@) == replay_data(s).subrange(0, i as int),
            decreases n - i,
        {
            let ghost before = frame_views(out@);
            let payload = vstd::slice::slice_to_vec(items[i].2.as_slice());
            let f = mk_frame(
                FrameType::Data,
                flags::REPLAY,
                self.session_id,
                items[i].0,
                self.send_direction(),
                items[i].1,
                payload,
            );
            out.push(f);
            proof {
                assert(v[i as int] == (items@[i as int].0, items@[i as int].1, items@[i as int].2@));
                assert(frame_views(out@) =~= before.push(f@));
                assert(f@ == replay_data(s)[i as int]);
                assert(replay_data(s).subrange(0, i + 1) =~= before.push(f@));
            }
            i = i + 1;
        }
        assert(replay_data(s).subrange(0, n as int) =~= replay_data(s));
        let ends = self.fin_resent_streams();
        let m: usize = ends.len();
        let mut j: usize = 0;
        assert(replay_data(s) + replay_fins(s).subrange(0, 0) =~= replay_data(s));
        while j < m
            invariant
                j <= m,
                m == ends@.len(),
                s == self.view(),
                ends@ == declared_ends(s.streams),
                frame_views(out@) == replay_data(s) + replay_fins(s).subrange(0, j as int),
            decreases m - j,
        {
            let ghost before = frame_views(out@);
            let empty: Vec<u8> = Vec::new();
            assert(empty@ =~= Seq::<u8>::empty());
            let f = mk_frame(
                FrameType::Fin,
                flags::END | flags::REPLAY,
                self.session_id,
                ends[j].0,
                self.send_direction(),
                ends[j].1,
                empty,
            );
            out.push(f);
            proof {
                assert(frame_views(out@) =~= before.push(f@));
                assert(f@ == replay_fins(s)[j as int]);
                assert(replay_data(s) + replay_fins(s).subrange(0, j + 1) =~= before.push(f@));
            }
            j = j + 1;
        }
        assert(replay_fins(s).subrange(0, m as int) =~= replay_fins(s));
        out
    }

    /// The OPEN frames to be sent again, one for each stream with a key.
    pub fn reopen_frames(&self) -> (r: Vec<Frame>)
        ensures
            frame_views(r@) == replay_opens(self.view()),
    {
        let ghost s = self.view();
        let list = self.open_resend_list();
        let n: usize = list.len();
        let mut out: Vec<Frame> = Vec::new();
        let mut i: usize = 0;
        while i < n
            invariant
                i <= n,
                n == list@.len(),
                s == self.view(),
                n == s.keys.len(),
                forall|k: int|
                    0 <= k < n ==> (#[trigger] list@[k]).0 == s.keys[k].0 && list@[k].1@
                        == s.keys[k].1,
                frame_views(out@) == replay_opens(s).subrange(0, i as int),
            decreases n - i,
        {
            let ghost before = frame_views(out@);
            let payload = open_payload(list[i].0, list[i].1.as_str());
            let f = mk_frame(
                FrameType::Open,
                flags::START | flags::REPLAY,
                self.session_id,
                list[i].0,
                self.send_direction(),
                0,
                payload,
            );
            out.push(f);
            proof {
                assert(list@[i as int].0 == s.keys[i as int].0);
                assert(frame_views(out@) =~= before.push(f@));
                assert(f@ == replay_opens(s)[i as int]);
                assert(replay_opens(s).subrange(0, i + 1) =~= before.push(f@));
            }
            i = i + 1;
        }
        assert(replay_opens(s).subrange(0, n as int) =~= replay_opens(s));
        out
    }
}

// ---- channels and credentials -----------------------------------------------------

/// What a frame on a channel does: a channel that is not the current one counts as
/// stale and does nothing.
pub open spec fn dispatched(s: SessionView, epoch: u64, owner: u64, f: FrameView) -> (
    SessionView,
    OutcomeView,
) {
    if s.ctl.active_epoch != epoch || s.ctl.channel_owner != owner {
        (SessionView { stale: bumped(s.stale), ..s }, no_outcome())
    } else {
        handled(s, f, Some(owner))
    }
}

/// The session after a channel has broken: it recovers, if the channel was the current one.
pub open spec fn broken(s: SessionView, epoch: u64, owner: u64) -> SessionView {
    if s.ctl.active_epoch == epoch && s.ctl.channel_owner == owner {
        SessionView { ctl: ResumeCtl { phase: SessionPhase::Recovering, ..s.ctl }, ..s }
    } else {
        s
    }
}

impl SessionShared {
    /// The resume control.
    pub fn control(&self) -> (r: ResumeCtl)
        ensures
            r == self.view().ctl,
    {
        self.ctl
    }

    /// The phase.
    pub fn phase(&self) -> (r: SessionPhase)
        ensures
            r == self.view().ctl.phase,
    {
        self.ctl.phase
    }

    pub fn set_phase(&mut self, p: SessionPhase)
        requires
            old(self).wf(),
        ensures
            final(self).wf(),
            final(self).view() == (SessionView {
                ctl: ResumeCtl { phase: p, ..old(self).view().ctl },
                ..old(self).view()
            }),
    {
        self.ctl.phase = p;
    }

    /// Whether a channel is the current one.
    pub fn channel_is_current(&self, epoch: u64, owner: u64) -> (r: bool)
        ensures
            r == (self.view().ctl.active_epoch == epoch && self.view().ctl.channel_owner == owner),
    {
        self.ctl.channel_is_current(epoch, owner)
    }

    /// Takes a frame that came on a channel of the given epoch and owner.
    pub fn dispatch_frame(&mut self, epoch: u64, owner: u64, f: &Frame) -> (r: FrameOutcome)
        requires
            old(self).wf(),
        ensures
            final(self).wf(),
            (final(self).view(), r@) == dispatched(old(self).view(), epoch, owner, f@),
    {
        if !self.channel_is_current(epoch, owner) {
            self.stale_frame_count = bump(self.stale_frame_count);
            return FrameOutcome::none();
        }
        self.handle_frame_with_owner(f, Some(owner))
    }

    /// A channel has broken: the session recovers, if the channel was the current one.
    pub fn channel_broke(&mut self, epoch: u64, owner: u64)
        requires
            old(self).wf(),
        ensures
            final(self).wf(),
            final(self).view() == broken(old(self).view(), epoch, owner),
    {
        if self.channel_is_current(epoch, owner) {
            self.set_phase(SessionPhase::Recovering);
        }
    }

    /// What to do about a new channel.
    pub fn plan_install(
        &self,
        policy: InstallPolicy,
        decision: Option<ResumeDecision>,
        expected_generation: Option<u64>,
        old_exists: bool,
        old_dead: bool,
    ) -> (r: InstallStep)
        ensures
            r == if !install_allowed(self.view().ctl, decision, expected_generation) {
                InstallStep::Refuse
            } else if policy == InstallPolicy::IfVacant && old_exists && !old_dead {
                InstallStep::Refuse
            } else if old_exists {
                InstallStep::StopOld
            } else {
                InstallStep::Proceed
            },
    {
        self.ctl.plan_install(policy, decision, expected_generation, old_exists, old_dead)
    }

    /// Installs a channel; gives its owner id, or nothing where its decision or its
    /// generation was superseded.
    pub fn install_channel(
        &mut self,
        epoch: u64,
        decision: Option<ResumeDecision>,
        expected_generation: Option<u64>,
    ) -> (r: Option<u64>)
        requires
            old(self).wf(),
            old(self).view().ctl.channel_owner < u64::MAX,
        ensures
            final(self).wf(),
            if install_allowed(old(self).view().ctl, decision, expected_generation) {
                r == Some((old(self).view().ctl.channel_owner + 1) as u64) && final(self).view()
                    == (SessionView {
                    ctl: installed(old(self).view().ctl, epoch, decision),
                    ..old(self).view()
                })
            } else {
                r is None && final(self).view() == old(self).view()
            },
    {
        self.ctl.commit_install(epoch, decision, expected_generation)
    }

    /// Takes credentials that the peer issued, unless they are not newer.
    pub fn rotate_token(&mut self, new_generation: u64, new_token: Id16)
        requires
            old(self).wf(),
        ensures
            final(self).wf(),
            final(self).view() == (SessionView {
                ctl: rotated_to(old(self).view().ctl, new_generation, new_token),
                ..old(self).view()
            }),
    {
        self.ctl.rotate_token(new_generation, new_token);
    }

    /// Takes note of a connection epoch that the peer declared; `false` where it is stale.
    pub fn observe_remote_epoch(&mut self, epoch: u64) -> (r: bool)
        requires
            old(self).wf(),
        ensures
            final(self).wf(),
            r == (epoch != 0 && epoch >= old(self).view().ctl.last_seen_remote_epoch),
            final(self).view() == if r {
                SessionView {
                    ctl: ResumeCtl { last_seen_remote_epoch: epoch, ..old(self).view().ctl },
                    ..old(self).view()
                }
            } else {
                old(self).view()
            },
    {
        self.ctl.observe_remote_epoch(epoch)
    }

    /// Decides on a resume request that names no connection epoch.
    pub fn decide_resume(
        &mut self,
        nonce: Id16,
        generation: u64,
        token: &Id16,
        new_token: Id16,
    ) -> (r: Option<ResumeDecision>)
        requires
            old(self).wf(),
            decidable(old(self).view().ctl, nonce, generation, *token, 0),
        ensures
            final(self).wf(),
            ({
                let (c, d) = decided(
                    old(self).view().ctl,
                    nonce,
                    generation,
                    *token,
                    new_token,
                    0,
                );
                r == d && final(self).view() == (SessionView { ctl: c, ..old(self).view() })
            }),
    {
        self.ctl.decide_resume(nonce, generation, token, new_token)
    }

    /// Decides on a resume request.
    pub fn decide_resume_with_epoch(
        &mut self,
        nonce: Id16,
        generation: u64,
        token: &Id16,
        new_token: Id16,
        remote_epoch: u64,
    ) -> (r: Option<ResumeDecision>)
        requires
            old(self).wf(),
            decidable(old(self).view().ctl, nonce, generation, *token, remote_epoch),
        ensures
            final(self).wf(),
            ({
                let (c, d) = decided(
                    old(self).view().ctl,
                    nonce,
                    generation,
                    *token,
                    new_token,
                    remote_epoch,
                );
                r == d && final(self).view() == (SessionView { ctl: c, ..old(self).view() })
            }),
    {
        self.ctl.decide_resume_with_epoch(nonce, generation, token, new_token, remote_epoch)
    }

    /// Takes note that a channel was used.
    pub fn note_confirmed(&mut self, owner: Option<u64>)
        requires
            old(self).wf(),
        ensures
            final(self).wf(),
            final(self).view() == (SessionView {
                ctl: confirmed(old(self).view().ctl, owner),
                ..old(self).view()
            }),
    {
        self.ctl.note_confirmed(owner);
    }

    /// Whether this is the current token.
    pub fn init_token_is(&self, token: &Id16) -> (r: bool)
        ensures
            r == (self.view().ctl.tokens.current.1 == *token),
    {
        self.ctl.tokens.current_token_is(token)
    }

    /// The current credentials.
    pub fn current_token(&self) -> (r: (u64, Id16))
        ensures
            r == self.view().ctl.tokens.current,
    {
        self.ctl.tokens.current()
    }

    /// The current credentials, for observation.
    pub fn debug_current_token(&self) -> (r: (u64, Id16))
        ensures
            r == self.view().ctl.tokens.current,
    {
        self.current_token()
    }

    pub fn current_generation(&self) -> (r: u64)
        ensures
            r == self.view().ctl.tokens.current.0,
    {
        self.ctl.tokens.current_generation()
    }

    pub fn last_seen_remote_epoch(&self) -> (r: u64)
        ensures
            r == self.view().ctl.last_seen_remote_epoch,
    {
        self.ctl.last_seen_remote_epoch
    }

    /// The current channel, for observation.
    pub fn debug_channel_owner(&self) -> (r: u64)
        ensures
            r == self.view().ctl.channel_owner,
    {
        self.ctl.channel_owner
    }

    /// The epoch of the current channel, for observation.
    pub fn debug_active_epoch(&self) -> (r: u64)
        ensures
            r == self.view().ctl.active_epoch,
    {
        self.ctl.active_epoch
    }

    /// Starts a resume; `false` where one is running.
    pub fn begin_resume(&mut self) -> (r: bool)
        requires
            old(self).wf(),
        ensures
            final(self).wf(),
            r == !old(self).view().resuming,
            final(self).view() == (SessionView { resuming: true, ..old(self).view() }),
    {
        let was = self.resume_in_flight;
        self.resume_in_flight = true;
        !was
    }

    /// Ends a resume.
    pub fn end_resume(&mut self)
        requires
            old(self).wf(),
        ensures
            final(self).wf(),
            final(self).view() == (SessionView { resuming: false, ..old(self).view() }),
    {
        self.resume_in_flight = false;
    }

    // ---- observation --------------------------------------------------------------

    pub fn session_id(&self) -> (r: Id16)
        ensures
            r == self.view().session_id,
    {
        self.session_id
    }

    pub fn peer_id(&self) -> (r: &str)
        ensures
            r@ == self.view().peer_id,
    {
        self.peer_id.as_str()
    }

    pub fn is_client(&self) -> (r: bool)
        ensures
            r == self.view().is_client,
    {
        self.is_client
    }

    pub fn stale_frames(&self) -> (r: u64)
        ensures
            r == self.view().stale,
    {
        self.stale_frame_count
    }

    pub fn ack_violations(&self) -> (r: u64)
        ensures
            r == self.view().ack_violations,
    {
        self.ack_violation_count
    }

    pub fn protocol_violations(&self) -> (r: u64)
        ensures
            r == self.view().violations,
    {
        self.protocol_violation_count
    }

    /// Bytes in the queue of a stream.
    pub fn deliver_queue_bytes(&self, stream_id: u64) -> (r: usize)
        requires
            self.wf(),
        ensures
            r == queue_of(self.view(), stream_id).bytes,
    {
        match self.delivered.find(stream_id) {
            Some(i) => self.delivered.at(i).bytes(),
            None => 0,
        }
    }

    /// Whether the consumer of a stream is slow.
    pub fn deliver_queue_over_cap(&self, stream_id: u64) -> (r: bool)
        requires
            self.wf(),
        ensures
            r == (queue_of(self.view(), stream_id).bytes > DELIVER_QUEUE_CAP),
    {
        self.deliver_queue_bytes(stream_id) > DELIVER_QUEUE_CAP
    }

    /// Bytes of a stream that the application has taken.
    pub fn committed_offset(&self, stream_id: u64) -> (r: u64)
        requires
            self.wf(),
        ensures
            r == match lookup(self.view().streams, stream_id) {
                Some(c) => c.committed,
                None => 0,
            },
    {
        match self.streams.find(stream_id) {
            Some(i) => self.streams.at(i).committed_offset,
            None => 0,
        }
    }

    /// Whether the peer reset a stream.
    pub fn peer_reset(&self, stream_id: u64) -> (r: bool)
        requires
            self.wf(),
        ensures
            r == match lookup(self.view().streams, stream_id) {
                Some(c) => c.reset_by_peer,
                None => false,
            },
    {
        match self.streams.find(stream_id) {
            Some(i) => self.streams.at(i).reset_by_peer,
            None => false,
        }
    }

    /// Whether the next offset of a stream can take `n` bytes more.
    pub fn can_record(&self, stream_id: u64, n: usize) -> (r: bool)
        requires
            self.wf(),
        ensures
            r == offset_space_left(self.view(), stream_id, n as nat),
    {
        match self.streams.find(stream_id) {
            Some(i) => n as u64 <= u64::MAX - self.streams.at(i).journal.next_offset(),
            None => true,
        }
    }

    /// Bytes that the journal of a stream holds.
    pub fn journal_held_bytes(&self, stream_id: u64) -> (r: usize)
        requires
            self.wf(),
        ensures
            r == match lookup(self.view().streams, stream_id) {
                Some(c) => total_bytes(c.journal.segments),
                None => 0,
            },
    {
        match self.streams.find(stream_id) {
            Some(i) => {
                assert(self.view().streams[i as int].1.wf());
                self.streams.at(i).journal.held_bytes()
            },
            None => 0,
        }
    }

    pub fn stream_count(&self) -> (r: usize)
        ensures
            r == self.view().streams.len(),
    {
        self.streams.len()
    }

    /// Bytes of early segments of all streams.
    pub fn gap_bytes_total(&self) -> (r: usize)
        requires
            self.wf(),
        ensures
            r == gap_total(self.view().streams),
    {
        sum_gap_bytes(&self.streams)
    }

    /// Bytes that all journals hold.
    pub fn journal_bytes_total(&self) -> (r: usize)
        requires
            self.wf(),
        ensures
            r == held_total(self.view().streams),
    {
        sum_held_bytes(&self.streams)
    }
}

// ---- laws -------------------------------------------------------------------------

/// A frame of another session does nothing but count.
pub proof fn foreign_frames_only_count(s: SessionView, f: FrameView, owner: Option<u64>)
    requires
        f.session_id != s.session_id@,
    ensures
        handled(s, f, owner) == (SessionView { stale: bumped(s.stale), ..s }, no_outcome()),
{
}

/// A frame on a superseded channel does nothing but count.
pub proof fn superseded_channels_only_count(s: SessionView, epoch: u64, owner: u64, f: FrameView)
    requires
        s.ctl.channel_owner != owner || s.ctl.active_epoch != epoch,
    ensures
        dispatched(s, epoch, owner, f) == (
            SessionView { stale: bumped(s.stale), ..s },
            no_outcome(),
        ),
{
}

/// Only OPEN makes streams: whatever else the peer sends, no stream appears.
pub proof fn only_open_makes_streams(s: SessionView, f: FrameView, owner: Option<u64>)
    requires
        s.wf(),
        f.frame_type != FrameType::Open,
    ensures
        handled(s, f, owner).0.streams.len() == s.streams.len(),
{
}

/// Every acknowledgement given for DATA is what the application has taken, never more.
pub proof fn acknowledgements_follow_the_application(
    s: SessionView,
    f: FrameView,
    owner: Option<u64>,
)
    requires
        s.wf(),
        f.frame_type == FrameType::Data,
        handled(s, f, owner).1.reply is Some,
        handled(s, f, owner).1.reply->0.frame_type == FrameType::Ack,
    ensures
        ({
            let sid = s.resolve(f.stream_id);
            &&& has_key(s.streams, sid)
            &&& handled(s, f, owner).1.reply->0.stream_id == sid
            &&& handled(s, f, owner).1.reply->0.byte_offset == value_of(s.streams, sid).committed
        }),
{
}

/// What the application takes moves the acknowledgement: after a read, all that was taken
/// from the stream is acknowledged, and no more.
pub proof fn taking_acknowledges(s: SessionView, id: u64)
    requires
        s.wf(),
        queue_of(s, id).parts.len() > 0,
    ensures
        ({
            let (t, step) = taken(s, id);
            let b = queue_of(s, id).parts[0];
            let c = value_of(t.streams, id);
            &&& has_key(t.streams, id)
            &&& c.committed == value_of(s.streams, id).committed + b.len()
            &&& c.last_acked >= c.committed
            &&& queue_of(t, id).parts == queue_of(s, id).parts.drop_first()
        }),
{
    lemma_taken(s, id);
    let q = queue_of(s, id);
    let b = q.parts[0];
    let q2 = QueueView { parts: q.parts.drop_first(), bytes: (q.bytes - b.len()) as nat };
    lemma_with_value(s.queues, id, q2);
    lemma_with_value(s.streams, id, took(value_of(s.streams, id), b.len()));
}

/// An OPEN with a known key opens nothing: its stream stands for the first one with that
/// key, and frames on it reach that stream.
pub proof fn repeated_open_is_an_alias(s: SessionView, id: u64, key: Seq<char>, payload: Seq<u8>)
    requires
        s.wf(),
        has_key(s.idem, key),
        value_of(s.idem, key) != id,
    ensures
        ({
            let (t, o) = opened(s, id, key, payload);
            &&& o == no_outcome()
            &&& t.streams == s.streams
            &&& t.requests == s.requests
            &&& t.resolve(id) == value_of(s.idem, key)
        }),
{
    lemma_with_value(s.aliases, id, value_of(s.idem, key));
}

/// A request is started by one call only: a second attempt, or one behind the completion,
/// is told that it is not the one.
pub proof fn requests_start_once(s: SessionView, id: u64, state: RequestState)
    requires
        s.wf(),
        has_key(s.requests, id),
        state != RequestState::Accepted,
    ensures
        ({
            let t = with_request_state(s, id, state);
            &&& has_key(t.requests, id)
            &&& value_of(t.requests, id).state != RequestState::Accepted
        }),
{
    lemma_with_value(s.requests, id, RequestView { state, ..value_of(s.requests, id) });
    let t = with_request_state(s, id, state);
    assert(lookup(t.requests, id) == Some(RequestView { state, ..value_of(s.requests, id) }));
}

/// No frame takes a request back to accepted.
pub proof fn frames_never_restart_requests(
    s: SessionView,
    f: FrameView,
    owner: Option<u64>,
    id: u64,
)
    requires
        s.wf(),
        has_key(s.requests, id),
        has_key(handled(s, f, owner).0.requests, id),
    ensures
        value_of(handled(s, f, owner).0.requests, id) == value_of(s.requests, id),
{
    let t = handled(s, f, owner).0;
    if f.frame_type == FrameType::Open && t.requests != s.requests {
        let key = idem_key_of(lossy_chars(f.payload));
        let x = RequestView { state: RequestState::Accepted, key };
        lemma_with_value(s.requests, f.stream_id, x);
        lemma_without_key(s.requests, f.stream_id);
        assert(lookup(t.requests, id) == lookup(s.requests, id));
    }
}

/// An acknowledgement of bytes that were never sent frees nothing.
pub proof fn forged_acknowledgements_free_nothing(
    s: SessionView,
    f: FrameView,
    owner: Option<u64>,
)
    requires
        s.wf(),
        f.frame_type == FrameType::Ack,
        has_key(s.streams, s.resolve(f.stream_id)),
        f.byte_offset > value_of(s.streams, s.resolve(f.stream_id)).journal.next,
    ensures
        handled(s, f, owner).0.streams == s.streams,
        handled(s, f, owner).0.ctl == s.ctl,
{
}

} // verus!
