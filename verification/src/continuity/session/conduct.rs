//! What a session does, told by what goes in and what comes out: which frame leads to
//! which reply, what a read gives, and what is sent again. Nothing here depends on how the
//! session gets there.
use vstd::prelude::*;

use crate::continuity::frame::{Direction, FrameType, FrameView};
use crate::continuity::model::{
    acknowledged, advanced, contiguous, drained, fed, feeding_accounts_for_every_byte,
    lemma_unreleased, total_len, unreleased, JournalView, SegmentActionView,
};
use crate::continuity::segments::{starts_at, total_bytes, SegmentView};
use crate::continuity::session::control::{confirmed, SessionPhase};
use crate::continuity::session::frames::idem_key_of;
use crate::continuity::session::shared::{
    acked_up, broken, completed, cut_off, dispatched, handled, lemma_queue_covered,
    lemma_queue_wf, opened, queue_of, started, taken, taking_acknowledges, took,
    with_request_state, RecvStepView, RequestState, RequestView, SessionView,
};
use crate::continuity::session::streams::{
    active_total, fresh_stream, gap_total, queued_total, QueueView, StreamView,
};
use crate::outside::lossy_chars;
use crate::table::{
    has_key, key_index, lemma_with_value, lemma_without_key, lookup, value_of, with_value,
    without_key,
};

verus! {

// ---- who speaks to whom -----------------------------------------------------------

/// The frame is one of this session, sent by the peer in the direction of its data.
pub open spec fn from_peer(s: SessionView, f: FrameView) -> bool {
    &&& f.session_id == s.session_id@
    &&& f.direction == if s.is_client {
        Direction::ProviderToClient
    } else {
        Direction::ClientToProvider
    }
}

/// The frame is one of this session, about the data that this side sends.
pub open spec fn about_own_data(s: SessionView, f: FrameView) -> bool {
    &&& f.session_id == s.session_id@
    &&& f.direction == if s.is_client {
        Direction::ClientToProvider
    } else {
        Direction::ProviderToClient
    }
}

/// A stream id on the wire means the stream `id`: itself, or the one that it is an alias of.
pub open spec fn means(s: SessionView, raw: u64, id: u64) -> bool {
    match lookup(s.aliases, raw) {
        Some(c) => c == id,
        None => raw == id,
    }
}

/// The two ends of one session.
pub open spec fn ends_of_one_session(a: SessionView, b: SessionView) -> bool {
    a.session_id == b.session_id && a.is_client != b.is_client
}

/// Nothing changed but stream `id`, which is now `c`.
pub open spec fn only_stream_changed(s: SessionView, t: SessionView, id: u64, c: StreamView) -> bool {
    &&& lookup(t.streams, id) == Some(c)
    &&& forall|x: u64| x != id ==> #[trigger] lookup(t.streams, x) == lookup(s.streams, x)
    &&& t == (SessionView { streams: t.streams, ..s })
}

/// The parts that wait to be read.
pub open spec fn unread(s: SessionView, id: u64) -> Seq<Seq<u8>> {
    match lookup(s.queues, id) {
        Some(q) => q.parts,
        None => Seq::empty(),
    }
}

// ---- the end of a stream ----------------------------------------------------------

/// A FIN declares where the stream of the peer ends: at its offset plus its payload. From
/// then on a read says that the stream has ended exactly when all bytes before that end
/// have been delivered and read.
pub proof fn fin_declares_the_end(s: SessionView, f: FrameView, owner: Option<u64>, id: u64, e: u64)
    requires
        s.wf(),
        f.frame_type == FrameType::Fin,
        from_peer(s, f),
        means(s, f.stream_id, id),
        has_key(s.streams, id),
        value_of(s.streams, id).remote_final is None,
        f.byte_offset + f.payload.len() == e,
    ensures
        ({
            let (t, o) = handled(s, f, owner);
            let c = value_of(s.streams, id);
            &&& o.reply is None && o.new_open is None
            &&& only_stream_changed(s, t, id, StreamView { remote_final: Some(e), ..c })
            &&& taken(t, id).1 is Ended <==> unread(t, id).len() == 0 && c.recv.expected == e
            &&& taken(t, id).1 is Wait <==> unread(t, id).len() == 0 && c.recv.expected != e
        }),
{
    let c = value_of(s.streams, id);
    lemma_with_value(s.streams, id, StreamView { remote_final: Some(e), ..c });
}

/// The end of a stream is declared once: the same end again changes nothing, and another
/// end is a violation that changes nothing else.
pub proof fn end_stays_where_it_is(s: SessionView, f: FrameView, owner: Option<u64>, id: u64)
    requires
        s.wf(),
        f.frame_type == FrameType::Fin,
        from_peer(s, f),
        means(s, f.stream_id, id),
        has_key(s.streams, id),
        value_of(s.streams, id).remote_final is Some,
        f.byte_offset + f.payload.len() <= u64::MAX,
        s.violations < u64::MAX,
    ensures
        ({
            let (t, o) = handled(s, f, owner);
            let same = f.byte_offset + f.payload.len() == value_of(s.streams, id).remote_final->0;
            &&& o.reply is None && o.new_open is None
            &&& t == SessionView {
                violations: if same {
                    s.violations
                } else {
                    (s.violations + 1) as u64
                },
                ..s
            }
        }),
{
}

/// A stream whose end was not declared has not ended, whatever was read of it.
pub proof fn no_end_without_a_declaration(s: SessionView, id: u64)
    requires
        s.wf(),
        has_key(s.streams, id),
        value_of(s.streams, id).remote_final is None,
    ensures
        !(taken(s, id).1 is Ended),
{
}

/// A RESET ends the stream where its window stands: what was delivered can still be read,
/// then the stream has ended, and the reset is known.
pub proof fn reset_ends_the_stream(s: SessionView, f: FrameView, owner: Option<u64>, id: u64)
    requires
        s.wf(),
        f.frame_type == FrameType::Reset,
        from_peer(s, f),
        means(s, f.stream_id, id),
        has_key(s.streams, id),
    ensures
        ({
            let (t, o) = handled(s, f, owner);
            let c = value_of(s.streams, id);
            &&& o.reply is None && o.new_open is None
            &&& only_stream_changed(
                s,
                t,
                id,
                StreamView {
                    remote_final: Some(c.recv.expected as u64),
                    reset_by_peer: true,
                    ..c
                },
            )
            &&& unread(t, id) == unread(s, id)
            &&& unread(t, id).len() == 0 ==> taken(t, id).1 is Ended
        }),
{
    let c = value_of(s.streams, id);
    lemma_with_value(
        s.streams,
        id,
        StreamView { remote_final: Some(c.recv.expected as u64), reset_by_peer: true, ..c },
    );
    assert(c.wf()) by {
        let i = key_index(s.streams, id);
        assert(0 <= i < s.streams.len() && s.streams[i].0 == id);
    }
}

// ---- reading ----------------------------------------------------------------------

/// A read gives the part that was delivered first and takes it from the queue. What was read
/// counts as committed, and an acknowledgement of all of it goes to the peer if none did
/// before.
pub proof fn reads_take_the_first_part(s: SessionView, id: u64)
    requires
        s.wf(),
        unread(s, id).len() > 0,
    ensures
        ({
            let (t, step) = taken(s, id);
            let b = unread(s, id)[0];
            let c = value_of(s.streams, id);
            let upto = c.committed + b.len();
            let ack = FrameView {
                frame_type: FrameType::Ack,
                flags: 0,
                session_id: s.session_id@,
                stream_id: id,
                direction: if s.is_client {
                    Direction::ProviderToClient
                } else {
                    Direction::ClientToProvider
                },
                byte_offset: upto as u64,
                payload: Seq::empty(),
            };
            &&& has_key(s.streams, id)
            &&& step == RecvStepView::Data(
                b,
                if upto > c.last_acked {
                    Some(ack)
                } else {
                    None
                },
            )
            &&& upto <= c.recv.expected
            &&& unread(t, id) == unread(s, id).drop_first()
            &&& has_key(t.streams, id)
            &&& value_of(t.streams, id).committed == upto
            &&& value_of(t.streams, id).recv == c.recv
            &&& value_of(t.streams, id).journal == c.journal
            &&& value_of(t.streams, id).remote_final == c.remote_final
            &&& forall|x: u64| x != id ==> #[trigger] unread(t, x) == unread(s, x)
            &&& forall|x: u64| x != id ==> #[trigger] lookup(t.streams, x) == lookup(s.streams, x)
        }),
{
    taking_acknowledges(s, id);
    lemma_queue_covered(s, id);
    lemma_queue_wf(s, id);
    let q = queue_of(s, id);
    let b = q.parts[0];
    assert(q.bytes == b.len() + total_len(q.parts.drop_first()));
    let q2 = QueueView { parts: q.parts.drop_first(), bytes: (q.bytes - b.len()) as nat };
    lemma_with_value(s.queues, id, q2);
    let c = value_of(s.streams, id);
    lemma_with_value(
        s.streams,
        id,
        took(c, b.len()),
    );
    let t = taken(s, id).0;
    assert forall|x: u64| x != id implies #[trigger] unread(t, x) == unread(s, x) by {
        assert(lookup(t.queues, x) == lookup(s.queues, x));
    }
}

// ---- data -------------------------------------------------------------------------

/// The acknowledgement of `upto` bytes of the data of the peer.
pub open spec fn ack_of(s: SessionView, id: u64, upto: u64) -> FrameView {
    FrameView {
        frame_type: FrameType::Ack,
        flags: 0,
        session_id: s.session_id@,
        stream_id: id,
        direction: if s.is_client {
            Direction::ProviderToClient
        } else {
            Direction::ClientToProvider
        },
        byte_offset: upto,
        payload: Seq::empty(),
    }
}

/// The reset of a stream by this side.
pub open spec fn reset_of(s: SessionView, id: u64) -> FrameView {
    FrameView {
        frame_type: FrameType::Reset,
        flags: 4,
        session_id: s.session_id@,
        stream_id: id,
        direction: if s.is_client {
            Direction::ClientToProvider
        } else {
            Direction::ProviderToClient
        },
        byte_offset: 0,
        payload: Seq::empty(),
    }
}

/// DATA that can be handed to the window of its stream: its bytes lie in the offset space
/// and not behind the end of the stream, and what comes early fits in the 8 MiB that a
/// session holds back.
pub open spec fn data_for(s: SessionView, f: FrameView, id: u64) -> bool {
    let c = value_of(s.streams, id);
    &&& f.frame_type == FrameType::Data
    &&& from_peer(s, f)
    &&& means(s, f.stream_id, id)
    &&& has_key(s.streams, id)
    &&& f.byte_offset + f.payload.len() <= u64::MAX
    &&& match c.remote_final {
        Some(e) => f.byte_offset + f.payload.len() <= e,
        None => true,
    }
    &&& f.byte_offset > c.recv.expected && !starts_at(c.recv.gaps, f.byte_offset as nat)
        ==> gap_total(s.streams) + f.payload.len() <= 8 * 1024 * 1024
}

/// The parts fit in what waits to be read: 2 MiB for a stream, 8 MiB for a session.
pub open spec fn room_for(s: SessionView, id: u64, parts: Seq<Seq<u8>>) -> bool {
    &&& total_len(unread(s, id)) + total_len(parts) <= 2 * 1024 * 1024
    &&& queued_total(s.queues) + total_len(parts) <= 8 * 1024 * 1024
}

/// What the window delivers waits to be read, behind what is there, in order; a part that
/// came before or comes early changes nothing that can be read. Each time the peer is told
/// how much has been read. Bytes that contradict those delivered before, or that the window
/// cannot hold, are answered with a reset, and the stream ends where its window stands.
pub proof fn data_goes_through_the_window(
    s: SessionView,
    f: FrameView,
    owner: Option<u64>,
    id: u64,
)
    requires
        s.wf(),
        data_for(s, f, id),
    ensures
        ({
            let (t, o) = handled(s, f, owner);
            let c = value_of(s.streams, id);
            let d = value_of(t.streams, id);
            let (w, a) = fed(c.recv, f.byte_offset as nat, f.payload, 64, 2_097_152);
            &&& o.new_open is None
            &&& has_key(t.streams, id)
            &&& d.recv == w
            &&& d.journal == c.journal
            &&& d.final_sent == c.final_sent
            &&& d.committed == c.committed
            &&& forall|x: u64| x != id ==> #[trigger] unread(t, x) == unread(s, x)
            &&& match a {
                Ok(SegmentActionView::Deliver(parts)) => if room_for(s, id, parts) {
                    &&& unread(t, id) == unread(s, id) + parts
                    &&& o.reply == Some(ack_of(s, id, c.committed))
                    &&& d.remote_final == c.remote_final
                    &&& t.violations == s.violations
                    &&& t.ctl == confirmed(s.ctl, owner)
                    &&& d.last_acked >= c.committed && d.last_acked >= c.last_acked
                } else {
                    &&& unread(t, id) == unread(s, id)
                    &&& o.reply == Some(reset_of(s, id))
                    &&& d.remote_final == Some(w.expected as u64)
                },
                Ok(SegmentActionView::OverlapMismatch { expected, got }) => {
                    &&& unread(t, id) == unread(s, id)
                    &&& o.reply == Some(reset_of(s, id))
                    &&& d.remote_final == Some(c.recv.expected as u64)
                },
                Ok(_) => {
                    &&& unread(t, id) == unread(s, id)
                    &&& o.reply == Some(ack_of(s, id, c.committed))
                    &&& d.remote_final == c.remote_final
                    &&& t.violations == s.violations
                },
                Err(_) => {
                    &&& unread(t, id) == unread(s, id)
                    &&& o.reply == Some(reset_of(s, id))
                    &&& d.remote_final == Some(c.recv.expected as u64)
                },
            }
        }),
{
    let c = value_of(s.streams, id);
    let (t, o) = handled(s, f, owner);
    let (w, a) = fed(c.recv, f.byte_offset as nat, f.payload, 64, 2_097_152);
    lemma_queue_wf(s, id);
    let i = key_index(s.streams, id);
    assert(0 <= i < s.streams.len() && s.streams[i].0 == id);
    assert(c.wf());
    feeding_accounts_for_every_byte(
        c.recv,
        f.byte_offset as nat,
        f.payload,
        64,
        2_097_152,
    );
    lemma_with_value(s.streams, id, value_of(t.streams, id));
    let c2 = StreamView { recv: w, ..c };
    let up = acked_up(c2);
    lemma_with_value(s.streams, id, up);
    lemma_with_value(s.streams, id, c2);
    lemma_with_value(s.streams, id, cut_off(up));
    lemma_with_value(s.streams, id, cut_off(c2));
    let q = queue_of(s, id);
    match a {
        Ok(SegmentActionView::Deliver(parts)) => {
            let q2 = QueueView { parts: q.parts + parts, bytes: q.bytes + total_len(parts) };
            lemma_with_value(s.queues, id, q2);
        },
        _ => {},
    }
    assert forall|x: u64| x != id implies #[trigger] unread(t, x) == unread(s, x) by {
        assert(lookup(t.queues, x) == lookup(s.queues, x));
    }
}

/// DATA at the offset that comes next reaches the reader as it is: it waits behind what is
/// there, and the window moves on by its length.
pub proof fn data_in_order_reaches_the_reader(
    s: SessionView,
    f: FrameView,
    owner: Option<u64>,
    id: u64,
)
    requires
        s.wf(),
        data_for(s, f, id),
        f.byte_offset == value_of(s.streams, id).recv.expected,
        value_of(s.streams, id).recv.gaps.len() == 0,
        room_for(s, id, seq![f.payload]),
    ensures
        ({
            let (t, o) = handled(s, f, owner);
            let c = value_of(s.streams, id);
            let d = value_of(t.streams, id);
            &&& has_key(t.streams, id)
            &&& unread(t, id) == unread(s, id).push(f.payload)
            &&& d.recv.expected == c.recv.expected + f.payload.len()
            &&& d.recv.gaps.len() == 0
            &&& d.remote_final == c.remote_final
            &&& d.committed == c.committed
            &&& d.journal == c.journal
            &&& o.reply == Some(ack_of(s, id, c.committed))
        }),
{
    data_goes_through_the_window(s, f, owner, id);
    let c = value_of(s.streams, id);
    let w1 = advanced(c.recv, f.payload);
    assert(drained(w1) == (w1, Seq::<Seq<u8>>::empty()));
    assert(seq![f.payload] + Seq::<Seq<u8>>::empty() =~= seq![f.payload]);
    assert(unread(s, id) + seq![f.payload] =~= unread(s, id).push(f.payload));
}

/// DATA that reaches behind the end of its stream is a violation that changes nothing else.
pub proof fn data_behind_the_end_is_refused(
    s: SessionView,
    f: FrameView,
    owner: Option<u64>,
    id: u64,
)
    requires
        s.wf(),
        f.frame_type == FrameType::Data,
        from_peer(s, f),
        means(s, f.stream_id, id),
        has_key(s.streams, id),
        value_of(s.streams, id).remote_final is Some,
        value_of(s.streams, id).remote_final->0 < f.byte_offset + f.payload.len() <= u64::MAX,
        s.violations < u64::MAX,
    ensures
        ({
            let (t, o) = handled(s, f, owner);
            &&& t == SessionView { violations: (s.violations + 1) as u64, ..s }
            &&& o.reply is None && o.new_open is None
        }),
{
}

/// DATA or FIN whose bytes do not lie in the offset space is a violation, answered with a
/// reset.
pub proof fn offsets_that_overflow_are_refused(
    s: SessionView,
    f: FrameView,
    owner: Option<u64>,
    id: u64,
)
    requires
        s.wf(),
        f.frame_type == FrameType::Data || f.frame_type == FrameType::Fin,
        from_peer(s, f),
        means(s, f.stream_id, id),
        has_key(s.streams, id),
        f.byte_offset + f.payload.len() > u64::MAX,
        s.violations < u64::MAX,
    ensures
        ({
            let (t, o) = handled(s, f, owner);
            &&& t == SessionView { violations: (s.violations + 1) as u64, ..s }
            &&& o.reply == Some(reset_of(s, id)) && o.new_open is None
        }),
{
}

// ---- frames that do not belong ----------------------------------------------------

/// A frame that flows in the wrong direction, an OPEN with an id of this side, and a frame
/// on a stream that is not there are violations that change nothing else. Clients open odd
/// streams, providers even ones.
pub proof fn frames_out_of_place_only_count(s: SessionView, f: FrameView, owner: Option<u64>, id: u64)
    requires
        s.wf(),
        f.session_id == s.session_id@,
        s.violations < u64::MAX,
        means(s, f.stream_id, id),
        match f.frame_type {
            FrameType::Open => !from_peer(s, f) || (f.stream_id % 2 == 1) == s.is_client,
            FrameType::Data | FrameType::Fin | FrameType::Reset => !from_peer(s, f) || !has_key(
                s.streams,
                id,
            ),
            FrameType::Ack => !about_own_data(s, f) || !has_key(s.streams, id),
            _ => false,
        },
    ensures
        ({
            let (t, o) = handled(s, f, owner);
            &&& t == SessionView { violations: (s.violations + 1) as u64, ..s }
            &&& o.reply is None && o.new_open is None
        }),
{
}

/// Frames other than those of streams are not for the session: they change nothing.
pub proof fn control_frames_change_nothing(s: SessionView, f: FrameView, owner: Option<u64>)
    requires
        f.session_id == s.session_id@,
        f.frame_type != FrameType::Open,
        f.frame_type != FrameType::Data,
        f.frame_type != FrameType::Ack,
        f.frame_type != FrameType::Fin,
        f.frame_type != FrameType::Reset,
    ensures
        handled(s, f, owner).0 == s,
        handled(s, f, owner).1.reply is None,
        handled(s, f, owner).1.new_open is None,
{
}

/// A frame touches no stream but the one that it means and the one that it names.
pub proof fn frames_touch_one_stream(
    s: SessionView,
    f: FrameView,
    owner: Option<u64>,
    id: u64,
    x: u64,
)
    requires
        s.wf(),
        means(s, f.stream_id, id),
        x != id,
        x != f.stream_id,
    ensures
        ({
            let t = handled(s, f, owner).0;
            &&& lookup(t.streams, x) == lookup(s.streams, x)
            &&& unread(t, x) == unread(s, x)
            &&& lookup(t.requests, x) == lookup(s.requests, x)
            &&& lookup(t.keys, x) == lookup(s.keys, x)
            &&& lookup(t.metas, x) == lookup(s.metas, x)
            &&& lookup(t.aliases, x) == lookup(s.aliases, x)
        }),
{
    let t = handled(s, f, owner).0;
    if has_key(s.streams, id) {
        lemma_with_value(s.streams, id, value_of(t.streams, id));
        let c = value_of(s.streams, id);
        let (w, a) = fed(c.recv, f.byte_offset as nat, f.payload, 64, 2_097_152);
        let c2 = StreamView { recv: w, ..c };
        let up = acked_up(c2);
        lemma_with_value(s.streams, id, up);
        lemma_with_value(s.streams, id, c2);
        lemma_with_value(s.streams, id, cut_off(up));
        lemma_with_value(s.streams, id, cut_off(c2));
        lemma_with_value(s.streams, id, cut_off(c));
        lemma_with_value(
            s.streams,
            id,
            StreamView {
                reset_by_peer: true,
                ..cut_off(c)
            },
        );
        lemma_with_value(
            s.streams,
            id,
            StreamView {
                remote_final: Some((f.byte_offset + f.payload.len()) as u64),
                ..c
            },
        );
        lemma_with_value(
            s.streams,
            id,
            StreamView { journal: acknowledged(c.journal, f.byte_offset as nat), ..c },
        );
        match a {
            Ok(SegmentActionView::Deliver(parts)) => {
                let q = queue_of(s, id);
                let q2 = QueueView { parts: q.parts + parts, bytes: q.bytes + total_len(parts) };
                lemma_with_value(s.queues, id, q2);
            },
            _ => {},
        }
    }
    if f.frame_type == FrameType::Open {
        lemma_open_tables(s, f.stream_id, key_of(f), f.payload);
    }
}

/// The idempotency key that an OPEN carries.
pub open spec fn key_of(f: FrameView) -> Seq<char> {
    idem_key_of(lossy_chars(f.payload))
}

proof fn lemma_open_tables(s: SessionView, id: u64, key: Seq<char>, payload: Seq<u8>)
    requires
        s.wf(),
    ensures
        ({
            let t = opened(s, id, key, payload).0;
            forall|x: u64| x != id ==> {
                &&& #[trigger] lookup(t.streams, x) == lookup(s.streams, x)
                &&& lookup(t.requests, x) == lookup(s.requests, x)
                &&& lookup(t.keys, x) == lookup(s.keys, x)
                &&& lookup(t.metas, x) == lookup(s.metas, x)
                &&& lookup(t.aliases, x) == lookup(s.aliases, x)
            }
        }),
{
    let c = fresh_stream(id, s.limits);
    let r = RequestView {
        state: RequestState::Accepted,
        key,
    };
    lemma_with_value(s.streams, id, c);
    lemma_with_value(s.requests, id, r);
    lemma_with_value(s.keys, id, key);
    lemma_with_value(s.metas, id, payload);
    lemma_with_value(s.aliases, id, value_of(s.idem, key));
    lemma_without_key(s.requests, id);
    lemma_without_key(s.keys, id);
    let t = opened(s, id, key, payload).0;
    assert forall|x: u64| x != id implies {
        &&& #[trigger] lookup(t.streams, x) == lookup(s.streams, x)
        &&& lookup(t.requests, x) == lookup(s.requests, x)
        &&& lookup(t.keys, x) == lookup(s.keys, x)
        &&& lookup(t.metas, x) == lookup(s.metas, x)
        &&& lookup(t.aliases, x) == lookup(s.aliases, x)
    } by {
        assert(lookup(with_value(s.streams, id, c), x) == lookup(s.streams, x));
        assert(lookup(with_value(s.requests, id, r), x) == lookup(s.requests, x));
        assert(lookup(with_value(s.keys, id, key), x) == lookup(s.keys, x));
        assert(lookup(with_value(s.metas, id, payload), x) == lookup(s.metas, x));
        assert(lookup(
            with_value(s.aliases, id, value_of(s.idem, key)),
            x,
        ) == lookup(s.aliases, x));
        assert(lookup(without_key(s.requests, id), x) == lookup(s.requests, x));
        assert(lookup(without_key(s.keys, id), x) == lookup(s.keys, x));
    }
}

/// DATA that comes early and does not fit in the 8 MiB that a session holds back is a
/// violation, answered with a reset: the stream ends where its window stands.
pub proof fn early_data_over_the_bound_is_refused(
    s: SessionView,
    f: FrameView,
    owner: Option<u64>,
    id: u64,
)
    requires
        s.wf(),
        f.frame_type == FrameType::Data,
        from_peer(s, f),
        means(s, f.stream_id, id),
        has_key(s.streams, id),
        value_of(s.streams, id).remote_final is None,
        f.byte_offset + f.payload.len() <= u64::MAX,
        f.byte_offset > value_of(s.streams, id).recv.expected,
        !starts_at(value_of(s.streams, id).recv.gaps, f.byte_offset as nat),
        gap_total(s.streams) + f.payload.len() > 8 * 1024 * 1024,
        s.violations < u64::MAX,
    ensures
        ({
            let (t, o) = handled(s, f, owner);
            let c = value_of(s.streams, id);
            &&& o.reply == Some(reset_of(s, id)) && o.new_open is None
            &&& lookup(t.streams, id) == Some(
                StreamView { remote_final: Some(c.recv.expected as u64), ..c },
            )
            &&& t == SessionView {
                streams: t.streams,
                violations: (s.violations + 1) as u64,
                ..s
            }
        }),
{
    lemma_with_value(s.streams, id, cut_off(value_of(s.streams, id)));
}

// ---- opening ----------------------------------------------------------------------

/// An OPEN of the peer with an id of the peer.
pub open spec fn open_of_peer(s: SessionView, f: FrameView) -> bool {
    &&& f.frame_type == FrameType::Open
    &&& from_peer(s, f)
    &&& (f.stream_id % 2 == 1) != s.is_client
}

/// An OPEN with a new key, while fewer than 128 streams are active, opens its stream: the
/// stream is there, empty in both directions, with its key, its request to be served and the
/// payload of the OPEN, and the application is told.
pub proof fn open_makes_a_stream(s: SessionView, f: FrameView, owner: Option<u64>)
    requires
        s.wf(),
        open_of_peer(s, f),
        !has_key(s.idem, key_of(f)),
        active_total(s.streams) < 128,
        !has_key(s.streams, f.stream_id),
        !has_key(s.requests, f.stream_id),
    ensures
        ({
            let (t, o) = handled(s, f, owner);
            let id = f.stream_id;
            let c = value_of(t.streams, id);
            &&& o.new_open == Some(id) && o.reply is None
            &&& has_key(t.streams, id)
            &&& c.recv.expected == 0 && c.recv.gaps.len() == 0
            &&& c.journal.next == 0 && c.journal.acked == 0 && c.journal.segments.len() == 0
            &&& c.journal.limits == s.limits
            &&& c.final_sent is None && c.remote_final is None && c.committed == 0
                && !c.reset_by_peer
            &&& lookup(t.metas, id) == Some(f.payload)
            &&& lookup(t.keys, id) == Some(key_of(f))
            &&& lookup(t.idem, key_of(f)) == Some(id)
            &&& lookup(t.requests, id) == Some(
                RequestView { state: RequestState::Accepted, key: key_of(f) },
            )
            &&& t.violations == s.violations
            &&& t.aliases == s.aliases
            &&& t.queues == s.queues
        }),
{
    let id = f.stream_id;
    let key = key_of(f);
    lemma_with_value(s.streams, id, fresh_stream(id, s.limits));
    lemma_with_value(s.requests, id, RequestView { state: RequestState::Accepted, key });
    lemma_with_value(s.keys, id, key);
    lemma_with_value(s.metas, id, f.payload);
    lemma_with_value(s.idem, key, id);
}

/// An OPEN with a new key while 128 streams are active is a violation: nothing is opened,
/// and the key stays unknown, so that it can be opened later.
pub proof fn open_over_the_bound_is_refused(s: SessionView, f: FrameView, owner: Option<u64>)
    requires
        s.wf(),
        open_of_peer(s, f),
        !has_key(s.idem, key_of(f)),
        active_total(s.streams) >= 128,
        s.violations < u64::MAX,
    ensures
        ({
            let (t, o) = handled(s, f, owner);
            &&& o.new_open is None && o.reply is None
            &&& t.streams == s.streams
            &&& t.idem == s.idem
            &&& t.metas == s.metas
            &&& t.aliases == s.aliases
            &&& t.queues == s.queues
            &&& t.violations == s.violations + 1
        }),
{
}

/// An OPEN with a known key opens nothing: the stream that it names stands for the one that
/// has the key from then on, and the one that has the key is not touched.
pub proof fn open_with_a_known_key_is_an_alias(s: SessionView, f: FrameView, owner: Option<u64>)
    requires
        s.wf(),
        open_of_peer(s, f),
        has_key(s.idem, key_of(f)),
    ensures
        ({
            let (t, o) = handled(s, f, owner);
            let first = value_of(s.idem, key_of(f));
            &&& o.new_open is None && o.reply is None
            &&& f.stream_id != first ==> means(t, f.stream_id, first)
            &&& f.stream_id == first ==> t == s
            &&& t == SessionView { aliases: t.aliases, ..s }
        }),
{
    lemma_with_value(s.aliases, f.stream_id, value_of(s.idem, key_of(f)));
}

/// A stream counts as active until both ends of it are declared and all that this side sent
/// is acknowledged.
pub proof fn streams_are_active_until_both_ends_are_known(s: Seq<(u64, StreamView)>, x: (u64, StreamView))
    ensures
        active_total(s.push(x)) == active_total(s) + (if x.1.remote_final is Some
            && x.1.final_sent is Some && total_bytes(x.1.journal.segments) == 0 {
            0nat
        } else {
            1nat
        }),
        active_total(Seq::<(u64, StreamView)>::empty()) == 0,
{
    assert(s.push(x).drop_last() =~= s);
}

// ---- acknowledgements -------------------------------------------------------------

/// An acknowledgement of bytes that were sent moves the journal of its stream there, never
/// back: what it covers is freed, and everything else is kept.
pub proof fn acknowledgements_free_what_they_cover(
    s: SessionView,
    f: FrameView,
    owner: Option<u64>,
    id: u64,
)
    requires
        s.wf(),
        f.frame_type == FrameType::Ack,
        about_own_data(s, f),
        means(s, f.stream_id, id),
        has_key(s.streams, id),
        f.byte_offset <= value_of(s.streams, id).journal.next,
    ensures
        ({
            let (t, o) = handled(s, f, owner);
            let c = value_of(s.streams, id);
            let d = value_of(t.streams, id);
            let (j, k) = (c.journal, d.journal);
            &&& o.reply is None && o.new_open is None
            &&& has_key(t.streams, id)
            &&& d == StreamView { journal: k, ..c }
            &&& k == JournalView { acked: k.acked, segments: k.segments, ..j }
            &&& k.acked == if f.byte_offset > j.acked {
                f.byte_offset as nat
            } else {
                j.acked
            }
            &&& forall|i: int|
                0 <= i < j.segments.len() && (#[trigger] j.segments[i]).end() > k.acked
                    ==> k.segments.contains(j.segments[i])
            &&& f.byte_offset > j.acked ==> forall|i: int|
                0 <= i < k.segments.len() ==> (#[trigger] k.segments[i]).end() > k.acked
                    && j.segments.contains(k.segments[i])
            &&& f.byte_offset <= j.acked ==> k.segments == j.segments
            &&& t.ctl == confirmed(s.ctl, owner)
            &&& t == SessionView { streams: t.streams, ctl: t.ctl, ..s }
        }),
{
    let c = value_of(s.streams, id);
    let j = c.journal;
    let a = f.byte_offset as nat;
    let i0 = key_index(s.streams, id);
    assert(0 <= i0 < s.streams.len() && s.streams[i0].0 == id);
    assert(c.wf());
    let k = acknowledged(j, a);
    lemma_with_value(s.streams, id, StreamView { journal: k, ..c });
    if a > j.acked {
        lemma_unreleased(j.segments, j.next, a);
        let n = j.segments.len() - k.segments.len();
        assert forall|i: int| 0 <= i < k.segments.len() implies (#[trigger] k.segments[i]).end()
            > k.acked && j.segments.contains(k.segments[i]) by {
            assert(k.segments[i] == j.segments[n + i]);
            lemma_ends_grow(k.segments, j.next, i);
        }
        assert forall|i: int|
            0 <= i < j.segments.len() && (#[trigger] j.segments[i]).end()
                > k.acked implies k.segments.contains(j.segments[i]) by {
            lemma_kept(j.segments, a, i);
        }
    } else {
        assert forall|i: int| 0 <= i < j.segments.len() implies k.segments.contains(
            #[trigger] j.segments[i],
        ) by {
            assert(k.segments[i] == j.segments[i]);
        }
    }
}

proof fn lemma_ends_grow(v: Seq<SegmentView>, next: nat, i: int)
    requires
        contiguous(v, next),
        0 <= i < v.len(),
    ensures
        v[0].end() <= v[i].end(),
    decreases i,
{
    if i > 0 {
        lemma_ends_grow(v, next, i - 1);
        assert(v[i - 1].end() == v[i].offset);
    }
}

proof fn lemma_kept(v: Seq<SegmentView>, acked: nat, i: int)
    requires
        0 <= i < v.len(),
        v[i].end() > acked,
    ensures
        unreleased(v, acked).contains(v[i]),
    decreases v.len(),
{
    if v[0].end() <= acked {
        let d = v.drop_first();
        assert(d[i - 1] == v[i]);
        lemma_kept(d, acked, i - 1);
    } else {
        assert(v.contains(v[i]));
    }
}

// ---- requests ---------------------------------------------------------------------

/// Setting the state of a request sets that and nothing else: its key stays, and so do all
/// other requests.
pub proof fn request_states_are_set_one_by_one(
    s: SessionView,
    id: u64,
    state: RequestState,
    x: u64,
)
    requires
        s.wf(),
        has_key(s.requests, id),
    ensures
        ({
            let t = with_request_state(s, id, state);
            &&& lookup(t.requests, id) == Some(
                RequestView { state, key: value_of(s.requests, id).key },
            )
            &&& x != id ==> lookup(t.requests, x) == lookup(s.requests, x)
            &&& t == SessionView { requests: t.requests, ..s }
        }),
{
    lemma_with_value(s.requests, id, RequestView { state, ..value_of(s.requests, id) });
}

/// A request is started by the first call that tries, and by no other: that call is told so,
/// and the request is started from then on. A request that is not there is not started.
pub proof fn requests_are_started_once(s: SessionView, id: u64)
    requires
        s.wf(),
    ensures
        ({
            let (t, first) = started(s, id);
            &&& first <==> match lookup(s.requests, id) {
                Some(r) => r.state == RequestState::Accepted,
                None => false,
            }
            &&& first ==> lookup(t.requests, id) == Some(
                RequestView { state: RequestState::Started, key: value_of(s.requests, id).key },
            )
            &&& !first ==> t == s
            &&& !started(t, id).1
            &&& t == SessionView { requests: t.requests, ..s }
            &&& forall|x: u64|
                x != id ==> #[trigger] lookup(t.requests, x) == lookup(s.requests, x)
        }),
{
    let x = RequestView { state: RequestState::Started, ..value_of(s.requests, id) };
    lemma_with_value(s.requests, id, x);
}

/// A completed request is completed, whether it was started or not, and is never started
/// again.
pub proof fn completed_requests_stay_completed(s: SessionView, id: u64)
    requires
        s.wf(),
    ensures
        ({
            let t = completed(s, id);
            &&& has_key(s.requests, id) ==> lookup(t.requests, id) == Some(
                RequestView { state: RequestState::Completed, key: value_of(s.requests, id).key },
            )
            &&& !has_key(s.requests, id) ==> t == s
            &&& !started(t, id).1
            &&& t == SessionView { requests: t.requests, ..s }
            &&& forall|x: u64|
                x != id ==> #[trigger] lookup(t.requests, x) == lookup(s.requests, x)
        }),
{
    let x = RequestView { state: RequestState::Completed, ..value_of(s.requests, id) };
    lemma_with_value(s.requests, id, x);
}

/// A session whose current channel breaks recovers, and loses nothing: streams, journals,
/// queues and credentials stay. The loss of any other channel changes nothing at all.
pub proof fn broken_channels_lose_nothing(s: SessionView, epoch: u64, owner: u64)
    ensures
        ({
            let t = broken(s, epoch, owner);
            let current = s.ctl.active_epoch == epoch && s.ctl.channel_owner == owner;
            &&& current ==> t.ctl.phase == SessionPhase::Recovering
            &&& !current ==> t == s
            &&& t.streams == s.streams && t.queues == s.queues && t.requests == s.requests
                && t.keys == s.keys && t.metas == s.metas && t.idem == s.idem && t.aliases
                == s.aliases
            &&& t.ctl.tokens == s.ctl.tokens && t.ctl.pending == s.ctl.pending
                && t.ctl.channel_owner == s.ctl.channel_owner
        }),
{
}

/// A frame on the current channel does what the frame does, and counts as its use.
pub proof fn frames_on_the_current_channel_count(
    s: SessionView,
    epoch: u64,
    owner: u64,
    f: FrameView,
)
    requires
        s.ctl.active_epoch == epoch,
        s.ctl.channel_owner == owner,
    ensures
        dispatched(s, epoch, owner, f) == handled(s, f, Some(owner)),
{
}

} // verus!
