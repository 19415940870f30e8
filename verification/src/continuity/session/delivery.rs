//! What one end of a session sends is what the other end reads: while the connection lasts,
//! and after it was lost, when everything that is not acknowledged is sent again.
use vstd::prelude::*;
use vstd::string::*;
use vstd::utf8::{encode_utf8, encode_utf8_decode_utf8, encode_utf8_valid_utf8};

use crate::continuity::frame::{Direction, FrameType, FrameView};
use crate::continuity::model::{recorded, JournalView};
use crate::continuity::segments::{total_bytes, SegmentView};
use crate::continuity::session::conduct::{
    acknowledgements_free_what_they_cover, data_in_order_reaches_the_reader, ends_of_one_session,
    fin_declares_the_end, open_makes_a_stream, open_of_peer, open_with_a_known_key_is_an_alias,
    reads_take_the_first_part, room_for, unread,
};
use crate::continuity::session::frames::{
    interleaved, interleaving_goes_in_rounds, interleaving_sends_every_segment_once,
    keys_are_read_as_written, open_text,
    outstanding as all_segments, place_of, slice_of,
};
use crate::continuity::session::shared::{
    caught_up, caught_up_one, data_sent, data_view, declared_ends, fin_sent, fin_view, finished,
    fresh_session, handled, open_view, opening, outstanding, replay_data, replay_fins,
    replay_opens, segment_pairs, sent, skip_two, summaries_of, taken, with_stream, RequestState,
    RequestView, SessionView,
};
use crate::continuity::session::streams::{active_total, fresh_stream, held_total, segment_total, StreamView};
use crate::continuity::session::wire::StreamSummary;
use crate::table::{has_key, key_index, lemma_key_index, lemma_with_value, lookup, value_of};

verus! {

// ---- sending ----------------------------------------------------------------------

/// The journal of a stream; that of a new one where there is none.
pub open spec fn journal_of(s: SessionView, id: u64) -> JournalView {
    match lookup(s.streams, id) {
        Some(c) => c.journal,
        None => JournalView {
            stream_id: id,
            next: 0,
            acked: 0,
            final_offset: None,
            segments: Seq::empty(),
            limits: s.limits,
        },
    }
}

/// A segment is taken for sending exactly if it fits in what a session and a stream may hold
/// unacknowledged. Its offset is the number of bytes sent before; it is kept, with all that
/// was kept before, and nothing else changes. One that does not fit leaves all journals as
/// they are.
pub proof fn what_is_sent_is_kept(s: SessionView, id: u64, bytes: Seq<u8>)
    requires
        s.wf(),
        journal_of(s, id).next + bytes.len() <= u64::MAX,
    ensures
        ({
            let (t, r) = sent(s, id, bytes);
            let j = journal_of(s, id);
            let k = journal_of(t, id);
            let fits = {
                &&& held_total(s.streams) + bytes.len() <= s.limits.max_session_bytes
                &&& segment_total(s.streams) < s.limits.max_session_segments
                &&& j.segments.len() < j.limits.max_segments
                &&& total_bytes(j.segments) + bytes.len() <= j.limits.max_stream_bytes
            };
            &&& r is Ok <==> fits
            &&& r is Ok ==> {
                &&& r->Ok_0 == j.next
                &&& has_key(t.streams, id)
                &&& k.next == j.next + bytes.len()
                &&& k.acked == j.acked
                &&& k.segments.contains(SegmentView { offset: j.next, bytes })
                &&& forall|i: int|
                    0 <= i < j.segments.len() && (#[trigger] j.segments[i]).offset != j.next
                        ==> k.segments.contains(j.segments[i])
                &&& forall|i: int|
                    0 <= i < k.segments.len() ==> #[trigger] k.segments[i] == (SegmentView {
                        offset: j.next,
                        bytes,
                    }) || j.segments.contains(k.segments[i])
            }
            &&& r is Err ==> k == j
            &&& forall|x: u64| x != id ==> #[trigger] lookup(t.streams, x) == lookup(s.streams, x)
            &&& t == SessionView { streams: t.streams, ..s }
            &&& has_key(s.streams, id) ==> has_key(t.streams, id) && value_of(t.streams, id) == (
            StreamView { journal: k, ..value_of(s.streams, id) })
        }),
{
    let c = value_of(with_stream(s, id).streams, id);
    lemma_with_value(s.streams, id, fresh_stream(id, s.limits));
    let u = with_stream(s, id);
    crate::continuity::session::shared::lemma_add_stream(s, id);
    assert(lookup(u.streams, id) == Some(c));
    let j = journal_of(s, id);
    assert(c.journal == j);
    let k = recorded(j, bytes, false);
    lemma_with_value(u.streams, id, StreamView { journal: k, ..c });
    let x = SegmentView { offset: j.next, bytes };
    let n = k.segments.len() - 1;
    assert(k.segments[n] == x);
    assert forall|i: int|
        0 <= i < j.segments.len() && (#[trigger] j.segments[i]).offset
            != j.next implies k.segments.contains(j.segments[i]) by {
        assert(k.segments[i] == j.segments[i]);
    }
    assert forall|i: int| 0 <= i < k.segments.len() implies #[trigger] k.segments[i] == x
        || j.segments.contains(k.segments[i]) by {
        if i < n {
            assert(k.segments[i] == j.segments[i]);
        }
    }
    let t = sent(s, id, bytes).0;
    assert forall|y: u64| y != id implies #[trigger] lookup(t.streams, y) == lookup(
        s.streams,
        y,
    ) by {
        assert(lookup(u.streams, y) == lookup(s.streams, y));
    }
}

/// Declaring the end of a stream declares the number of bytes sent on it, and changes
/// nothing else.
pub proof fn finishing_declares_what_was_sent(s: SessionView, id: u64)
    requires
        s.wf(),
    ensures
        ({
            let t = finished(s, id);
            let c = value_of(t.streams, id);
            &&& has_key(t.streams, id)
            &&& c.final_sent == Some(journal_of(s, id).next as u64)
            &&& c.journal == journal_of(s, id)
            &&& has_key(s.streams, id) ==> c == (StreamView {
                final_sent: c.final_sent,
                ..value_of(s.streams, id)
            })
            &&& forall|x: u64| x != id ==> #[trigger] lookup(t.streams, x) == lookup(s.streams, x)
            &&& t == SessionView { streams: t.streams, ..s }
        }),
{
    lemma_with_value(s.streams, id, fresh_stream(id, s.limits));
    let u = with_stream(s, id);
    crate::continuity::session::shared::lemma_add_stream(s, id);
    let c = value_of(u.streams, id);
    assert(lookup(u.streams, id) == Some(c));
    lemma_with_value(u.streams, id, StreamView { final_sent: Some(c.journal.next as u64), ..c });
    let t = finished(s, id);
    assert forall|y: u64| y != id implies #[trigger] lookup(t.streams, y) == lookup(
        s.streams,
        y,
    ) by {
        assert(lookup(u.streams, y) == lookup(s.streams, y));
    }
}

/// The direction of what a session sends.
pub open spec fn own_direction(s: SessionView) -> Direction {
    if s.is_client {
        Direction::ClientToProvider
    } else {
        Direction::ProviderToClient
    }
}

/// The DATA frame for bytes of a stream.
pub open spec fn data_frame(s: SessionView, id: u64, offset: u64, bits: u16, bytes: Seq<u8>) -> FrameView {
    FrameView {
        frame_type: FrameType::Data,
        flags: bits,
        session_id: s.session_id@,
        stream_id: id,
        direction: own_direction(s),
        byte_offset: offset,
        payload: bytes,
    }
}

/// The FIN frame for the end of a stream.
pub open spec fn fin_frame(s: SessionView, id: u64, end: u64, bits: u16) -> FrameView {
    FrameView {
        frame_type: FrameType::Fin,
        flags: bits,
        session_id: s.session_id@,
        stream_id: id,
        direction: own_direction(s),
        byte_offset: end,
        payload: Seq::empty(),
    }
}

/// The frames that sending gives name the session, the stream, the direction of the sender
/// and the offset, and carry the bytes.
pub proof fn frames_say_what_is_sent(s: SessionView, id: u64, offset: u64, bits: u16, bytes: Seq<u8>)
    requires
        s.wf(),
    ensures
        data_view(s, id, offset, bits, bytes) == data_frame(s, id, offset, bits, bytes),
        fin_view(s, id, offset, bits) == fin_frame(s, id, offset, bits),
        fin_sent(s, id) == fin_frame(s, id, journal_of(s, id).next as u64, 2),
        sent(s, id, bytes).1 is Ok && journal_of(s, id).next + bytes.len() <= u64::MAX ==> data_sent(
            s,
            id,
            bytes,
        ) == data_frame(s, id, journal_of(s, id).next as u64, 0, bytes),
{
    lemma_with_value(s.streams, id, fresh_stream(id, s.limits));
    if journal_of(s, id).next + bytes.len() <= u64::MAX {
        what_is_sent_is_kept(s, id, bytes);
    }
}

// ---- both ends --------------------------------------------------------------------

/// The receiver has all that the sender sent of a stream that has not ended.
pub open spec fn in_step(a: SessionView, b: SessionView, id: u64) -> bool {
    &&& a.wf()
    &&& b.wf()
    &&& ends_of_one_session(a, b)
    &&& has_key(b.streams, id)
    &&& lookup(b.aliases, id) is None
    &&& value_of(b.streams, id).recv.expected == journal_of(a, id).next
    &&& value_of(b.streams, id).recv.gaps.len() == 0
    &&& value_of(b.streams, id).remote_final is None
}

/// What one end sends, the other end reads: the frame that sending gives makes its bytes
/// wait behind what is unread there, and both ends stay in step.
pub proof fn what_is_sent_is_read(
    a: SessionView,
    b: SessionView,
    owner: Option<u64>,
    id: u64,
    bytes: Seq<u8>,
)
    requires
        in_step(a, b, id),
        sent(a, id, bytes).1 is Ok,
        journal_of(a, id).next + bytes.len() <= u64::MAX,
        room_for(b, id, seq![bytes]),
    ensures
        ({
            let (a2, r) = sent(a, id, bytes);
            let (b2, o) = handled(b, data_sent(a, id, bytes), owner);
            &&& unread(b2, id) == unread(b, id).push(bytes)
            &&& has_key(b2.streams, id)
            &&& value_of(b2.streams, id).recv.expected == journal_of(a2, id).next
            &&& value_of(b2.streams, id).recv.gaps.len() == 0
            &&& value_of(b2.streams, id).remote_final is None
            &&& lookup(b2.aliases, id) is None
            &&& ends_of_one_session(a2, b2)
        }),
{
    what_is_sent_is_kept(a, id, bytes);
    let f = data_sent(a, id, bytes);
    data_in_order_reaches_the_reader(b, f, owner, id);
}

/// A stream that one end finishes has ended for the other end once all of it is read, and
/// not before: the reader of a finished stream does not wait for ever.
pub proof fn finished_streams_are_read_to_their_end(
    a: SessionView,
    b: SessionView,
    owner: Option<u64>,
    id: u64,
)
    requires
        in_step(a, b, id),
    ensures
        ({
            let a2 = finished(a, id);
            let end = value_of(a2.streams, id).final_sent->0;
            let (b2, o) = handled(b, fin_sent(a, id), owner);
            &&& end == journal_of(a, id).next
            &&& value_of(a2.streams, id).final_sent is Some
            &&& value_of(b2.streams, id).remote_final == Some(journal_of(a, id).next as u64)
            &&& unread(b2, id) == unread(b, id)
            &&& unread(b, id).len() == 0 <==> taken(b2, id).1 is Ended
            &&& unread(b, id).len() > 0 <==> taken(b2, id).1 is Data
        }),
{
    finishing_declares_what_was_sent(a, id);
    let end = journal_of(a, id).next as u64;
    let i = key_index(b.streams, id);
    assert(0 <= i < b.streams.len() && b.streams[i].0 == id);
    assert(b.streams[i].1.wf());
    let f = fin_sent(a, id);
    lemma_with_value(a.streams, id, fresh_stream(id, a.limits));
    assert(f == fin_view(a, id, end, 2));
    fin_declares_the_end(b, f, owner, id, end);
}

/// The acknowledgement that a read gives frees at the sender what was read: after it, the
/// sender keeps nothing that ends before.
pub proof fn what_is_read_is_freed(
    a: SessionView,
    b: SessionView,
    owner: Option<u64>,
    id: u64,
)
    requires
        a.wf(),
        b.wf(),
        ends_of_one_session(a, b),
        has_key(a.streams, id),
        lookup(a.aliases, id) is None,
        unread(b, id).len() > 0,
        value_of(b.streams, id).recv.expected <= journal_of(a, id).next,
        value_of(b.streams, id).committed >= value_of(b.streams, id).last_acked,
        unread(b, id)[0].len() > 0,
    ensures
        ({
            let (b2, step) = taken(b, id);
            let upto = value_of(b2.streams, id).committed;
            &&& step is Data
            &&& step->Data_1 is Some
            &&& {
                let a2 = handled(a, step->Data_1->0, owner).0;
                &&& journal_of(a2, id).acked == if upto > journal_of(a, id).acked {
                    upto as nat
                } else {
                    journal_of(a, id).acked
                }
                &&& upto > journal_of(a, id).acked ==> forall|i: int|
                    0 <= i < journal_of(a2, id).segments.len() ==> (#[trigger] journal_of(
                        a2,
                        id,
                    ).segments[i]).end() > upto
            }
        }),
{
    reads_take_the_first_part(b, id);
    let step = taken(b, id).1;
    let f = step->Data_1->0;
    acknowledgements_free_what_they_cover(a, f, owner, id);
}

// ---- opening ----------------------------------------------------------------------

/// A new session of a client opens odd streams, one of a provider even ones.
pub proof fn new_sessions_have_their_own_ids(
    session_id: crate::continuity::session::control::Id16,
    token: crate::continuity::session::control::Id16,
    peer_id: Seq<char>,
    is_client: bool,
    limits: crate::continuity::model::JournalLimits,
)
    ensures
        ({
            let s = fresh_session(session_id, token, peer_id, is_client, limits);
            &&& s.next_stream_id == if is_client {
                1u64
            } else {
                2u64
            }
            &&& s.streams.len() == 0 && s.requests.len() == 0 && s.keys.len() == 0
                && s.queues.len() == 0
            &&& s.violations == 0 && s.stale == 0 && s.ack_violations == 0
            &&& s.ctl.tokens.current == (1u64, token)
        }),
{
}

/// Opening a stream takes the next id of this side, makes an empty stream with the key, and
/// moves on by two, so that ids are not given twice and stay those of this side.
pub proof fn opening_takes_the_next_id(s: SessionView, key: Seq<char>)
    requires
        s.wf(),
        s.next_stream_id <= u64::MAX - 2,
        !has_key(s.streams, s.next_stream_id),
    ensures
        ({
            let t = opening(s, key);
            let id = s.next_stream_id;
            &&& t.next_stream_id == id + 2
            &&& has_key(t.streams, id)
            &&& journal_of(t, id).next == 0
            &&& value_of(t.streams, id).recv.expected == 0
            &&& value_of(t.streams, id).remote_final is None
            &&& value_of(t.streams, id).final_sent is None
            &&& lookup(t.keys, id) == Some(key)
            &&& forall|x: u64| x != id ==> #[trigger] lookup(t.streams, x) == lookup(s.streams, x)
            &&& forall|x: u64| x != id ==> #[trigger] lookup(t.keys, x) == lookup(s.keys, x)
            &&& t == SessionView {
                next_stream_id: t.next_stream_id,
                streams: t.streams,
                keys: t.keys,
                ..s
            }
        }),
{
    lemma_with_value(s.streams, s.next_stream_id, fresh_stream(s.next_stream_id, s.limits));
    lemma_with_value(s.keys, s.next_stream_id, key);
}

// ---- sending again ----------------------------------------------------------------

proof fn lemma_outstanding(v: Seq<(u64, StreamView)>, i: int)
    requires
        0 <= i < v.len(),
        total_bytes(v[i].1.journal.segments) > 0,
    ensures
        outstanding(v).contains((v[i].0, segment_pairs(v[i].1.journal.segments))),
    decreases v.len(),
{
    let x = (v[i].0, segment_pairs(v[i].1.journal.segments));
    let before = outstanding(v.drop_last());
    if i < v.len() - 1 {
        lemma_outstanding(v.drop_last(), i);
        let j = choose|j: int| 0 <= j < before.len() && before[j] == x;
        assert(outstanding(v)[j] == x);
    } else {
        assert(outstanding(v)[before.len() as int] == x);
    }
}

proof fn lemma_outstanding_from(v: Seq<(u64, StreamView)>, j: int)
    requires
        0 <= j < outstanding(v).len(),
    ensures
        exists|i: int|
            0 <= i < v.len() && outstanding(v)[j] == (
                (#[trigger] v[i]).0,
                segment_pairs(v[i].1.journal.segments),
            ),
    decreases v.len(),
{
    if v.len() > 0 {
        let u = v.drop_last();
        let before = outstanding(u);
        if j < before.len() {
            lemma_outstanding_from(u, j);
            let i = choose|i: int|
                0 <= i < u.len() && before[j] == (
                    (#[trigger] u[i]).0,
                    segment_pairs(u[i].1.journal.segments),
                );
            assert(v[i] == u[i]);
        } else {
            let i = v.len() - 1;
            assert(outstanding(v)[j] == (v[i].0, segment_pairs(v[i].1.journal.segments)));
        }
    }
}

/// Everything that is not acknowledged is sent again: for every segment that the journal of
/// a stream holds, of whatever stream, finished or not, the replay has a DATA frame with the
/// stream, the offset and the bytes, marked as a replay. Only a journal without a byte has
/// nothing to send.
pub proof fn everything_held_is_sent_again(s: SessionView, id: u64, k: int)
    requires
        s.wf(),
        has_key(s.streams, id),
        total_bytes(journal_of(s, id).segments) > 0,
        0 <= k < journal_of(s, id).segments.len(),
    ensures
        ({
            let x = journal_of(s, id).segments[k];
            (replay_data(s) + replay_fins(s)).contains(
                data_frame(s, id, x.offset as u64, 16, x.bytes),
            )
        }),
{
    let v = s.streams;
    let i = key_index(v, id);
    assert(0 <= i < v.len() && v[i].0 == id);
    lemma_key_index(v, i);
    let segs = v[i].1.journal.segments;
    lemma_outstanding(v, i);
    let b = outstanding(v);
    let j = choose|j: int| 0 <= j < b.len() && b[j] == (id, segment_pairs(segs));
    interleaving_goes_in_rounds(b, j, k);
    let p = place_of(b, j, k);
    let x = segs[k];
    assert(interleaved(b)[p] == (id, x.offset as u64, x.bytes));
    let all = replay_data(s) + replay_fins(s);
    assert(all[p] == data_frame(s, id, x.offset as u64, 16, x.bytes));
}

proof fn lemma_all_segments(b: Seq<(u64, Seq<(u64, Seq<u8>)>)>, n: nat, p: int)
    requires
        n <= b.len(),
        0 <= p < all_segments(b, n).len(),
    ensures
        exists|j: int, k: int|
            0 <= j < b.len() && 0 <= k < b[j].1.len() && all_segments(b, n)[p] == (
                b[j].0,
                (#[trigger] b[j].1[k]).0,
                b[j].1[k].1,
            ),
    decreases n,
{
    if n > 0 {
        let before = all_segments(b, (n - 1) as nat);
        let x = b[n - 1];
        if p < before.len() {
            lemma_all_segments(b, (n - 1) as nat, p);
        } else {
            let k = p - before.len();
            assert(all_segments(b, n)[p] == slice_of(x, 0, x.1.len() as int)[k]);
            assert(b[n - 1].1[k] == x.1[k]);
        }
    }
}

/// Nothing else is sent again: a DATA frame of a replay is a segment that a journal holds.
pub proof fn only_what_is_held_is_sent_again(s: SessionView, p: int)
    requires
        s.wf(),
        0 <= p < replay_data(s).len(),
    ensures
        ({
            let f = replay_data(s)[p];
            &&& has_key(s.streams, f.stream_id)
            &&& f == data_frame(s, f.stream_id, f.byte_offset, 16, f.payload)
            &&& exists|k: int|
                0 <= k < journal_of(s, f.stream_id).segments.len() && (#[trigger] journal_of(
                    s,
                    f.stream_id,
                ).segments[k]).bytes == f.payload && journal_of(
                    s,
                    f.stream_id,
                ).segments[k].offset as u64 == f.byte_offset
        }),
{
    let b = outstanding(s.streams);
    let items = interleaved(b);
    let all = all_segments(b, b.len());
    interleaving_sends_every_segment_once(b);
    let x = items[p];
    items.to_multiset_ensures();
    all.to_multiset_ensures();
    assert(items.contains(x));
    assert(items.to_multiset().count(x) > 0);
    assert(all.contains(x));
    let q = choose|q: int| 0 <= q < all.len() && all[q] == x;
    lemma_all_segments(b, b.len(), q);
    let (j, k) = choose|j: int, k: int|
        0 <= j < b.len() && 0 <= k < b[j].1.len() && all[q] == (
            b[j].0,
            (#[trigger] b[j].1[k]).0,
            b[j].1[k].1,
        );
    lemma_outstanding_from(s.streams, j);
    let i = choose|i: int|
        0 <= i < s.streams.len() && b[j] == (
            (#[trigger] s.streams[i]).0,
            segment_pairs(s.streams[i].1.journal.segments),
        );
    lemma_key_index(s.streams, i);
    let segs = s.streams[i].1.journal.segments;
    assert(segment_pairs(segs)[k] == (segs[k].offset as u64, segs[k].bytes));
    assert(journal_of(s, x.0).segments == segs);
    assert(journal_of(s, x.0).segments[k].bytes == x.2);
}

proof fn lemma_ends_of(v: Seq<(u64, StreamView)>, i: int)
    requires
        0 <= i < v.len(),
        v[i].1.final_sent is Some,
    ensures
        declared_ends(v).contains((v[i].0, v[i].1.final_sent->0)),
    decreases v.len(),
{
    let x = (v[i].0, v[i].1.final_sent->0);
    let before = declared_ends(v.drop_last());
    if i < v.len() - 1 {
        lemma_ends_of(v.drop_last(), i);
        let j = choose|j: int| 0 <= j < before.len() && before[j] == x;
        assert(declared_ends(v)[j] == x);
    } else {
        assert(declared_ends(v)[before.len() as int] == x);
    }
}

proof fn lemma_ends_from(v: Seq<(u64, StreamView)>, j: int)
    requires
        0 <= j < declared_ends(v).len(),
    ensures
        exists|i: int|
            0 <= i < v.len() && (#[trigger] v[i]).0 == declared_ends(v)[j].0
                && v[i].1.final_sent == Some(declared_ends(v)[j].1),
    decreases v.len(),
{
    if v.len() > 0 {
        let u = v.drop_last();
        let before = declared_ends(u);
        if j < before.len() {
            lemma_ends_from(u, j);
            let i = choose|i: int|
                0 <= i < u.len() && (#[trigger] u[i]).0 == before[j].0 && u[i].1.final_sent == Some(
                    before[j].1,
                );
            assert(v[i] == u[i]);
        } else {
            let i = v.len() - 1;
            assert(v[i].1.final_sent == Some(declared_ends(v)[j].1));
        }
    }
}

/// The end of every stream that was declared is declared again, behind all data.
pub proof fn every_declared_end_is_sent_again(s: SessionView, id: u64, e: u64)
    requires
        s.wf(),
        has_key(s.streams, id),
        value_of(s.streams, id).final_sent == Some(e),
    ensures
        replay_fins(s).contains(fin_frame(s, id, e, 18)),
{
    let v = s.streams;
    let i = key_index(v, id);
    assert(0 <= i < v.len() && v[i].0 == id);
    lemma_ends_of(v, i);
    let ends = declared_ends(v);
    let j = choose|j: int| 0 <= j < ends.len() && ends[j] == (id, e);
    assert(2u16 | 16u16 == 18u16) by (bit_vector);
    assert(replay_fins(s)[j] == fin_frame(s, id, e, 18));
}

/// No other end is declared by a replay.
pub proof fn only_declared_ends_are_sent_again(s: SessionView, j: int)
    requires
        s.wf(),
        0 <= j < replay_fins(s).len(),
    ensures
        ({
            let f = replay_fins(s)[j];
            &&& f == fin_frame(s, f.stream_id, f.byte_offset, 18)
            &&& has_key(s.streams, f.stream_id)
            &&& value_of(s.streams, f.stream_id).final_sent == Some(f.byte_offset)
        }),
{
    lemma_ends_from(s.streams, j);
    let ends = declared_ends(s.streams);
    let i = choose|i: int|
        0 <= i < s.streams.len() && (#[trigger] s.streams[i]).0 == ends[j].0
            && s.streams[i].1.final_sent == Some(ends[j].1);
    lemma_key_index(s.streams, i);
    assert(2u16 | 16u16 == 18u16) by (bit_vector);
}

/// Every stream with a key is opened again under that key, and no other.
pub proof fn every_stream_is_opened_again(s: SessionView, i: int)
    requires
        0 <= i < s.keys.len(),
    ensures
        replay_opens(s).len() == s.keys.len(),
        replay_opens(s)[i] == (FrameView {
            frame_type: FrameType::Open,
            flags: 17,
            session_id: s.session_id@,
            stream_id: s.keys[i].0,
            direction: own_direction(s),
            byte_offset: 0,
            payload: encode_utf8(open_text(s.keys[i].0, s.keys[i].1)),
        }),
{
    assert(1u16 | 16u16 == 17u16) by (bit_vector);
}

/// Each stream reports what was read of it, what was sent on it and the end that was
/// declared.
pub proof fn reports_say_how_far_streams_came(s: SessionView, i: int)
    requires
        s.wf(),
        0 <= i < s.streams.len(),
    ensures
        ({
            let x = summaries_of(s)[i];
            let c = s.streams[i].1;
            &&& summaries_of(s).len() == s.streams.len()
            &&& x.stream_id == s.streams[i].0
            &&& x.recv_ack == c.committed
            &&& x.send_next == c.journal.next
            &&& x.final_sent == c.final_sent
        }),
{
    assert(s.streams[i].1.wf());
}

/// The report of the peer is an acknowledgement of what was read there: the journal moves
/// there, never back; what was never sent cannot be reported.
pub proof fn reports_acknowledge_what_was_read(s: SessionView, x: StreamSummary)
    requires
        s.wf(),
        has_key(s.streams, x.stream_id),
    ensures
        ({
            let t = caught_up_one(s, x);
            let id = x.stream_id;
            let (j, k) = (journal_of(s, id), journal_of(t, id));
            &&& k.next == j.next
            &&& x.recv_ack <= j.next ==> k.acked == (if x.recv_ack > j.acked {
                x.recv_ack as nat
            } else {
                j.acked
            }) && t.ack_violations == s.ack_violations
            &&& x.recv_ack > j.next ==> t.streams == s.streams
            &&& forall|y: u64| y != id ==> #[trigger] lookup(t.streams, y) == lookup(s.streams, y)
        }),
{
    let c = value_of(s.streams, x.stream_id);
    lemma_with_value(
        s.streams,
        x.stream_id,
        StreamView {
            journal: crate::continuity::model::acknowledged(c.journal, x.recv_ack as nat),
            ..c
        },
    );
}

// ---- opening, at both ends --------------------------------------------------------

/// A stream that one end opens is there at the other end: the OPEN that opening gives makes
/// an empty stream with the same id and key, and its request waits to be served.
pub proof fn opened_streams_are_there_at_both_ends(
    a: SessionView,
    b: SessionView,
    owner: Option<u64>,
    key: Seq<char>,
)
    requires
        a.wf(),
        b.wf(),
        ends_of_one_session(a, b),
        (a.next_stream_id % 2 == 1) == a.is_client,
        !key.contains('"'),
        !has_key(b.idem, key),
        !has_key(b.streams, a.next_stream_id),
        !has_key(b.requests, a.next_stream_id),
        active_total(b.streams) < 128,
    ensures
        ({
            let id = a.next_stream_id;
            let f = open_view(a, id, 1, encode_utf8(open_text(id, key)));
            let (t, o) = handled(b, f, owner);
            &&& o.new_open == Some(id)
            &&& has_key(t.streams, id)
            &&& value_of(t.streams, id).recv.expected == 0
            &&& lookup(t.keys, id) == Some(key)
            &&& lookup(t.requests, id) == Some(
                RequestView { state: RequestState::Accepted, key },
            )
            &&& lookup(t.metas, id) == Some(encode_utf8(open_text(id, key)))
        }),
{
    let id = a.next_stream_id;
    let text = open_text(id, key);
    let f = open_view(a, id, 1, encode_utf8(text));
    encode_utf8_valid_utf8(text);
    encode_utf8_decode_utf8(text);
    keys_are_read_as_written(id, key);
    open_makes_a_stream(b, f, owner);
}

/// An OPEN that is sent again after a loss, for a stream that the other end knows under its
/// key, changes nothing there: the request is not served twice.
pub proof fn streams_opened_again_are_the_same(
    b: SessionView,
    f: FrameView,
    owner: Option<u64>,
    key: Seq<char>,
)
    requires
        b.wf(),
        f.payload == encode_utf8(open_text(f.stream_id, key)),
        !key.contains('"'),
        open_of_peer(b, f),
        has_key(b.idem, key),
        value_of(b.idem, key) == f.stream_id,
    ensures
        handled(b, f, owner).0 == b,
        handled(b, f, owner).1.new_open is None,
        handled(b, f, owner).1.reply is None,
{
    let text = open_text(f.stream_id, key);
    encode_utf8_valid_utf8(text);
    encode_utf8_decode_utf8(text);
    keys_are_read_as_written(f.stream_id, key);
    open_with_a_known_key_is_an_alias(b, f, owner);
}

/// Opening with any payload gives an OPEN that names the session and the stream and carries
/// the payload.
pub proof fn opens_say_what_is_opened(s: SessionView, id: u64, bits: u16, payload: Seq<u8>)
    ensures
        open_view(s, id, bits, payload) == (FrameView {
            frame_type: FrameType::Open,
            flags: bits,
            session_id: s.session_id@,
            stream_id: id,
            direction: own_direction(s),
            byte_offset: 0,
            payload,
        }),
{
}

/// The reports of the peer count one after the other; none changes nothing.
pub proof fn reports_are_taken_one_by_one(s: SessionView, xs: Seq<StreamSummary>, x: StreamSummary)
    ensures
        caught_up(s, xs.push(x)) == caught_up_one(caught_up(s, xs), x),
        caught_up(s, Seq::empty()) == s,
{
    assert(xs.push(x).drop_last() =~= xs);
}

/// Stream ids of one side are two apart and begin again behind the last one.
pub proof fn ids_are_two_apart(x: u64)
    ensures
        x <= u64::MAX - 2 ==> skip_two(x) == x + 2,
        x == u64::MAX - 1 ==> skip_two(x) == 0,
        x == u64::MAX ==> skip_two(x) == 1,
{
}

} // verus!
