//! One stream of a session: its receive window, its send journal, and how far both
//! ends have come.
use std::collections::VecDeque;
use vstd::prelude::*;

use crate::continuity::model::{
    byte_views, lemma_total_len_concat, total_len, JournalLimits, JournalView, RecvView, RecvWindow,
    StreamJournal,
};
use crate::continuity::segments::total_bytes;
use crate::table::{lemma_sum_prefix, sum_over, Table};

verus! {

/// Both directions of one stream.
#[derive(Debug)]
pub struct StreamCtx {
    /// What the peer sends.
    pub recv: RecvWindow,
    /// What this side sends.
    pub journal: StreamJournal,
    /// The end of this side's stream, once declared.
    pub final_sent: Option<u64>,
    /// The end of the peer's stream, once declared or forced.
    pub remote_final: Option<u64>,
    /// Bytes that the application has taken; acknowledgements go this far.
    pub committed_offset: u64,
    /// The highest acknowledgement given.
    pub last_acked_offset: u64,
    /// The peer reset the stream.
    pub reset_by_peer: bool,
}

/// What a [`StreamCtx`] holds.
pub struct StreamView {
    pub recv: RecvView,
    pub journal: JournalView,
    pub final_sent: Option<u64>,
    pub remote_final: Option<u64>,
    pub committed: u64,
    pub last_acked: u64,
    pub reset_by_peer: bool,
}

impl View for StreamCtx {
    type V = StreamView;

    open spec fn view(&self) -> StreamView {
        StreamView {
            recv: self.recv.view(),
            journal: self.journal.view(),
            final_sent: self.final_sent,
            remote_final: self.remote_final,
            committed: self.committed_offset,
            last_acked: self.last_acked_offset,
            reset_by_peer: self.reset_by_peer,
        }
    }
}

/// A stream on which nothing has happened.
pub open spec fn fresh_stream(stream_id: u64, limits: JournalLimits) -> StreamView {
    StreamView {
        recv: RecvView {
            expected: 0,
            gaps: Seq::empty(),
            history: Seq::empty(),
            unverifiable: 0,
        },
        journal: JournalView {
            stream_id,
            next: 0,
            acked: 0,
            final_offset: None,
            segments: Seq::empty(),
            limits,
        },
        final_sent: None,
        remote_final: None,
        committed: 0,
        last_acked: 0,
        reset_by_peer: false,
    }
}

impl StreamView {
    pub open spec fn wf(self) -> bool {
        &&& self.recv.wf()
        &&& self.journal.wf()
        &&& self.committed <= self.recv.expected
    }

    /// Both directions have ended and nothing waits for an acknowledgement.
    pub open spec fn reapable(self) -> bool {
        self.remote_final is Some && self.final_sent is Some && total_bytes(self.journal.segments)
            == 0
    }
}

impl StreamCtx {
    pub fn new(stream_id: u64, limits: JournalLimits) -> (r: Self)
        ensures
            r@ == fresh_stream(stream_id, limits),
            r@.wf(),
    {
        StreamCtx {
            recv: RecvWindow::new(),
            journal: StreamJournal::new(stream_id, limits),
            final_sent: None,
            remote_final: None,
            committed_offset: 0,
            last_acked_offset: 0,
            reset_by_peer: false,
        }
    }

    /// Whether the stream no longer counts as active.
    pub fn quota_reapable(&self) -> (r: bool)
        requires
            self@.wf(),
        ensures
            r == self@.reapable(),
    {
        self.remote_final.is_some() && self.final_sent.is_some() && self.journal.held_bytes() == 0
    }
}

// ---- sums over all streams --------------------------------------------------------

pub open spec fn gap_measure() -> spec_fn(StreamView) -> nat {
    |v: StreamView| total_bytes(v.recv.gaps)
}

pub open spec fn held_measure() -> spec_fn(StreamView) -> nat {
    |v: StreamView| total_bytes(v.journal.segments)
}

pub open spec fn segment_measure() -> spec_fn(StreamView) -> nat {
    |v: StreamView| v.journal.segments.len()
}

pub open spec fn active_measure() -> spec_fn(StreamView) -> nat {
    |v: StreamView|
        if v.reapable() {
            0nat
        } else {
            1nat
        }
}

/// Bytes that wait in the gap buffers of all streams.
pub open spec fn gap_total(s: Seq<(u64, StreamView)>) -> nat {
    sum_over(s, gap_measure())
}

/// Bytes that the journals of all streams hold.
pub open spec fn held_total(s: Seq<(u64, StreamView)>) -> nat {
    sum_over(s, held_measure())
}

/// Segments that the journals of all streams hold.
pub open spec fn segment_total(s: Seq<(u64, StreamView)>) -> nat {
    sum_over(s, segment_measure())
}

/// Streams that count as active.
pub open spec fn active_total(s: Seq<(u64, StreamView)>) -> nat {
    sum_over(s, active_measure())
}

/// Every stream is well-formed.
pub open spec fn streams_wf(s: Seq<(u64, StreamView)>) -> bool {
    forall|i: int| 0 <= i < s.len() ==> (#[trigger] s[i]).1.wf()
}

pub fn sum_gap_bytes(t: &Table<StreamCtx>) -> (r: usize)
    requires
        streams_wf(t.view()),
        gap_total(t.view()) <= usize::MAX,
    ensures
        r == gap_total(t.view()),
{
    let ghost v = t.view();
    let n: usize = t.len();
    let mut sum: usize = 0;
    let mut i: usize = 0;
    assert(v.subrange(0, 0) =~= Seq::<(u64, StreamView)>::empty());
    while i < n
        invariant
            i <= n,
            v == t.view(),
            n == v.len(),
            streams_wf(v),
            gap_total(v) <= usize::MAX,
            sum == sum_over(v.subrange(0, i as int), gap_measure()),
        decreases n - i,
    {
        proof {
            lemma_sum_prefix(v, i as int, gap_measure());
            lemma_sum_prefix(v, i + 1, gap_measure());
            assert(v[i as int].1.wf());
        }
        sum = sum + t.at(i).recv.gap_bytes();
        i = i + 1;
    }
    proof {
        lemma_sum_prefix(v, n as int, gap_measure());
    }
    sum
}

pub fn sum_held_bytes(t: &Table<StreamCtx>) -> (r: usize)
    requires
        streams_wf(t.view()),
        held_total(t.view()) <= usize::MAX,
    ensures
        r == held_total(t.view()),
{
    let ghost v = t.view();
    let n: usize = t.len();
    let mut sum: usize = 0;
    let mut i: usize = 0;
    assert(v.subrange(0, 0) =~= Seq::<(u64, StreamView)>::empty());
    while i < n
        invariant
            i <= n,
            v == t.view(),
            n == v.len(),
            streams_wf(v),
            held_total(v) <= usize::MAX,
            sum == sum_over(v.subrange(0, i as int), held_measure()),
        decreases n - i,
    {
        proof {
            lemma_sum_prefix(v, i as int, held_measure());
            lemma_sum_prefix(v, i + 1, held_measure());
            assert(v[i as int].1.wf());
        }
        sum = sum + t.at(i).journal.held_bytes();
        i = i + 1;
    }
    proof {
        lemma_sum_prefix(v, n as int, held_measure());
    }
    sum
}

pub fn count_segments(t: &Table<StreamCtx>) -> (r: usize)
    requires
        segment_total(t.view()) <= usize::MAX,
    ensures
        r == segment_total(t.view()),
{
    let ghost v = t.view();
    let n: usize = t.len();
    let mut sum: usize = 0;
    let mut i: usize = 0;
    assert(v.subrange(0, 0) =~= Seq::<(u64, StreamView)>::empty());
    while i < n
        invariant
            i <= n,
            v == t.view(),
            n == v.len(),
            segment_total(v) <= usize::MAX,
            sum == sum_over(v.subrange(0, i as int), segment_measure()),
        decreases n - i,
    {
        proof {
            lemma_sum_prefix(v, i as int, segment_measure());
            lemma_sum_prefix(v, i + 1, segment_measure());
        }
        sum = sum + t.at(i).journal.segments_len();
        i = i + 1;
    }
    proof {
        lemma_sum_prefix(v, n as int, segment_measure());
    }
    sum
}

pub fn count_active(t: &Table<StreamCtx>) -> (r: usize)
    requires
        streams_wf(t.view()),
    ensures
        r == active_total(t.view()),
{
    let ghost v = t.view();
    let n: usize = t.len();
    let mut sum: usize = 0;
    let mut i: usize = 0;
    assert(v.subrange(0, 0) =~= Seq::<(u64, StreamView)>::empty());
    while i < n
        invariant
            i <= n,
            v == t.view(),
            n == v.len(),
            streams_wf(v),
            sum <= i,
            sum == sum_over(v.subrange(0, i as int), active_measure()),
        decreases n - i,
    {
        proof {
            lemma_sum_prefix(v, i as int, active_measure());
            assert(v[i as int].1.wf());
        }
        if !t.at(i).quota_reapable() {
            sum = sum + 1;
        }
        i = i + 1;
    }
    proof {
        lemma_sum_prefix(v, n as int, active_measure());
    }
    sum
}

// ---- delivery queue ---------------------------------------------------------------

/// Delivered parts of one stream that the application has not taken.
#[derive(Debug)]
pub struct DeliverQueue {
    frames: VecDeque<Vec<u8>>,
    bytes: usize,
}

/// What a [`DeliverQueue`] holds.
pub struct QueueView {
    pub parts: Seq<Seq<u8>>,
    pub bytes: nat,
}

impl View for DeliverQueue {
    type V = QueueView;

    closed spec fn view(&self) -> QueueView {
        QueueView { parts: byte_views(self.frames@), bytes: self.bytes as nat }
    }
}

impl QueueView {
    /// The byte count is that of the parts.
    pub open spec fn wf(self) -> bool {
        self.bytes == total_len(self.parts)
    }
}

impl DeliverQueue {
    pub fn new() -> (r: Self)
        ensures
            r@ == (QueueView { parts: Seq::empty(), bytes: 0 }),
    {
        let r = DeliverQueue { frames: VecDeque::new(), bytes: 0 };
        assert(r@.parts =~= Seq::<Seq<u8>>::empty());
        r
    }

    pub fn bytes(&self) -> (r: usize)
        ensures
            r == self@.bytes,
    {
        self.bytes
    }

    pub fn is_empty(&self) -> (r: bool)
        ensures
            r == (self@.parts.len() == 0),
    {
        self.frames.len() == 0
    }

    /// Appends the parts of one delivery; `n` is their number of bytes.
    pub fn push_all(&mut self, parts: Vec<Vec<u8>>, n: usize)
        requires
            old(self)@.wf(),
            n == total_len(byte_views(parts@)),
            old(self)@.bytes + n <= usize::MAX,
        ensures
            final(self)@.wf(),
            final(self)@ == (QueueView {
                parts: old(self)@.parts + byte_views(parts@),
                bytes: old(self)@.bytes + n as nat,
            }),
    {
        let ghost before = self@.parts;
        let ghost v = byte_views(parts@);
        proof {
            lemma_total_len_concat(before, v);
        }
        self.bytes = self.bytes + n;
        let mut rest = parts;
        let mut out: VecDeque<Vec<u8>> = VecDeque::new();
        // the parts leave the list from its end, so they are turned round first
        while rest.len() > 0
            invariant
                byte_views(rest@) + byte_views(out@) == v,
            decreases rest@.len(),
        {
            let ghost a = rest@;
            let ghost b = out@;
            if let Some(p) = rest.pop() {
                out.push_front(p);
                assert(byte_views(rest@) + byte_views(out@) =~= byte_views(a) + byte_views(b));
            }
        }
        assert(byte_views(out@) =~= v);
        let ghost mine = byte_views(self.frames@);
        self.frames.append(&mut out);
        assert(byte_views(self.frames@) =~= mine + v);
    }

    /// Takes the first part.
    pub fn pop(&mut self) -> (r: Option<Vec<u8>>)
        requires
            old(self)@.wf(),
        ensures
            final(self)@.wf(),
            match r {
                Some(b) => old(self)@.parts.len() > 0 && b@ == old(self)@.parts[0]
                    && final(self)@ == (QueueView {
                    parts: old(self)@.parts.drop_first(),
                    bytes: (old(self)@.bytes - b@.len()) as nat,
                }),
                None => old(self)@.parts.len() == 0 && final(self)@ == old(self)@,
            },
    {
        let ghost before = self@.parts;
        match self.frames.pop_front() {
            Some(b) => {
                proof {
                    assert(before[0] == b@);
                    assert(byte_views(self.frames@) =~= before.drop_first());
                }
                self.bytes = self.bytes - b.len();
                Some(b)
            },
            None => None,
        }
    }
}

pub open spec fn queue_measure() -> spec_fn(QueueView) -> nat {
    |q: QueueView| q.bytes
}

/// Bytes in the queues of all streams.
pub open spec fn queued_total(s: Seq<(u64, QueueView)>) -> nat {
    sum_over(s, queue_measure())
}

pub fn sum_queued(t: &Table<DeliverQueue>) -> (r: usize)
    requires
        queued_total(t.view()) <= usize::MAX,
    ensures
        r == queued_total(t.view()),
{
    let ghost v = t.view();
    let n: usize = t.len();
    let mut sum: usize = 0;
    let mut i: usize = 0;
    assert(v.subrange(0, 0) =~= Seq::<(u64, QueueView)>::empty());
    while i < n
        invariant
            i <= n,
            v == t.view(),
            n == v.len(),
            queued_total(v) <= usize::MAX,
            sum == sum_over(v.subrange(0, i as int), queue_measure()),
        decreases n - i,
    {
        proof {
            lemma_sum_prefix(v, i as int, queue_measure());
            lemma_sum_prefix(v, i + 1, queue_measure());
        }
        sum = sum + t.at(i).bytes();
        i = i + 1;
    }
    proof {
        lemma_sum_prefix(v, n as int, queue_measure());
    }
    sum
}

} // verus!
