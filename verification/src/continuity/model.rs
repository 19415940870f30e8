//! Stream semantics: the receive window, which delivers each byte once and in
//! order, and the send journal, which keeps what was sent until it is acknowledged.
//!
//! The window checks replayed bytes against the last [`HISTORY_CAP`] delivered
//! bytes. Older replays cannot be checked: they lie before the delivered offset,
//! so they are dropped and counted. The journal frees whole segments only; an
//! acknowledgement inside a segment keeps it, and the receiver drops the overlap.
use vstd::prelude::*;

use crate::continuity::segments::{
    ascending, bytes_at, find_rank, lemma_bytes_at, lemma_rank, lemma_total_push, lemma_total_split,
    lemma_with_segment_ascending, rank, segment_views, starts_at, sum_bytes, total_bytes,
    with_segment, Segment, SegmentView,
};
use crate::octets::{bytes_eq, copy_range, push_bytes};
use crate::text::{cat, cat5, decimal, decimal_text};

verus! {

/// Bytes of delivered history kept for checking replays.
pub const HISTORY_CAP: usize = 64 * 1024;

/// Byte cap of the gap buffer where none is given.
pub const DEFAULT_GAP_BYTE_CAP: usize = 2 * 1024 * 1024;

// ---- receive window ---------------------------------------------------------------

/// Receiving side of one stream: every byte before `expected_offset` has been
/// delivered; segments that came early wait in the gap buffer.
#[derive(Debug)]
pub struct RecvWindow {
    expected_offset: u64,
    gaps: Vec<Segment>,
    history: Vec<u8>,
    unverifiable_duplicates: u64,
}

/// What a [`RecvWindow`] holds.
pub struct RecvView {
    /// Bytes delivered so far; the offset that comes next.
    pub expected: nat,
    /// Early segments, in the order of their offsets.
    pub gaps: Seq<SegmentView>,
    /// The last delivered bytes.
    pub history: Seq<u8>,
    /// Replays that lay before the history.
    pub unverifiable: nat,
}

impl RecvView {
    /// Offset of the first byte of the history.
    pub open spec fn history_start(self) -> int {
        self.expected - self.history.len()
    }

    /// The history holds the last bytes delivered, as many as the cap allows, and
    /// the early segments are in order and lie in the offset space.
    pub open spec fn wf(self) -> bool {
        &&& self.expected <= u64::MAX
        &&& self.history.len() == if self.expected <= HISTORY_CAP {
            self.expected
        } else {
            HISTORY_CAP as nat
        }
        &&& ascending(self.gaps)
        &&& forall|i: int| 0 <= i < self.gaps.len() ==> (#[trigger] self.gaps[i]).end() <= u64::MAX
        &&& total_bytes(self.gaps) <= usize::MAX
        &&& self.unverifiable <= u64::MAX
    }
}

/// What became of a segment.
#[derive(Debug, PartialEq, Eq)]
pub enum SegmentAction {
    /// In order, or the new part of an overlap, followed by the early segments
    /// that it released: one element for each sent segment.
    Deliver(Vec<Vec<u8>>),
    /// Already delivered or already waiting, with the same bytes.
    Duplicate,
    /// Early: waits in the gap buffer.
    Buffered,
    /// The bytes contradict those delivered or waiting at the same offset.
    OverlapMismatch { expected: u64, got: u64 },
}

/// What a [`SegmentAction`] says.
pub enum SegmentActionView {
    Deliver(Seq<Seq<u8>>),
    Duplicate,
    Buffered,
    OverlapMismatch { expected: nat, got: nat },
}

/// The views of a list of byte strings.
pub open spec fn byte_views(s: Seq<Vec<u8>>) -> Seq<Seq<u8>> {
    Seq::new(s.len(), |i: int| s[i]@)
}

impl View for SegmentAction {
    type V = SegmentActionView;

    open spec fn view(&self) -> SegmentActionView {
        match self {
            SegmentAction::Deliver(v) => SegmentActionView::Deliver(byte_views(v@)),
            SegmentAction::Duplicate => SegmentActionView::Duplicate,
            SegmentAction::Buffered => SegmentActionView::Buffered,
            SegmentAction::OverlapMismatch { expected, got } => SegmentActionView::OverlapMismatch {
                expected: *expected as nat,
                got: *got as nat,
            },
        }
    }
}

/// An early segment that the gap buffer cannot take.
#[derive(Debug, Clone, Copy, PartialEq, Eq, Structural)]
pub struct GapOverflow {
    pub held: usize,
    pub cap: usize,
    pub held_bytes: usize,
    pub incoming_bytes: usize,
    pub byte_cap: usize,
}

/// The last `HISTORY_CAP` bytes of `s`.
pub open spec fn recent(s: Seq<u8>) -> Seq<u8> {
    if s.len() <= HISTORY_CAP {
        s
    } else {
        s.subrange(s.len() - HISTORY_CAP, s.len() as int)
    }
}

/// The window after delivering `bytes` at the expected offset.
pub open spec fn advanced(w: RecvView, bytes: Seq<u8>) -> RecvView {
    RecvView {
        expected: w.expected + bytes.len(),
        history: recent(w.history + bytes),
        ..w
    }
}

/// Delivers early segments from the front of the gap buffer for as long as the
/// first one starts at the expected offset.
pub open spec fn drained(w: RecvView) -> (RecvView, Seq<Seq<u8>>)
    decreases w.gaps.len(),
{
    if w.gaps.len() > 0 && w.gaps[0].offset == w.expected {
        let b = w.gaps[0].bytes;
        let (w2, rest) = drained(advanced(RecvView { gaps: w.gaps.drop_first(), ..w }, b));
        (w2, seq![b] + rest)
    } else {
        (w, Seq::empty())
    }
}

/// The bytes of a segment agree with the history wherever both have a byte.
pub open spec fn agrees_with_history(w: RecvView, offset: nat, bytes: Seq<u8>) -> bool {
    forall|p: int|
        offset <= p < offset + bytes.len() && w.history_start() <= p < w.expected
            ==> #[trigger] bytes[p - offset] == w.history[p - w.history_start()]
}

/// Delivering `bytes` at the expected offset and all that it releases.
pub open spec fn delivery(w: RecvView, bytes: Seq<u8>) -> (RecvView, SegmentActionView) {
    let (w2, rest) = drained(advanced(w, bytes));
    (w2, SegmentActionView::Deliver(seq![bytes] + rest))
}

/// What feeding a segment does to the window, and what it gives.
pub open spec fn fed(
    w: RecvView,
    offset: nat,
    bytes: Seq<u8>,
    gap_cap: usize,
    byte_cap: usize,
) -> (RecvView, Result<SegmentActionView, GapOverflow>) {
    let end = offset + bytes.len();
    let mismatch = SegmentActionView::OverlapMismatch { expected: w.expected, got: offset };
    if end > u64::MAX {
        (w, Ok(mismatch))
    } else if offset < w.expected {
        let seen = if offset < w.history_start() && w.unverifiable < u64::MAX {
            RecvView { unverifiable: w.unverifiable + 1, ..w }
        } else {
            w
        };
        if !agrees_with_history(w, offset, bytes) {
            (seen, Ok(mismatch))
        } else if end <= w.expected {
            (seen, Ok(SegmentActionView::Duplicate))
        } else {
            let (w2, a) = delivery(seen, bytes.subrange(w.expected - offset, bytes.len() as int));
            (w2, Ok(a))
        }
    } else if offset == w.expected {
        let (w2, a) = delivery(w, bytes);
        (w2, Ok(a))
    } else if starts_at(w.gaps, offset) {
        if bytes_at(w.gaps, offset) == bytes {
            (w, Ok(SegmentActionView::Duplicate))
        } else {
            (w, Ok(mismatch))
        }
    } else if w.gaps.len() >= gap_cap || total_bytes(w.gaps) + bytes.len() > byte_cap {
        (
            w,
            Err(
                GapOverflow {
                    held: w.gaps.len() as usize,
                    cap: gap_cap,
                    held_bytes: total_bytes(w.gaps) as usize,
                    incoming_bytes: bytes.len() as usize,
                    byte_cap,
                },
            ),
        )
    } else {
        (
            RecvView { gaps: with_segment(w.gaps, SegmentView { offset, bytes }), ..w },
            Ok(SegmentActionView::Buffered),
        )
    }
}

/// The ranges of the gap buffer, in order, with overlapping or touching segments
/// joined.
pub open spec fn joined_ranges(s: Seq<SegmentView>) -> Seq<(u64, u64)>
    decreases s.len(),
{
    if s.len() == 0 {
        Seq::empty()
    } else {
        let out = joined_ranges(s.drop_last());
        let x = s.last();
        if out.len() > 0 && x.offset <= out.last().1 {
            let end = if out.last().1 >= x.end() {
                out.last().1
            } else {
                x.end() as u64
            };
            out.drop_last().push((out.last().0, end))
        } else {
            out.push((x.offset as u64, x.end() as u64))
        }
    }
}

/// All bytes of a delivery, joined.
pub open spec fn flat(s: Seq<Seq<u8>>) -> Seq<u8>
    decreases s.len(),
{
    if s.len() == 0 {
        Seq::empty()
    } else {
        s[0] + flat(s.drop_first())
    }
}

proof fn lemma_recent_advances(h: Seq<u8>, expected: nat, bytes: Seq<u8>)
    requires
        h.len() == if expected <= HISTORY_CAP {
            expected
        } else {
            HISTORY_CAP as nat
        },
    ensures
        recent(h + bytes).len() == if expected + bytes.len() <= HISTORY_CAP {
            expected + bytes.len()
        } else {
            HISTORY_CAP as nat
        },
{
}

impl RecvWindow {
    pub closed spec fn view(&self) -> RecvView {
        RecvView {
            expected: self.expected_offset as nat,
            gaps: segment_views(self.gaps@),
            history: self.history@,
            unverifiable: self.unverifiable_duplicates as nat,
        }
    }

    pub open spec fn wf(&self) -> bool {
        self.view().wf()
    }

    pub fn new() -> (w: Self)
        ensures
            w.wf(),
            w.view() == (RecvView {
                expected: 0,
                gaps: Seq::empty(),
                history: Seq::empty(),
                unverifiable: 0,
            }),
    {
        let w = RecvWindow {
            expected_offset: 0,
            gaps: Vec::new(),
            history: Vec::new(),
            unverifiable_duplicates: 0,
        };
        assert(segment_views(w.gaps@) =~= Seq::<SegmentView>::empty());
        w
    }

    pub fn expected_offset(&self) -> (r: u64)
        ensures
            r == self.view().expected,
    {
        self.expected_offset
    }

    /// The cumulative acknowledgement: all bytes before it have been delivered.
    pub fn ack_offset(&self) -> (r: u64)
        ensures
            r == self.view().expected,
    {
        self.expected_offset
    }

    /// Bytes delivered so far.
    pub fn delivered_bytes(&self) -> (r: u64)
        ensures
            r == self.view().expected,
    {
        self.expected_offset
    }

    /// Offset of the first byte that a replay can be checked against.
    pub fn history_start(&self) -> (r: u64)
        requires
            self.wf(),
        ensures
            r == self.view().history_start(),
    {
        self.expected_offset - self.history.len() as u64
    }

    /// Bytes of history held.
    pub fn history_len(&self) -> (r: usize)
        ensures
            r == self.view().history.len(),
    {
        self.history.len()
    }

    /// Replays dropped because they lay before the history.
    pub fn unverifiable_duplicates(&self) -> (r: u64)
        ensures
            r == self.view().unverifiable,
    {
        self.unverifiable_duplicates
    }

    /// Bytes waiting in the gap buffer.
    pub fn gap_bytes(&self) -> (r: usize)
        requires
            self.wf(),
        ensures
            r == total_bytes(self.view().gaps),
    {
        sum_bytes(&self.gaps)
    }

    /// The waiting ranges `(start, end)`, in order and joined.
    pub fn sack_ranges(&self) -> (r: Vec<(u64, u64)>)
        requires
            self.wf(),
        ensures
            r@ == joined_ranges(self.view().gaps),
    {
        let ghost v = segment_views(self.gaps@);
        let n: usize = self.gaps.len();
        let mut out: Vec<(u64, u64)> = Vec::new();
        let mut i: usize = 0;
        assert(v.subrange(0, 0) =~= Seq::<SegmentView>::empty());
        while i < n
            invariant
                i <= n,
                n == self.gaps@.len(),
                v == segment_views(self.gaps@),
                self.wf(),
                out@ == joined_ranges(v.subrange(0, i as int)),
            decreases n - i,
        {
            let off: u64 = self.gaps[i].offset;
            let ghost t = v.subrange(0, i + 1);
            assert(t.drop_last() =~= v.subrange(0, i as int));
            assert(t.last() == v[i as int]);
            assert(self.view().gaps[i as int].end() <= u64::MAX);
            let end: u64 = off + self.gaps[i].payload.len() as u64;
            let ghost before = out@;
            let k: usize = out.len();
            if k > 0 && off <= out[k - 1].1 {
                let (start, last_end) = out[k - 1];
                let joined: u64 = if last_end >= end { last_end } else { end };
                out.pop();
                out.push((start, joined));
                assert(out@ =~= before.drop_last().push((before.last().0, joined)));
            } else {
                out.push((off, end));
            }
            i = i + 1;
        }
        assert(v.subrange(0, n as int) =~= v);
        out
    }

    /// Bytes that this segment would add to the gap buffer.
    pub fn incoming_gap_bytes(&self, offset: u64, payload: &Vec<u8>) -> (r: usize)
        requires
            self.wf(),
        ensures
            r == if offset > self.view().expected && !starts_at(self.view().gaps, offset as nat) {
                payload@.len()
            } else {
                0
            },
    {
        if offset > self.expected_offset {
            let k = find_rank(&self.gaps, offset);
            if k < self.gaps.len() && self.gaps[k].offset == offset {
                0
            } else {
                payload.len()
            }
        } else {
            0
        }
    }

    /// Feeds a segment, with the default byte cap of the gap buffer.
    pub fn feed(&mut self, offset: u64, payload: Vec<u8>, gap_cap: usize) -> (r: Result<
        SegmentAction,
        GapOverflow,
    >)
        requires
            old(self).wf(),
        ensures
            final(self).wf(),
            ({
                let (w, a) = fed(
                    old(self).view(),
                    offset as nat,
                    payload@,
                    gap_cap,
                    DEFAULT_GAP_BYTE_CAP,
                );
                &&& final(self).view() == w
                &&& match a {
                    Ok(x) => r is Ok && r->Ok_0@ == x,
                    Err(e) => r == Err::<SegmentAction, GapOverflow>(e),
                }
            }),
    {
        self.feed_with_limits(offset, payload, gap_cap, DEFAULT_GAP_BYTE_CAP)
    }

    /// Feeds a segment.
    ///
    /// - Before the expected offset: checked against the history; a contradiction
    ///   is a mismatch, no new byte a duplicate, else the new part is delivered.
    /// - At the expected offset: delivered, with the early segments that it releases.
    /// - Behind it: waits in the gap buffer, within both caps.
    pub fn feed_with_limits(
        &mut self,
        offset: u64,
        payload: Vec<u8>,
        gap_cap: usize,
        gap_byte_cap: usize,
    ) -> (r: Result<SegmentAction, GapOverflow>)
        requires
            old(self).wf(),
        ensures
            final(self).wf(),
            ({
                let (w, a) = fed(old(self).view(), offset as nat, payload@, gap_cap, gap_byte_cap);
                &&& final(self).view() == w
                &&& match a {
                    Ok(x) => r is Ok && r->Ok_0@ == x,
                    Err(e) => r == Err::<SegmentAction, GapOverflow>(e),
                }
            }),
    {
        let ghost v = self.view();
        let len: usize = payload.len();
        if len as u64 > u64::MAX - offset {
            return Ok(
                SegmentAction::OverlapMismatch { expected: self.expected_offset, got: offset },
            );
        }
        let end: u64 = offset + len as u64;
        if offset < self.expected_offset {
            if offset < self.history_start() && self.unverifiable_duplicates < u64::MAX {
                self.unverifiable_duplicates = self.unverifiable_duplicates + 1;
            }
            if !self.history_agrees(offset, &payload) {
                return Ok(
                    SegmentAction::OverlapMismatch { expected: self.expected_offset, got: offset },
                );
            }
            if end <= self.expected_offset {
                return Ok(SegmentAction::Duplicate);
            }
            let skip: usize = (self.expected_offset - offset) as usize;
            let suffix = copy_range(payload.as_slice(), skip, len);
            return Ok(self.deliver(suffix));
        }
        if offset == self.expected_offset {
            return Ok(self.deliver(payload));
        }
        let k = find_rank(&self.gaps, offset);
        if k < self.gaps.len() && self.gaps[k].offset == offset {
            proof {
                lemma_bytes_at(v.gaps, k as int);
            }
            if bytes_eq(self.gaps[k].payload.as_slice(), payload.as_slice()) {
                return Ok(SegmentAction::Duplicate);
            }
            return Ok(
                SegmentAction::OverlapMismatch { expected: self.expected_offset, got: offset },
            );
        }
        let held_bytes: usize = self.gap_bytes();
        if self.gaps.len() >= gap_cap || held_bytes > gap_byte_cap || len > gap_byte_cap
            - held_bytes {
            return Err(
                GapOverflow {
                    held: self.gaps.len(),
                    cap: gap_cap,
                    held_bytes,
                    incoming_bytes: len,
                    byte_cap: gap_byte_cap,
                },
            );
        }
        let ghost x = SegmentView { offset: offset as nat, bytes: payload@ };
        let seg = Segment { offset, payload };
        self.gaps.insert(k, seg);
        proof {
            lemma_with_segment_ascending(v.gaps, x);
            assert(self.view().gaps =~= with_segment(v.gaps, x));
            assert forall|i: int| 0 <= i < self.view().gaps.len() implies (
            #[trigger] self.view().gaps[i]).end() <= u64::MAX by {
                if i < k {
                    assert(self.view().gaps[i] == v.gaps[i]);
                } else if i > k {
                    assert(self.view().gaps[i] == v.gaps[i - 1]);
                }
            }
        }
        Ok(SegmentAction::Buffered)
    }

    /// Whether a segment before the expected offset repeats the history.
    fn history_agrees(&self, offset: u64, payload: &Vec<u8>) -> (r: bool)
        requires
            self.wf(),
            offset < self.view().expected,
            offset + payload@.len() <= u64::MAX,
        ensures
            r == agrees_with_history(self.view(), offset as nat, payload@),
    {
        let end: u64 = offset + payload.len() as u64;
        let overlap_end: u64 = if end < self.expected_offset { end } else { self.expected_offset };
        let start: u64 = self.history_start();
        let from: u64 = if offset < start { start } else { offset };
        if from >= overlap_end {
            return true;
        }
        let ghost w = self.view();
        let hs: usize = (from - start) as usize;
        let he: usize = (overlap_end - start) as usize;
        let ps: usize = (from - offset) as usize;
        let pe: usize = (overlap_end - offset) as usize;
        let known = vstd::slice::slice_subrange(self.history.as_slice(), hs, he);
        let given = vstd::slice::slice_subrange(payload.as_slice(), ps, pe);
        let same = bytes_eq(known, given);
        proof {
            if same {
                assert forall|p: int|
                    offset <= p < offset + payload@.len() && w.history_start() <= p
                        < w.expected implies #[trigger] payload@[p - offset] == w.history[p
                    - w.history_start()] by {
                    assert(known@[p - from] == given@[p - from]);
                }
            } else if agrees_with_history(w, offset as nat, payload@) {
                assert forall|i: int| 0 <= i < known@.len() implies known@[i] == given@[i] by {
                    let p = from + i;
                    assert(payload@[p - offset] == w.history[p - w.history_start()]);
                }
                assert(known@ =~= given@);
            }
        }
        same
    }

    /// Delivers `bytes` at the expected offset and all that it releases.
    fn deliver(&mut self, bytes: Vec<u8>) -> (r: SegmentAction)
        requires
            old(self).wf(),
            old(self).view().expected + bytes@.len() <= u64::MAX,
        ensures
            final(self).wf(),
            (final(self).view(), r@) == delivery(old(self).view(), bytes@),
    {
        self.append_delivered(&bytes);
        let ghost w1 = self.view();
        let ghost first = bytes@;
        let mut out: Vec<Vec<u8>> = Vec::new();
        out.push(bytes);
        self.drain_gaps(&mut out);
        assert(byte_views(out@) =~= seq![first] + drained(w1).1);
        SegmentAction::Deliver(out)
    }

    fn append_delivered(&mut self, bytes: &Vec<u8>)
        requires
            old(self).wf(),
            old(self).view().expected + bytes@.len() <= u64::MAX,
        ensures
            final(self).wf(),
            final(self).view() == advanced(old(self).view(), bytes@),
    {
        proof {
            lemma_recent_advances(self.history@, self.expected_offset as nat, bytes@);
        }
        push_bytes(&mut self.history, bytes.as_slice());
        self.expected_offset = self.expected_offset + bytes.len() as u64;
        if self.history.len() > HISTORY_CAP {
            let excess: usize = self.history.len() - HISTORY_CAP;
            self.history = self.history.split_off(excess);
        }
    }

    /// Moves the early segments that are now in order to `out`.
    fn drain_gaps(&mut self, out: &mut Vec<Vec<u8>>)
        requires
            old(self).wf(),
        ensures
            final(self).wf(),
            final(self).view() == drained(old(self).view()).0,
            byte_views(final(out)@) == byte_views(old(out)@) + drained(old(self).view()).1,
        decreases old(self).view().gaps.len(),
    {
        let ghost w = self.view();
        let ghost given = byte_views(out@);
        if self.gaps.len() > 0 && self.gaps[0].offset == self.expected_offset {
            let seg = self.gaps.remove(0);
            let ghost b = seg.payload@;
            proof {
                assert(w.gaps[0] == seg@);
                assert(segment_views(self.gaps@) =~= w.gaps.drop_first());
                assert(w.gaps[0].end() <= u64::MAX);
                let t = w.gaps.drop_first();
                assert forall|i: int, j: int| 0 <= i < j < t.len() implies t[i].offset
                    < t[j].offset by {
                    assert(t[i] == w.gaps[i + 1] && t[j] == w.gaps[j + 1]);
                }
                assert forall|i: int| 0 <= i < t.len() implies (#[trigger] t[i]).end()
                    <= u64::MAX by {
                    assert(t[i] == w.gaps[i + 1]);
                }
            }
            self.append_delivered(&seg.payload);
            out.push(seg.payload);
            assert(byte_views(out@) =~= given.push(b));
            self.drain_gaps(out);
            assert(given.push(b) + drained(advanced(
                RecvView { gaps: w.gaps.drop_first(), ..w },
                b,
            )).1 =~= given + drained(w).1);
        } else {
            assert(given + drained(w).1 =~= given);
        }
    }
}

// ---- laws of the receive window ---------------------------------------------------

/// Nothing in the window contradicts the stream `s`.
pub open spec fn faithful(w: RecvView, s: Seq<u8>) -> bool {
    &&& w.wf()
    &&& w.expected <= s.len()
    &&& w.history == s.subrange(w.history_start(), w.expected as int)
    &&& forall|i: int|
        0 <= i < w.gaps.len() ==> (#[trigger] w.gaps[i]).end() <= s.len() && w.gaps[i].bytes
            == s.subrange(w.gaps[i].offset as int, w.gaps[i].end() as int)
}

proof fn lemma_advanced_faithful(w: RecvView, s: Seq<u8>, bytes: Seq<u8>)
    requires
        faithful(w, s),
        s.len() <= u64::MAX,
        w.expected + bytes.len() <= s.len(),
        bytes == s.subrange(w.expected as int, (w.expected + bytes.len()) as int),
    ensures
        faithful(advanced(w, bytes), s),
{
    let w2 = advanced(w, bytes);
    lemma_recent_advances(w.history, w.expected, bytes);
    assert(w.history + bytes =~= s.subrange(w.history_start(), (w.expected + bytes.len()) as int));
    assert(w2.history =~= s.subrange(w2.history_start(), w2.expected as int));
}

proof fn lemma_drained_faithful(w: RecvView, s: Seq<u8>)
    requires
        faithful(w, s),
        s.len() <= u64::MAX,
    ensures
        faithful(drained(w).0, s),
        w.expected <= drained(w).0.expected,
        flat(drained(w).1) == s.subrange(w.expected as int, drained(w).0.expected as int),
    decreases w.gaps.len(),
{
    if w.gaps.len() > 0 && w.gaps[0].offset == w.expected {
        let b = w.gaps[0].bytes;
        let w1 = RecvView { gaps: w.gaps.drop_first(), ..w };
        assert(w.gaps[0].end() <= s.len());
        assert forall|i: int, j: int| 0 <= i < j < w1.gaps.len() implies w1.gaps[i].offset
            < w1.gaps[j].offset by {
            assert(w1.gaps[i] == w.gaps[i + 1] && w1.gaps[j] == w.gaps[j + 1]);
        }
        assert forall|i: int| 0 <= i < w1.gaps.len() implies (#[trigger] w1.gaps[i]).end()
            <= s.len() && w1.gaps[i].bytes == s.subrange(
            w1.gaps[i].offset as int,
            w1.gaps[i].end() as int,
        ) by {
            assert(w1.gaps[i] == w.gaps[i + 1]);
        }
        lemma_advanced_faithful(w1, s, b);
        let w2 = advanced(w1, b);
        lemma_drained_faithful(w2, s);
        let (w3, rest) = drained(w2);
        assert((seq![b] + rest).drop_first() =~= rest);
        assert(flat(seq![b] + rest) =~= s.subrange(w.expected as int, w3.expected as int));
    } else {
        assert(flat(Seq::<Seq<u8>>::empty()) =~= s.subrange(
            w.expected as int,
            w.expected as int,
        ));
    }
}

/// Feeding a part of the stream that a window belongs to never contradicts it:
/// the window stays faithful, and what is delivered is exactly the part of the
/// stream between the old and the new expected offset. A segment that waits already
/// comes again with the length it had.
pub proof fn window_delivers_the_stream(
    w: RecvView,
    s: Seq<u8>,
    offset: nat,
    n: nat,
    gap_cap: usize,
    byte_cap: usize,
)
    requires
        faithful(w, s),
        s.len() <= u64::MAX,
        offset + n <= s.len(),
        starts_at(w.gaps, offset) ==> bytes_at(w.gaps, offset).len() == n,
    ensures
        ({
            let (w2, a) = fed(
                w,
                offset,
                s.subrange(offset as int, (offset + n) as int),
                gap_cap,
                byte_cap,
            );
            &&& faithful(w2, s)
            &&& match a {
                Ok(SegmentActionView::Deliver(parts)) => w.expected <= w2.expected && flat(parts)
                    == s.subrange(w.expected as int, w2.expected as int),
                Ok(SegmentActionView::OverlapMismatch { expected, got }) => false,
                Ok(_) => w2.expected == w.expected,
                Err(_) => w2 == w,
            }
        }),
{
    let bytes = s.subrange(offset as int, (offset + n) as int);
    if offset < w.expected {
        let seen = if offset < w.history_start() && w.unverifiable < u64::MAX {
            RecvView { unverifiable: w.unverifiable + 1, ..w }
        } else {
            w
        };
        assert(agrees_with_history(w, offset, bytes));
        if offset + n > w.expected {
            let suffix = bytes.subrange(w.expected - offset, bytes.len() as int);
            assert(suffix =~= s.subrange(w.expected as int, (offset + n) as int));
            lemma_delivery_faithful(seen, s, suffix);
        }
    } else if offset == w.expected {
        lemma_delivery_faithful(w, s, bytes);
    } else if starts_at(w.gaps, offset) {
        let i = choose|i: int| 0 <= i < w.gaps.len() && #[trigger] w.gaps[i].offset == offset;
        lemma_bytes_at(w.gaps, i);
    } else if !(w.gaps.len() >= gap_cap || total_bytes(w.gaps) + bytes.len() > byte_cap) {
        let x = SegmentView { offset, bytes };
        lemma_with_segment_ascending(w.gaps, x);
        lemma_rank(w.gaps, offset);
        let k = rank(w.gaps, offset) as int;
        let t = with_segment(w.gaps, x);
        assert forall|i: int| 0 <= i < t.len() implies (#[trigger] t[i]).end() <= s.len()
            && t[i].bytes == s.subrange(t[i].offset as int, t[i].end() as int) by {
            if i < k {
                assert(t[i] == w.gaps[i]);
            } else if i > k {
                assert(t[i] == w.gaps[i - 1]);
            }
        }
    }
}

proof fn lemma_delivery_faithful(w: RecvView, s: Seq<u8>, bytes: Seq<u8>)
    requires
        faithful(w, s),
        s.len() <= u64::MAX,
        w.expected + bytes.len() <= s.len(),
        bytes == s.subrange(w.expected as int, (w.expected + bytes.len()) as int),
    ensures
        ({
            let (w2, a) = delivery(w, bytes);
            &&& faithful(w2, s)
            &&& w.expected <= w2.expected
            &&& flat(a->Deliver_0) == s.subrange(w.expected as int, w2.expected as int)
        }),
{
    lemma_advanced_faithful(w, s, bytes);
    let w1 = advanced(w, bytes);
    lemma_drained_faithful(w1, s);
    let (w2, rest) = drained(w1);
    assert((seq![bytes] + rest).drop_first() =~= rest);
    assert(flat(seq![bytes] + rest) =~= s.subrange(w.expected as int, w2.expected as int));
}

/// The window and the bytes delivered after feeding the parts `ops` (offset and
/// length) of the stream `s`, in the order of the list.
pub open spec fn fed_all(
    w: RecvView,
    s: Seq<u8>,
    ops: Seq<(nat, nat)>,
    gap_cap: usize,
    byte_cap: usize,
) -> (RecvView, Seq<u8>)
    decreases ops.len(),
{
    if ops.len() == 0 {
        (w, Seq::empty())
    } else {
        let (w1, log) = fed_all(w, s, ops.drop_last(), gap_cap, byte_cap);
        let (offset, n) = ops.last();
        let (w2, a) = fed(
            w1,
            offset,
            s.subrange(offset as int, (offset + n) as int),
            gap_cap,
            byte_cap,
        );
        match a {
            Ok(SegmentActionView::Deliver(parts)) => (w2, log + flat(parts)),
            _ => (w2, log),
        }
    }
}

/// Parts of the stream of length `len`; parts at one offset have one length.
pub open spec fn parts_of(ops: Seq<(nat, nat)>, len: nat) -> bool {
    &&& forall|i: int| 0 <= i < ops.len() ==> (#[trigger] ops[i]).0 + ops[i].1 <= len
    &&& forall|i: int, j: int|
        0 <= i < ops.len() && 0 <= j < ops.len() && ops[i].0 == ops[j].0 ==> #[trigger] ops[i].1
            == #[trigger] ops[j].1
}

/// Whatever order the parts of a stream arrive in, and however often, the bytes
/// delivered are a prefix of the stream, and the expected offset is their number.
pub proof fn any_arrival_order_delivers_a_prefix(
    s: Seq<u8>,
    ops: Seq<(nat, nat)>,
    gap_cap: usize,
    byte_cap: usize,
)
    requires
        s.len() <= u64::MAX,
        parts_of(ops, s.len()),
    ensures
        ({
            let start = RecvView {
                expected: 0,
                gaps: Seq::empty(),
                history: Seq::empty(),
                unverifiable: 0,
            };
            let (w, log) = fed_all(start, s, ops, gap_cap, byte_cap);
            &&& faithful(w, s)
            &&& log == s.subrange(0, w.expected as int)
            &&& log.len() == w.expected
        }),
{
    let start = RecvView {
        expected: 0,
        gaps: Seq::empty(),
        history: Seq::empty(),
        unverifiable: 0,
    };
    assert(start.history =~= s.subrange(0, 0));
    lemma_fed_all(start, s, ops, gap_cap, byte_cap);
}

/// Every waiting segment came in with one of the parts.
pub open spec fn gaps_from(w: RecvView, ops: Seq<(nat, nat)>) -> bool {
    forall|i: int|
        0 <= i < w.gaps.len() ==> exists|j: int|
            0 <= j < ops.len() && #[trigger] ops[j] == ((#[trigger] w.gaps[i]).offset, w.gaps[i].bytes.len())
}

pub proof fn lemma_fed_all(
    start: RecvView,
    s: Seq<u8>,
    ops: Seq<(nat, nat)>,
    gap_cap: usize,
    byte_cap: usize,
)
    requires
        s.len() <= u64::MAX,
        parts_of(ops, s.len()),
        faithful(start, s),
        start.expected == 0,
        start.gaps.len() == 0,
    ensures
        ({
            let (w, log) = fed_all(start, s, ops, gap_cap, byte_cap);
            &&& faithful(w, s)
            &&& log == s.subrange(0, w.expected as int)
            &&& gaps_from(w, ops)
        }),
    decreases ops.len(),
{
    if ops.len() == 0 {
        assert(Seq::<u8>::empty() =~= s.subrange(0, 0));
    } else {
        let before = ops.drop_last();
        assert(parts_of(before, s.len())) by {
            assert forall|i: int| 0 <= i < before.len() implies (#[trigger] before[i]).0
                + before[i].1 <= s.len() by {
                assert(before[i] == ops[i]);
            }
            assert forall|i: int, j: int|
                0 <= i < before.len() && 0 <= j < before.len() && before[i].0
                    == before[j].0 implies #[trigger] before[i].1 == #[trigger] before[j].1 by {
                assert(before[i] == ops[i] && before[j] == ops[j]);
                assert(ops[i].1 == ops[j].1);
            }
        }
        lemma_fed_all(start, s, before, gap_cap, byte_cap);
        let (w1, log) = fed_all(start, s, before, gap_cap, byte_cap);
        let last = ops.len() - 1;
        let (offset, n) = ops[last];
        assert(ops[last].0 + ops[last].1 <= s.len());
        if starts_at(w1.gaps, offset) {
            let i = choose|i: int| 0 <= i < w1.gaps.len() && #[trigger] w1.gaps[i].offset == offset;
            lemma_bytes_at(w1.gaps, i);
            let j = choose|j: int|
                0 <= j < before.len() && #[trigger] before[j] == (
                    w1.gaps[i].offset,
                    w1.gaps[i].bytes.len(),
                );
            assert(ops[j] == before[j]);
            assert(ops[j].1 == ops[last].1);
        }
        window_delivers_the_stream(w1, s, offset, n, gap_cap, byte_cap);
        let bytes = s.subrange(offset as int, (offset + n) as int);
        let (w2, a) = fed(w1, offset, bytes, gap_cap, byte_cap);
        lemma_gaps_from_step(w1, s, ops, gap_cap, byte_cap);
        match a {
            Ok(SegmentActionView::Deliver(parts)) => {
                assert(log + flat(parts) =~= s.subrange(0, w2.expected as int));
            },
            _ => {},
        }
    }
}

/// Feeding the last part keeps the origin of the waiting segments.
proof fn lemma_gaps_from_step(
    w: RecvView,
    s: Seq<u8>,
    ops: Seq<(nat, nat)>,
    gap_cap: usize,
    byte_cap: usize,
)
    requires
        ops.len() > 0,
        w.wf(),
        gaps_from(w, ops.drop_last()),
        ops.last().0 + ops.last().1 <= s.len(),
    ensures
        ({
            let (offset, n) = ops.last();
            let bytes = s.subrange(offset as int, (offset + n) as int);
            gaps_from(fed(w, offset, bytes, gap_cap, byte_cap).0, ops)
        }),
{
    let before = ops.drop_last();
    let last = ops.len() - 1;
    let (offset, n) = ops[last];
    let bytes = s.subrange(offset as int, (offset + n) as int);
    let w2 = fed(w, offset, bytes, gap_cap, byte_cap).0;
    lemma_fed_gaps(w, offset, bytes, gap_cap, byte_cap);
    assert forall|i: int| 0 <= i < w2.gaps.len() implies exists|j: int|
        0 <= j < ops.len() && #[trigger] ops[j] == (
            (#[trigger] w2.gaps[i]).offset,
            w2.gaps[i].bytes.len(),
        ) by {
        let g = w2.gaps[i];
        if g == (SegmentView { offset, bytes }) {
            assert(ops[last] == (g.offset, g.bytes.len()));
        } else {
            assert(w.gaps.contains(g));
            let k = choose|k: int| 0 <= k < w.gaps.len() && w.gaps[k] == g;
            let j = choose|j: int|
                0 <= j < before.len() && #[trigger] before[j] == (
                    w.gaps[k].offset,
                    w.gaps[k].bytes.len(),
                );
            assert(ops[j] == before[j]);
        }
    }
}

/// Feeding adds no waiting segment but the one fed.
proof fn lemma_fed_gaps(
    w: RecvView,
    offset: nat,
    bytes: Seq<u8>,
    gap_cap: usize,
    byte_cap: usize,
)
    requires
        w.wf(),
    ensures
        ({
            let w2 = fed(w, offset, bytes, gap_cap, byte_cap).0;
            forall|i: int|
                0 <= i < w2.gaps.len() ==> #[trigger] w2.gaps[i] == (SegmentView { offset, bytes })
                    || w.gaps.contains(w2.gaps[i])
        }),
{
    let w2 = fed(w, offset, bytes, gap_cap, byte_cap).0;
    lemma_rank(w.gaps, offset);
    lemma_drained_gaps(advanced(w, bytes));
    if offset <= w.expected && offset + bytes.len() > w.expected {
        let seen = if offset < w.history_start() && w.unverifiable < u64::MAX {
            RecvView { unverifiable: w.unverifiable + 1, ..w }
        } else {
            w
        };
        lemma_drained_gaps(
            advanced(seen, bytes.subrange(w.expected - offset, bytes.len() as int)),
        );
    }
    assert forall|i: int| 0 <= i < w2.gaps.len() implies #[trigger] w2.gaps[i] == (SegmentView {
        offset,
        bytes,
    }) || w.gaps.contains(w2.gaps[i]) by {
        let x = SegmentView { offset, bytes };
        let k = rank(w.gaps, offset) as int;
        if w2.gaps == with_segment(w.gaps, x) {
            if i < k {
                assert(w2.gaps[i] == w.gaps[i]);
            } else if i > k {
                assert(w2.gaps[i] == w.gaps[i - 1]);
            }
        }
    }
}

proof fn lemma_drained_gaps(w: RecvView)
    ensures
        forall|i: int|
            0 <= i < drained(w).0.gaps.len() ==> w.gaps.contains(#[trigger] drained(w).0.gaps[i]),
    decreases w.gaps.len(),
{
    if w.gaps.len() > 0 && w.gaps[0].offset == w.expected {
        let w1 = advanced(RecvView { gaps: w.gaps.drop_first(), ..w }, w.gaps[0].bytes);
        lemma_drained_gaps(w1);
        assert forall|i: int| 0 <= i < drained(w).0.gaps.len() implies w.gaps.contains(
            #[trigger] drained(w).0.gaps[i],
        ) by {
            let g = drained(w1).0.gaps[i];
            assert(w1.gaps.contains(g));
            let k = choose|k: int| 0 <= k < w1.gaps.len() && w1.gaps[k] == g;
            assert(w.gaps[k + 1] == g);
        }
    }
}

/// The acknowledged ranges hold exactly the offsets of the waiting bytes; they are
/// in order and do not touch.
pub proof fn sack_ranges_cover_the_gaps(s: Seq<SegmentView>, p: int)
    requires
        ascending(s),
        forall|i: int| 0 <= i < s.len() ==> (#[trigger] s[i]).end() <= u64::MAX,
    ensures
        ({
            let r = joined_ranges(s);
            &&& in_ranges(r, p) <==> in_segments(s, p)
            &&& forall|i: int, j: int| 0 <= i < j < r.len() ==> (#[trigger] r[i]).1 < (#[trigger] r[j]).0
        }),
{
    lemma_joined_ranges(s);
    assert(in_ranges(joined_ranges(s), p) <==> in_segments(s, p));
}

/// `p` lies in one of the ranges.
pub open spec fn in_ranges(r: Seq<(u64, u64)>, p: int) -> bool {
    exists|i: int| 0 <= i < r.len() && (#[trigger] r[i]).0 <= p < r[i].1
}

/// `p` lies in one of the segments.
pub open spec fn in_segments(s: Seq<SegmentView>, p: int) -> bool {
    exists|j: int| 0 <= j < s.len() && (#[trigger] s[j]).offset <= p < s[j].end()
}

proof fn lemma_joined_ranges(s: Seq<SegmentView>)
    requires
        ascending(s),
        forall|i: int| 0 <= i < s.len() ==> (#[trigger] s[i]).end() <= u64::MAX,
    ensures
        ({
            let r = joined_ranges(s);
            &&& s.len() > 0 ==> r.len() > 0 && r.last().0 <= s.last().offset
            &&& s.len() == 0 ==> r.len() == 0
            &&& forall|i: int| 0 <= i < r.len() ==> (#[trigger] r[i]).0 <= r[i].1
            &&& forall|i: int, j: int| 0 <= i < j < r.len() ==> (#[trigger] r[i]).1 < (#[trigger] r[j]).0
            &&& forall|p: int| #[trigger] in_ranges(r, p) <==> in_segments(s, p)
        }),
    decreases s.len(),
{
    if s.len() > 0 {
        let t = s.drop_last();
        let x = s.last();
        let n = t.len() as int;
        assert forall|i: int| 0 <= i < t.len() implies (#[trigger] t[i]).end() <= u64::MAX by {
            assert(t[i] == s[i]);
        }
        assert(x == s[n]);
        lemma_joined_ranges(t);
        let out = joined_ranges(t);
        let r = joined_ranges(s);
        let m = out.len() as int;
        if n > 0 {
            assert(t.last() == s[n - 1]);
        }
        assert forall|p: int| in_ranges(r, p) <==> in_segments(s, p) by {
            assert(in_ranges(out, p) <==> in_segments(t, p));
            if in_segments(s, p) {
                let j = choose|j: int| 0 <= j < s.len() && (#[trigger] s[j]).offset <= p < s[j].end();
                if j < n {
                    assert(t[j].offset <= p < t[j].end());
                    let i = choose|i: int| 0 <= i < out.len() && (#[trigger] out[i]).0 <= p < out[i].1;
                    assert(r[i].0 <= p < r[i].1);
                } else {
                    assert(r[r.len() - 1].0 <= p < r[r.len() - 1].1);
                }
            }
            if in_ranges(r, p) {
                let i = choose|i: int| 0 <= i < r.len() && (#[trigger] r[i]).0 <= p < r[i].1;
                if i < m && out[i].0 <= p < out[i].1 {
                    let j = choose|j: int|
                        0 <= j < t.len() && (#[trigger] t[j]).offset <= p < t[j].end();
                    assert(s[j] == t[j]);
                } else {
                    assert(s[n].offset <= p < s[n].end());
                }
            }
        }
    } else {
        assert forall|p: int| in_ranges(joined_ranges(s), p) <==> in_segments(s, p) by {}
    }
}

// ---- send journal -----------------------------------------------------------------

/// Bounds of the journal, for one stream and for all streams of a session.
#[derive(Debug, Clone, Copy, PartialEq, Eq, Structural)]
pub struct JournalLimits {
    pub max_session_bytes: usize,
    pub max_stream_bytes: usize,
    /// Segments of one stream.
    pub max_segments: usize,
    /// Segments of all streams together.
    pub max_session_segments: usize,
}

impl Default for JournalLimits {
    fn default() -> (r: Self)
        ensures
            r == (JournalLimits {
                max_session_bytes: 8_388_608,
                max_stream_bytes: 2_097_152,
                max_segments: 512,
                max_session_segments: 4096,
            }),
    {
        JournalLimits {
            max_session_bytes: 8 * 1024 * 1024,
            max_stream_bytes: 2 * 1024 * 1024,
            max_segments: 512,
            max_session_segments: 4096,
        }
    }
}

/// A bound of the journal that a segment would break.
#[derive(Debug, Clone, Copy, PartialEq, Eq, Structural)]
pub enum JournalError {
    SegmentCap(usize),
    StreamBytesCap { held: usize, incoming: usize, cap: usize },
    SessionBytesCap { held: usize, incoming: usize, cap: usize },
}

/// The text of a journal error.
pub open spec fn journal_error_text(e: JournalError) -> Seq<char> {
    match e {
        JournalError::SegmentCap(n) => "journal segment cap exceeded: "@ + decimal(n as nat),
        JournalError::StreamBytesCap { held, incoming, cap } => "journal stream byte cap exceeded: "@
            + sum_over_cap_text(held, incoming, cap),
        JournalError::SessionBytesCap { held, incoming, cap } => "journal session byte cap exceeded: "@
            + sum_over_cap_text(held, incoming, cap),
    }
}

/// `<held> + <incoming> > <cap>`
pub open spec fn sum_over_cap_text(held: usize, incoming: usize, cap: usize) -> Seq<char> {
    decimal(held as nat) + " + "@ + decimal(incoming as nat) + " > "@ + decimal(cap as nat)
}

impl JournalError {
    /// The error as text.
    pub fn message(&self) -> (r: String)
        ensures
            r@ == journal_error_text(*self),
    {
        match self {
            JournalError::SegmentCap(n) => cat(
                "journal segment cap exceeded: ",
                decimal_text(*n as u64).as_str(),
            ),
            JournalError::StreamBytesCap { held, incoming, cap } => cat(
                "journal stream byte cap exceeded: ",
                sum_text(*held, *incoming, *cap).as_str(),
            ),
            JournalError::SessionBytesCap { held, incoming, cap } => cat(
                "journal session byte cap exceeded: ",
                sum_text(*held, *incoming, *cap).as_str(),
            ),
        }
    }
}

fn sum_text(held: usize, incoming: usize, cap: usize) -> (r: String)
    ensures
        r@ == sum_over_cap_text(held, incoming, cap),
{
    cat5(
        decimal_text(held as u64).as_str(),
        " + ",
        decimal_text(incoming as u64).as_str(),
        " > ",
        decimal_text(cap as u64).as_str(),
    )
}

/// Sending side of one stream: the segments that are not wholly acknowledged.
#[derive(Debug)]
pub struct StreamJournal {
    pub stream_id: u64,
    next_send_offset: u64,
    acked_offset: u64,
    final_offset: Option<u64>,
    segments: Vec<Segment>,
    limits: JournalLimits,
}

/// What a [`StreamJournal`] holds.
pub struct JournalView {
    pub stream_id: u64,
    /// Bytes sent so far; the offset of the next segment.
    pub next: nat,
    /// The acknowledgement; it may fall inside a segment.
    pub acked: nat,
    /// The end of the stream, once its last segment was recorded.
    pub final_offset: Option<nat>,
    pub segments: Seq<SegmentView>,
    pub limits: JournalLimits,
}

/// Each segment ends where the next one starts, the last one at `next`.
pub open spec fn contiguous(s: Seq<SegmentView>, next: nat) -> bool {
    &&& forall|i: int| 0 <= i < s.len() - 1 ==> (#[trigger] s[i]).end() == s[i + 1].offset
    &&& s.len() > 0 ==> s.last().end() == next
}

impl JournalView {
    /// The segments have no holes, reach to the next offset, start no later than
    /// the acknowledgement, and keep both bounds. Only the last may be empty, and none
    /// that is not is wholly acknowledged.
    pub open spec fn wf(self) -> bool {
        &&& self.next <= u64::MAX
        &&& self.acked <= self.next
        &&& contiguous(self.segments, self.next)
        &&& forall|i: int| 0 <= i < self.segments.len() - 1 ==> (#[trigger] self.segments[i]).bytes.len() > 0
        &&& self.segments.len() > 0 ==> self.segments[0].offset <= self.acked
            <= self.segments[0].end()
        &&& self.segments.len() > 0 && self.segments[0].bytes.len() > 0 ==> self.acked
            < self.segments[0].end()
        &&& self.segments.len() == 0 ==> self.acked == self.next
        &&& total_bytes(self.segments) <= self.limits.max_stream_bytes
        &&& self.segments.len() <= self.limits.max_segments
    }
}

/// Why a segment cannot be recorded, if it cannot.
pub open spec fn record_fault(j: JournalView, bytes: Seq<u8>) -> Option<JournalError> {
    if j.segments.len() >= j.limits.max_segments {
        Some(JournalError::SegmentCap(j.limits.max_segments))
    } else if total_bytes(j.segments) + bytes.len() > j.limits.max_stream_bytes {
        Some(
            JournalError::StreamBytesCap {
                held: total_bytes(j.segments) as usize,
                incoming: bytes.len() as usize,
                cap: j.limits.max_stream_bytes,
            },
        )
    } else {
        None
    }
}

/// The journal with `bytes` recorded at the next offset. An empty segment there
/// gives way to it.
pub open spec fn recorded(j: JournalView, bytes: Seq<u8>, is_final: bool) -> JournalView {
    let x = SegmentView { offset: j.next, bytes };
    let kept = if j.segments.len() > 0 && j.segments.last().offset == j.next {
        j.segments.drop_last()
    } else {
        j.segments
    };
    JournalView {
        next: j.next + bytes.len(),
        final_offset: if is_final {
            Some(j.next + bytes.len())
        } else {
            j.final_offset
        },
        segments: kept.push(x),
        ..j
    }
}

/// The segments that reach beyond `acked`.
pub open spec fn unreleased(s: Seq<SegmentView>, acked: nat) -> Seq<SegmentView>
    decreases s.len(),
{
    if s.len() > 0 && s[0].end() <= acked {
        unreleased(s.drop_first(), acked)
    } else {
        s
    }
}

/// The journal after an acknowledgement: it only moves forward, and not beyond
/// what was sent.
pub open spec fn acknowledged(j: JournalView, offset: nat) -> JournalView {
    if offset <= j.acked {
        j
    } else {
        let acked = if offset <= j.next {
            offset
        } else {
            j.next
        };
        JournalView { acked, segments: unreleased(j.segments, acked), ..j }
    }
}

/// Offsets grow along contiguous segments of which only the last may be empty.
pub proof fn lemma_contiguous_order(s: Seq<SegmentView>, next: nat, i: int)
    requires
        contiguous(s, next),
        0 <= i < s.len(),
        forall|k: int| 0 <= k < s.len() - 1 ==> (#[trigger] s[k]).bytes.len() > 0,
    ensures
        s[i].end() <= next,
        i < s.len() - 1 ==> s[i].end() <= s.last().offset,
        s[0].offset <= s[i].offset,
    decreases s.len() - i,
{
    if i < s.len() - 1 {
        lemma_contiguous_order(s, next, i + 1);
        assert(s[i].end() == s[i + 1].offset);
    }
    lemma_contiguous_start(s, next, i);
}

proof fn lemma_contiguous_start(s: Seq<SegmentView>, next: nat, i: int)
    requires
        contiguous(s, next),
        0 <= i < s.len(),
    ensures
        s[0].offset <= s[i].offset,
    decreases i,
{
    if i > 0 {
        lemma_contiguous_start(s, next, i - 1);
        assert(s[i - 1].end() == s[i].offset);
    }
}

/// The unreleased segments are a tail of the list: everything before is released.
pub proof fn lemma_unreleased(s: Seq<SegmentView>, next: nat, acked: nat)
    requires
        contiguous(s, next),
        acked <= next,
    ensures
        ({
            let t = unreleased(s, acked);
            &&& t.len() <= s.len()
            &&& t == s.subrange(s.len() - t.len(), s.len() as int)
            &&& contiguous(t, next)
            &&& t.len() > 0 ==> t[0].end() > acked
            &&& t.len() > 0 && t.len() < s.len() ==> t[0].offset <= acked
            &&& t.len() == 0 && s.len() > 0 ==> acked == next
            &&& total_bytes(t) <= total_bytes(s)
        }),
    decreases s.len(),
{
    if s.len() > 0 && s[0].end() <= acked {
        let d = s.drop_first();
        assert(contiguous(d, next)) by {
            assert forall|i: int| 0 <= i < d.len() - 1 implies (#[trigger] d[i]).end() == d[i
                + 1].offset by {
                assert(d[i] == s[i + 1] && d[i + 1] == s[i + 2]);
                assert(s[i + 1].end() == s[i + 2].offset);
            }
            if d.len() > 0 {
                assert(d.last() == s.last());
            }
        }
        lemma_unreleased(d, next, acked);
        let t = unreleased(s, acked);
        assert(t =~= s.subrange(s.len() - t.len(), s.len() as int));
        if t.len() > 0 && t.len() == d.len() {
            assert(t[0] == s[1]);
            assert(s[0].end() == s[1].offset);
        }
        if d.len() == 0 {
            assert(s.last() == s[0]);
        }
    } else {
        assert(s =~= s.subrange(0, s.len() as int));
    }
}

impl StreamJournal {
    pub closed spec fn view(&self) -> JournalView {
        JournalView {
            stream_id: self.stream_id,
            next: self.next_send_offset as nat,
            acked: self.acked_offset as nat,
            final_offset: match self.final_offset {
                Some(f) => Some(f as nat),
                None => None,
            },
            segments: segment_views(self.segments@),
            limits: self.limits,
        }
    }

    pub open spec fn wf(&self) -> bool {
        self.view().wf()
    }

    pub fn new(stream_id: u64, limits: JournalLimits) -> (j: Self)
        ensures
            j.wf(),
            j.view() == (JournalView {
                stream_id,
                next: 0,
                acked: 0,
                final_offset: None,
                segments: Seq::empty(),
                limits,
            }),
    {
        let j = StreamJournal {
            stream_id,
            next_send_offset: 0,
            acked_offset: 0,
            final_offset: None,
            segments: Vec::new(),
            limits,
        };
        assert(segment_views(j.segments@) =~= Seq::<SegmentView>::empty());
        j
    }

    pub fn acked_offset(&self) -> (r: u64)
        ensures
            r == self.view().acked,
    {
        self.acked_offset
    }

    pub fn next_offset(&self) -> (r: u64)
        ensures
            r == self.view().next,
    {
        self.next_send_offset
    }

    /// The end of the stream, once its last segment was recorded.
    pub fn final_offset(&self) -> (r: Option<u64>)
        ensures
            match r {
                Some(f) => self.view().final_offset == Some(f as nat),
                None => self.view().final_offset is None,
            },
    {
        self.final_offset
    }

    pub fn segments_len(&self) -> (r: usize)
        ensures
            r == self.view().segments.len(),
    {
        self.segments.len()
    }

    /// Bytes held for replay.
    pub fn held_bytes(&self) -> (r: usize)
        requires
            self.wf(),
        ensures
            r == total_bytes(self.view().segments),
    {
        sum_bytes(&self.segments)
    }

    /// Records a segment that is sent now; gives its offset.
    pub fn record(&mut self, payload: Vec<u8>, is_final: bool) -> (r: Result<u64, JournalError>)
        requires
            old(self).wf(),
            old(self).view().next + payload@.len() <= u64::MAX,
        ensures
            final(self).wf(),
            match record_fault(old(self).view(), payload@) {
                Some(e) => r == Err::<u64, JournalError>(e) && final(self).view() == old(
                    self,
                ).view(),
                None => r == Ok::<u64, JournalError>(old(self).view().next as u64)
                    && final(self).view() == recorded(old(self).view(), payload@, is_final),
            },
    {
        let ghost j = self.view();
        if self.segments.len() >= self.limits.max_segments {
            return Err(JournalError::SegmentCap(self.limits.max_segments));
        }
        let held: usize = self.held_bytes();
        let incoming: usize = payload.len();
        if incoming > self.limits.max_stream_bytes - held {
            return Err(
                JournalError::StreamBytesCap { held, incoming, cap: self.limits.max_stream_bytes },
            );
        }
        let offset: u64 = self.next_send_offset;
        let ghost x = SegmentView { offset: offset as nat, bytes: payload@ };
        let ghost kept = if j.segments.len() > 0 && j.segments.last().offset == j.next {
            j.segments.drop_last()
        } else {
            j.segments
        };
        let n: usize = self.segments.len();
        if n > 0 && self.segments[n - 1].offset == offset {
            self.segments.pop();
        }
        assert(segment_views(self.segments@) =~= kept);
        self.next_send_offset = self.next_send_offset + incoming as u64;
        self.segments.push(Segment { offset, payload });
        if is_final {
            self.final_offset = Some(self.next_send_offset);
        }
        proof {
            assert(segment_views(self.segments@) =~= kept.push(x));
            lemma_recorded_wf(j, x.bytes, is_final);
        }
        Ok(offset)
    }

    /// Takes a cumulative acknowledgement; gives the bytes that were freed.
    pub fn advance_ack(&mut self, exclusive_offset: u64) -> (freed: usize)
        requires
            old(self).wf(),
        ensures
            final(self).wf(),
            final(self).view() == acknowledged(old(self).view(), exclusive_offset as nat),
            freed == total_bytes(old(self).view().segments) - total_bytes(
                final(self).view().segments,
            ),
    {
        if exclusive_offset <= self.acked_offset {
            return 0;
        }
        let ghost j = self.view();
        let ghost v = j.segments;
        let acked: u64 = if exclusive_offset <= self.next_send_offset {
            exclusive_offset
        } else {
            self.next_send_offset
        };
        proof {
            lemma_unreleased(v, j.next, acked as nat);
        }
        let n: usize = self.segments.len();
        let mut k: usize = 0;
        let mut freed: usize = 0;
        assert(v.subrange(0, 0) =~= Seq::<SegmentView>::empty());
        assert(v.subrange(0, n as int) =~= v);
        loop
            invariant
                k <= n,
                n == self.segments@.len(),
                v == segment_views(self.segments@),
                j == self.view(),
                j.segments == v,
                j.wf(),
                acked <= j.next,
                freed == total_bytes(v.subrange(0, k as int)),
                unreleased(v, acked as nat) == unreleased(
                    v.subrange(k as int, n as int),
                    acked as nat,
                ),
            ensures
                v.subrange(k as int, n as int) == unreleased(v, acked as nat),
            decreases n - k,
        {
            let ghost t = v.subrange(k as int, n as int);
            if k == n {
                break;
            }
            assert(t[0] == v[k as int]);
            proof {
                lemma_contiguous_order(v, j.next, k as int);
            }
            let end: u64 = self.segments[k].offset + self.segments[k].payload.len() as u64;
            if end > acked {
                break;
            }
            proof {
                let a = v.subrange(0, k as int);
                assert(v.subrange(0, k + 1) =~= a.push(v[k as int]));
                lemma_total_push(a, v[k as int]);
                lemma_total_split(v, k + 1);
                assert(t.drop_first() =~= v.subrange(k + 1, n as int));
            }
            freed = freed + self.segments[k].payload.len();
            k = k + 1;
        }
        self.acked_offset = acked;
        self.segments = self.segments.split_off(k);
        proof {
            lemma_total_split(v, k as int);
            assert(segment_views(self.segments@) =~= v.subrange(k as int, n as int));
            let t = unreleased(v, acked as nat);
            assert forall|i: int| 0 <= i < t.len() - 1 implies (#[trigger] t[i]).bytes.len()
                > 0 by {
                assert(t[i] == v[i + k]);
            }
            if k == 0 && n > 0 {
                assert(t[0] == v[0]);
            }
        }
        freed
    }

    /// What has to be sent again, in order: `(offset, payload)` of each segment. The
    /// first may begin before the acknowledgement.
    pub fn replay(&self) -> (r: Vec<(u64, Vec<u8>)>)
        ensures
            r@.len() == self.view().segments.len(),
            forall|i: int|
                0 <= i < r@.len() ==> (#[trigger] r@[i]).0 == self.view().segments[i].offset
                    && r@[i].1@ == self.view().segments[i].bytes,
    {
        let n: usize = self.segments.len();
        let mut out: Vec<(u64, Vec<u8>)> = Vec::new();
        let mut i: usize = 0;
        while i < n
            invariant
                i <= n,
                n == self.segments@.len(),
                out@.len() == i,
                forall|k: int|
                    0 <= k < i ==> (#[trigger] out@[k]).0 == self.segments@[k].offset
                        && out@[k].1@ == self.segments@[k].payload@,
            decreases n - i,
        {
            let p = vstd::slice::slice_to_vec(self.segments[i].payload.as_slice());
            out.push((self.segments[i].offset, p));
            i = i + 1;
        }
        out
    }
}

proof fn lemma_record_kept(j: JournalView, kept: Seq<SegmentView>)
    requires
        j.wf(),
        kept == if j.segments.len() > 0 && j.segments.last().offset == j.next {
            j.segments.drop_last()
        } else {
            j.segments
        },
    ensures
        contiguous(kept, j.next),
        forall|i: int| 0 <= i < kept.len() ==> (#[trigger] kept[i]).bytes.len() > 0,
        total_bytes(kept) == total_bytes(j.segments),
        kept.len() == 0 ==> j.acked == j.next,
        kept.len() > 0 ==> kept[0] == j.segments[0],
{
    let s = j.segments;
    if kept != s {
        let x = s.last();
        assert(s =~= kept.push(x));
        lemma_total_push(kept, x);
        assert(x.bytes.len() == 0);
        assert forall|i: int| 0 <= i < kept.len() - 1 implies (#[trigger] kept[i]).end() == kept[i
            + 1].offset by {
            assert(kept[i] == s[i] && kept[i + 1] == s[i + 1]);
            assert(s[i].end() == s[i + 1].offset);
        }
        if kept.len() > 0 {
            let m = kept.len() - 1;
            assert(kept.last() == s[m]);
            assert(s[m].end() == s[m + 1].offset);
        }
        assert forall|i: int| 0 <= i < kept.len() implies (#[trigger] kept[i]).bytes.len() > 0 by {
            assert(kept[i] == s[i]);
        }
    } else if s.len() > 0 {
        assert(s.last().bytes.len() > 0);
        assert forall|i: int| 0 <= i < kept.len() implies (#[trigger] kept[i]).bytes.len() > 0 by {
            if i == s.len() - 1 {
                assert(kept[i] == s.last());
            }
        }
    }
}

/// Recording within the bounds keeps the journal well-formed.
proof fn lemma_recorded_wf(j: JournalView, bytes: Seq<u8>, is_final: bool)
    requires
        j.wf(),
        record_fault(j, bytes) is None,
        j.next + bytes.len() <= u64::MAX,
    ensures
        recorded(j, bytes, is_final).wf(),
{
    let x = SegmentView { offset: j.next, bytes };
    let kept = if j.segments.len() > 0 && j.segments.last().offset == j.next {
        j.segments.drop_last()
    } else {
        j.segments
    };
    lemma_record_kept(j, kept);
    lemma_total_push(kept, x);
    let s = kept.push(x);
    assert forall|i: int| 0 <= i < s.len() - 1 implies (#[trigger] s[i]).end() == s[i
        + 1].offset by {
        if i + 1 < kept.len() {
            assert(s[i] == kept[i] && s[i + 1] == kept[i + 1]);
            assert(kept[i].end() == kept[i + 1].offset);
        } else {
            assert(s[i] == kept.last());
        }
    }
    if kept.len() > 0 {
        assert(s[0] == kept[0]);
    }
    assert(s.last() == x);
    assert(contiguous(s, x.end()));
}

/// Recording adds the bytes of the segment and at most one segment.
pub proof fn lemma_recorded(j: JournalView, bytes: Seq<u8>, is_final: bool)
    requires
        j.wf(),
    ensures
        total_bytes(recorded(j, bytes, is_final).segments) == total_bytes(j.segments) + bytes.len(),
        recorded(j, bytes, is_final).segments.len() <= j.segments.len() + 1,
{
    let kept = if j.segments.len() > 0 && j.segments.last().offset == j.next {
        j.segments.drop_last()
    } else {
        j.segments
    };
    lemma_record_kept(j, kept);
    lemma_total_push(kept, SegmentView { offset: j.next, bytes });
}

// ---- laws of the journal ----------------------------------------------------------

/// What can be replayed is the unacknowledged end of the stream, without a hole:
/// it starts at or before the acknowledgement and reaches the next offset.
pub proof fn journal_replays_without_holes(j: JournalView, i: int)
    requires
        j.wf(),
        0 <= i < j.segments.len(),
    ensures
        j.segments[0].offset <= j.acked,
        i + 1 < j.segments.len() ==> j.segments[i].end() == j.segments[i + 1].offset,
        j.segments.last().end() == j.next,
        j.segments[i].end() <= j.next,
{
    lemma_contiguous_order(j.segments, j.next, i);
}

/// The first segment of a replay is not wholly acknowledged, and a replay is empty exactly
/// when everything is acknowledged. This holds of journals without an empty segment: one has
/// no byte to acknowledge, and is replayed as long as it is there.
pub proof fn replay_begins_with_what_is_unacknowledged(j: JournalView)
    requires
        j.wf(),
        forall|i: int| 0 <= i < j.segments.len() ==> (#[trigger] j.segments[i]).bytes.len() > 0,
    ensures
        j.segments.len() > 0 ==> j.segments[0].offset <= j.acked < j.segments[0].end(),
        j.segments.len() == 0 <==> j.acked == j.next,
{
    if j.segments.len() > 0 {
        assert(j.segments[0].bytes.len() > 0);
        lemma_contiguous_order(j.segments, j.next, 0);
    }
}

/// After an acknowledgement that moves forward the same holds, whatever the segments are.
pub proof fn acknowledgement_leaves_what_is_unacknowledged(j: JournalView, a: nat)
    requires
        j.wf(),
        a > j.acked,
    ensures
        ({
            let k = acknowledged(j, a);
            &&& k.segments.len() > 0 ==> k.segments[0].offset <= k.acked < k.segments[0].end()
            &&& (k.segments.len() == 0 <==> k.acked == k.next)
        }),
{
    let acked = acknowledged(j, a).acked;
    let t = unreleased(j.segments, acked);
    lemma_unreleased(j.segments, j.next, acked);
    if t.len() > 0 {
        if t.len() == j.segments.len() {
            assert(t =~= j.segments);
        }
        lemma_ends_within(t, j.next, 0);
    }
}

proof fn lemma_ends_within(s: Seq<SegmentView>, next: nat, i: int)
    requires
        contiguous(s, next),
        0 <= i < s.len(),
    ensures
        s[i].end() <= next,
    decreases s.len() - i,
{
    if i < s.len() - 1 {
        lemma_ends_within(s, next, i + 1);
        assert(s[i].end() == s[i + 1].offset);
    }
}

/// An acknowledgement never takes back an earlier one, and repeating it changes
/// nothing.
pub proof fn acknowledgement_is_monotone(j: JournalView, a: nat, b: nat)
    requires
        j.wf(),
    ensures
        acknowledged(j, a).acked >= j.acked,
        acknowledged(j, a).acked <= j.next,
        b <= a ==> acknowledged(acknowledged(j, a), b) == acknowledged(j, a),
        a >= j.next ==> acknowledged(j, a).acked == j.next,
{
    if a > j.acked && b <= a && b > acknowledged(j, a).acked {
        let acked = j.next;
        let t = unreleased(j.segments, acked);
        lemma_unreleased(j.segments, j.next, acked);
        let j1 = acknowledged(j, a);
        lemma_unreleased(t, j.next, acked);
        assert(unreleased(t, acked) =~= t);
        assert(acknowledged(j1, b) == j1);
    }
}

/// A journal keeps a segment until its last byte is acknowledged: whatever is
/// freed by an acknowledgement ends at or before it.
pub proof fn release_is_covered_by_the_acknowledgement(j: JournalView, a: nat, i: int)
    requires
        j.wf(),
        0 <= i < j.segments.len(),
        !acknowledged(j, a).segments.contains(j.segments[i]),
    ensures
        j.segments[i].end() <= a,
{
    if a > j.acked {
        let acked = acknowledged(j, a).acked;
        lemma_released_prefix(j.segments, acked, i);
    }
}

proof fn lemma_released_prefix(s: Seq<SegmentView>, acked: nat, i: int)
    requires
        0 <= i < s.len(),
        !unreleased(s, acked).contains(s[i]),
    ensures
        s[i].end() <= acked,
    decreases s.len(),
{
    if s[0].end() <= acked {
        if i > 0 {
            let d = s.drop_first();
            assert(d[i - 1] == s[i]);
            lemma_released_prefix(d, acked, i - 1);
        }
    } else {
        assert(s.contains(s[i]));
    }
}

// ---- journal and window together --------------------------------------------------

/// The window after feeding the segments in order.
pub open spec fn replayed(
    w: RecvView,
    segments: Seq<SegmentView>,
    gap_cap: usize,
    byte_cap: usize,
) -> RecvView
    decreases segments.len(),
{
    if segments.len() == 0 {
        w
    } else {
        let w2 = fed(w, segments[0].offset, segments[0].bytes, gap_cap, byte_cap).0;
        replayed(w2, segments.drop_first(), gap_cap, byte_cap)
    }
}

/// Replaying a journal completes the stream: a receiver that has delivered at least
/// what was acknowledged has, after the replay, delivered every byte sent, each once.
pub proof fn replay_completes_the_stream(
    j: JournalView,
    w: RecvView,
    s: Seq<u8>,
    gap_cap: usize,
    byte_cap: usize,
)
    requires
        j.wf(),
        j.next == s.len(),
        forall|i: int|
            0 <= i < j.segments.len() ==> (#[trigger] j.segments[i]).bytes == s.subrange(
                j.segments[i].offset as int,
                j.segments[i].end() as int,
            ),
        faithful(w, s),
        w.expected >= j.acked,
    ensures
        replayed(w, j.segments, gap_cap, byte_cap).expected == j.next,
        faithful(replayed(w, j.segments, gap_cap, byte_cap), s),
{
    assert forall|i: int| 0 <= i < j.segments.len() implies (#[trigger] j.segments[i]).end()
        <= s.len() by {
        lemma_contiguous_order(j.segments, j.next, i);
    }
    lemma_replayed(j.segments, w, s, gap_cap, byte_cap);
}

proof fn lemma_replayed(
    segments: Seq<SegmentView>,
    w: RecvView,
    s: Seq<u8>,
    gap_cap: usize,
    byte_cap: usize,
)
    requires
        s.len() <= u64::MAX,
        contiguous(segments, s.len()),
        forall|i: int|
            0 <= i < segments.len() ==> (#[trigger] segments[i]).end() <= s.len()
                && segments[i].bytes == s.subrange(
                segments[i].offset as int,
                segments[i].end() as int,
            ),
        faithful(w, s),
        segments.len() > 0 ==> segments[0].offset <= w.expected,
        segments.len() == 0 ==> w.expected == s.len(),
    ensures
        replayed(w, segments, gap_cap, byte_cap).expected == s.len(),
        faithful(replayed(w, segments, gap_cap, byte_cap), s),
    decreases segments.len(),
{
    if segments.len() > 0 {
        let x = segments[0];
        let rest = segments.drop_first();
        assert(x.end() <= s.len());
        lemma_fed_in_order(w, s, x, gap_cap, byte_cap);
        let w2 = fed(w, x.offset, x.bytes, gap_cap, byte_cap).0;
        assert forall|i: int| 0 <= i < rest.len() implies (#[trigger] rest[i]).end() <= s.len()
            && rest[i].bytes == s.subrange(rest[i].offset as int, rest[i].end() as int) by {
            assert(rest[i] == segments[i + 1]);
        }
        assert forall|i: int| 0 <= i < rest.len() - 1 implies (#[trigger] rest[i]).end() == rest[i
            + 1].offset by {
            assert(rest[i] == segments[i + 1] && rest[i + 1] == segments[i + 2]);
            assert(segments[i + 1].end() == segments[i + 2].offset);
        }
        if rest.len() > 0 {
            assert(rest.last() == segments.last());
            assert(segments[0].end() == segments[1].offset);
            assert(rest[0] == segments[1]);
        } else {
            assert(segments.last() == x);
        }
        lemma_replayed(rest, w2, s, gap_cap, byte_cap);
    }
}

/// A segment that does not come early is delivered to its end.
proof fn lemma_fed_in_order(
    w: RecvView,
    s: Seq<u8>,
    x: SegmentView,
    gap_cap: usize,
    byte_cap: usize,
)
    requires
        faithful(w, s),
        s.len() <= u64::MAX,
        x.end() <= s.len(),
        x.bytes == s.subrange(x.offset as int, x.end() as int),
        x.offset <= w.expected,
    ensures
        ({
            let w2 = fed(w, x.offset, x.bytes, gap_cap, byte_cap).0;
            faithful(w2, s) && w2.expected >= x.end() && w2.expected >= w.expected
        }),
{
    if x.offset < w.expected {
        let seen = if x.offset < w.history_start() && w.unverifiable < u64::MAX {
            RecvView { unverifiable: w.unverifiable + 1, ..w }
        } else {
            w
        };
        assert(agrees_with_history(w, x.offset, x.bytes));
        if x.end() > w.expected {
            let suffix = x.bytes.subrange(w.expected - x.offset, x.bytes.len() as int);
            assert(suffix =~= s.subrange(w.expected as int, x.end() as int));
            lemma_advanced_faithful(seen, s, suffix);
            lemma_drained_faithful(advanced(seen, suffix), s);
        }
    } else {
        lemma_advanced_faithful(w, s, x.bytes);
        lemma_drained_faithful(advanced(w, x.bytes), s);
    }
}

// ---- what feeding moves -----------------------------------------------------------

/// Bytes of all parts together.
pub open spec fn total_len(s: Seq<Seq<u8>>) -> nat
    decreases s.len(),
{
    if s.len() == 0 {
        0
    } else {
        s[0].len() + total_len(s.drop_first())
    }
}

pub proof fn lemma_total_len_concat(a: Seq<Seq<u8>>, b: Seq<Seq<u8>>)
    ensures
        total_len(a + b) == total_len(a) + total_len(b),
    decreases a.len(),
{
    if a.len() == 0 {
        assert(a + b =~= b);
    } else {
        lemma_total_len_concat(a.drop_first(), b);
        assert((a + b).drop_first() =~= a.drop_first() + b);
    }
}

proof fn lemma_drained_effects(w: RecvView)
    ensures
        total_bytes(drained(w).0.gaps) <= total_bytes(w.gaps),
        drained(w).0.expected == w.expected + total_len(drained(w).1),
    decreases w.gaps.len(),
{
    if w.gaps.len() > 0 && w.gaps[0].offset == w.expected {
        let b = w.gaps[0].bytes;
        let w1 = advanced(RecvView { gaps: w.gaps.drop_first(), ..w }, b);
        lemma_drained_effects(w1);
        let rest = drained(w1).1;
        assert((seq![b] + rest).drop_first() =~= rest);
    }
}

/// Feeding a segment adds at most its own bytes to the gap buffer, and the expected
/// offset grows by exactly what is delivered.
pub proof fn feeding_accounts_for_every_byte(
    w: RecvView,
    offset: nat,
    bytes: Seq<u8>,
    gap_cap: usize,
    byte_cap: usize,
)
    requires
        w.wf(),
    ensures
        ({
            let (w2, a) = fed(w, offset, bytes, gap_cap, byte_cap);
            &&& total_bytes(w2.gaps) <= total_bytes(w.gaps) + (if offset > w.expected && !starts_at(
                w.gaps,
                offset,
            ) {
                bytes.len()
            } else {
                0
            })
            &&& match a {
                Ok(SegmentActionView::Deliver(parts)) => w2.expected == w.expected + total_len(
                    parts,
                ),
                _ => w2.expected == w.expected,
            }
        }),
{
    let end = offset + bytes.len();
    if end > u64::MAX {
    } else if offset < w.expected {
        if end > w.expected {
            let seen = if offset < w.history_start() && w.unverifiable < u64::MAX {
                RecvView { unverifiable: w.unverifiable + 1, ..w }
            } else {
                w
            };
            lemma_delivery_effects(seen, bytes.subrange(w.expected - offset, bytes.len() as int));
        }
    } else if offset == w.expected {
        lemma_delivery_effects(w, bytes);
    } else if !starts_at(w.gaps, offset) {
        lemma_with_segment_ascending(w.gaps, SegmentView { offset, bytes });
    }
}

proof fn lemma_delivery_effects(w: RecvView, bytes: Seq<u8>)
    ensures
        total_bytes(delivery(w, bytes).0.gaps) <= total_bytes(w.gaps),
        delivery(w, bytes).0.expected == w.expected + total_len(delivery(w, bytes).1->Deliver_0),
{
    lemma_drained_effects(advanced(w, bytes));
    let rest = drained(advanced(w, bytes)).1;
    assert((seq![bytes] + rest).drop_first() =~= rest);
}

} // verus!
