//! Frames on a byte stream: the incremental reader that cuts a stream of bytes
//! into frames, and the queue of frames that one read may yield.
use vstd::prelude::*;
use vstd::string::*;

use crate::continuity::frame::{
    field, frame_at, frame_bytes, frame_error_text, frame_fault, frame_roundtrip, Frame, FrameError, FrameView,
};
use crate::octets::push_bytes;
use crate::text::cat;

verus! {

/// Collects bytes and gives out the frames that are complete.
#[derive(Debug, Default)]
pub struct StreamFramer {
    buf: Vec<u8>,
}

/// The views of a list of frames.
pub open spec fn frame_views(s: Seq<Frame>) -> Seq<FrameView> {
    Seq::new(s.len(), |i: int| s[i]@)
}

/// More bytes can complete a frame at the front.
pub open spec fn incomplete(e: FrameError) -> bool {
    match e {
        FrameError::TooShort(_) => true,
        FrameError::LengthMismatch { declared, available } => declared > available,
        _ => false,
    }
}

/// The frames at the front of `buf`, what is left behind them, and the rule that
/// the rest breaks, if it is not just incomplete.
pub open spec fn cut(buf: Seq<u8>) -> (Seq<FrameView>, Seq<u8>, Option<FrameError>)
    decreases buf.len(),
{
    match frame_at(buf) {
        Ok((f, n)) => if 0 < n <= buf.len() {
            let (rest, left, e) = cut(buf.subrange(n, buf.len() as int));
            (seq![f] + rest, left, e)
        } else {
            (Seq::empty(), buf, None)
        },
        Err(e) => (
            Seq::empty(),
            buf,
            if incomplete(e) {
                None
            } else {
                Some(e)
            },
        ),
    }
}

impl StreamFramer {
    /// The bytes that wait for more.
    pub closed spec fn view(&self) -> Seq<u8> {
        self.buf@
    }

    pub fn new() -> (r: Self)
        ensures
            r.view() == Seq::<u8>::empty(),
    {
        StreamFramer { buf: Vec::new() }
    }

    /// Takes more bytes and gives the frames that are complete now. A violation
    /// behind complete frames is reported by the next call: the buffer keeps it.
    pub fn feed(&mut self, chunk: &[u8]) -> (r: Result<Vec<Frame>, FrameError>)
        ensures
            ({
                let (frames, left, e) = cut(old(self).view() + chunk@);
                &&& final(self).view() == left
                &&& match r {
                    Ok(v) => frame_views(v@) == frames && (e is None || frames.len() > 0),
                    Err(x) => frames.len() == 0 && e == Some(x),
                }
            }),
    {
        let ghost all = self.buf@ + chunk@;
        push_bytes(&mut self.buf, chunk);
        let mut out: Vec<Frame> = Vec::new();
        assert(frame_views(out@) =~= Seq::<FrameView>::empty());
        assert(Seq::<FrameView>::empty() + cut(all).0 =~= cut(all).0);
        loop
            invariant
                all == old(self).view() + chunk@,
                cut(all) == (
                    frame_views(out@) + cut(self.buf@).0,
                    cut(self.buf@).1,
                    cut(self.buf@).2,
                ),
            decreases self.buf@.len(),
        {
            match Frame::decode(self.buf.as_slice()) {
                Ok((f, used)) => {
                    let ghost b = self.buf@;
                    let ghost v = f@;
                    let ghost done = frame_views(out@);
                    self.buf = self.buf.split_off(used);
                    out.push(f);
                    proof {
                        assert(frame_views(out@) =~= done.push(v));
                        let rest = cut(self.buf@).0;
                        assert(done + (seq![v] + rest) =~= done.push(v) + rest);
                    }
                },
                Err(e) => {
                    let wait = match e {
                        FrameError::TooShort(_) => true,
                        FrameError::LengthMismatch { declared, available } => declared > available,
                        _ => false,
                    };
                    assert(frame_views(out@) + Seq::<FrameView>::empty() =~= frame_views(out@));
                    if wait || out.len() > 0 {
                        return Ok(out);
                    }
                    return Err(e);
                },
            }
        }
    }
}

/// The receiving side of a stream: frames that have arrived and are given out one by one.
#[derive(Debug)]
pub struct FrameInbox {
    framer: StreamFramer,
    pending: Vec<Frame>,
}

impl FrameInbox {
    /// The bytes that wait for more, and the frames that wait to be given out.
    pub closed spec fn view(&self) -> (Seq<u8>, Seq<FrameView>) {
        (self.framer.view(), frame_views(self.pending@))
    }

    pub fn new() -> (r: Self)
        ensures
            r.view() == (Seq::<u8>::empty(), Seq::<FrameView>::empty()),
    {
        let r = FrameInbox { framer: StreamFramer::new(), pending: Vec::new() };
        assert(frame_views(r.pending@) =~= Seq::<FrameView>::empty());
        r
    }

    /// Gives out the next frame that has arrived.
    pub fn next(&mut self) -> (r: Option<Frame>)
        ensures
            final(self).view().0 == old(self).view().0,
            match r {
                Some(f) => old(self).view().1.len() > 0 && f@ == old(self).view().1[0]
                    && final(self).view().1 == old(self).view().1.subrange(
                    1,
                    old(self).view().1.len() as int,
                ),
                None => old(self).view().1.len() == 0 && final(self).view().1
                    == old(self).view().1,
            },
    {
        if self.pending.len() == 0 {
            return None;
        }
        let ghost before = self.pending@;
        let f = self.pending.remove(0);
        assert(frame_views(self.pending@) =~= frame_views(before).subrange(
            1,
            before.len() as int,
        ));
        Some(f)
    }

    /// Takes bytes that were read. The frames that they complete wait behind those that are
    /// there; where none is complete and the bytes break a rule, the stream is broken.
    pub fn take(&mut self, chunk: &[u8]) -> (r: Result<(), TransportError>)
        ensures
            ({
                let (frames, left, e) = cut(old(self).view().0 + chunk@);
                &&& final(self).view() == (left, old(self).view().1 + frames)
                &&& match r {
                    Ok(_) => e is None || frames.len() > 0,
                    Err(x) => frames.len() == 0 && e is Some && x == TransportError::Frame(e->0),
                }
            }),
    {
        let ghost before = frame_views(self.pending@);
        match self.framer.feed(chunk) {
            Ok(frames) => {
                let mut frames = frames;
                let ghost more = frame_views(frames@);
                self.pending.append(&mut frames);
                assert(frame_views(self.pending@) =~= before + more);
                Ok(())
            },
            Err(e) => {
                assert(before + Seq::<FrameView>::empty() =~= before);
                Err(TransportError::Frame(e))
            },
        }
    }
}

/// A stream that broke, or the rule that its bytes broke.
#[derive(Debug, PartialEq, Eq)]
pub enum TransportError {
    Io(String),
    Frame(FrameError),
    Ended,
}

/// The text of a transport error.
pub open spec fn transport_error_text(e: TransportError) -> Seq<char> {
    match e {
        TransportError::Io(m) => "continuity stream io: "@ + m@,
        TransportError::Frame(f) => "continuity frame: "@ + frame_error_text(f),
        TransportError::Ended => "continuity stream ended"@,
    }
}

impl TransportError {
    /// The error as text.
    pub fn message(&self) -> (r: String)
        ensures
            r@ == transport_error_text(*self),
    {
        match self {
            TransportError::Io(m) => cat("continuity stream io: ", m.as_str()),
            TransportError::Frame(f) => cat("continuity frame: ", f.message().as_str()),
            TransportError::Ended => "continuity stream ended".to_owned(),
        }
    }
}

/// A frame at the front does not depend on what follows it.
pub proof fn frame_is_decided_by_its_bytes(a: Seq<u8>, b: Seq<u8>)
    requires
        frame_at(a) is Ok,
    ensures
        frame_at(a + b) == frame_at(a),
{
    let c = a + b;
    let n = frame_at(a)->Ok_0.1;
    assert(48 <= n <= a.len());
    assert(field(c, 0, 4) =~= field(a, 0, 4));
    assert(field(c, 6, 2) =~= field(a, 6, 2));
    assert(field(c, 8, 16) =~= field(a, 8, 16));
    assert(field(c, 24, 8) =~= field(a, 24, 8));
    assert(field(c, 34, 2) =~= field(a, 34, 2));
    assert(field(c, 36, 8) =~= field(a, 36, 8));
    assert(field(c, 44, 4) =~= field(a, 44, 4));
    assert(field(c, 48, n - 48) =~= field(a, 48, n - 48));
}

/// How the bytes are cut into chunks does not matter: the frames of `a` followed by
/// those that `b` completes are the frames of both together.
pub proof fn chunking_does_not_matter(a: Seq<u8>, b: Seq<u8>)
    requires
        cut(a).2 is None,
    ensures
        ({
            let (first, left, _) = cut(a);
            let (second, rest, e) = cut(left + b);
            cut(a + b) == (first + second, rest, e)
        }),
    decreases a.len(),
{
    let (first, left, _) = cut(a);
    match frame_at(a) {
        Ok((f, n)) => {
            assert(48 <= n <= a.len());
            frame_is_decided_by_its_bytes(a, b);
            let t = a.subrange(n, a.len() as int);
            chunking_does_not_matter(t, b);
            assert((a + b).subrange(n, (a + b).len() as int) =~= t + b);
            let second = cut(left + b).0;
            assert(seq![f] + (cut(t).0 + second) =~= first + second);
        },
        Err(_) => {
            assert(Seq::<FrameView>::empty() + cut(a + b).0 =~= cut(a + b).0);
        },
    }
}

/// Frames written one after the other are read back one after the other.
pub proof fn written_frames_are_read_back(f: FrameView, rest: Seq<u8>)
    requires
        f.session_id.len() == 16,
        frame_fault(f) is None,
    ensures
        cut(frame_bytes(f) + rest) == (seq![f] + cut(rest).0, cut(rest).1, cut(rest).2),
{
    frame_roundtrip(f, rest);
    let all = frame_bytes(f) + rest;
    assert(all.subrange(48 + f.payload.len() as int, all.len() as int) =~= rest);
}

/// Frames that can be sent.
pub open spec fn sendable(fs: Seq<FrameView>) -> bool {
    forall|i: int|
        0 <= i < fs.len() ==> (#[trigger] fs[i]).session_id.len() == 16 && frame_fault(fs[i]) is None
}

/// The bytes of frames written one after the other.
pub open spec fn wire_of(fs: Seq<FrameView>) -> Seq<u8>
    decreases fs.len(),
{
    if fs.len() == 0 {
        Seq::empty()
    } else {
        frame_bytes(fs[0]) + wire_of(fs.drop_first())
    }
}

/// The number of frames that the first `p` bytes of their wire form hold whole.
pub open spec fn complete(fs: Seq<FrameView>, p: int) -> nat
    decreases fs.len(),
{
    if fs.len() == 0 || p < frame_bytes(fs[0]).len() {
        0
    } else {
        1 + complete(fs.drop_first(), p - frame_bytes(fs[0]).len())
    }
}

/// Where frame `i` ends.
pub open spec fn end_of(fs: Seq<FrameView>, i: int) -> int
    decreases fs.len(),
{
    if fs.len() == 0 {
        0
    } else if i <= 0 {
        frame_bytes(fs[0]).len() as int
    } else {
        frame_bytes(fs[0]).len() + end_of(fs.drop_first(), i - 1)
    }
}

/// The bytes of the first `k` chunks.
pub open spec fn joined_chunks(chunks: Seq<Seq<u8>>, k: int) -> Seq<u8>
    decreases k,
{
    if k <= 0 {
        Seq::empty()
    } else {
        joined_chunks(chunks, k - 1) + chunks[k - 1]
    }
}

/// The bytes that wait in a framer to which the first `k` chunks were fed, one after the
/// other.
pub open spec fn waiting(chunks: Seq<Seq<u8>>, k: int) -> Seq<u8>
    decreases k,
{
    if k <= 0 {
        Seq::empty()
    } else {
        cut(waiting(chunks, k - 1) + chunks[k - 1]).1
    }
}

/// The frames that the framer gave for the first `k` chunks.
pub open spec fn given(chunks: Seq<Seq<u8>>, k: int) -> Seq<FrameView>
    decreases k,
{
    if k <= 0 {
        Seq::empty()
    } else {
        given(chunks, k - 1) + cut(waiting(chunks, k - 1) + chunks[k - 1]).0
    }
}

/// The beginning of a frame is only incomplete.
proof fn lemma_unfinished(f: FrameView, p: int)
    requires
        f.session_id.len() == 16,
        frame_fault(f) is None,
        0 <= p < frame_bytes(f).len(),
    ensures
        cut(frame_bytes(f).subrange(0, p)) == (
            Seq::<FrameView>::empty(),
            frame_bytes(f).subrange(0, p),
            None::<FrameError>,
        ),
{
    let src = frame_bytes(f);
    let t = src.subrange(0, p);
    frame_roundtrip(f, Seq::empty());
    assert(src + Seq::<u8>::empty() =~= src);
    if p >= 48 {
        assert(field(t, 0, 4) =~= field(src, 0, 4));
        assert(field(t, 6, 2) =~= field(src, 6, 2));
        assert(field(t, 24, 8) =~= field(src, 24, 8));
        assert(field(t, 34, 2) =~= field(src, 34, 2));
        assert(field(t, 44, 4) =~= field(src, 44, 4));
    }
    assert(frame_at(t) is Err && incomplete(frame_at(t)->Err_0));
}

/// The first bytes of the wire form of frames give the frames that they hold whole.
proof fn lemma_cut_prefix(fs: Seq<FrameView>, p: int)
    requires
        sendable(fs),
        0 <= p <= wire_of(fs).len(),
    ensures
        complete(fs, p) <= fs.len(),
        cut(wire_of(fs).subrange(0, p)).0 == fs.subrange(0, complete(fs, p) as int),
        cut(wire_of(fs).subrange(0, p)).2 is None,
        p == wire_of(fs).len() ==> complete(fs, p) == fs.len(),
    decreases fs.len(),
{
    let t = wire_of(fs).subrange(0, p);
    if fs.len() == 0 {
        assert(frame_at(t) == Err::<(FrameView, int), FrameError>(FrameError::TooShort(0)));
        assert(cut(t).0 =~= fs.subrange(0, 0));
    } else {
        let f = fs[0];
        let rest = fs.drop_first();
        let n = frame_bytes(f).len();
        if p < n {
            assert(t =~= frame_bytes(f).subrange(0, p));
            lemma_unfinished(f, p);
            assert(cut(t).0 =~= fs.subrange(0, 0));
        } else {
            assert forall|i: int| 0 <= i < rest.len() implies (#[trigger] rest[i]).session_id.len()
                == 16 && frame_fault(rest[i]) is None by {
                assert(rest[i] == fs[i + 1]);
            }
            lemma_cut_prefix(rest, p - n);
            let u = wire_of(rest).subrange(0, p - n);
            assert(t =~= frame_bytes(f) + u);
            written_frames_are_read_back(f, u);
            let m = complete(rest, p - n) as int;
            assert(seq![f] + rest.subrange(0, m) =~= fs.subrange(0, m + 1));
        }
    }
}

/// The frames that are whole are those that have ended.
proof fn lemma_complete(fs: Seq<FrameView>, p: int, i: int)
    requires
        0 <= i < fs.len(),
    ensures
        i < complete(fs, p) <==> end_of(fs, i) <= p,
    decreases fs.len(),
{
    let rest = fs.drop_first();
    if i > 0 {
        lemma_complete(rest, p - frame_bytes(fs[0]).len(), i - 1);
        lemma_end_positive(rest, i - 1);
    }
}

proof fn lemma_end_positive(fs: Seq<FrameView>, i: int)
    ensures
        end_of(fs, i) >= 0,
    decreases fs.len(),
{
    if fs.len() > 0 && i > 0 {
        lemma_end_positive(fs.drop_first(), i - 1);
    }
}

proof fn lemma_joined_within(chunks: Seq<Seq<u8>>, k: int, n: int)
    requires
        0 <= k <= n,
    ensures
        joined_chunks(chunks, k).len() <= joined_chunks(chunks, n).len(),
        joined_chunks(chunks, k) == joined_chunks(chunks, n).subrange(
            0,
            joined_chunks(chunks, k).len() as int,
        ),
    decreases n - k,
{
    let a = joined_chunks(chunks, k);
    if k == n {
        assert(a =~= a.subrange(0, a.len() as int));
    } else {
        lemma_joined_within(chunks, k, n - 1);
        let b = joined_chunks(chunks, n - 1);
        let c = joined_chunks(chunks, n);
        assert(c == b + chunks[n - 1]);
        assert(c.subrange(0, a.len() as int) =~= b.subrange(0, a.len() as int));
    }
}

/// What the framer holds and has given is what is left and found in all bytes so far.
proof fn lemma_fed_chunks(fs: Seq<FrameView>, chunks: Seq<Seq<u8>>, k: int)
    requires
        sendable(fs),
        joined_chunks(chunks, chunks.len() as int) == wire_of(fs),
        0 <= k <= chunks.len(),
    ensures
        ({
            let a = joined_chunks(chunks, k);
            &&& a.len() <= wire_of(fs).len()
            &&& cut(a) == (given(chunks, k), waiting(chunks, k), None::<FrameError>)
            &&& complete(fs, a.len() as int) <= fs.len()
            &&& given(chunks, k) == fs.subrange(0, complete(fs, a.len() as int) as int)
        }),
    decreases k,
{
    let a = joined_chunks(chunks, k);
    lemma_joined_within(chunks, k, chunks.len() as int);
    lemma_cut_prefix(fs, a.len() as int);
    if k == 0 {
        assert(frame_at(a) == Err::<(FrameView, int), FrameError>(FrameError::TooShort(0)));
        assert(cut(a) == (Seq::<FrameView>::empty(), a, None::<FrameError>));
    } else {
        lemma_fed_chunks(fs, chunks, k - 1);
        chunking_does_not_matter(joined_chunks(chunks, k - 1), chunks[k - 1]);
    }
}

/// Frames written one after the other and cut into chunks anywhere come out whole and in
/// order. No call fails: what call `k` finds breaks no rule. It gives the frames from the
/// first that was not whole before it to the last that is whole with it, which are those
/// whose last byte it brings. After the last call all frames have come out and no byte
/// waits.
pub proof fn frames_come_out_whole(fs: Seq<FrameView>, chunks: Seq<Seq<u8>>, k: int)
    requires
        sendable(fs),
        joined_chunks(chunks, chunks.len() as int) == wire_of(fs),
        0 <= k < chunks.len(),
    ensures
        ({
            let (frames, left, e) = cut(waiting(chunks, k) + chunks[k]);
            let before = joined_chunks(chunks, k).len() as int;
            let now = joined_chunks(chunks, k + 1).len() as int;
            let (i, j) = (complete(fs, before) as int, complete(fs, now) as int);
            &&& e is None
            &&& 0 <= i <= j <= fs.len()
            &&& frames == fs.subrange(i, j)
            &&& given(chunks, k + 1) == fs.subrange(0, j)
            &&& forall|m: int|
                0 <= m < fs.len() ==> (i <= m < j <==> before < #[trigger] end_of(fs, m) <= now)
        }),
        given(chunks, chunks.len() as int) == fs,
        waiting(chunks, chunks.len() as int).len() == 0,
{
    let a = joined_chunks(chunks, k);
    let c = chunks[k];
    let b = joined_chunks(chunks, k + 1);
    assert(b == a + c);
    lemma_fed_chunks(fs, chunks, k);
    lemma_fed_chunks(fs, chunks, k + 1);
    chunking_does_not_matter(a, c);
    let (before, now) = (a.len() as int, b.len() as int);
    let (i, j) = (complete(fs, before) as int, complete(fs, now) as int);
    let frames = cut(waiting(chunks, k) + c).0;
    assert(fs.subrange(0, j) == fs.subrange(0, i) + frames);
    assert(fs.subrange(0, j).len() == i + frames.len());
    assert forall|x: int| 0 <= x < frames.len() implies frames[x] == fs.subrange(i, j)[x] by {
        assert((fs.subrange(0, i) + frames)[i + x] == frames[x]);
    }
    assert(frames =~= fs.subrange(i, j));
    assert forall|m: int| 0 <= m < fs.len() implies (i <= m < j <==> before < #[trigger] end_of(
        fs,
        m,
    ) <= now) by {
        lemma_complete(fs, before, m);
        lemma_complete(fs, now, m);
    }
    let n = chunks.len() as int;
    lemma_fed_chunks(fs, chunks, n);
    let all = wire_of(fs);
    assert(all.subrange(0, all.len() as int) =~= all);
    lemma_cut_prefix(fs, all.len() as int);
    assert(fs.subrange(0, fs.len() as int) =~= fs);
    lemma_nothing_left(fs);
}

proof fn lemma_nothing_left(fs: Seq<FrameView>)
    requires
        sendable(fs),
    ensures
        cut(wire_of(fs)).1.len() == 0,
    decreases fs.len(),
{
    let t = wire_of(fs);
    if fs.len() == 0 {
        assert(frame_at(t) == Err::<(FrameView, int), FrameError>(FrameError::TooShort(0)));
    } else {
        let rest = fs.drop_first();
        assert forall|i: int| 0 <= i < rest.len() implies (#[trigger] rest[i]).session_id.len()
            == 16 && frame_fault(rest[i]) is None by {
            assert(rest[i] == fs[i + 1]);
        }
        lemma_nothing_left(rest);
        written_frames_are_read_back(fs[0], wire_of(rest));
    }
}

} // verus!
