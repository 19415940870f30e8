//! What the receive window makes of a stream that was cut into parts, whatever order the
//! parts arrive in and however often: no part is taken for a contradiction, what has been
//! delivered is a prefix of the stream after every part, and once all parts have come,
//! all of the stream has been delivered and nothing waits.
use vstd::prelude::*;

use crate::continuity::model::{
    advanced, delivery, drained, faithful, fed, fed_all, gaps_from, lemma_fed_all, parts_of,
    window_delivers_the_stream, GapOverflow, RecvView, SegmentActionView,
};
use crate::continuity::segments::{
    ascending, bytes_at, lemma_bytes_at, lemma_rank, rank, starts_at, total_bytes, with_segment, SegmentView,
};

verus! {

/// A window that nothing was fed to.
pub open spec fn fresh_window() -> RecvView {
    RecvView { expected: 0, gaps: Seq::empty(), history: Seq::empty(), unverifiable: 0 }
}

/// The bytes of a part (offset and length) of the stream `s`.
pub open spec fn part_bytes(s: Seq<u8>, part: (nat, nat)) -> Seq<u8> {
    s.subrange(part.0 as int, (part.0 + part.1) as int)
}

/// The window and the bytes delivered after the first `n` parts.
pub open spec fn after(
    s: Seq<u8>,
    parts: Seq<(nat, nat)>,
    n: int,
    gap_cap: usize,
    byte_cap: usize,
) -> (RecvView, Seq<u8>) {
    fed_all(fresh_window(), s, parts.subrange(0, n), gap_cap, byte_cap)
}

/// What the window answers to part `i`, after the parts before it.
pub open spec fn answer(
    s: Seq<u8>,
    parts: Seq<(nat, nat)>,
    i: int,
    gap_cap: usize,
    byte_cap: usize,
) -> Result<SegmentActionView, GapOverflow> {
    fed(
        after(s, parts, i, gap_cap, byte_cap).0,
        parts[i].0,
        part_bytes(s, parts[i]),
        gap_cap,
        byte_cap,
    ).1
}

/// No part begins within another.
pub open spec fn separate(parts: Seq<(nat, nat)>) -> bool {
    forall|i: int, j: int|
        0 <= i < parts.len() && 0 <= j < parts.len() ==> !((#[trigger] parts[i]).0 < (
        #[trigger] parts[j]).0 < parts[i].0 + parts[i].1)
}

/// The byte at `p` is in one of the parts.
pub open spec fn in_part(parts: Seq<(nat, nat)>, p: int) -> bool {
    exists|i: int|
        0 <= i < parts.len() && (#[trigger] parts[i]).0 <= p < parts[i].0 + parts[i].1
}

/// The parts make up all of a stream of length `len`.
pub open spec fn covering(parts: Seq<(nat, nat)>, len: nat) -> bool {
    forall|p: int| 0 <= p < len ==> #[trigger] in_part(parts, p)
}

proof fn lemma_parts_of_first(parts: Seq<(nat, nat)>, len: nat, n: int)
    requires
        parts_of(parts, len),
        0 <= n <= parts.len(),
    ensures
        parts_of(parts.subrange(0, n), len),
{
    let t = parts.subrange(0, n);
    assert forall|i: int| 0 <= i < t.len() implies (#[trigger] t[i]).0 + t[i].1 <= len by {
        assert(t[i] == parts[i]);
    }
    assert forall|i: int, j: int|
        0 <= i < t.len() && 0 <= j < t.len() && t[i].0 == t[j].0 implies #[trigger] t[i].1
        == #[trigger] t[j].1 by {
        assert(t[i] == parts[i] && t[j] == parts[j]);
        assert(parts[i].1 == parts[j].1);
    }
}

/// What holds after the first `n` parts.
proof fn lemma_after(s: Seq<u8>, parts: Seq<(nat, nat)>, n: int, gap_cap: usize, byte_cap: usize)
    requires
        s.len() <= u64::MAX,
        parts_of(parts, s.len()),
        0 <= n <= parts.len(),
    ensures
        ({
            let (w, log) = after(s, parts, n, gap_cap, byte_cap);
            &&& faithful(w, s)
            &&& log == s.subrange(0, w.expected as int)
            &&& gaps_from(w, parts)
        }),
{
    let t = parts.subrange(0, n);
    lemma_parts_of_first(parts, s.len(), n);
    assert(fresh_window().history =~= s.subrange(0, 0));
    lemma_fed_all(fresh_window(), s, t, gap_cap, byte_cap);
    let w = after(s, parts, n, gap_cap, byte_cap).0;
    assert forall|i: int| 0 <= i < w.gaps.len() implies exists|j: int|
        0 <= j < parts.len() && #[trigger] parts[j] == (
            (#[trigger] w.gaps[i]).offset,
            w.gaps[i].bytes.len(),
        ) by {
        let j = choose|j: int|
            0 <= j < t.len() && #[trigger] t[j] == (w.gaps[i].offset, w.gaps[i].bytes.len());
        assert(parts[j] == t[j]);
    }
}

/// A part whose offset waits already comes again with the bytes that wait.
proof fn lemma_same_length(w: RecvView, parts: Seq<(nat, nat)>, len: nat, k: int)
    requires
        parts_of(parts, len),
        ascending(w.gaps),
        gaps_from(w, parts),
        0 <= k < parts.len(),
    ensures
        forall|g: int|
            0 <= g < w.gaps.len() && (#[trigger] w.gaps[g]).offset == parts[k].0
                ==> w.gaps[g].bytes.len() == parts[k].1,
        starts_at(w.gaps, parts[k].0) ==> bytes_at(w.gaps, parts[k].0).len()
            == parts[k].1,
{
    assert forall|g: int|
        0 <= g < w.gaps.len() && (#[trigger] w.gaps[g]).offset
            == parts[k].0 implies w.gaps[g].bytes.len() == parts[k].1 by {
        let j = choose|j: int|
            0 <= j < parts.len() && #[trigger] parts[j] == (
                w.gaps[g].offset,
                w.gaps[g].bytes.len(),
            );
        assert(parts[j].1 == parts[k].1);
    }
    if starts_at(w.gaps, parts[k].0) {
        let g = choose|g: int|
            0 <= g < w.gaps.len() && #[trigger] w.gaps[g].offset == parts[k].0;
        lemma_bytes_at(w.gaps, g);
    }
}

/// However the parts of a stream arrive, no answer is that a part contradicts the stream,
/// and after every part the bytes delivered so far are the stream up to the expected offset.
pub proof fn parts_never_contradict(
    s: Seq<u8>,
    parts: Seq<(nat, nat)>,
    i: int,
    gap_cap: usize,
    byte_cap: usize,
)
    requires
        s.len() <= u64::MAX,
        parts_of(parts, s.len()),
        0 <= i < parts.len(),
    ensures
        !(answer(s, parts, i, gap_cap, byte_cap) matches Ok(a) && a is OverlapMismatch),
        ({
            let (w, log) = after(s, parts, i + 1, gap_cap, byte_cap);
            log == s.subrange(0, w.expected as int)
        }),
{
    lemma_after(s, parts, i, gap_cap, byte_cap);
    lemma_after(s, parts, i + 1, gap_cap, byte_cap);
    let w = after(s, parts, i, gap_cap, byte_cap).0;
    lemma_same_length(w, parts, s.len(), i);
    assert(parts[i].0 + parts[i].1 <= s.len());
    window_delivers_the_stream(w, s, parts[i].0, parts[i].1, gap_cap, byte_cap);
}

/// No part reaches across `e`.
spec fn clean(parts: Seq<(nat, nat)>, e: nat) -> bool {
    forall|k: int|
        0 <= k < parts.len() ==> (#[trigger] parts[k]).0 >= e || parts[k].0 + parts[k].1 <= e
}

proof fn lemma_clean(parts: Seq<(nat, nat)>, len: nat, j: int)
    requires
        parts_of(parts, len),
        separate(parts),
        0 <= j < parts.len(),
    ensures
        clean(parts, parts[j].0 + parts[j].1),
{
    let e = parts[j].0 + parts[j].1;
    assert forall|k: int| 0 <= k < parts.len() implies (#[trigger] parts[k]).0 >= e || parts[k].0
        + parts[k].1 <= e by {
        if parts[k].0 == parts[j].0 {
            assert(parts[k].1 == parts[j].1);
        }
        assert(!(parts[k].0 < parts[j].0 < parts[k].0 + parts[k].1));
        assert(!(parts[j].0 < parts[k].0 < parts[j].0 + parts[j].1));
    }
}

/// All that waits lies behind the expected offset, and a part that has come is delivered
/// or waits.
spec fn settled(w: RecvView, parts: Seq<(nat, nat)>, n: int) -> bool {
    &&& clean(parts, w.expected)
    &&& forall|g: int| 0 <= g < w.gaps.len() ==> (#[trigger] w.gaps[g]).offset > w.expected
    &&& forall|k: int|
        0 <= k < n ==> (#[trigger] parts[k]).0 + parts[k].1 <= w.expected || starts_at(
            w.gaps,
            parts[k].0,
        )
}

/// Draining stops before what lies behind a gap.
proof fn lemma_drained_settles(w: RecvView, parts: Seq<(nat, nat)>, len: nat)
    requires
        parts_of(parts, len),
        separate(parts),
        ascending(w.gaps),
        gaps_from(w, parts),
        clean(parts, w.expected),
        forall|g: int| 0 <= g < w.gaps.len() ==> (#[trigger] w.gaps[g]).offset >= w.expected,
    ensures
        ({
            let w2 = drained(w).0;
            &&& w.expected <= w2.expected
            &&& clean(parts, w2.expected)
            &&& forall|g: int|
                0 <= g < w2.gaps.len() ==> (#[trigger] w2.gaps[g]).offset > w2.expected
            &&& forall|g: int|
                0 <= g < w.gaps.len() ==> (#[trigger] w.gaps[g]).end() <= w2.expected || starts_at(
                    w2.gaps,
                    w.gaps[g].offset,
                )
        }),
    decreases w.gaps.len(),
{
    if w.gaps.len() > 0 && w.gaps[0].offset == w.expected {
        let b = w.gaps[0].bytes;
        let rest = w.gaps.drop_first();
        let w1 = advanced(RecvView { gaps: rest, ..w }, b);
        let j0 = choose|j: int|
            0 <= j < parts.len() && #[trigger] parts[j] == (w.gaps[0].offset, b.len());
        lemma_clean(parts, len, j0);
        assert forall|i: int, j: int| 0 <= i < j < rest.len() implies rest[i].offset
            < rest[j].offset by {
            assert(rest[i] == w.gaps[i + 1] && rest[j] == w.gaps[j + 1]);
        }
        assert forall|g: int| 0 <= g < rest.len() implies exists|j: int|
            0 <= j < parts.len() && #[trigger] parts[j] == (
                (#[trigger] w1.gaps[g]).offset,
                w1.gaps[g].bytes.len(),
            ) by {
            assert(rest[g] == w.gaps[g + 1]);
        }
        assert forall|g: int| 0 <= g < w1.gaps.len() implies (#[trigger] w1.gaps[g]).offset
            >= w1.expected by {
            assert(w1.gaps[g] == w.gaps[g + 1]);
            assert(w.gaps[0].offset < w.gaps[g + 1].offset);
            let j = choose|j: int|
                0 <= j < parts.len() && #[trigger] parts[j] == (
                    w.gaps[g + 1].offset,
                    w.gaps[g + 1].bytes.len(),
                );
            assert(!(parts[j0].0 < parts[j].0 < parts[j0].0 + parts[j0].1));
        }
        lemma_drained_settles(w1, parts, len);
        let w2 = drained(w1).0;
        assert(drained(w).0 == w2);
        assert forall|g: int| 0 <= g < w.gaps.len() implies (#[trigger] w.gaps[g]).end()
            <= w2.expected || starts_at(w2.gaps, w.gaps[g].offset) by {
            if g > 0 {
                assert(w1.gaps[g - 1] == w.gaps[g]);
            }
        }
    } else {
        assert(drained(w).0 == w);
        assert forall|g: int| 0 <= g < w.gaps.len() implies (#[trigger] w.gaps[g]).offset
            > w.expected by {
            if g > 0 {
                assert(w.gaps[0].offset < w.gaps[g].offset);
            }
        }
        assert forall|g: int| 0 <= g < w.gaps.len() implies starts_at(
            w.gaps,
            (#[trigger] w.gaps[g]).offset,
        ) by {
            lemma_bytes_at(w.gaps, g);
        }
    }
}

/// A part at the expected offset settles the window anew.
proof fn lemma_delivery_settles(w: RecvView, s: Seq<u8>, parts: Seq<(nat, nat)>, n: int)
    requires
        parts_of(parts, s.len()),
        separate(parts),
        ascending(w.gaps),
        gaps_from(w, parts),
        0 <= n < parts.len(),
        settled(w, parts, n),
        parts[n].0 == w.expected,
    ensures
        settled(delivery(w, part_bytes(s, parts[n])).0, parts, n + 1),
{
    let bytes = part_bytes(s, parts[n]);
    assert(parts[n].0 + parts[n].1 <= s.len());
    let w1 = advanced(w, bytes);
    lemma_clean(parts, s.len(), n);
    assert forall|g: int| 0 <= g < w1.gaps.len() implies (#[trigger] w1.gaps[g]).offset
        >= w1.expected by {
        let j = choose|j: int|
            0 <= j < parts.len() && #[trigger] parts[j] == (
                w.gaps[g].offset,
                w.gaps[g].bytes.len(),
            );
        assert(!(parts[n].0 < parts[j].0 < parts[n].0 + parts[n].1));
    }
    assert(gaps_from(w1, parts)) by {
        assert forall|g: int| 0 <= g < w1.gaps.len() implies exists|j: int|
            0 <= j < parts.len() && #[trigger] parts[j] == (
                (#[trigger] w1.gaps[g]).offset,
                w1.gaps[g].bytes.len(),
            ) by {
            assert(w1.gaps[g] == w.gaps[g]);
        }
    }
    lemma_drained_settles(w1, parts, s.len());
    let w2 = drained(w1).0;
    assert forall|k: int| 0 <= k < n + 1 implies (#[trigger] parts[k]).0 + parts[k].1
        <= w2.expected || starts_at(w2.gaps, parts[k].0) by {
        if k < n && parts[k].0 + parts[k].1 > w.expected {
            let g = choose|g: int|
                0 <= g < w.gaps.len() && #[trigger] w.gaps[g].offset == parts[k].0;
            lemma_same_length(w, parts, s.len(), k);
            assert(w1.gaps[g] == w.gaps[g]);
        }
    }
}

/// A part that is not refused leaves the window settled.
proof fn lemma_part_settles(
    w: RecvView,
    s: Seq<u8>,
    parts: Seq<(nat, nat)>,
    n: int,
    gap_cap: usize,
    byte_cap: usize,
)
    requires
        s.len() <= u64::MAX,
        parts_of(parts, s.len()),
        separate(parts),
        faithful(w, s),
        gaps_from(w, parts),
        0 <= n < parts.len(),
        settled(w, parts, n),
        fed(w, parts[n].0, part_bytes(s, parts[n]), gap_cap, byte_cap).1 is Ok,
    ensures
        settled(fed(w, parts[n].0, part_bytes(s, parts[n]), gap_cap, byte_cap).0, parts, n + 1),
{
    let (offset, len) = parts[n];
    let bytes = part_bytes(s, parts[n]);
    assert(parts[n].0 + parts[n].1 <= s.len());
    lemma_same_length(w, parts, s.len(), n);
    window_delivers_the_stream(w, s, offset, len, gap_cap, byte_cap);
    let w2 = fed(w, offset, bytes, gap_cap, byte_cap).0;
    if offset < w.expected {
        assert(w2.gaps == w.gaps && w2.expected == w.expected);
    } else if offset == w.expected {
        lemma_delivery_settles(w, s, parts, n);
    } else if starts_at(w.gaps, offset) {
        assert(w2 == w);
    } else {
        let x = SegmentView { offset, bytes };
        let i = rank(w.gaps, offset) as int;
        lemma_rank(w.gaps, offset);
        assert(w2.gaps == with_segment(w.gaps, x));
        assert(w2.gaps[i] == x);
        assert forall|g: int| 0 <= g < w2.gaps.len() implies (#[trigger] w2.gaps[g]).offset
            > w2.expected by {
            if g < i {
                assert(w2.gaps[g] == w.gaps[g]);
            } else if g > i {
                assert(w2.gaps[g] == w.gaps[g - 1]);
            }
        }
        assert forall|k: int| 0 <= k < n + 1 implies (#[trigger] parts[k]).0 + parts[k].1
            <= w2.expected || starts_at(w2.gaps, parts[k].0) by {
            if k < n && parts[k].0 + parts[k].1 > w.expected {
                let g = choose|g: int|
                    0 <= g < w.gaps.len() && #[trigger] w.gaps[g].offset == parts[k].0;
                if g < i {
                    assert(w2.gaps[g] == w.gaps[g]);
                } else {
                    assert(w2.gaps[g + 1] == w.gaps[g]);
                }
            }
        }
    }
}

proof fn lemma_after_settled(
    s: Seq<u8>,
    parts: Seq<(nat, nat)>,
    n: int,
    gap_cap: usize,
    byte_cap: usize,
)
    requires
        s.len() <= u64::MAX,
        parts_of(parts, s.len()),
        separate(parts),
        0 <= n <= parts.len(),
        forall|i: int|
            0 <= i < parts.len() ==> #[trigger] answer(s, parts, i, gap_cap, byte_cap) is Ok,
    ensures
        settled(after(s, parts, n, gap_cap, byte_cap).0, parts, n),
    decreases n,
{
    if n > 0 {
        lemma_after_settled(s, parts, n - 1, gap_cap, byte_cap);
        lemma_after(s, parts, n - 1, gap_cap, byte_cap);
        let w = after(s, parts, n - 1, gap_cap, byte_cap).0;
        assert(answer(s, parts, n - 1, gap_cap, byte_cap) is Ok);
        lemma_part_settles(w, s, parts, n - 1, gap_cap, byte_cap);
        let t = parts.subrange(0, n);
        assert(t.drop_last() =~= parts.subrange(0, n - 1));
        assert(t.last() == parts[n - 1]);
    }
}

/// Once every part of a stream has been fed, in any order and each any number of times, and
/// none was refused, all of the stream has been delivered, in order, and nothing waits.
pub proof fn all_parts_deliver_the_stream(
    s: Seq<u8>,
    parts: Seq<(nat, nat)>,
    gap_cap: usize,
    byte_cap: usize,
)
    requires
        s.len() <= u64::MAX,
        parts_of(parts, s.len()),
        separate(parts),
        covering(parts, s.len()),
        forall|i: int|
            0 <= i < parts.len() ==> #[trigger] answer(s, parts, i, gap_cap, byte_cap) is Ok,
    ensures
        ({
            let (w, log) = fed_all(fresh_window(), s, parts, gap_cap, byte_cap);
            &&& log == s
            &&& w.expected == s.len()
            &&& w.gaps.len() == 0
            &&& total_bytes(w.gaps) == 0
        }),
{
    let n = parts.len() as int;
    assert(parts.subrange(0, n) =~= parts);
    lemma_after(s, parts, n, gap_cap, byte_cap);
    lemma_after_settled(s, parts, n, gap_cap, byte_cap);
    let (w, log) = after(s, parts, n, gap_cap, byte_cap);
    if w.expected < s.len() {
        assert(in_part(parts, w.expected as int));
        let k = choose|k: int|
            0 <= k < parts.len() && (#[trigger] parts[k]).0 <= w.expected < parts[k].0
                + parts[k].1;
        let g = choose|g: int| 0 <= g < w.gaps.len() && #[trigger] w.gaps[g].offset == parts[k].0;
        assert(w.gaps[g].offset > w.expected);
    }
    assert(s.subrange(0, s.len() as int) =~= s);
    if w.gaps.len() > 0 {
        assert(w.gaps[0].offset > w.expected);
        assert(w.gaps[0].end() <= s.len());
    }
}

} // verus!
