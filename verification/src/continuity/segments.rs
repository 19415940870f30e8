//! Ordered segments of a byte stream: what the receive window holds back and the
//! send journal keeps for replay.
use vstd::prelude::*;

verus! {

/// A run of bytes at an offset of its stream.
#[derive(Debug, Clone, PartialEq, Eq)]
pub struct Segment {
    pub offset: u64,
    pub payload: Vec<u8>,
}

/// What a [`Segment`] holds.
pub struct SegmentView {
    pub offset: nat,
    pub bytes: Seq<u8>,
}

impl View for Segment {
    type V = SegmentView;

    open spec fn view(&self) -> SegmentView {
        SegmentView { offset: self.offset as nat, bytes: self.payload@ }
    }
}

impl SegmentView {
    /// The first offset behind the segment.
    pub open spec fn end(self) -> nat {
        self.offset + self.bytes.len()
    }
}

/// The views of a list of segments.
pub open spec fn segment_views(s: Seq<Segment>) -> Seq<SegmentView> {
    Seq::new(s.len(), |i: int| s[i]@)
}

/// Offsets grow strictly along the list.
pub open spec fn ascending(s: Seq<SegmentView>) -> bool {
    forall|i: int, j: int| 0 <= i < j < s.len() ==> s[i].offset < s[j].offset
}

/// Bytes held by all segments together.
pub open spec fn total_bytes(s: Seq<SegmentView>) -> nat
    decreases s.len(),
{
    if s.len() == 0 {
        0
    } else {
        s[0].bytes.len() + total_bytes(s.drop_first())
    }
}

/// Some segment starts at `offset`.
pub open spec fn starts_at(s: Seq<SegmentView>, offset: nat) -> bool {
    exists|i: int| 0 <= i < s.len() && #[trigger] s[i].offset == offset
}

/// The bytes of the segment that starts at `offset`.
pub open spec fn bytes_at(s: Seq<SegmentView>, offset: nat) -> Seq<u8> {
    s[choose|i: int| 0 <= i < s.len() && #[trigger] s[i].offset == offset].bytes
}

/// How many segments at the front of an ascending list start before `offset`.
pub open spec fn rank(s: Seq<SegmentView>, offset: nat) -> nat
    decreases s.len(),
{
    if s.len() == 0 || s[0].offset >= offset {
        0
    } else {
        1 + rank(s.drop_first(), offset)
    }
}

/// The list with one more segment, at its place in the order.
pub open spec fn with_segment(s: Seq<SegmentView>, x: SegmentView) -> Seq<SegmentView> {
    s.insert(rank(s, x.offset) as int, x)
}

pub proof fn lemma_total_split(s: Seq<SegmentView>, k: int)
    requires
        0 <= k <= s.len(),
    ensures
        total_bytes(s) == total_bytes(s.subrange(0, k)) + total_bytes(s.subrange(k, s.len() as int)),
    decreases k,
{
    if k == 0 {
        assert(s.subrange(0, s.len() as int) =~= s);
    } else {
        let t = s.drop_first();
        lemma_total_split(t, k - 1);
        assert(s.subrange(0, k).drop_first() =~= t.subrange(0, k - 1));
        assert(s.subrange(k, s.len() as int) =~= t.subrange(k - 1, t.len() as int));
    }
}

pub proof fn lemma_total_insert(s: Seq<SegmentView>, k: int, x: SegmentView)
    requires
        0 <= k <= s.len(),
    ensures
        total_bytes(s.insert(k, x)) == total_bytes(s) + x.bytes.len(),
{
    let t = s.insert(k, x);
    lemma_total_split(s, k);
    lemma_total_split(t, k);
    assert(t.subrange(0, k) =~= s.subrange(0, k));
    let u = t.subrange(k, t.len() as int);
    assert(u[0] == x);
    assert(u.drop_first() =~= s.subrange(k, s.len() as int));
}

pub proof fn lemma_total_push(s: Seq<SegmentView>, x: SegmentView)
    ensures
        total_bytes(s.push(x)) == total_bytes(s) + x.bytes.len(),
{
    assert(s.push(x) =~= s.insert(s.len() as int, x));
    lemma_total_insert(s, s.len() as int, x);
}

/// Where an offset belongs in an ascending list.
pub proof fn lemma_rank(s: Seq<SegmentView>, offset: nat)
    requires
        ascending(s),
    ensures
        rank(s, offset) <= s.len(),
        forall|i: int| 0 <= i < rank(s, offset) ==> (#[trigger] s[i]).offset < offset,
        forall|i: int| rank(s, offset) <= i < s.len() ==> (#[trigger] s[i]).offset >= offset,
    decreases s.len(),
{
    if s.len() > 0 && s[0].offset < offset {
        let t = s.drop_first();
        assert(ascending(t)) by {
            assert forall|i: int, j: int| 0 <= i < j < t.len() implies t[i].offset < t[j].offset by {
                assert(t[i] == s[i + 1] && t[j] == s[j + 1]);
            }
        }
        lemma_rank(t, offset);
        assert forall|i: int| 0 <= i < rank(s, offset) implies (#[trigger] s[i]).offset < offset by {
            if i > 0 {
                assert(s[i] == t[i - 1]);
            }
        }
        assert forall|i: int| rank(s, offset) <= i < s.len() implies (#[trigger] s[i]).offset
            >= offset by {
            assert(s[i] == t[i - 1]);
        }
    } else if s.len() > 0 {
        assert forall|i: int| 0 <= i < s.len() implies (#[trigger] s[i]).offset >= offset by {
            if i > 0 {
                assert(s[0].offset < s[i].offset);
            }
        }
    }
}

/// Adding a segment at a free offset keeps the order.
pub proof fn lemma_with_segment_ascending(s: Seq<SegmentView>, x: SegmentView)
    requires
        ascending(s),
        !starts_at(s, x.offset),
    ensures
        ascending(with_segment(s, x)),
        total_bytes(with_segment(s, x)) == total_bytes(s) + x.bytes.len(),
{
    lemma_rank(s, x.offset);
    let k = rank(s, x.offset) as int;
    let t = s.insert(k, x);
    lemma_total_insert(s, k, x);
    assert forall|i: int, j: int| 0 <= i < j < t.len() implies t[i].offset < t[j].offset by {
        let si = if i < k { s[i] } else if i == k { x } else { s[i - 1] };
        let sj = if j < k { s[j] } else if j == k { x } else { s[j - 1] };
        assert(t[i] == si && t[j] == sj);
        if i == k {
            assert(s[j - 1].offset != x.offset);
        }
    }
}

/// Index of the first segment that does not start before `offset`.
pub fn find_rank(s: &Vec<Segment>, offset: u64) -> (k: usize)
    requires
        ascending(segment_views(s@)),
    ensures
        k == rank(segment_views(s@), offset as nat),
        k <= s@.len(),
        k < s@.len() && s@[k as int].offset == offset <==> starts_at(
            segment_views(s@),
            offset as nat,
        ),
{
    let ghost v = segment_views(s@);
    let n: usize = s.len();
    let mut k: usize = 0;
    while k < n && s[k].offset < offset
        invariant
            k <= n,
            n == s@.len(),
            v == segment_views(s@),
            forall|i: int| 0 <= i < k ==> (#[trigger] s@[i]).offset < offset,
        decreases n - k,
    {
        k = k + 1;
    }
    proof {
        lemma_rank(v, offset as nat);
        let r = rank(v, offset as nat) as int;
        if k < r {
            assert(v[k as int].offset < offset);
        }
        if r < k {
            assert(v[r].offset >= offset);
            assert(s@[r].offset < offset);
        }
        if starts_at(v, offset as nat) {
            let i = choose|i: int| 0 <= i < v.len() && #[trigger] v[i].offset == offset;
            if i > r {
                assert(v[r].offset < v[i].offset);
            }
            assert(i == r);
        }
        if k < n && s@[k as int].offset == offset {
            assert(v[k as int].offset == offset);
        }
    }
    k
}

/// The bytes found at a known place of an ascending list.
pub proof fn lemma_bytes_at(s: Seq<SegmentView>, k: int)
    requires
        ascending(s),
        0 <= k < s.len(),
    ensures
        starts_at(s, s[k].offset),
        bytes_at(s, s[k].offset) == s[k].bytes,
{
    let off = s[k].offset;
    let i = choose|i: int| 0 <= i < s.len() && #[trigger] s[i].offset == off;
    if i < k {
        assert(s[i].offset < s[k].offset);
    } else if k < i {
        assert(s[k].offset < s[i].offset);
    }
}

/// Bytes held by all segments together.
pub fn sum_bytes(s: &Vec<Segment>) -> (r: usize)
    requires
        total_bytes(segment_views(s@)) <= usize::MAX,
    ensures
        r == total_bytes(segment_views(s@)),
{
    let ghost v = segment_views(s@);
    let n: usize = s.len();
    let mut sum: usize = 0;
    let mut i: usize = 0;
    assert(v.subrange(0, 0) =~= Seq::<SegmentView>::empty());
    while i < n
        invariant
            i <= n,
            n == s@.len(),
            v == segment_views(s@),
            total_bytes(v) <= usize::MAX,
            sum == total_bytes(v.subrange(0, i as int)),
        decreases n - i,
    {
        proof {
            let a = v.subrange(0, i as int);
            assert(v.subrange(0, i + 1) =~= a.push(v[i as int]));
            lemma_total_push(a, v[i as int]);
            lemma_total_split(v, i + 1);
        }
        sum = sum + s[i].payload.len();
        i = i + 1;
    }
    assert(v.subrange(0, n as int) =~= v);
    sum
}

} // verus!
