//! Frames that the session layer sends, and what it reads from an OPEN payload.
use vstd::prelude::*;
use vstd::string::*;
use vstd::utf8::{decode_utf8, encode_utf8, valid_utf8};

use crate::continuity::frame::{flags, Direction, Frame, FrameType, FrameView};
use crate::outside::{lossy_chars, utf8_lossy_text};
use crate::text::{
    ascii_bytes, ascii_chars, ascii_text, cat, cat5, chars_of, decimal, decimal_text, find_from,
    first_from, hex_chars, hex_str, occurs_at, skip_white, skip_white_from, text_range,
};

verus! {

/// Segments of one stream that go out in one round of a replay.
pub const REPLAY_PER_ROUND: usize = 4;

/// A frame with the given parts; control frames use stream 0 and offset 0.
pub open spec fn frame_view(
    t: FrameType,
    bits: u16,
    sid: Seq<u8>,
    stream: u64,
    direction: Direction,
    offset: u64,
    payload: Seq<u8>,
) -> FrameView {
    FrameView {
        frame_type: t,
        flags: bits,
        session_id: sid,
        stream_id: stream,
        direction,
        byte_offset: offset,
        payload,
    }
}

pub open spec fn ack_view(sid: Seq<u8>, stream: u64, direction: Direction, offset: u64) -> FrameView {
    frame_view(FrameType::Ack, 0, sid, stream, direction, offset, Seq::empty())
}

pub open spec fn reset_view(sid: Seq<u8>, stream: u64, direction: Direction) -> FrameView {
    frame_view(FrameType::Reset, flags::RESET, sid, stream, direction, 0, Seq::empty())
}

/// A frame with the given parts.
pub fn mk_frame(
    frame_type: FrameType,
    bits: u16,
    sid: [u8; 16],
    stream_id: u64,
    direction: Direction,
    byte_offset: u64,
    payload: Vec<u8>,
) -> (r: Frame)
    ensures
        r@ == frame_view(frame_type, bits, sid@, stream_id, direction, byte_offset, payload@),
{
    Frame {
        frame_type,
        flags: bits,
        session_id: sid,
        stream_id,
        direction,
        byte_offset,
        payload,
    }
}

/// Acknowledges `offset` of the data that flows in the given direction.
pub fn mk_ack(sid: [u8; 16], stream: u64, data_direction: Direction, offset: u64) -> (r: Frame)
    ensures
        r@ == ack_view(sid@, stream, data_direction, offset),
{
    let payload: Vec<u8> = Vec::new();
    assert(payload@ =~= Seq::<u8>::empty());
    mk_frame(FrameType::Ack, 0, sid, stream, data_direction, offset, payload)
}

/// Resets a stream; the direction is the sender's own.
pub fn mk_reset(sid: [u8; 16], stream: u64, send_direction: Direction) -> (r: Frame)
    ensures
        r@ == reset_view(sid@, stream, send_direction),
{
    let payload: Vec<u8> = Vec::new();
    assert(payload@ =~= Seq::<u8>::empty());
    mk_frame(FrameType::Reset, flags::RESET, sid, stream, send_direction, 0, payload)
}

/// The first four bytes of a session id in hexadecimal.
pub fn hex8(sid: &[u8; 16]) -> (r: String)
    ensures
        r@ == hex_chars(sid@.subrange(0, 4)),
{
    let head = vstd::slice::slice_subrange(sid.as_slice(), 0, 4);
    hex_str(head)
}

// ---- OPEN payload -----------------------------------------------------------------

/// `{"requestId":"<id>","idempotencyKey":"<key>"}`
pub open spec fn open_text(stream_id: u64, idem_key: Seq<char>) -> Seq<char> {
    "{\"requestId\":\""@ + decimal(stream_id as nat) + "\",\"idempotencyKey\":\""@ + idem_key
        + "\"}"@
}

/// The OPEN payload of a stream that carries nothing but its idempotency key.
pub fn open_payload(stream_id: u64, idem_key: &str) -> (r: Vec<u8>)
    ensures
        r@ == encode_utf8(open_text(stream_id, idem_key@)),
{
    let id = decimal_text(stream_id);
    let s = cat5(
        "{\"requestId\":\"",
        id.as_str(),
        "\",\"idempotencyKey\":\"",
        idem_key,
        "\"}",
    );
    vstd::slice::slice_to_vec(s.as_str().as_bytes())
}

/// What stands in quotes behind the first `"idempotencyKey"` and a colon, if the text
/// has that shape there.
pub open spec fn quoted_key(s: Seq<char>) -> Option<Seq<char>> {
    let key = "\"idempotencyKey\""@;
    match first_from(s, key, 0) {
        None => None,
        Some(i) => {
            let colon = skip_white(s.subrange(i + key.len(), s.len() as int));
            if colon.len() == 0 || colon[0] != ':' {
                None
            } else {
                let open = skip_white(colon.subrange(1, colon.len() as int));
                if open.len() == 0 || open[0] != '"' {
                    None
                } else {
                    let body = open.subrange(1, open.len() as int);
                    match first_from(body, seq!['"'], 0) {
                        None => None,
                        Some(end) => Some(body.subrange(0, end)),
                    }
                }
            }
        },
    }
}

/// The idempotency key of an OPEN text: the quoted one, else `auto-` and the length of
/// the text in bytes.
pub open spec fn idem_key_of(s: Seq<char>) -> Seq<char> {
    match quoted_key(s) {
        Some(k) => k,
        None => "auto-"@ + decimal(encode_utf8(s).len()),
    }
}

/// Finds the quoted key.
fn find_quoted_key(v: &Vec<char>) -> (r: Option<String>)
    ensures
        match quoted_key(v@) {
            Some(k) => r is Some && r->0@ == k,
            None => r is None,
        },
{
    let n: usize = v.len();
    let key = chars_of("\"idempotencyKey\"");
    let at: usize = match find_from(v, &key, 0) {
        Some(i) => i,
        None => return None,
    };
    let colon: usize = skip_white_from(v, at + key.len());
    let ghost c = v@.subrange(colon as int, n as int);
    if colon == n {
        return None;
    }
    assert(c[0] == v@[colon as int]);
    if v[colon] != ':' {
        return None;
    }
    assert(c.subrange(1, c.len() as int) =~= v@.subrange(colon + 1, n as int));
    let open: usize = skip_white_from(v, colon + 1);
    let ghost o = v@.subrange(open as int, n as int);
    if open == n {
        return None;
    }
    assert(o[0] == v@[open as int]);
    if v[open] != '"' {
        return None;
    }
    let ghost body = v@.subrange(open + 1, n as int);
    assert(o.subrange(1, o.len() as int) =~= body);
    let mut quote: Vec<char> = Vec::new();
    quote.push('"');
    assert(quote@ =~= seq!['"']);
    let start: usize = open + 1;
    proof {
        lemma_first_from_shift(v@, seq!['"'], start as int, start as int);
    }
    match find_from(v, &quote, start) {
        Some(end) => {
            assert(v@.subrange(start as int, end as int) =~= body.subrange(0, end - start));
            Some(text_range(v, start, end))
        },
        None => None,
    }
}

/// Searching a tail is searching the whole from there on.
proof fn lemma_first_from_shift(s: Seq<char>, needle: Seq<char>, start: int, from: int)
    requires
        0 <= start <= from,
        start <= s.len(),
    ensures
        ({
            let tail = s.subrange(start, s.len() as int);
            match first_from(s, needle, from) {
                Some(i) => first_from(tail, needle, from - start) == Some(i - start),
                None => first_from(tail, needle, from - start) is None,
            }
        }),
    decreases s.len() + 1 - from,
{
    let tail = s.subrange(start, s.len() as int);
    if from + needle.len() <= s.len() {
        assert(tail.subrange(from - start, from - start + needle.len()) =~= s.subrange(
            from,
            from + needle.len(),
        ));
        lemma_first_from_shift(s, needle, start, from + 1);
    }
}

/// The idempotency key of an OPEN text.
pub fn idem_key_of_text(text: &str) -> (r: String)
    ensures
        r@ == idem_key_of(text@),
{
    let v = chars_of(text);
    match find_quoted_key(&v) {
        Some(k) => k,
        None => {
            let n = decimal_text(text.as_bytes().len() as u64);
            cat("auto-", n.as_str())
        },
    }
}

proof fn lemma_ascii_all(s: Seq<char>)
    requires
        forall|i: int| 0 <= i < s.len() ==> (#[trigger] s[i] as u32) < 128,
    ensures
        ascii_chars(s) == s,
    decreases s.len(),
{
    reveal(Seq::filter);
    if s.len() > 0 {
        let t = s.drop_last();
        assert forall|i: int| 0 <= i < t.len() implies (#[trigger] t[i] as u32) < 128 by {
            assert(t[i] == s[i]);
        }
        lemma_ascii_all(t);
        assert((s[s.len() - 1] as u32) < 128);
        assert(t.push(s.last()) =~= s);
    }
}

/// What is found somewhere is found from every earlier place on.
proof fn lemma_found(s: Seq<char>, needle: Seq<char>, from: int, at: int)
    requires
        0 <= from <= at,
        occurs_at(s, needle, at),
    ensures
        first_from(s, needle, from) is Some,
    decreases at - from,
{
    if from < at {
        lemma_found(s, needle, from + 1, at);
    }
}

proof fn lemma_first_occurs(s: Seq<char>, needle: Seq<char>, from: int)
    requires
        0 <= from,
        first_from(s, needle, from) is Some,
    ensures
        from <= first_from(s, needle, from)->0,
        occurs_at(s, needle, first_from(s, needle, from)->0),
    decreases s.len() + 1 - from,
{
    if !occurs_at(s, needle, from) {
        lemma_first_occurs(s, needle, from + 1);
    }
}

/// ASCII characters that stand together in a text stand together among its ASCII characters.
proof fn lemma_found_among_ascii(s: Seq<char>, needle: Seq<char>)
    requires
        forall|i: int| 0 <= i < needle.len() ==> (#[trigger] needle[i] as u32) < 128,
        first_from(s, needle, 0) is Some,
    ensures
        first_from(ascii_chars(s), needle, 0) is Some,
{
    let at = first_from(s, needle, 0)->0;
    lemma_first_occurs(s, needle, 0);
    let a = s.subrange(0, at);
    let c = s.subrange(at + needle.len(), s.len() as int);
    assert(s =~= a + needle + c);
    let f = |c: char| (c as u32) < 128;
    Seq::filter_distributes_over_add(a + needle, c, f);
    Seq::filter_distributes_over_add(a, needle, f);
    lemma_ascii_all(needle);
    let k = ascii_chars(a).len() as int;
    assert(ascii_chars(s) == ascii_chars(a) + needle + ascii_chars(c));
    assert(ascii_chars(s).subrange(k, k + needle.len()) =~= needle);
    lemma_found(ascii_chars(s), needle, 0, k);
}

/// A payload whose ASCII bytes do not name a key has none, whatever its other bytes are.
proof fn lemma_no_key(s: Seq<char>)
    requires
        first_from(ascii_chars(s), "\"idempotencyKey\""@, 0) is None,
    ensures
        quoted_key(s) is None,
{
    let needle = "\"idempotencyKey\""@;
    reveal_strlit("\"idempotencyKey\"");
    if first_from(s, needle, 0) is Some {
        lemma_found_among_ascii(s, needle);
    }
}

/// The idempotency key of an OPEN payload; bytes that are not UTF-8 are replaced first, and
/// ASCII bytes come through in order.
pub fn parse_idem_key(payload: &[u8]) -> (r: String)
    ensures
        r@ == idem_key_of(lossy_chars(payload@)),
        valid_utf8(payload@) ==> r@ == idem_key_of(decode_utf8(payload@)),
        ascii_chars(lossy_chars(payload@)) == ascii_text(ascii_bytes(payload@)),
        first_from(ascii_text(ascii_bytes(payload@)), "\"idempotencyKey\""@, 0) is None ==> r@
            == "auto-"@ + decimal(encode_utf8(lossy_chars(payload@)).len()),
{
    let text = utf8_lossy_text(payload);
    proof {
        if first_from(ascii_chars(text@), "\"idempotencyKey\""@, 0) is None {
            lemma_no_key(text@);
        }
    }
    idem_key_of_text(text.as_str())
}

// ---- replay order -----------------------------------------------------------------

/// The outstanding segments of the streams: stream id and `(offset, payload)` list.
pub type Batches = Vec<(u64, Vec<(u64, Vec<u8>)>)>;

pub open spec fn batch_views(b: Seq<(u64, Vec<(u64, Vec<u8>)>)>) -> Seq<(u64, Seq<(u64, Seq<u8>)>)> {
    Seq::new(b.len(), |i: int| (b[i].0, part_views(b[i].1@)))
}

pub open spec fn part_views(p: Seq<(u64, Vec<u8>)>) -> Seq<(u64, Seq<u8>)> {
    Seq::new(p.len(), |i: int| (p[i].0, p[i].1@))
}

pub open spec fn item_views(p: Seq<(u64, u64, Vec<u8>)>) -> Seq<(u64, u64, Seq<u8>)> {
    Seq::new(p.len(), |i: int| (p[i].0, p[i].1, p[i].2@))
}

/// Where a list of `n` stands at the beginning of round `r`.
pub open spec fn cursor(n: nat, r: nat) -> nat {
    if REPLAY_PER_ROUND * r <= n {
        (REPLAY_PER_ROUND * r) as nat
    } else {
        n
    }
}

/// The segments `from..to` of one stream.
pub open spec fn slice_of(b: (u64, Seq<(u64, Seq<u8>)>), from: int, to: int) -> Seq<
    (u64, u64, Seq<u8>),
> {
    Seq::new((to - from) as nat, |k: int| (b.0, b.1[from + k].0, b.1[from + k].1))
}

/// What round `r` sends of the first `i` streams.
pub open spec fn round(b: Seq<(u64, Seq<(u64, Seq<u8>)>)>, r: nat, i: nat) -> Seq<
    (u64, u64, Seq<u8>),
>
    decreases i,
{
    if i == 0 {
        Seq::empty()
    } else {
        let x = b[i - 1];
        round(b, r, (i - 1) as nat) + slice_of(
            x,
            cursor(x.1.len(), r) as int,
            cursor(x.1.len(), r + 1) as int,
        )
    }
}

/// Some stream has segments left at the beginning of round `r`.
pub open spec fn unfinished(b: Seq<(u64, Seq<(u64, Seq<u8>)>)>, r: nat) -> bool {
    exists|i: int| 0 <= i < b.len() && (#[trigger] b[i]).1.len() > REPLAY_PER_ROUND * r
}

/// The length of the longest list.
pub open spec fn longest(b: Seq<(u64, Seq<(u64, Seq<u8>)>)>) -> nat
    decreases b.len(),
{
    if b.len() == 0 {
        0
    } else {
        let m = longest(b.drop_last());
        if b.last().1.len() > m {
            b.last().1.len()
        } else {
            m
        }
    }
}

/// The first `r` rounds.
pub open spec fn rounds(b: Seq<(u64, Seq<(u64, Seq<u8>)>)>, r: nat) -> Seq<(u64, u64, Seq<u8>)>
    decreases r,
{
    if r == 0 {
        Seq::empty()
    } else {
        rounds(b, (r - 1) as nat) + round(b, (r - 1) as nat, b.len())
    }
}

/// The streams in turn, a few segments of each per round, until none has any left.
pub open spec fn interleaved(b: Seq<(u64, Seq<(u64, Seq<u8>)>)>) -> Seq<(u64, u64, Seq<u8>)> {
    rounds(b, longest(b))
}

proof fn lemma_longest(b: Seq<(u64, Seq<(u64, Seq<u8>)>)>, i: int)
    requires
        0 <= i < b.len(),
    ensures
        b[i].1.len() <= longest(b),
    decreases b.len(),
{
    if i < b.len() - 1 {
        lemma_longest(b.drop_last(), i);
    }
}

/// A round in which every stream is done sends nothing.
proof fn lemma_round_done(b: Seq<(u64, Seq<(u64, Seq<u8>)>)>, r: nat, i: nat)
    requires
        i <= b.len(),
        !unfinished(b, r),
    ensures
        round(b, r, i) == Seq::<(u64, u64, Seq<u8>)>::empty(),
    decreases i,
{
    if i > 0 {
        lemma_round_done(b, r, (i - 1) as nat);
        let x = b[i - 1];
        assert(x.1.len() <= REPLAY_PER_ROUND * r);
        assert(REPLAY_PER_ROUND * (r + 1) >= REPLAY_PER_ROUND * r) by (nonlinear_arith)
            requires
                REPLAY_PER_ROUND >= 0,
        ;
        assert(cursor(x.1.len(), r) == x.1.len());
        assert(cursor(x.1.len(), r + 1) == x.1.len());
        assert(round(b, r, i) =~= Seq::<(u64, u64, Seq<u8>)>::empty());
    }
}

/// Rounds behind the end add nothing.
proof fn lemma_rounds_done(b: Seq<(u64, Seq<(u64, Seq<u8>)>)>, r: nat, m: nat)
    requires
        r <= m,
        !unfinished(b, r),
    ensures
        rounds(b, m) == rounds(b, r),
    decreases m,
{
    if r < m {
        lemma_rounds_done(b, r, (m - 1) as nat);
        assert(!unfinished(b, (m - 1) as nat)) by {
            assert(REPLAY_PER_ROUND * (m - 1) >= REPLAY_PER_ROUND * r) by (nonlinear_arith)
                requires
                    REPLAY_PER_ROUND >= 0,
                    m - 1 >= r,
            ;
        }
        lemma_round_done(b, (m - 1) as nat, b.len());
        assert(rounds(b, m) =~= rounds(b, (m - 1) as nat));
    }
}

/// `n`, or the largest index where `n` exceeds it.
spec fn capped(n: int) -> int {
    if n <= usize::MAX {
        n
    } else {
        usize::MAX as int
    }
}

/// Orders the outstanding segments of all streams for sending again.
pub fn interleave_replay(batches: Batches) -> (out: Vec<(u64, u64, Vec<u8>)>)
    ensures
        item_views(out@) == interleaved(batch_views(batches@)),
{
    let ghost b = batch_views(batches@);
    let n: usize = batches.len();
    let mut out: Vec<(u64, u64, Vec<u8>)> = Vec::new();
    assert(item_views(out@) =~= Seq::<(u64, u64, Seq<u8>)>::empty());
    let ghost mut r: nat = 0;
    let mut start: usize = 0;
    loop
        invariant
            n == batches@.len(),
            b == batch_views(batches@),
            start == capped(REPLAY_PER_ROUND * r),
            r <= longest(b) + 1,
            r > 0 ==> unfinished(b, (r - 1) as nat),
            item_views(out@) == rounds(b, r),
        ensures
            item_views(out@) == interleaved(b),
        decreases longest(b) + 1 - r,
    {
        let mut progressed = false;
        let mut i: usize = 0;
        let ghost sent = item_views(out@);
        assert(sent + round(b, r, 0) =~= sent);
        while i < n
            invariant
                i <= n,
                n == batches@.len(),
                b == batch_views(batches@),
                start == capped(REPLAY_PER_ROUND * r),
                item_views(out@) == sent + round(b, r, i as nat),
                progressed <==> exists|k: int|
                    0 <= k < i && (#[trigger] b[k]).1.len() > REPLAY_PER_ROUND * r,
            decreases n - i,
        {
            let ghost x = b[i as int];
            let len: usize = batches[i].1.len();
            let from: usize = if start <= len { start } else { len };
            let to: usize = if len - from <= REPLAY_PER_ROUND { len } else { from + REPLAY_PER_ROUND };
            assert(REPLAY_PER_ROUND * (r + 1) == REPLAY_PER_ROUND * r + REPLAY_PER_ROUND)
                by (nonlinear_arith);
            assert(from == cursor(x.1.len(), r) && to == cursor(x.1.len(), r + 1));
            let mut j: usize = from;
            let ghost before = item_views(out@);
            assert(before + slice_of(x, from as int, from as int) =~= before);
            while j < to
                invariant
                    from <= j <= to <= batches@[i as int].1@.len(),
                    i < n,
                    n == batches@.len(),
                    b == batch_views(batches@),
                    x == b[i as int],
                    item_views(out@) == before + slice_of(x, from as int, j as int),
                decreases to - j,
            {
                let p = vstd::slice::slice_to_vec(batches[i].1[j].1.as_slice());
                let ghost o = item_views(out@);
                out.push((batches[i].0, batches[i].1[j].0, p));
                assert(item_views(out@) =~= o.push((x.0, x.1[j as int].0, x.1[j as int].1)));
                assert(o.push((x.0, x.1[j as int].0, x.1[j as int].1)) =~= before + slice_of(
                    x,
                    from as int,
                    j + 1,
                ));
                j = j + 1;
            }
            if from < to {
                assert(b[i as int].1.len() > REPLAY_PER_ROUND * r);
                progressed = true;
            }
            assert(sent + round(b, r, i as nat) + slice_of(x, from as int, to as int) =~= sent
                + round(b, r, (i + 1) as nat));
            i = i + 1;
        }
        proof {
            assert(b.len() == n);
            assert(round(b, r, n as nat) == round(b, r, b.len()));
            assert(item_views(out@) == rounds(b, r + 1));
        }
        if !progressed {
            proof {
                assert(!unfinished(b, r));
                lemma_round_done(b, r, b.len());
                assert(item_views(out@) =~= rounds(b, r));
                if r <= longest(b) {
                    lemma_rounds_done(b, r, longest(b));
                } else {
                    let k = choose|k: int|
                        0 <= k < b.len() && (#[trigger] b[k]).1.len() > REPLAY_PER_ROUND * (r - 1);
                    lemma_longest(b, k);
                    assert(false);
                }
            }
            break;
        }
        proof {
            let k = choose|k: int|
                0 <= k < n && (#[trigger] b[k]).1.len() > REPLAY_PER_ROUND * r;
            lemma_longest(b, k);
            assert(unfinished(b, r));
            assert(REPLAY_PER_ROUND * (r + 1) == REPLAY_PER_ROUND * r + REPLAY_PER_ROUND)
                by (nonlinear_arith);
            r = r + 1;
        }
        start = if start <= usize::MAX - REPLAY_PER_ROUND {
            start + REPLAY_PER_ROUND
        } else {
            usize::MAX
        };
    }
    out
}

/// The first segments of the first `i` streams, as many as are sent before round `r`.
pub open spec fn sent_before(b: Seq<(u64, Seq<(u64, Seq<u8>)>)>, r: nat, i: nat) -> Seq<
    (u64, u64, Seq<u8>),
>
    decreases i,
{
    if i == 0 {
        Seq::empty()
    } else {
        let x = b[i - 1];
        sent_before(b, r, (i - 1) as nat) + slice_of(x, 0, cursor(x.1.len(), r) as int)
    }
}

/// All segments of the first `i` streams, stream after stream.
pub open spec fn outstanding(b: Seq<(u64, Seq<(u64, Seq<u8>)>)>, i: nat) -> Seq<
    (u64, u64, Seq<u8>),
>
    decreases i,
{
    if i == 0 {
        Seq::empty()
    } else {
        let x = b[i - 1];
        outstanding(b, (i - 1) as nat) + slice_of(x, 0, x.1.len() as int)
    }
}

proof fn lemma_cursor(n: nat, r: nat)
    ensures
        cursor(n, r) <= cursor(n, r + 1) <= n,
        cursor(n, r + 1) <= cursor(n, r) + REPLAY_PER_ROUND,
{
    assert(REPLAY_PER_ROUND * (r + 1) == REPLAY_PER_ROUND * r + REPLAY_PER_ROUND)
        by (nonlinear_arith);
}

proof fn lemma_round_counts(b: Seq<(u64, Seq<(u64, Seq<u8>)>)>, r: nat, i: nat)
    requires
        i <= b.len(),
    ensures
        sent_before(b, r + 1, i).to_multiset() == sent_before(b, r, i).to_multiset().add(
            round(b, r, i).to_multiset(),
        ),
    decreases i,
{
    if i == 0 {
        let none = Seq::<(u64, u64, Seq<u8>)>::empty();
        none.to_multiset_ensures();
        assert(none.to_multiset() =~= none.to_multiset().add(none.to_multiset()));
    } else {
        let j = (i - 1) as nat;
        let x = b[i - 1];
        let (from, to) = (cursor(x.1.len(), r) as int, cursor(x.1.len(), r + 1) as int);
        lemma_cursor(x.1.len(), r);
        lemma_round_counts(b, r, j);
        let first = slice_of(x, 0, from);
        let more = slice_of(x, from, to);
        assert(slice_of(x, 0, to) =~= first + more);
        vstd::seq_lib::lemma_multiset_commutative(first, more);
        vstd::seq_lib::lemma_multiset_commutative(sent_before(b, r + 1, j), slice_of(x, 0, to));
        vstd::seq_lib::lemma_multiset_commutative(sent_before(b, r, j), first);
        vstd::seq_lib::lemma_multiset_commutative(round(b, r, j), more);
        assert(sent_before(b, r + 1, i).to_multiset() =~= sent_before(
            b,
            r,
            i,
        ).to_multiset().add(round(b, r, i).to_multiset()));
    }
}

proof fn lemma_nothing_sent(b: Seq<(u64, Seq<(u64, Seq<u8>)>)>, i: nat)
    requires
        i <= b.len(),
    ensures
        sent_before(b, 0, i) == Seq::<(u64, u64, Seq<u8>)>::empty(),
    decreases i,
{
    if i > 0 {
        lemma_nothing_sent(b, (i - 1) as nat);
        assert(cursor(b[i - 1].1.len(), 0) == 0);
        assert(sent_before(b, 0, i) =~= Seq::<(u64, u64, Seq<u8>)>::empty());
    }
}

proof fn lemma_all_sent(b: Seq<(u64, Seq<(u64, Seq<u8>)>)>, i: nat)
    requires
        i <= b.len(),
    ensures
        sent_before(b, longest(b), i) == outstanding(b, i),
    decreases i,
{
    if i > 0 {
        lemma_all_sent(b, (i - 1) as nat);
        lemma_longest(b, i - 1);
        let m = longest(b);
        assert(REPLAY_PER_ROUND * m >= m) by (nonlinear_arith)
            requires
                REPLAY_PER_ROUND >= 1,
        ;
    }
}

proof fn lemma_rounds_count(b: Seq<(u64, Seq<(u64, Seq<u8>)>)>, r: nat)
    ensures
        rounds(b, r).to_multiset() == sent_before(b, r, b.len()).to_multiset(),
    decreases r,
{
    if r == 0 {
        lemma_nothing_sent(b, b.len());
    } else {
        let q = (r - 1) as nat;
        lemma_rounds_count(b, q);
        lemma_round_counts(b, q, b.len());
        vstd::seq_lib::lemma_multiset_commutative(rounds(b, q), round(b, q, b.len()));
    }
}

/// A replay sends every outstanding segment of every stream exactly once, and nothing else.
pub proof fn interleaving_sends_every_segment_once(b: Seq<(u64, Seq<(u64, Seq<u8>)>)>)
    ensures
        interleaved(b).to_multiset() == outstanding(b, b.len()).to_multiset(),
        interleaved(b).len() == outstanding(b, b.len()).len(),
{
    lemma_rounds_count(b, longest(b));
    lemma_all_sent(b, b.len());
    interleaved(b).to_multiset_ensures();
    outstanding(b, b.len()).to_multiset_ensures();
}

/// Where segment `k` of stream `i` stands in a replay: behind the rounds before its own,
/// behind the streams before its own in that round, and behind the segments before it in
/// that turn.
pub open spec fn place_of(b: Seq<(u64, Seq<(u64, Seq<u8>)>)>, i: int, k: int) -> int {
    let r = (k / REPLAY_PER_ROUND as int) as nat;
    rounds(b, r).len() + round(b, r, i as nat).len() + k % REPLAY_PER_ROUND as int
}

/// A replay goes in rounds: in each, the streams take turns in their order, and a turn sends
/// the next four segments of the stream, or those that are left.
pub proof fn interleaving_goes_in_rounds(b: Seq<(u64, Seq<(u64, Seq<u8>)>)>, i: int, k: int)
    requires
        0 <= i < b.len(),
        0 <= k < b[i].1.len(),
    ensures
        0 <= place_of(b, i, k) < interleaved(b).len(),
        interleaved(b)[place_of(b, i, k)] == (b[i].0, b[i].1[k].0, b[i].1[k].1),
{
    let p = REPLAY_PER_ROUND as int;
    let r = (k / p) as nat;
    let n = b[i].1.len();
    let m = longest(b);
    assert(p == 4);
    lemma_longest(b, i);
    lemma_cursor(n, r);
    assert(cursor(n, r) == 4 * r);
    assert(cursor(n, r + 1) > k);
    assert(r + 1 <= m);
    lemma_rounds_prefix(b, r + 1, m);
    lemma_round_prefix(b, r, (i + 1) as nat, b.len());
    let turn = slice_of(b[i], cursor(n, r) as int, cursor(n, r + 1) as int);
    assert(turn[k % p] == (b[i].0, b[i].1[k].0, b[i].1[k].1));
    let before = round(b, r, i as nat);
    let whole = round(b, r, b.len());
    assert(round(b, r, (i + 1) as nat) == before + turn);
    assert(whole[before.len() + k % p] == turn[k % p]);
    let earlier = rounds(b, r);
    assert(rounds(b, r + 1) == earlier + whole);
    assert(rounds(b, r + 1)[earlier.len() + before.len() + k % p] == whole[before.len() + k % p]);
}

proof fn lemma_rounds_prefix(b: Seq<(u64, Seq<(u64, Seq<u8>)>)>, r: nat, m: nat)
    requires
        r <= m,
    ensures
        rounds(b, r).len() <= rounds(b, m).len(),
        forall|x: int| 0 <= x < rounds(b, r).len() ==> #[trigger] rounds(b, m)[x] == rounds(b, r)[x],
    decreases m,
{
    if r < m {
        lemma_rounds_prefix(b, r, (m - 1) as nat);
    }
}

proof fn lemma_round_prefix(b: Seq<(u64, Seq<(u64, Seq<u8>)>)>, r: nat, i: nat, n: nat)
    requires
        i <= n <= b.len(),
    ensures
        round(b, r, i).len() <= round(b, r, n).len(),
        forall|x: int|
            0 <= x < round(b, r, i).len() ==> #[trigger] round(b, r, n)[x] == round(b, r, i)[x],
    decreases n,
{
    if i < n {
        lemma_round_prefix(b, r, i, (n - 1) as nat);
    }
}

/// Of each stream, a replay sends every segment once, in the order of the stream.
pub proof fn interleaving_keeps_each_stream_in_order(b: Seq<(u64, Seq<(u64, Seq<u8>)>)>, i: int)
    requires
        0 <= i < b.len(),
        forall|j: int, k: int|
            0 <= j < b.len() && 0 <= k < b.len() && j != k ==> (#[trigger] b[j]).0 != (#[trigger] b[k]).0,
    ensures
        interleaved(b).filter(|x: (u64, u64, Seq<u8>)| x.0 == b[i].0) == slice_of(
            b[i],
            0,
            b[i].1.len() as int,
        ),
{
    lemma_longest(b, i);
    lemma_rounds_of_stream(b, i, longest(b));
    let n = b[i].1.len();
    let m = longest(b);
    assert(REPLAY_PER_ROUND * m >= m) by (nonlinear_arith)
        requires
            REPLAY_PER_ROUND >= 1,
    ;
    assert(cursor(n, m) == n);
}

proof fn lemma_rounds_of_stream(b: Seq<(u64, Seq<(u64, Seq<u8>)>)>, i: int, r: nat)
    requires
        0 <= i < b.len(),
        forall|j: int, k: int|
            0 <= j < b.len() && 0 <= k < b.len() && j != k ==> (#[trigger] b[j]).0 != (#[trigger] b[k]).0,
    ensures
        rounds(b, r).filter(|x: (u64, u64, Seq<u8>)| x.0 == b[i].0) == slice_of(
            b[i],
            0,
            cursor(b[i].1.len(), r) as int,
        ),
    decreases r,
{
    let pred = |x: (u64, u64, Seq<u8>)| x.0 == b[i].0;
    let n = b[i].1.len();
    if r == 0 {
        assert(rounds(b, r).filter(pred) =~= Seq::empty()) by {
            reveal(Seq::filter);
        }
        assert(cursor(n, 0) == 0);
        assert(slice_of(b[i], 0, 0) =~= Seq::empty());
    } else {
        let q = (r - 1) as nat;
        lemma_rounds_of_stream(b, i, q);
        lemma_round_of_stream(b, i, q, b.len());
        Seq::filter_distributes_over_add(rounds(b, q), round(b, q, b.len()), pred);
        let c0 = cursor(n, q) as int;
        let c1 = cursor(n, r) as int;
        assert(REPLAY_PER_ROUND * q <= REPLAY_PER_ROUND * r) by (nonlinear_arith)
            requires
                REPLAY_PER_ROUND >= 0,
                q <= r,
        ;
        assert(slice_of(b[i], 0, c0) + slice_of(b[i], c0, c1) =~= slice_of(b[i], 0, c1));
    }
}

proof fn lemma_round_of_stream(b: Seq<(u64, Seq<(u64, Seq<u8>)>)>, i: int, r: nat, m: nat)
    requires
        0 <= i < b.len(),
        m <= b.len(),
        forall|j: int, k: int|
            0 <= j < b.len() && 0 <= k < b.len() && j != k ==> (#[trigger] b[j]).0 != (#[trigger] b[k]).0,
    ensures
        round(b, r, m).filter(|x: (u64, u64, Seq<u8>)| x.0 == b[i].0) == if i < m {
            slice_of(b[i], cursor(b[i].1.len(), r) as int, cursor(b[i].1.len(), r + 1) as int)
        } else {
            Seq::empty()
        },
    decreases m,
{
    let pred = |x: (u64, u64, Seq<u8>)| x.0 == b[i].0;
    if m == 0 {
        assert(round(b, r, m).filter(pred) =~= Seq::empty()) by {
            reveal(Seq::filter);
        }
    } else {
        let k = (m - 1) as nat;
        lemma_round_of_stream(b, i, r, k);
        let x = b[k as int];
        let part = slice_of(x, cursor(x.1.len(), r) as int, cursor(x.1.len(), r + 1) as int);
        Seq::filter_distributes_over_add(round(b, r, k), part, pred);
        if k == i {
            lemma_filter_all(part, pred);
            assert(Seq::empty() + part =~= part);
        } else {
            assert(b[k as int].0 != b[i].0);
            lemma_filter_none(part, pred);
            let a = round(b, r, k).filter(pred);
            assert(a + Seq::empty() =~= a);
        }
    }
}

proof fn lemma_filter_all<T>(s: Seq<T>, pred: spec_fn(T) -> bool)
    requires
        forall|i: int| 0 <= i < s.len() ==> pred(#[trigger] s[i]),
    ensures
        s.filter(pred) == s,
    decreases s.len(),
{
    reveal(Seq::filter);
    if s.len() > 0 {
        let t = s.drop_last();
        assert forall|i: int| 0 <= i < t.len() implies pred(#[trigger] t[i]) by {
            assert(t[i] == s[i]);
        }
        lemma_filter_all(t, pred);
        assert(t.push(s.last()) =~= s);
    } else {
        assert(s.filter(pred) =~= s);
    }
}

proof fn lemma_filter_none<T>(s: Seq<T>, pred: spec_fn(T) -> bool)
    requires
        forall|i: int| 0 <= i < s.len() ==> !pred(#[trigger] s[i]),
    ensures
        s.filter(pred) == Seq::<T>::empty(),
    decreases s.len(),
{
    reveal(Seq::filter);
    if s.len() > 0 {
        let t = s.drop_last();
        assert forall|i: int| 0 <= i < t.len() implies !pred(#[trigger] t[i]) by {
            assert(t[i] == s[i]);
        }
        lemma_filter_none(t, pred);
    } else {
        assert(s.filter(pred) =~= Seq::<T>::empty());
    }
}

proof fn lemma_decimal_digits(n: nat)
    ensures
        forall|i: int|
            0 <= i < decimal(n).len() ==> '0' <= (#[trigger] decimal(n)[i]) <= '9',
        decimal(n).len() > 0,
    decreases n,
{
    if n >= 10 {
        lemma_decimal_digits(n / 10);
    }
}

/// The first place of a needle is where it occurs and nowhere before.
proof fn lemma_first_is(s: Seq<char>, needle: Seq<char>, from: int, at: int)
    requires
        0 <= from <= at,
        occurs_at(s, needle, at),
        forall|i: int| from <= i < at ==> !#[trigger] occurs_at(s, needle, i),
    ensures
        first_from(s, needle, from) == Some(at),
    decreases at - from,
{
    if from < at {
        assert(!occurs_at(s, needle, from));
        lemma_first_is(s, needle, from + 1, at);
    }
}

/// The key of an OPEN is read as it was written, unless it has a quotation mark in it.
pub proof fn keys_are_read_as_written(stream_id: u64, key: Seq<char>)
    requires
        !key.contains('"'),
    ensures
        idem_key_of(open_text(stream_id, key)) == key,
{
    let digits = decimal(stream_id as nat);
    let head = "{\"requestId\":\""@;
    let mid = "\",\"idempotencyKey\":\""@;
    let tail = "\"}"@;
    let needle = "\"idempotencyKey\""@;
    let s = open_text(stream_id, key);
    reveal_strlit("{\"requestId\":\"");
    reveal_strlit("\",\"idempotencyKey\":\"");
    reveal_strlit("\"}");
    reveal_strlit("\"idempotencyKey\"");
    lemma_decimal_digits(stream_id as nat);
    let n = digits.len() as int;
    assert(s == head + digits + mid + key + tail);
    assert(head.len() == 14);
    assert(mid.len() == 20);
    assert(needle.len() == 16);
    let at = 14 + n + 2;
    assert(s.subrange(at, at + 16) =~= needle);
    assert forall|i: int| 0 <= i < at implies !#[trigger] occurs_at(s, needle, i) by {
        if occurs_at(s, needle, i) {
            let w = s.subrange(i, i + 16);
            assert(w[0] == '"' && w[1] == 'i');
            assert(s[i] == '"' && s[i + 1] == 'i');
            if i < 13 {
                assert(s[i] == head[i] && s[i + 1] == head[i + 1]);
            } else if i == 13 {
                assert(s[14] == digits[0]);
            } else if i < 14 + n {
                assert(s[i] == digits[i - 14]);
            } else {
                assert(s[i] == mid[i - 14 - n]);
                assert(s[i + 1] == mid[i + 1 - 14 - n]);
            }
        }
    }
    lemma_first_is(s, needle, 0, at);
    let rest = s.subrange(at + 16, s.len() as int);
    assert(rest[0] == ':');
    assert(rest[0] == s[at + 16]);
    assert(skip_white(rest) == rest);
    let open = rest.subrange(1, rest.len() as int);
    assert(open[0] == '"');
    assert(skip_white(open) == open);
    let body = open.subrange(1, open.len() as int);
    assert(body =~= key + tail);
    let k = key.len() as int;
    assert(body.subrange(k, k + 1) =~= seq!['"']);
    assert forall|i: int| 0 <= i < k implies !#[trigger] occurs_at(body, seq!['"'], i) by {
        if occurs_at(body, seq!['"'], i) {
            assert(body.subrange(i, i + 1)[0] == '"');
            assert(key[i] == '"');
            assert(key.contains('"'));
        }
    }
    lemma_first_is(body, seq!['"'], 0, k);
    assert(body.subrange(0, k) =~= key);
}

} // verus!
