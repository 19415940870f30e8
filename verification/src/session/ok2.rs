//! The capabilities behind the facts of a receipt: a count in four bytes, then for each relay
//! its URL and a capability token, each with its length in two bytes.
//!
//! A broken segment spoils the receipt. A capability that is malformed, is for someone else,
//! or is for a relay that was named before is skipped and counted.
use vstd::prelude::*;
use vstd::string::*;
use vstd::utf8::*;

use crate::identity::{EndpointId, SecretKey};
use crate::octets::{
    be16, be32, be_value, lemma_be_widths, push_be, push_bytes, read_be16, read_be32,
};
use crate::outside::{
    ed25519_public, ed25519_signature, str_debug, str_debug_text, utf8_text,
};
use crate::protocol::fact::FabricId;
use crate::protocol::invite2::{relay_views, InviteRelayV2, RelayView};
use crate::protocol::relay_cap::{
    cap_message, cap_of, cap_refusal, cap_text, lemma_cap_len, CapView, RelayCapV1,
};
use crate::protocol::{MEMBER_CAPS, MEMBER_CAP_TTL_MS};
use crate::text::{cat, cat3, decimal, decimal_text, text_eq, text_starts_with};

verus! {

/// Capabilities of a receipt.
pub const OK2_CAP_ITEM_MAX: usize = 8;

/// Bytes of a URL or a capability of a receipt.
pub const OK2_ITEM_BYTES_MAX: usize = 512;

/// The texts of pairs of texts.
pub open spec fn pair_views(s: Seq<(String, String)>) -> Seq<(Seq<char>, Seq<char>)> {
    Seq::new(s.len(), |i: int| (s[i].0@, s[i].1@))
}

// ---- writing ----------------------------------------------------------------------

/// A text with its length in two bytes; the length is its low 16 bits.
pub open spec fn sized_text(t: Seq<char>) -> Seq<u8> {
    be16((encode_utf8(t).len() % 0x1_0000) as u16) + encode_utf8(t)
}

pub open spec fn items_bytes(s: Seq<(Seq<char>, Seq<char>)>) -> Seq<u8>
    decreases s.len(),
{
    if s.len() == 0 {
        Seq::empty()
    } else {
        items_bytes(s.drop_last()) + sized_text(s.last().0) + sized_text(s.last().1)
    }
}

/// The items that fit into a receipt.
pub open spec fn fitting(s: Seq<(Seq<char>, Seq<char>)>) -> Seq<(Seq<char>, Seq<char>)> {
    if s.len() <= OK2_CAP_ITEM_MAX {
        s
    } else {
        s.subrange(0, 8)
    }
}

/// The segment of capabilities of a receipt.
pub open spec fn segment_bytes(s: Seq<(Seq<char>, Seq<char>)>) -> Seq<u8> {
    be32(fitting(s).len() as u32) + items_bytes(fitting(s))
}

fn push_sized(buf: &mut Vec<u8>, text: &str)
    ensures
        final(buf)@ == old(buf)@ + sized_text(text@),
{
    let ghost before = buf@;
    let bytes = text.as_bytes();
    let n: usize = bytes.len();
    push_be(buf, (n % 0x1_0000) as u64, 2);
    push_bytes(buf, bytes);
    assert(buf@ =~= before + sized_text(text@));
}

/// The segment of capabilities of a receipt: relay URLs and tokens, of which the first eight
/// are taken.
pub fn encode_ok2_cap_segment(caps: &[(String, String)]) -> (r: Vec<u8>)
    ensures
        r@ == segment_bytes(pair_views(caps@)),
{
    let n: usize = if caps.len() <= OK2_CAP_ITEM_MAX {
        caps.len()
    } else {
        OK2_CAP_ITEM_MAX
    };
    let ghost all = fitting(pair_views(caps@));
    let mut out: Vec<u8> = Vec::new();
    push_be(&mut out, n as u64, 4);
    let ghost start = be32(n as u32);
    assert(out@ =~= start);
    let mut i: usize = 0;
    assert(all.subrange(0, 0) =~= Seq::<(Seq<char>, Seq<char>)>::empty());
    assert(start + items_bytes(all.subrange(0, 0)) =~= start);
    while i < n
        invariant
            i <= n,
            n == all.len(),
            n <= caps@.len(),
            all == fitting(pair_views(caps@)),
            out@ == start + items_bytes(all.subrange(0, i as int)),
        decreases n - i,
    {
        push_sized(&mut out, caps[i].0.as_str());
        push_sized(&mut out, caps[i].1.as_str());
        proof {
            let t = all.subrange(0, i + 1);
            assert(t.drop_last() =~= all.subrange(0, i as int));
            assert(t.last() == (caps@[i as int].0@, caps@[i as int].1@));
            assert(out@ =~= start + items_bytes(t));
        }
        i = i + 1;
    }
    assert(all.subrange(0, n as int) =~= all);
    out
}

// ---- reading ----------------------------------------------------------------------

/// What a segment of capabilities gives: those that are taken, in order, and how many were
/// skipped for which reason.
#[derive(Debug, Clone, PartialEq, Eq)]
pub struct Ok2Caps {
    pub items: Vec<(String, String)>,
    /// For a relay that was named before.
    pub skipped_duplicate: usize,
    /// No capability tokens.
    pub skipped_malformed: usize,
    /// For another recipient.
    pub skipped_not_recipient: usize,
}

/// What an [`Ok2Caps`] holds.
#[verifier::ext_equal]
pub struct Ok2View {
    pub items: Seq<(Seq<char>, Seq<char>)>,
    pub duplicate: nat,
    pub malformed: nat,
    pub not_recipient: nat,
}

impl View for Ok2Caps {
    type V = Ok2View;

    open spec fn view(&self) -> Ok2View {
        Ok2View {
            items: pair_views(self.items@),
            duplicate: self.skipped_duplicate as nat,
            malformed: self.skipped_malformed as nat,
            not_recipient: self.skipped_not_recipient as nat,
        }
    }
}

pub open spec fn no_caps() -> Ok2View {
    Ok2View { items: Seq::empty(), duplicate: 0, malformed: 0, not_recipient: 0 }
}

impl Default for Ok2Caps {
    fn default() -> (r: Self)
        ensures
            r@ == no_caps(),
    {
        let r = Ok2Caps {
            items: Vec::new(),
            skipped_duplicate: 0,
            skipped_malformed: 0,
            skipped_not_recipient: 0,
        };
        assert(r@ =~= no_caps());
        r
    }
}

pub open spec fn item_text(i: nat, what: Seq<char>) -> Seq<char> {
    "OK2 cap item "@ + decimal(i) + what
}

pub open spec fn http_url(t: Seq<char>) -> bool {
    "http://"@.is_prefix_of(t) || "https://"@.is_prefix_of(t)
}

/// The URL of item `i` at `off`, and where it ends.
pub open spec fn item_url_at(b: Seq<u8>, off: int, i: nat) -> Result<(Seq<char>, int), Seq<char>> {
    if b.len() < off + 2 {
        Err(item_text(i, " url length prefix truncated"@))
    } else {
        let n = be_value(b.subrange(off, off + 2)) as int;
        if n > OK2_ITEM_BYTES_MAX {
            Err(item_text(i, " url exceeds 512B"@))
        } else if b.len() < off + 2 + n {
            Err(item_text(i, " url bytes truncated"@))
        } else {
            let t = b.subrange(off + 2, off + 2 + n);
            if !valid_utf8(t) {
                Err(item_text(i, " url is not valid UTF-8"@))
            } else if !http_url(decode_utf8(t)) {
                Err(item_text(i, " url is not http(s): "@ + str_debug(decode_utf8(t))))
            } else {
                Ok((decode_utf8(t), off + 2 + n))
            }
        }
    }
}

/// The capability of item `i` at `off`, if it is text, and where it ends.
pub open spec fn item_cap_at(b: Seq<u8>, off: int, i: nat) -> Result<
    (Option<Seq<char>>, int),
    Seq<char>,
> {
    if b.len() < off + 2 {
        Err(item_text(i, " capability length prefix truncated"@))
    } else {
        let n = be_value(b.subrange(off, off + 2)) as int;
        if n > OK2_ITEM_BYTES_MAX {
            Err(item_text(i, " capability exceeds 512B"@))
        } else if b.len() < off + 2 + n {
            Err(item_text(i, " capability bytes truncated"@))
        } else {
            let t = b.subrange(off + 2, off + 2 + n);
            Ok(
                (
                    if valid_utf8(t) {
                        Some(decode_utf8(t))
                    } else {
                        None
                    },
                    off + 2 + n,
                ),
            )
        }
    }
}

/// Some item is for the relay.
pub open spec fn names_relay(items: Seq<(Seq<char>, Seq<char>)>, url: Seq<char>) -> bool {
    exists|i: int| 0 <= i < items.len() && (#[trigger] items[i]).0 == url
}

/// What a further item adds.
pub open spec fn with_item(
    v: Ok2View,
    url: Seq<char>,
    cap: Option<Seq<char>>,
    redeemer: Seq<u8>,
) -> Ok2View {
    if cap is None || cap_of(cap->0) is Err {
        Ok2View { malformed: v.malformed + 1, ..v }
    } else if (cap_of(cap->0)->Ok_0).recipient != redeemer {
        Ok2View { not_recipient: v.not_recipient + 1, ..v }
    } else if names_relay(v.items, url) {
        Ok2View { duplicate: v.duplicate + 1, ..v }
    } else {
        Ok2View { items: v.items.push((url, cap->0)), ..v }
    }
}

/// What the `n` items at `off` give, and where they end.
pub open spec fn items_at(b: Seq<u8>, off: int, n: nat, redeemer: Seq<u8>) -> Result<
    (Ok2View, int),
    Seq<char>,
>
    decreases n,
{
    if n == 0 {
        Ok((no_caps(), off))
    } else {
        match items_at(b, off, (n - 1) as nat, redeemer) {
            Err(e) => Err(e),
            Ok((v, o)) => match item_url_at(b, o, (n - 1) as nat) {
                Err(e) => Err(e),
                Ok((url, o1)) => match item_cap_at(b, o1, (n - 1) as nat) {
                    Err(e) => Err(e),
                    Ok((cap, o2)) => Ok((with_item(v, url, cap, redeemer), o2)),
                },
            },
        }
    }
}

/// What a segment gives, or why it is broken.
pub open spec fn segment_of(b: Seq<u8>, redeemer: Seq<u8>) -> Result<Ok2View, Seq<char>> {
    if b.len() < 4 {
        Err("OK2 capability segment shorter than the u32 count prefix"@)
    } else {
        let n = be_value(b.subrange(0, 4));
        if n > OK2_CAP_ITEM_MAX {
            Err(
                "OK2 cap_item_count "@ + decimal(n) + " exceeds the limit of "@ + decimal(8),
            )
        } else {
            match items_at(b, 4, n, redeemer) {
                Err(e) => Err(e),
                Ok((v, o)) => if o != b.len() {
                    Err(
                        "OK2 capability segment has "@ + decimal((b.len() - o) as nat)
                            + " trailing byte(s)"@,
                    )
                } else {
                    Ok(v)
                },
            }
        }
    }
}

fn item_message(i: usize, what: &str) -> (r: String)
    ensures
        r@ == item_text(i as nat, what@),
{
    cat3("OK2 cap item ", decimal_text(i as u64).as_str(), what)
}

fn read_item_url(tail: &[u8], off: usize, i: usize) -> (r: Result<(String, usize), String>)
    requires
        off <= tail@.len(),
    ensures
        match item_url_at(tail@, off as int, i as nat) {
            Ok((t, o)) => r is Ok && (r->Ok_0).0@ == t && (r->Ok_0).1 == o && o <= tail@.len(),
            Err(e) => r is Err && r->Err_0@ == e,
        },
{
    let left: usize = tail.len() - off;
    if left < 2 {
        return Err(item_message(i, " url length prefix truncated"));
    }
    let n: usize = read_be16(tail, off) as usize;
    if n > OK2_ITEM_BYTES_MAX {
        return Err(item_message(i, " url exceeds 512B"));
    }
    if left - 2 < n {
        return Err(item_message(i, " url bytes truncated"));
    }
    match utf8_text(vstd::slice::slice_subrange(tail, off + 2, off + 2 + n)) {
        None => Err(item_message(i, " url is not valid UTF-8")),
        Some(t) => {
            if text_starts_with(t.as_str(), "http://") || text_starts_with(
                t.as_str(),
                "https://",
            ) {
                Ok((t, off + 2 + n))
            } else {
                Err(
                    item_message(
                        i,
                        cat(
                            " url is not http(s): ",
                            str_debug_text(t.as_str()).as_str(),
                        ).as_str(),
                    ),
                )
            }
        },
    }
}

fn read_item_cap(tail: &[u8], off: usize, i: usize) -> (r: Result<
    (Option<String>, usize),
    String,
>)
    requires
        off <= tail@.len(),
    ensures
        match item_cap_at(tail@, off as int, i as nat) {
            Ok((c, o)) => {
                &&& r is Ok
                &&& (r->Ok_0).1 == o
                &&& o <= tail@.len()
                &&& match (r->Ok_0).0 {
                    Some(t) => c == Some(t@),
                    None => c is None,
                }
            },
            Err(e) => r is Err && r->Err_0@ == e,
        },
{
    let left: usize = tail.len() - off;
    if left < 2 {
        return Err(item_message(i, " capability length prefix truncated"));
    }
    let n: usize = read_be16(tail, off) as usize;
    if n > OK2_ITEM_BYTES_MAX {
        return Err(item_message(i, " capability exceeds 512B"));
    }
    if left - 2 < n {
        return Err(item_message(i, " capability bytes truncated"));
    }
    Ok((utf8_text(vstd::slice::slice_subrange(tail, off + 2, off + 2 + n)), off + 2 + n))
}

fn has_relay(items: &Vec<(String, String)>, url: &str) -> (r: bool)
    ensures
        r == names_relay(pair_views(items@), url@),
{
    let mut i: usize = 0;
    while i < items.len()
        invariant
            i <= items@.len(),
            forall|k: int| 0 <= k < i ==> (#[trigger] pair_views(items@)[k]).0 != url@,
        decreases items@.len() - i,
    {
        if text_eq(items[i].0.as_str(), url) {
            assert(pair_views(items@)[i as int].0 == url@);
            return true;
        }
        i = i + 1;
    }
    false
}

/// Takes a further item.
fn take_item(out: &mut Ok2Caps, url: String, cap: Option<String>, redeemer: &EndpointId)
    requires
        old(out)@.malformed < usize::MAX,
        old(out)@.not_recipient < usize::MAX,
        old(out)@.duplicate < usize::MAX,
    ensures
        final(out)@ == with_item(
            old(out)@,
            url@,
            match cap {
                Some(c) => Some(c@),
                None => None,
            },
            redeemer@,
        ),
{
    let ghost before = out@;
    let text = match cap {
        Some(t) => t,
        None => {
            out.skipped_malformed = out.skipped_malformed + 1;
            return;
        },
    };
    let parsed = match RelayCapV1::decode(text.as_str()) {
        Ok(p) => p,
        Err(_) => {
            out.skipped_malformed = out.skipped_malformed + 1;
            return;
        },
    };
    if !parsed.recipient.same(redeemer) {
        out.skipped_not_recipient = out.skipped_not_recipient + 1;
        return;
    }
    if has_relay(&out.items, url.as_str()) {
        out.skipped_duplicate = out.skipped_duplicate + 1;
        return;
    }
    let ghost x = (url@, text@);
    out.items.push((url, text));
    assert(pair_views(out.items@) =~= before.items.push(x));
}

/// A fault in the first items is a fault in more of them.
proof fn lemma_items_err(b: Seq<u8>, off: int, i: nat, n: nat, redeemer: Seq<u8>)
    requires
        i <= n,
        items_at(b, off, i, redeemer) is Err,
    ensures
        items_at(b, off, n, redeemer) == items_at(b, off, i, redeemer),
    decreases n,
{
    if i < n {
        lemma_items_err(b, off, i, (n - 1) as nat, redeemer);
    }
}

/// Every item is taken or counted as skipped.
pub proof fn every_item_is_accounted_for(b: Seq<u8>, off: int, n: nat, redeemer: Seq<u8>)
    requires
        items_at(b, off, n, redeemer) is Ok,
    ensures
        ({
            let v = (items_at(b, off, n, redeemer)->Ok_0).0;
            v.items.len() + v.duplicate + v.malformed + v.not_recipient == n
        }),
    decreases n,
{
    if n > 0 {
        every_item_is_accounted_for(b, off, (n - 1) as nat, redeemer);
    }
}

/// Reads a segment of capabilities for the endpoint that redeems.
pub fn parse_ok2_caps(tail: &[u8], redeemer: &EndpointId) -> (r: Result<Ok2Caps, String>)
    ensures
        match segment_of(tail@, redeemer@) {
            Ok(v) => r is Ok && r->Ok_0@ == v,
            Err(e) => r is Err && r->Err_0@ == e,
        },
{
    let len: usize = tail.len();
    if len < 4 {
        return Err("OK2 capability segment shorter than the u32 count prefix".to_owned());
    }
    let count: u32 = read_be32(tail, 0);
    if count > 8 {
        return Err(
            cat(
                cat3(
                    "OK2 cap_item_count ",
                    decimal_text(count as u64).as_str(),
                    " exceeds the limit of ",
                ).as_str(),
                decimal_text(8).as_str(),
            ),
        );
    }
    let n: usize = count as usize;
    let ghost b = tail@;
    let mut out = Ok2Caps::default();
    let mut o: usize = 4;
    let mut i: usize = 0;
    while i < n
        invariant
            i <= n,
            n <= 8,
            len == tail@.len(),
            len >= 4,
            b == tail@,
            n == be_value(b.subrange(0, 4)),
            o <= len,
            items_at(b, 4, i as nat, redeemer@) == Ok::<(Ok2View, int), Seq<char>>(
                (out@, o as int),
            ),
        decreases n - i,
    {
        proof {
            every_item_is_accounted_for(b, 4, i as nat, redeemer@);
            if items_at(b, 4, (i + 1) as nat, redeemer@) is Err {
                lemma_items_err(b, 4, (i + 1) as nat, n as nat, redeemer@);
            }
        }
        let (url, o1) = match read_item_url(tail, o, i) {
            Ok(x) => x,
            Err(e) => return Err(e),
        };
        let (cap, o2) = match read_item_cap(tail, o1, i) {
            Ok(x) => x,
            Err(e) => return Err(e),
        };
        take_item(&mut out, url, cap, redeemer);
        o = o2;
        i = i + 1;
    }
    if o != len {
        return Err(
            cat3(
                "OK2 capability segment has ",
                decimal_text((len - o) as u64).as_str(),
                " trailing byte(s)",
            ),
        );
    }
    Ok(out)
}

// ---- laws -------------------------------------------------------------------------

/// Items that a receipt for the endpoint can hold as they are.
pub open spec fn sendable(s: Seq<(Seq<char>, Seq<char>)>, redeemer: Seq<u8>) -> bool {
    &&& s.len() <= OK2_CAP_ITEM_MAX
    &&& forall|i: int| 0 <= i < s.len() ==> {
        &&& http_url((#[trigger] s[i]).0)
        &&& encode_utf8(s[i].0).len() <= OK2_ITEM_BYTES_MAX
        &&& cap_of(s[i].1) is Ok
        &&& (cap_of(s[i].1)->Ok_0).recipient == redeemer
    }
    &&& forall|i: int, j: int| 0 <= i < j < s.len() ==> (#[trigger] s[i]).0 != (#[trigger] s[j]).0
}

/// Where the parts of one item stand.
proof fn lemma_item_parts(url: Seq<char>, cap: Seq<char>, b: Seq<u8>, o: int)
    requires
        encode_utf8(url).len() <= OK2_ITEM_BYTES_MAX,
        encode_utf8(cap).len() <= OK2_ITEM_BYTES_MAX,
        0 <= o,
        o + 4 + encode_utf8(url).len() + encode_utf8(cap).len() <= b.len(),
        b.subrange(o, o + 4 + encode_utf8(url).len() + encode_utf8(cap).len()) == sized_text(url)
            + sized_text(cap),
    ensures
        ({
            let u = encode_utf8(url);
            let c = encode_utf8(cap);
            let o1 = o + 2 + u.len();
            &&& b.subrange(o, o + 2) == be16(u.len() as u16)
            &&& b.subrange(o + 2, o1) == u
            &&& b.subrange(o1, o1 + 2) == be16(c.len() as u16)
            &&& b.subrange(o1 + 2, o1 + 2 + c.len()) == c
        }),
{
    let u = encode_utf8(url);
    let c = encode_utf8(cap);
    let n = u.len() as int;
    let k = c.len() as int;
    lemma_be_widths(n as u64);
    lemma_be_widths(k as u64);
    let w = sized_text(url) + sized_text(cap);
    let g = b.subrange(o, o + 4 + n + k);
    let o1 = o + 2 + n;
    assert(w.subrange(0, 2) =~= be16(n as u16));
    assert(w.subrange(2, 2 + n) =~= u);
    assert(w.subrange(2 + n, 4 + n) =~= be16(k as u16));
    assert(w.subrange(4 + n, 4 + n + k) =~= c);
    assert(b.subrange(o, o + 2) =~= g.subrange(0, 2));
    assert(b.subrange(o + 2, o1) =~= g.subrange(2, 2 + n));
    assert(b.subrange(o1, o1 + 2) =~= g.subrange(2 + n, 4 + n));
    assert(b.subrange(o1 + 2, o1 + 2 + k) =~= g.subrange(4 + n, 4 + n + k));
}

/// One item is read back.
proof fn lemma_item_roundtrip(url: Seq<char>, cap: Seq<char>, b: Seq<u8>, o: int, i: nat)
    requires
        http_url(url),
        encode_utf8(url).len() <= OK2_ITEM_BYTES_MAX,
        encode_utf8(cap).len() <= OK2_ITEM_BYTES_MAX,
        0 <= o,
        o + 4 + encode_utf8(url).len() + encode_utf8(cap).len() <= b.len(),
        b.subrange(o, o + 4 + encode_utf8(url).len() + encode_utf8(cap).len()) == sized_text(url)
            + sized_text(cap),
    ensures
        item_url_at(b, o, i) == Ok::<(Seq<char>, int), Seq<char>>(
            (url, o + 2 + encode_utf8(url).len()),
        ),
        item_cap_at(b, o + 2 + encode_utf8(url).len(), i) == Ok::<
            (Option<Seq<char>>, int),
            Seq<char>,
        >((Some(cap), o + 4 + encode_utf8(url).len() + encode_utf8(cap).len())),
{
    lemma_item_parts(url, cap, b, o);
    lemma_be_widths(encode_utf8(url).len() as u64);
    lemma_be_widths(encode_utf8(cap).len() as u64);
    encode_utf8_valid_utf8(url);
    encode_utf8_decode_utf8(url);
    encode_utf8_valid_utf8(cap);
    encode_utf8_decode_utf8(cap);
}

proof fn lemma_sendable_front(s: Seq<(Seq<char>, Seq<char>)>, redeemer: Seq<u8>)
    requires
        sendable(s, redeemer),
        s.len() > 0,
    ensures
        sendable(s.drop_last(), redeemer),
        !names_relay(s.drop_last(), s.last().0),
        http_url(s.last().0),
        encode_utf8(s.last().0).len() <= OK2_ITEM_BYTES_MAX,
        cap_of(s.last().1) is Ok,
        (cap_of(s.last().1)->Ok_0).recipient == redeemer,
{
    let t = s.drop_last();
    let n = s.len() - 1;
    assert(http_url(s[n].0));
    assert forall|i: int| 0 <= i < t.len() implies {
        &&& http_url((#[trigger] t[i]).0)
        &&& encode_utf8(t[i].0).len() <= OK2_ITEM_BYTES_MAX
        &&& cap_of(t[i].1) is Ok
        &&& (cap_of(t[i].1)->Ok_0).recipient == redeemer
    } by {
        assert(t[i] == s[i]);
    }
    assert forall|i: int, j: int| 0 <= i < j < t.len() implies (#[trigger] t[i]).0
        != (#[trigger] t[j]).0 by {
        assert(t[i] == s[i] && t[j] == s[j]);
    }
    if names_relay(t, s.last().0) {
        let i = choose|i: int| 0 <= i < t.len() && (#[trigger] t[i]).0 == s.last().0;
        assert(s[i].0 != s[n].0);
    }
}

proof fn lemma_items_roundtrip(s: Seq<(Seq<char>, Seq<char>)>, b: Seq<u8>, off: int, redeemer: Seq<u8>)
    requires
        sendable(s, redeemer),
        0 <= off,
        off + items_bytes(s).len() <= b.len(),
        b.subrange(off, off + items_bytes(s).len()) == items_bytes(s),
    ensures
        items_at(b, off, s.len(), redeemer) == Ok::<(Ok2View, int), Seq<char>>(
            (Ok2View { items: s, ..no_caps() }, off + items_bytes(s).len()),
        ),
    decreases s.len(),
{
    if s.len() == 0 {
        assert(s =~= Seq::<(Seq<char>, Seq<char>)>::empty());
    } else {
        let t = s.drop_last();
        let (url, cap) = s.last();
        let all = items_bytes(s);
        let m = items_bytes(t).len() as int;
        let g = b.subrange(off, off + all.len());
        lemma_sendable_front(s, redeemer);
        assert(b.subrange(off, off + m) =~= g.subrange(0, m));
        assert(all.subrange(0, m) =~= items_bytes(t));
        lemma_items_roundtrip(t, b, off, redeemer);
        lemma_cap_len(cap);
        let u = encode_utf8(url);
        let c = encode_utf8(cap);
        lemma_be_widths(u.len() as u64);
        lemma_be_widths(c.len() as u64);
        let o = off + m;
        let w = sized_text(url) + sized_text(cap);
        assert(all =~= items_bytes(t) + w);
        assert(w.len() == 4 + u.len() + c.len());
        assert(b.subrange(o, o + 4 + u.len() + c.len()) =~= g.subrange(m, m + w.len()));
        assert(all.subrange(m, m + w.len()) =~= w);
        lemma_item_roundtrip(url, cap, b, o, (s.len() - 1) as nat);
        assert(t.push((url, cap)) =~= s);
    }
}

/// The capabilities of a receipt are read as they were sent, with none skipped.
pub proof fn receipt_capabilities_are_read_back(s: Seq<(Seq<char>, Seq<char>)>, redeemer: Seq<u8>)
    requires
        sendable(s, redeemer),
    ensures
        segment_of(segment_bytes(s), redeemer) == Ok::<Ok2View, Seq<char>>(
            Ok2View { items: s, ..no_caps() },
        ),
{
    let b = segment_bytes(s);
    lemma_be_widths(s.len() as u64);
    assert(b.subrange(0, 4) =~= be32(s.len() as u32));
    assert(b.subrange(4, 4 + items_bytes(s).len() as int) =~= items_bytes(s));
    lemma_items_roundtrip(s, b, 4, redeemer);
}

/// What is taken from a segment is for the endpoint that redeems, one for each relay.
pub proof fn taken_capabilities_are_for_the_redeemer(b: Seq<u8>, off: int, n: nat, redeemer: Seq<u8>)
    requires
        items_at(b, off, n, redeemer) is Ok,
    ensures
        ({
            let v = (items_at(b, off, n, redeemer)->Ok_0).0;
            &&& forall|i: int|
                0 <= i < v.items.len() ==> cap_of((#[trigger] v.items[i]).1) is Ok && (cap_of(
                    v.items[i].1,
                )->Ok_0).recipient == redeemer
            &&& forall|i: int, j: int|
                0 <= i < j < v.items.len() ==> (#[trigger] v.items[i]).0 != (#[trigger] v.items[j]).0
        }),
    decreases n,
{
    if n > 0 {
        taken_capabilities_are_for_the_redeemer(b, off, (n - 1) as nat, redeemer);
    }
}

// ---- giving capabilities ----------------------------------------------------------

/// Gives new members capabilities for the restricted relays of an issuer.
pub struct RedeemCapMinter<'a> {
    pub fabric_id: FabricId,
    /// The key of the root.
    pub signer: &'a SecretKey,
    /// The restricted relays, and the server of each.
    pub restricted: Vec<(String, [u8; 32])>,
}

/// The restricted relays by their views.
pub open spec fn server_views(s: Seq<(String, [u8; 32])>) -> Seq<(Seq<char>, Seq<u8>)> {
    Seq::new(s.len(), |i: int| (s[i].0@, s[i].1@))
}

/// Until when a new member's capabilities last: 90 days, but no longer than the invite.
pub open spec fn member_expiry(now_ms: u64, invite_expires_at_ms: u64) -> u64 {
    let far = if now_ms + MEMBER_CAP_TTL_MS > u64::MAX {
        u64::MAX
    } else {
        (now_ms + MEMBER_CAP_TTL_MS) as u64
    };
    if far <= invite_expires_at_ms {
        far
    } else {
        invite_expires_at_ms
    }
}

/// Some relay of the invite has the URL.
pub open spec fn invited(relays: Seq<RelayView>, url: Seq<char>) -> bool {
    exists|i: int| 0 <= i < relays.len() && (#[trigger] relays[i]).url == url
}

/// The capability that a new member gets for a server.
pub open spec fn member_cap(
    fabric_id: Seq<u8>,
    seed: Seq<u8>,
    server_id: Seq<u8>,
    redeemer: Seq<u8>,
    now_ms: u64,
    expires: u64,
) -> CapView {
    CapView {
        fabric_id,
        server_id,
        issuer: ed25519_public(seed),
        recipient: redeemer,
        caps: MEMBER_CAPS,
        issued_at: now_ms,
        expires_at: expires,
    }
}

/// Capabilities for those of the restricted relays that the invite names.
pub open spec fn minted(
    fabric_id: Seq<u8>,
    seed: Seq<u8>,
    restricted: Seq<(Seq<char>, Seq<u8>)>,
    redeemer: Seq<u8>,
    relays: Seq<RelayView>,
    now_ms: u64,
    expires: u64,
) -> Seq<(Seq<char>, Seq<char>)>
    decreases restricted.len(),
{
    if restricted.len() == 0 {
        Seq::empty()
    } else {
        let before = minted(
            fabric_id,
            seed,
            restricted.drop_last(),
            redeemer,
            relays,
            now_ms,
            expires,
        );
        let (url, server_id) = restricted.last();
        let cap = member_cap(fabric_id, seed, server_id, redeemer, now_ms, expires);
        if invited(relays, url) && cap_refusal(MEMBER_CAPS, now_ms, expires) is None {
            before.push((url, cap_text(cap, ed25519_signature(seed, cap_message(cap)))))
        } else {
            before
        }
    }
}

/// Every capability that a new member gets is for a restricted relay that the invite names:
/// for the server that the list pairs with its URL, for the fabric and the redeemer, signed
/// by the root, and to use the relay only, from now until its end. There is none once the
/// end has passed.
pub proof fn members_get_only_relays_of_their_invite(
    fabric_id: Seq<u8>,
    seed: Seq<u8>,
    restricted: Seq<(Seq<char>, Seq<u8>)>,
    redeemer: Seq<u8>,
    relays: Seq<RelayView>,
    now_ms: u64,
    expires: u64,
    i: int,
)
    requires
        0 <= i < minted(fabric_id, seed, restricted, redeemer, relays, now_ms, expires).len(),
    ensures
        now_ms <= expires,
        exists|j: int|
            0 <= j < restricted.len() && names_url(relays, (#[trigger] restricted[j]).0)
                && given_for(
                minted(fabric_id, seed, restricted, redeemer, relays, now_ms, expires)[i],
                fabric_id,
                seed,
                restricted[j],
                redeemer,
                now_ms,
                expires,
            ),
    decreases restricted.len(),
{
    let given = minted(fabric_id, seed, restricted, redeemer, relays, now_ms, expires);
    if restricted.len() > 0 {
        let front = restricted.drop_last();
        let n = restricted.len() - 1;
        let before = minted(fabric_id, seed, front, redeemer, relays, now_ms, expires);
        if i < before.len() {
            assert(given[i] == before[i]);
            members_get_only_relays_of_their_invite(
                fabric_id,
                seed,
                front,
                redeemer,
                relays,
                now_ms,
                expires,
                i,
            );
            let j = choose|j: int|
                0 <= j < front.len() && names_url(relays, (#[trigger] front[j]).0) && given_for(
                    before[i],
                    fabric_id,
                    seed,
                    front[j],
                    redeemer,
                    now_ms,
                    expires,
                );
            assert(restricted[j] == front[j]);
        } else {
            let x = restricted[n];
            assert(names_url(relays, x.0));
            assert(given_for(given[i], fabric_id, seed, x, redeemer, now_ms, expires));
        }
    }
}

/// A new member gets a capability for every restricted relay that the invite names, as long
/// as the end has not passed.
pub proof fn members_get_all_relays_of_their_invite(
    fabric_id: Seq<u8>,
    seed: Seq<u8>,
    restricted: Seq<(Seq<char>, Seq<u8>)>,
    redeemer: Seq<u8>,
    relays: Seq<RelayView>,
    now_ms: u64,
    expires: u64,
    j: int,
)
    requires
        now_ms <= expires <= now_ms + 7_776_000_000,
        0 <= j < restricted.len(),
        names_url(relays, restricted[j].0),
    ensures
        exists|i: int|
            0 <= i < minted(fabric_id, seed, restricted, redeemer, relays, now_ms, expires).len()
                && given_for(
                #[trigger] minted(
                    fabric_id,
                    seed,
                    restricted,
                    redeemer,
                    relays,
                    now_ms,
                    expires,
                )[i],
                fabric_id,
                seed,
                restricted[j],
                redeemer,
                now_ms,
                expires,
            ),
    decreases restricted.len(),
{
    let given = minted(fabric_id, seed, restricted, redeemer, relays, now_ms, expires);
    let front = restricted.drop_last();
    let before = minted(fabric_id, seed, front, redeemer, relays, now_ms, expires);
    if j < front.len() {
        assert(front[j] == restricted[j]);
        members_get_all_relays_of_their_invite(
            fabric_id,
            seed,
            front,
            redeemer,
            relays,
            now_ms,
            expires,
            j,
        );
        let i = choose|i: int|
            0 <= i < before.len() && given_for(
                #[trigger] before[i],
                fabric_id,
                seed,
                front[j],
                redeemer,
                now_ms,
                expires,
            );
        assert(given[i] == before[i]);
    } else {
        assert(1u8 & !7u8 == 0) by (bit_vector);
        assert(cap_refusal(MEMBER_CAPS, now_ms, expires) is None);
        assert(invited(relays, restricted[j].0));
        assert(given_for(
            given[before.len() as int],
            fabric_id,
            seed,
            restricted[j],
            redeemer,
            now_ms,
            expires,
        ));
    }
}

/// Some relay of an invite has the URL.
pub open spec fn names_url(relays: Seq<RelayView>, url: Seq<char>) -> bool {
    exists|i: int| 0 <= i < relays.len() && (#[trigger] relays[i]).url == url
}

/// An item that gives a redeemer a capability to use the relay of a server: the URL of the
/// server, and the signed capability.
pub open spec fn given_for(
    item: (Seq<char>, Seq<char>),
    fabric_id: Seq<u8>,
    seed: Seq<u8>,
    server: (Seq<char>, Seq<u8>),
    redeemer: Seq<u8>,
    now_ms: u64,
    expires: u64,
) -> bool {
    let cap = CapView {
        fabric_id,
        server_id: server.1,
        issuer: ed25519_public(seed),
        recipient: redeemer,
        caps: 1,
        issued_at: now_ms,
        expires_at: expires,
    };
    item.0 == server.0 && item.1 == cap_text(cap, ed25519_signature(seed, cap_message(cap)))
}

/// The capabilities of a new member end after 90 days or with the invite, whichever comes
/// first.
pub proof fn member_capabilities_end_with_the_invite(now_ms: u64, invite_expires_at_ms: u64)
    ensures
        ({
            let e = member_expiry(now_ms, invite_expires_at_ms);
            &&& e <= invite_expires_at_ms
            &&& e <= now_ms + 7_776_000_000
            &&& e == invite_expires_at_ms || e == now_ms + 7_776_000_000 || e == u64::MAX
        }),
{
}

fn is_invited(relays: &[InviteRelayV2], url: &str) -> (r: bool)
    ensures
        r == invited(relay_views(relays@), url@),
{
    let mut i: usize = 0;
    while i < relays.len()
        invariant
            i <= relays@.len(),
            forall|k: int| 0 <= k < i ==> (#[trigger] relay_views(relays@)[k]).url != url@,
        decreases relays@.len() - i,
    {
        if text_eq(relays[i].url.as_str(), url) {
            assert(relay_views(relays@)[i as int].url == url@);
            return true;
        }
        i = i + 1;
    }
    false
}

impl RedeemCapMinter<'_> {
    /// Capabilities for those of the restricted relays that the invite names: to use the
    /// relay only, for the endpoint that redeems, and no longer than the invite lasts.
    pub fn mint_for(
        &self,
        redeemer: &EndpointId,
        invite_expires_at_ms: u64,
        invite_relays: &[InviteRelayV2],
        now_ms: u64,
    ) -> (r: Vec<(String, String)>)
        ensures
            pair_views(r@) == minted(
                self.fabric_id@,
                self.signer@,
                server_views(self.restricted@),
                redeemer@,
                relay_views(invite_relays@),
                now_ms,
                member_expiry(now_ms, invite_expires_at_ms),
            ),
            forall|i: int|
                0 <= i < r@.len() ==> {
                    let cap = cap_of((#[trigger] r@[i]).1@);
                    &&& cap is Ok
                    &&& (cap->Ok_0).fabric_id == self.fabric_id@
                    &&& (cap->Ok_0).issuer == ed25519_public(self.signer@)
                    &&& (cap->Ok_0).recipient == redeemer@
                    &&& exists|j: int|
                        0 <= j < self.restricted@.len() && (#[trigger] self.restricted@[j]).0@
                            == r@[i].0@ && self.restricted@[j].1@ == (cap->Ok_0).server_id
                    &&& (cap->Ok_0).caps == MEMBER_CAPS
                    &&& (cap->Ok_0).issued_at == now_ms
                    &&& (cap->Ok_0).expires_at == member_expiry(now_ms, invite_expires_at_ms)
                },
    {
        let far: u64 = now_ms.saturating_add(MEMBER_CAP_TTL_MS);
        let expires: u64 = if far <= invite_expires_at_ms {
            far
        } else {
            invite_expires_at_ms
        };
        let ghost all = server_views(self.restricted@);
        let ghost relays = relay_views(invite_relays@);
        let mut out: Vec<(String, String)> = Vec::new();
        let mut i: usize = 0;
        proof {
            assert(all.subrange(0, 0) =~= Seq::<(Seq<char>, Seq<u8>)>::empty());
            assert(pair_views(out@) =~= Seq::<(Seq<char>, Seq<char>)>::empty());
        }
        while i < self.restricted.len()
            invariant
                i <= self.restricted@.len(),
                all == server_views(self.restricted@),
                relays == relay_views(invite_relays@),
                expires == member_expiry(now_ms, invite_expires_at_ms),
                pair_views(out@) == minted(
                    self.fabric_id@,
                    self.signer@,
                    all.subrange(0, i as int),
                    redeemer@,
                    relays,
                    now_ms,
                    expires,
                ),
                forall|k: int|
                    0 <= k < out@.len() ==> {
                        let cap = cap_of((#[trigger] out@[k]).1@);
                        &&& cap is Ok
                        &&& (cap->Ok_0).fabric_id == self.fabric_id@
                        &&& (cap->Ok_0).issuer == ed25519_public(self.signer@)
                        &&& (cap->Ok_0).recipient == redeemer@
                        &&& exists|j: int|
                            0 <= j < self.restricted@.len() && (#[trigger] self.restricted@[j]).0@
                                == out@[k].0@ && self.restricted@[j].1@ == (cap->Ok_0).server_id
                        &&& (cap->Ok_0).caps == MEMBER_CAPS
                        &&& (cap->Ok_0).issued_at == now_ms
                        &&& (cap->Ok_0).expires_at == expires
                    },
            decreases self.restricted@.len() - i,
        {
            let url = self.restricted[i].0.as_str();
            proof {
                let t = all.subrange(0, i + 1);
                assert(t.drop_last() =~= all.subrange(0, i as int));
                assert(t.last() == (self.restricted@[i as int].0@, self.restricted@[i as int].1@));
            }
            if is_invited(invite_relays, url) {
                match RelayCapV1::sign_and_encode(
                    self.signer,
                    &self.fabric_id,
                    &self.restricted[i].1,
                    redeemer,
                    MEMBER_CAPS,
                    now_ms,
                    expires,
                ) {
                    Ok(token) => {
                        let ghost before = pair_views(out@);
                        let ghost x = (url@, token@);
                        out.push((url.to_owned(), token));
                        assert(pair_views(out@) =~= before.push(x));
                        assert(self.restricted@[i as int].0@ == url@);
                    },
                    Err(_) => {},
                }
            }
            i = i + 1;
        }
        assert(all.subrange(0, i as int) =~= all);
        out
    }
}

} // verus!
