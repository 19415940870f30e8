//! Invites of the first version and their tokens.
//!
//! ```text
//! offset  size  field
//! 0       15    domain
//! 15      1     version         1
//! 16      32    fabric id
//! 48      16    invite id
//! 64      32    issuer
//! 96      2+n   relay URL, with its length
//! ..      1     number of direct addresses
//! ..      1+n   each direct address, with its length
//! ..      8     expiry, milliseconds
//! ..      1     1 if a recipient follows, else 0
//! ..      32    recipient, if there is one
//! ..      1     uses            1
//! ```
//!
//! A token is `dweb1.` and the URL-safe base64 text of the invite and its signature.
use vstd::prelude::*;
use vstd::string::*;
use vstd::utf8::*;

use crate::identity::{EndpointId, SecretKey, Signature};
use crate::octets::{
    array_at, be16, be64, be_value, bytes_eq, lemma_be_fields, lemma_be_widths, push_be, push_bytes,
    read_be16, read_be64,
};
use crate::outside::{
    base64url_bytes, base64url_decode, base64url_encode, ed25519_accepts, ed25519_key,
    ed25519_signature, utf8_text,
};
use crate::radix::base64url_of;
use crate::protocol::fact::{bad_key, key_at, FabricId};
use crate::protocol::{
    quarantine, Fault, ProtocolError, INVITE_DOMAIN, INVITE_VERSION, MAX_DIRECT_ADDRS,
    MAX_DIRECT_ADDR_BYTES, MAX_RELAY_URL_BYTES, TOKEN2_PREFIX, TOKEN_PREFIX,
};
use crate::text::{
    byte_list, byte_list_text, cat, cat3, cat5, decimal, decimal_text, hex_byte, hex_byte_text,
    text_after, text_starts_with,
};

verus! {

/// Length of the shortest invite.
pub const INVITE_MIN_LEN: usize = 109;

/// An invite: who invites, how to reach them, and whom.
#[derive(Debug, Clone, PartialEq, Eq)]
pub struct InviteV1 {
    pub fabric_id: FabricId,
    /// Names the invite, which can be used once.
    pub invite_id: [u8; 16],
    pub issuer: EndpointId,
    pub issuer_relay_url: String,
    pub issuer_direct_addrs: Vec<String>,
    pub expires_at_ms: u64,
    /// Whom the invite is bound to, if anyone.
    pub recipient: Option<EndpointId>,
}

/// What an [`InviteV1`] says.
#[verifier::ext_equal]
pub struct InviteView {
    pub fabric_id: Seq<u8>,
    pub invite_id: Seq<u8>,
    pub issuer: Seq<u8>,
    pub relay_url: Seq<char>,
    pub addrs: Seq<Seq<char>>,
    pub expires_at_ms: u64,
    pub recipient: Option<Seq<u8>>,
}

/// The views of a list of texts.
pub open spec fn text_views(s: Seq<String>) -> Seq<Seq<char>> {
    Seq::new(s.len(), |i: int| s[i]@)
}

impl View for InviteV1 {
    type V = InviteView;

    open spec fn view(&self) -> InviteView {
        InviteView {
            fabric_id: self.fabric_id@,
            invite_id: self.invite_id@,
            issuer: self.issuer@,
            relay_url: self.issuer_relay_url@,
            addrs: text_views(self.issuer_direct_addrs@),
            expires_at_ms: self.expires_at_ms,
            recipient: match self.recipient {
                Some(r) => Some(r@),
                None => None,
            },
        }
    }
}

// ---- writing ----------------------------------------------------------------------

pub open spec fn url_limit_text(n: nat) -> Seq<char> {
    "relay URL of "@ + decimal(n) + " bytes exceeds the "@ + decimal(2048) + " byte limit"@
}

pub open spec fn addr_count_text(n: nat) -> Seq<char> {
    decimal(n) + " direct addrs exceeds the limit of "@ + decimal(4)
}

pub open spec fn addr_limit_text(n: nat) -> Seq<char> {
    "direct addr of "@ + decimal(n) + " bytes exceeds the "@ + decimal(64) + " byte limit"@
}

/// The first direct address from place `i` on that is too long.
pub open spec fn long_addr(s: Seq<Seq<char>>, i: int) -> Option<Fault>
    decreases s.len() - i,
{
    if i < 0 || i >= s.len() {
        None
    } else if encode_utf8(s[i]).len() > MAX_DIRECT_ADDR_BYTES {
        Some(Fault::Encoding(addr_limit_text(encode_utf8(s[i]).len())))
    } else {
        long_addr(s, i + 1)
    }
}

/// Why an invite has no canonical form, if it has none.
pub open spec fn invite_fault(v: InviteView) -> Option<Fault> {
    if encode_utf8(v.relay_url).len() > MAX_RELAY_URL_BYTES {
        Some(Fault::Encoding(url_limit_text(encode_utf8(v.relay_url).len())))
    } else if v.addrs.len() > MAX_DIRECT_ADDRS {
        Some(Fault::Encoding(addr_count_text(v.addrs.len())))
    } else {
        long_addr(v.addrs, 0)
    }
}

/// A text with its length in one byte.
pub open spec fn short_text(t: Seq<char>) -> Seq<u8> {
    seq![encode_utf8(t).len() as u8] + encode_utf8(t)
}

/// A text with its length in two bytes.
pub open spec fn long_text(t: Seq<char>) -> Seq<u8> {
    be16(encode_utf8(t).len() as u16) + encode_utf8(t)
}

pub open spec fn addrs_bytes(s: Seq<Seq<char>>) -> Seq<u8>
    decreases s.len(),
{
    if s.len() == 0 {
        Seq::empty()
    } else {
        addrs_bytes(s.drop_last()) + short_text(s.last())
    }
}

pub open spec fn recipient_bytes(r: Option<Seq<u8>>) -> Seq<u8> {
    match r {
        Some(x) => seq![1u8] + x,
        None => seq![0u8],
    }
}

/// The part of an invite up to its issuer.
pub open spec fn invite_head(v: InviteView) -> Seq<u8> {
    INVITE_DOMAIN@ + seq![INVITE_VERSION] + v.fabric_id + v.invite_id + v.issuer
}

/// The part of an invite behind its addresses.
pub open spec fn invite_tail(expires_at_ms: u64, recipient: Option<Seq<u8>>) -> Seq<u8> {
    be64(expires_at_ms) + recipient_bytes(recipient) + seq![1u8]
}

/// The canonical bytes of an invite.
pub open spec fn invite_bytes(v: InviteView) -> Seq<u8> {
    invite_head(v) + long_text(v.relay_url) + seq![v.addrs.len() as u8] + addrs_bytes(v.addrs)
        + invite_tail(v.expires_at_ms, v.recipient)
}

// ---- reading ----------------------------------------------------------------------

pub open spec fn invite_truncated(what: Seq<char>) -> Fault {
    Fault::Quarantine("truncated canonical invite: "@ + what)
}

/// The relay URL at `off`, with its length, and where it ends.
pub open spec fn url_at(b: Seq<u8>, off: int) -> Result<(Seq<char>, int), Fault> {
    let n = be_value(b.subrange(off, off + 2)) as int;
    if n > MAX_RELAY_URL_BYTES {
        Err(Fault::Quarantine(url_limit_text(n as nat)))
    } else if b.len() < off + 2 + n {
        Err(invite_truncated("relay URL bytes"@))
    } else {
        let t = b.subrange(off + 2, off + 2 + n);
        if !valid_utf8(t) {
            Err(Fault::Quarantine("relay URL is not valid UTF-8"@))
        } else {
            Ok((decode_utf8(t), off + 2 + n))
        }
    }
}

/// `n` direct addresses at `off`, and where they end.
pub open spec fn addrs_at(b: Seq<u8>, off: int, n: nat) -> Result<(Seq<Seq<char>>, int), Fault>
    decreases n,
{
    if n == 0 {
        Ok((Seq::empty(), off))
    } else {
        match addrs_at(b, off, (n - 1) as nat) {
            Err(e) => Err(e),
            Ok((before, o)) => if b.len() < o + 1 {
                Err(invite_truncated("direct addr length prefix"@))
            } else {
                let k = b[o] as int;
                if k > MAX_DIRECT_ADDR_BYTES {
                    Err(Fault::Quarantine(addr_limit_text(k as nat)))
                } else if b.len() < o + 1 + k {
                    Err(invite_truncated("direct addr bytes"@))
                } else {
                    let t = b.subrange(o + 1, o + 1 + k);
                    if !valid_utf8(t) {
                        Err(Fault::Quarantine("direct addr is not valid UTF-8"@))
                    } else {
                        Ok((before.push(decode_utf8(t)), o + 1 + k))
                    }
                }
            },
        }
    }
}

/// Expiry and recipient at `off`, which end the invite.
pub open spec fn tail_at(b: Seq<u8>, off: int) -> Result<(u64, Option<Seq<u8>>), Fault> {
    if b.len() < off + 9 {
        Err(invite_truncated("expires_at_ms / flags"@))
    } else {
        let expires = be_value(b.subrange(off, off + 8)) as u64;
        let flags = b[off + 8];
        let o = off + 9;
        if flags > 1 {
            Err(Fault::Quarantine("reserved invite flag bits: 0x"@ + hex_byte(flags)))
        } else if flags == 1 && b.len() < o + 32 {
            Err(invite_truncated("recipient"@))
        } else if flags == 1 && !ed25519_key(b.subrange(o, o + 32)) {
            Err(bad_key())
        } else {
            let end = if flags == 1 {
                o + 32
            } else {
                o
            };
            if b.len() != end + 1 {
                Err(
                    Fault::Quarantine(
                        "invite length mismatch: expected "@ + decimal((end + 1) as nat)
                            + " bytes, got "@ + decimal(b.len()),
                    ),
                )
            } else if b[end] != 1 {
                Err(
                    Fault::Quarantine(
                        "invite max_uses must be 1, got "@ + decimal(b[end] as nat),
                    ),
                )
            } else {
                Ok(
                    (
                        expires,
                        if flags == 1 {
                            Some(b.subrange(o, o + 32))
                        } else {
                            None
                        },
                    ),
                )
            }
        }
    }
}

/// The invite that the whole of `b` is, or the first rule that the bytes break.
pub open spec fn invite_of(b: Seq<u8>) -> Result<InviteView, Fault> {
    if b.len() < INVITE_MIN_LEN {
        Err(invite_truncated("shorter than the fixed prefix"@))
    } else if b.subrange(0, 15) != INVITE_DOMAIN@ {
        Err(
            Fault::Quarantine(
                "bad invite domain "@ + byte_list(b) + " (expected "@ + byte_list(INVITE_DOMAIN@)
                    + ")"@,
            ),
        )
    } else if b[15] != INVITE_VERSION {
        Err(Fault::Quarantine("unsupported invite version 0x"@ + hex_byte(b[15])))
    } else if !ed25519_key(b.subrange(64, 96)) {
        Err(bad_key())
    } else {
        match url_at(b, 96) {
            Err(e) => Err(e),
            Ok((relay_url, o1)) => if b.len() < o1 + 1 {
                Err(invite_truncated("direct addr count"@))
            } else if b[o1] > MAX_DIRECT_ADDRS {
                Err(Fault::Quarantine(addr_count_text(b[o1] as nat)))
            } else {
                match addrs_at(b, o1 + 1, b[o1] as nat) {
                    Err(e) => Err(e),
                    Ok((addrs, o2)) => match tail_at(b, o2) {
                        Err(e) => Err(e),
                        Ok((expires_at_ms, recipient)) => Ok(
                            InviteView {
                                fabric_id: b.subrange(16, 48),
                                invite_id: b.subrange(48, 64),
                                issuer: b.subrange(64, 96),
                                relay_url,
                                addrs,
                                expires_at_ms,
                                recipient,
                            },
                        ),
                    },
                }
            },
        }
    }
}

/// The ids and keys of an invite have their lengths, and the keys are keys.
pub open spec fn invite_fields_ok(v: InviteView) -> bool {
    &&& v.fabric_id.len() == 32
    &&& v.invite_id.len() == 16
    &&& v.issuer.len() == 32
    &&& ed25519_key(v.issuer)
    &&& match v.recipient {
        Some(r) => r.len() == 32 && ed25519_key(r),
        None => true,
    }
}

/// An invite can be written exactly if its relay URL has at most 2048 bytes, and if it has
/// at most 4 direct addresses of at most 64 bytes each.
pub proof fn invites_that_fit_can_be_written(v: InviteView)
    ensures
        invite_fault(v) is None <==> {
            &&& encode_utf8(v.relay_url).len() <= 2048
            &&& v.addrs.len() <= 4
            &&& forall|i: int| 0 <= i < v.addrs.len() ==> encode_utf8(#[trigger] v.addrs[i]).len() <= 64
        },
{
    if v.addrs.len() <= 4 {
        lemma_long_addr(v.addrs, 0);
    }
}

proof fn lemma_long_addr(s: Seq<Seq<char>>, i: int)
    requires
        0 <= i,
    ensures
        long_addr(s, i) is None <==> forall|k: int|
            i <= k < s.len() ==> encode_utf8(#[trigger] s[k]).len() <= 64,
    decreases s.len() - i,
{
    if i < s.len() {
        lemma_long_addr(s, i + 1);
        if encode_utf8(s[i]).len() <= 64 && long_addr(s, i + 1) is None {
            assert forall|k: int| i <= k < s.len() implies encode_utf8(#[trigger] s[k]).len()
                <= 64 by {
                if k > i {
                    assert(i + 1 <= k);
                }
            }
        }
    }
}

proof fn lemma_short_addrs(s: Seq<Seq<char>>, i: int)
    requires
        0 <= i,
        long_addr(s, i) is None,
    ensures
        forall|k: int|
            i <= k < s.len() ==> encode_utf8(#[trigger] s[k]).len() <= MAX_DIRECT_ADDR_BYTES,
    decreases s.len() - i,
{
    if i < s.len() {
        lemma_short_addrs(s, i + 1);
    }
}

proof fn lemma_addrs_len(s: Seq<Seq<char>>)
    requires
        forall|k: int|
            0 <= k < s.len() ==> encode_utf8(#[trigger] s[k]).len() <= MAX_DIRECT_ADDR_BYTES,
    ensures
        addrs_bytes(s).len() <= 65 * s.len(),
    decreases s.len(),
{
    if s.len() > 0 {
        let t = s.drop_last();
        assert forall|k: int| 0 <= k < t.len() implies encode_utf8(#[trigger] t[k]).len()
            <= MAX_DIRECT_ADDR_BYTES by {
            assert(t[k] == s[k]);
        }
        lemma_addrs_len(t);
        assert(encode_utf8(s[s.len() - 1]).len() <= MAX_DIRECT_ADDR_BYTES);
    }
}

/// An invite has at most 2449 bytes.
pub proof fn lemma_invite_len(v: InviteView)
    requires
        v.fabric_id.len() == 32,
        v.invite_id.len() == 16,
        v.issuer.len() == 32,
        match v.recipient {
            Some(r) => r.len() == 32,
            None => true,
        },
        invite_fault(v) is None,
    ensures
        109 <= invite_bytes(v).len() <= 2449,
        invite_head(v).len() == 96,
{
    lemma_short_addrs(v.addrs, 0);
    lemma_addrs_len(v.addrs);
    lemma_be_widths(encode_utf8(v.relay_url).len() as u64);
    lemma_be_widths(v.expires_at_ms);
    assert(INVITE_DOMAIN@.len() == 15);
}

proof fn lemma_addrs_roundtrip(s: Seq<Seq<char>>, b: Seq<u8>, off: int)
    requires
        forall|k: int|
            0 <= k < s.len() ==> encode_utf8(#[trigger] s[k]).len() <= MAX_DIRECT_ADDR_BYTES,
        0 <= off,
        off + addrs_bytes(s).len() <= b.len(),
        b.subrange(off, off + addrs_bytes(s).len()) == addrs_bytes(s),
    ensures
        addrs_at(b, off, s.len()) == Ok::<(Seq<Seq<char>>, int), Fault>(
            (s, off + addrs_bytes(s).len()),
        ),
    decreases s.len(),
{
    if s.len() == 0 {
        assert(s =~= Seq::<Seq<char>>::empty());
    } else {
        let t = s.drop_last();
        let x = s.last();
        let u = encode_utf8(x);
        let all = addrs_bytes(s);
        let o = off + addrs_bytes(t).len();
        assert(encode_utf8(s[s.len() - 1]).len() <= MAX_DIRECT_ADDR_BYTES);
        assert forall|k: int| 0 <= k < t.len() implies encode_utf8(#[trigger] t[k]).len()
            <= MAX_DIRECT_ADDR_BYTES by {
            assert(t[k] == s[k]);
        }
        assert(b.subrange(off, o) =~= b.subrange(off, off + all.len()).subrange(
            0,
            addrs_bytes(t).len() as int,
        ));
        assert(all.subrange(0, addrs_bytes(t).len() as int) =~= addrs_bytes(t));
        lemma_addrs_roundtrip(t, b, off);
        let m = addrs_bytes(t).len() as int;
        assert(b[o] == b.subrange(off, off + all.len())[m]);
        assert(all[m] == u.len() as u8);
        assert(b.subrange(o + 1, o + 1 + u.len()) =~= b.subrange(off, off + all.len()).subrange(
            m + 1,
            m + 1 + u.len(),
        ));
        assert(all.subrange(m + 1, m + 1 + u.len()) =~= u);
        encode_utf8_valid_utf8(x);
        encode_utf8_decode_utf8(x);
        assert(t.push(x) =~= s);
    }
}

proof fn lemma_tail_roundtrip(b: Seq<u8>, off: int, expires_at_ms: u64, recipient: Option<Seq<u8>>)
    requires
        0 <= off,
        match recipient {
            Some(r) => r.len() == 32 && ed25519_key(r),
            None => true,
        },
        b.len() == off + invite_tail(expires_at_ms, recipient).len(),
        b.subrange(off, b.len() as int) == invite_tail(expires_at_ms, recipient),
    ensures
        tail_at(b, off) == Ok::<(u64, Option<Seq<u8>>), Fault>((expires_at_ms, recipient)),
{
    let t = invite_tail(expires_at_ms, recipient);
    let w = b.subrange(off, b.len() as int);
    lemma_be_widths(expires_at_ms);
    assert(b.subrange(off, off + 8) =~= w.subrange(0, 8));
    assert(t.subrange(0, 8) =~= be64(expires_at_ms));
    assert(b[off + 8] == w[8]);
    match recipient {
        Some(r) => {
            assert(t[8] == 1);
            assert(b.subrange(off + 9, off + 41) =~= w.subrange(9, 41));
            assert(t.subrange(9, 41) =~= r);
            assert(b[off + 41] == w[41]);
            assert(t[41] == 1);
        },
        None => {
            assert(t[8] == 0);
            assert(b[off + 9] == w[9]);
            assert(t[9] == 1);
        },
    }
}

/// Reading the canonical bytes of an invite gives the invite.
pub proof fn invite_roundtrip(v: InviteView)
    requires
        invite_fields_ok(v),
        invite_fault(v) is None,
    ensures
        invite_of(invite_bytes(v)) == Ok::<InviteView, Fault>(v),
{
    let b = invite_bytes(v);
    lemma_invite_len(v);
    lemma_short_addrs(v.addrs, 0);
    let u = encode_utf8(v.relay_url);
    lemma_be_widths(u.len() as u64);
    let a = addrs_bytes(v.addrs);
    let t = invite_tail(v.expires_at_ms, v.recipient);
    assert(INVITE_DOMAIN@.len() == 15);
    assert(b.subrange(0, 15) =~= INVITE_DOMAIN@);
    assert(b[15] == INVITE_VERSION);
    assert(b.subrange(16, 48) =~= v.fabric_id);
    assert(b.subrange(48, 64) =~= v.invite_id);
    assert(b.subrange(64, 96) =~= v.issuer);
    assert(b.subrange(96, 98) =~= be16(u.len() as u16));
    assert(b.subrange(98, 98 + u.len() as int) =~= u);
    encode_utf8_valid_utf8(v.relay_url);
    encode_utf8_decode_utf8(v.relay_url);
    let o1 = 98 + u.len() as int;
    assert(url_at(b, 96) == Ok::<(Seq<char>, int), Fault>((v.relay_url, o1)));
    assert(b[o1] == v.addrs.len() as u8);
    assert(b.subrange(o1 + 1, o1 + 1 + a.len()) =~= a);
    lemma_addrs_roundtrip(v.addrs, b, o1 + 1);
    let o2 = o1 + 1 + a.len();
    assert(b.subrange(o2, b.len() as int) =~= t);
    lemma_tail_roundtrip(b, o2, v.expires_at_ms, v.recipient);
}

proof fn lemma_addrs_canonical(b: Seq<u8>, off: int, n: nat)
    requires
        0 <= off <= b.len(),
        n <= MAX_DIRECT_ADDRS,
        addrs_at(b, off, n) is Ok,
    ensures
        ({
            let (s, o) = addrs_at(b, off, n)->Ok_0;
            &&& s.len() == n
            &&& off <= o <= b.len()
            &&& addrs_bytes(s) == b.subrange(off, o)
            &&& forall|k: int|
                0 <= k < s.len() ==> encode_utf8(#[trigger] s[k]).len() <= MAX_DIRECT_ADDR_BYTES
        }),
    decreases n,
{
    if n > 0 {
        lemma_addrs_canonical(b, off, (n - 1) as nat);
        let (t, m) = addrs_at(b, off, (n - 1) as nat)->Ok_0;
        let (s, o) = addrs_at(b, off, n)->Ok_0;
        let k = b[m] as int;
        let u = b.subrange(m + 1, m + 1 + k);
        decode_utf8_encode_utf8(u);
        assert(s.drop_last() =~= t);
        assert(short_text(s.last()) =~= b.subrange(m, o));
        assert(b.subrange(off, o) =~= b.subrange(off, m) + b.subrange(m, o));
        assert forall|j: int| 0 <= j < s.len() implies encode_utf8(#[trigger] s[j]).len()
            <= MAX_DIRECT_ADDR_BYTES by {
            if j < t.len() {
                assert(s[j] == t[j]);
            }
        }
    } else {
        assert(b.subrange(off, off) =~= Seq::<u8>::empty());
    }
}

proof fn lemma_no_long_addr(s: Seq<Seq<char>>, i: int)
    requires
        0 <= i,
        forall|k: int|
            0 <= k < s.len() ==> encode_utf8(#[trigger] s[k]).len() <= MAX_DIRECT_ADDR_BYTES,
    ensures
        long_addr(s, i) is None,
    decreases s.len() - i,
{
    if i < s.len() {
        assert(encode_utf8(s[i]).len() <= MAX_DIRECT_ADDR_BYTES);
        lemma_no_long_addr(s, i + 1);
    }
}

/// Bytes that are read as an invite are its canonical bytes.
pub proof fn invite_is_canonical(b: Seq<u8>)
    requires
        invite_of(b) is Ok,
    ensures
        invite_fields_ok(invite_of(b)->Ok_0),
        invite_fault(invite_of(b)->Ok_0) is None,
        invite_bytes(invite_of(b)->Ok_0) == b,
{
    let v = invite_of(b)->Ok_0;
    assert(INVITE_DOMAIN@.len() == 15);
    let (url, o1) = url_at(b, 96)->Ok_0;
    lemma_be_fields(b.subrange(96, 98));
    decode_utf8_encode_utf8(b.subrange(98, o1));
    lemma_addrs_canonical(b, o1 + 1, b[o1] as nat);
    let (addrs, o2) = addrs_at(b, o1 + 1, b[o1] as nat)->Ok_0;
    lemma_no_long_addr(addrs, 0);
    lemma_be_fields(b.subrange(o2, o2 + 8));
    assert(invite_head(v) =~= b.subrange(0, 96));
    assert(long_text(url) =~= b.subrange(96, o1));
    assert(invite_tail(v.expires_at_ms, v.recipient) =~= b.subrange(o2, b.len() as int));
    assert(invite_bytes(v) =~= b);
}

impl InviteV1 {
    /// The canonical bytes, which are what is signed.
    pub fn canonical_bytes(&self) -> (r: Result<Vec<u8>, ProtocolError>)
        ensures
            match invite_fault(self@) {
                None => r is Ok && r->Ok_0@ == invite_bytes(self@),
                Some(e) => r is Err && r->Err_0@ == e,
            },
    {
        let url = self.issuer_relay_url.as_str().as_bytes();
        if url.len() > MAX_RELAY_URL_BYTES {
            return Err(ProtocolError::Encoding(url_limit_message(url.len())));
        }
        let n: usize = self.issuer_direct_addrs.len();
        if n > MAX_DIRECT_ADDRS {
            return Err(ProtocolError::Encoding(addr_count_message(n)));
        }
        let ghost v = self@;
        let mut i: usize = 0;
        while i < n
            invariant
                i <= n,
                n == self.issuer_direct_addrs@.len(),
                v == self@,
                encode_utf8(v.relay_url).len() <= MAX_RELAY_URL_BYTES,
                n <= MAX_DIRECT_ADDRS,
                long_addr(v.addrs, 0) == long_addr(v.addrs, i as int),
            decreases n - i,
        {
            let k: usize = self.issuer_direct_addrs[i].as_str().as_bytes().len();
            if k > MAX_DIRECT_ADDR_BYTES {
                return Err(ProtocolError::Encoding(addr_limit_message(k)));
            }
            i = i + 1;
        }
        let mut buf: Vec<u8> = Vec::new();
        push_bytes(&mut buf, &INVITE_DOMAIN);
        buf.push(INVITE_VERSION);
        push_bytes(&mut buf, self.fabric_id.as_bytes());
        push_bytes(&mut buf, &self.invite_id);
        push_bytes(&mut buf, self.issuer.as_bytes());
        assert(buf@ =~= invite_head(v));
        push_be(&mut buf, url.len() as u64, 2);
        push_bytes(&mut buf, url);
        buf.push(n as u8);
        let ghost start = invite_head(v) + long_text(v.relay_url) + seq![v.addrs.len() as u8];
        assert(buf@ =~= start);
        let mut j: usize = 0;
        assert(v.addrs.subrange(0, 0) =~= Seq::<Seq<char>>::empty());
        assert(start + addrs_bytes(v.addrs.subrange(0, 0)) =~= start);
        while j < n
            invariant
                j <= n,
                n == self.issuer_direct_addrs@.len(),
                v == self@,
                buf@ == start + addrs_bytes(v.addrs.subrange(0, j as int)),
                long_addr(v.addrs, 0) is None,
            decreases n - j,
        {
            let a = self.issuer_direct_addrs[j].as_str().as_bytes();
            proof {
                lemma_short_addrs(v.addrs, 0);
                assert(encode_utf8(v.addrs[j as int]).len() <= MAX_DIRECT_ADDR_BYTES);
            }
            buf.push(a.len() as u8);
            push_bytes(&mut buf, a);
            proof {
                let t = v.addrs.subrange(0, j + 1);
                assert(t.drop_last() =~= v.addrs.subrange(0, j as int));
                assert(t.last() == v.addrs[j as int]);
                assert(buf@ =~= start + addrs_bytes(t));
            }
            j = j + 1;
        }
        assert(v.addrs.subrange(0, n as int) =~= v.addrs);
        push_be(&mut buf, self.expires_at_ms, 8);
        match &self.recipient {
            Some(r) => {
                buf.push(1);
                push_bytes(&mut buf, r.as_bytes());
            },
            None => {
                buf.push(0);
            },
        }
        buf.push(1);
        assert(buf@ =~= invite_bytes(v));
        Ok(buf)
    }

    /// Reads exactly one canonical invite.
    pub fn decode_strict(bytes: &[u8]) -> (r: Result<Self, ProtocolError>)
        ensures
            match invite_of(bytes@) {
                Ok(v) => r is Ok && r->Ok_0@ == v,
                Err(e) => r is Err && r->Err_0@ == e,
            },
    {
        let len: usize = bytes.len();
        if len < INVITE_MIN_LEN {
            return Err(truncated("shorter than the fixed prefix"));
        }
        let domain = array_at::<15>(bytes, 0);
        if !bytes_eq(&domain, &INVITE_DOMAIN) {
            return Err(
                quarantine(
                    cat5(
                        "bad invite domain ",
                        byte_list_text(bytes).as_str(),
                        " (expected ",
                        byte_list_text(&INVITE_DOMAIN).as_str(),
                        ")",
                    ),
                ),
            );
        }
        if bytes[15] != INVITE_VERSION {
            return Err(
                quarantine(
                    cat("unsupported invite version 0x", hex_byte_text(bytes[15]).as_str()),
                ),
            );
        }
        let fabric_id = FabricId(array_at::<32>(bytes, 16));
        let invite_id = array_at::<16>(bytes, 48);
        let issuer = match key_at(bytes, 64) {
            Ok(k) => k,
            Err(e) => return Err(e),
        };
        let (issuer_relay_url, o1) = match read_url(bytes) {
            Ok(x) => x,
            Err(e) => return Err(e),
        };
        if len - o1 < 1 {
            return Err(truncated("direct addr count"));
        }
        let n: usize = bytes[o1] as usize;
        if n > MAX_DIRECT_ADDRS {
            return Err(quarantine(addr_count_message(n)));
        }
        let (issuer_direct_addrs, o2) = match read_addrs(bytes, o1 + 1, n) {
            Ok(x) => x,
            Err(e) => return Err(e),
        };
        let (expires_at_ms, recipient) = match read_tail(bytes, o2) {
            Ok(x) => x,
            Err(e) => return Err(e),
        };
        Ok(
            InviteV1 {
                fabric_id,
                invite_id,
                issuer,
                issuer_relay_url,
                issuer_direct_addrs,
                expires_at_ms,
                recipient,
            },
        )
    }

    /// Whether the invite has expired, which it has at the moment of its expiry.
    pub fn is_expired(&self, now_ms: u64) -> (r: bool)
        ensures
            r == (now_ms >= self@.expires_at_ms),
    {
        now_ms >= self.expires_at_ms
    }
}

pub(crate) fn url_limit_message(n: usize) -> (r: String)
    ensures
        r@ == url_limit_text(n as nat),
{
    cat5(
        "relay URL of ",
        decimal_text(n as u64).as_str(),
        " bytes exceeds the ",
        decimal_text(2048).as_str(),
        " byte limit",
    )
}

pub(crate) fn addr_count_message(n: usize) -> (r: String)
    ensures
        r@ == addr_count_text(n as nat),
{
    cat3(
        decimal_text(n as u64).as_str(),
        " direct addrs exceeds the limit of ",
        decimal_text(4).as_str(),
    )
}

fn addr_limit_message(n: usize) -> (r: String)
    ensures
        r@ == addr_limit_text(n as nat),
{
    cat5(
        "direct addr of ",
        decimal_text(n as u64).as_str(),
        " bytes exceeds the ",
        decimal_text(64).as_str(),
        " byte limit",
    )
}

fn truncated(what: &str) -> (r: ProtocolError)
    ensures
        r@ == invite_truncated(what@),
{
    quarantine(cat("truncated canonical invite: ", what))
}

fn read_url(bytes: &[u8]) -> (r: Result<(String, usize), ProtocolError>)
    requires
        bytes@.len() >= INVITE_MIN_LEN,
    ensures
        match url_at(bytes@, 96) {
            Ok((t, o)) => r is Ok && (r->Ok_0).0@ == t && (r->Ok_0).1 == o && o <= bytes@.len()
                && o <= 2146,
            Err(e) => r is Err && r->Err_0@ == e,
        },
{
    let len: usize = bytes.len();
    let n: usize = read_be16(bytes, 96) as usize;
    if n > MAX_RELAY_URL_BYTES {
        return Err(quarantine(url_limit_message(n)));
    }
    if len - 98 < n {
        return Err(truncated("relay URL bytes"));
    }
    match utf8_text(vstd::slice::slice_subrange(bytes, 98, 98 + n)) {
        Some(t) => Ok((t, 98 + n)),
        None => Err(quarantine("relay URL is not valid UTF-8".to_owned())),
    }
}

/// A fault in the first addresses is a fault in more of them.
proof fn lemma_addrs_err(b: Seq<u8>, off: int, i: nat, n: nat)
    requires
        i <= n,
        addrs_at(b, off, i) is Err,
    ensures
        addrs_at(b, off, n) == addrs_at(b, off, i),
    decreases n,
{
    if i < n {
        lemma_addrs_err(b, off, i, (n - 1) as nat);
    }
}

fn read_addrs(bytes: &[u8], off: usize, n: usize) -> (r: Result<(Vec<String>, usize), ProtocolError>)
    requires
        off <= bytes@.len(),
    ensures
        match addrs_at(bytes@, off as int, n as nat) {
            Ok((s, o)) => r is Ok && text_views((r->Ok_0).0@) == s && (r->Ok_0).1 == o && o
                <= bytes@.len() && o <= off + 65 * n,
            Err(e) => r is Err && r->Err_0@ == e,
        },
{
    let len: usize = bytes.len();
    let mut out: Vec<String> = Vec::new();
    let mut o: usize = off;
    let mut i: usize = 0;
    assert(text_views(out@) =~= Seq::<Seq<char>>::empty());
    while i < n
        invariant
            i <= n,
            o <= len,
            o <= off + 65 * i,
            len == bytes@.len(),
            addrs_at(bytes@, off as int, i as nat) == Ok::<(Seq<Seq<char>>, int), Fault>(
                (text_views(out@), o as int),
            ),
        decreases n - i,
    {
        let ghost next = addrs_at(bytes@, off as int, (i + 1) as nat);
        proof {
            if next is Err {
                lemma_addrs_err(bytes@, off as int, (i + 1) as nat, n as nat);
            }
        }
        if len - o < 1 {
            return Err(truncated("direct addr length prefix"));
        }
        let k: usize = bytes[o] as usize;
        if k > MAX_DIRECT_ADDR_BYTES {
            return Err(quarantine(addr_limit_message(k)));
        }
        if len - o - 1 < k {
            return Err(truncated("direct addr bytes"));
        }
        let t = match utf8_text(vstd::slice::slice_subrange(bytes, o + 1, o + 1 + k)) {
            Some(t) => t,
            None => return Err(quarantine("direct addr is not valid UTF-8".to_owned())),
        };
        let ghost before = text_views(out@);
        let ghost x = t@;
        out.push(t);
        assert(text_views(out@) =~= before.push(x));
        o = o + 1 + k;
        i = i + 1;
    }
    Ok((out, o))
}

fn read_tail(bytes: &[u8], off: usize) -> (r: Result<(u64, Option<EndpointId>), ProtocolError>)
    requires
        off <= bytes@.len(),
        off <= 3000,
    ensures
        match tail_at(bytes@, off as int) {
            Ok((x, recipient)) => r is Ok && (r->Ok_0).0 == x && match (r->Ok_0).1 {
                Some(id) => recipient == Some(id@),
                None => recipient is None,
            },
            Err(e) => r is Err && r->Err_0@ == e,
        },
{
    let len: usize = bytes.len();
    if len - off < 9 {
        return Err(truncated("expires_at_ms / flags"));
    }
    let expires_at_ms: u64 = read_be64(bytes, off);
    let flags: u8 = bytes[off + 8];
    let mut o: usize = off + 9;
    if flags > 1 {
        return Err(
            quarantine(cat("reserved invite flag bits: 0x", hex_byte_text(flags).as_str())),
        );
    }
    let mut recipient: Option<EndpointId> = None;
    if flags == 1 {
        if len - o < 32 {
            return Err(truncated("recipient"));
        }
        match key_at(bytes, o) {
            Ok(id) => {
                recipient = Some(id);
            },
            Err(e) => return Err(e),
        }
        o = o + 32;
    }
    if len - o != 1 {
        return Err(
            quarantine(
                cat(
                    cat3(
                        "invite length mismatch: expected ",
                        decimal_text(o as u64 + 1).as_str(),
                        " bytes, got ",
                    ).as_str(),
                    decimal_text(len as u64).as_str(),
                ),
            ),
        );
    }
    if bytes[o] != 1 {
        return Err(
            quarantine(
                cat(
                    "invite max_uses must be 1, got ",
                    decimal_text(bytes[o] as u64).as_str(),
                ),
            ),
        );
    }
    Ok((expires_at_ms, recipient))
}

// ---- tokens -----------------------------------------------------------------------

/// An invite and the signature of its issuer.
#[derive(Debug, Clone, PartialEq, Eq)]
pub struct InviteToken {
    pub invite: InviteV1,
    pub signature: Signature,
}

/// What an [`InviteToken`] holds.
#[verifier::ext_equal]
pub struct TokenView {
    pub invite: InviteView,
    pub signature: Seq<u8>,
}

impl View for InviteToken {
    type V = TokenView;

    open spec fn view(&self) -> TokenView {
        TokenView { invite: self.invite@, signature: self.signature@ }
    }
}

/// Why the signature of a token does not hold, if it does not.
pub open spec fn token_fault(t: TokenView) -> Option<Fault> {
    match invite_fault(t.invite) {
        Some(e) => Some(e),
        None => if ed25519_accepts(t.invite.issuer, invite_bytes(t.invite), t.signature) {
            None
        } else {
            Some(Fault::Quarantine("invite signature verification failed"@))
        },
    }
}

/// The text of a token.
pub open spec fn token_text(t: TokenView) -> Seq<char> {
    TOKEN_PREFIX@ + base64url_of(invite_bytes(t.invite) + t.signature)
}

/// The token that the bytes of its text are.
pub open spec fn token_of_payload(p: Seq<u8>) -> Result<TokenView, Fault> {
    if p.len() < 64 {
        Err(Fault::Quarantine("token payload shorter than a signature"@))
    } else {
        let split = p.len() - 64;
        match invite_of(p.subrange(0, split)) {
            Err(e) => Err(e),
            Ok(invite) => {
                let t = TokenView { invite, signature: p.subrange(split, p.len() as int) };
                if token_fault(t) is Some {
                    Err(Fault::Quarantine("invite token signature verification failed"@))
                } else {
                    Ok(t)
                }
            },
        }
    }
}

/// Why a token of the second version is refused here.
pub open spec fn version_text() -> Seq<char> {
    "invite token is v2 (dweb2.) but this decoder supports v1 only; upgrade the SDK to redeem v2 invites"@
}

/// The token of a text.
pub open spec fn token_of(s: Seq<char>) -> Result<TokenView, Fault> {
    if TOKEN2_PREFIX@.is_prefix_of(s) {
        Err(Fault::Unsupported(version_text()))
    } else if !TOKEN_PREFIX@.is_prefix_of(s) {
        Err(Fault::Quarantine("token does not start with \"dweb1.\""@))
    } else {
        let text = s.subrange(TOKEN_PREFIX@.len() as int, s.len() as int);
        match base64url_bytes(text) {
            Err(e) => Err(Fault::Quarantine("token base64 decoding failed: "@ + e)),
            Ok(p) => token_of_payload(p),
        }
    }
}

/// A token with a signature that holds is read back from its text.
pub proof fn invite_token_roundtrip(t: TokenView)
    requires
        invite_fields_ok(t.invite),
        t.signature.len() == 64,
        token_fault(t) is None,
    ensures
        token_of_payload(invite_bytes(t.invite) + t.signature) == Ok::<TokenView, Fault>(t),
        base64url_bytes(base64url_of(invite_bytes(t.invite) + t.signature)) == Ok::<
            Seq<u8>,
            Seq<char>,
        >(invite_bytes(t.invite) + t.signature) ==> token_of(token_text(t)) == Ok::<TokenView, Fault>(t),
{
    let p = invite_bytes(t.invite) + t.signature;
    invite_roundtrip(t.invite);
    assert(p.subrange(0, p.len() - 64) =~= invite_bytes(t.invite));
    assert(p.subrange(p.len() - 64, p.len() as int) =~= t.signature);
    let s = token_text(t);
    reveal_strlit("dweb1.");
    reveal_strlit("dweb2.");
    assert(s.subrange(0, 6) =~= TOKEN_PREFIX@);
    assert(s[4] == '1');
    if TOKEN2_PREFIX@.is_prefix_of(s) {
        assert(s.subrange(0, 6)[4] == TOKEN2_PREFIX@[4]);
    }
    assert(s.subrange(6, s.len() as int) =~= base64url_of(p));
}

impl InviteToken {
    /// Signs an invite.
    pub fn sign(invite: InviteV1, secret: &SecretKey) -> (r: Result<Self, ProtocolError>)
        ensures
            match invite_fault(invite@) {
                None => r is Ok && r->Ok_0@ == (TokenView {
                    invite: invite@,
                    signature: ed25519_signature(secret@, invite_bytes(invite@)),
                }),
                Some(e) => r is Err && r->Err_0@ == e,
            },
    {
        let bytes = match invite.canonical_bytes() {
            Ok(b) => b,
            Err(e) => return Err(e),
        };
        let signature = secret.sign(bytes.as_slice());
        Ok(InviteToken { invite, signature })
    }

    /// The text of the token; with a signature that holds it reads back as the token.
    pub fn encode(&self) -> (r: Result<String, ProtocolError>)
        ensures
            match invite_fault(self@.invite) {
                None => {
                    &&& r is Ok
                    &&& r->Ok_0@ == token_text(self@)
                    &&& token_fault(self@) is None ==> token_of(r->Ok_0@) == Ok::<
                        TokenView,
                        Fault,
                    >(self@)
                },
                Some(e) => r is Err && r->Err_0@ == e,
            },
    {
        let mut payload = match self.invite.canonical_bytes() {
            Ok(b) => b,
            Err(e) => return Err(e),
        };
        proof {
            lemma_invite_len(self.invite@);
        }
        push_bytes(&mut payload, &self.signature.0);
        let text = base64url_encode(payload.as_slice());
        proof {
            use_type_invariant(&self.invite.issuer);
        }
        if let Some(recipient) = &self.invite.recipient {
            proof {
                use_type_invariant(recipient);
            }
        }
        proof {
            if token_fault(self@) is None {
                assert(invite_fields_ok(self@.invite));
                invite_token_roundtrip(self@);
            }
        }
        Ok(cat(TOKEN_PREFIX, text.as_str()))
    }

    /// Reads a token and checks its signature.
    pub fn decode(s: &str) -> (r: Result<Self, ProtocolError>)
        ensures
            match token_of(s@) {
                Ok(t) => r is Ok && r->Ok_0@ == t,
                Err(e) => r is Err && r->Err_0@ == e,
            },
    {
        if text_starts_with(s, TOKEN2_PREFIX) {
            return Err(
                ProtocolError::UnsupportedInviteVersion(
                    "invite token is v2 (dweb2.) but this decoder supports v1 only; upgrade the SDK to redeem v2 invites".to_owned(),
                ),
            );
        }
        let text = match text_after(s, TOKEN_PREFIX) {
            Some(t) => t,
            None => {
                return Err(quarantine("token does not start with \"dweb1.\"".to_owned()));
            },
        };
        match base64url_decode(text.as_str()) {
            Ok(p) => Self::from_payload(p.as_slice()),
            Err(e) => Err(quarantine(cat("token base64 decoding failed: ", e.as_str()))),
        }
    }

    /// Reads a token from the bytes of its text and checks its signature.
    pub fn from_payload(payload: &[u8]) -> (r: Result<Self, ProtocolError>)
        ensures
            match token_of_payload(payload@) {
                Ok(t) => r is Ok && r->Ok_0@ == t,
                Err(e) => r is Err && r->Err_0@ == e,
            },
    {
        if payload.len() < 64 {
            return Err(quarantine("token payload shorter than a signature".to_owned()));
        }
        let split: usize = payload.len() - 64;
        let invite = match InviteV1::decode_strict(
            vstd::slice::slice_subrange(payload, 0, split),
        ) {
            Ok(v) => v,
            Err(e) => return Err(e),
        };
        let signature = Signature(array_at::<64>(payload, split));
        let token = InviteToken { invite, signature };
        match token.verify() {
            Ok(()) => Ok(token),
            Err(_) => Err(quarantine("invite token signature verification failed".to_owned())),
        }
    }

    /// Whether the signature is that of the issuer.
    pub fn verify(&self) -> (r: Result<(), ProtocolError>)
        ensures
            match token_fault(self@) {
                None => r is Ok,
                Some(e) => r is Err && r->Err_0@ == e,
            },
    {
        let bytes = match self.invite.canonical_bytes() {
            Ok(b) => b,
            Err(e) => return Err(e),
        };
        if self.invite.issuer.verify(bytes.as_slice(), &self.signature) {
            Ok(())
        } else {
            Err(quarantine("invite signature verification failed".to_owned()))
        }
    }

    /// Whether the invite has expired.
    pub fn is_expired(&self, now_ms: u64) -> (r: bool)
        ensures
            r == (now_ms >= self@.invite.expires_at_ms),
    {
        self.invite.is_expired(now_ms)
    }
}

/// What the invitee signs to prove possession of its key.
pub open spec fn pop_bytes(fabric_id: Seq<u8>, invite_id: Seq<u8>, challenge: Seq<u8>) -> Seq<u8> {
    crate::protocol::POP_DOMAIN@ + fabric_id + invite_id + challenge
}

/// What the invitee signs to prove possession of its key.
pub fn redeem_challenge_bytes(
    fabric_id: &FabricId,
    invite_id: &[u8; 16],
    challenge: &[u8; 32],
) -> (r: Vec<u8>)
    ensures
        r@ == pop_bytes(fabric_id@, invite_id@, challenge@),
{
    let mut out: Vec<u8> = Vec::new();
    push_bytes(&mut out, &crate::protocol::POP_DOMAIN);
    push_bytes(&mut out, fabric_id.as_bytes());
    push_bytes(&mut out, invite_id);
    push_bytes(&mut out, challenge);
    assert(out@ =~= pop_bytes(fabric_id@, invite_id@, challenge@));
    out
}

/// Proofs for another fabric, invite or challenge sign other bytes.
pub proof fn proofs_are_bound_to_their_challenge(
    f: Seq<u8>,
    i: Seq<u8>,
    c: Seq<u8>,
    f2: Seq<u8>,
    i2: Seq<u8>,
    c2: Seq<u8>,
)
    requires
        f.len() == 32,
        f2.len() == 32,
        i.len() == 16,
        i2.len() == 16,
        c.len() == 32,
        c2.len() == 32,
        pop_bytes(f, i, c) == pop_bytes(f2, i2, c2),
    ensures
        f == f2 && i == i2 && c == c2,
{
    let a = pop_bytes(f, i, c);
    let b = pop_bytes(f2, i2, c2);
    assert(crate::protocol::POP_DOMAIN@.len() == 19);
    assert(a.subrange(19, 51) =~= f && b.subrange(19, 51) =~= f2);
    assert(a.subrange(51, 67) =~= i && b.subrange(51, 67) =~= i2);
    assert(a.subrange(67, 99) =~= c && b.subrange(67, 99) =~= c2);
}

} // verus!
