//! Invites of the second version and their tokens.
//!
//! ```text
//! offset  size  field
//! 0       15    domain
//! 15      1     version         2
//! 16      32    fabric id
//! 48      16    invite id
//! 64      32    issuer
//! 96      8     expiry, milliseconds
//! 104     32    recipient
//! 136     1     number of relays
//! ..      ..    each relay: URL and capability, with their lengths
//! ..      1     number of direct addresses
//! ..      ..    each direct address: family tag, address, port
//! ```
//!
//! A token is `dweb2.` and the URL-safe base64 text of the invite and its signature. The
//! recipient is always given, and a capability inside an invite is for that recipient and
//! does not outlive the invite.
use vstd::prelude::*;
use vstd::string::*;
use vstd::utf8::*;

use crate::identity::{EndpointId, SecretKey, Signature};
use crate::octets::{
    array_at, be16, be64, be_value, bytes_eq, lemma_be_fields, lemma_be_widths, push_be,
    push_bytes, read_be16, read_be64,
};
use crate::outside::{
    base64url_bytes, base64url_decode, base64url_encode, ed25519_accepts, ed25519_key,
    ed25519_signature, utf8_text,
};
use crate::radix::base64url_of;
use crate::protocol::fact::{bad_key, key_at, FabricId};
use crate::protocol::invite::{
    addr_count_message, addr_count_text, long_text, token_of, url_limit_message, url_limit_text,
    InviteToken, TokenView,
};
use crate::protocol::relay_cap::{cap_of, lemma_cap_len, CapView, RelayCapV1};
use crate::protocol::{
    fault_text, quarantine, Fault, ProtocolError, INVITE2_DOMAIN, INVITE2_VERSION,
    MAX_DIRECT_ADDRS, MAX_RELAYS_V2, MAX_RELAY_CAP_BYTES, MAX_RELAY_URL_BYTES, TOKEN2_PREFIX,
};
use crate::text::{
    byte_list, byte_list_text, cat, cat3, cat5, decimal, decimal_text, hex_byte, hex_byte_text,
    text_after, text_starts_with,
};

verus! {

/// Length of the part of an invite before its relays.
pub const INVITE2_FIXED_LEN: usize = 136;

/// Length of the shortest invite.
pub const INVITE2_MIN_LEN: usize = 138;

/// Family tag of an IPv4 address.
pub const ADDR_FAMILY_V4: u8 = 4;

/// Family tag of an IPv6 address.
pub const ADDR_FAMILY_V6: u8 = 6;

/// A relay of an invite.
#[derive(Debug, Clone, PartialEq, Eq)]
pub struct InviteRelayV2 {
    pub url: String,
    /// The token of a capability for that relay, if there is one.
    pub capability: Option<String>,
}

/// An address and a port.
#[derive(Debug, Clone, Copy, PartialEq, Eq)]
pub enum DirectAddr {
    V4 { ip: [u8; 4], port: u16 },
    V6 { ip: [u8; 16], port: u16 },
}

/// An invite: who invites whom, and how to reach them.
#[derive(Debug, Clone, PartialEq, Eq)]
pub struct InviteV2 {
    pub fabric_id: FabricId,
    /// Names the invite, which can be used once.
    pub invite_id: [u8; 16],
    pub issuer: EndpointId,
    pub expires_at_ms: u64,
    pub recipient: EndpointId,
    /// Relays in the order in which they are to be tried.
    pub relays: Vec<InviteRelayV2>,
    pub direct_addrs: Vec<DirectAddr>,
}

/// What an [`InviteRelayV2`] says.
#[verifier::ext_equal]
pub struct RelayView {
    pub url: Seq<char>,
    pub capability: Option<Seq<char>>,
}

/// What a [`DirectAddr`] says.
pub enum AddrView {
    V4(Seq<u8>, u16),
    V6(Seq<u8>, u16),
}

/// What an [`InviteV2`] says.
#[verifier::ext_equal]
pub struct Invite2View {
    pub fabric_id: Seq<u8>,
    pub invite_id: Seq<u8>,
    pub issuer: Seq<u8>,
    pub expires_at_ms: u64,
    pub recipient: Seq<u8>,
    pub relays: Seq<RelayView>,
    pub addrs: Seq<AddrView>,
}

impl View for InviteRelayV2 {
    type V = RelayView;

    open spec fn view(&self) -> RelayView {
        RelayView {
            url: self.url@,
            capability: match self.capability {
                Some(c) => Some(c@),
                None => None,
            },
        }
    }
}

impl View for DirectAddr {
    type V = AddrView;

    open spec fn view(&self) -> AddrView {
        match self {
            DirectAddr::V4 { ip, port } => AddrView::V4(ip@, *port),
            DirectAddr::V6 { ip, port } => AddrView::V6(ip@, *port),
        }
    }
}

pub open spec fn relay_views(s: Seq<InviteRelayV2>) -> Seq<RelayView> {
    Seq::new(s.len(), |i: int| s[i]@)
}

pub open spec fn addr_views(s: Seq<DirectAddr>) -> Seq<AddrView> {
    Seq::new(s.len(), |i: int| s[i]@)
}

impl View for InviteV2 {
    type V = Invite2View;

    open spec fn view(&self) -> Invite2View {
        Invite2View {
            fabric_id: self.fabric_id@,
            invite_id: self.invite_id@,
            issuer: self.issuer@,
            expires_at_ms: self.expires_at_ms,
            recipient: self.recipient@,
            relays: relay_views(self.relays@),
            addrs: addr_views(self.direct_addrs@),
        }
    }
}

// ---- writing ----------------------------------------------------------------------

pub open spec fn relay_count_text(n: nat) -> Seq<char> {
    decimal(n) + " relays exceeds the limit of "@ + decimal(8)
}

pub open spec fn cap_limit_text(n: nat) -> Seq<char> {
    "relay capability of "@ + decimal(n) + " bytes exceeds the "@ + decimal(512) + " byte limit"@
}

/// Why a capability does not fit an invite, if it does not.
pub open spec fn cap_mismatch(cap: CapView, recipient: Seq<u8>, expires_at_ms: u64) -> Option<
    Seq<char>,
> {
    if cap.recipient != recipient {
        Some("relay capability recipient does not match the invite recipient"@)
    } else if cap.expires_at > expires_at_ms {
        Some("relay capability expires after the invite expires"@)
    } else {
        None
    }
}

/// Why a relay cannot stand in an invite, if it cannot.
pub open spec fn relay_fault(r: RelayView, recipient: Seq<u8>, expires_at_ms: u64) -> Option<Fault> {
    if encode_utf8(r.url).len() > MAX_RELAY_URL_BYTES {
        Some(Fault::Encoding(url_limit_text(encode_utf8(r.url).len())))
    } else {
        match r.capability {
            None => None,
            Some(c) => if encode_utf8(c).len() > MAX_RELAY_CAP_BYTES {
                Some(Fault::Encoding(cap_limit_text(encode_utf8(c).len())))
            } else {
                match cap_of(c) {
                    Err(e) => Some(
                        Fault::Encoding("relay capability invalid: "@ + fault_text(e)),
                    ),
                    Ok(cap) => match cap_mismatch(cap, recipient, expires_at_ms) {
                        Some(t) => Some(Fault::Encoding(t)),
                        None => None,
                    },
                }
            },
        }
    }
}

/// The first fault of a relay from place `i` on.
pub open spec fn relays_fault(
    s: Seq<RelayView>,
    i: int,
    recipient: Seq<u8>,
    expires_at_ms: u64,
) -> Option<Fault>
    decreases s.len() - i,
{
    if i < 0 || i >= s.len() {
        None
    } else {
        match relay_fault(s[i], recipient, expires_at_ms) {
            Some(e) => Some(e),
            None => relays_fault(s, i + 1, recipient, expires_at_ms),
        }
    }
}

/// Why an invite has no canonical form, if it has none.
pub open spec fn invite2_fault(v: Invite2View) -> Option<Fault> {
    if v.relays.len() > MAX_RELAYS_V2 {
        Some(Fault::Encoding(relay_count_text(v.relays.len())))
    } else if v.addrs.len() > MAX_DIRECT_ADDRS {
        Some(Fault::Encoding(addr_count_text(v.addrs.len())))
    } else {
        relays_fault(v.relays, 0, v.recipient, v.expires_at_ms)
    }
}

pub open spec fn relay_bytes(r: RelayView) -> Seq<u8> {
    long_text(r.url) + match r.capability {
        Some(c) => long_text(c),
        None => be16(0),
    }
}

pub open spec fn relays_bytes(s: Seq<RelayView>) -> Seq<u8>
    decreases s.len(),
{
    if s.len() == 0 {
        Seq::empty()
    } else {
        relays_bytes(s.drop_last()) + relay_bytes(s.last())
    }
}

pub open spec fn addr2_bytes(a: AddrView) -> Seq<u8> {
    match a {
        AddrView::V4(ip, port) => seq![ADDR_FAMILY_V4] + ip + be16(port),
        AddrView::V6(ip, port) => seq![ADDR_FAMILY_V6] + ip + be16(port),
    }
}

pub open spec fn addrs2_bytes(s: Seq<AddrView>) -> Seq<u8>
    decreases s.len(),
{
    if s.len() == 0 {
        Seq::empty()
    } else {
        addrs2_bytes(s.drop_last()) + addr2_bytes(s.last())
    }
}

/// The part of an invite up to its recipient.
pub open spec fn invite2_head(v: Invite2View) -> Seq<u8> {
    INVITE2_DOMAIN@ + seq![INVITE2_VERSION] + v.fabric_id + v.invite_id + v.issuer + be64(
        v.expires_at_ms,
    ) + v.recipient
}

/// The canonical bytes of an invite.
pub open spec fn invite2_bytes(v: Invite2View) -> Seq<u8> {
    invite2_head(v) + seq![v.relays.len() as u8] + relays_bytes(v.relays)
        + seq![v.addrs.len() as u8] + addrs2_bytes(v.addrs)
}

// ---- reading ----------------------------------------------------------------------

pub open spec fn invite2_truncated(what: Seq<char>) -> Fault {
    Fault::Quarantine("truncated canonical invite v2: "@ + what)
}

/// A place in the list of relays, as errors name it.
pub open spec fn relay_part(i: nat, what: Seq<char>) -> Fault {
    invite2_truncated("relay "@ + decimal(i) + what)
}

/// A place in the list of direct addresses, as errors name it.
pub open spec fn addr_part(i: nat, what: Seq<char>) -> Fault {
    invite2_truncated("direct addr "@ + decimal(i) + what)
}

/// The URL of relay `i` at `off`, and where it ends.
pub open spec fn relay_url_at(b: Seq<u8>, off: int, i: nat) -> Result<(Seq<char>, int), Fault> {
    if b.len() < off + 2 {
        Err(relay_part(i, " url length prefix"@))
    } else {
        let n = be_value(b.subrange(off, off + 2)) as int;
        if n > MAX_RELAY_URL_BYTES {
            Err(Fault::Quarantine(url_limit_text(n as nat)))
        } else if b.len() < off + 2 + n {
            Err(relay_part(i, " url bytes"@))
        } else {
            let t = b.subrange(off + 2, off + 2 + n);
            if !valid_utf8(t) {
                Err(Fault::Quarantine("relay URL is not valid UTF-8"@))
            } else {
                Ok((decode_utf8(t), off + 2 + n))
            }
        }
    }
}

/// The capability of relay `i` at `off`, and where it ends.
pub open spec fn relay_cap_at(
    b: Seq<u8>,
    off: int,
    i: nat,
    recipient: Seq<u8>,
    expires_at_ms: u64,
) -> Result<(Option<Seq<char>>, int), Fault> {
    if b.len() < off + 2 {
        Err(relay_part(i, " capability length prefix"@))
    } else {
        let n = be_value(b.subrange(off, off + 2)) as int;
        if n > MAX_RELAY_CAP_BYTES {
            Err(Fault::Quarantine(cap_limit_text(n as nat)))
        } else if b.len() < off + 2 + n {
            Err(relay_part(i, " capability bytes"@))
        } else if n == 0 {
            Ok((None, off + 2))
        } else {
            let t = b.subrange(off + 2, off + 2 + n);
            if !valid_utf8(t) {
                Err(Fault::Quarantine("relay capability is not valid UTF-8"@))
            } else {
                match cap_of(decode_utf8(t)) {
                    Err(e) => Err(e),
                    Ok(cap) => match cap_mismatch(cap, recipient, expires_at_ms) {
                        Some(m) => Err(Fault::Quarantine(m)),
                        None => Ok((Some(decode_utf8(t)), off + 2 + n)),
                    },
                }
            }
        }
    }
}

/// Relay `i` at `off`, and where it ends.
pub open spec fn relay_at(b: Seq<u8>, off: int, i: nat, recipient: Seq<u8>, expires_at_ms: u64) -> Result<
    (RelayView, int),
    Fault,
> {
    match relay_url_at(b, off, i) {
        Err(e) => Err(e),
        Ok((url, o)) => match relay_cap_at(b, o, i, recipient, expires_at_ms) {
            Err(e) => Err(e),
            Ok((capability, end)) => Ok((RelayView { url, capability }, end)),
        },
    }
}

/// `n` relays at `off`, and where they end.
pub open spec fn relays_at(b: Seq<u8>, off: int, n: nat, recipient: Seq<u8>, expires_at_ms: u64) -> Result<
    (Seq<RelayView>, int),
    Fault,
>
    decreases n,
{
    if n == 0 {
        Ok((Seq::empty(), off))
    } else {
        match relays_at(b, off, (n - 1) as nat, recipient, expires_at_ms) {
            Err(e) => Err(e),
            Ok((before, o)) => match relay_at(b, o, (n - 1) as nat, recipient, expires_at_ms) {
                Err(e) => Err(e),
                Ok((r, end)) => Ok((before.push(r), end)),
            },
        }
    }
}

/// Direct address `i` at `off`, and where it ends.
pub open spec fn addr2_at(b: Seq<u8>, off: int, i: nat) -> Result<(AddrView, int), Fault> {
    if b.len() < off + 1 {
        Err(addr_part(i, " family tag"@))
    } else if b[off] == ADDR_FAMILY_V4 {
        if b.len() < off + 7 {
            Err(addr_part(i, " v4 bytes"@))
        } else {
            Ok(
                (
                    AddrView::V4(
                        b.subrange(off + 1, off + 5),
                        be_value(b.subrange(off + 5, off + 7)) as u16,
                    ),
                    off + 7,
                ),
            )
        }
    } else if b[off] == ADDR_FAMILY_V6 {
        if b.len() < off + 19 {
            Err(addr_part(i, " v6 bytes"@))
        } else {
            Ok(
                (
                    AddrView::V6(
                        b.subrange(off + 1, off + 17),
                        be_value(b.subrange(off + 17, off + 19)) as u16,
                    ),
                    off + 19,
                ),
            )
        }
    } else {
        Err(
            Fault::Quarantine(
                "direct addr "@ + decimal(i) + " has unknown family tag 0x"@ + hex_byte(b[off]),
            ),
        )
    }
}

/// `n` direct addresses at `off`, and where they end.
pub open spec fn addrs2_at(b: Seq<u8>, off: int, n: nat) -> Result<(Seq<AddrView>, int), Fault>
    decreases n,
{
    if n == 0 {
        Ok((Seq::empty(), off))
    } else {
        match addrs2_at(b, off, (n - 1) as nat) {
            Err(e) => Err(e),
            Ok((before, o)) => match addr2_at(b, o, (n - 1) as nat) {
                Err(e) => Err(e),
                Ok((a, end)) => Ok((before.push(a), end)),
            },
        }
    }
}

/// The direct addresses at `off`, with their number, which end the invite.
pub open spec fn addr_list_at(b: Seq<u8>, off: int) -> Result<Seq<AddrView>, Fault> {
    if b.len() < off + 1 {
        Err(invite2_truncated("direct addr count"@))
    } else if b[off] > MAX_DIRECT_ADDRS {
        Err(Fault::Quarantine(addr_count_text(b[off] as nat)))
    } else {
        match addrs2_at(b, off + 1, b[off] as nat) {
            Err(e) => Err(e),
            Ok((addrs, end)) => if b.len() != end {
                Err(
                    Fault::Quarantine(
                        "invite v2 length mismatch: expected "@ + decimal(end as nat)
                            + " bytes, got "@ + decimal(b.len()),
                    ),
                )
            } else {
                Ok(addrs)
            },
        }
    }
}

/// The invite that the whole of `b` is, or the first rule that the bytes break.
pub open spec fn invite2_of(b: Seq<u8>) -> Result<Invite2View, Fault> {
    let recipient = b.subrange(104, 136);
    let expires_at_ms = be_value(b.subrange(96, 104)) as u64;
    if b.len() < INVITE2_MIN_LEN {
        Err(invite2_truncated("shorter than the fixed prefix"@))
    } else if b.subrange(0, 15) != INVITE2_DOMAIN@ {
        Err(
            Fault::Quarantine(
                "bad invite v2 domain "@ + byte_list(b) + " (expected "@ + byte_list(
                    INVITE2_DOMAIN@,
                ) + ")"@,
            ),
        )
    } else if b[15] != INVITE2_VERSION {
        Err(Fault::Quarantine("unsupported invite v2 version 0x"@ + hex_byte(b[15])))
    } else if !ed25519_key(b.subrange(64, 96)) || !ed25519_key(recipient) {
        Err(bad_key())
    } else if b[136] > MAX_RELAYS_V2 {
        Err(Fault::Quarantine(relay_count_text(b[136] as nat)))
    } else {
        match relays_at(b, 137, b[136] as nat, recipient, expires_at_ms) {
            Err(e) => Err(e),
            Ok((relays, o)) => match addr_list_at(b, o) {
                Err(e) => Err(e),
                Ok(addrs) => Ok(
                    Invite2View {
                        fabric_id: b.subrange(16, 48),
                        invite_id: b.subrange(48, 64),
                        issuer: b.subrange(64, 96),
                        expires_at_ms,
                        recipient,
                        relays,
                        addrs,
                    },
                ),
            },
        }
    }
}

// ---- laws -------------------------------------------------------------------------

pub open spec fn addr_ok(a: AddrView) -> bool {
    match a {
        AddrView::V4(ip, port) => ip.len() == 4,
        AddrView::V6(ip, port) => ip.len() == 16,
    }
}

/// The ids, keys and addresses of an invite have their lengths, and the keys are keys.
pub open spec fn invite2_fields_ok(v: Invite2View) -> bool {
    &&& v.fabric_id.len() == 32
    &&& v.invite_id.len() == 16
    &&& v.issuer.len() == 32
    &&& v.recipient.len() == 32
    &&& ed25519_key(v.issuer)
    &&& ed25519_key(v.recipient)
    &&& forall|i: int| 0 <= i < v.addrs.len() ==> addr_ok(#[trigger] v.addrs[i])
}

proof fn lemma_relay_len(r: RelayView, recipient: Seq<u8>, expires_at_ms: u64)
    requires
        relay_fault(r, recipient, expires_at_ms) is None,
    ensures
        4 <= relay_bytes(r).len() <= 2564,
{
    lemma_be_widths(encode_utf8(r.url).len() as u64);
    lemma_be_widths(0);
    if r.capability is Some {
        lemma_be_widths(encode_utf8(r.capability->0).len() as u64);
    }
}

proof fn lemma_relays_ok(s: Seq<RelayView>, i: int, recipient: Seq<u8>, expires_at_ms: u64)
    requires
        0 <= i,
        relays_fault(s, i, recipient, expires_at_ms) is None,
    ensures
        forall|k: int|
            i <= k < s.len() ==> relay_fault(#[trigger] s[k], recipient, expires_at_ms) is None,
    decreases s.len() - i,
{
    if i < s.len() {
        lemma_relays_ok(s, i + 1, recipient, expires_at_ms);
    }
}

proof fn lemma_relays_fine(s: Seq<RelayView>, i: int, recipient: Seq<u8>, expires_at_ms: u64)
    requires
        0 <= i,
        forall|k: int|
            0 <= k < s.len() ==> relay_fault(#[trigger] s[k], recipient, expires_at_ms) is None,
    ensures
        relays_fault(s, i, recipient, expires_at_ms) is None,
    decreases s.len() - i,
{
    if i < s.len() {
        assert(relay_fault(s[i], recipient, expires_at_ms) is None);
        lemma_relays_fine(s, i + 1, recipient, expires_at_ms);
    }
}

proof fn lemma_relays_len(s: Seq<RelayView>, recipient: Seq<u8>, expires_at_ms: u64)
    requires
        forall|k: int|
            0 <= k < s.len() ==> relay_fault(#[trigger] s[k], recipient, expires_at_ms) is None,
    ensures
        relays_bytes(s).len() <= 2564 * s.len(),
    decreases s.len(),
{
    if s.len() > 0 {
        let t = s.drop_last();
        assert forall|k: int| 0 <= k < t.len() implies relay_fault(
            #[trigger] t[k],
            recipient,
            expires_at_ms,
        ) is None by {
            assert(t[k] == s[k]);
        }
        lemma_relays_len(t, recipient, expires_at_ms);
        assert(relay_fault(s[s.len() - 1], recipient, expires_at_ms) is None);
        lemma_relay_len(s.last(), recipient, expires_at_ms);
    }
}

proof fn lemma_addrs2_len(s: Seq<AddrView>)
    requires
        forall|i: int| 0 <= i < s.len() ==> addr_ok(#[trigger] s[i]),
    ensures
        addrs2_bytes(s).len() <= 19 * s.len(),
    decreases s.len(),
{
    if s.len() > 0 {
        let t = s.drop_last();
        assert forall|k: int| 0 <= k < t.len() implies addr_ok(#[trigger] t[k]) by {
            assert(t[k] == s[k]);
        }
        lemma_addrs2_len(t);
        assert(addr_ok(s[s.len() - 1]));
        match s.last() {
            AddrView::V4(ip, port) => lemma_be_widths(port as u64),
            AddrView::V6(ip, port) => lemma_be_widths(port as u64),
        }
    }
}

/// An invite has at most 20726 bytes.
pub proof fn lemma_invite2_len(v: Invite2View)
    requires
        v.fabric_id.len() == 32,
        v.invite_id.len() == 16,
        v.issuer.len() == 32,
        v.recipient.len() == 32,
        forall|i: int| 0 <= i < v.addrs.len() ==> addr_ok(#[trigger] v.addrs[i]),
        invite2_fault(v) is None,
    ensures
        138 <= invite2_bytes(v).len() <= 20726,
        invite2_head(v).len() == 136,
{
    lemma_relays_ok(v.relays, 0, v.recipient, v.expires_at_ms);
    lemma_relays_len(v.relays, v.recipient, v.expires_at_ms);
    lemma_addrs2_len(v.addrs);
    lemma_be_widths(v.expires_at_ms);
    assert(INVITE2_DOMAIN@.len() == 15);
}

proof fn lemma_relay_roundtrip(
    r: RelayView,
    b: Seq<u8>,
    off: int,
    i: nat,
    recipient: Seq<u8>,
    expires_at_ms: u64,
)
    requires
        relay_fault(r, recipient, expires_at_ms) is None,
        0 <= off,
        off + relay_bytes(r).len() <= b.len(),
        b.subrange(off, off + relay_bytes(r).len()) == relay_bytes(r),
    ensures
        relay_at(b, off, i, recipient, expires_at_ms) == Ok::<(RelayView, int), Fault>(
            (r, off + relay_bytes(r).len()),
        ),
{
    let w = relay_bytes(r);
    let u = encode_utf8(r.url);
    let g = b.subrange(off, off + w.len());
    lemma_be_widths(u.len() as u64);
    lemma_be_widths(0);
    encode_utf8_valid_utf8(r.url);
    encode_utf8_decode_utf8(r.url);
    let m = u.len() as int;
    match r.capability {
        Some(c) => {
            let k = encode_utf8(c);
            lemma_be_widths(k.len() as u64);
            encode_utf8_valid_utf8(c);
            encode_utf8_decode_utf8(c);
            // a capability that is read is not empty
            if k.len() == 0 {
                lemma_cap_len(c);
            }
            assert(w.subrange(2 + m, 4 + m) =~= be16(k.len() as u16));
            assert(w.subrange(4 + m, 4 + m + k.len()) =~= k);
            assert(b.subrange(off + 4 + m, off + 4 + m + k.len()) =~= g.subrange(
                4 + m,
                4 + m + k.len(),
            ));
        },
        None => {
            assert(w.subrange(2 + m, 4 + m) =~= be16(0));
        },
    }
    assert(w.subrange(0, 2) =~= be16(u.len() as u16));
    assert(w.subrange(2, 2 + m) =~= u);
    assert(b.subrange(off, off + 2) =~= g.subrange(0, 2));
    assert(b.subrange(off + 2, off + 2 + m) =~= g.subrange(2, 2 + m));
    assert(b.subrange(off + 2 + m, off + 4 + m) =~= g.subrange(2 + m, 4 + m));
    assert(relay_url_at(b, off, i) == Ok::<(Seq<char>, int), Fault>((r.url, off + 2 + m)));
}

proof fn lemma_relays_roundtrip(
    s: Seq<RelayView>,
    b: Seq<u8>,
    off: int,
    recipient: Seq<u8>,
    expires_at_ms: u64,
)
    requires
        forall|k: int|
            0 <= k < s.len() ==> relay_fault(#[trigger] s[k], recipient, expires_at_ms) is None,
        0 <= off,
        off + relays_bytes(s).len() <= b.len(),
        b.subrange(off, off + relays_bytes(s).len()) == relays_bytes(s),
    ensures
        relays_at(b, off, s.len(), recipient, expires_at_ms) == Ok::<(Seq<RelayView>, int), Fault>(
            (s, off + relays_bytes(s).len()),
        ),
    decreases s.len(),
{
    if s.len() == 0 {
        assert(s =~= Seq::<RelayView>::empty());
    } else {
        let t = s.drop_last();
        let x = s.last();
        let all = relays_bytes(s);
        let m = relays_bytes(t).len() as int;
        let g = b.subrange(off, off + all.len());
        assert(relay_fault(s[s.len() - 1], recipient, expires_at_ms) is None);
        assert forall|k: int| 0 <= k < t.len() implies relay_fault(
            #[trigger] t[k],
            recipient,
            expires_at_ms,
        ) is None by {
            assert(t[k] == s[k]);
        }
        assert(b.subrange(off, off + m) =~= g.subrange(0, m));
        assert(all.subrange(0, m) =~= relays_bytes(t));
        lemma_relays_roundtrip(t, b, off, recipient, expires_at_ms);
        let w = relay_bytes(x);
        assert(b.subrange(off + m, off + m + w.len()) =~= g.subrange(m, m + w.len()));
        assert(all.subrange(m, m + w.len()) =~= w);
        lemma_relay_roundtrip(x, b, off + m, (s.len() - 1) as nat, recipient, expires_at_ms);
        assert(t.push(x) =~= s);
    }
}

proof fn lemma_addr2_roundtrip(a: AddrView, b: Seq<u8>, off: int, i: nat)
    requires
        addr_ok(a),
        0 <= off,
        off + addr2_bytes(a).len() <= b.len(),
        b.subrange(off, off + addr2_bytes(a).len()) == addr2_bytes(a),
    ensures
        addr2_at(b, off, i) == Ok::<(AddrView, int), Fault>((a, off + addr2_bytes(a).len())),
{
    let w = addr2_bytes(a);
    let g = b.subrange(off, off + w.len());
    assert(b[off] == g[0]);
    match a {
        AddrView::V4(ip, port) => {
            lemma_be_widths(port as u64);
            assert(w.subrange(1, 5) =~= ip);
            assert(w.subrange(5, 7) =~= be16(port));
            assert(b.subrange(off + 1, off + 5) =~= g.subrange(1, 5));
            assert(b.subrange(off + 5, off + 7) =~= g.subrange(5, 7));
        },
        AddrView::V6(ip, port) => {
            lemma_be_widths(port as u64);
            assert(w.subrange(1, 17) =~= ip);
            assert(w.subrange(17, 19) =~= be16(port));
            assert(b.subrange(off + 1, off + 17) =~= g.subrange(1, 17));
            assert(b.subrange(off + 17, off + 19) =~= g.subrange(17, 19));
        },
    }
}

proof fn lemma_addrs2_roundtrip(s: Seq<AddrView>, b: Seq<u8>, off: int)
    requires
        forall|i: int| 0 <= i < s.len() ==> addr_ok(#[trigger] s[i]),
        0 <= off,
        off + addrs2_bytes(s).len() <= b.len(),
        b.subrange(off, off + addrs2_bytes(s).len()) == addrs2_bytes(s),
    ensures
        addrs2_at(b, off, s.len()) == Ok::<(Seq<AddrView>, int), Fault>(
            (s, off + addrs2_bytes(s).len()),
        ),
    decreases s.len(),
{
    if s.len() == 0 {
        assert(s =~= Seq::<AddrView>::empty());
    } else {
        let t = s.drop_last();
        let x = s.last();
        let all = addrs2_bytes(s);
        let m = addrs2_bytes(t).len() as int;
        let g = b.subrange(off, off + all.len());
        assert(addr_ok(s[s.len() - 1]));
        assert forall|k: int| 0 <= k < t.len() implies addr_ok(#[trigger] t[k]) by {
            assert(t[k] == s[k]);
        }
        assert(b.subrange(off, off + m) =~= g.subrange(0, m));
        assert(all.subrange(0, m) =~= addrs2_bytes(t));
        lemma_addrs2_roundtrip(t, b, off);
        let w = addr2_bytes(x);
        assert(b.subrange(off + m, off + m + w.len()) =~= g.subrange(m, m + w.len()));
        assert(all.subrange(m, m + w.len()) =~= w);
        lemma_addr2_roundtrip(x, b, off + m, (s.len() - 1) as nat);
        assert(t.push(x) =~= s);
    }
}

/// Reading the canonical bytes of an invite gives the invite.
pub proof fn invite2_roundtrip(v: Invite2View)
    requires
        invite2_fields_ok(v),
        invite2_fault(v) is None,
    ensures
        invite2_of(invite2_bytes(v)) == Ok::<Invite2View, Fault>(v),
{
    let b = invite2_bytes(v);
    lemma_invite2_len(v);
    lemma_relays_ok(v.relays, 0, v.recipient, v.expires_at_ms);
    lemma_be_widths(v.expires_at_ms);
    let h = invite2_head(v);
    let rs = relays_bytes(v.relays);
    let a = addrs2_bytes(v.addrs);
    assert(INVITE2_DOMAIN@.len() == 15);
    assert(b.subrange(0, 136) =~= h);
    assert(b.subrange(0, 15) =~= h.subrange(0, 15));
    assert(h.subrange(0, 15) =~= INVITE2_DOMAIN@);
    assert(b[15] == h[15]);
    assert(b.subrange(16, 48) =~= h.subrange(16, 48));
    assert(h.subrange(16, 48) =~= v.fabric_id);
    assert(b.subrange(48, 64) =~= h.subrange(48, 64));
    assert(h.subrange(48, 64) =~= v.invite_id);
    assert(b.subrange(64, 96) =~= h.subrange(64, 96));
    assert(h.subrange(64, 96) =~= v.issuer);
    assert(b.subrange(96, 104) =~= h.subrange(96, 104));
    assert(h.subrange(96, 104) =~= be64(v.expires_at_ms));
    assert(b.subrange(104, 136) =~= h.subrange(104, 136));
    assert(h.subrange(104, 136) =~= v.recipient);
    assert(b[136] == v.relays.len() as u8);
    assert(b.subrange(137, 137 + rs.len() as int) =~= rs);
    lemma_relays_roundtrip(v.relays, b, 137, v.recipient, v.expires_at_ms);
    let o = 137 + rs.len() as int;
    assert(b[o] == v.addrs.len() as u8);
    assert(b.subrange(o + 1, o + 1 + a.len()) =~= a);
    lemma_addrs2_roundtrip(v.addrs, b, o + 1);
}

proof fn lemma_relay_canonical(b: Seq<u8>, off: int, i: nat, recipient: Seq<u8>, expires_at_ms: u64)
    requires
        0 <= off <= b.len(),
        relay_at(b, off, i, recipient, expires_at_ms) is Ok,
    ensures
        ({
            let (r, o) = relay_at(b, off, i, recipient, expires_at_ms)->Ok_0;
            &&& off <= o <= b.len()
            &&& relay_bytes(r) == b.subrange(off, o)
            &&& relay_fault(r, recipient, expires_at_ms) is None
        }),
{
    let (r, o) = relay_at(b, off, i, recipient, expires_at_ms)->Ok_0;
    let (url, m) = relay_url_at(b, off, i)->Ok_0;
    lemma_be_fields(b.subrange(off, off + 2));
    decode_utf8_encode_utf8(b.subrange(off + 2, m));
    assert(long_text(url) =~= b.subrange(off, m));
    lemma_be_fields(b.subrange(m, m + 2));
    match r.capability {
        Some(c) => {
            decode_utf8_encode_utf8(b.subrange(m + 2, o));
            assert(long_text(c) =~= b.subrange(m, o));
        },
        None => {
            assert(be16(0) =~= b.subrange(m, o));
        },
    }
    assert(relay_bytes(r) =~= b.subrange(off, o));
}

proof fn lemma_relays_canonical(b: Seq<u8>, off: int, n: nat, recipient: Seq<u8>, expires_at_ms: u64)
    requires
        0 <= off <= b.len(),
        relays_at(b, off, n, recipient, expires_at_ms) is Ok,
    ensures
        ({
            let (s, o) = relays_at(b, off, n, recipient, expires_at_ms)->Ok_0;
            &&& s.len() == n
            &&& off <= o <= b.len()
            &&& relays_bytes(s) == b.subrange(off, o)
            &&& forall|k: int|
                0 <= k < s.len() ==> relay_fault(#[trigger] s[k], recipient, expires_at_ms) is None
        }),
    decreases n,
{
    if n > 0 {
        let p = (n - 1) as nat;
        lemma_relays_canonical(b, off, p, recipient, expires_at_ms);
        let (t, m) = relays_at(b, off, p, recipient, expires_at_ms)->Ok_0;
        lemma_relay_canonical(b, m, p, recipient, expires_at_ms);
        let (s, o) = relays_at(b, off, n, recipient, expires_at_ms)->Ok_0;
        assert(s.drop_last() =~= t);
        assert(b.subrange(off, o) =~= b.subrange(off, m) + b.subrange(m, o));
        assert forall|k: int| 0 <= k < s.len() implies relay_fault(
            #[trigger] s[k],
            recipient,
            expires_at_ms,
        ) is None by {
            if k < t.len() {
                assert(s[k] == t[k]);
            }
        }
    } else {
        assert(b.subrange(off, off) =~= Seq::<u8>::empty());
    }
}

proof fn lemma_addrs2_canonical(b: Seq<u8>, off: int, n: nat)
    requires
        0 <= off <= b.len(),
        addrs2_at(b, off, n) is Ok,
    ensures
        ({
            let (s, o) = addrs2_at(b, off, n)->Ok_0;
            &&& s.len() == n
            &&& off <= o <= b.len()
            &&& addrs2_bytes(s) == b.subrange(off, o)
            &&& forall|k: int| 0 <= k < s.len() ==> addr_ok(#[trigger] s[k])
        }),
    decreases n,
{
    if n > 0 {
        let p = (n - 1) as nat;
        lemma_addrs2_canonical(b, off, p);
        let (t, m) = addrs2_at(b, off, p)->Ok_0;
        let (a, end) = addr2_at(b, m, p)->Ok_0;
        let (s, o) = addrs2_at(b, off, n)->Ok_0;
        if b[m] == ADDR_FAMILY_V4 {
            lemma_be_fields(b.subrange(m + 5, m + 7));
        } else {
            lemma_be_fields(b.subrange(m + 17, m + 19));
        }
        assert(addr2_bytes(a) =~= b.subrange(m, end));
        assert(s.drop_last() =~= t);
        assert(b.subrange(off, o) =~= b.subrange(off, m) + b.subrange(m, o));
        assert forall|k: int| 0 <= k < s.len() implies addr_ok(#[trigger] s[k]) by {
            if k < t.len() {
                assert(s[k] == t[k]);
            }
        }
    } else {
        assert(b.subrange(off, off) =~= Seq::<u8>::empty());
    }
}

/// Bytes that are read as an invite are its canonical bytes.
pub proof fn invite2_is_canonical(b: Seq<u8>)
    requires
        invite2_of(b) is Ok,
    ensures
        invite2_fields_ok(invite2_of(b)->Ok_0),
        invite2_fault(invite2_of(b)->Ok_0) is None,
        invite2_bytes(invite2_of(b)->Ok_0) == b,
{
    let v = invite2_of(b)->Ok_0;
    assert(INVITE2_DOMAIN@.len() == 15);
    lemma_be_fields(b.subrange(96, 104));
    lemma_relays_canonical(b, 137, b[136] as nat, v.recipient, v.expires_at_ms);
    let (relays, o) = relays_at(b, 137, b[136] as nat, v.recipient, v.expires_at_ms)->Ok_0;
    lemma_relays_fine(relays, 0, v.recipient, v.expires_at_ms);
    lemma_addrs2_canonical(b, o + 1, b[o] as nat);
    assert(invite2_head(v) =~= b.subrange(0, 136));
    assert(invite2_bytes(v) =~= b);
}

/// A relay can stand in an invite: its URL has at most 2048 bytes, and its capability, if it
/// has one, at most 512; that is a capability for the recipient of the invite which expires
/// no later than the invite.
pub open spec fn relay_fits(r: RelayView, recipient: Seq<u8>, expires_at_ms: u64) -> bool {
    &&& encode_utf8(r.url).len() <= 2048
    &&& match r.capability {
        Some(c) => encode_utf8(c).len() <= 512 && match cap_of(c) {
            Ok(cap) => cap.recipient == recipient && cap.expires_at <= expires_at_ms,
            Err(_) => false,
        },
        None => true,
    }
}

/// An invite of the second version can be written exactly if it has at most 8 relays, each
/// of which fits, and at most 4 direct addresses.
pub proof fn invites_v2_that_fit_can_be_written(v: Invite2View)
    ensures
        invite2_fault(v) is None <==> {
            &&& v.relays.len() <= 8
            &&& v.addrs.len() <= 4
            &&& forall|i: int|
                0 <= i < v.relays.len() ==> relay_fits(
                    #[trigger] v.relays[i],
                    v.recipient,
                    v.expires_at_ms,
                )
        },
{
    lemma_relays_fit(v.relays, 0, v.recipient, v.expires_at_ms);
}

proof fn lemma_relays_fit(s: Seq<RelayView>, i: int, recipient: Seq<u8>, expires_at_ms: u64)
    requires
        0 <= i,
    ensures
        relays_fault(s, i, recipient, expires_at_ms) is None <==> forall|k: int|
            i <= k < s.len() ==> relay_fits(#[trigger] s[k], recipient, expires_at_ms),
    decreases s.len() - i,
{
    if i < s.len() {
        lemma_relays_fit(s, i + 1, recipient, expires_at_ms);
        assert(relay_fault(s[i], recipient, expires_at_ms) is None <==> relay_fits(
            s[i],
            recipient,
            expires_at_ms,
        ));
        if relays_fault(s, i, recipient, expires_at_ms) is None {
            assert forall|k: int| i <= k < s.len() implies relay_fits(
                #[trigger] s[k],
                recipient,
                expires_at_ms,
            ) by {
                if k > i {
                    assert(i + 1 <= k);
                }
            }
        }
    }
}

/// Every capability inside an invite that has a canonical form is for its recipient and
/// expires no later than the invite.
pub proof fn capabilities_fit_the_invite(v: Invite2View, i: int)
    requires
        invite2_fault(v) is None,
        0 <= i < v.relays.len(),
        v.relays[i].capability is Some,
    ensures
        cap_of(v.relays[i].capability->0) is Ok,
        (cap_of(v.relays[i].capability->0)->Ok_0).recipient == v.recipient,
        (cap_of(v.relays[i].capability->0)->Ok_0).expires_at <= v.expires_at_ms,
{
    lemma_relays_ok(v.relays, 0, v.recipient, v.expires_at_ms);
    assert(relay_fault(v.relays[i], v.recipient, v.expires_at_ms) is None);
}

// ---- functions --------------------------------------------------------------------

impl InviteV2 {
    /// The canonical bytes, which are what is signed.
    pub fn canonical_bytes(&self) -> (r: Result<Vec<u8>, ProtocolError>)
        ensures
            match invite2_fault(self@) {
                None => r is Ok && r->Ok_0@ == invite2_bytes(self@),
                Some(e) => r is Err && r->Err_0@ == e,
            },
    {
        let n: usize = self.relays.len();
        let m: usize = self.direct_addrs.len();
        if n > MAX_RELAYS_V2 {
            return Err(ProtocolError::Encoding(relay_count_message(n)));
        }
        if m > MAX_DIRECT_ADDRS {
            return Err(ProtocolError::Encoding(addr_count_message(m)));
        }
        let ghost v = self@;
        let mut buf: Vec<u8> = Vec::new();
        push_bytes(&mut buf, &INVITE2_DOMAIN);
        buf.push(INVITE2_VERSION);
        push_bytes(&mut buf, self.fabric_id.as_bytes());
        push_bytes(&mut buf, &self.invite_id);
        push_bytes(&mut buf, self.issuer.as_bytes());
        push_be(&mut buf, self.expires_at_ms, 8);
        push_bytes(&mut buf, self.recipient.as_bytes());
        assert(buf@ =~= invite2_head(v));
        buf.push(n as u8);
        let ghost start = buf@;
        let mut i: usize = 0;
        assert(v.relays.subrange(0, 0) =~= Seq::<RelayView>::empty());
        assert(start + relays_bytes(v.relays.subrange(0, 0)) =~= start);
        while i < n
            invariant
                i <= n,
                n == self.relays@.len(),
                v == self@,
                n <= MAX_RELAYS_V2,
                v.addrs.len() <= MAX_DIRECT_ADDRS,
                relays_fault(v.relays, 0, v.recipient, v.expires_at_ms) == relays_fault(
                    v.relays,
                    i as int,
                    v.recipient,
                    v.expires_at_ms,
                ),
                buf@ == start + relays_bytes(v.relays.subrange(0, i as int)),
            decreases n - i,
        {
            match push_relay(&mut buf, &self.relays[i], &self.recipient, self.expires_at_ms) {
                Ok(()) => {},
                Err(e) => return Err(e),
            }
            proof {
                let t = v.relays.subrange(0, i + 1);
                assert(t.drop_last() =~= v.relays.subrange(0, i as int));
                assert(t.last() == v.relays[i as int]);
                assert(buf@ =~= start + relays_bytes(t));
            }
            i = i + 1;
        }
        assert(v.relays.subrange(0, n as int) =~= v.relays);
        buf.push(m as u8);
        let ghost middle = buf@;
        let mut j: usize = 0;
        assert(v.addrs.subrange(0, 0) =~= Seq::<AddrView>::empty());
        assert(middle + addrs2_bytes(v.addrs.subrange(0, 0)) =~= middle);
        while j < m
            invariant
                j <= m,
                m == self.direct_addrs@.len(),
                v == self@,
                buf@ == middle + addrs2_bytes(v.addrs.subrange(0, j as int)),
            decreases m - j,
        {
            push_addr(&mut buf, &self.direct_addrs[j]);
            proof {
                let t = v.addrs.subrange(0, j + 1);
                assert(t.drop_last() =~= v.addrs.subrange(0, j as int));
                assert(t.last() == v.addrs[j as int]);
                assert(buf@ =~= middle + addrs2_bytes(t));
            }
            j = j + 1;
        }
        assert(v.addrs.subrange(0, m as int) =~= v.addrs);
        assert(buf@ =~= invite2_bytes(v));
        Ok(buf)
    }

    /// Reads exactly one canonical invite.
    pub fn decode_strict(bytes: &[u8]) -> (r: Result<Self, ProtocolError>)
        ensures
            match invite2_of(bytes@) {
                Ok(v) => r is Ok && r->Ok_0@ == v,
                Err(e) => r is Err && r->Err_0@ == e,
            },
    {
        let len: usize = bytes.len();
        if len < INVITE2_MIN_LEN {
            return Err(truncated("shorter than the fixed prefix"));
        }
        let domain = array_at::<15>(bytes, 0);
        if !bytes_eq(&domain, &INVITE2_DOMAIN) {
            return Err(
                quarantine(
                    cat5(
                        "bad invite v2 domain ",
                        byte_list_text(bytes).as_str(),
                        " (expected ",
                        byte_list_text(&INVITE2_DOMAIN).as_str(),
                        ")",
                    ),
                ),
            );
        }
        if bytes[15] != INVITE2_VERSION {
            return Err(
                quarantine(
                    cat("unsupported invite v2 version 0x", hex_byte_text(bytes[15]).as_str()),
                ),
            );
        }
        let fabric_id = FabricId(array_at::<32>(bytes, 16));
        let invite_id = array_at::<16>(bytes, 48);
        let issuer = match key_at(bytes, 64) {
            Ok(k) => k,
            Err(e) => return Err(e),
        };
        let expires_at_ms: u64 = read_be64(bytes, 96);
        let recipient = match key_at(bytes, 104) {
            Ok(k) => k,
            Err(e) => return Err(e),
        };
        let n: usize = bytes[136] as usize;
        if n > MAX_RELAYS_V2 {
            return Err(quarantine(relay_count_message(n)));
        }
        let (relays, o) = match read_relays(bytes, 137, n, &recipient, expires_at_ms) {
            Ok(x) => x,
            Err(e) => return Err(e),
        };
        let direct_addrs = match read_addr_list(bytes, o) {
            Ok(x) => x,
            Err(e) => return Err(e),
        };
        Ok(
            InviteV2 {
                fabric_id,
                invite_id,
                issuer,
                expires_at_ms,
                recipient,
                relays,
                direct_addrs,
            },
        )
    }

    /// Whether the invite has expired, which it has at the moment of its expiry.
    pub fn is_expired(&self, now_ms: u64) -> (r: bool)
        ensures
            r == (now_ms >= self@.expires_at_ms),
    {
        now_ms >= self.expires_at_ms
    }
}

fn relay_count_message(n: usize) -> (r: String)
    ensures
        r@ == relay_count_text(n as nat),
{
    cat3(
        decimal_text(n as u64).as_str(),
        " relays exceeds the limit of ",
        decimal_text(8).as_str(),
    )
}

fn cap_limit_message(n: usize) -> (r: String)
    ensures
        r@ == cap_limit_text(n as nat),
{
    cat5(
        "relay capability of ",
        decimal_text(n as u64).as_str(),
        " bytes exceeds the ",
        decimal_text(512).as_str(),
        " byte limit",
    )
}

fn truncated(what: &str) -> (r: ProtocolError)
    ensures
        r@ == invite2_truncated(what@),
{
    quarantine(cat("truncated canonical invite v2: ", what))
}

fn truncated_relay(i: usize, what: &str) -> (r: ProtocolError)
    ensures
        r@ == relay_part(i as nat, what@),
{
    truncated(cat3("relay ", decimal_text(i as u64).as_str(), what).as_str())
}

fn truncated_addr(i: usize, what: &str) -> (r: ProtocolError)
    ensures
        r@ == addr_part(i as nat, what@),
{
    truncated(cat3("direct addr ", decimal_text(i as u64).as_str(), what).as_str())
}

/// Why a capability does not fit an invite, if it does not.
fn mismatch(cap: &RelayCapV1, recipient: &EndpointId, expires_at_ms: u64) -> (r: Option<String>)
    ensures
        match r {
            Some(t) => cap_mismatch(cap@, recipient@, expires_at_ms) == Some(t@),
            None => cap_mismatch(cap@, recipient@, expires_at_ms) is None,
        },
{
    if !cap.recipient.same(recipient) {
        Some("relay capability recipient does not match the invite recipient".to_owned())
    } else if cap.expires_at > expires_at_ms {
        Some("relay capability expires after the invite expires".to_owned())
    } else {
        None
    }
}

/// Appends a relay to the bytes of an invite.
fn push_relay(
    buf: &mut Vec<u8>,
    relay: &InviteRelayV2,
    recipient: &EndpointId,
    expires_at_ms: u64,
) -> (r: Result<(), ProtocolError>)
    ensures
        match relay_fault(relay@, recipient@, expires_at_ms) {
            None => r is Ok && final(buf)@ == old(buf)@ + relay_bytes(relay@),
            Some(e) => r is Err && r->Err_0@ == e,
        },
{
    let url = relay.url.as_str().as_bytes();
    if url.len() > MAX_RELAY_URL_BYTES {
        return Err(ProtocolError::Encoding(url_limit_message(url.len())));
    }
    let ghost before = buf@;
    match &relay.capability {
        Some(cap) => {
            let c = cap.as_str().as_bytes();
            if c.len() > MAX_RELAY_CAP_BYTES {
                return Err(ProtocolError::Encoding(cap_limit_message(c.len())));
            }
            let parsed = match RelayCapV1::decode(cap.as_str()) {
                Ok(p) => p,
                Err(e) => {
                    return Err(
                        ProtocolError::Encoding(
                            cat("relay capability invalid: ", e.message().as_str()),
                        ),
                    );
                },
            };
            match mismatch(&parsed, recipient, expires_at_ms) {
                Some(t) => return Err(ProtocolError::Encoding(t)),
                None => {},
            }
            push_be(buf, url.len() as u64, 2);
            push_bytes(buf, url);
            push_be(buf, c.len() as u64, 2);
            push_bytes(buf, c);
        },
        None => {
            push_be(buf, url.len() as u64, 2);
            push_bytes(buf, url);
            push_be(buf, 0, 2);
        },
    }
    assert(buf@ =~= before + relay_bytes(relay@));
    Ok(())
}

/// Appends a direct address to the bytes of an invite.
fn push_addr(buf: &mut Vec<u8>, addr: &DirectAddr)
    ensures
        final(buf)@ == old(buf)@ + addr2_bytes(addr@),
{
    let ghost before = buf@;
    match addr {
        DirectAddr::V4 { ip, port } => {
            buf.push(ADDR_FAMILY_V4);
            push_bytes(buf, ip);
            push_be(buf, *port as u64, 2);
        },
        DirectAddr::V6 { ip, port } => {
            buf.push(ADDR_FAMILY_V6);
            push_bytes(buf, ip);
            push_be(buf, *port as u64, 2);
        },
    }
    assert(buf@ =~= before + addr2_bytes(addr@));
}

fn read_relay_url(bytes: &[u8], off: usize, i: usize) -> (r: Result<(String, usize), ProtocolError>)
    requires
        off <= bytes@.len(),
    ensures
        match relay_url_at(bytes@, off as int, i as nat) {
            Ok((t, o)) => r is Ok && (r->Ok_0).0@ == t && (r->Ok_0).1 == o && o <= bytes@.len(),
            Err(e) => r is Err && r->Err_0@ == e,
        },
{
    let len: usize = bytes.len();
    if len - off < 2 {
        return Err(truncated_relay(i, " url length prefix"));
    }
    let n: usize = read_be16(bytes, off) as usize;
    if n > MAX_RELAY_URL_BYTES {
        return Err(quarantine(url_limit_message(n)));
    }
    if len - off - 2 < n {
        return Err(truncated_relay(i, " url bytes"));
    }
    match utf8_text(vstd::slice::slice_subrange(bytes, off + 2, off + 2 + n)) {
        Some(t) => Ok((t, off + 2 + n)),
        None => Err(quarantine("relay URL is not valid UTF-8".to_owned())),
    }
}

fn read_relay_cap(
    bytes: &[u8],
    off: usize,
    i: usize,
    recipient: &EndpointId,
    expires_at_ms: u64,
) -> (r: Result<(Option<String>, usize), ProtocolError>)
    requires
        off <= bytes@.len(),
    ensures
        match relay_cap_at(bytes@, off as int, i as nat, recipient@, expires_at_ms) {
            Ok((c, o)) => {
                &&& r is Ok
                &&& (r->Ok_0).1 == o
                &&& o <= bytes@.len()
                &&& match (r->Ok_0).0 {
                    Some(t) => c == Some(t@),
                    None => c is None,
                }
            },
            Err(e) => r is Err && r->Err_0@ == e,
        },
{
    let len: usize = bytes.len();
    if len - off < 2 {
        return Err(truncated_relay(i, " capability length prefix"));
    }
    let n: usize = read_be16(bytes, off) as usize;
    if n > MAX_RELAY_CAP_BYTES {
        return Err(quarantine(cap_limit_message(n)));
    }
    if len - off - 2 < n {
        return Err(truncated_relay(i, " capability bytes"));
    }
    if n == 0 {
        return Ok((None, off + 2));
    }
    let text = match utf8_text(vstd::slice::slice_subrange(bytes, off + 2, off + 2 + n)) {
        Some(t) => t,
        None => return Err(quarantine("relay capability is not valid UTF-8".to_owned())),
    };
    let parsed = match RelayCapV1::decode(text.as_str()) {
        Ok(p) => p,
        Err(e) => return Err(e),
    };
    match mismatch(&parsed, recipient, expires_at_ms) {
        Some(t) => Err(quarantine(t)),
        None => Ok((Some(text), off + 2 + n)),
    }
}

/// A fault in the first relays is a fault in more of them.
proof fn lemma_relays_err(
    b: Seq<u8>,
    off: int,
    i: nat,
    n: nat,
    recipient: Seq<u8>,
    expires_at_ms: u64,
)
    requires
        i <= n,
        relays_at(b, off, i, recipient, expires_at_ms) is Err,
    ensures
        relays_at(b, off, n, recipient, expires_at_ms) == relays_at(
            b,
            off,
            i,
            recipient,
            expires_at_ms,
        ),
    decreases n,
{
    if i < n {
        lemma_relays_err(b, off, i, (n - 1) as nat, recipient, expires_at_ms);
    }
}

fn read_relays(
    bytes: &[u8],
    off: usize,
    n: usize,
    recipient: &EndpointId,
    expires_at_ms: u64,
) -> (r: Result<(Vec<InviteRelayV2>, usize), ProtocolError>)
    requires
        off <= bytes@.len(),
    ensures
        match relays_at(bytes@, off as int, n as nat, recipient@, expires_at_ms) {
            Ok((s, o)) => {
                &&& r is Ok
                &&& relay_views((r->Ok_0).0@) == s
                &&& (r->Ok_0).1 == o
                &&& o <= bytes@.len()
            },
            Err(e) => r is Err && r->Err_0@ == e,
        },
{
    let mut out: Vec<InviteRelayV2> = Vec::new();
    let mut o: usize = off;
    let mut i: usize = 0;
    assert(relay_views(out@) =~= Seq::<RelayView>::empty());
    while i < n
        invariant
            i <= n,
            o <= bytes@.len(),
            relays_at(bytes@, off as int, i as nat, recipient@, expires_at_ms) == Ok::<
                (Seq<RelayView>, int),
                Fault,
            >((relay_views(out@), o as int)),
        decreases n - i,
    {
        proof {
            if relays_at(bytes@, off as int, (i + 1) as nat, recipient@, expires_at_ms) is Err {
                lemma_relays_err(
                    bytes@,
                    off as int,
                    (i + 1) as nat,
                    n as nat,
                    recipient@,
                    expires_at_ms,
                );
            }
        }
        let (url, o1) = match read_relay_url(bytes, o, i) {
            Ok(x) => x,
            Err(e) => return Err(e),
        };
        let (capability, o2) = match read_relay_cap(bytes, o1, i, recipient, expires_at_ms) {
            Ok(x) => x,
            Err(e) => return Err(e),
        };
        let relay = InviteRelayV2 { url, capability };
        let ghost before = relay_views(out@);
        let ghost x = relay@;
        out.push(relay);
        assert(relay_views(out@) =~= before.push(x));
        o = o2;
        i = i + 1;
    }
    Ok((out, o))
}

fn read_addr(bytes: &[u8], off: usize, i: usize) -> (r: Result<(DirectAddr, usize), ProtocolError>)
    requires
        off <= bytes@.len(),
    ensures
        match addr2_at(bytes@, off as int, i as nat) {
            Ok((a, o)) => r is Ok && (r->Ok_0).0@ == a && (r->Ok_0).1 == o && o <= bytes@.len(),
            Err(e) => r is Err && r->Err_0@ == e,
        },
{
    let left: usize = bytes.len() - off;
    if left < 1 {
        return Err(truncated_addr(i, " family tag"));
    }
    let family: u8 = bytes[off];
    if family == ADDR_FAMILY_V4 {
        if left < 7 {
            return Err(truncated_addr(i, " v4 bytes"));
        }
        Ok(
            (
                DirectAddr::V4 {
                    ip: array_at::<4>(bytes, off + 1),
                    port: read_be16(bytes, off + 5),
                },
                off + 7,
            ),
        )
    } else if family == ADDR_FAMILY_V6 {
        if left < 19 {
            return Err(truncated_addr(i, " v6 bytes"));
        }
        Ok(
            (
                DirectAddr::V6 {
                    ip: array_at::<16>(bytes, off + 1),
                    port: read_be16(bytes, off + 17),
                },
                off + 19,
            ),
        )
    } else {
        Err(
            quarantine(
                cat(
                    cat3(
                        "direct addr ",
                        decimal_text(i as u64).as_str(),
                        " has unknown family tag 0x",
                    ).as_str(),
                    hex_byte_text(family).as_str(),
                ),
            ),
        )
    }
}

/// A fault in the first addresses is a fault in more of them.
proof fn lemma_addrs2_err(b: Seq<u8>, off: int, i: nat, n: nat)
    requires
        i <= n,
        addrs2_at(b, off, i) is Err,
    ensures
        addrs2_at(b, off, n) == addrs2_at(b, off, i),
    decreases n,
{
    if i < n {
        lemma_addrs2_err(b, off, i, (n - 1) as nat);
    }
}

fn read_addr_list(bytes: &[u8], off: usize) -> (r: Result<Vec<DirectAddr>, ProtocolError>)
    requires
        off <= bytes@.len(),
    ensures
        match addr_list_at(bytes@, off as int) {
            Ok(s) => r is Ok && addr_views(r->Ok_0@) == s,
            Err(e) => r is Err && r->Err_0@ == e,
        },
{
    let len: usize = bytes.len();
    if len - off < 1 {
        return Err(truncated("direct addr count"));
    }
    let n: usize = bytes[off] as usize;
    if n > MAX_DIRECT_ADDRS {
        return Err(quarantine(addr_count_message(n)));
    }
    let mut out: Vec<DirectAddr> = Vec::new();
    let mut o: usize = off + 1;
    let mut i: usize = 0;
    assert(addr_views(out@) =~= Seq::<AddrView>::empty());
    while i < n
        invariant
            i <= n,
            off < len,
            len == bytes@.len(),
            o <= len,
            n == bytes@[off as int],
            n <= MAX_DIRECT_ADDRS,
            addrs2_at(bytes@, off + 1, i as nat) == Ok::<(Seq<AddrView>, int), Fault>(
                (addr_views(out@), o as int),
            ),
        decreases n - i,
    {
        proof {
            if addrs2_at(bytes@, off + 1, (i + 1) as nat) is Err {
                lemma_addrs2_err(bytes@, off + 1, (i + 1) as nat, n as nat);
            }
        }
        let (addr, end) = match read_addr(bytes, o, i) {
            Ok(x) => x,
            Err(e) => return Err(e),
        };
        let ghost before = addr_views(out@);
        let ghost x = addr@;
        out.push(addr);
        assert(addr_views(out@) =~= before.push(x));
        o = end;
        i = i + 1;
    }
    if len != o {
        return Err(
            quarantine(
                cat(
                    cat3(
                        "invite v2 length mismatch: expected ",
                        decimal_text(o as u64).as_str(),
                        " bytes, got ",
                    ).as_str(),
                    decimal_text(len as u64).as_str(),
                ),
            ),
        );
    }
    Ok(out)
}

// ---- tokens -----------------------------------------------------------------------

/// An invite and the signature of its issuer.
#[derive(Debug, Clone, PartialEq, Eq)]
pub struct InviteV2Token {
    pub invite: InviteV2,
    pub signature: Signature,
}

/// What an [`InviteV2Token`] holds.
#[verifier::ext_equal]
pub struct Token2View {
    pub invite: Invite2View,
    pub signature: Seq<u8>,
}

impl View for InviteV2Token {
    type V = Token2View;

    open spec fn view(&self) -> Token2View {
        Token2View { invite: self.invite@, signature: self.signature@ }
    }
}

/// Why the signature of a token does not hold, if it does not.
pub open spec fn token2_fault(t: Token2View) -> Option<Fault> {
    match invite2_fault(t.invite) {
        Some(e) => Some(e),
        None => if ed25519_accepts(t.invite.issuer, invite2_bytes(t.invite), t.signature) {
            None
        } else {
            Some(Fault::Quarantine("invite v2 signature verification failed"@))
        },
    }
}

/// The text of a token.
pub open spec fn token2_text(t: Token2View) -> Seq<char> {
    TOKEN2_PREFIX@ + base64url_of(invite2_bytes(t.invite) + t.signature)
}

/// The token that the bytes of its text are.
pub open spec fn token2_of_payload(p: Seq<u8>) -> Result<Token2View, Fault> {
    if p.len() < 64 {
        Err(Fault::Quarantine("token payload shorter than a signature"@))
    } else {
        let split = p.len() - 64;
        match invite2_of(p.subrange(0, split)) {
            Err(e) => Err(e),
            Ok(invite) => {
                let t = Token2View { invite, signature: p.subrange(split, p.len() as int) };
                if token2_fault(t) is Some {
                    Err(Fault::Quarantine("invite v2 token signature verification failed"@))
                } else {
                    Ok(t)
                }
            },
        }
    }
}

/// The token of a text.
pub open spec fn token2_of(s: Seq<char>) -> Result<Token2View, Fault> {
    if !TOKEN2_PREFIX@.is_prefix_of(s) {
        Err(Fault::Quarantine("token does not start with \"dweb2.\""@))
    } else {
        let text = s.subrange(TOKEN2_PREFIX@.len() as int, s.len() as int);
        match base64url_bytes(text) {
            Err(e) => Err(Fault::Quarantine("token base64 decoding failed: "@ + e)),
            Ok(p) => token2_of_payload(p),
        }
    }
}

/// A token with a signature that holds is read back from its text.
pub proof fn invite2_token_roundtrip(t: Token2View)
    requires
        invite2_fields_ok(t.invite),
        t.signature.len() == 64,
        token2_fault(t) is None,
    ensures
        token2_of_payload(invite2_bytes(t.invite) + t.signature) == Ok::<Token2View, Fault>(t),
        base64url_bytes(base64url_of(invite2_bytes(t.invite) + t.signature)) == Ok::<
            Seq<u8>,
            Seq<char>,
        >(invite2_bytes(t.invite) + t.signature) ==> token2_of(token2_text(t)) == Ok::<Token2View, Fault>(t),
{
    let p = invite2_bytes(t.invite) + t.signature;
    invite2_roundtrip(t.invite);
    assert(p.subrange(0, p.len() - 64) =~= invite2_bytes(t.invite));
    assert(p.subrange(p.len() - 64, p.len() as int) =~= t.signature);
    let s = token2_text(t);
    reveal_strlit("dweb2.");
    assert(s.subrange(0, 6) =~= TOKEN2_PREFIX@);
    assert(s.subrange(6, s.len() as int) =~= base64url_of(p));
}

impl InviteV2Token {
    /// Signs an invite.
    pub fn sign(invite: InviteV2, secret: &SecretKey) -> (r: Result<Self, ProtocolError>)
        ensures
            match invite2_fault(invite@) {
                None => r is Ok && r->Ok_0@ == (Token2View {
                    invite: invite@,
                    signature: ed25519_signature(secret@, invite2_bytes(invite@)),
                }),
                Some(e) => r is Err && r->Err_0@ == e,
            },
    {
        let bytes = match invite.canonical_bytes() {
            Ok(b) => b,
            Err(e) => return Err(e),
        };
        let signature = secret.sign(bytes.as_slice());
        Ok(InviteV2Token { invite, signature })
    }

    /// The text of the token; with a signature that holds it reads back as the token.
    pub fn encode(&self) -> (r: Result<String, ProtocolError>)
        ensures
            match invite2_fault(self@.invite) {
                None => {
                    &&& r is Ok
                    &&& r->Ok_0@ == token2_text(self@)
                    &&& token2_fault(self@) is None ==> token2_of(r->Ok_0@) == Ok::<
                        Token2View,
                        Fault,
                    >(self@)
                },
                Some(e) => r is Err && r->Err_0@ == e,
            },
    {
        let mut payload = match self.invite.canonical_bytes() {
            Ok(b) => b,
            Err(e) => return Err(e),
        };
        proof {
            lemma_invite2_len(self.invite@);
        }
        push_bytes(&mut payload, &self.signature.0);
        let text = base64url_encode(payload.as_slice());
        proof {
            use_type_invariant(&self.invite.issuer);
            use_type_invariant(&self.invite.recipient);
            if token2_fault(self@) is None {
                assert(invite2_fields_ok(self@.invite));
                invite2_token_roundtrip(self@);
            }
        }
        Ok(cat(TOKEN2_PREFIX, text.as_str()))
    }

    /// Reads a token and checks its signature.
    pub fn decode(s: &str) -> (r: Result<Self, ProtocolError>)
        ensures
            match token2_of(s@) {
                Ok(t) => r is Ok && r->Ok_0@ == t,
                Err(e) => r is Err && r->Err_0@ == e,
            },
    {
        let text = match text_after(s, TOKEN2_PREFIX) {
            Some(t) => t,
            None => {
                return Err(quarantine("token does not start with \"dweb2.\"".to_owned()));
            },
        };
        match base64url_decode(text.as_str()) {
            Ok(p) => Self::from_payload(p.as_slice()),
            Err(e) => Err(quarantine(cat("token base64 decoding failed: ", e.as_str()))),
        }
    }

    /// Reads a token from the bytes of its text and checks its signature.
    pub fn from_payload(payload: &[u8]) -> (r: Result<Self, ProtocolError>)
        ensures
            match token2_of_payload(payload@) {
                Ok(t) => r is Ok && r->Ok_0@ == t,
                Err(e) => r is Err && r->Err_0@ == e,
            },
    {
        if payload.len() < 64 {
            return Err(quarantine("token payload shorter than a signature".to_owned()));
        }
        let split: usize = payload.len() - 64;
        let invite = match InviteV2::decode_strict(
            vstd::slice::slice_subrange(payload, 0, split),
        ) {
            Ok(v) => v,
            Err(e) => return Err(e),
        };
        let signature = Signature(array_at::<64>(payload, split));
        let token = InviteV2Token { invite, signature };
        match token.verify() {
            Ok(()) => Ok(token),
            Err(_) => Err(quarantine("invite v2 token signature verification failed".to_owned())),
        }
    }

    /// Whether the signature is that of the issuer.
    pub fn verify(&self) -> (r: Result<(), ProtocolError>)
        ensures
            match token2_fault(self@) {
                None => r is Ok,
                Some(e) => r is Err && r->Err_0@ == e,
            },
    {
        let bytes = match self.invite.canonical_bytes() {
            Ok(b) => b,
            Err(e) => return Err(e),
        };
        if self.invite.issuer.verify(bytes.as_slice(), &self.signature) {
            Ok(())
        } else {
            Err(quarantine("invite v2 signature verification failed".to_owned()))
        }
    }

    /// Whether the invite has expired.
    pub fn is_expired(&self, now_ms: u64) -> (r: bool)
        ensures
            r == (now_ms >= self@.invite.expires_at_ms),
    {
        self.invite.is_expired(now_ms)
    }
}

/// A token of either version.
#[derive(Debug, Clone, PartialEq, Eq)]
pub enum InviteVersion {
    V1(InviteToken),
    V2(InviteV2Token),
}

/// What an [`InviteVersion`] holds.
pub enum AnyTokenView {
    V1(TokenView),
    V2(Token2View),
}

impl View for InviteVersion {
    type V = AnyTokenView;

    open spec fn view(&self) -> AnyTokenView {
        match self {
            InviteVersion::V1(t) => AnyTokenView::V1(t@),
            InviteVersion::V2(t) => AnyTokenView::V2(t@),
        }
    }
}

/// The token of a text: the prefix says the version, and everything that is not of the
/// second version is read as the first.
pub open spec fn any_token_of(s: Seq<char>) -> Result<AnyTokenView, Fault> {
    if TOKEN2_PREFIX@.is_prefix_of(s) {
        match token2_of(s) {
            Ok(t) => Ok(AnyTokenView::V2(t)),
            Err(e) => Err(e),
        }
    } else {
        match token_of(s) {
            Ok(t) => Ok(AnyTokenView::V1(t)),
            Err(e) => Err(e),
        }
    }
}

/// No text is a token of both versions, and each reader refuses the tokens of the other.
pub proof fn versions_are_kept_apart(s: Seq<char>)
    ensures
        !(token_of(s) is Ok && token2_of(s) is Ok),
        token_of(s) is Ok ==> any_token_of(s) == Ok::<AnyTokenView, Fault>(
            AnyTokenView::V1(token_of(s)->Ok_0),
        ),
        token2_of(s) is Ok ==> any_token_of(s) == Ok::<AnyTokenView, Fault>(
            AnyTokenView::V2(token2_of(s)->Ok_0),
        ),
{
}

impl InviteVersion {
    /// Reads a token of either version.
    pub fn decode(s: &str) -> (r: Result<Self, ProtocolError>)
        ensures
            match any_token_of(s@) {
                Ok(t) => r is Ok && r->Ok_0@ == t,
                Err(e) => r is Err && r->Err_0@ == e,
            },
    {
        if text_starts_with(s, TOKEN2_PREFIX) {
            match InviteV2Token::decode(s) {
                Ok(t) => Ok(InviteVersion::V2(t)),
                Err(e) => Err(e),
            }
        } else {
            match InviteToken::decode(s) {
                Ok(t) => Ok(InviteVersion::V1(t)),
                Err(e) => Err(e),
            }
        }
    }
}

} // verus!
