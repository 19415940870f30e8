//! Relay capabilities: what a root lets an endpoint do at one server.
//!
//! A capability is 146 bytes: a version byte, the ids of fabric, server, issuer and
//! recipient, a byte of capability bits and two times in milliseconds. The token is
//! `dwebr1.` and the URL-safe base64 text of these bytes and the signature. What is signed
//! is the domain prefix and the bytes; the prefix is not sent.
use vstd::prelude::*;
use vstd::string::*;
use vstd::utf8::*;

use crate::identity::{EndpointId, SecretKey};
use crate::octets::{
    array_at, be64, be_value, lemma_be_fields, lemma_be_widths, push_be, push_bytes, read_be64,
};
use crate::outside::{
    base64url_bytes, base64url_decode, base64url_encode, ed25519_key, ed25519_public,
    ed25519_signature,
};
use crate::radix::{base64url_keeps_to_its_alphabet, base64url_of, is_base64url_char};
use crate::protocol::fact::{bad_key, key_at, FabricId};
use crate::protocol::{
    quarantine, Fault, ProtocolError, CAP_KNOWN_MASK, RELAY_CAP_DOMAIN, RELAY_CAP_MAX_TTL_MS,
    RELAY_CAP_TOKEN_PREFIX,
};
use crate::text::{cat, cat3, cat5, chars_of, decimal, decimal_text, hex_byte, hex_byte_text, text_after};

verus! {

/// Characters of a capability token.
pub const RELAY_CAP_TOKEN_LEN: usize = 287;

/// Bytes of a capability without its signature.
pub const RELAY_CAP_CANONICAL_LEN: usize = 146;

/// Bytes of a capability with its signature.
pub const RELAY_CAP_WIRE_LEN: usize = 210;

/// Characters of a token behind its prefix.
pub const RELAY_CAP_ENCODED_LEN: usize = 280;

/// Longest text that is looked at.
pub const RELAY_CAP_MAX_TOKEN_LEN: usize = 1024;

/// Version byte of a capability.
pub const RELAY_CAP_VERSION: u8 = 0x01;

/// A capability.
#[derive(Debug, Clone, Copy, PartialEq, Eq)]
pub struct RelayCapV1 {
    pub fabric_id: FabricId,
    /// The server that the capability is good at.
    pub server_id: [u8; 32],
    /// The root that gives it.
    pub issuer: EndpointId,
    /// The endpoint that may use it.
    pub recipient: EndpointId,
    /// Capability bits, of the known ones only.
    pub caps: u8,
    pub issued_at: u64,
    pub expires_at: u64,
}

/// What a [`RelayCapV1`] says.
#[verifier::ext_equal]
pub struct CapView {
    pub fabric_id: Seq<u8>,
    pub server_id: Seq<u8>,
    pub issuer: Seq<u8>,
    pub recipient: Seq<u8>,
    pub caps: u8,
    pub issued_at: u64,
    pub expires_at: u64,
}

impl View for RelayCapV1 {
    type V = CapView;

    open spec fn view(&self) -> CapView {
        CapView {
            fabric_id: self.fabric_id@,
            server_id: self.server_id@,
            issuer: self.issuer@,
            recipient: self.recipient@,
            caps: self.caps,
            issued_at: self.issued_at,
            expires_at: self.expires_at,
        }
    }
}

/// The bytes of a capability.
pub open spec fn cap_bytes(v: CapView) -> Seq<u8> {
    seq![RELAY_CAP_VERSION] + v.fabric_id + v.server_id + v.issuer + v.recipient + seq![v.caps]
        + be64(v.issued_at) + be64(v.expires_at)
}

/// What is signed for a capability.
pub open spec fn cap_message(v: CapView) -> Seq<u8> {
    RELAY_CAP_DOMAIN@ + cap_bytes(v)
}

/// The token of a capability and its signature.
pub open spec fn cap_text(v: CapView, signature: Seq<u8>) -> Seq<char> {
    RELAY_CAP_TOKEN_PREFIX@ + base64url_of(cap_bytes(v) + signature)
}

/// Why no capability is given for these bits and times, if none is.
pub open spec fn cap_refusal(caps: u8, issued_at: u64, expires_at: u64) -> Option<Fault> {
    if caps & !CAP_KNOWN_MASK != 0 {
        Some(
            Fault::Encoding(
                "caps 0x"@ + hex_byte(caps) + " contains reserved bits (known mask 0x"@
                    + hex_byte(CAP_KNOWN_MASK) + ")"@,
            ),
        )
    } else if issued_at > expires_at {
        Some(Fault::Encoding("issued_at must not exceed expires_at"@))
    } else if expires_at - issued_at > RELAY_CAP_MAX_TTL_MS {
        Some(
            Fault::Encoding(
                "capability TTL over the "@ + decimal(RELAY_CAP_MAX_TTL_MS as nat)
                    + "ms ceiling (design §11.1)"@,
            ),
        )
    } else {
        None
    }
}

pub open spec fn cap_malformed() -> Fault {
    Fault::Quarantine("not a well-formed dwebr1. capability token"@)
}

/// The capability of the bytes of a token.
pub open spec fn cap_of_wire(w: Seq<u8>) -> Result<CapView, Fault> {
    if w.len() != RELAY_CAP_WIRE_LEN || w[0] != RELAY_CAP_VERSION {
        Err(cap_malformed())
    } else if w[129] & !CAP_KNOWN_MASK != 0 {
        Err(
            Fault::Quarantine(
                "capability caps 0x"@ + hex_byte(w[129]) + " contains reserved bits"@,
            ),
        )
    } else if !ed25519_key(w.subrange(65, 97)) || !ed25519_key(w.subrange(97, 129)) {
        Err(bad_key())
    } else {
        Ok(
            CapView {
                fabric_id: w.subrange(1, 33),
                server_id: w.subrange(33, 65),
                issuer: w.subrange(65, 97),
                recipient: w.subrange(97, 129),
                caps: w[129],
                issued_at: be_value(w.subrange(130, 138)) as u64,
                expires_at: be_value(w.subrange(138, 146)) as u64,
            },
        )
    }
}

/// The characters behind the prefix of a token.
pub open spec fn cap_payload(s: Seq<char>) -> Seq<char> {
    s.subrange(RELAY_CAP_TOKEN_PREFIX@.len() as int, s.len() as int)
}

/// A text has the shape of a token: the prefix and 280 characters of the alphabet.
pub open spec fn cap_shaped(s: Seq<char>) -> bool {
    &&& RELAY_CAP_TOKEN_PREFIX@.is_prefix_of(s)
    &&& cap_payload(s).len() == RELAY_CAP_ENCODED_LEN
    &&& forall|i: int| 0 <= i < cap_payload(s).len() ==> is_base64url_char(#[trigger] cap_payload(s)[i])
}

/// The capability of a text. Its signature is not checked: that is for the server.
pub open spec fn cap_of(s: Seq<char>) -> Result<CapView, Fault> {
    if !cap_shaped(s) {
        Err(cap_malformed())
    } else {
        match base64url_bytes(cap_payload(s)) {
            Err(_) => Err(cap_malformed()),
            Ok(w) => cap_of_wire(w),
        }
    }
}

/// A token is 287 characters and as many bytes.
pub proof fn lemma_cap_len(s: Seq<char>)
    requires
        cap_shaped(s),
    ensures
        s.len() == RELAY_CAP_TOKEN_LEN,
        encode_utf8(s).len() == RELAY_CAP_TOKEN_LEN,
{
    reveal_strlit("dwebr1.");
    let p = cap_payload(s);
    assert(s =~= RELAY_CAP_TOKEN_PREFIX@ + p);
    assert(is_ascii_chars(s)) by {
        assert forall|i: int| 0 <= i < s.len() implies '\0' <= #[trigger] s[i] <= '\u{7f}' by {
            if i >= 7 {
                assert(is_base64url_char(p[i - 7]));
            } else {
                assert(s[i] == RELAY_CAP_TOKEN_PREFIX@[i]);
            }
        }
    }
    is_ascii_chars_encode_utf8(s);
}

/// The ids of a capability have their length.
pub open spec fn cap_fields_ok(v: CapView) -> bool {
    &&& v.fabric_id.len() == 32
    &&& v.server_id.len() == 32
    &&& v.issuer.len() == 32
    &&& v.recipient.len() == 32
}

/// Reading the bytes of a capability gives the capability, whatever the signature.
pub proof fn relay_cap_roundtrip(v: CapView, signature: Seq<u8>)
    requires
        cap_fields_ok(v),
        ed25519_key(v.issuer),
        ed25519_key(v.recipient),
        v.caps & !CAP_KNOWN_MASK == 0,
        signature.len() == 64,
    ensures
        cap_of_wire(cap_bytes(v) + signature) == Ok::<CapView, Fault>(v),
        (cap_bytes(v) + signature).len() == RELAY_CAP_WIRE_LEN,
{
    let w = cap_bytes(v) + signature;
    lemma_be_widths(v.issued_at);
    lemma_be_widths(v.expires_at);
    assert(w.subrange(1, 33) =~= v.fabric_id);
    assert(w.subrange(33, 65) =~= v.server_id);
    assert(w.subrange(65, 97) =~= v.issuer);
    assert(w.subrange(97, 129) =~= v.recipient);
    assert(w[129] == v.caps);
    assert(w.subrange(130, 138) =~= be64(v.issued_at));
    assert(w.subrange(138, 146) =~= be64(v.expires_at));
}

/// What is read of a token is what its bytes say: writing it gives the same bytes.
pub proof fn relay_cap_is_canonical(w: Seq<u8>)
    requires
        cap_of_wire(w) is Ok,
    ensures
        cap_bytes(cap_of_wire(w)->Ok_0) == w.subrange(0, 146),
{
    let v = cap_of_wire(w)->Ok_0;
    lemma_be_fields(w.subrange(130, 138));
    lemma_be_fields(w.subrange(138, 146));
    assert(cap_bytes(v) =~= w.subrange(0, 146));
}

impl RelayCapV1 {
    /// The bytes of the capability, without domain prefix and signature.
    pub fn canonical_bytes(&self) -> (r: Vec<u8>)
        ensures
            r@ == cap_bytes(self@),
            r@.len() == RELAY_CAP_CANONICAL_LEN,
    {
        let mut buf: Vec<u8> = Vec::new();
        buf.push(RELAY_CAP_VERSION);
        push_bytes(&mut buf, self.fabric_id.as_bytes());
        push_bytes(&mut buf, &self.server_id);
        push_bytes(&mut buf, self.issuer.as_bytes());
        push_bytes(&mut buf, self.recipient.as_bytes());
        buf.push(self.caps);
        push_be(&mut buf, self.issued_at, 8);
        push_be(&mut buf, self.expires_at, 8);
        proof {
            lemma_be_widths(self.issued_at);
            lemma_be_widths(self.expires_at);
        }
        assert(buf@ =~= cap_bytes(self@));
        buf
    }

    /// Signs a capability with the key of the root and gives its token, which reads back as
    /// the capability.
    pub fn sign_and_encode(
        secret: &SecretKey,
        fabric_id: &FabricId,
        server_id: &[u8; 32],
        recipient: &EndpointId,
        caps: u8,
        issued_at: u64,
        expires_at: u64,
    ) -> (r: Result<String, ProtocolError>)
        ensures
            match cap_refusal(caps, issued_at, expires_at) {
                Some(e) => r is Err && r->Err_0@ == e,
                None => {
                    let v = CapView {
                        fabric_id: fabric_id@,
                        server_id: server_id@,
                        issuer: ed25519_public(secret@),
                        recipient: recipient@,
                        caps,
                        issued_at,
                        expires_at,
                    };
                    &&& r is Ok
                    &&& r->Ok_0@ == cap_text(v, ed25519_signature(secret@, cap_message(v)))
                    &&& r->Ok_0@.len() == RELAY_CAP_TOKEN_LEN
                    &&& cap_of(r->Ok_0@) == Ok::<CapView, Fault>(v)
                },
            },
    {
        if caps & !CAP_KNOWN_MASK != 0 {
            return Err(
                ProtocolError::Encoding(
                    cat5(
                        "caps 0x",
                        hex_byte_text(caps).as_str(),
                        " contains reserved bits (known mask 0x",
                        hex_byte_text(CAP_KNOWN_MASK).as_str(),
                        ")",
                    ),
                ),
            );
        }
        if issued_at > expires_at {
            return Err(
                ProtocolError::Encoding("issued_at must not exceed expires_at".to_owned()),
            );
        }
        if expires_at - issued_at > RELAY_CAP_MAX_TTL_MS {
            return Err(
                ProtocolError::Encoding(
                    cat3(
                        "capability TTL over the ",
                        decimal_text(RELAY_CAP_MAX_TTL_MS).as_str(),
                        "ms ceiling (design §11.1)",
                    ),
                ),
            );
        }
        let cap = RelayCapV1 {
            fabric_id: *fabric_id,
            server_id: *server_id,
            issuer: secret.public(),
            recipient: *recipient,
            caps,
            issued_at,
            expires_at,
        };
        let mut wire = cap.canonical_bytes();
        let mut message: Vec<u8> = Vec::new();
        push_bytes(&mut message, &RELAY_CAP_DOMAIN);
        push_bytes(&mut message, wire.as_slice());
        assert(message@ =~= cap_message(cap@));
        let signature = secret.sign(message.as_slice());
        push_bytes(&mut wire, &signature.0);
        let payload = base64url_encode(wire.as_slice());
        let text = cat(RELAY_CAP_TOKEN_PREFIX, payload.as_str());
        proof {
            reveal_strlit("dwebr1.");
            base64url_keeps_to_its_alphabet(wire@);
            assert(cap_payload(text@) =~= payload@);
            assert(text@.subrange(0, 7) =~= RELAY_CAP_TOKEN_PREFIX@);
            assert(RELAY_CAP_TOKEN_PREFIX@.is_prefix_of(text@));
            assert(cap_shaped(text@));
            use_type_invariant(recipient);
            relay_cap_roundtrip(cap@, signature@);
        }
        Ok(text)
    }

    /// Reads a token. Its signature is not checked: that is for the server.
    pub fn decode(s: &str) -> (r: Result<Self, ProtocolError>)
        ensures
            match cap_of(s@) {
                Ok(v) => r is Ok && r->Ok_0@ == v,
                Err(e) => r is Err && r->Err_0@ == e,
            },
    {
        if s.as_bytes().len() > RELAY_CAP_MAX_TOKEN_LEN {
            proof {
                if cap_shaped(s@) {
                    lemma_cap_len(s@);
                }
            }
            return Err(malformed());
        }
        let payload = match text_after(s, RELAY_CAP_TOKEN_PREFIX) {
            Some(t) => t,
            None => return Err(malformed()),
        };
        let chars = chars_of(payload.as_str());
        if chars.len() != RELAY_CAP_ENCODED_LEN {
            return Err(malformed());
        }
        let mut i: usize = 0;
        while i < chars.len()
            invariant
                i <= chars@.len(),
                chars@ == cap_payload(s@),
                forall|k: int| 0 <= k < i ==> is_base64url_char(#[trigger] chars@[k]),
            decreases chars@.len() - i,
        {
            if !in_alphabet(chars[i]) {
                assert(!is_base64url_char(cap_payload(s@)[i as int]));
                return Err(malformed());
            }
            i = i + 1;
        }
        assert(cap_shaped(s@));
        match base64url_decode(payload.as_str()) {
            Ok(wire) => Self::from_wire(wire.as_slice()),
            Err(_) => Err(malformed()),
        }
    }

    /// Reads a capability from the bytes of its token.
    pub fn from_wire(wire: &[u8]) -> (r: Result<Self, ProtocolError>)
        ensures
            match cap_of_wire(wire@) {
                Ok(v) => r is Ok && r->Ok_0@ == v,
                Err(e) => r is Err && r->Err_0@ == e,
            },
    {
        if wire.len() != RELAY_CAP_WIRE_LEN || wire[0] != RELAY_CAP_VERSION {
            return Err(malformed());
        }
        let caps: u8 = wire[129];
        if caps & !CAP_KNOWN_MASK != 0 {
            return Err(
                quarantine(
                    cat3(
                        "capability caps 0x",
                        hex_byte_text(caps).as_str(),
                        " contains reserved bits",
                    ),
                ),
            );
        }
        let issuer = match key_at(wire, 65) {
            Ok(k) => k,
            Err(e) => return Err(e),
        };
        let recipient = match key_at(wire, 97) {
            Ok(k) => k,
            Err(e) => return Err(e),
        };
        Ok(
            RelayCapV1 {
                fabric_id: FabricId(array_at::<32>(wire, 1)),
                server_id: array_at::<32>(wire, 33),
                issuer,
                recipient,
                caps,
                issued_at: read_be64(wire, 130),
                expires_at: read_be64(wire, 138),
            },
        )
    }
}

fn malformed() -> (r: ProtocolError)
    ensures
        r@ == cap_malformed(),
{
    quarantine("not a well-formed dwebr1. capability token".to_owned())
}

fn in_alphabet(c: char) -> (r: bool)
    ensures
        r == is_base64url_char(c),
{
    ('A' <= c && c <= 'Z') || ('a' <= c && c <= 'z') || ('0' <= c && c <= '9') || c == '-' || c
        == '_'
}

/// A capability is given exactly for the three known bits, for a time that does not end
/// before it begins and lasts at most 180 days.
pub proof fn capabilities_are_given_within_their_limits(caps: u8, issued_at: u64, expires_at: u64)
    ensures
        cap_refusal(caps, issued_at, expires_at) is None <==> caps <= 7 && issued_at <= expires_at
            && expires_at - issued_at <= 15_552_000_000,
{
    assert(caps & !7u8 == 0 <==> caps <= 7) by (bit_vector);
}

/// Where the fields of a capability stand.
pub proof fn capabilities_have_their_layout(v: CapView)
    requires
        cap_fields_ok(v),
    ensures
        ({
            let b = cap_bytes(v);
            &&& b.len() == 146
            &&& b[0] == 1
            &&& b.subrange(1, 33) == v.fabric_id
            &&& b.subrange(33, 65) == v.server_id
            &&& b.subrange(65, 97) == v.issuer
            &&& b.subrange(97, 129) == v.recipient
            &&& b[129] == v.caps
            &&& be_value(b.subrange(130, 138)) == v.issued_at
            &&& be_value(b.subrange(138, 146)) == v.expires_at
        }),
{
    let b = cap_bytes(v);
    lemma_be_widths(v.issued_at);
    lemma_be_widths(v.expires_at);
    assert(b.subrange(1, 33) =~= v.fabric_id);
    assert(b.subrange(33, 65) =~= v.server_id);
    assert(b.subrange(65, 97) =~= v.issuer);
    assert(b.subrange(97, 129) =~= v.recipient);
    assert(b.subrange(130, 138) =~= be64(v.issued_at));
    assert(b.subrange(138, 146) =~= be64(v.expires_at));
}

} // verus!
