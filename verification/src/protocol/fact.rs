//! Membership facts and their signatures.
//!
//! ```text
//! offset  size  field
//! 0       13    domain
//! 13      1     kind            1 Genesis, 2 Grant, 3 Join, 4 Revoke
//! 14      32    fabric id
//! 46      32    issuer
//! 78      32    subject
//! 110     8     issued at, milliseconds
//! 118     1     flags           1 name, 2 expiry, 4 target; no other bit
//! 119     ..    name length and bytes, expiry, target: those that the flags announce
//! ```
use vstd::prelude::*;
use vstd::string::*;
use vstd::utf8::*;

use crate::identity::EndpointId;
use crate::octets::{
    array_at, be16, be64, be_value, bytes_eq, lemma_be_fields, lemma_be_widths, push_be, push_bytes,
    read_be16, read_be64,
};
use crate::outside::{blake3_hash, blake3_of, ed25519_key, key_generate, utf8_text};
use crate::protocol::{quarantine, Fault, ProtocolError, FACT_DOMAIN, MAX_NAME_BYTES};
use crate::text::{
    byte_list, byte_list_text, cat, cat5, decimal, decimal_text, hex_byte, hex_byte_text, hex_chars,
    hex_str,
};

verus! {

/// Length of the part of a fact before its optional fields.
pub const FACT_FIXED_LEN: usize = 119;

/// The content address of a fact.
pub type FactId = [u8; 32];

/// The identity of a fabric.
#[derive(Debug, Clone, Copy, PartialEq, Eq, PartialOrd, Ord, Hash)]
pub struct FabricId(pub [u8; 32]);

impl View for FabricId {
    type V = Seq<u8>;

    open spec fn view(&self) -> Seq<u8> {
        self.0@
    }
}

/// `N` bytes of a hash.
pub fn hash_prefix<const N: usize>(seed: &[u8; 32]) -> (r: [u8; N])
    requires
        N <= 32,
    ensures
        r@ == blake3_of(seed@).subrange(0, N as int),
{
    let h = blake3_hash(seed);
    array_at::<N>(&h, 0)
}

/// Up to 32 random bytes: the hash of a random key.
pub fn random_bytes<const N: usize>() -> (r: [u8; N])
    requires
        N <= 32,
    ensures
        exists|key: [u8; 32]| r@ == #[trigger] blake3_of(key@).subrange(0, N as int),
{
    let key = key_generate();
    hash_prefix::<N>(&key)
}

impl FabricId {
    /// The fabric of a name: the hash of its UTF-8 bytes.
    pub fn from_name(name: &str) -> (r: Self)
        ensures
            r@ == blake3_of(encode_utf8(name@)),
    {
        FabricId(blake3_hash(name.as_bytes()))
    }

    /// A new random fabric.
    pub fn random() -> (r: Self)
        ensures
            exists|key: [u8; 32]| r@ == #[trigger] blake3_of(key@).subrange(0, 32),
    {
        FabricId(random_bytes::<32>())
    }

    pub fn as_bytes(&self) -> (r: &[u8; 32])
        ensures
            r@ == self@,
    {
        &self.0
    }

    /// Whether both are the same fabric.
    pub fn same(&self, other: &FabricId) -> (r: bool)
        ensures
            r == (self@ == other@),
    {
        bytes_eq(&self.0, &other.0)
    }

    /// The fabric in hexadecimal.
    pub fn display(&self) -> (r: String)
        ensures
            r@ == hex_chars(self@),
    {
        hex_str(&self.0)
    }
}

/// What a fact says of its subject.
#[derive(Debug, Clone, Copy, PartialEq, Eq, Hash, Structural)]
pub enum FactKind {
    /// The trust root of a fabric.
    Genesis,
    /// Membership.
    Grant,
    /// A name that a member gives itself.
    Join,
    /// The end of one grant or of all grants of a subject.
    Revoke,
}

pub open spec fn kind_code(k: FactKind) -> u8 {
    match k {
        FactKind::Genesis => 1,
        FactKind::Grant => 2,
        FactKind::Join => 3,
        FactKind::Revoke => 4,
    }
}

pub open spec fn kind_of_code(v: u8) -> Option<FactKind> {
    if v == 1 {
        Some(FactKind::Genesis)
    } else if v == 2 {
        Some(FactKind::Grant)
    } else if v == 3 {
        Some(FactKind::Join)
    } else if v == 4 {
        Some(FactKind::Revoke)
    } else {
        None
    }
}

pub open spec fn kind_text(k: FactKind) -> Seq<char> {
    match k {
        FactKind::Genesis => "genesis"@,
        FactKind::Grant => "grant"@,
        FactKind::Join => "join"@,
        FactKind::Revoke => "revoke"@,
    }
}

impl FactKind {
    /// The wire value.
    pub fn as_u8(self) -> (r: u8)
        ensures
            r == kind_code(self),
    {
        match self {
            FactKind::Genesis => 1,
            FactKind::Grant => 2,
            FactKind::Join => 3,
            FactKind::Revoke => 4,
        }
    }

    /// The kind of a wire value.
    pub fn from_u8(v: u8) -> (r: Option<Self>)
        ensures
            r == kind_of_code(v),
    {
        match v {
            1 => Some(FactKind::Genesis),
            2 => Some(FactKind::Grant),
            3 => Some(FactKind::Join),
            4 => Some(FactKind::Revoke),
            _ => None,
        }
    }

    /// The name of the kind.
    pub fn as_str(self) -> (r: &'static str)
        ensures
            r@ == kind_text(self),
    {
        match self {
            FactKind::Genesis => "genesis",
            FactKind::Grant => "grant",
            FactKind::Join => "join",
            FactKind::Revoke => "revoke",
        }
    }
}

/// A membership fact. Its id is not stored: it is the hash of its canonical bytes.
#[derive(Debug, Clone, PartialEq, Eq)]
pub struct Fact {
    pub kind: FactKind,
    pub fabric_id: FabricId,
    /// Who signs.
    pub issuer: EndpointId,
    /// Whom it is about.
    pub subject: EndpointId,
    pub display_name: Option<String>,
    pub issued_at_ms: u64,
    /// From this moment on the fact has no effect.
    pub expires_at_ms: Option<u64>,
    /// The grant that a revocation ends; without it, all grants of the subject.
    pub target_fact_id: Option<FactId>,
}

/// What a [`Fact`] says.
#[verifier::ext_equal]
pub struct FactView {
    pub kind: FactKind,
    pub fabric_id: Seq<u8>,
    pub issuer: Seq<u8>,
    pub subject: Seq<u8>,
    pub display_name: Option<Seq<char>>,
    pub issued_at_ms: u64,
    pub expires_at_ms: Option<u64>,
    pub target_fact_id: Option<Seq<u8>>,
}

impl View for Fact {
    type V = FactView;

    open spec fn view(&self) -> FactView {
        FactView {
            kind: self.kind,
            fabric_id: self.fabric_id@,
            issuer: self.issuer@,
            subject: self.subject@,
            display_name: match self.display_name {
                Some(n) => Some(n@),
                None => None,
            },
            issued_at_ms: self.issued_at_ms,
            expires_at_ms: self.expires_at_ms,
            target_fact_id: match self.target_fact_id {
                Some(t) => Some(t@),
                None => None,
            },
        }
    }
}

/// A name of `n` bytes is too long.
pub open spec fn name_limit_text(n: nat) -> Seq<char> {
    "display_name of "@ + decimal(n) + " bytes exceeds the "@ + decimal(512) + " byte limit"@
}

/// The bytes of the optional name.
pub open spec fn name_len(f: FactView) -> nat {
    match f.display_name {
        Some(n) => encode_utf8(n).len(),
        None => 0,
    }
}

pub open spec fn fact_flags(f: FactView) -> u8 {
    ((if f.display_name is Some {
        1int
    } else {
        0
    }) + (if f.expires_at_ms is Some {
        2int
    } else {
        0
    }) + (if f.target_fact_id is Some {
        4int
    } else {
        0
    })) as u8
}

pub open spec fn name_bytes(n: Option<Seq<char>>) -> Seq<u8> {
    match n {
        Some(t) => be16(encode_utf8(t).len() as u16) + encode_utf8(t),
        None => Seq::empty(),
    }
}

pub open spec fn expiry_bytes(e: Option<u64>) -> Seq<u8> {
    match e {
        Some(x) => be64(x),
        None => Seq::empty(),
    }
}

pub open spec fn target_bytes(t: Option<Seq<u8>>) -> Seq<u8> {
    match t {
        Some(x) => x,
        None => Seq::empty(),
    }
}

/// The part of a fact before its optional fields.
pub open spec fn fact_head(f: FactView) -> Seq<u8> {
    FACT_DOMAIN@ + seq![kind_code(f.kind)] + f.fabric_id + f.issuer + f.subject + be64(
        f.issued_at_ms,
    ) + seq![fact_flags(f)]
}

/// The canonical bytes of a fact.
pub open spec fn fact_bytes(f: FactView) -> Seq<u8> {
    fact_head(f) + name_bytes(f.display_name) + expiry_bytes(f.expires_at_ms) + target_bytes(
        f.target_fact_id,
    )
}

/// The canonical bytes, or why the fact has none.
pub open spec fn fact_canonical(f: FactView) -> Result<Seq<u8>, Fault> {
    if name_len(f) > MAX_NAME_BYTES {
        Err(Fault::Encoding(name_limit_text(name_len(f))))
    } else {
        Ok(fact_bytes(f))
    }
}

/// What stands for the bytes of a fact without canonical form, `dweb/fact-unrepresentable/v1`
/// and a NUL.
pub const UNREPRESENTABLE: [u8; 29] = [
    100, 119, 101, 98, 47, 102, 97, 99, 116, 45, 117, 110, 114, 101, 112, 114, 101, 115, 101, 110,
    116, 97, 98, 108, 101, 47, 118, 49, 0,
];

/// The content address of a fact.
pub open spec fn fact_id_of(f: FactView) -> Seq<u8> {
    match fact_canonical(f) {
        Ok(b) => blake3_of(b),
        Err(_) => blake3_of(UNREPRESENTABLE@),
    }
}

/// The fact has effect at a moment.
pub open spec fn valid_at(f: FactView, now_ms: u64) -> bool {
    match f.expires_at_ms {
        Some(e) => now_ms < e,
        None => true,
    }
}

// ---- reading ----------------------------------------------------------------------

pub open spec fn fact_truncated(what: Seq<char>) -> Fault {
    Fault::Quarantine("truncated canonical fact: "@ + what)
}

pub open spec fn bad_key() -> Fault {
    Fault::Quarantine("key field is not a valid Ed25519 public key"@)
}

/// The optional name at `off`, and where it ends.
pub open spec fn name_at(b: Seq<u8>, off: int, there: bool) -> Result<(Option<Seq<char>>, int), Fault> {
    if !there {
        Ok((None, off))
    } else if b.len() < off + 2 {
        Err(fact_truncated("display_name length prefix"@))
    } else {
        let n = be_value(b.subrange(off, off + 2)) as int;
        if n > MAX_NAME_BYTES {
            Err(Fault::Quarantine(name_limit_text(n as nat)))
        } else if b.len() < off + 2 + n {
            Err(fact_truncated("display_name bytes"@))
        } else {
            let t = b.subrange(off + 2, off + 2 + n);
            if !valid_utf8(t) {
                Err(Fault::Quarantine("display_name is not valid UTF-8"@))
            } else {
                Ok((Some(decode_utf8(t)), off + 2 + n))
            }
        }
    }
}

/// The optional expiry at `off`, and where it ends.
pub open spec fn expiry_at(b: Seq<u8>, off: int, there: bool) -> Result<(Option<u64>, int), Fault> {
    if !there {
        Ok((None, off))
    } else if b.len() < off + 8 {
        Err(fact_truncated("expires_at_ms"@))
    } else {
        Ok((Some(be_value(b.subrange(off, off + 8)) as u64), off + 8))
    }
}

/// The optional target at `off`, and where it ends.
pub open spec fn target_at(b: Seq<u8>, off: int, there: bool) -> Result<(Option<Seq<u8>>, int), Fault> {
    if !there {
        Ok((None, off))
    } else if b.len() < off + 32 {
        Err(fact_truncated("target_fact_id"@))
    } else {
        Ok((Some(b.subrange(off, off + 32)), off + 32))
    }
}

/// The fact at the front of `b` and its length, or the first rule that the bytes break.
pub open spec fn fact_at(b: Seq<u8>) -> Result<(FactView, int), Fault> {
    let flags = b[118];
    if b.len() < FACT_FIXED_LEN {
        Err(fact_truncated("shorter than the fixed 119-byte prefix"@))
    } else if b.subrange(0, 13) != FACT_DOMAIN@ {
        Err(
            Fault::Quarantine(
                "bad fact domain "@ + byte_list(b) + " (expected "@ + byte_list(FACT_DOMAIN@)
                    + ")"@,
            ),
        )
    } else if kind_of_code(b[13]) is None {
        Err(Fault::Quarantine("unknown fact kind 0x"@ + hex_byte(b[13])))
    } else if !ed25519_key(b.subrange(46, 78)) || !ed25519_key(b.subrange(78, 110)) {
        Err(bad_key())
    } else if flags > 7 {
        Err(Fault::Quarantine("reserved flag bits set: 0x"@ + hex_byte(flags)))
    } else {
        match name_at(b, 119, flags % 2 == 1) {
            Err(e) => Err(e),
            Ok((display_name, o1)) => match expiry_at(b, o1, (flags / 2) % 2 == 1) {
                Err(e) => Err(e),
                Ok((expires_at_ms, o2)) => match target_at(b, o2, flags / 4 == 1) {
                    Err(e) => Err(e),
                    Ok((target_fact_id, o3)) => Ok(
                        (
                            FactView {
                                kind: kind_of_code(b[13])->0,
                                fabric_id: b.subrange(14, 46),
                                issuer: b.subrange(46, 78),
                                subject: b.subrange(78, 110),
                                display_name,
                                issued_at_ms: be_value(b.subrange(110, 118)) as u64,
                                expires_at_ms,
                                target_fact_id,
                            },
                            o3,
                        ),
                    ),
                },
            },
        }
    }
}

/// The fact that the whole of `b` is.
pub open spec fn fact_of(b: Seq<u8>) -> Result<FactView, Fault> {
    match fact_at(b) {
        Err(e) => Err(e),
        Ok((f, n)) => if n != b.len() {
            Err(
                Fault::Quarantine(
                    decimal((b.len() - n) as nat) + " trailing byte(s) after canonical fact"@,
                ),
            )
        } else {
            Ok(f)
        },
    }
}

/// The ids and keys of a fact have their lengths, and the keys are keys.
pub open spec fn fact_fields_ok(f: FactView) -> bool {
    &&& f.fabric_id.len() == 32
    &&& f.issuer.len() == 32
    &&& f.subject.len() == 32
    &&& ed25519_key(f.issuer)
    &&& ed25519_key(f.subject)
    &&& match f.target_fact_id {
        Some(t) => t.len() == 32,
        None => true,
    }
}

/// Reading the canonical bytes of a fact gives the fact, and stops at its end.
pub proof fn fact_roundtrip(f: FactView, rest: Seq<u8>)
    requires
        fact_fields_ok(f),
        name_len(f) <= MAX_NAME_BYTES,
    ensures
        fact_at(fact_bytes(f) + rest) == Ok::<(FactView, int), Fault>(
            (f, fact_bytes(f).len() as int),
        ),
        fact_of(fact_bytes(f)) == Ok::<FactView, Fault>(f),
{
    lemma_fact_roundtrip(f, rest);
    lemma_fact_roundtrip(f, Seq::empty());
    assert(fact_bytes(f) + Seq::<u8>::empty() =~= fact_bytes(f));
}

proof fn lemma_fact_roundtrip(f: FactView, rest: Seq<u8>)
    requires
        fact_fields_ok(f),
        name_len(f) <= MAX_NAME_BYTES,
    ensures
        fact_at(fact_bytes(f) + rest) == Ok::<(FactView, int), Fault>(
            (f, fact_bytes(f).len() as int),
        ),
{
    let b = fact_bytes(f) + rest;
    lemma_be_widths(f.issued_at_ms);
    assert(FACT_DOMAIN@.len() == 13);
    assert(fact_head(f).len() == 119);
    assert(b.subrange(0, 13) =~= FACT_DOMAIN@);
    assert(b[13] == kind_code(f.kind));
    assert(b.subrange(14, 46) =~= f.fabric_id);
    assert(b.subrange(46, 78) =~= f.issuer);
    assert(b.subrange(78, 110) =~= f.subject);
    assert(b.subrange(110, 118) =~= be64(f.issued_at_ms));
    assert(b[118] == fact_flags(f));
    let n = name_bytes(f.display_name);
    let o1 = 119 + n.len() as int;
    match f.display_name {
        Some(t) => {
            let u = encode_utf8(t);
            lemma_be_widths(u.len() as u64);
            encode_utf8_valid_utf8(t);
            encode_utf8_decode_utf8(t);
            assert(b.subrange(119, 121) =~= be16(u.len() as u16));
            assert(b.subrange(121, 121 + u.len() as int) =~= u);
        },
        None => {},
    }
    assert(name_at(b, 119, f.display_name is Some) == Ok::<(Option<Seq<char>>, int), Fault>(
        (f.display_name, o1),
    ));
    let e = expiry_bytes(f.expires_at_ms);
    let o2 = o1 + e.len() as int;
    match f.expires_at_ms {
        Some(x) => {
            lemma_be_widths(x);
            assert(b.subrange(o1, o1 + 8) =~= be64(x));
        },
        None => {},
    }
    assert(expiry_at(b, o1, f.expires_at_ms is Some) == Ok::<(Option<u64>, int), Fault>(
        (f.expires_at_ms, o2),
    ));
    match f.target_fact_id {
        Some(t) => {
            assert(b.subrange(o2, o2 + 32) =~= t);
        },
        None => {},
    }
}

/// A fact that can be read is the fact that wrote the bytes: one content, one byte string.
pub proof fn fact_is_canonical(b: Seq<u8>)
    requires
        fact_of(b) is Ok,
    ensures
        fact_fields_ok(fact_of(b)->Ok_0),
        name_len(fact_of(b)->Ok_0) <= MAX_NAME_BYTES,
        fact_bytes(fact_of(b)->Ok_0) == b,
{
    let f = fact_of(b)->Ok_0;
    let flags = b[118];
    lemma_be_fields(b.subrange(110, 118));
    assert(FACT_DOMAIN@.len() == 13);
    assert(fact_flags(f) == flags);
    assert(b.subrange(0, 119) =~= b.subrange(0, 13) + seq![b[13]] + b.subrange(14, 46)
        + b.subrange(46, 78) + b.subrange(78, 110) + b.subrange(110, 118) + seq![b[118]]);
    assert(kind_code(f.kind) == b[13]);
    assert(fact_head(f) == b.subrange(0, 119));
    let o1 = name_at(b, 119, flags % 2 == 1)->Ok_0.1;
    if flags % 2 == 1 {
        lemma_be_fields(b.subrange(119, 121));
        let n = be_value(b.subrange(119, 121)) as int;
        let t = b.subrange(121, 121 + n);
        decode_utf8_encode_utf8(t);
        assert(name_bytes(f.display_name) =~= b.subrange(119, o1));
    } else {
        assert(name_bytes(f.display_name) =~= b.subrange(119, o1));
    }
    let o2 = expiry_at(b, o1, (flags / 2) % 2 == 1)->Ok_0.1;
    if (flags / 2) % 2 == 1 {
        lemma_be_fields(b.subrange(o1, o1 + 8));
    }
    assert(expiry_bytes(f.expires_at_ms) =~= b.subrange(o1, o2));
    let o3 = b.len() as int;
    assert(target_bytes(f.target_fact_id) =~= b.subrange(o2, o3));
    assert(fact_bytes(f) =~= b);
}

/// Facts with the same canonical bytes are the same fact.
pub proof fn canonical_bytes_tell_facts_apart(f: FactView, g: FactView)
    requires
        fact_fields_ok(f),
        fact_fields_ok(g),
        name_len(f) <= MAX_NAME_BYTES,
        name_len(g) <= MAX_NAME_BYTES,
        fact_bytes(f) == fact_bytes(g),
    ensures
        f == g,
{
    fact_roundtrip(f, Seq::empty());
    fact_roundtrip(g, Seq::empty());
}

impl Fact {
    /// Whether the fact has effect at a moment.
    pub fn is_valid_at(&self, now_ms: u64) -> (r: bool)
        ensures
            r == valid_at(self@, now_ms),
    {
        match self.expires_at_ms {
            Some(e) => now_ms < e,
            None => true,
        }
    }

    /// The content address of the fact. All facts without canonical form share one.
    pub fn fact_id(&self) -> (r: FactId)
        ensures
            r@ == fact_id_of(self@),
    {
        match self.canonical_bytes() {
            Ok(bytes) => blake3_hash(bytes.as_slice()),
            Err(_) => blake3_hash(&UNREPRESENTABLE),
        }
    }

    /// The canonical bytes, which are what is signed.
    pub fn canonical_bytes(&self) -> (r: Result<Vec<u8>, ProtocolError>)
        ensures
            match fact_canonical(self@) {
                Ok(b) => r is Ok && r->Ok_0@ == b,
                Err(e) => r is Err && r->Err_0@ == e,
            },
    {
        if let Some(name) = &self.display_name {
            let n: usize = name.as_str().as_bytes().len();
            if n > MAX_NAME_BYTES {
                return Err(ProtocolError::Encoding(name_limit_message(n)));
            }
        }
        let mut buf: Vec<u8> = Vec::new();
        push_bytes(&mut buf, &FACT_DOMAIN);
        buf.push(self.kind.as_u8());
        push_bytes(&mut buf, self.fabric_id.as_bytes());
        push_bytes(&mut buf, self.issuer.as_bytes());
        push_bytes(&mut buf, self.subject.as_bytes());
        push_be(&mut buf, self.issued_at_ms, 8);
        let mut flags: u8 = 0;
        if self.display_name.is_some() {
            flags = flags + 1;
        }
        if self.expires_at_ms.is_some() {
            flags = flags + 2;
        }
        if self.target_fact_id.is_some() {
            flags = flags + 4;
        }
        buf.push(flags);
        assert(buf@ =~= fact_head(self@));
        if let Some(name) = &self.display_name {
            let bytes = name.as_str().as_bytes();
            push_be(&mut buf, bytes.len() as u64, 2);
            push_bytes(&mut buf, bytes);
        }
        assert(buf@ =~= fact_head(self@) + name_bytes(self@.display_name));
        if let Some(e) = self.expires_at_ms {
            push_be(&mut buf, e, 8);
        }
        assert(buf@ =~= fact_head(self@) + name_bytes(self@.display_name) + expiry_bytes(
            self@.expires_at_ms,
        ));
        if let Some(t) = &self.target_fact_id {
            push_bytes(&mut buf, t);
        }
        assert(buf@ =~= fact_bytes(self@));
        Ok(buf)
    }

    /// Reads exactly one canonical fact.
    pub fn decode_strict(bytes: &[u8]) -> (r: Result<Fact, ProtocolError>)
        ensures
            match fact_of(bytes@) {
                Ok(f) => r is Ok && r->Ok_0@ == f,
                Err(e) => r is Err && r->Err_0@ == e,
            },
    {
        match parse_fact_prefix(bytes) {
            Err(e) => Err(e),
            Ok((fact, used)) => {
                if used != bytes.len() {
                    let n = decimal_text((bytes.len() - used) as u64);
                    return Err(
                        quarantine(cat(n.as_str(), " trailing byte(s) after canonical fact")),
                    );
                }
                Ok(fact)
            },
        }
    }
}

/// Message for a name of `n` bytes.
fn name_limit_message(n: usize) -> (r: String)
    ensures
        r@ == name_limit_text(n as nat),
{
    cat5(
        "display_name of ",
        decimal_text(n as u64).as_str(),
        " bytes exceeds the ",
        decimal_text(512).as_str(),
        " byte limit",
    )
}

fn truncated(what: &str) -> (r: ProtocolError)
    ensures
        r@ == fact_truncated(what@),
{
    quarantine(cat("truncated canonical fact: ", what))
}

/// The endpoint in the 32 bytes at `off`.
pub fn key_at(bytes: &[u8], off: usize) -> (r: Result<EndpointId, ProtocolError>)
    requires
        off + 32 <= bytes@.len(),
    ensures
        match r {
            Ok(id) => ed25519_key(bytes@.subrange(off as int, off + 32)) && id@ == bytes@.subrange(
                off as int,
                off + 32,
            ),
            Err(e) => !ed25519_key(bytes@.subrange(off as int, off + 32)) && e@ == bad_key(),
        },
{
    match EndpointId::from_bytes(&array_at::<32>(bytes, off)) {
        Some(id) => Ok(id),
        None => Err(quarantine("key field is not a valid Ed25519 public key".to_owned())),
    }
}

/// Reads the fact at the front of `bytes`; gives its length too.
pub fn parse_fact_prefix(bytes: &[u8]) -> (r: Result<(Fact, usize), ProtocolError>)
    ensures
        match fact_at(bytes@) {
            Ok((f, n)) => r is Ok && (r->Ok_0).0@ == f && (r->Ok_0).1 == n && n <= bytes@.len(),
            Err(e) => r is Err && r->Err_0@ == e,
        },
{
    let len: usize = bytes.len();
    if len < FACT_FIXED_LEN {
        return Err(truncated("shorter than the fixed 119-byte prefix"));
    }
    let domain = array_at::<13>(bytes, 0);
    if !bytes_eq(&domain, &FACT_DOMAIN) {
        return Err(
            quarantine(
                cat5(
                    "bad fact domain ",
                    byte_list_text(bytes).as_str(),
                    " (expected ",
                    byte_list_text(&FACT_DOMAIN).as_str(),
                    ")",
                ),
            ),
        );
    }
    let kind = match FactKind::from_u8(bytes[13]) {
        Some(k) => k,
        None => {
            return Err(
                quarantine(cat("unknown fact kind 0x", hex_byte_text(bytes[13]).as_str())),
            );
        },
    };
    let fabric_id = FabricId(array_at::<32>(bytes, 14));
    let issuer = match key_at(bytes, 46) {
        Ok(k) => k,
        Err(e) => return Err(e),
    };
    let subject = match key_at(bytes, 78) {
        Ok(k) => k,
        Err(e) => return Err(e),
    };
    let issued_at_ms: u64 = read_be64(bytes, 110);
    let flags: u8 = bytes[118];
    if flags > 7 {
        return Err(
            quarantine(cat("reserved flag bits set: 0x", hex_byte_text(flags).as_str())),
        );
    }
    let mut off: usize = FACT_FIXED_LEN;
    let mut display_name: Option<String> = None;
    if flags % 2 == 1 {
        if len - off < 2 {
            return Err(truncated("display_name length prefix"));
        }
        let n: usize = read_be16(bytes, off) as usize;
        off = off + 2;
        if n > MAX_NAME_BYTES {
            return Err(quarantine(name_limit_message(n)));
        }
        if len - off < n {
            return Err(truncated("display_name bytes"));
        }
        let name = match utf8_text(vstd::slice::slice_subrange(bytes, off, off + n)) {
            Some(t) => t,
            None => return Err(quarantine("display_name is not valid UTF-8".to_owned())),
        };
        off = off + n;
        display_name = Some(name);
    }
    assert(name_at(bytes@, 119, flags % 2 == 1) == Ok::<(Option<Seq<char>>, int), Fault>(
        (
            match display_name {
                Some(n) => Some(n@),
                None => None,
            },
            off as int,
        ),
    ));
    let mut expires_at_ms: Option<u64> = None;
    let ghost o1 = off as int;
    if (flags / 2) % 2 == 1 {
        if len - off < 8 {
            return Err(truncated("expires_at_ms"));
        }
        expires_at_ms = Some(read_be64(bytes, off));
        off = off + 8;
    }
    assert(expiry_at(bytes@, o1, (flags / 2) % 2 == 1) == Ok::<(Option<u64>, int), Fault>(
        (expires_at_ms, off as int),
    ));
    let mut target_fact_id: Option<FactId> = None;
    if flags / 4 == 1 {
        if len - off < 32 {
            return Err(truncated("target_fact_id"));
        }
        target_fact_id = Some(array_at::<32>(bytes, off));
        off = off + 32;
    }
    Ok(
        (
            Fact {
                kind,
                fabric_id,
                issuer,
                subject,
                display_name,
                issued_at_ms,
                expires_at_ms,
                target_fact_id,
            },
            off,
        ),
    )
}

/// Where the fields of a fact stand: behind the domain, the kind, the fabric, the issuer, the
/// subject, the time of issue and a byte that tells which of the name, the end and the
/// target follow.
pub proof fn facts_have_their_layout(f: FactView)
    requires
        f.fabric_id.len() == 32,
        f.issuer.len() == 32,
        f.subject.len() == 32,
    ensures
        ({
            let b = fact_bytes(f);
            &&& b.len() >= 119
            &&& b[13] == match f.kind {
                FactKind::Genesis => 1u8,
                FactKind::Grant => 2u8,
                FactKind::Join => 3u8,
                FactKind::Revoke => 4u8,
            }
            &&& b.subrange(14, 46) == f.fabric_id
            &&& b.subrange(46, 78) == f.issuer
            &&& b.subrange(78, 110) == f.subject
            &&& be_value(b.subrange(110, 118)) == f.issued_at_ms
            &&& b[118] % 2 == 1 <==> f.display_name is Some
            &&& (b[118] / 2) % 2 == 1 <==> f.expires_at_ms is Some
            &&& (b[118] / 4) % 2 == 1 <==> f.target_fact_id is Some
        }),
{
    let b = fact_bytes(f);
    lemma_be_widths(f.issued_at_ms);
    assert(FACT_DOMAIN@.len() == 13);
    assert(b.subrange(14, 46) =~= f.fabric_id);
    assert(b.subrange(46, 78) =~= f.issuer);
    assert(b.subrange(78, 110) =~= f.subject);
    assert(b.subrange(110, 118) =~= be64(f.issued_at_ms));
}

} // verus!
