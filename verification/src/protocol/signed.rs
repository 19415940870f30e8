//! Signed facts: one on the wire, lists of them, and their readable form.
//!
//! A signed fact is its length as `u32`, its canonical bytes and a signature of 64 bytes; a
//! list is its number as `u32` and the signed facts.
use vstd::prelude::*;
use vstd::string::*;

use crate::identity::{endpoint_id_display, endpoint_text, NodeIdentity, SecretKey, Signature};
use crate::octets::{
    array_at, be32, be_value, lemma_be_fields, lemma_be_widths, push_be, push_bytes, read_be32,
};
use crate::outside::{ed25519_accepts, ed25519_public, ed25519_signature, json_string};
use crate::protocol::fact::{
    fact_bytes, fact_canonical, fact_fields_ok, fact_id_of, fact_is_canonical, fact_of,
    fact_roundtrip, kind_text, name_len, FabricId, Fact, FactId, FactKind, FactView,
};
use crate::protocol::{quarantine, Fault, ProtocolError, MAX_NAME_BYTES};
use crate::text::{cat, cat3, cat5, decimal, decimal_text, hex_chars, hex_str, json_quoted};

verus! {

/// A fact and the signature of its issuer over its canonical bytes.
#[derive(Debug, Clone, PartialEq, Eq)]
pub struct SignedFact {
    pub fact: Fact,
    pub signature: Signature,
}

/// What a [`SignedFact`] holds.
#[verifier::ext_equal]
pub struct SignedView {
    pub fact: FactView,
    pub signature: Seq<u8>,
}

impl View for SignedFact {
    type V = SignedView;

    open spec fn view(&self) -> SignedView {
        SignedView { fact: self.fact@, signature: self.signature@ }
    }
}

/// The views of a list of signed facts.
pub open spec fn signed_views(s: Seq<SignedFact>) -> Seq<SignedView> {
    Seq::new(s.len(), |i: int| s[i]@)
}

/// Why the signature does not hold, if it does not.
pub open spec fn signature_fault(s: SignedView) -> Option<Fault> {
    match fact_canonical(s.fact) {
        Err(e) => Some(e),
        Ok(b) => if ed25519_accepts(s.fact.issuer, b, s.signature) {
            None
        } else {
            Some(Fault::Quarantine("fact signature verification failed"@))
        },
    }
}

/// A signed fact on the wire.
pub open spec fn signed_bytes(s: SignedView) -> Seq<u8> {
    be32(fact_bytes(s.fact).len() as u32) + fact_bytes(s.fact) + s.signature
}

/// A signed fact on the wire, or why it has no such form.
pub open spec fn signed_wire(s: SignedView) -> Result<Seq<u8>, Fault> {
    match fact_canonical(s.fact) {
        Err(e) => Err(e),
        Ok(_) => Ok(signed_bytes(s)),
    }
}

/// The signed fact that the whole of `b` is.
#[verifier::opaque]
pub open spec fn signed_of(b: Seq<u8>) -> Result<SignedView, Fault> {
    let n = be_value(b.subrange(0, 4)) as int;
    let end = 4 + n + 64;
    if b.len() < 68 {
        Err(
            Fault::Quarantine(
                "signed fact wire frame of "@ + decimal(b.len())
                    + " bytes shorter than the minimum "@ + decimal(68),
            ),
        )
    } else if end > usize::MAX {
        Err(Fault::Quarantine("signed fact length overflow"@))
    } else if b.len() != end {
        Err(
            Fault::Quarantine(
                "signed fact wire frame length mismatch: header says "@ + decimal(end as nat)
                    + ", got "@ + decimal(b.len()),
            ),
        )
    } else {
        match fact_of(b.subrange(4, 4 + n)) {
            Err(e) => Err(e),
            Ok(fact) => Ok(SignedView { fact, signature: b.subrange(4 + n, end) }),
        }
    }
}

/// Several signed facts, one after the other.
pub open spec fn frames_bytes(s: Seq<SignedView>) -> Seq<u8>
    decreases s.len(),
{
    if s.len() == 0 {
        Seq::empty()
    } else {
        frames_bytes(s.drop_last()) + signed_bytes(s.last())
    }
}

/// The first of the facts that has no canonical form.
pub open spec fn first_fault(s: Seq<SignedView>, i: int) -> Option<Fault>
    decreases s.len() - i,
{
    if i < 0 || i >= s.len() {
        None
    } else {
        match fact_canonical(s[i].fact) {
            Err(e) => Some(e),
            Ok(_) => first_fault(s, i + 1),
        }
    }
}

/// A list of signed facts on the wire; the count is its low 32 bits.
pub open spec fn list_bytes(s: Seq<SignedView>) -> Seq<u8> {
    be32((s.len() % 0x1_0000_0000) as u32) + frames_bytes(s)
}

/// The signed facts from place `i` of `n` on, at `off`, and where they end.
pub open spec fn facts_from(b: Seq<u8>, off: int, i: nat, n: nat) -> Result<
    (Seq<SignedView>, int),
    Fault,
>
    decreases n - i,
{
    if i >= n {
        Ok((Seq::empty(), off))
    } else if b.len() < off + 4 {
        Err(
            Fault::Quarantine(
                "fact list truncated at item "@ + decimal(i) + "'s length prefix"@,
            ),
        )
    } else {
        let end = off + 4 + be_value(b.subrange(off, off + 4)) + 64;
        if end > usize::MAX {
            Err(Fault::Quarantine("fact list length overflow"@))
        } else if b.len() < end {
            Err(Fault::Quarantine("fact list truncated inside item "@ + decimal(i)))
        } else {
            match signed_of(b.subrange(off, end)) {
                Err(e) => Err(e),
                Ok(x) => match facts_from(b, end, i + 1, n) {
                    Err(e) => Err(e),
                    Ok((rest, last)) => Ok((seq![x] + rest, last)),
                },
            }
        }
    }
}

/// The list of signed facts at the front of `b`, and where it ends.
pub open spec fn list_at(b: Seq<u8>) -> Result<(Seq<SignedView>, int), Fault> {
    if b.len() < 4 {
        Err(Fault::Quarantine("fact list shorter than the u32 count prefix"@))
    } else {
        facts_from(b, 4, 0, be_value(b.subrange(0, 4)))
    }
}

/// The list of signed facts that the whole of `b` is.
pub open spec fn list_of(b: Seq<u8>) -> Result<Seq<SignedView>, Fault> {
    match list_at(b) {
        Err(e) => Err(e),
        Ok((facts, n)) => if n != b.len() {
            Err(
                Fault::Quarantine(
                    decimal((b.len() - n) as nat) + " trailing byte(s) after fact list"@,
                ),
            )
        } else {
            Ok(facts)
        },
    }
}

/// A signed fact that can be written and read back.
pub open spec fn signed_ok(s: SignedView) -> bool {
    fact_fields_ok(s.fact) && name_len(s.fact) <= MAX_NAME_BYTES && s.signature.len() == 64
}

pub proof fn lemma_fact_bytes_len(f: FactView)
    requires
        fact_fields_ok(f),
        name_len(f) <= MAX_NAME_BYTES,
    ensures
        119 <= fact_bytes(f).len() <= 673,
{
    lemma_be_widths(f.issued_at_ms);
    match f.display_name {
        Some(t) => {
            lemma_be_widths(vstd::utf8::encode_utf8(t).len() as u64);
        },
        None => {},
    }
    match f.expires_at_ms {
        Some(e) => {
            lemma_be_widths(e);
        },
        None => {},
    }
    assert(crate::protocol::FACT_DOMAIN@.len() == 13);
}

/// A signed fact is read back as it was written.
pub proof fn signed_fact_roundtrip(s: SignedView)
    requires
        signed_ok(s),
    ensures
        signed_of(signed_bytes(s)) == Ok::<SignedView, Fault>(s),
        68 <= signed_bytes(s).len() <= 741,
{
    reveal(signed_of);
    let b = signed_bytes(s);
    let f = fact_bytes(s.fact);
    lemma_fact_bytes_len(s.fact);
    lemma_be_widths(f.len() as u64);
    assert(b.subrange(0, 4) =~= be32(f.len() as u32));
    assert(b.subrange(4, 4 + f.len() as int) =~= f);
    assert(b.subrange(4 + f.len() as int, b.len() as int) =~= s.signature);
    fact_roundtrip(s.fact, Seq::empty());
}

/// A signed fact that can be read is the one that wrote the bytes.
pub proof fn signed_fact_is_canonical(b: Seq<u8>)
    requires
        signed_of(b) is Ok,
    ensures
        signed_ok(signed_of(b)->Ok_0),
        signed_bytes(signed_of(b)->Ok_0) == b,
{
    reveal(signed_of);
    let s = signed_of(b)->Ok_0;
    let n = be_value(b.subrange(0, 4)) as int;
    fact_is_canonical(b.subrange(4, 4 + n));
    lemma_be_fields(b.subrange(0, 4));
    assert(b =~= b.subrange(0, 4) + b.subrange(4, 4 + n) + b.subrange(4 + n, b.len() as int));
}

proof fn lemma_frames_first(s: Seq<SignedView>)
    requires
        s.len() > 0,
    ensures
        frames_bytes(s) == signed_bytes(s[0]) + frames_bytes(s.drop_first()),
    decreases s.len(),
{
    if s.len() == 1 {
        assert(s.drop_last() =~= Seq::<SignedView>::empty());
        assert(s.drop_first() =~= Seq::<SignedView>::empty());
        assert(frames_bytes(s) =~= signed_bytes(s[0]) + frames_bytes(s.drop_first()));
    } else {
        let t = s.drop_last();
        lemma_frames_first(t);
        assert(t.drop_first() =~= s.drop_first().drop_last());
        assert(s.drop_first().last() == s.last());
        assert(frames_bytes(s) =~= signed_bytes(s[0]) + frames_bytes(s.drop_first()));
    }
}

/// A signed fact at `off` is read, and then the rest.
proof fn lemma_facts_step(b: Seq<u8>, off: int, x: SignedView, i: nat, n: nat)
    requires
        signed_ok(x),
        i < n,
        0 <= off,
        off + signed_bytes(x).len() <= b.len() <= usize::MAX,
        b.subrange(off, off + signed_bytes(x).len()) == signed_bytes(x),
    ensures
        facts_from(b, off, i, n) == match facts_from(b, off + signed_bytes(x).len(), i + 1, n) {
            Ok((rest, last)) => Ok::<(Seq<SignedView>, int), Fault>((seq![x] + rest, last)),
            Err(e) => Err(e),
        },
{
    let w = signed_bytes(x);
    let f = fact_bytes(x.fact);
    signed_fact_roundtrip(x);
    lemma_fact_bytes_len(x.fact);
    lemma_be_widths(f.len() as u64);
    assert(w.subrange(0, 4) =~= be32(f.len() as u32));
    assert(b.subrange(off, off + 4) =~= b.subrange(off, off + w.len()).subrange(0, 4));
    assert(w.len() == 4 + f.len() + 64);
}

proof fn lemma_facts_roundtrip(s: Seq<SignedView>, b: Seq<u8>, off: int, i: nat, n: nat)
    requires
        forall|k: int| 0 <= k < s.len() ==> signed_ok(#[trigger] s[k]),
        i + s.len() == n,
        0 <= off,
        off + frames_bytes(s).len() <= b.len() <= usize::MAX,
        b.subrange(off, off + frames_bytes(s).len()) == frames_bytes(s),
    ensures
        facts_from(b, off, i, n) == Ok::<(Seq<SignedView>, int), Fault>(
            (s, off + frames_bytes(s).len()),
        ),
    decreases s.len(),
{
    if s.len() == 0 {
        assert(s =~= Seq::<SignedView>::empty());
    } else {
        let x = s[0];
        let t = s.drop_first();
        lemma_frames_first(s);
        let w = signed_bytes(x);
        let all = frames_bytes(s);
        let end = off + w.len();
        assert(b.subrange(off, end) =~= b.subrange(off, off + all.len()).subrange(
            0,
            w.len() as int,
        ));
        assert(all.subrange(0, w.len() as int) =~= w);
        assert(b.subrange(end, end + frames_bytes(t).len()) =~= b.subrange(
            off,
            off + all.len(),
        ).subrange(w.len() as int, all.len() as int));
        assert(all.subrange(w.len() as int, all.len() as int) =~= frames_bytes(t));
        assert forall|k: int| 0 <= k < t.len() implies signed_ok(#[trigger] t[k]) by {
            assert(t[k] == s[k + 1]);
        }
        lemma_facts_step(b, off, x, i, n);
        lemma_facts_roundtrip(t, b, end, i + 1, n);
        assert(seq![x] + t =~= s);
    }
}

/// A list of signed facts is read back as it was written, and what follows it is left.
pub proof fn fact_list_roundtrip(s: Seq<SignedView>, rest: Seq<u8>)
    requires
        forall|k: int| 0 <= k < s.len() ==> signed_ok(#[trigger] s[k]),
        s.len() <= u32::MAX,
        list_bytes(s).len() + rest.len() <= usize::MAX,
    ensures
        list_at(list_bytes(s) + rest) == Ok::<(Seq<SignedView>, int), Fault>(
            (s, list_bytes(s).len() as int),
        ),
        rest.len() == 0 ==> list_of(list_bytes(s) + rest) == Ok::<Seq<SignedView>, Fault>(s),
{
    let b = list_bytes(s) + rest;
    let head = be32(s.len() as u32);
    lemma_be_widths(s.len() as u64);
    assert(b.subrange(0, 4) =~= head);
    assert(b.subrange(4, 4 + frames_bytes(s).len() as int) =~= frames_bytes(s));
    lemma_facts_roundtrip(s, b, 4, 0, s.len());
}

proof fn lemma_facts_canonical(b: Seq<u8>, off: int, i: nat, n: nat)
    requires
        0 <= off <= b.len(),
        i <= n,
        facts_from(b, off, i, n) is Ok,
    ensures
        ({
            let (s, last) = facts_from(b, off, i, n)->Ok_0;
            &&& off <= last <= b.len()
            &&& s.len() == n - i
            &&& b.subrange(off, last) == frames_bytes(s)
            &&& forall|k: int| 0 <= k < s.len() ==> signed_ok(#[trigger] s[k])
        }),
    decreases n - i,
{
    let (s, last) = facts_from(b, off, i, n)->Ok_0;
    if i >= n {
        assert(b.subrange(off, off) =~= Seq::<u8>::empty());
    } else {
        let end = off + 4 + be_value(b.subrange(off, off + 4)) + 64;
        let w = b.subrange(off, end);
        let x = signed_of(w)->Ok_0;
        signed_fact_is_canonical(w);
        lemma_facts_canonical(b, end, i + 1, n);
        let rest = (facts_from(b, end, i + 1, n)->Ok_0).0;
        assert(s == seq![x] + rest);
        assert(s.drop_first() =~= rest);
        lemma_frames_first(s);
        assert(b.subrange(off, last) =~= w + b.subrange(end, last));
    }
}

/// A list of signed facts that can be read is the one that wrote the bytes: nothing stands
/// before, between or behind the facts.
pub proof fn fact_list_is_canonical(b: Seq<u8>)
    requires
        list_of(b) is Ok,
    ensures
        (list_of(b)->Ok_0).len() <= u32::MAX,
        list_bytes(list_of(b)->Ok_0) == b,
        forall|k: int|
            0 <= k < (list_of(b)->Ok_0).len() ==> signed_ok(#[trigger] (list_of(b)->Ok_0)[k]),
{
    let s = list_of(b)->Ok_0;
    let n = be_value(b.subrange(0, 4));
    lemma_be_fields(b.subrange(0, 4));
    lemma_facts_canonical(b, 4, 0, n);
    assert(b =~= b.subrange(0, 4) + b.subrange(4, b.len() as int));
}

/// Bytes that end inside the facts that should follow are refused.
proof fn lemma_facts_cut(s: Seq<SignedView>, b: Seq<u8>, off: int, i: nat, n: nat)
    requires
        forall|k: int| 0 <= k < s.len() ==> signed_ok(#[trigger] s[k]),
        i + s.len() == n,
        0 <= off <= b.len() <= usize::MAX,
        b.len() < off + frames_bytes(s).len(),
        b.subrange(off, b.len() as int) == frames_bytes(s).subrange(0, b.len() - off),
    ensures
        facts_from(b, off, i, n) is Err,
    decreases s.len(),
{
    if s.len() > 0 {
        let x = s[0];
        let t = s.drop_first();
        lemma_frames_first(s);
        signed_fact_roundtrip(x);
        let w = signed_bytes(x);
        let all = frames_bytes(s);
        let here = b.subrange(off, b.len() as int);
        let end = off + w.len();
        if b.len() >= end {
            assert(b.subrange(off, end) =~= here.subrange(0, w.len() as int));
            assert(here.subrange(0, w.len() as int) =~= w);
            lemma_facts_step(b, off, x, i, n);
            assert forall|k: int| 0 <= k < t.len() implies signed_ok(#[trigger] t[k]) by {
                assert(t[k] == s[k + 1]);
            }
            assert(b.subrange(end, b.len() as int) =~= here.subrange(
                w.len() as int,
                b.len() - off,
            ));
            assert(frames_bytes(t).subrange(0, b.len() - end) =~= here.subrange(
                w.len() as int,
                b.len() - off,
            ));
            lemma_facts_cut(t, b, end, i + 1, n);
        } else if b.len() >= off + 4 {
            let f = fact_bytes(x.fact);
            lemma_fact_bytes_len(x.fact);
            lemma_be_widths(f.len() as u64);
            assert(b.subrange(off, off + 4) =~= here.subrange(0, 4));
            assert(here.subrange(0, 4) =~= be32(f.len() as u32));
            assert(w.len() == 4 + f.len() + 64);
        }
    }
}

/// A list of signed facts that is cut off anywhere before its end is refused.
pub proof fn truncated_fact_list_is_refused(s: Seq<SignedView>, k: int)
    requires
        forall|i: int| 0 <= i < s.len() ==> signed_ok(#[trigger] s[i]),
        s.len() <= u32::MAX,
        0 <= k < list_bytes(s).len(),
        k <= usize::MAX,
    ensures
        list_at(list_bytes(s).subrange(0, k)) is Err,
        list_of(list_bytes(s).subrange(0, k)) is Err,
{
    let b = list_bytes(s).subrange(0, k);
    let head = be32(s.len() as u32);
    lemma_be_widths(s.len() as u64);
    if k >= 4 {
        assert(b.subrange(0, 4) =~= head);
        assert(b.subrange(4, k) =~= frames_bytes(s).subrange(0, k - 4));
        lemma_facts_cut(s, b, 4, 0, s.len());
    }
}

impl SignedFact {
    /// Signs a fact.
    pub fn sign(fact: Fact, secret: &SecretKey) -> (r: Result<Self, ProtocolError>)
        ensures
            match fact_canonical(fact@) {
                Ok(b) => r is Ok && r->Ok_0@ == (SignedView {
                    fact: fact@,
                    signature: ed25519_signature(secret@, b),
                }),
                Err(e) => r is Err && r->Err_0@ == e,
            },
    {
        let bytes = match fact.canonical_bytes() {
            Ok(b) => b,
            Err(e) => return Err(e),
        };
        let signature = secret.sign(bytes.as_slice());
        Ok(SignedFact { fact, signature })
    }

    /// The content address of the fact.
    pub fn fact_id(&self) -> (r: FactId)
        ensures
            r@ == fact_id_of(self@.fact),
    {
        self.fact.fact_id()
    }

    /// Whether the signature is that of the issuer.
    pub fn verify(&self) -> (r: Result<(), ProtocolError>)
        ensures
            match signature_fault(self@) {
                None => r is Ok,
                Some(e) => r is Err && r->Err_0@ == e,
            },
    {
        let bytes = match self.fact.canonical_bytes() {
            Ok(b) => b,
            Err(e) => return Err(e),
        };
        if self.fact.issuer.verify(bytes.as_slice(), &self.signature) {
            Ok(())
        } else {
            Err(quarantine("fact signature verification failed".to_owned()))
        }
    }

    /// Whether both are the same fact with the same signature.
    pub fn same(&self, other: &SignedFact) -> (r: bool)
        ensures
            r == (self@ == other@),
    {
        let a = &self.fact;
        let b = &other.fact;
        let names = match (&a.display_name, &b.display_name) {
            (Some(x), Some(y)) => crate::text::text_eq(x.as_str(), y.as_str()),
            (None, None) => true,
            _ => false,
        };
        let expiries = match (a.expires_at_ms, b.expires_at_ms) {
            (Some(x), Some(y)) => x == y,
            (None, None) => true,
            _ => false,
        };
        let targets = match (&a.target_fact_id, &b.target_fact_id) {
            (Some(x), Some(y)) => crate::octets::bytes_eq(x, y),
            (None, None) => true,
            _ => false,
        };
        a.kind == b.kind && a.fabric_id.same(&b.fabric_id) && a.issuer.same(&b.issuer)
            && a.subject.same(&b.subject) && names && a.issued_at_ms == b.issued_at_ms && expiries
            && targets && self.signature.same(&other.signature)
    }

    /// A copy.
    pub fn copied(&self) -> (r: SignedFact)
        ensures
            r@ == self@,
    {
        SignedFact {
            fact: Fact {
                kind: self.fact.kind,
                fabric_id: self.fact.fabric_id,
                issuer: self.fact.issuer,
                subject: self.fact.subject,
                display_name: match &self.fact.display_name {
                    Some(n) => Some(n.clone()),
                    None => None,
                },
                issued_at_ms: self.fact.issued_at_ms,
                expires_at_ms: self.fact.expires_at_ms,
                target_fact_id: self.fact.target_fact_id,
            },
            signature: self.signature,
        }
    }

    /// The signed fact on the wire.
    pub fn encode(&self) -> (r: Result<Vec<u8>, ProtocolError>)
        ensures
            match signed_wire(self@) {
                Ok(b) => r is Ok && r->Ok_0@ == b && signed_ok(self@) && signed_of(b) == Ok::<
                    SignedView,
                    Fault,
                >(self@),
                Err(e) => r is Err && r->Err_0@ == e,
            },
    {
        let bytes = match self.fact.canonical_bytes() {
            Ok(b) => b,
            Err(e) => return Err(e),
        };
        proof {
            lemma_canonical_len(self.fact);
            use_type_invariant(&self.fact.issuer);
            use_type_invariant(&self.fact.subject);
            assert(signed_ok(self@));
            signed_fact_roundtrip(self@);
        }
        let mut out: Vec<u8> = Vec::new();
        push_be(&mut out, bytes.len() as u64, 4);
        push_bytes(&mut out, bytes.as_slice());
        push_bytes(&mut out, &self.signature.0);
        assert(out@ =~= signed_bytes(self@));
        Ok(out)
    }

    /// Reads exactly one signed fact.
    pub fn decode(bytes: &[u8]) -> (r: Result<Self, ProtocolError>)
        ensures
            match signed_of(bytes@) {
                Ok(s) => r is Ok && r->Ok_0@ == s,
                Err(e) => r is Err && r->Err_0@ == e,
            },
    {
        proof {
            reveal(signed_of);
        }
        let len: usize = bytes.len();
        if len < 68 {
            return Err(
                quarantine(
                    cat(
                        cat3(
                            "signed fact wire frame of ",
                            decimal_text(len as u64).as_str(),
                            " bytes shorter than the minimum ",
                        ).as_str(),
                        decimal_text(68).as_str(),
                    ),
                ),
            );
        }
        let n: u32 = read_be32(bytes, 0);
        let end: u64 = 4 + n as u64 + 64;
        if end > usize::MAX as u64 {
            return Err(quarantine("signed fact length overflow".to_owned()));
        }
        if len as u64 != end {
            return Err(
                quarantine(
                    cat(
                        cat3(
                            "signed fact wire frame length mismatch: header says ",
                            decimal_text(end).as_str(),
                            ", got ",
                        ).as_str(),
                        decimal_text(len as u64).as_str(),
                    ),
                ),
            );
        }
        let split: usize = 4 + n as usize;
        let fact = match Fact::decode_strict(vstd::slice::slice_subrange(bytes, 4, split)) {
            Ok(f) => f,
            Err(e) => return Err(e),
        };
        let signature = Signature(array_at::<64>(bytes, split));
        Ok(SignedFact { fact, signature })
    }

    /// A list of signed facts on the wire.
    pub fn encode_all(items: &[SignedFact]) -> (r: Result<Vec<u8>, ProtocolError>)
        ensures
            match first_fault(signed_views(items@), 0) {
                None => {
                    &&& r is Ok
                    &&& r->Ok_0@ == list_bytes(signed_views(items@))
                    &&& items@.len() <= u32::MAX ==> list_of(r->Ok_0@) == Ok::<
                        Seq<SignedView>,
                        Fault,
                    >(signed_views(items@))
                },
                Some(e) => r is Err && r->Err_0@ == e,
            },
    {
        let ghost v = signed_views(items@);
        let n: usize = items.len();
        let mut out: Vec<u8> = Vec::new();
        let count: u32 = (n as u64 % 0x1_0000_0000) as u32;
        push_be(&mut out, count as u64, 4);
        let ghost head = out@;
        assert(head =~= be32((v.len() % 0x1_0000_0000) as u32));
        let mut i: usize = 0;
        assert(v.subrange(0, 0) =~= Seq::<SignedView>::empty());
        assert(head + frames_bytes(v.subrange(0, 0)) =~= head);
        while i < n
            invariant
                i <= n,
                n == items@.len(),
                v == signed_views(items@),
                out@ == head + frames_bytes(v.subrange(0, i as int)),
                first_fault(v, 0) == first_fault(v, i as int),
                forall|k: int| 0 <= k < i ==> signed_ok(#[trigger] v[k]),
            decreases n - i,
        {
            let frame = match items[i].encode() {
                Ok(f) => f,
                Err(e) => return Err(e),
            };
            let ghost before = out@;
            push_bytes(&mut out, frame.as_slice());
            proof {
                let t = v.subrange(0, i + 1);
                assert(t.drop_last() =~= v.subrange(0, i as int));
                assert(t.last() == v[i as int]);
                assert(out@ =~= head + frames_bytes(t));
            }
            i = i + 1;
        }
        assert(v.subrange(0, n as int) =~= v);
        proof {
            if n <= u32::MAX {
                assert(out.len() <= usize::MAX);
                fact_list_roundtrip(v, Seq::empty());
                assert(list_bytes(v) + Seq::<u8>::empty() =~= list_bytes(v));
            }
        }
        Ok(out)
    }

    /// Reads exactly one list of signed facts.
    pub fn decode_all(bytes: &[u8]) -> (r: Result<Vec<SignedFact>, ProtocolError>)
        ensures
            match list_of(bytes@) {
                Ok(s) => r is Ok && signed_views(r->Ok_0@) == s,
                Err(e) => r is Err && r->Err_0@ == e,
            },
    {
        match Self::decode_all_prefix(bytes) {
            Err(e) => Err(e),
            Ok((facts, used)) => {
                if used != bytes.len() {
                    let n = decimal_text((bytes.len() - used) as u64);
                    return Err(
                        quarantine(cat(n.as_str(), " trailing byte(s) after fact list")),
                    );
                }
                Ok(facts)
            },
        }
    }

    /// Reads the list of signed facts at the front of `bytes`; gives its length too.
    pub fn decode_all_prefix(bytes: &[u8]) -> (r: Result<(Vec<SignedFact>, usize), ProtocolError>)
        ensures
            match list_at(bytes@) {
                Ok((s, n)) => r is Ok && signed_views((r->Ok_0).0@) == s && (r->Ok_0).1 == n && n
                    <= bytes@.len(),
                Err(e) => r is Err && r->Err_0@ == e,
            },
    {
        let len: usize = bytes.len();
        if len < 4 {
            return Err(quarantine("fact list shorter than the u32 count prefix".to_owned()));
        }
        let n: u32 = read_be32(bytes, 0);
        let mut out: Vec<SignedFact> = Vec::new();
        let mut off: usize = 4;
        let mut i: u32 = 0;
        assert(signed_views(out@) =~= Seq::<SignedView>::empty());
        proof {
            lemma_prefix_none(facts_from(bytes@, 4, 0, n as nat));
        }
        while i < n
            invariant
                i <= n,
                4 <= off <= len,
                len == bytes@.len(),
                list_at(bytes@) == prefixed(
                    signed_views(out@),
                    facts_from(bytes@, off as int, i as nat, n as nat),
                ),
            decreases n - i,
        {
            if len - off < 4 {
                return Err(
                    quarantine(
                        cat3(
                            "fact list truncated at item ",
                            decimal_text(i as u64).as_str(),
                            "'s length prefix",
                        ),
                    ),
                );
            }
            let frame_len: u32 = read_be32(bytes, off);
            let size: u64 = 4 + frame_len as u64 + 64;
            if size > (usize::MAX - off) as u64 {
                return Err(quarantine("fact list length overflow".to_owned()));
            }
            let end: usize = off + size as usize;
            if len < end {
                return Err(
                    quarantine(
                        cat("fact list truncated inside item ", decimal_text(i as u64).as_str()),
                    ),
                );
            }
            let item = match Self::decode(vstd::slice::slice_subrange(bytes, off, end)) {
                Ok(x) => x,
                Err(e) => return Err(e),
            };
            let ghost before = signed_views(out@);
            let ghost x = item@;
            out.push(item);
            proof {
                assert(signed_views(out@) =~= before.push(x));
                lemma_prefix_step(
                    before,
                    x,
                    facts_from(bytes@, end as int, (i + 1) as nat, n as nat),
                );
            }
            off = end;
            i = i + 1;
        }
        assert(signed_views(out@) + Seq::<SignedView>::empty() =~= signed_views(out@));
        Ok((out, off))
    }

    /// The signed fact as JSON, to be read by people.
    pub fn to_json_string(&self) -> (r: Result<String, ProtocolError>)
        ensures
            r is Ok,
            r->Ok_0@ == signed_json(self@),
    {
        let f = &self.fact;
        let name = match &f.display_name {
            Some(n) => json_string(n.as_str()),
            None => "null".to_owned(),
        };
        let expiry = match f.expires_at_ms {
            Some(e) => decimal_text(e),
            None => "null".to_owned(),
        };
        let target = match &f.target_fact_id {
            Some(t) => json_string(hex_str(t).as_str()),
            None => "null".to_owned(),
        };
        let mut s = cat5(
            "{\"display_name\":",
            name.as_str(),
            ",\"expires_at_ms\":",
            expiry.as_str(),
            ",\"fabric_id\":",
        );
        s.append(json_string(f.fabric_id.display().as_str()).as_str());
        s.append(",\"fact_id\":");
        s.append(json_string(hex_str(&self.fact_id()).as_str()).as_str());
        s.append(",\"issued_at_ms\":");
        s.append(decimal_text(f.issued_at_ms).as_str());
        s.append(",\"issuer\":");
        s.append(json_string(endpoint_id_display(&f.issuer).as_str()).as_str());
        s.append(",\"kind\":");
        s.append(json_string(f.kind.as_str()).as_str());
        s.append(",\"signature\":");
        s.append(json_string(hex_str(&self.signature.0).as_str()).as_str());
        s.append(",\"subject\":");
        s.append(json_string(endpoint_id_display(&f.subject).as_str()).as_str());
        s.append(",\"target_fact_id\":");
        s.append(target.as_str());
        s.append("}");
        Ok(s)
    }
}

/// The readable form of a signed fact, its members in alphabetical order.
pub open spec fn signed_json(s: SignedView) -> Seq<char> {
    let f = s.fact;
    "{\"display_name\":"@ + (match f.display_name {
        Some(n) => json_quoted(n),
        None => "null"@,
    }) + ",\"expires_at_ms\":"@ + (match f.expires_at_ms {
        Some(e) => decimal(e as nat),
        None => "null"@,
    }) + ",\"fabric_id\":"@ + json_quoted(hex_chars(f.fabric_id)) + ",\"fact_id\":"@ + json_quoted(
        hex_chars(fact_id_of(f)),
    ) + ",\"issued_at_ms\":"@ + decimal(f.issued_at_ms as nat) + ",\"issuer\":"@ + json_quoted(
        endpoint_text(f.issuer),
    ) + ",\"kind\":"@ + json_quoted(kind_text(f.kind)) + ",\"signature\":"@ + json_quoted(
        hex_chars(s.signature),
    ) + ",\"subject\":"@ + json_quoted(endpoint_text(f.subject)) + ",\"target_fact_id\":"@ + (
    match f.target_fact_id {
        Some(t) => json_quoted(hex_chars(t)),
        None => "null"@,
    }) + "}"@
}

/// The facts read before, in front of those that follow.
spec fn prefixed(done: Seq<SignedView>, r: Result<(Seq<SignedView>, int), Fault>) -> Result<
    (Seq<SignedView>, int),
    Fault,
> {
    match r {
        Ok((rest, n)) => Ok((done + rest, n)),
        Err(e) => Err(e),
    }
}

proof fn lemma_prefix_none(r: Result<(Seq<SignedView>, int), Fault>)
    ensures
        prefixed(Seq::empty(), r) == r,
{
    match r {
        Ok((rest, n)) => {
            assert(Seq::<SignedView>::empty() + rest =~= rest);
        },
        Err(_) => {},
    }
}

proof fn lemma_prefix_step(
    done: Seq<SignedView>,
    x: SignedView,
    r: Result<(Seq<SignedView>, int), Fault>,
)
    ensures
        prefixed(
            done,
            match r {
                Ok((rest, n)) => Ok((seq![x] + rest, n)),
                Err(e) => Err(e),
            },
        ) == prefixed(done.push(x), r),
{
    match r {
        Ok((rest, n)) => {
            assert(done + (seq![x] + rest) =~= done.push(x) + rest);
        },
        Err(_) => {},
    }
}

/// The canonical bytes of a fact are short.
proof fn lemma_canonical_len(f: Fact)
    requires
        name_len(f@) <= MAX_NAME_BYTES,
    ensures
        fact_bytes(f@).len() <= 673,
{
    lemma_be_widths(f@.issued_at_ms);
    match f@.display_name {
        Some(t) => {
            lemma_be_widths(vstd::utf8::encode_utf8(t).len() as u64);
        },
        None => {},
    }
    match f@.expires_at_ms {
        Some(e) => {
            lemma_be_widths(e);
        },
        None => {},
    }
    assert(crate::protocol::FACT_DOMAIN@.len() == 13);
}

/// The genesis fact of a fabric: its root says it of itself.
pub open spec fn genesis_fact(root: Seq<u8>, fabric_id: Seq<u8>, now_ms: u64) -> FactView {
    FactView {
        kind: FactKind::Genesis,
        fabric_id,
        issuer: root,
        subject: root,
        display_name: None,
        issued_at_ms: now_ms,
        expires_at_ms: None,
        target_fact_id: None,
    }
}

/// Makes and signs the genesis fact of a fabric, whose root is this identity.
pub fn genesis(identity: &NodeIdentity, fabric_id: FabricId, now_ms: u64) -> (r: Result<
    SignedFact,
    ProtocolError,
>)
    ensures
        r is Ok,
        r->Ok_0@ == ({
            let fact = genesis_fact(ed25519_public(identity@), fabric_id@, now_ms);
            SignedView { fact, signature: ed25519_signature(identity@, fact_bytes(fact)) }
        }),
{
    let root = identity.endpoint_id();
    let fact = Fact {
        kind: FactKind::Genesis,
        fabric_id,
        issuer: root,
        subject: root,
        display_name: None,
        issued_at_ms: now_ms,
        expires_at_ms: None,
        target_fact_id: None,
    };
    SignedFact::sign(fact, identity.secret_key())
}

} // verus!
