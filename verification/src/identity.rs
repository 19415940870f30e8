//! Identities: Ed25519 keys. The public key names an endpoint.
use vstd::prelude::*;

use crate::octets::{be_value, bytes_eq, bytes_less, lemma_be_value_injective};
use crate::outside::{
    ed25519_accepts, ed25519_key, ed25519_of_text, ed25519_of_z32, ed25519_public,
    ed25519_signature, key_check, key_from_text, key_from_z32, key_generate, key_public, key_sign,
    key_verify, key_z32,
};
use crate::radix::z32_of;

verus! {

/// The public key of an endpoint, which is its identity.
#[derive(Debug, Clone, Copy, PartialEq, Eq, PartialOrd, Ord, Hash)]
pub struct EndpointId(pub(crate) [u8; 32]);

impl View for EndpointId {
    type V = Seq<u8>;

    open(crate) spec fn view(&self) -> Seq<u8> {
        self.0@
    }
}

/// The display form of an endpoint: z-base-32.
pub open spec fn endpoint_text(id: Seq<u8>) -> Seq<char> {
    z32_of(id)
}

/// Endpoints are ordered by their bytes.
pub open spec fn endpoint_before(a: Seq<u8>, b: Seq<u8>) -> bool {
    be_value(a) < be_value(b)
}

impl EndpointId {
    /// The bytes are those of a key.
    #[verifier::type_invariant]
    pub(crate) open(crate) spec fn is_key(&self) -> bool {
        ed25519_key(self.0@)
    }

    /// The endpoint of a public key; nothing for bytes that are no key.
    pub fn from_bytes(bytes: &[u8; 32]) -> (r: Option<EndpointId>)
        ensures
            match r {
                Some(id) => ed25519_key(bytes@) && id@ == bytes@,
                None => !ed25519_key(bytes@),
            },
    {
        if key_check(bytes) {
            Some(EndpointId(*bytes))
        } else {
            None
        }
    }

    pub fn as_bytes(&self) -> (r: &[u8; 32])
        ensures
            r@ == self@,
            ed25519_key(self@),
    {
        proof {
            use_type_invariant(self);
        }
        &self.0
    }

    /// Whether both are the same endpoint.
    pub fn same(&self, other: &EndpointId) -> (r: bool)
        ensures
            r == (self@ == other@),
            r == (*self == *other),
    {
        let r = bytes_eq(&self.0, &other.0);
        proof {
            if r {
                assert forall|i: int| 0 <= i < 32 implies self.0[i] == other.0[i] by {
                    assert(self.0@[i] == other.0@[i]);
                }
                assert(self.0 =~= other.0);
            }
        }
        r
    }

    /// Whether this endpoint comes first.
    pub fn before(&self, other: &EndpointId) -> (r: bool)
        ensures
            r == endpoint_before(self@, other@),
    {
        bytes_less(&self.0, &other.0)
    }

    /// Whether a signature of a message was made with the key of this endpoint.
    pub fn verify(&self, message: &[u8], signature: &Signature) -> (r: bool)
        ensures
            r == ed25519_accepts(self@, message@, signature@),
    {
        key_verify(&self.0, message, &signature.0)
    }
}

/// The endpoint of a text: z-base-32, or else one of the other forms of a key.
pub open spec fn endpoint_of_text(text: Seq<char>) -> Result<Seq<u8>, Seq<char>> {
    match ed25519_of_z32(text) {
        Ok(k) => Ok(k),
        Err(_) => ed25519_of_text(text),
    }
}

/// Reads an endpoint in its display form, or in hexadecimal; else gives the reason.
pub fn endpoint_id_parse(text: &str) -> (r: Result<EndpointId, String>)
    ensures
        match endpoint_of_text(text@) {
            Ok(k) => r is Ok && r->Ok_0@ == k,
            Err(e) => r is Err && r->Err_0@ == e,
        },
{
    match key_from_z32(text) {
        Ok(k) => Ok(EndpointId(k)),
        Err(_) => match key_from_text(text) {
            Ok(k) => Ok(EndpointId(k)),
            Err(e) => Err(e),
        },
    }
}

/// The display form of an endpoint, which reads back as the endpoint.
pub fn endpoint_id_display(id: &EndpointId) -> (r: String)
    ensures
        r@ == endpoint_text(id@),
        endpoint_of_text(r@) == Ok::<Seq<u8>, Seq<char>>(id@),
{
    proof {
        use_type_invariant(id);
    }
    match key_z32(&id.0) {
        Some(s) => s,
        None => String::new(),
    }
}

/// The order of endpoints is total: two that differ are ordered one way.
pub proof fn endpoints_are_totally_ordered(a: Seq<u8>, b: Seq<u8>)
    requires
        a.len() == 32,
        b.len() == 32,
    ensures
        endpoint_before(a, b) || endpoint_before(b, a) || a == b,
        !(endpoint_before(a, b) && endpoint_before(b, a)),
{
    if be_value(a) == be_value(b) {
        lemma_be_value_injective(a, b);
    }
}

/// An Ed25519 signature.
#[derive(Debug, Clone, Copy, PartialEq, Eq)]
pub struct Signature(pub [u8; 64]);

impl View for Signature {
    type V = Seq<u8>;

    open spec fn view(&self) -> Seq<u8> {
        self.0@
    }
}

impl Signature {
    /// Length of a signature in bytes.
    pub const LENGTH: usize = 64;

    pub fn from_bytes(bytes: &[u8; 64]) -> (r: Self)
        ensures
            r@ == bytes@,
    {
        Signature(*bytes)
    }

    pub fn to_bytes(&self) -> (r: [u8; 64])
        ensures
            r@ == self@,
    {
        self.0
    }

    /// Whether both are the same signature.
    pub fn same(&self, other: &Signature) -> (r: bool)
        ensures
            r == (self@ == other@),
    {
        bytes_eq(&self.0, &other.0)
    }
}

/// The secret seed of a key.
#[derive(Clone, Copy)]
pub struct SecretKey {
    seed: [u8; 32],
}

impl View for SecretKey {
    type V = Seq<u8>;

    closed spec fn view(&self) -> Seq<u8> {
        self.seed@
    }
}

impl SecretKey {
    pub fn from_bytes(seed: &[u8; 32]) -> (r: Self)
        ensures
            r@ == seed@,
    {
        SecretKey { seed: *seed }
    }

    pub fn to_bytes(&self) -> (r: [u8; 32])
        ensures
            r@ == self@,
    {
        self.seed
    }

    /// A new random key.
    pub fn generate() -> (r: Self) {
        SecretKey { seed: key_generate() }
    }

    /// The endpoint of this key.
    pub fn public(&self) -> (r: EndpointId)
        ensures
            r@ == ed25519_public(self@),
            ed25519_key(r@),
    {
        EndpointId(key_public(&self.seed))
    }

    /// Signs a message.
    pub fn sign(&self, message: &[u8]) -> (r: Signature)
        ensures
            r@ == ed25519_signature(self@, message@),
    {
        Signature(key_sign(&self.seed, message))
    }
}

/// The identity of this node.
#[derive(Clone, Copy)]
pub struct NodeIdentity {
    secret: SecretKey,
}

impl View for NodeIdentity {
    type V = Seq<u8>;

    /// The secret seed.
    closed spec fn view(&self) -> Seq<u8> {
        self.secret@
    }
}

impl NodeIdentity {
    pub fn from_seed(seed: [u8; 32]) -> (r: Self)
        ensures
            r@ == seed@,
    {
        NodeIdentity { secret: SecretKey::from_bytes(&seed) }
    }

    /// A new random identity.
    pub fn generate() -> (r: Self) {
        NodeIdentity { secret: SecretKey::generate() }
    }

    pub fn endpoint_id(&self) -> (r: EndpointId)
        ensures
            r@ == ed25519_public(self@),
            ed25519_key(r@),
    {
        self.secret.public()
    }

    pub fn secret_key(&self) -> (r: &SecretKey)
        ensures
            r@ == self@,
    {
        &self.secret
    }
}

} // verus!
