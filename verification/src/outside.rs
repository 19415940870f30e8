//! What the library takes from outside on trust: each item names the outside function
//! and what is believed of it.
use vstd::prelude::*;
use vstd::utf8::*;

use crate::radix::{base64url_of, z32_of};
use crate::text::{ascii_bytes, ascii_chars, ascii_text, json_quoted};

verus! {

// ---- std --------------------------------------------------------------------------

/// `String::push` appends one character.
pub assume_specification[ String::push ](s: &mut String, c: char)
    ensures
        final(s)@ == old(s)@.push(c),
;

/// `std::str::from_utf8`: succeeds exactly on valid UTF-8 and gives its characters.
#[verifier::external_body]
pub(crate) fn utf8_text(bytes: &[u8]) -> (r: Option<String>)
    ensures
        match r {
            Some(s) => valid_utf8(bytes@) && s@ == decode_utf8(bytes@),
            None => !valid_utf8(bytes@),
        },
{
    match std::str::from_utf8(bytes) {
        Ok(s) => Some(s.to_owned()),
        Err(_) => None,
    }
}

/// The characters that `String::from_utf8_lossy` makes of a byte string.
pub uninterp spec fn utf8_lossy(bytes: Seq<u8>) -> Seq<char>;

/// `String::from_utf8_lossy`: a function of the bytes; valid UTF-8 gives its own
/// characters, and invalid sequences are replaced by U+FFFD. An ASCII byte is valid
/// wherever it stands, and U+FFFD is not ASCII: the ASCII characters are the ASCII bytes, in
/// order. How many characters stand for an invalid sequence is left to the name.
#[verifier::external_body]
pub(crate) fn utf8_lossy_text(bytes: &[u8]) -> (r: String)
    ensures
        r@ == utf8_lossy(bytes@),
        valid_utf8(bytes@) ==> r@ == decode_utf8(bytes@),
        ascii_chars(r@) == ascii_text(ascii_bytes(bytes@)),
{
    String::from_utf8_lossy(bytes).into_owned()
}

/// The text of bytes: valid UTF-8 gives its own characters, and what is not is replaced.
pub open spec fn lossy_chars(bytes: Seq<u8>) -> Seq<char> {
    if valid_utf8(bytes) {
        decode_utf8(bytes)
    } else {
        utf8_lossy(bytes)
    }
}

/// A text in quotes, with escapes.
pub uninterp spec fn str_debug(text: Seq<char>) -> Seq<char>;

/// `Debug` of `str`: depends on the text alone.
#[verifier::external_body]
pub(crate) fn str_debug_text(text: &str) -> (r: String)
    ensures
        r@ == str_debug(text@),
{
    format!("{:?}", text)
}

/// `std::time::SystemTime`: the milliseconds since the Unix epoch, or nothing where the
/// clock stands before it. Nothing is promised of a clock.
#[verifier::external_body]
pub(crate) fn unix_millis() -> (r: Option<u128>) {
    match std::time::SystemTime::now().duration_since(std::time::UNIX_EPOCH) {
        Ok(d) => Some(d.as_millis()),
        Err(_) => None,
    }
}

// ---- blake3 -----------------------------------------------------------------------

/// The BLAKE3 hash of a byte string.
pub uninterp spec fn blake3_of(data: Seq<u8>) -> Seq<u8>;

/// `blake3::hash`: 32 bytes that depend on the data alone.
#[verifier::external_body]
pub(crate) fn blake3_hash(data: &[u8]) -> (r: [u8; 32])
    ensures
        r@ == blake3_of(data@),
{
    *blake3::hash(data).as_bytes()
}

// ---- base64 -----------------------------------------------------------------------

/// The bytes of a URL-safe base64 text without padding, or the text of the error where it is
/// none.
pub uninterp spec fn base64url_bytes(text: Seq<char>) -> Result<Seq<u8>, Seq<char>>;

/// `encode` of the `URL_SAFE_NO_PAD` engine: a character of the alphabet for each six bits,
/// the last filled up with zero bits. The text decodes to the bytes.
#[verifier::external_body]
pub(crate) fn base64url_encode(data: &[u8]) -> (r: String)
    requires
        data@.len() <= 0x1000_0000,
    ensures
        r@ == base64url_of(data@),
        base64url_bytes(r@) is Ok && base64url_bytes(r@)->Ok_0 == data@,
{
    base64::Engine::encode(&base64::engine::general_purpose::URL_SAFE_NO_PAD, data)
}

/// `decode` of the `URL_SAFE_NO_PAD` engine: depends on the text alone, the text of its
/// error too.
#[verifier::external_body]
pub(crate) fn base64url_decode(text: &str) -> (r: Result<Vec<u8>, String>)
    ensures
        match r {
            Ok(b) => base64url_bytes(text@) is Ok && base64url_bytes(text@)->Ok_0 == b@,
            Err(e) => base64url_bytes(text@) is Err && base64url_bytes(text@)->Err_0 == e@,
        },
{
    match base64::Engine::decode(&base64::engine::general_purpose::URL_SAFE_NO_PAD, text) {
        Ok(b) => Ok(b),
        Err(e) => Err(e.to_string()),
    }
}

// ---- serde_json -------------------------------------------------------------------

/// `serde_json::Value::to_string` of a string value: the text in quotes, with quotes,
/// backslashes and control characters escaped.
#[verifier::external_body]
pub(crate) fn json_string(text: &str) -> (r: String)
    ensures
        r@ == json_quoted(text@),
{
    serde_json::Value::from(text).to_string()
}

/// The text at a place of a JSON document: nothing where the bytes are no JSON,
/// `Some(None)` where no string stands at the place.
pub uninterp spec fn json_text_of(bytes: Seq<u8>, at: Seq<char>) -> Option<Option<Seq<char>>>;

/// `serde_json::from_slice` into a `Value`, `Value::pointer` and `Value::as_str`: a
/// function of the bytes and the place.
#[verifier::external_body]
pub(crate) fn json_text(bytes: &[u8], at: &str) -> (r: Option<Option<String>>)
    ensures
        match r {
            None => json_text_of(bytes@, at@) is None,
            Some(None) => json_text_of(bytes@, at@) == Some(None::<Seq<char>>),
            Some(Some(t)) => json_text_of(bytes@, at@) == Some(Some(t@)),
        },
{
    match serde_json::from_slice::<serde_json::Value>(bytes) {
        Ok(v) => Some(v.pointer(at).and_then(|x| x.as_str()).map(|t| t.to_owned())),
        Err(_) => None,
    }
}

/// The natural number at a place of a JSON document: nothing where the bytes are no JSON,
/// `Some(None)` where no natural number of 64 bits stands at the place.
pub uninterp spec fn json_number_of(bytes: Seq<u8>, at: Seq<char>) -> Option<Option<u64>>;

/// `serde_json::from_slice` into a `Value`, `Value::pointer` and `Value::as_u64`: a
/// function of the bytes and the place.
#[verifier::external_body]
pub(crate) fn json_number(bytes: &[u8], at: &str) -> (r: Option<Option<u64>>)
    ensures
        r == json_number_of(bytes@, at@),
{
    match serde_json::from_slice::<serde_json::Value>(bytes) {
        Ok(v) => Some(v.pointer(at).and_then(|x| x.as_u64())),
        Err(_) => None,
    }
}

/// The length of the list at a place of a JSON document: nothing where the bytes are no
/// JSON, `Some(None)` where no list stands at the place.
pub uninterp spec fn json_len_of(bytes: Seq<u8>, at: Seq<char>) -> Option<Option<usize>>;

/// `serde_json::from_slice` into a `Value`, `Value::pointer` and the length of
/// `Value::as_array`: a function of the bytes and the place.
#[verifier::external_body]
pub(crate) fn json_len(bytes: &[u8], at: &str) -> (r: Option<Option<usize>>)
    ensures
        r == json_len_of(bytes@, at@),
{
    match serde_json::from_slice::<serde_json::Value>(bytes) {
        Ok(v) => Some(v.pointer(at).and_then(|x| x.as_array()).map(|l| l.len())),
        Err(_) => None,
    }
}

// ---- iroh-base: Ed25519 keys ------------------------------------------------------

/// The bytes are those of an Ed25519 public key.
pub uninterp spec fn ed25519_key(bytes: Seq<u8>) -> bool;

/// The public key of a secret seed.
pub uninterp spec fn ed25519_public(seed: Seq<u8>) -> Seq<u8>;

/// The signature of a message with a secret seed.
pub uninterp spec fn ed25519_signature(seed: Seq<u8>, message: Seq<u8>) -> Seq<u8>;

/// A signature of a message is accepted for a public key.
pub uninterp spec fn ed25519_accepts(key: Seq<u8>, message: Seq<u8>, signature: Seq<u8>) -> bool;

/// `iroh_base::PublicKey::from_bytes`: whether the bytes are a public key depends on the
/// bytes alone.
#[verifier::external_body]
pub(crate) fn key_check(bytes: &[u8; 32]) -> (r: bool)
    ensures
        r == ed25519_key(bytes@),
{
    iroh_base::PublicKey::from_bytes(bytes).is_ok()
}

/// `iroh_base::SecretKey::public`: depends on the seed alone and is a public key.
#[verifier::external_body]
pub(crate) fn key_public(seed: &[u8; 32]) -> (r: [u8; 32])
    ensures
        r@ == ed25519_public(seed@),
        ed25519_key(r@),
{
    *iroh_base::SecretKey::from_bytes(seed).public().as_bytes()
}

/// `iroh_base::SecretKey::sign`: depends on the seed and the message alone. That the
/// signature is accepted for the public key of the seed is not claimed: the check also
/// refuses keys and signatures of small order.
#[verifier::external_body]
pub(crate) fn key_sign(seed: &[u8; 32], message: &[u8]) -> (r: [u8; 64])
    ensures
        r@ == ed25519_signature(seed@, message@),
{
    iroh_base::SecretKey::from_bytes(seed).sign(message).to_bytes()
}

/// `iroh_base::PublicKey::verify`: depends on key, message and signature alone; bytes that
/// are no key accept nothing.
#[verifier::external_body]
pub(crate) fn key_verify(key: &[u8; 32], message: &[u8], signature: &[u8; 64]) -> (r: bool)
    ensures
        r == ed25519_accepts(key@, message@, signature@),
        r ==> ed25519_key(key@),
{
    match iroh_base::PublicKey::from_bytes(key) {
        Ok(k) => k.verify(message, &iroh_base::Signature::from_bytes(signature)).is_ok(),
        Err(_) => false,
    }
}

/// The public key of a z-base-32 text, or the text of the error where it is none.
pub uninterp spec fn ed25519_of_z32(text: Seq<char>) -> Result<Seq<u8>, Seq<char>>;

/// `iroh_base::PublicKey::from_z32`: depends on the text alone, the text of its error too;
/// what it gives are the 32 bytes of a key.
#[verifier::external_body]
pub(crate) fn key_from_z32(text: &str) -> (r: Result<[u8; 32], String>)
    ensures
        match r {
            Ok(k) => ed25519_of_z32(text@) is Ok && ed25519_of_z32(text@)->Ok_0 == k@
                && ed25519_key(k@),
            Err(e) => ed25519_of_z32(text@) is Err && ed25519_of_z32(text@)->Err_0 == e@,
        },
{
    match iroh_base::PublicKey::from_z32(text) {
        Ok(k) => Ok(*k.as_bytes()),
        Err(e) => Err(e.to_string()),
    }
}

/// The public key of a hexadecimal or base32 text, or the text of the error where it is none.
pub uninterp spec fn ed25519_of_text(text: Seq<char>) -> Result<Seq<u8>, Seq<char>>;

/// `FromStr` of `iroh_base::PublicKey`: depends on the text alone, the text of its error
/// too; what it gives are the 32 bytes of a key.
#[verifier::external_body]
pub(crate) fn key_from_text(text: &str) -> (r: Result<[u8; 32], String>)
    ensures
        match r {
            Ok(k) => ed25519_of_text(text@) is Ok && ed25519_of_text(text@)->Ok_0 == k@
                && ed25519_key(k@),
            Err(e) => ed25519_of_text(text@) is Err && ed25519_of_text(text@)->Err_0 == e@,
        },
{
    match text.parse::<iroh_base::PublicKey>() {
        Ok(k) => Ok(*k.as_bytes()),
        Err(e) => Err(e.to_string()),
    }
}

/// `iroh_base::PublicKey::to_z32`: a character of z-base-32 for each five bits of a key, the
/// last filled up with zero bits; nothing for bytes that are no key. The text reads back as
/// the key.
#[verifier::external_body]
pub(crate) fn key_z32(key: &[u8; 32]) -> (r: Option<String>)
    ensures
        match r {
            Some(s) => ed25519_key(key@) && s@ == z32_of(key@) && ed25519_of_z32(s@) is Ok
                && ed25519_of_z32(s@)->Ok_0 == key@,
            None => !ed25519_key(key@),
        },
{
    match iroh_base::PublicKey::from_bytes(key) {
        Ok(k) => Some(k.to_z32()),
        Err(_) => None,
    }
}

/// The relay URL that a text is, in its normal form.
pub uninterp spec fn relay_url_of(text: Seq<char>) -> Option<Seq<char>>;

/// `FromStr` and `Display` of `iroh_base::RelayUrl`: whether a text is a relay URL, and its
/// normal form, depend on the text alone.
#[verifier::external_body]
pub(crate) fn relay_url(text: &str) -> (r: Option<String>)
    ensures
        match r {
            Some(u) => relay_url_of(text@) == Some(u@),
            None => relay_url_of(text@) is None,
        },
{
    match text.parse::<iroh_base::RelayUrl>() {
        Ok(u) => Some(u.to_string()),
        Err(_) => None,
    }
}

/// `iroh_base::SecretKey::generate`: 32 random bytes. Nothing is promised of chance.
#[verifier::external_body]
pub(crate) fn key_generate() -> (r: [u8; 32]) {
    iroh_base::SecretKey::generate().to_bytes()
}

} // verus!
