//! Bytes as text by groups of bits, each group one character: URL-safe base64 and z-base-32,
//! both without padding characters.
use vstd::arithmetic::power2::pow2;
use vstd::prelude::*;
use vstd::string::*;

verus! {

/// The bit at place `i`, from the highest bit of the first byte on; zero behind the end.
pub open spec fn bit_at(s: Seq<u8>, i: int) -> int {
    if 0 <= i < 8 * s.len() {
        (s[i / 8] as int / pow2((7 - i % 8) as nat) as int) % 2
    } else {
        0
    }
}

/// The number that the `n` bits from place `from` on make up.
pub open spec fn group_value(s: Seq<u8>, from: int, n: nat) -> int
    decreases n,
{
    if n == 0 {
        0
    } else {
        2 * group_value(s, from, (n - 1) as nat) + bit_at(s, from + n - 1)
    }
}

/// The characters of URL-safe base64.
pub open spec fn is_base64url_char(c: char) -> bool {
    ('A' <= c <= 'Z') || ('a' <= c <= 'z') || ('0' <= c <= '9') || c == '-' || c == '_'
}

/// The character of URL-safe base64 for a number below 64.
pub open spec fn base64url_char(d: int) -> char {
    if d < 26 {
        ((65 + d) as u8) as char
    } else if d < 52 {
        ((71 + d) as u8) as char
    } else if d < 62 {
        ((d - 4) as u8) as char
    } else if d == 62 {
        '-'
    } else {
        '_'
    }
}

/// The URL-safe base64 text of a byte string, without padding.
pub open spec fn base64url_of(data: Seq<u8>) -> Seq<char> {
    Seq::new(
        ((data.len() * 4 + 2) / 3) as nat,
        |k: int| base64url_char(group_value(data, 6 * k, 6)),
    )
}

/// The z-base-32 text of a byte string.
pub open spec fn z32_of(data: Seq<u8>) -> Seq<char> {
    Seq::new(
        ((data.len() * 8 + 4) / 5) as nat,
        |k: int| "ybndrfg8ejkmcpqxot1uwisza345h769"@[group_value(data, 5 * k, 5)],
    )
}

proof fn lemma_bit_at(s: Seq<u8>, i: int)
    ensures
        0 <= bit_at(s, i) <= 1,
{
    if 0 <= i < 8 * s.len() {
        let p = pow2((7 - i % 8) as nat) as int;
        vstd::arithmetic::power2::lemma_pow2_pos((7 - i % 8) as nat);
        vstd::arithmetic::div_mod::lemma_div_pos_is_pos(s[i / 8] as int, p);
    }
}

/// A text of URL-safe base64 has four characters for each three bytes, and two or three for
/// a rest of one or two bytes, all of the alphabet.
pub proof fn base64url_keeps_to_its_alphabet(data: Seq<u8>)
    ensures
        base64url_of(data).len() == (data.len() * 4 + 2) / 3,
        forall|i: int|
            0 <= i < base64url_of(data).len() ==> is_base64url_char(
                #[trigger] base64url_of(data)[i],
            ),
{
    assert forall|i: int| 0 <= i < base64url_of(data).len() implies is_base64url_char(
        #[trigger] base64url_of(data)[i],
    ) by {
        let from = 6 * i;
        lemma_bit_at(data, from);
        lemma_bit_at(data, from + 1);
        lemma_bit_at(data, from + 2);
        lemma_bit_at(data, from + 3);
        lemma_bit_at(data, from + 4);
        lemma_bit_at(data, from + 5);
        reveal_with_fuel(group_value, 7);
        assert(0 <= group_value(data, from, 6) < 64);
    }
}

} // verus!
