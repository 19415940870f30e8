//! Text of numbers and byte strings, as error messages and displays show them.
use vstd::prelude::*;
use vstd::std_specs::iter::IteratorSpec;
use vstd::string::*;

verus! {

/// The digit of value `d` (`d < 16`), in lower case.
pub open spec fn digit_char(d: int) -> char {
    if d == 0 {
        '0'
    } else if d == 1 {
        '1'
    } else if d == 2 {
        '2'
    } else if d == 3 {
        '3'
    } else if d == 4 {
        '4'
    } else if d == 5 {
        '5'
    } else if d == 6 {
        '6'
    } else if d == 7 {
        '7'
    } else if d == 8 {
        '8'
    } else if d == 9 {
        '9'
    } else if d == 10 {
        'a'
    } else if d == 11 {
        'b'
    } else if d == 12 {
        'c'
    } else if d == 13 {
        'd'
    } else if d == 14 {
        'e'
    } else {
        'f'
    }
}

/// `n` in decimal digits, without leading zeros.
pub open spec fn decimal(n: nat) -> Seq<char>
    decreases n,
{
    if n < 10 {
        seq![digit_char(n as int)]
    } else {
        decimal(n / 10).push(digit_char((n % 10) as int))
    }
}

/// Two hexadecimal digits for one byte.
pub open spec fn hex_byte(b: u8) -> Seq<char> {
    seq![digit_char(b as int / 16), digit_char(b as int % 16)]
}

/// Two hexadecimal digits for each byte of `s`, in order.
pub open spec fn hex_chars(s: Seq<u8>) -> Seq<char>
    decreases s.len(),
{
    if s.len() == 0 {
        Seq::empty()
    } else {
        hex_chars(s.drop_last()) + hex_byte(s.last())
    }
}

/// ASCII bytes as characters.
pub open spec fn ascii_text(s: Seq<u8>) -> Seq<char> {
    Seq::new(s.len(), |i: int| s[i] as char)
}

/// The ASCII bytes of `s`, in order.
pub open spec fn ascii_bytes(s: Seq<u8>) -> Seq<u8> {
    s.filter(|b: u8| b < 128)
}

/// The ASCII characters of a text, in order.
pub open spec fn ascii_chars(s: Seq<char>) -> Seq<char> {
    s.filter(|c: char| (c as u32) < 128)
}

/// A character as it stands in a JSON string.
pub open spec fn json_char(c: char) -> Seq<char> {
    if c == '"' {
        "\\\""@
    } else if c == '\\' {
        "\\\\"@
    } else if c == '\u{8}' {
        "\\b"@
    } else if c == '\u{9}' {
        "\\t"@
    } else if c == '\u{a}' {
        "\\n"@
    } else if c == '\u{c}' {
        "\\f"@
    } else if c == '\u{d}' {
        "\\r"@
    } else if (c as u32) < 32 {
        "\\u00"@ + hex_byte((c as u32) as u8)
    } else {
        seq![c]
    }
}

/// The characters of a text as they stand in a JSON string.
pub open spec fn json_chars(s: Seq<char>) -> Seq<char>
    decreases s.len(),
{
    if s.len() == 0 {
        Seq::empty()
    } else {
        json_chars(s.drop_last()) + json_char(s.last())
    }
}

/// A text as a JSON string, in quotes and escaped.
pub open spec fn json_quoted(text: Seq<char>) -> Seq<char> {
    "\""@ + json_chars(text) + "\""@
}

/// `n` in hexadecimal digits, without leading zeros.
pub open spec fn hex_number(n: nat) -> Seq<char>
    decreases n,
{
    if n < 16 {
        seq![digit_char(n as int)]
    } else {
        hex_number(n / 16).push(digit_char((n % 16) as int))
    }
}

/// The items of a byte list in decimal, each but the first behind `", "`.
pub open spec fn byte_items(s: Seq<u8>) -> Seq<char>
    decreases s.len(),
{
    if s.len() == 0 {
        Seq::empty()
    } else if s.len() == 1 {
        decimal(s[0] as nat)
    } else {
        byte_items(s.drop_last()) + ", "@ + decimal(s.last() as nat)
    }
}

/// A byte list in square brackets.
pub open spec fn byte_list(s: Seq<u8>) -> Seq<char> {
    "["@ + byte_items(s) + "]"@
}

/// One digit as a string.
fn digit_str(d: u8) -> (r: &'static str)
    requires
        d < 16,
    ensures
        r@ == seq![digit_char(d as int)],
{
    let r = match d {
        0 => "0",
        1 => "1",
        2 => "2",
        3 => "3",
        4 => "4",
        5 => "5",
        6 => "6",
        7 => "7",
        8 => "8",
        9 => "9",
        10 => "a",
        11 => "b",
        12 => "c",
        13 => "d",
        14 => "e",
        _ => "f",
    };
    proof {
        reveal_strlit("0");
        reveal_strlit("1");
        reveal_strlit("2");
        reveal_strlit("3");
        reveal_strlit("4");
        reveal_strlit("5");
        reveal_strlit("6");
        reveal_strlit("7");
        reveal_strlit("8");
        reveal_strlit("9");
        reveal_strlit("a");
        reveal_strlit("b");
        reveal_strlit("c");
        reveal_strlit("d");
        reveal_strlit("e");
        reveal_strlit("f");
    }
    assert(r@ =~= seq![digit_char(d as int)]);
    r
}

/// Two strings joined.
pub fn cat(a: &str, b: &str) -> (r: String)
    ensures
        r@ == a@ + b@,
{
    let mut s = a.to_owned();
    s.append(b);
    s
}

/// Three strings joined.
pub fn cat3(a: &str, b: &str, c: &str) -> (r: String)
    ensures
        r@ == a@ + b@ + c@,
{
    let mut s = cat(a, b);
    s.append(c);
    s
}

/// Five strings joined.
pub fn cat5(a: &str, b: &str, c: &str, d: &str, e: &str) -> (r: String)
    ensures
        r@ == a@ + b@ + c@ + d@ + e@,
{
    let mut s = cat3(a, b, c);
    s.append(d);
    s.append(e);
    s
}

/// A number in decimal.
pub fn decimal_text(n: u64) -> (r: String)
    ensures
        r@ == decimal(n as nat),
    decreases n,
{
    if n < 10 {
        digit_str(n as u8).to_owned()
    } else {
        let mut s = decimal_text(n / 10);
        s.append(digit_str((n % 10) as u8));
        assert(s@ =~= decimal(n as nat));
        s
    }
}

/// A number in hexadecimal, without leading zeros.
pub fn hex_number_text(n: u64) -> (r: String)
    ensures
        r@ == hex_number(n as nat),
    decreases n,
{
    if n < 16 {
        digit_str(n as u8).to_owned()
    } else {
        let mut s = hex_number_text(n / 16);
        s.append(digit_str((n % 16) as u8));
        assert(s@ =~= hex_number(n as nat));
        s
    }
}

/// Two hexadecimal digits for one byte.
pub fn hex_byte_text(b: u8) -> (r: String)
    ensures
        r@ == hex_byte(b),
{
    let r = cat(digit_str(b / 16), digit_str(b % 16));
    assert(r@ =~= hex_byte(b));
    r
}

/// Two hexadecimal digits for each byte, in order.
pub fn hex_str(bytes: &[u8]) -> (r: String)
    ensures
        r@ == hex_chars(bytes@),
{
    let n: usize = bytes.len();
    let mut out = String::new();
    let mut i: usize = 0;
    assert(bytes@.subrange(0, 0) =~= Seq::<u8>::empty());
    while i < n
        invariant
            i <= n,
            n == bytes@.len(),
            out@ == hex_chars(bytes@.subrange(0, i as int)),
        decreases n - i,
    {
        let h = hex_byte_text(bytes[i]);
        out.append(h.as_str());
        assert(bytes@.subrange(0, i + 1).drop_last() =~= bytes@.subrange(0, i as int));
        i = i + 1;
    }
    assert(bytes@.subrange(0, n as int) =~= bytes@);
    out
}

/// A byte list in square brackets, items in decimal.
pub fn byte_list_text(bytes: &[u8]) -> (r: String)
    ensures
        r@ == byte_list(bytes@),
{
    let n: usize = bytes.len();
    let mut out = String::new();
    let mut i: usize = 0;
    assert(bytes@.subrange(0, 0) =~= Seq::<u8>::empty());
    while i < n
        invariant
            i <= n,
            n == bytes@.len(),
            out@ == byte_items(bytes@.subrange(0, i as int)),
        decreases n - i,
    {
        let d = decimal_text(bytes[i] as u64);
        if i > 0 {
            out.append(", ");
        }
        out.append(d.as_str());
        proof {
            let t = bytes@.subrange(0, i + 1);
            assert(t.drop_last() =~= bytes@.subrange(0, i as int));
            assert(t.last() == bytes@[i as int]);
            if i == 0 {
                assert(out@ =~= byte_items(t));
            }
        }
        i = i + 1;
    }
    assert(bytes@.subrange(0, n as int) =~= bytes@);
    cat3("[", out.as_str(), "]")
}

/// The digits show each byte: strings of one length differ where the bytes do.
pub proof fn hex_shows_every_byte(a: Seq<u8>, b: Seq<u8>)
    requires
        hex_chars(a) == hex_chars(b),
    ensures
        a == b,
    decreases a.len(),
{
    lemma_hex_chars_len(a);
    lemma_hex_chars_len(b);
    if a.len() > 0 {
        let ha = hex_chars(a);
        let n = ha.len() as int;
        assert(hex_chars(a.drop_last()) =~= ha.subrange(0, n - 2));
        assert(hex_chars(b.drop_last()) =~= ha.subrange(0, n - 2));
        assert(ha[n - 2] == hex_byte(a.last())[0] && ha[n - 1] == hex_byte(a.last())[1]);
        assert(ha[n - 2] == hex_byte(b.last())[0] && ha[n - 1] == hex_byte(b.last())[1]);
        lemma_digit_char_injective(a.last() as int / 16, b.last() as int / 16);
        lemma_digit_char_injective(a.last() as int % 16, b.last() as int % 16);
        hex_shows_every_byte(a.drop_last(), b.drop_last());
        assert(a =~= a.drop_last().push(a.last()));
        assert(b =~= b.drop_last().push(b.last()));
    } else {
        assert(a =~= b);
    }
}

pub proof fn lemma_hex_chars_len(s: Seq<u8>)
    ensures
        hex_chars(s).len() == 2 * s.len(),
    decreases s.len(),
{
    if s.len() > 0 {
        lemma_hex_chars_len(s.drop_last());
    }
}

proof fn lemma_digit_char_injective(d: int, e: int)
    requires
        0 <= d < 16,
        0 <= e < 16,
        digit_char(d) == digit_char(e),
    ensures
        d == e,
{
}

// ---- characters -------------------------------------------------------------------

/// The characters of a string as a list.
pub fn chars_of(s: &str) -> (r: Vec<char>)
    ensures
        r@ == s@,
{
    let mut out: Vec<char> = Vec::new();
    let mut it = s.chars();
    let ghost all = s@;
    assert(Seq::<char>::empty() + it.remaining() =~= all);
    loop
        invariant
            it.obeys_prophetic_iter_laws(),
            it.decrease() is Some,
            out@ + it.remaining() == all,
        ensures
            out@ == all,
        decreases it.decrease()->0,
    {
        let ghost rest = it.remaining();
        match it.next() {
            Some(c) => {
                let ghost before = out@;
                out.push(c);
                assert(before + rest =~= out@ + it.remaining());
            },
            None => {
                assert(out@ + rest =~= out@);
                break;
            },
        }
    }
    out
}

/// The characters `from..to` as a string.
pub fn text_range(v: &Vec<char>, from: usize, to: usize) -> (r: String)
    requires
        from <= to <= v@.len(),
    ensures
        r@ == v@.subrange(from as int, to as int),
{
    let mut out = String::new();
    let mut i: usize = from;
    assert(v@.subrange(from as int, from as int) =~= Seq::<char>::empty());
    while i < to
        invariant
            from <= i <= to <= v@.len(),
            out@ == v@.subrange(from as int, i as int),
        decreases to - i,
    {
        out.push(v[i]);
        assert(v@.subrange(from as int, i as int).push(v@[i as int]) =~= v@.subrange(
            from as int,
            i + 1,
        ));
        i = i + 1;
    }
    out
}

/// The characters that Unicode counts as white space.
pub open spec fn is_white(c: char) -> bool {
    let n = c as u32;
    9 <= n <= 13 || n == 0x20 || n == 0x85 || n == 0xA0 || n == 0x1680 || 0x2000 <= n <= 0x200A
        || n == 0x2028 || n == 0x2029 || n == 0x202F || n == 0x205F || n == 0x3000
}

/// `s` without the white space at its front.
pub open spec fn skip_white(s: Seq<char>) -> Seq<char>
    decreases s.len(),
{
    if s.len() > 0 && is_white(s[0]) {
        skip_white(s.drop_first())
    } else {
        s
    }
}

/// `needle` stands at `i` in `s`.
pub open spec fn occurs_at(s: Seq<char>, needle: Seq<char>, i: int) -> bool {
    0 <= i && i + needle.len() <= s.len() && s.subrange(i, i + needle.len()) == needle
}

/// The first place of `needle` from `from` on.
pub open spec fn first_from(s: Seq<char>, needle: Seq<char>, from: int) -> Option<int>
    decreases s.len() + 1 - from,
{
    if from < 0 || from + needle.len() > s.len() {
        None
    } else if occurs_at(s, needle, from) {
        Some(from)
    } else {
        first_from(s, needle, from + 1)
    }
}

/// Index of the first character at or behind `from` that is not white space.
pub fn skip_white_from(v: &Vec<char>, from: usize) -> (r: usize)
    requires
        from <= v@.len(),
    ensures
        from <= r <= v@.len(),
        v@.subrange(r as int, v@.len() as int) == skip_white(
            v@.subrange(from as int, v@.len() as int),
        ),
{
    let n: usize = v.len();
    let mut i: usize = from;
    loop
        invariant
            from <= i <= n,
            n == v@.len(),
            skip_white(v@.subrange(from as int, n as int)) == skip_white(
                v@.subrange(i as int, n as int),
            ),
        ensures
            v@.subrange(i as int, n as int) == skip_white(v@.subrange(i as int, n as int)),
        decreases n - i,
    {
        let ghost t = v@.subrange(i as int, n as int);
        if i == n {
            break;
        }
        assert(t[0] == v@[i as int]);
        let c: u32 = v[i] as u32;
        let white = (9 <= c && c <= 13) || c == 0x20 || c == 0x85 || c == 0xA0 || c == 0x1680 || (
        0x2000 <= c && c <= 0x200A) || c == 0x2028 || c == 0x2029 || c == 0x202F || c == 0x205F || c
            == 0x3000;
        if !white {
            break;
        }
        assert(t.drop_first() =~= v@.subrange(i + 1, n as int));
        i = i + 1;
    }
    i
}

/// The first place of `needle` at or behind `from`.
pub fn find_from(v: &Vec<char>, needle: &Vec<char>, from: usize) -> (r: Option<usize>)
    requires
        from <= v@.len(),
    ensures
        match r {
            Some(i) => first_from(v@, needle@, from as int) == Some(i as int) && occurs_at(
                v@,
                needle@,
                i as int,
            ) && from <= i,
            None => first_from(v@, needle@, from as int) is None,
        },
{
    let n: usize = v.len();
    let m: usize = needle.len();
    let mut i: usize = from;
    while i <= n && m <= n - i
        invariant
            from <= i <= n + 1,
            n == v@.len(),
            m == needle@.len(),
            first_from(v@, needle@, from as int) == first_from(v@, needle@, i as int),
        decreases n + 1 - i,
    {
        let mut k: usize = 0;
        let mut same = true;
        while k < m && same
            invariant
                i <= n,
                m <= n - i,
                k <= m,
                n == v@.len(),
                m == needle@.len(),
                same ==> forall|j: int| 0 <= j < k ==> v@[i + j] == needle@[j],
                !same ==> !occurs_at(v@, needle@, i as int),
            decreases m - k,
        {
            if v[i + k] != needle[k] {
                same = false;
                proof {
                    if occurs_at(v@, needle@, i as int) {
                        assert(v@.subrange(i as int, i + m)[k as int] == needle@[k as int]);
                    }
                }
            }
            k = k + 1;
        }
        if same {
            assert(v@.subrange(i as int, i + m) =~= needle@);
            return Some(i);
        }
        if i == n {
            assert(first_from(v@, needle@, i + 1) is None);
            return None;
        }
        i = i + 1;
    }
    None
}

/// Whether two strings are equal.
pub fn text_eq(a: &str, b: &str) -> (r: bool)
    ensures
        r == (a@ == b@),
{
    let x = a.to_owned();
    let y = b.to_owned();
    x == y
}

/// Whether `s` begins with `prefix`.
pub fn text_starts_with(s: &str, prefix: &str) -> (r: bool)
    ensures
        r == prefix@.is_prefix_of(s@),
{
    let v = chars_of(s);
    let p = chars_of(prefix);
    let m: usize = p.len();
    if v.len() < m {
        return false;
    }
    let mut k: usize = 0;
    while k < m
        invariant
            k <= m,
            m == p@.len(),
            m <= v@.len(),
            v@ == s@,
            p@ == prefix@,
            forall|j: int| 0 <= j < k ==> v@[j] == p@[j],
        decreases m - k,
    {
        if v[k] != p[k] {
            assert(s@.subrange(0, m as int)[k as int] != prefix@[k as int]);
            return false;
        }
        k = k + 1;
    }
    assert(prefix@ =~= s@.subrange(0, m as int));
    true
}

/// What follows `prefix`, where `s` begins with it.
pub fn text_after(s: &str, prefix: &str) -> (r: Option<String>)
    ensures
        match r {
            Some(t) => prefix@.is_prefix_of(s@) && t@ == s@.subrange(
                prefix@.len() as int,
                s@.len() as int,
            ),
            None => !prefix@.is_prefix_of(s@),
        },
{
    if !text_starts_with(s, prefix) {
        return None;
    }
    let v = chars_of(s);
    let p = chars_of(prefix);
    Some(text_range(&v, p.len(), v.len()))
}

} // verus!
