//! Byte strings: big-endian integers, comparison, slicing and joining.
use vstd::prelude::*;

verus! {

/// 256 to the power `n`.
pub open spec fn pow256(n: nat) -> nat
    decreases n,
{
    if n == 0 {
        1
    } else {
        256 * pow256((n - 1) as nat)
    }
}

/// The number that the bytes `s` write in big-endian order.
pub open spec fn be_value(s: Seq<u8>) -> nat
    decreases s.len(),
{
    if s.len() == 0 {
        0
    } else {
        be_value(s.drop_last()) * 256 + s.last() as nat
    }
}

/// The `n` low-order bytes of `x`, most significant first.
pub open spec fn be_bytes(x: nat, n: nat) -> Seq<u8>
    decreases n,
{
    if n == 0 {
        Seq::empty()
    } else {
        be_bytes(x / 256, (n - 1) as nat).push((x % 256) as u8)
    }
}

/// Big-endian form of a `u16`.
pub open spec fn be16(x: u16) -> Seq<u8> {
    be_bytes(x as nat, 2)
}

/// Big-endian form of a `u32`.
pub open spec fn be32(x: u32) -> Seq<u8> {
    be_bytes(x as nat, 4)
}

/// Big-endian form of a `u64`.
pub open spec fn be64(x: u64) -> Seq<u8> {
    be_bytes(x as nat, 8)
}

/// The powers that bound two, four and eight bytes.
pub proof fn lemma_pow256_values()
    ensures
        pow256(0) == 1,
        pow256(1) == 0x100,
        pow256(2) == 0x1_0000,
        pow256(4) == 0x1_0000_0000,
        pow256(8) == 0x1_0000_0000_0000_0000,
{
    reveal_with_fuel(pow256, 9);
}

pub proof fn lemma_pow256_positive(n: nat)
    ensures
        pow256(n) >= 1,
    decreases n,
{
    if n > 0 {
        lemma_pow256_positive((n - 1) as nat);
    }
}

pub proof fn lemma_pow256_monotone(m: nat, n: nat)
    requires
        m <= n,
    ensures
        pow256(m) <= pow256(n),
    decreases n,
{
    if m < n {
        lemma_pow256_monotone(m, (n - 1) as nat);
        lemma_pow256_positive((n - 1) as nat);
    }
}

pub proof fn lemma_be_bytes_len(x: nat, n: nat)
    ensures
        be_bytes(x, n).len() == n,
    decreases n,
{
    if n > 0 {
        lemma_be_bytes_len(x / 256, (n - 1) as nat);
    }
}

/// Reading back what was written gives the number again.
pub proof fn lemma_be_value_of_bytes(x: nat, n: nat)
    requires
        x < pow256(n),
    ensures
        be_value(be_bytes(x, n)) == x,
        be_bytes(x, n).len() == n,
    decreases n,
{
    lemma_be_bytes_len(x, n);
    if n > 0 {
        assert(x / 256 < pow256((n - 1) as nat));
        lemma_be_value_of_bytes(x / 256, (n - 1) as nat);
        assert(be_bytes(x, n).drop_last() =~= be_bytes(x / 256, (n - 1) as nat));
    }
}

/// Writing the number that was read gives the bytes again.
pub proof fn lemma_be_bytes_of_value(s: Seq<u8>)
    ensures
        be_bytes(be_value(s), s.len()) == s,
    decreases s.len(),
{
    if s.len() > 0 {
        lemma_be_bytes_of_value(s.drop_last());
        let v = be_value(s);
        assert(v / 256 == be_value(s.drop_last()));
        assert(v % 256 == s.last() as nat);
        assert(s.drop_last().push(s.last()) =~= s);
    } else {
        assert(be_bytes(be_value(s), s.len()) =~= s);
    }
}

pub proof fn lemma_be_value_bound(s: Seq<u8>)
    ensures
        be_value(s) < pow256(s.len()),
    decreases s.len(),
{
    if s.len() > 0 {
        lemma_be_value_bound(s.drop_last());
    }
}

/// The three integer widths of the wire formats, both ways.
pub proof fn lemma_be_widths(x: u64)
    ensures
        be64(x).len() == 8,
        be_value(be64(x)) == x,
        x <= u32::MAX ==> be32(x as u32).len() == 4 && be_value(be32(x as u32)) == x,
        x <= u16::MAX ==> be16(x as u16).len() == 2 && be_value(be16(x as u16)) == x,
{
    lemma_pow256_values();
    lemma_be_value_of_bytes(x as nat, 8);
    if x <= u32::MAX {
        lemma_be_value_of_bytes(x as nat, 4);
    }
    if x <= u16::MAX {
        lemma_be_value_of_bytes(x as nat, 2);
    }
}

/// The bytes of a two, four or eight byte field are those of its value.
pub proof fn lemma_be_fields(s: Seq<u8>)
    ensures
        s.len() == 2 ==> be_value(s) <= u16::MAX && be16(be_value(s) as u16) == s,
        s.len() == 4 ==> be_value(s) <= u32::MAX && be32(be_value(s) as u32) == s,
        s.len() == 8 ==> be_value(s) <= u64::MAX && be64(be_value(s) as u64) == s,
{
    lemma_pow256_values();
    lemma_be_value_bound(s);
    lemma_be_bytes_of_value(s);
}

/// Two byte strings of one length that write the same number are equal.
pub proof fn lemma_be_value_injective(a: Seq<u8>, b: Seq<u8>)
    requires
        a.len() == b.len(),
        be_value(a) == be_value(b),
    ensures
        a == b,
{
    lemma_be_bytes_of_value(a);
    lemma_be_bytes_of_value(b);
}

/// The number written by a concatenation.
pub proof fn lemma_be_value_concat(a: Seq<u8>, b: Seq<u8>)
    ensures
        be_value(a + b) == be_value(a) * pow256(b.len()) + be_value(b),
    decreases b.len(),
{
    if b.len() == 0 {
        assert(a + b =~= a);
        assert(pow256(0) == 1);
        assert(be_value(a) * 1 == be_value(a)) by (nonlinear_arith);
    } else {
        lemma_be_value_concat(a, b.drop_last());
        assert((a + b).drop_last() =~= a + b.drop_last());
        assert((a + b).last() == b.last());
        let p = pow256((b.len() - 1) as nat);
        let v = be_value(a);
        let w = be_value(b.drop_last());
        assert(pow256(b.len()) == 256 * p);
        assert((v * p + w) * 256 == v * (256 * p) + w * 256) by (nonlinear_arith);
    }
}

/// At the first difference the order of the bytes is the order of the numbers.
proof fn lemma_be_value_first_difference(a: Seq<u8>, b: Seq<u8>, k: int)
    requires
        a.len() == b.len(),
        0 <= k < a.len(),
        forall|j: int| 0 <= j < k ==> a[j] == b[j],
        a[k] < b[k],
    ensures
        be_value(a) < be_value(b),
{
    let n = a.len() as int;
    let p = a.subrange(0, k);
    assert(p =~= b.subrange(0, k));
    let sa = a.subrange(k + 1, n);
    let sb = b.subrange(k + 1, n);
    assert(p.push(a[k]) + sa =~= a);
    assert(p.push(b[k]) + sb =~= b);
    lemma_be_value_concat(p.push(a[k]), sa);
    lemma_be_value_concat(p.push(b[k]), sb);
    assert(p.push(a[k]).drop_last() =~= p);
    assert(p.push(b[k]).drop_last() =~= p);
    lemma_be_value_bound(sa);
    let m = pow256(sa.len());
    let va = be_value(p.push(a[k]));
    let vb = be_value(p.push(b[k]));
    assert(va + 1 <= vb);
    assert(va * m + m <= vb * m) by (nonlinear_arith)
        requires
            va + 1 <= vb,
    ;
}

/// Appends the `n` low-order bytes of `x`, most significant first.
pub fn push_be(buf: &mut Vec<u8>, x: u64, n: usize)
    ensures
        final(buf)@ == old(buf)@ + be_bytes(x as nat, n as nat),
    decreases n,
{
    if n == 0 {
        assert(buf@ =~= buf@ + be_bytes(x as nat, 0));
    } else {
        let ghost before = buf@;
        push_be(buf, x / 256, n - 1);
        buf.push((x % 256) as u8);
        assert(buf@ =~= before + be_bytes(x as nat, n as nat));
    }
}

/// Reads the `n` bytes at `off` as a big-endian number.
pub fn read_be(src: &[u8], off: usize, n: usize) -> (x: u64)
    requires
        off + n <= src@.len(),
        n <= 8,
    ensures
        x == be_value(src@.subrange(off as int, off + n)),
        x < pow256(n as nat),
{
    let len: usize = src.len();
    let mut x: u64 = 0;
    let mut i: usize = 0;
    assert(src@.subrange(off as int, off + 0) =~= Seq::<u8>::empty());
    while i < n
        invariant
            i <= n,
            n <= 8,
            len == src@.len(),
            off + n <= len,
            x == be_value(src@.subrange(off as int, off + i)),
        decreases n - i,
    {
        proof {
            let s = src@.subrange(off as int, off + i);
            let t = src@.subrange(off as int, off + i + 1);
            assert(t.drop_last() =~= s);
            lemma_be_value_bound(s);
            lemma_pow256_monotone(i as nat, 7);
            assert(pow256(7) * 256 == pow256(8));
            lemma_pow256_values();
        }
        x = x * 256 + src[off + i] as u64;
        i = i + 1;
    }
    proof {
        lemma_be_value_bound(src@.subrange(off as int, off + n));
    }
    x
}

/// Reads a big-endian `u16`.
pub fn read_be16(src: &[u8], off: usize) -> (x: u16)
    requires
        off + 2 <= src@.len(),
    ensures
        x == be_value(src@.subrange(off as int, off + 2)),
{
    proof {
        lemma_pow256_values();
    }
    read_be(src, off, 2) as u16
}

/// Reads a big-endian `u32`.
pub fn read_be32(src: &[u8], off: usize) -> (x: u32)
    requires
        off + 4 <= src@.len(),
    ensures
        x == be_value(src@.subrange(off as int, off + 4)),
{
    proof {
        lemma_pow256_values();
    }
    read_be(src, off, 4) as u32
}

/// Reads a big-endian `u64`.
pub fn read_be64(src: &[u8], off: usize) -> (x: u64)
    requires
        off + 8 <= src@.len(),
    ensures
        x == be_value(src@.subrange(off as int, off + 8)),
{
    read_be(src, off, 8)
}

/// Whether two byte strings are equal.
pub fn bytes_eq(a: &[u8], b: &[u8]) -> (r: bool)
    ensures
        r == (a@ == b@),
{
    if a.len() != b.len() {
        return false;
    }
    let n: usize = a.len();
    let mut i: usize = 0;
    while i < n
        invariant
            i <= n,
            n == a@.len(),
            n == b@.len(),
            forall|j: int| 0 <= j < i ==> a@[j] == b@[j],
        decreases n - i,
    {
        if a[i] != b[i] {
            return false;
        }
        i = i + 1;
    }
    assert(a@ =~= b@);
    true
}

/// Whether `a` comes before `b`: for strings of one length, the order of the
/// first differing byte, which is the order of the numbers they write.
pub fn bytes_less(a: &[u8], b: &[u8]) -> (r: bool)
    requires
        a@.len() == b@.len(),
    ensures
        r == (be_value(a@) < be_value(b@)),
{
    let n: usize = a.len();
    let mut i: usize = 0;
    while i < n
        invariant
            i <= n,
            n == a@.len(),
            n == b@.len(),
            forall|j: int| 0 <= j < i ==> a@[j] == b@[j],
        decreases n - i,
    {
        if a[i] < b[i] {
            proof {
                lemma_be_value_first_difference(a@, b@, i as int);
            }
            return true;
        }
        if b[i] < a[i] {
            proof {
                lemma_be_value_first_difference(b@, a@, i as int);
            }
            return false;
        }
        i = i + 1;
    }
    assert(a@ =~= b@);
    false
}

/// Whether every byte is zero.
pub fn all_zero(a: &[u8]) -> (r: bool)
    ensures
        r == (forall|j: int| 0 <= j < a@.len() ==> a@[j] == 0),
{
    let n: usize = a.len();
    let mut i: usize = 0;
    while i < n
        invariant
            i <= n,
            n == a@.len(),
            forall|j: int| 0 <= j < i ==> a@[j] == 0,
        decreases n - i,
    {
        if a[i] != 0 {
            return false;
        }
        i = i + 1;
    }
    true
}

/// Appends a byte string.
pub fn push_bytes(buf: &mut Vec<u8>, s: &[u8])
    ensures
        final(buf)@ == old(buf)@ + s@,
{
    let ghost before = buf@;
    buf.extend_from_slice(s);
    assert(buf@ =~= before + s@);
}

/// The bytes `from..to` of `s`, copied.
pub fn copy_range(s: &[u8], from: usize, to: usize) -> (r: Vec<u8>)
    requires
        from <= to <= s@.len(),
    ensures
        r@ == s@.subrange(from as int, to as int),
{
    vstd::slice::slice_to_vec(vstd::slice::slice_subrange(s, from, to))
}

/// The `N` bytes at `off` as an array.
pub fn array_at<const N: usize>(s: &[u8], off: usize) -> (r: [u8; N])
    requires
        off + N <= s@.len(),
    ensures
        r@ == s@.subrange(off as int, off + N),
{
    let len: usize = s.len();
    let mut a: [u8; N] = [0u8; N];
    let mut i: usize = 0;
    while i < N
        invariant
            i <= N,
            len == s@.len(),
            off + N <= len,
            forall|k: int| 0 <= k < i ==> a@[k] == s@[off + k],
        decreases N - i,
    {
        a[i] = s[off + i];
        i = i + 1;
    }
    assert(a@ =~= s@.subrange(off as int, off + N));
    a
}

} // verus!
