//! Refusals on the redeem channel: a frame of records, each a kind, a length and a payload of
//! printable ASCII. The reader fails closed: only a single record that says so means that an
//! invite has been used.
use vstd::prelude::*;
use vstd::string::*;
use vstd::utf8::*;

use crate::octets::{copy_range, push_bytes};
use crate::outside::{str_debug, str_debug_text, utf8_lossy_text};
use crate::text::{
    ascii_bytes, ascii_chars, ascii_text, cat, cat3, chars_of, decimal, decimal_text, hex_byte,
    hex_byte_text,
};

pub mod kind;

verus! {

/// A reason to refuse that an issuer sends.
#[derive(Debug, Clone, PartialEq, Eq)]
pub enum RedeemErrorKind {
    /// The invite has been used.
    Consumed,
    /// The issuer of the token is not the root.
    NotRoot,
    /// The proof of possession does not hold.
    BadPoP,
    /// Another reason.
    Other(String),
}

/// What a [`RedeemErrorKind`] says.
pub enum KindView {
    Consumed,
    NotRoot,
    BadPoP,
    Other(Seq<char>),
}

impl View for RedeemErrorKind {
    type V = KindView;

    open spec fn view(&self) -> KindView {
        match self {
            RedeemErrorKind::Consumed => KindView::Consumed,
            RedeemErrorKind::NotRoot => KindView::NotRoot,
            RedeemErrorKind::BadPoP => KindView::BadPoP,
            RedeemErrorKind::Other(t) => KindView::Other(t@),
        }
    }
}

pub open spec fn kind_byte_of(k: KindView) -> u8 {
    match k {
        KindView::Consumed => kind::CONSUMED,
        KindView::NotRoot => kind::NOT_ROOT,
        KindView::BadPoP => kind::BAD_POP,
        KindView::Other(_) => kind::OTHER,
    }
}

pub open spec fn printable(b: u8) -> bool {
    0x20 <= b <= 0x7E
}

/// The printable bytes of `s`, in order.
pub open spec fn printables(s: Seq<u8>) -> Seq<u8> {
    s.filter(|b: u8| printable(b))
}

/// The first `n` of a sequence.
pub open spec fn at_most(s: Seq<u8>, n: nat) -> Seq<u8> {
    if s.len() <= n {
        s
    } else {
        s.subrange(0, n as int)
    }
}

/// A reason as it is sent: its printable ASCII bytes, at most 255.
pub open spec fn normalized(reason: Seq<char>) -> Seq<u8> {
    at_most(printables(encode_utf8(reason)), 255)
}

/// A payload as it is shown: its printable ASCII bytes as characters.
pub open spec fn shown_payload(payload: Seq<u8>) -> Seq<char> {
    ascii_text(printables(payload))
}

/// A record of a kind and a payload.
pub open spec fn record_bytes(kind: u8, payload: Seq<u8>) -> Seq<u8> {
    seq![kind, payload.len() as u8] + payload
}

/// The payload that an issuer sends for a reason.
pub open spec fn payload_of(k: KindView) -> Seq<u8> {
    match k {
        KindView::Other(t) => normalized(t),
        _ => Seq::empty(),
    }
}

impl RedeemErrorKind {
    pub fn kind_byte(&self) -> (r: u8)
        ensures
            r == kind_byte_of(self@),
    {
        match self {
            RedeemErrorKind::Consumed => kind::CONSUMED,
            RedeemErrorKind::NotRoot => kind::NOT_ROOT,
            RedeemErrorKind::BadPoP => kind::BAD_POP,
            RedeemErrorKind::Other(_) => kind::OTHER,
        }
    }

    /// The record of this reason.
    pub fn encode_record(&self) -> (r: Vec<u8>)
        ensures
            r@ == record_bytes(kind_byte_of(self@), payload_of(self@)),
    {
        let payload = match self {
            RedeemErrorKind::Other(reason) => normalize_payload(reason.as_str()),
            _ => Vec::new(),
        };
        let mut out: Vec<u8> = Vec::new();
        out.push(self.kind_byte());
        out.push(payload.len() as u8);
        push_bytes(&mut out, payload.as_slice());
        assert(out@ =~= record_bytes(kind_byte_of(self@), payload_of(self@)));
        out
    }
}

proof fn lemma_filter_push<A>(s: Seq<A>, x: A, f: spec_fn(A) -> bool)
    ensures
        s.push(x).filter(f) == if f(x) {
            s.filter(f).push(x)
        } else {
            s.filter(f)
        },
{
    reveal(Seq::filter);
    assert(s.push(x).drop_last() =~= s);
}

proof fn lemma_printables_push(s: Seq<u8>, b: u8)
    ensures
        printables(s.push(b)) == if printable(b) {
            printables(s).push(b)
        } else {
            printables(s)
        },
{
    lemma_filter_push(s, b, |b: u8| printable(b));
}

/// What is sent of a longer text begins with what is sent of a shorter one.
proof fn lemma_printables_prefix(s: Seq<u8>, i: int)
    requires
        0 <= i <= s.len(),
    ensures
        printables(s.subrange(0, i)).len() <= printables(s).len(),
        printables(s).subrange(0, printables(s.subrange(0, i)).len() as int) == printables(
            s.subrange(0, i),
        ),
    decreases s.len() - i,
{
    let a = printables(s.subrange(0, i));
    if i == s.len() {
        assert(s.subrange(0, i) =~= s);
        assert(printables(s).subrange(0, a.len() as int) =~= a);
    } else {
        lemma_printables_prefix(s, i + 1);
        let b = printables(s.subrange(0, i + 1));
        assert(s.subrange(0, i + 1) =~= s.subrange(0, i).push(s[i]));
        lemma_printables_push(s.subrange(0, i), s[i]);
        assert(printables(s).subrange(0, a.len() as int) =~= b.subrange(0, a.len() as int));
        assert(b.subrange(0, a.len() as int) =~= a);
    }
}

/// A reason as it is sent: its printable ASCII bytes, at most 255.
pub fn normalize_payload(reason: &str) -> (r: Vec<u8>)
    ensures
        r@ == normalized(reason@),
        r@.len() <= 255,
{
    let bytes = reason.as_bytes();
    let ghost all = bytes@;
    let mut out: Vec<u8> = Vec::new();
    let mut i: usize = 0;
    proof {
        assert(all.subrange(0, 0) =~= Seq::<u8>::empty());
        reveal(Seq::filter);
    }
    while i < bytes.len() && out.len() < 255
        invariant
            i <= bytes@.len(),
            all == bytes@,
            out@ == printables(all.subrange(0, i as int)),
            out@.len() <= 255,
        decreases bytes@.len() - i,
    {
        let b: u8 = bytes[i];
        proof {
            assert(all.subrange(0, i + 1) =~= all.subrange(0, i as int).push(b));
            lemma_printables_push(all.subrange(0, i as int), b);
        }
        if 0x20 <= b && b <= 0x7E {
            out.push(b);
        }
        i = i + 1;
    }
    proof {
        lemma_printables_prefix(all, i as int);
        if i == all.len() {
            assert(all.subrange(0, i as int) =~= all);
        } else if printables(all).len() <= 255 {
            assert(printables(all).subrange(0, 255) =~= printables(all));
        }
    }
    out
}

/// A record as it was received; the kind may be unknown.
#[derive(Debug, Clone, PartialEq, Eq)]
pub struct RedeemRecord {
    pub kind: u8,
    pub payload: Vec<u8>,
}

/// What a [`RedeemRecord`] holds.
pub struct RecordView {
    pub kind: u8,
    pub payload: Seq<u8>,
}

impl View for RedeemRecord {
    type V = RecordView;

    open spec fn view(&self) -> RecordView {
        RecordView { kind: self.kind, payload: self.payload@ }
    }
}

pub open spec fn record_views(s: Seq<RedeemRecord>) -> Seq<RecordView> {
    Seq::new(s.len(), |i: int| s[i]@)
}

/// Characters that are shown.
pub open spec fn shown_char(c: char) -> bool {
    0x20 <= c as u32 <= 0x7E
}

/// The characters of a text that are shown, in order.
pub open spec fn shown(s: Seq<char>) -> Seq<char> {
    s.filter(|c: char| shown_char(c))
}

proof fn lemma_shown_push(s: Seq<char>, c: char)
    ensures
        shown(s.push(c)) == if shown_char(c) {
            shown(s).push(c)
        } else {
            shown(s)
        },
{
    lemma_filter_push(s, c, |c: char| shown_char(c));
}

/// What is shown of a text are ASCII characters.
proof fn lemma_shown_is_ascii(s: Seq<char>)
    ensures
        shown(ascii_chars(s)) == shown(s),
    decreases s.len(),
{
    reveal(Seq::filter);
    if s.len() > 0 {
        let t = s.drop_last();
        let c = s.last();
        lemma_shown_is_ascii(t);
        assert(t.push(c) =~= s);
        lemma_shown_push(t, c);
        lemma_filter_push(t, c, |c: char| (c as u32) < 128);
        lemma_shown_push(ascii_chars(t), c);
    }
}

/// Printable bytes are ASCII.
proof fn lemma_printables_are_ascii(s: Seq<u8>)
    ensures
        printables(ascii_bytes(s)) == printables(s),
    decreases s.len(),
{
    reveal(Seq::filter);
    if s.len() > 0 {
        let t = s.drop_last();
        let b = s.last();
        lemma_printables_are_ascii(t);
        assert(t.push(b) =~= s);
        lemma_printables_push(t, b);
        lemma_filter_push(t, b, |b: u8| b < 128);
        lemma_printables_push(ascii_bytes(t), b);
    }
}

/// Of ASCII bytes the printable ones are shown.
proof fn lemma_shown_ascii(s: Seq<u8>)
    requires
        forall|i: int| 0 <= i < s.len() ==> #[trigger] s[i] < 128,
    ensures
        shown(ascii_text(s)) == shown_payload(s),
    decreases s.len(),
{
    reveal(Seq::filter);
    if s.len() == 0 {
        assert(shown(ascii_text(s)) =~= shown_payload(s));
    } else {
        let t = s.drop_last();
        let b = s.last();
        assert forall|i: int| 0 <= i < t.len() implies #[trigger] t[i] < 128 by {
            assert(t[i] == s[i]);
        }
        lemma_shown_ascii(t);
        assert(t.push(b) =~= s);
        lemma_printables_push(t, b);
        assert(ascii_text(s) =~= ascii_text(t).push(b as char));
        lemma_shown_push(ascii_text(t), b as char);
        assert(s[s.len() - 1] < 128);
        assert(shown_char(b as char) == printable(b));
        assert(ascii_text(printables(t).push(b)) =~= shown_payload(t).push(b as char));
    }
}

proof fn lemma_ascii_bytes_all(s: Seq<u8>)
    ensures
        forall|i: int| 0 <= i < ascii_bytes(s).len() ==> #[trigger] ascii_bytes(s)[i] < 128,
    decreases s.len(),
{
    reveal(Seq::filter);
    if s.len() > 0 {
        lemma_ascii_bytes_all(s.drop_last());
        assert(s.drop_last().push(s.last()) =~= s);
        lemma_filter_push(s.drop_last(), s.last(), |b: u8| b < 128);
    }
}

/// A text whose ASCII characters are the ASCII bytes of a payload shows the payload.
proof fn lemma_shown_payload(s: Seq<char>, payload: Seq<u8>)
    requires
        ascii_chars(s) == ascii_text(ascii_bytes(payload)),
    ensures
        shown(s) == shown_payload(payload),
{
    lemma_shown_is_ascii(s);
    lemma_ascii_bytes_all(payload);
    lemma_shown_ascii(ascii_bytes(payload));
    lemma_printables_are_ascii(payload);
}

/// The characters of a text that are shown.
pub fn shown_text(text: &str) -> (r: String)
    ensures
        r@ == shown(text@),
{
    let chars = chars_of(text);
    let ghost all = text@;
    let mut out = String::new();
    let mut i: usize = 0;
    proof {
        assert(all.subrange(0, 0) =~= Seq::<char>::empty());
        reveal(Seq::filter);
        assert(out@ =~= shown(all.subrange(0, 0)));
    }
    while i < chars.len()
        invariant
            i <= chars@.len(),
            chars@ == all,
            out@ == shown(all.subrange(0, i as int)),
        decreases chars@.len() - i,
    {
        let c = chars[i];
        proof {
            assert(all.subrange(0, i + 1) =~= all.subrange(0, i as int).push(c));
            lemma_shown_push(all.subrange(0, i as int), c);
        }
        let n: u32 = c as u32;
        if 0x20 <= n && n <= 0x7E {
            out.push(c);
        }
        i = i + 1;
    }
    assert(all.subrange(0, i as int) =~= all);
    out
}

impl RedeemRecord {
    /// The payload as it is shown: printable ASCII only.
    pub fn presented(&self) -> (r: String)
        ensures
            r@ == shown_payload(self@.payload),
    {
        let text = utf8_lossy_text(self.payload.as_slice());
        proof {
            lemma_shown_payload(text@, self.payload@);
        }
        shown_text(text.as_str())
    }

    pub fn is_consumed(&self) -> (r: bool)
        ensures
            r == (self@.kind == kind::CONSUMED),
    {
        self.kind == kind::CONSUMED
    }
}

/// A record that does not end inside the payload.
#[derive(Debug, Clone, PartialEq, Eq, Structural)]
pub struct RecordShortRead {
    /// Where the record begins.
    pub at: usize,
}

pub open spec fn short_read_text(at: nat) -> Seq<char> {
    "redeem error record short read at offset "@ + decimal(at)
}

impl RecordShortRead {
    /// The error as text.
    pub fn message(&self) -> (r: String)
        ensures
            r@ == short_read_text(self.at as nat),
    {
        cat("redeem error record short read at offset ", decimal_text(self.at as u64).as_str())
    }
}

/// The records from `off` on, or where the first incomplete one begins.
pub open spec fn records_from(p: Seq<u8>, off: int) -> Result<Seq<RecordView>, int>
    decreases p.len() - off,
{
    if off < 0 || off >= p.len() {
        Ok(Seq::empty())
    } else if off + 2 > p.len() || off + 2 + p[off + 1] > p.len() {
        Err(off)
    } else {
        let end = off + 2 + p[off + 1];
        let first = RecordView { kind: p[off], payload: p.subrange(off + 2, end) };
        match records_from(p, end) {
            Err(at) => Err(at),
            Ok(rest) => Ok(seq![first] + rest),
        }
    }
}

/// Reads all records of a refusal.
pub fn decode_records(payload: &[u8]) -> (r: Result<Vec<RedeemRecord>, RecordShortRead>)
    ensures
        match records_from(payload@, 0) {
            Ok(s) => r is Ok && record_views(r->Ok_0@) == s,
            Err(at) => r is Err && r->Err_0.at == at,
        },
{
    let ghost p = payload@;
    let mut out: Vec<RedeemRecord> = Vec::new();
    let mut off: usize = 0;
    let len: usize = payload.len();
    assert(record_views(out@) =~= Seq::<RecordView>::empty());
    proof {
        if records_from(p, 0) is Ok {
            assert(Seq::<RecordView>::empty() + records_from(p, 0)->Ok_0 =~= records_from(p, 0)->Ok_0);
        }
    }
    while off < len
        invariant
            off <= len,
            len == payload@.len(),
            p == payload@,
            match records_from(p, off as int) {
                Ok(rest) => records_from(p, 0) == Ok::<Seq<RecordView>, int>(
                    record_views(out@) + rest,
                ),
                Err(at) => records_from(p, 0) == Err::<Seq<RecordView>, int>(at),
            },
        decreases len - off,
    {
        if len - off < 2 {
            return Err(RecordShortRead { at: off });
        }
        let n: usize = payload[off + 1] as usize;
        if len - off - 2 < n {
            return Err(RecordShortRead { at: off });
        }
        let rec = RedeemRecord {
            kind: payload[off],
            payload: copy_range(payload, off + 2, off + 2 + n),
        };
        let ghost before = record_views(out@);
        let ghost x = rec@;
        out.push(rec);
        proof {
            assert(record_views(out@) =~= before.push(x));
            if records_from(p, off + 2 + n) is Ok {
                let rest = records_from(p, off + 2 + n)->Ok_0;
                assert(before + (seq![x] + rest) =~= record_views(out@) + rest);
            }
        }
        off = off + 2 + n;
    }
    assert(record_views(out@) + Seq::<RecordView>::empty() =~= record_views(out@));
    Ok(out)
}

/// What the joiner makes of a refusal.
#[derive(Debug, Clone, PartialEq, Eq)]
pub enum RedeemRejection {
    /// The invite has been used.
    Consumed,
    /// The invite is not accepted.
    Invalid { reason: String },
}

/// What a [`RedeemRejection`] says.
pub enum RejectionView {
    Consumed,
    Invalid(Seq<char>),
}

impl View for RedeemRejection {
    type V = RejectionView;

    open spec fn view(&self) -> RejectionView {
        match self {
            RedeemRejection::Consumed => RejectionView::Consumed,
            RedeemRejection::Invalid { reason } => RejectionView::Invalid(reason@),
        }
    }
}

pub open spec fn rejection_text(r: RejectionView) -> Seq<char> {
    match r {
        RejectionView::Consumed => "invite already consumed"@,
        RejectionView::Invalid(reason) => "invite rejected: "@ + reason,
    }
}

/// The rejection with its fields.
pub open spec fn rejection_debug(r: RejectionView) -> Seq<char> {
    match r {
        RejectionView::Consumed => "Consumed"@,
        RejectionView::Invalid(reason) => "Invalid { reason: "@ + str_debug(reason) + " }"@,
    }
}

impl RedeemRejection {
    /// The rejection as text.
    pub fn message(&self) -> (r: String)
        ensures
            r@ == rejection_text(self@),
    {
        match self {
            RedeemRejection::Consumed => "invite already consumed".to_owned(),
            RedeemRejection::Invalid { reason } => cat("invite rejected: ", reason.as_str()),
        }
    }

    /// The rejection with its fields.
    pub fn debug_text(&self) -> (r: String)
        ensures
            r@ == rejection_debug(self@),
    {
        match self {
            RedeemRejection::Consumed => "Consumed".to_owned(),
            RedeemRejection::Invalid { reason } => cat3(
                "Invalid { reason: ",
                str_debug_text(reason.as_str()).as_str(),
                " }",
            ),
        }
    }
}

/// What a record says, or its kind where it says nothing.
pub open spec fn reason_or(text: Seq<char>, fallback: Seq<char>) -> Seq<char> {
    if text.len() == 0 {
        fallback
    } else {
        text
    }
}

/// What a single record means; `text` is its payload as it is shown.
pub open spec fn single(kind: u8, text: Seq<char>) -> RejectionView {
    if kind == kind::CONSUMED {
        RejectionView::Consumed
    } else if kind == kind::NOT_ROOT {
        RejectionView::Invalid(reason_or(text, "not root"@))
    } else if kind == kind::BAD_POP {
        RejectionView::Invalid(reason_or(text, "bad proof-of-possession"@))
    } else if kind == kind::OTHER {
        RejectionView::Invalid(reason_or(text, "other"@))
    } else {
        RejectionView::Invalid("unknown-kind 0x"@ + hex_byte(kind))
    }
}

/// What the records of a refusal mean: more than one is a refusal of the invite.
pub open spec fn reduced(s: Seq<RecordView>) -> RejectionView {
    if s.len() == 1 {
        single(s[0].kind, shown_payload(s[0].payload))
    } else {
        RejectionView::Invalid(
            "multiple redeem error records ("@ + decimal(s.len()) + ") fail-closed"@,
        )
    }
}

/// What a single record means, from its kind and its payload as it is shown.
pub fn reduce_single(kind: u8, presented: String) -> (r: RedeemRejection)
    ensures
        r@ == single(kind, presented@),
{
    if kind == kind::CONSUMED {
        return RedeemRejection::Consumed;
    }
    if kind != kind::NOT_ROOT && kind != kind::BAD_POP && kind != kind::OTHER {
        return RedeemRejection::Invalid {
            reason: cat("unknown-kind 0x", hex_byte_text(kind).as_str()),
        };
    }
    let reason = if chars_of(presented.as_str()).len() > 0 {
        presented
    } else if kind == kind::NOT_ROOT {
        "not root".to_owned()
    } else if kind == kind::BAD_POP {
        "bad proof-of-possession".to_owned()
    } else {
        "other".to_owned()
    };
    RedeemRejection::Invalid { reason }
}

/// What the records of a refusal mean.
pub fn reduce(records: &[RedeemRecord]) -> (r: RedeemRejection)
    ensures
        r@ == reduced(record_views(records@)),
{
    let n: usize = records.len();
    if n == 1 {
        reduce_single(records[0].kind, records[0].presented())
    } else {
        RedeemRejection::Invalid {
            reason: cat3(
                "multiple redeem error records (",
                decimal_text(n as u64).as_str(),
                ") fail-closed",
            ),
        }
    }
}

// ---- laws -------------------------------------------------------------------------

/// Several records, one after the other.
pub open spec fn records_bytes(s: Seq<RecordView>) -> Seq<u8>
    decreases s.len(),
{
    if s.len() == 0 {
        Seq::empty()
    } else {
        record_bytes(s[0].kind, s[0].payload) + records_bytes(s.subrange(1, s.len() as int))
    }
}

proof fn lemma_records_roundtrip(s: Seq<RecordView>, p: Seq<u8>, off: int)
    requires
        forall|i: int| 0 <= i < s.len() ==> (#[trigger] s[i]).payload.len() <= 255,
        0 <= off <= p.len(),
        p.subrange(off, p.len() as int) == records_bytes(s),
    ensures
        records_from(p, off) == Ok::<Seq<RecordView>, int>(s),
    decreases s.len(),
{
    let w = p.subrange(off, p.len() as int);
    if s.len() == 0 {
        assert(w.len() == 0);
        assert(s =~= Seq::<RecordView>::empty());
    } else {
        let x = s[0];
        let t = s.subrange(1, s.len() as int);
        let h = record_bytes(x.kind, x.payload);
        let n = x.payload.len() as int;
        assert(w == h + records_bytes(t));
        assert(p[off] == w[0] && p[off + 1] == w[1]);
        assert(w[0] == h[0] && w[1] == h[1]);
        assert(h[1] == n as u8);
        let end = off + 2 + n;
        assert(p.subrange(off + 2, end) =~= w.subrange(2, 2 + n));
        assert(w.subrange(2, 2 + n) =~= x.payload);
        assert(p.subrange(end, p.len() as int) =~= w.subrange(2 + n, w.len() as int));
        assert(w.subrange(2 + n, w.len() as int) =~= records_bytes(t));
        assert forall|i: int| 0 <= i < t.len() implies (#[trigger] t[i]).payload.len() <= 255 by {
            assert(t[i] == s[i + 1]);
        }
        lemma_records_roundtrip(t, p, end);
        assert(seq![RecordView { kind: p[off], payload: p.subrange(off + 2, end) }] + t =~= s);
    }
}

/// Records are read back as they were written.
pub proof fn records_are_read_back(s: Seq<RecordView>)
    requires
        forall|i: int| 0 <= i < s.len() ==> (#[trigger] s[i]).payload.len() <= 255,
    ensures
        records_from(records_bytes(s), 0) == Ok::<Seq<RecordView>, int>(s),
{
    let p = records_bytes(s);
    assert(p.subrange(0, p.len() as int) =~= p);
    lemma_records_roundtrip(s, p, 0);
}

proof fn lemma_records_canonical(p: Seq<u8>, off: int)
    requires
        0 <= off <= p.len(),
    ensures
        match records_from(p, off) {
            Ok(s) => {
                &&& records_bytes(s) == p.subrange(off, p.len() as int)
                &&& forall|i: int| 0 <= i < s.len() ==> (#[trigger] s[i]).payload.len() <= 255
            },
            Err(at) => off <= at < p.len() && cut_short(p, at) && exists|s: Seq<RecordView>|
                #![trigger records_bytes(s)]
                records_bytes(s) == p.subrange(off, at) && forall|i: int|
                    0 <= i < s.len() ==> (#[trigger] s[i]).payload.len() <= 255,
        },
    decreases p.len() - off,
{
    if off >= p.len() {
        assert(p.subrange(off, p.len() as int) =~= Seq::<u8>::empty());
    } else if cut_short(p, off) {
        let none = Seq::<RecordView>::empty();
        assert(records_bytes(none) =~= p.subrange(off, off));
    } else {
        let end = off + 2 + p[off + 1];
        let x = RecordView { kind: p[off], payload: p.subrange(off + 2, end) };
        lemma_records_canonical(p, end);
        assert(record_bytes(x.kind, x.payload) =~= p.subrange(off, end));
        match records_from(p, end) {
            Ok(rest) => {
                lemma_record_before(x, rest, p, off, end, p.len() as int);
            },
            Err(at) => {
                let rest = choose|s: Seq<RecordView>|
                    #![trigger records_bytes(s)]
                    records_bytes(s) == p.subrange(end, at) && forall|i: int|
                        0 <= i < s.len() ==> (#[trigger] s[i]).payload.len() <= 255;
                lemma_record_before(x, rest, p, off, end, at);
            },
        }
    }
}

proof fn lemma_record_before(
    x: RecordView,
    rest: Seq<RecordView>,
    p: Seq<u8>,
    off: int,
    end: int,
    last: int,
)
    requires
        0 <= off <= end <= last <= p.len(),
        record_bytes(x.kind, x.payload) == p.subrange(off, end),
        records_bytes(rest) == p.subrange(end, last),
        x.payload.len() <= 255,
        forall|i: int| 0 <= i < rest.len() ==> (#[trigger] rest[i]).payload.len() <= 255,
    ensures
        records_bytes(seq![x] + rest) == p.subrange(off, last),
        forall|i: int|
            0 <= i < (seq![x] + rest).len() ==> (#[trigger] (seq![x] + rest)[i]).payload.len()
                <= 255,
{
    let s = seq![x] + rest;
    assert(s.subrange(1, s.len() as int) =~= rest);
    assert(p.subrange(off, end) + p.subrange(end, last) =~= p.subrange(off, last));
}

/// The record at `at` does not end inside the payload.
pub open spec fn cut_short(p: Seq<u8>, at: int) -> bool {
    at + 2 > p.len() || at + 2 + p[at + 1] > p.len()
}

/// A payload that is read as records is the one that these records write. One that is
/// refused begins with whole records, and the refusal names where they end: there the first
/// record begins that is cut short.
pub proof fn records_are_read_from_their_bytes(p: Seq<u8>)
    ensures
        match records_from(p, 0) {
            Ok(s) => {
                &&& records_bytes(s) == p
                &&& forall|i: int| 0 <= i < s.len() ==> (#[trigger] s[i]).payload.len() <= 255
            },
            Err(at) => 0 <= at < p.len() && cut_short(p, at) && exists|s: Seq<RecordView>|
                #![trigger records_bytes(s)]
                records_bytes(s) == p.subrange(0, at) && forall|i: int|
                    0 <= i < s.len() ==> (#[trigger] s[i]).payload.len() <= 255,
        },
{
    lemma_records_canonical(p, 0);
    assert(p.subrange(0, p.len() as int) =~= p);
}

/// Only one record alone that says so means that an invite has been used.
pub proof fn consumed_is_said_by_one_record(s: Seq<RecordView>)
    ensures
        reduced(s) is Consumed <==> s.len() == 1 && s[0].kind == kind::CONSUMED,
{
}

/// The joiner reads the reason that the issuer gave: a used invite as such, and every other
/// reason as a refusal.
pub proof fn refusals_are_understood(k: KindView)
    ensures
        ({
            let sent = record_bytes(kind_byte_of(k), payload_of(k));
            let read = records_from(sent, 0);
            &&& read is Ok
            &&& (read->Ok_0).len() == 1
            &&& (reduced(read->Ok_0) is Consumed <==> k is Consumed)
        }),
{
    let x = RecordView { kind: kind_byte_of(k), payload: payload_of(k) };
    let s = seq![x];
    let sent = record_bytes(x.kind, x.payload);
    assert(s.subrange(1, 1) =~= Seq::<RecordView>::empty());
    assert(records_bytes(s.subrange(1, 1)) =~= Seq::<u8>::empty());
    assert(records_bytes(s) =~= sent);
    records_are_read_back(s);
}

proof fn lemma_printables_all(s: Seq<u8>)
    ensures
        forall|i: int| 0 <= i < printables(s).len() ==> printable(#[trigger] printables(s)[i]),
    decreases s.len(),
{
    reveal(Seq::filter);
    if s.len() > 0 {
        lemma_printables_all(s.drop_last());
        assert(s.drop_last().push(s.last()) =~= s);
        lemma_printables_push(s.drop_last(), s.last());
    }
}

/// Printable bytes are all shown.
proof fn lemma_printables_stay(s: Seq<u8>)
    requires
        forall|i: int| 0 <= i < s.len() ==> printable(#[trigger] s[i]),
    ensures
        printables(s) == s,
    decreases s.len(),
{
    reveal(Seq::filter);
    if s.len() > 0 {
        let t = s.drop_last();
        assert forall|i: int| 0 <= i < t.len() implies printable(#[trigger] t[i]) by {
            assert(t[i] == s[i]);
        }
        lemma_printables_stay(t);
        assert(t.push(s.last()) =~= s);
        assert(printable(s[s.len() - 1]));
        lemma_printables_push(t, s.last());
    }
}

/// A reason is shown as it was sent, with nothing lost on the way.
pub proof fn reasons_are_shown_as_sent(reason: Seq<char>)
    ensures
        shown_payload(normalized(reason)) == ascii_text(normalized(reason)),
{
    let n = normalized(reason);
    lemma_printables_all(encode_utf8(reason));
    assert forall|i: int| 0 <= i < n.len() implies printable(#[trigger] n[i]) by {
        assert(n[i] == printables(encode_utf8(reason))[i]);
    }
    lemma_printables_stay(n);
}

} // verus!
