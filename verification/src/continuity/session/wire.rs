//! Payloads of the session handshake frames.
use vstd::prelude::*;

use crate::continuity::frame::field;
use crate::octets::{
    all_zero, array_at, be16, be64, be_value, lemma_be_widths, push_be, push_bytes, read_be16,
    read_be64,
};

verus! {

/// Version of the session protocol.
pub const PROTOCOL_VERSION: u8 = 1;

/// State of one stream as a handshake reports it.
#[derive(Debug, Clone, Copy, PartialEq, Eq, Structural)]
pub struct StreamSummary {
    pub stream_id: u64,
    /// Bytes that the reporting side has consumed.
    pub recv_ack: u64,
    /// Bytes that it has sent.
    pub send_next: u64,
    /// The end of its stream, once declared.
    pub final_sent: Option<u64>,
}

/// A parsed RESUME_INIT.
#[derive(Debug, Clone, PartialEq, Eq)]
pub struct ResumeInitParsed {
    pub local_connection_epoch: u64,
    pub last_seen_remote_epoch: u64,
    /// The same value as `local_connection_epoch`.
    pub local_generation: u64,
    /// The same value as `last_seen_remote_epoch`.
    pub last_seen_generation: u64,
    pub nonce: [u8; 16],
    pub token: [u8; 16],
    pub summaries: Vec<StreamSummary>,
}

/// What a RESUME_INIT says.
pub struct ResumeInitView {
    pub local_connection_epoch: u64,
    pub last_seen_remote_epoch: u64,
    pub nonce: Seq<u8>,
    pub token: Seq<u8>,
    pub summaries: Seq<StreamSummary>,
}

impl View for ResumeInitParsed {
    type V = ResumeInitView;

    open spec fn view(&self) -> ResumeInitView {
        ResumeInitView {
            local_connection_epoch: self.local_connection_epoch,
            last_seen_remote_epoch: self.last_seen_remote_epoch,
            nonce: self.nonce@,
            token: self.token@,
            summaries: self.summaries@,
        }
    }
}

/// A parsed RESUME_OK.
#[derive(Debug, Clone, PartialEq, Eq)]
pub struct ResumeOkParsed {
    pub accepted_session_id: [u8; 16],
    pub accepted_epoch: u64,
    pub peer_epoch: u64,
    pub new_generation: u64,
    pub new_resume_token: [u8; 16],
    pub replay_stream_count: u16,
    pub status_flags: u16,
    pub replay_summaries: Vec<StreamSummary>,
}

/// What a RESUME_OK says.
pub struct ResumeOkView {
    pub accepted_session_id: Seq<u8>,
    pub accepted_epoch: u64,
    pub peer_epoch: u64,
    pub new_generation: u64,
    pub new_resume_token: Seq<u8>,
    pub status_flags: u16,
    pub replay_summaries: Seq<StreamSummary>,
}

impl View for ResumeOkParsed {
    type V = ResumeOkView;

    open spec fn view(&self) -> ResumeOkView {
        ResumeOkView {
            accepted_session_id: self.accepted_session_id@,
            accepted_epoch: self.accepted_epoch,
            peer_epoch: self.peer_epoch,
            new_generation: self.new_generation,
            new_resume_token: self.new_resume_token@,
            status_flags: self.status_flags,
            replay_summaries: self.replay_summaries@,
        }
    }
}

/// Every byte of `s` is zero.
pub open spec fn is_zero(s: Seq<u8>) -> bool {
    forall|j: int| 0 <= j < s.len() ==> s[j] == 0
}

// ---- layouts ----------------------------------------------------------------------

pub open spec fn session_init_bytes(sid: Seq<u8>, token: Seq<u8>, local_epoch: u64) -> Seq<u8> {
    seq![PROTOCOL_VERSION] + sid + token + be64(local_epoch)
}

pub open spec fn session_init_ok_bytes(sid: Seq<u8>, epoch: u64, generation: u64) -> Seq<u8> {
    sid + be64(epoch) + be64(generation)
}

pub open spec fn session_init_reject_bytes(
    reason: u8,
    sid: Seq<u8>,
    epoch: u64,
    generation: u64,
) -> Seq<u8> {
    seq![reason] + sid + be64(epoch) + be64(generation)
}

/// The wire value of an optional end of stream.
pub open spec fn final_code(f: Option<u64>) -> u64 {
    match f {
        Some(x) => x,
        None => u64::MAX,
    }
}

/// The optional end of stream of a wire value.
pub open spec fn final_of_code(x: u64) -> Option<u64> {
    if x == u64::MAX {
        None
    } else {
        Some(x)
    }
}

pub open spec fn summary_bytes(s: StreamSummary) -> Seq<u8> {
    be64(s.stream_id) + seq![0u8, 0u8, 0u8, 0u8] + be64(s.recv_ack) + be64(s.send_next) + be64(
        final_code(s.final_sent),
    )
}

pub open spec fn summaries_bytes(s: Seq<StreamSummary>) -> Seq<u8>
    decreases s.len(),
{
    if s.len() == 0 {
        Seq::empty()
    } else {
        summaries_bytes(s.drop_last()) + summary_bytes(s.last())
    }
}

/// The count field holds the low 16 bits of the number of summaries.
pub open spec fn resume_init_bytes(r: ResumeInitView) -> Seq<u8> {
    seq![PROTOCOL_VERSION, 0u8] + be16((r.summaries.len() % 65536) as u16) + be64(r.local_connection_epoch)
        + be64(r.last_seen_remote_epoch) + r.nonce + be16(16u16) + r.token + summaries_bytes(
        r.summaries,
    )
}

pub open spec fn resume_ok_bytes(r: ResumeOkView) -> Seq<u8> {
    r.accepted_session_id + be64(r.accepted_epoch) + be64(r.peer_epoch) + be64(r.new_generation)
        + r.new_resume_token + be16((r.replay_summaries.len() % 65536) as u16) + be16(r.status_flags)
        + summaries_bytes(r.replay_summaries)
}

// ---- reading ----------------------------------------------------------------------

pub open spec fn u64_at(p: Seq<u8>, at: int) -> u64 {
    be_value(field(p, at, 8)) as u64
}

pub open spec fn u16_at(p: Seq<u8>, at: int) -> u16 {
    be_value(field(p, at, 2)) as u16
}

/// The summary in the 36 bytes at `at`: its stream id is not zero and its reserved
/// bytes are.
pub open spec fn summary_at(p: Seq<u8>, at: int) -> Option<StreamSummary> {
    if u64_at(p, at) == 0 || p[at + 10] != 0 || p[at + 11] != 0 {
        None
    } else {
        Some(
            StreamSummary {
                stream_id: u64_at(p, at),
                recv_ack: u64_at(p, at + 12),
                send_next: u64_at(p, at + 20),
                final_sent: final_of_code(u64_at(p, at + 28)),
            },
        )
    }
}

/// `n` summaries from `at` on, if each of them can be read.
pub open spec fn summaries_at(p: Seq<u8>, at: int, n: nat) -> Option<Seq<StreamSummary>>
    decreases n,
{
    if n == 0 {
        Some(Seq::empty())
    } else {
        match (summaries_at(p, at, (n - 1) as nat), summary_at(p, at + 36 * (n - 1))) {
            (Some(s), Some(x)) => Some(s.push(x)),
            _ => None,
        }
    }
}

pub open spec fn resume_init_of(p: Seq<u8>) -> Option<ResumeInitView> {
    let count = u16_at(p, 2);
    if p.len() < 38 || p[0] != PROTOCOL_VERSION || p[1] != 0 || u16_at(p, 36) != 16 || p.len()
        != 54 + 36 * count || u64_at(p, 4) == 0 || is_zero(field(p, 38, 16)) {
        None
    } else {
        match summaries_at(p, 54, count as nat) {
            None => None,
            Some(summaries) => Some(
                ResumeInitView {
                    local_connection_epoch: u64_at(p, 4),
                    last_seen_remote_epoch: u64_at(p, 12),
                    nonce: field(p, 20, 16),
                    token: field(p, 38, 16),
                    summaries,
                },
            ),
        }
    }
}

pub open spec fn resume_ok_of(p: Seq<u8>) -> Option<ResumeOkView> {
    let count = u16_at(p, 56);
    if p.len() < 60 || is_zero(field(p, 0, 16)) || u64_at(p, 16) == 0 || u64_at(p, 24) == 0
        || u64_at(p, 32) == 0 || is_zero(field(p, 40, 16)) || p.len() != 60 + 36 * count {
        None
    } else {
        match summaries_at(p, 60, count as nat) {
            None => None,
            Some(replay_summaries) => Some(
                ResumeOkView {
                    accepted_session_id: field(p, 0, 16),
                    accepted_epoch: u64_at(p, 16),
                    peer_epoch: u64_at(p, 24),
                    new_generation: u64_at(p, 32),
                    new_resume_token: field(p, 40, 16),
                    status_flags: u16_at(p, 58),
                    replay_summaries,
                },
            ),
        }
    }
}

// ---- lemmas -----------------------------------------------------------------------

pub proof fn lemma_summary_bytes_len(s: StreamSummary)
    ensures
        summary_bytes(s).len() == 36,
{
    lemma_be_widths(s.stream_id);
    lemma_be_widths(s.recv_ack);
    lemma_be_widths(s.send_next);
    lemma_be_widths(final_code(s.final_sent));
}

pub proof fn lemma_summaries_bytes_len(s: Seq<StreamSummary>)
    ensures
        summaries_bytes(s).len() == 36 * s.len(),
    decreases s.len(),
{
    if s.len() > 0 {
        lemma_summaries_bytes_len(s.drop_last());
        lemma_summary_bytes_len(s.last());
    }
}

/// A summary that can be written and read back.
pub open spec fn summary_fits(s: StreamSummary) -> bool {
    s.stream_id != 0 && s.final_sent != Some(u64::MAX)
}

proof fn lemma_summary_roundtrip(s: StreamSummary, p: Seq<u8>, at: int)
    requires
        summary_fits(s),
        0 <= at,
        at + 36 <= p.len(),
        p.subrange(at, at + 36) == summary_bytes(s),
    ensures
        summary_at(p, at) == Some(s),
{
    let b = summary_bytes(s);
    lemma_be_widths(s.stream_id);
    lemma_be_widths(s.recv_ack);
    lemma_be_widths(s.send_next);
    lemma_be_widths(final_code(s.final_sent));
    assert(field(p, at, 8) =~= b.subrange(0, 8));
    assert(b.subrange(0, 8) =~= be64(s.stream_id));
    assert(p[at + 10] == b[10] && p[at + 11] == b[11]);
    assert(field(p, at + 12, 8) =~= b.subrange(12, 20));
    assert(b.subrange(12, 20) =~= be64(s.recv_ack));
    assert(field(p, at + 20, 8) =~= b.subrange(20, 28));
    assert(b.subrange(20, 28) =~= be64(s.send_next));
    assert(field(p, at + 28, 8) =~= b.subrange(28, 36));
    assert(b.subrange(28, 36) =~= be64(final_code(s.final_sent)));
}

proof fn lemma_summaries_roundtrip(s: Seq<StreamSummary>, p: Seq<u8>, at: int)
    requires
        forall|i: int| 0 <= i < s.len() ==> summary_fits(#[trigger] s[i]),
        0 <= at,
        at + 36 * s.len() <= p.len(),
        p.subrange(at, at + 36 * s.len()) == summaries_bytes(s),
    ensures
        summaries_at(p, at, s.len()) == Some(s),
    decreases s.len(),
{
    if s.len() > 0 {
        let t = s.drop_last();
        let n = t.len() as int;
        lemma_summaries_bytes_len(t);
        lemma_summary_bytes_len(s.last());
        let all = summaries_bytes(s);
        assert(p.subrange(at, at + 36 * n) =~= all.subrange(0, 36 * n));
        assert(all.subrange(0, 36 * n) =~= summaries_bytes(t));
        assert(p.subrange(at + 36 * n, at + 36 * n + 36) =~= all.subrange(36 * n, 36 * n + 36));
        assert(all.subrange(36 * n, 36 * n + 36) =~= summary_bytes(s.last()));
        assert forall|i: int| 0 <= i < t.len() implies summary_fits(#[trigger] t[i]) by {
            assert(t[i] == s[i]);
        }
        lemma_summaries_roundtrip(t, p, at);
        assert(summary_fits(s[n]));
        lemma_summary_roundtrip(s.last(), p, at + 36 * n);
        assert(t.push(s.last()) =~= s);
    } else {
        assert(s =~= Seq::<StreamSummary>::empty());
    }
}

// ---- laws -------------------------------------------------------------------------

/// A RESUME_INIT is read back as it was written.
pub proof fn resume_init_roundtrip(r: ResumeInitView)
    requires
        r.nonce.len() == 16,
        r.token.len() == 16,
        !is_zero(r.token),
        r.local_connection_epoch != 0,
        r.summaries.len() <= u16::MAX,
        forall|i: int| 0 <= i < r.summaries.len() ==> summary_fits(#[trigger] r.summaries[i]),
    ensures
        resume_init_of(resume_init_bytes(r)) == Some(r),
{
    let p = resume_init_bytes(r);
    let n = r.summaries.len() as int;
    lemma_be_widths(r.summaries.len() as u64);
    lemma_be_widths(r.local_connection_epoch);
    lemma_be_widths(r.last_seen_remote_epoch);
    lemma_be_widths(16);
    lemma_summaries_bytes_len(r.summaries);
    assert(p.len() == 54 + 36 * n);
    assert(field(p, 2, 2) =~= be16(n as u16));
    assert(field(p, 4, 8) =~= be64(r.local_connection_epoch));
    assert(field(p, 12, 8) =~= be64(r.last_seen_remote_epoch));
    assert(field(p, 20, 16) =~= r.nonce);
    assert(field(p, 36, 2) =~= be16(16u16));
    assert(field(p, 38, 16) =~= r.token);
    assert(p.subrange(54, 54 + 36 * n) =~= summaries_bytes(r.summaries));
    lemma_summaries_roundtrip(r.summaries, p, 54);
}

/// A RESUME_OK is read back as it was written.
pub proof fn resume_ok_roundtrip(r: ResumeOkView)
    requires
        r.accepted_session_id.len() == 16,
        !is_zero(r.accepted_session_id),
        r.new_resume_token.len() == 16,
        !is_zero(r.new_resume_token),
        r.accepted_epoch != 0,
        r.peer_epoch != 0,
        r.new_generation != 0,
        r.replay_summaries.len() <= u16::MAX,
        forall|i: int|
            0 <= i < r.replay_summaries.len() ==> summary_fits(#[trigger] r.replay_summaries[i]),
    ensures
        resume_ok_of(resume_ok_bytes(r)) == Some(r),
{
    let p = resume_ok_bytes(r);
    let n = r.replay_summaries.len() as int;
    lemma_be_widths(r.replay_summaries.len() as u64);
    lemma_be_widths(r.accepted_epoch);
    lemma_be_widths(r.peer_epoch);
    lemma_be_widths(r.new_generation);
    lemma_be_widths(r.status_flags as u64);
    lemma_summaries_bytes_len(r.replay_summaries);
    assert(p.len() == 60 + 36 * n);
    assert(field(p, 0, 16) =~= r.accepted_session_id);
    assert(field(p, 16, 8) =~= be64(r.accepted_epoch));
    assert(field(p, 24, 8) =~= be64(r.peer_epoch));
    assert(field(p, 32, 8) =~= be64(r.new_generation));
    assert(field(p, 40, 16) =~= r.new_resume_token);
    assert(field(p, 56, 2) =~= be16(n as u16));
    assert(field(p, 58, 2) =~= be16(r.status_flags));
    assert(p.subrange(60, 60 + 36 * n) =~= summaries_bytes(r.replay_summaries));
    lemma_summaries_roundtrip(r.replay_summaries, p, 60);
}

// ---- functions --------------------------------------------------------------------

/// Appends a big-endian `u64`.
pub fn put_u64(dst: &mut Vec<u8>, v: u64)
    ensures
        final(dst)@ == old(dst)@ + be64(v),
{
    push_be(dst, v, 8);
}

/// SESSION_INIT: version, session id, token, local epoch.
pub fn encode_session_init(session_id: &[u8; 16], token: &[u8; 16], local_epoch: u64) -> (r: Vec<
    u8,
>)
    ensures
        r@ == session_init_bytes(session_id@, token@, local_epoch),
{
    let mut p: Vec<u8> = Vec::new();
    p.push(PROTOCOL_VERSION);
    push_bytes(&mut p, session_id);
    push_bytes(&mut p, token);
    put_u64(&mut p, local_epoch);
    assert(p@ =~= session_init_bytes(session_id@, token@, local_epoch));
    p
}

/// The fields of a SESSION_INIT of the right length and version.
pub fn decode_session_init(p: &[u8]) -> (r: Option<([u8; 16], [u8; 16], u64)>)
    ensures
        p@.len() != 41 || p@[0] != PROTOCOL_VERSION <==> r is None,
        r is Some ==> (r->0).0@ == field(p@, 1, 16) && (r->0).1@ == field(p@, 17, 16) && (r->0).2
            == u64_at(p@, 33),
{
    if p.len() != 41 || p[0] != PROTOCOL_VERSION {
        return None;
    }
    Some((array_at::<16>(p, 1), array_at::<16>(p, 17), read_be64(p, 33)))
}

/// A SESSION_INIT is read back as it was written.
pub proof fn session_init_roundtrip(sid: Seq<u8>, token: Seq<u8>, local_epoch: u64)
    requires
        sid.len() == 16,
        token.len() == 16,
    ensures
        ({
            let p = session_init_bytes(sid, token, local_epoch);
            &&& p.len() == 41
            &&& p[0] == PROTOCOL_VERSION
            &&& field(p, 1, 16) == sid
            &&& field(p, 17, 16) == token
            &&& u64_at(p, 33) == local_epoch
        }),
{
    let p = session_init_bytes(sid, token, local_epoch);
    lemma_be_widths(local_epoch);
    assert(field(p, 1, 16) =~= sid);
    assert(field(p, 17, 16) =~= token);
    assert(field(p, 33, 8) =~= be64(local_epoch));
}

/// SESSION_INIT_OK: accepted session id, accepted epoch, token generation.
pub fn encode_session_init_ok(session_id: &[u8; 16], accepted_epoch: u64, generation: u64) -> (r:
    Vec<u8>)
    ensures
        r@ == session_init_ok_bytes(session_id@, accepted_epoch, generation),
{
    let mut p: Vec<u8> = Vec::new();
    push_bytes(&mut p, session_id);
    put_u64(&mut p, accepted_epoch);
    put_u64(&mut p, generation);
    assert(p@ =~= session_init_ok_bytes(session_id@, accepted_epoch, generation));
    p
}

/// The fields of a SESSION_INIT_OK of exactly 32 bytes.
pub fn decode_session_init_ok(p: &[u8]) -> (r: Option<([u8; 16], u64, u64)>)
    ensures
        p@.len() == 32 <==> r is Some,
        r is Some ==> (r->0).0@ == field(p@, 0, 16) && (r->0).1 == u64_at(p@, 16) && (r->0).2 == u64_at(
            p@,
            24,
        ),
{
    if p.len() != 32 {
        return None;
    }
    Some((array_at::<16>(p, 0), read_be64(p, 16), read_be64(p, 24)))
}

/// A SESSION_INIT_OK is read back as it was written.
pub proof fn session_init_ok_roundtrip(sid: Seq<u8>, epoch: u64, generation: u64)
    requires
        sid.len() == 16,
    ensures
        ({
            let p = session_init_ok_bytes(sid, epoch, generation);
            &&& p.len() == 32
            &&& field(p, 0, 16) == sid
            &&& u64_at(p, 16) == epoch
            &&& u64_at(p, 24) == generation
        }),
{
    let p = session_init_ok_bytes(sid, epoch, generation);
    lemma_be_widths(epoch);
    lemma_be_widths(generation);
    assert(field(p, 0, 16) =~= sid);
    assert(field(p, 16, 8) =~= be64(epoch));
    assert(field(p, 24, 8) =~= be64(generation));
}

/// SESSION_INIT_REJECT: reason and the canonical session, its epoch and generation.
pub fn encode_session_init_reject(
    reason: u8,
    canonical_session_id: &[u8; 16],
    canonical_epoch: u64,
    generation: u64,
) -> (r: Vec<u8>)
    ensures
        r@ == session_init_reject_bytes(
            reason,
            canonical_session_id@,
            canonical_epoch,
            generation,
        ),
{
    let mut p: Vec<u8> = Vec::new();
    p.push(reason);
    push_bytes(&mut p, canonical_session_id);
    put_u64(&mut p, canonical_epoch);
    put_u64(&mut p, generation);
    assert(p@ =~= session_init_reject_bytes(
        reason,
        canonical_session_id@,
        canonical_epoch,
        generation,
    ));
    p
}

/// The fields of a SESSION_INIT_REJECT of exactly 33 bytes.
pub fn decode_session_init_reject(p: &[u8]) -> (r: Option<(u8, [u8; 16], u64, u64)>)
    ensures
        p@.len() == 33 <==> r is Some,
        r is Some ==> (r->0).0 == p@[0] && (r->0).1@ == field(p@, 1, 16) && (r->0).2 == u64_at(p@, 17)
            && (r->0).3 == u64_at(p@, 25),
{
    if p.len() != 33 {
        return None;
    }
    Some((p[0], array_at::<16>(p, 1), read_be64(p, 17), read_be64(p, 25)))
}

/// A SESSION_INIT_REJECT is read back as it was written.
pub proof fn session_init_reject_roundtrip(
    reason: u8,
    sid: Seq<u8>,
    epoch: u64,
    generation: u64,
)
    requires
        sid.len() == 16,
    ensures
        ({
            let p = session_init_reject_bytes(reason, sid, epoch, generation);
            &&& p.len() == 33
            &&& p[0] == reason
            &&& field(p, 1, 16) == sid
            &&& u64_at(p, 17) == epoch
            &&& u64_at(p, 25) == generation
        }),
{
    let p = session_init_reject_bytes(reason, sid, epoch, generation);
    lemma_be_widths(epoch);
    lemma_be_widths(generation);
    assert(field(p, 1, 16) =~= sid);
    assert(field(p, 17, 8) =~= be64(epoch));
    assert(field(p, 25, 8) =~= be64(generation));
}

/// Appends the summaries in order.
fn push_summaries(p: &mut Vec<u8>, summaries: &[StreamSummary])
    ensures
        final(p)@ == old(p)@ + summaries_bytes(summaries@),
{
    let ghost before = p@;
    let n: usize = summaries.len();
    let mut i: usize = 0;
    assert(summaries@.subrange(0, 0) =~= Seq::<StreamSummary>::empty());
    assert(p@ =~= before + summaries_bytes(summaries@.subrange(0, 0)));
    while i < n
        invariant
            i <= n,
            n == summaries@.len(),
            p@ == before + summaries_bytes(summaries@.subrange(0, i as int)),
        decreases n - i,
    {
        let s = summaries[i];
        put_u64(p, s.stream_id);
        p.push(0);
        p.push(0);
        p.push(0);
        p.push(0);
        put_u64(p, s.recv_ack);
        put_u64(p, s.send_next);
        let f: u64 = match s.final_sent {
            Some(x) => x,
            None => u64::MAX,
        };
        put_u64(p, f);
        proof {
            let t = summaries@.subrange(0, i + 1);
            assert(t.drop_last() =~= summaries@.subrange(0, i as int));
            assert(t.last() == s);
            assert(p@ =~= before + (summaries_bytes(t.drop_last()) + summary_bytes(s)));
        }
        i = i + 1;
    }
    assert(summaries@.subrange(0, n as int) =~= summaries@);
}

/// Reads `n` summaries from `at` on.
fn read_summaries(p: &[u8], at: usize, n: usize) -> (r: Option<Vec<StreamSummary>>)
    requires
        at + 36 * n == p@.len(),
    ensures
        match summaries_at(p@, at as int, n as nat) {
            Some(s) => r is Some && r->0@ == s,
            None => r is None,
        },
{
    let len: usize = p.len();
    let mut out: Vec<StreamSummary> = Vec::new();
    let mut i: usize = 0;
    let mut pos: usize = at;
    while i < n
        invariant
            i <= n,
            len == p@.len(),
            at + 36 * n == len,
            pos == at + 36 * i,
            summaries_at(p@, at as int, i as nat) == Some(out@),
        decreases n - i,
    {
        assert(pos + 36 <= len) by (nonlinear_arith)
            requires
                pos == at + 36 * i,
                at + 36 * n == len,
                i < n,
        ;
        let stream_id: u64 = read_be64(p, pos);
        if stream_id == 0 || p[pos + 10] != 0 || p[pos + 11] != 0 {
            proof {
                lemma_summaries_none(p@, at as int, (i + 1) as nat, n as nat);
            }
            return None;
        }
        let recv_ack: u64 = read_be64(p, pos + 12);
        let send_next: u64 = read_be64(p, pos + 20);
        let raw: u64 = read_be64(p, pos + 28);
        let final_sent: Option<u64> = if raw == u64::MAX { None } else { Some(raw) };
        out.push(StreamSummary { stream_id, recv_ack, send_next, final_sent });
        i = i + 1;
        pos = pos + 36;
    }
    Some(out)
}

/// A summary that cannot be read spoils every longer list.
proof fn lemma_summaries_none(p: Seq<u8>, at: int, i: nat, n: nat)
    requires
        i <= n,
        summaries_at(p, at, i) is None,
    ensures
        summaries_at(p, at, n) is None,
    decreases n,
{
    if i < n {
        lemma_summaries_none(p, at, i, (n - 1) as nat);
    }
}

/// RESUME_INIT: version, flags, count, both epochs, nonce, token and the summaries.
pub fn encode_resume_init(
    local_connection_epoch: u64,
    last_seen_remote_epoch: u64,
    nonce: &[u8; 16],
    token: &[u8; 16],
    summaries: &[StreamSummary],
) -> (r: Vec<u8>)
    ensures
        r@ == resume_init_bytes(
            ResumeInitView {
                local_connection_epoch,
                last_seen_remote_epoch,
                nonce: nonce@,
                token: token@,
                summaries: summaries@,
            },
        ),
{
    let mut p: Vec<u8> = Vec::new();
    p.push(PROTOCOL_VERSION);
    p.push(0);
    let count: u16 = (summaries.len() % 65536) as u16;
    push_be(&mut p, count as u64, 2);
    put_u64(&mut p, local_connection_epoch);
    put_u64(&mut p, last_seen_remote_epoch);
    push_bytes(&mut p, nonce);
    push_be(&mut p, 16, 2);
    push_bytes(&mut p, token);
    push_summaries(&mut p, summaries);
    assert(p@ =~= resume_init_bytes(
        ResumeInitView {
            local_connection_epoch,
            last_seen_remote_epoch,
            nonce: nonce@,
            token: token@,
            summaries: summaries@,
        },
    ));
    p
}

/// Reads a RESUME_INIT of exactly the declared shape.
pub fn decode_resume_init(p: &[u8]) -> (r: Option<ResumeInitParsed>)
    ensures
        match resume_init_of(p@) {
            Some(v) => r is Some && r->0@ == v && r->0.local_generation == v.local_connection_epoch
                && r->0.last_seen_generation == v.last_seen_remote_epoch,
            None => r is None,
        },
{
    if p.len() < 38 || p[0] != PROTOCOL_VERSION {
        return None;
    }
    if p[1] != 0 {
        return None;
    }
    let count: usize = read_be16(p, 2) as usize;
    let local_connection_epoch: u64 = read_be64(p, 4);
    let last_seen_remote_epoch: u64 = read_be64(p, 12);
    let token_len: u16 = read_be16(p, 36);
    if token_len != 16 || p.len() != 54 + 36 * count || local_connection_epoch == 0 {
        return None;
    }
    let nonce = array_at::<16>(p, 20);
    let token = array_at::<16>(p, 38);
    if all_zero(&token) {
        return None;
    }
    match read_summaries(p, 54, count) {
        None => None,
        Some(summaries) => Some(
            ResumeInitParsed {
                local_connection_epoch,
                last_seen_remote_epoch,
                local_generation: local_connection_epoch,
                last_seen_generation: last_seen_remote_epoch,
                nonce,
                token,
                summaries,
            },
        ),
    }
}

/// RESUME_OK: session id, both epochs, generation, token, count, flags and the
/// summaries.
pub fn encode_resume_ok_full(
    session_id: &[u8; 16],
    accepted_epoch: u64,
    peer_epoch: u64,
    new_generation: u64,
    new_token: &[u8; 16],
    replay_summaries: &[StreamSummary],
    status_flags: u16,
) -> (r: Vec<u8>)
    ensures
        r@ == resume_ok_bytes(
            ResumeOkView {
                accepted_session_id: session_id@,
                accepted_epoch,
                peer_epoch,
                new_generation,
                new_resume_token: new_token@,
                status_flags,
                replay_summaries: replay_summaries@,
            },
        ),
{
    let mut p: Vec<u8> = Vec::new();
    push_bytes(&mut p, session_id);
    put_u64(&mut p, accepted_epoch);
    put_u64(&mut p, peer_epoch);
    put_u64(&mut p, new_generation);
    push_bytes(&mut p, new_token);
    let count: u16 = (replay_summaries.len() % 65536) as u16;
    push_be(&mut p, count as u64, 2);
    push_be(&mut p, status_flags as u64, 2);
    push_summaries(&mut p, replay_summaries);
    assert(p@ =~= resume_ok_bytes(
        ResumeOkView {
            accepted_session_id: session_id@,
            accepted_epoch,
            peer_epoch,
            new_generation,
            new_resume_token: new_token@,
            status_flags,
            replay_summaries: replay_summaries@,
        },
    ));
    p
}

/// A RESUME_OK with epochs of 1 and nothing to replay.
pub fn encode_resume_ok(session_id: &[u8; 16], new_generation: u64, new_token: &[u8; 16]) -> (r:
    Vec<u8>)
    ensures
        r@ == resume_ok_bytes(
            ResumeOkView {
                accepted_session_id: session_id@,
                accepted_epoch: 1,
                peer_epoch: 1,
                new_generation,
                new_resume_token: new_token@,
                status_flags: 0,
                replay_summaries: Seq::empty(),
            },
        ),
{
    let none: [StreamSummary; 0] = [];
    assert(none@ =~= Seq::<StreamSummary>::empty());
    encode_resume_ok_full(session_id, 1, 1, new_generation, new_token, &none, 0)
}

/// Reads a RESUME_OK of exactly the declared shape.
pub fn decode_resume_ok_full(p: &[u8]) -> (r: Option<ResumeOkParsed>)
    ensures
        match resume_ok_of(p@) {
            Some(v) => r is Some && r->0@ == v && r->0.replay_stream_count
                == v.replay_summaries.len(),
            None => r is None,
        },
{
    if p.len() < 60 {
        return None;
    }
    let accepted_session_id = array_at::<16>(p, 0);
    if all_zero(&accepted_session_id) {
        return None;
    }
    let accepted_epoch: u64 = read_be64(p, 16);
    let peer_epoch: u64 = read_be64(p, 24);
    let new_generation: u64 = read_be64(p, 32);
    if accepted_epoch == 0 || peer_epoch == 0 || new_generation == 0 {
        return None;
    }
    let new_resume_token = array_at::<16>(p, 40);
    if all_zero(&new_resume_token) {
        return None;
    }
    let count: u16 = read_be16(p, 56);
    let status_flags: u16 = read_be16(p, 58);
    if p.len() != 60 + 36 * count as usize {
        return None;
    }
    match read_summaries(p, 60, count as usize) {
        None => None,
        Some(replay_summaries) => {
            proof {
                lemma_summaries_at_len(p@, 60, count as nat);
            }
            Some(
                ResumeOkParsed {
                    accepted_session_id,
                    accepted_epoch,
                    peer_epoch,
                    new_generation,
                    new_resume_token,
                    replay_stream_count: count,
                    status_flags,
                    replay_summaries,
                },
            )
        },
    }
}

proof fn lemma_summaries_at_len(p: Seq<u8>, at: int, n: nat)
    ensures
        summaries_at(p, at, n) is Some ==> summaries_at(p, at, n)->0.len() == n,
    decreases n,
{
    if n > 0 {
        lemma_summaries_at_len(p, at, (n - 1) as nat);
    }
}

/// Generation and token of a RESUME_OK.
pub fn decode_resume_ok(p: &[u8]) -> (r: Option<(u64, [u8; 16])>)
    ensures
        match resume_ok_of(p@) {
            Some(v) => r is Some && (r->0).0 == v.new_generation && (r->0).1@ == v.new_resume_token,
            None => r is None,
        },
{
    match decode_resume_ok_full(p) {
        Some(parsed) => Some((parsed.new_generation, parsed.new_resume_token)),
        None => None,
    }
}

/// RESUME_REJECT: the reason.
pub fn encode_resume_reject(reason: u8) -> (r: Vec<u8>)
    ensures
        r@ == seq![reason],
{
    let mut p: Vec<u8> = Vec::new();
    p.push(reason);
    assert(p@ =~= seq![reason]);
    p
}

} // verus!
