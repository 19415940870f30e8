//! What a roster keeps in its directory: the facts, and the invites that have been used.
//!
//! `roster.facts` holds a magic, the fabric id, the list of signed facts and the BLAKE3 hash
//! of all that. `invites.consumed` is a log of records: the id of an invite, 16 bytes, and
//! when it was used, 8 bytes.
use vstd::prelude::*;
use vstd::string::*;

use crate::octets::{array_at, be64, be_value, bytes_eq, lemma_be_widths, push_be, push_bytes};
use crate::outside::blake3_of;
use crate::protocol::fact::{FabricId, FactKind};
use crate::protocol::fault_text;
use crate::protocol::signed::{fact_list_roundtrip, list_bytes, list_of, signed_ok, SignedView};
use crate::roster::error::{RosterError, RosterFault};
use crate::roster::state::{
    acceptable, inserted, judge, lemma_judged_sound, sound, RosterView, Verdict,
};
use crate::roster::store::{ids_of, lists};
use crate::text::{cat, cat3, chars_of, decimal, decimal_text, hex_chars, hex_str};

verus! {

/// Name of the file of facts.
pub const ROSTER_FILE_NAME: &'static str = "roster.facts";

/// Name of the log of used invites.
pub const CONSUMED_INVITES_FILE_NAME: &'static str = "invites.consumed";

/// First bytes of the file of facts, `DWEBRST1`.
pub const ROSTER_MAGIC: [u8; 8] = [68, 87, 69, 66, 82, 83, 84, 49];

/// Bytes of the file of facts before the list.
pub const ROSTER_HEADER_LEN: usize = 40;

/// Bytes of the shortest file of facts.
pub const ROSTER_MIN_LEN: usize = 76;

/// Bytes of a record of a used invite.
pub const CONSUMED_RECORD_LEN: usize = 24;

// ---- paths ------------------------------------------------------------------------

/// A file in a directory.
pub open spec fn joined(dir: Seq<char>, name: Seq<char>) -> Seq<char> {
    if dir.len() == 0 {
        name
    } else if dir.last() == '/' {
        dir + name
    } else {
        dir + "/"@ + name
    }
}

fn join_path(dir: &str, name: &str) -> (r: String)
    ensures
        r@ == joined(dir@, name@),
{
    let chars = chars_of(dir);
    let n: usize = chars.len();
    if n == 0 {
        name.to_owned()
    } else if chars[n - 1] == '/' {
        cat(dir, name)
    } else {
        cat3(dir, "/", name)
    }
}

/// Where the facts are stored.
pub fn roster_file_path(data_dir: &str) -> (r: String)
    ensures
        r@ == joined(data_dir@, ROSTER_FILE_NAME@),
{
    join_path(data_dir, ROSTER_FILE_NAME)
}

/// Where the used invites are stored.
pub fn consumed_invites_file_path(data_dir: &str) -> (r: String)
    ensures
        r@ == joined(data_dir@, CONSUMED_INVITES_FILE_NAME@),
{
    join_path(data_dir, CONSUMED_INVITES_FILE_NAME)
}

/// The short form of a fabric id for people: its first 8 bytes in hexadecimal.
pub fn fabric_id_short16(id: &FabricId) -> (r: String)
    ensures
        r@ == hex_chars(id@.subrange(0, 8)),
{
    hex_str(vstd::slice::slice_subrange(id.as_bytes(), 0, 8))
}

// ---- the file of facts ------------------------------------------------------------

/// The file of facts without its hash.
pub open spec fn roster_body(fabric_id: Seq<u8>, list: Seq<SignedView>) -> Seq<u8> {
    ROSTER_MAGIC@ + fabric_id + list_bytes(list)
}

/// The file of facts.
pub open spec fn roster_bytes(fabric_id: Seq<u8>, list: Seq<SignedView>) -> Seq<u8> {
    roster_body(fabric_id, list) + blake3_of(roster_body(fabric_id, list))
}

/// The fabric of a stored roster, from the head of its file.
pub open spec fn peeked(file: Option<Seq<u8>>, path: Seq<char>) -> Result<
    Option<Seq<u8>>,
    RosterFault,
> {
    match file {
        None => Ok(None),
        Some(b) => if b.len() < ROSTER_HEADER_LEN || b.subrange(0, 8) != ROSTER_MAGIC@ {
            Err(RosterFault::Corrupted { path, reason: "bad roster header"@ })
        } else {
            Ok(Some(b.subrange(8, 40)))
        },
    }
}

/// The fabric of a stored roster, from the head of its file, if there is a file.
pub fn peek_fabric_id(data_dir: &str, file: Option<&[u8]>) -> (r: Result<
    Option<FabricId>,
    RosterError,
>)
    ensures
        match peeked(
            match file {
                Some(b) => Some(b@),
                None => None,
            },
            joined(data_dir@, ROSTER_FILE_NAME@),
        ) {
            Ok(None) => r == Ok::<Option<FabricId>, RosterError>(None),
            Ok(Some(id)) => r is Ok && r->Ok_0 is Some && (r->Ok_0->0)@ == id,
            Err(e) => r is Err && r->Err_0@ == e,
        },
{
    match file {
        None => Ok(None),
        Some(b) => {
            if b.len() < ROSTER_HEADER_LEN || !bytes_eq(
                vstd::slice::slice_subrange(b, 0, 8),
                &ROSTER_MAGIC,
            ) {
                Err(
                    RosterError::Corrupted {
                        path: roster_file_path(data_dir),
                        reason: "bad roster header".to_owned(),
                    },
                )
            } else {
                Ok(Some(FabricId(array_at::<32>(b, 8))))
            }
        },
    }
}

/// How a verdict is shown.
pub open spec fn verdict_text(o: Verdict) -> Seq<char> {
    match o {
        Verdict::Inserted => "Inserted"@,
        Verdict::Duplicate => "Duplicate"@,
        Verdict::Quarantined(reason) => "Quarantined(\""@ + reason + "\")"@,
    }
}

/// The roster after stored facts were taken one after the other, or why one was not.
pub open spec fn replayed(v: RosterView, s: Seq<SignedView>) -> Result<RosterView, Seq<char>>
    decreases s.len(),
{
    if s.len() == 0 {
        Ok(v)
    } else {
        match replayed(v, s.drop_last()) {
            Err(e) => Err(e),
            Ok(w) => match judge(w, s.last()) {
                Verdict::Inserted => Ok(inserted(w, s.last())),
                other => Err("stored fact failed replay validation: "@ + verdict_text(other)),
            },
        }
    }
}

/// A roster without facts.
pub open spec fn empty_roster(data_dir: Seq<char>, fabric_id: Seq<u8>, consumed: Set<Seq<u8>>) -> RosterView {
    RosterView {
        data_dir,
        fabric_id,
        genesis_fact_id: None,
        root: None,
        facts: Map::empty(),
        consumed,
        quarantine_count: 0,
        samples: Seq::empty(),
    }
}

/// The facts of a file, after its head and its hash were checked.
pub open spec fn stored_facts(b: Seq<u8>, fabric_id: Seq<u8>, path: Seq<char>) -> Result<
    Seq<SignedView>,
    RosterFault,
> {
    let end = b.len() - 32;
    if b.len() < ROSTER_MIN_LEN {
        Err(
            RosterFault::Corrupted {
                path,
                reason: "file of "@ + decimal(b.len()) + " bytes shorter than minimum "@ + decimal(
                    76,
                ),
            },
        )
    } else if b.subrange(0, 8) != ROSTER_MAGIC@ {
        Err(RosterFault::Corrupted { path, reason: "bad magic"@ })
    } else if b.subrange(8, 40) != fabric_id {
        Err(
            RosterFault::DirFabricMismatch {
                path,
                stored: b.subrange(8, 40),
                requested: fabric_id,
            },
        )
    } else if blake3_of(b.subrange(0, end)) != b.subrange(end, b.len() as int) {
        Err(RosterFault::Corrupted { path, reason: "BLAKE3 checksum mismatch"@ })
    } else {
        match list_of(b.subrange(40, end)) {
            Err(e) => Err(
                RosterFault::Corrupted {
                    path,
                    reason: "fact dump failed to decode: "@ + fault_text(e),
                },
            ),
            Ok(s) => Ok(s),
        }
    }
}

/// The roster of a file of facts and a log of used invites.
pub open spec fn decoded(
    data_dir: Seq<char>,
    fabric_id: Seq<u8>,
    b: Seq<u8>,
    log: Option<Seq<u8>>,
) -> Result<RosterView, RosterFault> {
    let path = joined(data_dir, ROSTER_FILE_NAME@);
    match stored_facts(b, fabric_id, path) {
        Err(e) => Err(e),
        Ok(s) => match consumed_of(data_dir, log) {
            Err(e) => Err(e),
            Ok(ids) => match replayed(empty_roster(data_dir, fabric_id, ids), s) {
                Err(reason) => Err(RosterFault::Corrupted { path, reason }),
                Ok(v) => if v.facts.len() > 0 && v.genesis_fact_id is None {
                    Err(
                        RosterFault::Corrupted {
                            path,
                            reason: "facts present but no Genesis fact"@,
                        },
                    )
                } else {
                    Ok(v)
                },
            },
        },
    }
}

// ---- the log of used invites ------------------------------------------------------

/// The ids of the records of a log.
pub open spec fn log_ids(log: Seq<u8>) -> Seq<Seq<u8>> {
    Seq::new(log.len() / 24, |i: int| log.subrange(24 * i, 24 * i + 16))
}

/// The ids of the used invites, or why the log is damaged. Without a log none was used.
pub open spec fn consumed_of(data_dir: Seq<char>, log: Option<Seq<u8>>) -> Result<
    Set<Seq<u8>>,
    RosterFault,
> {
    match log {
        None => Ok(Set::empty()),
        Some(b) => if b.len() % 24 != 0 {
            Err(
                RosterFault::Corrupted {
                    path: joined(data_dir, CONSUMED_INVITES_FILE_NAME@),
                    reason: "consumed-invite log length "@ + decimal(b.len())
                        + " is not a multiple of "@ + decimal(24),
                },
            )
        } else {
            Ok(log_ids(b).to_set())
        },
    }
}

/// A record of a used invite.
pub open spec fn consumed_record(invite_id: Seq<u8>, now_ms: u64) -> Seq<u8> {
    invite_id + be64(now_ms)
}

/// A record that is appended to a log adds its invite and changes nothing else.
pub proof fn appended_invite_is_used(log: Seq<u8>, invite_id: Seq<u8>, now_ms: u64)
    requires
        log.len() % 24 == 0,
        invite_id.len() == 16,
    ensures
        log_ids(log + consumed_record(invite_id, now_ms)) == log_ids(log).push(invite_id),
        (log + consumed_record(invite_id, now_ms)).len() % 24 == 0,
        log_ids(log + consumed_record(invite_id, now_ms)).to_set() == log_ids(log).to_set().insert(
            invite_id,
        ),
{
    lemma_be_widths(now_ms);
    let all = log + consumed_record(invite_id, now_ms);
    let n = (log.len() / 24) as int;
    assert(all.len() == log.len() + 24);
    assert(log.len() == 24 * n);
    let a = log_ids(all);
    let b = log_ids(log).push(invite_id);
    assert(a.len() == b.len());
    assert forall|i: int| 0 <= i < a.len() implies a[i] == b[i] by {
        if i < n {
            assert(all.subrange(24 * i, 24 * i + 16) =~= log.subrange(24 * i, 24 * i + 16));
        } else {
            assert(all.subrange(24 * i, 24 * i + 16) =~= invite_id);
        }
    }
    assert(a =~= b);
    let s = log_ids(log);
    assert forall|x: Seq<u8>| a.to_set().contains(x) <==> s.to_set().insert(invite_id).contains(
        x,
    ) by {
        if a.contains(x) {
            let i = choose|i: int| 0 <= i < a.len() && a[i] == x;
            if i < n {
                assert(s[i] == x);
            }
        }
        if s.contains(x) {
            let i = choose|i: int| 0 <= i < s.len() && s[i] == x;
            assert(b[i] == x);
            assert(a.contains(x));
        }
        if x == invite_id {
            assert(b[n] == x);
            assert(a.contains(x));
        }
    }
    assert(a.to_set() =~= s.to_set().insert(invite_id));
}

/// The ids as a set.
pub open spec fn id_set(s: Seq<[u8; 16]>) -> Set<Seq<u8>> {
    Set::new(|x: Seq<u8>| exists|i: int| 0 <= i < s.len() && (#[trigger] s[i])@ == x)
}

/// Reads the log of used invites.
pub fn load_consumed_invites(data_dir: &str, log: Option<&[u8]>) -> (r: Result<
    Vec<[u8; 16]>,
    RosterError,
>)
    ensures
        match consumed_of(
            data_dir@,
            match log {
                Some(b) => Some(b@),
                None => None,
            },
        ) {
            Ok(ids) => r is Ok && id_set(r->Ok_0@) == ids,
            Err(e) => r is Err && r->Err_0@ == e,
        },
{
    let mut out: Vec<[u8; 16]> = Vec::new();
    match log {
        None => {
            assert(id_set(out@) =~= Set::<Seq<u8>>::empty());
            Ok(out)
        },
        Some(b) => {
            let len: usize = b.len();
            if len % CONSUMED_RECORD_LEN != 0 {
                return Err(
                    RosterError::Corrupted {
                        path: consumed_invites_file_path(data_dir),
                        reason: cat(
                            cat3(
                                "consumed-invite log length ",
                                decimal_text(len as u64).as_str(),
                                " is not a multiple of ",
                            ).as_str(),
                            decimal_text(24).as_str(),
                        ),
                    },
                );
            }
            let n: usize = len / CONSUMED_RECORD_LEN;
            let mut i: usize = 0;
            while i < n
                invariant
                    i <= n,
                    n == len / 24,
                    len == b@.len(),
                    len % 24 == 0,
                    out@.len() == i,
                    forall|k: int| 0 <= k < i ==> (#[trigger] out@[k])@ == log_ids(b@)[k],
                decreases n - i,
            {
                assert(24 * i + 24 <= len) by (nonlinear_arith)
                    requires
                        i < n,
                        n == len / 24,
                ;
                out.push(array_at::<16>(b, CONSUMED_RECORD_LEN * i));
                i = i + 1;
            }
            proof {
                let ids = log_ids(b@);
                assert forall|x: Seq<u8>| id_set(out@).contains(x) <==> ids.to_set().contains(x) by {
                    if id_set(out@).contains(x) {
                        let k = choose|k: int| 0 <= k < out@.len() && (#[trigger] out@[k])@ == x;
                        assert(ids[k] == x);
                    }
                    if ids.contains(x) {
                        let k = choose|k: int| 0 <= k < ids.len() && ids[k] == x;
                        assert(out@[k]@ == x);
                    }
                }
                assert(id_set(out@) =~= ids.to_set());
            }
            Ok(out)
        },
    }
}

/// A record of a used invite.
pub fn consumed_record_bytes(invite_id: &[u8; 16], now_ms: u64) -> (r: Vec<u8>)
    ensures
        r@ == consumed_record(invite_id@, now_ms),
{
    let mut out: Vec<u8> = Vec::new();
    push_bytes(&mut out, invite_id);
    push_be(&mut out, now_ms, 8);
    assert(out@ =~= consumed_record(invite_id@, now_ms));
    out
}

// ---- laws -------------------------------------------------------------------------

/// The first facts of a list of a sound roster are taken one after the other.
proof fn lemma_replay_front(v: RosterView, list: Seq<SignedView>, e: RosterView, n: int)
    requires
        sound(v),
        lists(v.facts, list),
        e == empty_roster(e.data_dir, v.fabric_id, e.consumed),
        0 <= n <= list.len(),
    ensures
        ({
            let r = replayed(e, list.subrange(0, n));
            &&& r is Ok
            &&& r->Ok_0 == (RosterView {
                genesis_fact_id: (r->Ok_0).genesis_fact_id,
                root: (r->Ok_0).root,
                facts: (r->Ok_0).facts,
                ..e
            })
            &&& sound(r->Ok_0)
            &&& forall|k: Seq<u8>| #[trigger]
                (r->Ok_0).facts.dom().contains(k) <==> ids_of(list).subrange(0, n).contains(k)
            &&& forall|k: Seq<u8>| #[trigger]
                (r->Ok_0).facts.dom().contains(k) ==> v.facts.dom().contains(k)
                    && (r->Ok_0).facts[k] == v.facts[k]
        }),
    decreases n,
{
    let ids = ids_of(list);
    if n == 0 {
        assert(list.subrange(0, 0).len() == 0);
    } else {
        lemma_replay_front(v, list, e, n - 1);
        let s = list.subrange(0, n);
        assert(s.drop_last() =~= list.subrange(0, n - 1));
        let w = replayed(e, list.subrange(0, n - 1))->Ok_0;
        let x = s.last();
        assert(x == list[n - 1]);
        let id = ids[n - 1];
        assert(v.facts.dom().contains(ids_of(list)[n - 1]));
        assert(acceptable(v.fabric_id, x));
        assert(!w.facts.dom().contains(id)) by {
            let f = ids.subrange(0, n - 1);
            if f.contains(id) {
                let j = choose|j: int| 0 <= j < f.len() && f[j] == id;
                assert(ids[j] == id);
                assert(be_value(ids[j]) < be_value(ids[n - 1]));
            }
        }
        if x.fact.kind == FactKind::Genesis && w.genesis_fact_id is Some {
            let g = w.genesis_fact_id->0;
            assert(w.facts.dom().contains(g));
            assert(v.facts.dom().contains(g) && v.facts[g].fact.kind == FactKind::Genesis);
        }
        assert(judge(w, x) is Inserted);
        lemma_judged_sound(w, x);
        let r = inserted(w, x);
        assert forall|k: Seq<u8>| #[trigger] r.facts.dom().contains(k) <==> ids.subrange(
            0,
            n,
        ).contains(k) by {
            let f = ids.subrange(0, n - 1);
            let h = ids.subrange(0, n);
            if w.facts.dom().contains(k) {
                assert(f.contains(k));
                let j = choose|j: int| 0 <= j < f.len() && f[j] == k;
                assert(h[j] == k);
            }
            if h.contains(k) {
                let j = choose|j: int| 0 <= j < h.len() && h[j] == k;
                if j < n - 1 {
                    assert(f[j] == k);
                    assert(f.contains(k));
                    assert(w.facts.dom().contains(k));
                }
            }
            assert(h[n - 1] == id);
        }
    }
}

/// A roster is read back as it was stored, with the used invites of the log: the same facts
/// and the same root.
pub proof fn stored_roster_is_read_back(
    v: RosterView,
    list: Seq<SignedView>,
    data_dir: Seq<char>,
    log: Option<Seq<u8>>,
)
    requires
        sound(v),
        v.fabric_id.len() == 32,
        lists(v.facts, list),
        forall|k: int| 0 <= k < list.len() ==> signed_ok(#[trigger] list[k]),
        list.len() <= u32::MAX,
        roster_bytes(v.fabric_id, list).len() == roster_body(v.fabric_id, list).len() + 32,
        roster_bytes(v.fabric_id, list).len() <= usize::MAX,
        v.facts.len() > 0 ==> v.genesis_fact_id is Some,
        consumed_of(data_dir, log) is Ok,
    ensures
        decoded(data_dir, v.fabric_id, roster_bytes(v.fabric_id, list), log) == Ok::<
            RosterView,
            RosterFault,
        >(
            RosterView {
                data_dir,
                fabric_id: v.fabric_id,
                genesis_fact_id: v.genesis_fact_id,
                root: v.root,
                facts: v.facts,
                consumed: consumed_of(data_dir, log)->Ok_0,
                quarantine_count: 0,
                samples: Seq::empty(),
            },
        ),
{
    let body = roster_body(v.fabric_id, list);
    let b = roster_bytes(v.fabric_id, list);
    let end = b.len() - 32;
    assert(ROSTER_MAGIC@.len() == 8);
    assert(b.subrange(0, end) =~= body);
    assert(b.subrange(end, b.len() as int) =~= blake3_of(body));
    assert(b.subrange(0, 8) =~= ROSTER_MAGIC@);
    assert(b.subrange(8, 40) =~= v.fabric_id);
    assert(b.subrange(40, end) =~= list_bytes(list) + Seq::<u8>::empty());
    fact_list_roundtrip(list, Seq::empty());
    crate::octets::lemma_be_widths((list.len() % 0x1_0000_0000) as u64);
    let ids = consumed_of(data_dir, log)->Ok_0;
    let e = empty_roster(data_dir, v.fabric_id, ids);
    lemma_replay_front(v, list, e, list.len() as int);
    assert(list.subrange(0, list.len() as int) =~= list);
    let r = replayed(e, list)->Ok_0;
    let all = ids_of(list);
    assert(all.subrange(0, list.len() as int) =~= all);
    assert(r.facts =~= v.facts) by {
        assert forall|k: Seq<u8>| v.facts.dom().contains(k) <==> r.facts.dom().contains(k) by {
            if v.facts.dom().contains(k) {
                assert(all.contains(k));
            }
        }
    }
    match v.genesis_fact_id {
        Some(g) => {
            assert(r.facts.dom().contains(g));
        },
        None => {
            if r.genesis_fact_id is Some {
                assert(r.facts.dom().contains(r.genesis_fact_id->0));
            }
        },
    }
}

/// The fabric of a stored roster is seen from the head of its file.
pub proof fn stored_fabric_is_seen(fabric_id: Seq<u8>, list: Seq<SignedView>, path: Seq<char>)
    requires
        fabric_id.len() == 32,
    ensures
        peeked(Some(roster_bytes(fabric_id, list)), path) == Ok::<Option<Seq<u8>>, RosterFault>(
            Some(fabric_id),
        ),
{
    let b = roster_bytes(fabric_id, list);
    assert(ROSTER_MAGIC@.len() == 8);
    assert(b.subrange(0, 8) =~= ROSTER_MAGIC@);
    assert(b.subrange(8, 40) =~= fabric_id);
}

} // verus!
