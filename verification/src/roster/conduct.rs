//! What a roster does, told by the facts it holds and the results it gives: who is a member
//! and under which name, which facts it takes, what the root's operations put into it, and
//! what it reads from a disk.
use vstd::prelude::*;
use vstd::string::*;
use vstd::utf8::encode_utf8;

use crate::octets::{be64, be_value};
use crate::outside::{blake3_of, ed25519_accepts, ed25519_public, ed25519_signature};
use crate::protocol::fact::{fact_bytes, fact_id_of, FactKind, FactView};
use crate::protocol::signed::{list_of, SignedView};
use crate::roster::error::RosterFault;
use crate::roster::files::{consumed_of, decoded, log_ids, replayed, stored_facts};
use crate::roster::invites::{consuming, informed};
use crate::roster::projection::{
    active_revoke, admits, covers, earlier, granted, is_projection, live_grant, member_at,
    member_by, names, naming_join, own_name, revoked, root_member, MemberView,
};
use crate::roster::state::{judge, judged, members_at, sound, RosterView};
use crate::roster::{
    attached, founded, grant_fact, join_fact, opened, own_fact, revoking, root_fact, RevokeTarget,
};

verus! {

// ---- who is a member --------------------------------------------------------------

/// The fact has not expired.
pub open spec fn in_force(f: FactView, now_ms: u64) -> bool {
    f.expires_at_ms is None || now_ms < f.expires_at_ms->0
}

/// The root has revoked the grant `g`, by its id or with all grants of its subject, and the
/// revocation has not expired.
pub open spec fn taken_back(
    fs: Map<Seq<u8>, SignedView>,
    root: Seq<u8>,
    now_ms: u64,
    g: Seq<u8>,
) -> bool {
    exists|r: Seq<u8>| #[trigger]
        fs.dom().contains(r) && {
            let f = fs[r].fact;
            &&& f.kind == FactKind::Revoke
            &&& f.issuer == root
            &&& in_force(f, now_ms)
            &&& f.target_fact_id == Some(g) || (f.target_fact_id is None && f.subject
                == fs[g].fact.subject)
        }
}

/// `g` is a grant of the root to `e` that has not expired and was not taken back.
pub open spec fn holds_for(
    fs: Map<Seq<u8>, SignedView>,
    root: Seq<u8>,
    now_ms: u64,
    g: Seq<u8>,
    e: Seq<u8>,
) -> bool {
    &&& fs.dom().contains(g)
    &&& fs[g].fact.kind == FactKind::Grant
    &&& fs[g].fact.issuer == root
    &&& fs[g].fact.subject == e
    &&& in_force(fs[g].fact, now_ms)
    &&& !taken_back(fs, root, now_ms, g)
}

proof fn lemma_taken_back(fs: Map<Seq<u8>, SignedView>, root: Seq<u8>, now_ms: u64, g: Seq<u8>)
    ensures
        taken_back(fs, root, now_ms, g) <==> revoked(fs, root, now_ms, g),
{
    if taken_back(fs, root, now_ms, g) {
        let r = choose|r: Seq<u8>| #[trigger]
            fs.dom().contains(r) && {
                let f = fs[r].fact;
                &&& f.kind == FactKind::Revoke
                &&& f.issuer == root
                &&& in_force(f, now_ms)
                &&& f.target_fact_id == Some(g) || (f.target_fact_id is None && f.subject
                    == fs[g].fact.subject)
            };
        assert(fs.dom().contains(r) && active_revoke(fs[r].fact, root, now_ms) && covers(
            fs[r].fact,
            g,
            fs[g].fact,
        ));
    }
    if revoked(fs, root, now_ms, g) {
        let r = choose|r: Seq<u8>| #[trigger]
            fs.dom().contains(r) && active_revoke(fs[r].fact, root, now_ms) && covers(
                fs[r].fact,
                g,
                fs[g].fact,
            );
        assert(fs.dom().contains(r) && in_force(fs[r].fact, now_ms));
    }
}

proof fn lemma_holds_for(fs: Map<Seq<u8>, SignedView>, root: Seq<u8>, now_ms: u64, g: Seq<u8>)
    ensures
        live_grant(fs, root, now_ms, g) <==> holds_for(fs, root, now_ms, g, fs[g].fact.subject)
            && fs[g].fact.subject != root,
{
    lemma_taken_back(fs, root, now_ms, g);
}

/// An endpoint is a member exactly if it is the root, or if the root granted it membership
/// by a grant that has not expired and that the root has not taken back.
pub proof fn members_are_those_the_root_granted(
    fs: Map<Seq<u8>, SignedView>,
    root: Seq<u8>,
    now_ms: u64,
    e: Seq<u8>,
)
    ensures
        member_at(fs, root, now_ms, e) <==> e == root || exists|g: Seq<u8>| #[trigger]
            holds_for(fs, root, now_ms, g, e),
{
    if e != root {
        if member_at(fs, root, now_ms, e) {
            let g = choose|g: Seq<u8>| #[trigger]
                live_grant(fs, root, now_ms, g) && fs[g].fact.subject == e;
            lemma_holds_for(fs, root, now_ms, g);
            assert(holds_for(fs, root, now_ms, g, e));
        }
        if exists|g: Seq<u8>| #[trigger] holds_for(fs, root, now_ms, g, e) {
            let g = choose|g: Seq<u8>| #[trigger] holds_for(fs, root, now_ms, g, e);
            lemma_holds_for(fs, root, now_ms, g);
            assert(live_grant(fs, root, now_ms, g));
        }
    }
}

/// A fact is older than another: by the time of issue, then by the id.
pub open spec fn older(fs: Map<Seq<u8>, SignedView>, a: Seq<u8>, b: Seq<u8>) -> bool {
    fs[a].fact.issued_at_ms < fs[b].fact.issued_at_ms || (fs[a].fact.issued_at_ms
        == fs[b].fact.issued_at_ms && be_value(a) < be_value(b))
}

/// The fact `j` is one in which `e` gives itself a name, and it has not expired.
pub open spec fn self_named(fs: Map<Seq<u8>, SignedView>, now_ms: u64, j: Seq<u8>, e: Seq<u8>) -> bool {
    &&& fs.dom().contains(j)
    &&& fs[j].fact.kind == FactKind::Join
    &&& fs[j].fact.issuer == e
    &&& fs[j].fact.subject == e
    &&& fs[j].fact.display_name is Some
    &&& in_force(fs[j].fact, now_ms)
}

/// A member is listed since its oldest grant that holds, and the root since its genesis.
/// The list is in the order of the endpoints.
pub proof fn members_are_listed_since_their_first_grant(
    fs: Map<Seq<u8>, SignedView>,
    root: Seq<u8>,
    genesis_ms: u64,
    now_ms: u64,
    ms: Seq<MemberView>,
    i: int,
    g: Seq<u8>,
)
    requires
        is_projection(fs, root, genesis_ms, now_ms, ms),
        0 <= i < ms.len(),
    ensures
        ms[i].endpoint_id == root ==> ms[i].since_ms == genesis_ms,
        ms[i].endpoint_id != root && holds_for(fs, root, now_ms, g, ms[i].endpoint_id) && (forall|
            h: Seq<u8>,
        | #[trigger]
            holds_for(fs, root, now_ms, h, ms[i].endpoint_id) && h != g ==> older(fs, g, h))
            ==> ms[i].since_ms == fs[g].fact.issued_at_ms,
        i + 1 < ms.len() ==> be_value(ms[i].endpoint_id) < be_value(ms[i + 1].endpoint_id),
{
    let m = ms[i];
    if m != root_member(fs, root, genesis_ms, now_ms) {
        reveal(granted);
        let k = choose|k: Seq<u8>|
            #[trigger] admits(fs, root, now_ms, m.endpoint_id, k) && m == member_by(fs, now_ms, k);
        lemma_holds_for(fs, root, now_ms, k);
        if holds_for(fs, root, now_ms, g, m.endpoint_id) {
            lemma_holds_for(fs, root, now_ms, g);
            if k != g && (forall|h: Seq<u8>| #[trigger]
                holds_for(fs, root, now_ms, h, m.endpoint_id) && h != g ==> older(fs, g, h)) {
                assert(holds_for(fs, root, now_ms, k, m.endpoint_id));
                assert(live_grant(fs, root, now_ms, g));
                assert(earlier(fs, k, g));
                assert(older(fs, g, k));
            }
        }
    }
    if i + 1 < ms.len() {
        assert(crate::identity::endpoint_before(ms[i].endpoint_id, ms[i + 1].endpoint_id));
    }
}

/// A member is listed under the name that it gave itself last; where it gave itself none,
/// under the name of its oldest grant that holds, and the root under none.
pub proof fn members_are_listed_under_their_last_name(
    fs: Map<Seq<u8>, SignedView>,
    root: Seq<u8>,
    genesis_ms: u64,
    now_ms: u64,
    ms: Seq<MemberView>,
    i: int,
    j: Seq<u8>,
    g: Seq<u8>,
)
    requires
        is_projection(fs, root, genesis_ms, now_ms, ms),
        0 <= i < ms.len(),
    ensures
        self_named(fs, now_ms, j, ms[i].endpoint_id) && (forall|k: Seq<u8>| #[trigger]
            self_named(fs, now_ms, k, ms[i].endpoint_id) && k != j ==> older(fs, k, j))
            ==> ms[i].display_name == fs[j].fact.display_name,
        (forall|k: Seq<u8>| !#[trigger] self_named(fs, now_ms, k, ms[i].endpoint_id))
            && ms[i].endpoint_id == root ==> ms[i].display_name is None,
        (forall|k: Seq<u8>| !#[trigger] self_named(fs, now_ms, k, ms[i].endpoint_id))
            && ms[i].endpoint_id != root && holds_for(fs, root, now_ms, g, ms[i].endpoint_id) && (
        forall|h: Seq<u8>| #[trigger]
            holds_for(fs, root, now_ms, h, ms[i].endpoint_id) && h != g ==> older(fs, g, h))
            ==> ms[i].display_name == fs[g].fact.display_name,
{
    let m = ms[i];
    let e = m.endpoint_id;
    assert forall|k: Seq<u8>| fs.dom().contains(k) implies (#[trigger] self_named(
        fs,
        now_ms,
        k,
        e,
    ) <==> naming_join(fs[k].fact, now_ms, e)) by {
    }
    if self_named(fs, now_ms, j, e) && (forall|k: Seq<u8>| #[trigger]
        self_named(fs, now_ms, k, e) && k != j ==> older(fs, k, j)) {
        assert forall|k: Seq<u8>| #[trigger]
            fs.dom().contains(k) && naming_join(fs[k].fact, now_ms, e) && k != j implies earlier(
            fs,
            k,
            j,
        ) by {
            assert(self_named(fs, now_ms, k, e));
        }
        assert(names(fs, now_ms, e, j));
        let k = choose|k: Seq<u8>| names(fs, now_ms, e, k);
        if k != j {
            assert(fs.dom().contains(k) && fs.dom().contains(j));
            assert(earlier(fs, j, k) && earlier(fs, k, j));
        }
        assert(own_name(fs, now_ms, e) == fs[j].fact.display_name);
    }
    if forall|k: Seq<u8>| !#[trigger] self_named(fs, now_ms, k, e) {
        if exists|k: Seq<u8>| names(fs, now_ms, e, k) {
            let k = choose|k: Seq<u8>| names(fs, now_ms, e, k);
            assert(self_named(fs, now_ms, k, e));
        }
        assert(own_name(fs, now_ms, e) is None);
    }
    if m != root_member(fs, root, genesis_ms, now_ms) {
        reveal(granted);
        let k = choose|k: Seq<u8>|
            #[trigger] admits(fs, root, now_ms, e, k) && m == member_by(fs, now_ms, k);
        lemma_holds_for(fs, root, now_ms, k);
        if holds_for(fs, root, now_ms, g, e) {
            lemma_holds_for(fs, root, now_ms, g);
            if k != g && (forall|h: Seq<u8>| #[trigger]
                holds_for(fs, root, now_ms, h, e) && h != g ==> older(fs, g, h)) {
                assert(holds_for(fs, root, now_ms, k, e));
                assert(live_grant(fs, root, now_ms, g));
                assert(earlier(fs, k, g));
                assert(older(fs, g, k));
            }
        }
    }
}

// ---- which facts are taken --------------------------------------------------------

/// A fact that a roster can hold: of its fabric, with a name of at most 512 bytes, signed by
/// its issuer over its bytes, and with the fields of its kind. A genesis fact is about its
/// issuer and has no name, end or target; only a revocation has a target.
pub open spec fn genuine(fabric_id: Seq<u8>, s: SignedView) -> bool {
    let f = s.fact;
    &&& f.fabric_id == fabric_id
    &&& f.display_name is Some ==> encode_utf8(f.display_name->0).len() <= 512
    &&& ed25519_accepts(f.issuer, fact_bytes(f), s.signature)
    &&& f.kind == FactKind::Genesis ==> f.issuer == f.subject && f.display_name is None
        && f.expires_at_ms is None
    &&& f.kind != FactKind::Revoke ==> f.target_fact_id is None
}

/// A fact is taken exactly if it is genuine, is not there yet, and is not a second genesis
/// fact. It then stands under its id, beside all that was there, and the first genesis fact
/// makes its issuer the root. A fact that is there already is a duplicate, and anything else
/// is put aside; neither changes a fact.
pub proof fn genuine_facts_are_taken(v: RosterView, s: SignedView)
    requires
        sound(v),
    ensures
        ({
            let id = fact_id_of(s.fact);
            let w = judged(v, s);
            let second = s.fact.kind == FactKind::Genesis && v.genesis_fact_id is Some
                && v.genesis_fact_id != Some(id);
            &&& judge(v, s) is Inserted <==> genuine(v.fabric_id, s) && !v.facts.dom().contains(id)
                && !second
            &&& judge(v, s) is Duplicate <==> genuine(v.fabric_id, s) && v.facts.dom().contains(id)
                && v.facts[id] == s
            &&& judge(v, s) is Inserted ==> {
                &&& w.facts == v.facts.insert(id, s)
                &&& s.fact.kind == FactKind::Genesis ==> w.root == Some(s.fact.issuer)
                    && w.genesis_fact_id == Some(id)
                &&& s.fact.kind != FactKind::Genesis ==> w.root == v.root && w.genesis_fact_id
                    == v.genesis_fact_id
            }
            &&& !(judge(v, s) is Inserted) ==> w == v
            &&& w.fabric_id == v.fabric_id && w.consumed == v.consumed && w.data_dir == v.data_dir
        }),
{
    let id = fact_id_of(s.fact);
    if v.facts.dom().contains(id) && v.facts[id] == s && s.fact.kind == FactKind::Genesis {
        assert(v.genesis_fact_id == Some(id));
    }
}

// ---- what the operations put in ---------------------------------------------------

/// A grant says what was asked: whom it is for, under which name, and until when. Only the
/// root can grant. The fact is signed by the root, stands in the roster, and makes nobody a
/// member from its end on.
pub proof fn grants_say_what_was_asked(
    v: RosterView,
    seed: Seq<u8>,
    subject: Seq<u8>,
    display_name: Option<Seq<char>>,
    expires_at_ms: Option<u64>,
    issued_ms: u64,
    now_ms: u64,
)
    requires
        sound(v),
    ensures
        ({
            let root = ed25519_public(seed);
            let r = root_fact(
                v,
                seed,
                grant_fact(v.fabric_id, root, subject, display_name, expires_at_ms, issued_ms),
            );
            &&& v.root != Some(root) ==> r is Err && r->Err_0 is NotRoot
            &&& r is Ok ==> {
                let s = r->Ok_0;
                let w = judged(v, s);
                &&& s.fact == FactView {
                    kind: FactKind::Grant,
                    fabric_id: v.fabric_id,
                    issuer: root,
                    subject,
                    display_name,
                    issued_at_ms: issued_ms,
                    expires_at_ms,
                    target_fact_id: None,
                }
                &&& s.signature == ed25519_signature(seed, fact_bytes(s.fact))
                &&& w.facts == v.facts.insert(fact_id_of(s.fact), s)
                &&& expires_at_ms is Some && now_ms >= expires_at_ms->0 ==> !holds_for(
                    w.facts,
                    root,
                    now_ms,
                    fact_id_of(s.fact),
                    subject,
                )
            }
        }),
{
    let root = ed25519_public(seed);
    let f = grant_fact(v.fabric_id, root, subject, display_name, expires_at_ms, issued_ms);
    let r = root_fact(v, seed, f);
    if r is Ok {
        lemma_stored(v, r->Ok_0);
    }
}

proof fn lemma_stored(v: RosterView, s: SignedView)
    requires
        sound(v),
        !(judge(v, s) is Quarantined),
    ensures
        judged(v, s).facts == v.facts.insert(fact_id_of(s.fact), s),
{
    let id = fact_id_of(s.fact);
    if judge(v, s) is Duplicate {
        assert(v.facts.insert(id, s) =~= v.facts);
    }
}

/// A revocation says what was asked: it names the grant that it ends and its subject, or all
/// grants of a subject, and has no end of its own. Only the root can revoke, and only a
/// grant that is there.
pub proof fn revocations_say_what_was_asked(
    v: RosterView,
    seed: Seq<u8>,
    target: RevokeTarget,
    issued_ms: u64,
)
    requires
        sound(v),
    ensures
        ({
            let root = ed25519_public(seed);
            let r = revoking(v, seed, target, issued_ms);
            &&& match target {
                RevokeTarget::Grant(id) => !v.facts.dom().contains(id@)
                    || v.facts[id@].fact.kind != FactKind::Grant ==> r is Err
                    && r->Err_0 is InvalidRevokeTarget,
                RevokeTarget::AllGrantsOf(_) => true,
            }
            &&& v.root != Some(root) ==> r is Err
            &&& r is Ok ==> {
                let s = r->Ok_0;
                &&& s.fact == FactView {
                    kind: FactKind::Revoke,
                    fabric_id: v.fabric_id,
                    issuer: root,
                    subject: match target {
                        RevokeTarget::Grant(id) => v.facts[id@].fact.subject,
                        RevokeTarget::AllGrantsOf(e) => e@,
                    },
                    display_name: None,
                    issued_at_ms: issued_ms,
                    expires_at_ms: None,
                    target_fact_id: match target {
                        RevokeTarget::Grant(id) => Some(id@),
                        RevokeTarget::AllGrantsOf(_) => None,
                    },
                }
                &&& s.signature == ed25519_signature(seed, fact_bytes(s.fact))
                &&& judged(v, s).facts == v.facts.insert(fact_id_of(s.fact), s)
            }
        }),
{
    let r = revoking(v, seed, target, issued_ms);
    if r is Ok {
        lemma_stored(v, r->Ok_0);
    }
}

/// A name that this node gives itself says just that, without an end, and anyone can give
/// itself one.
pub proof fn names_say_what_was_asked(
    v: RosterView,
    seed: Seq<u8>,
    display_name: Option<Seq<char>>,
    issued_ms: u64,
    label: Seq<char>,
)
    requires
        sound(v),
    ensures
        ({
            let me = ed25519_public(seed);
            let f = FactView {
                kind: FactKind::Join,
                fabric_id: v.fabric_id,
                issuer: me,
                subject: me,
                display_name,
                issued_at_ms: issued_ms,
                expires_at_ms: None,
                target_fact_id: None,
            };
            let r = own_fact(v, seed, join_fact(v.fabric_id, me, display_name, issued_ms), label);
            &&& r is Ok ==> {
                let s = r->Ok_0;
                &&& s.fact == f
                &&& s.signature == ed25519_signature(seed, fact_bytes(f))
                &&& judged(v, s).facts == v.facts.insert(fact_id_of(f), s)
            }
            &&& display_name is Some && encode_utf8(display_name->0).len() > 512 ==> r is Err
        }),
{
    let me = ed25519_public(seed);
    let r = own_fact(v, seed, join_fact(v.fabric_id, me, display_name, issued_ms), label);
    if r is Ok {
        lemma_stored(v, r->Ok_0);
    }
}

/// A new fabric has its founder as the root, and one fact: the genesis that says so.
pub proof fn founders_are_roots(
    seed: Seq<u8>,
    data_dir: Seq<char>,
    fabric_id: Seq<u8>,
    log: Option<Seq<u8>>,
    now_ms: u64,
)
    requires
        founded(seed, data_dir, fabric_id, log, now_ms) is Ok,
    ensures
        ({
            let v = founded(seed, data_dir, fabric_id, log, now_ms)->Ok_0;
            let me = ed25519_public(seed);
            let f = FactView {
                kind: FactKind::Genesis,
                fabric_id,
                issuer: me,
                subject: me,
                display_name: None,
                issued_at_ms: now_ms,
                expires_at_ms: None,
                target_fact_id: None,
            };
            &&& v.root == Some(me)
            &&& v.fabric_id == fabric_id
            &&& v.data_dir == data_dir
            &&& v.genesis_fact_id == Some(fact_id_of(f))
            &&& v.facts == Map::<Seq<u8>, SignedView>::empty().insert(
                fact_id_of(f),
                SignedView { fact: f, signature: ed25519_signature(seed, fact_bytes(f)) },
            )
            &&& v.quarantine_count == 0
            &&& consumed_of(data_dir, log) == Ok::<Set<Seq<u8>>, RosterFault>(v.consumed)
        }),
{
}

// ---- what is read from a disk -----------------------------------------------------

/// A stored roster is taken only as it was written: behind the magic and the id of the
/// fabric stands a list of facts, and behind that the hash of everything before. All its
/// facts are genuine, and there is a genesis fact among them if there is any.
pub proof fn only_whole_files_are_read(
    data_dir: Seq<char>,
    fabric_id: Seq<u8>,
    b: Seq<u8>,
    log: Option<Seq<u8>>,
)
    requires
        decoded(data_dir, fabric_id, b, log) is Ok,
    ensures
        ({
            let v = decoded(data_dir, fabric_id, b, log)->Ok_0;
            let end = b.len() - 32;
            &&& b.len() >= 76
            &&& b.subrange(8, 40) == fabric_id
            &&& b.subrange(end, b.len() as int) == blake3_of(b.subrange(0, end))
            &&& list_of(b.subrange(40, end)) is Ok
            &&& v.facts.len() > 0 ==> v.genesis_fact_id is Some
            &&& v.fabric_id == fabric_id
            &&& consumed_of(data_dir, log) == Ok::<Set<Seq<u8>>, RosterFault>(v.consumed)
            &&& forall|id: Seq<u8>| #[trigger]
                v.facts.dom().contains(id) ==> genuine(fabric_id, v.facts[id])
        }),
{
    let path = crate::roster::files::joined(data_dir, crate::roster::files::ROSTER_FILE_NAME@);
    let s = stored_facts(b, fabric_id, path)->Ok_0;
    let e = crate::roster::files::empty_roster(
        data_dir,
        fabric_id,
        consumed_of(data_dir, log)->Ok_0,
    );
    assert(sound(e));
    lemma_replayed_sound(e, s);
    let v = decoded(data_dir, fabric_id, b, log)->Ok_0;
    assert forall|id: Seq<u8>| #[trigger] v.facts.dom().contains(id) implies genuine(
        fabric_id,
        v.facts[id],
    ) by {
        assert(crate::roster::state::acceptable(fabric_id, v.facts[id]));
    }
}

proof fn lemma_replayed_sound(v: RosterView, s: Seq<SignedView>)
    requires
        sound(v),
        replayed(v, s) is Ok,
    ensures
        sound(replayed(v, s)->Ok_0),
        (replayed(v, s)->Ok_0).fabric_id == v.fabric_id,
        (replayed(v, s)->Ok_0).consumed == v.consumed,
    decreases s.len(),
{
    if s.len() > 0 {
        lemma_replayed_sound(v, s.drop_last());
        let w = replayed(v, s.drop_last())->Ok_0;
        crate::roster::state::lemma_judged_sound(w, s.last());
    }
}

/// Where there is no file, opening fails, and attaching begins without facts or a root;
/// where there is one, both read it.
pub proof fn attaching_begins_where_nothing_is_stored(
    data_dir: Seq<char>,
    fabric_id: Seq<u8>,
    file: Option<Seq<u8>>,
    log: Option<Seq<u8>>,
)
    ensures
        file is None ==> opened(data_dir, fabric_id, file, log) is Err && opened(
            data_dir,
            fabric_id,
            file,
            log,
        )->Err_0 is NotFound,
        file is None && consumed_of(data_dir, log) is Ok ==> {
            let r = attached(data_dir, fabric_id, file, log);
            &&& r is Ok
            &&& (r->Ok_0).facts == Map::<Seq<u8>, SignedView>::empty()
            &&& (r->Ok_0).root is None && (r->Ok_0).genesis_fact_id is None
            &&& (r->Ok_0).fabric_id == fabric_id
            &&& (r->Ok_0).consumed == consumed_of(data_dir, log)->Ok_0
        },
        file is Some ==> attached(data_dir, fabric_id, file, log) == opened(
            data_dir,
            fabric_id,
            file,
            log,
        ) && opened(data_dir, fabric_id, file, log) == decoded(data_dir, fabric_id, file->0, log),
{
}

/// An invite may be used exactly if neither the roster nor the log knows that it was. Its
/// record is its id and the time; the log holds the ids of all records.
pub proof fn invites_may_be_used_once(
    v: RosterView,
    invite_id: Seq<u8>,
    log: Option<Seq<u8>>,
    now_ms: u64,
)
    ensures
        ({
            let r = consuming(v, invite_id, log, now_ms);
            let whole = log is None || (log->0).len() % 24 == 0;
            let logged = log is Some && exists|i: int|
                0 <= i < (log->0).len() / 24 && #[trigger] (log->0).subrange(24 * i, 24 * i + 16)
                    == invite_id;
            &&& v.consumed.contains(invite_id) ==> r == Ok::<Option<Seq<u8>>, RosterFault>(None)
            &&& !v.consumed.contains(invite_id) && !whole ==> r is Err
            &&& !v.consumed.contains(invite_id) && whole && logged ==> r == Ok::<
                Option<Seq<u8>>,
                RosterFault,
            >(None)
            &&& !v.consumed.contains(invite_id) && whole && !logged ==> r == Ok::<
                Option<Seq<u8>>,
                RosterFault,
            >(Some(invite_id + be64(now_ms)))
            &&& informed(v, invite_id, log).facts == v.facts
            &&& informed(v, invite_id, log).root == v.root
            &&& !v.consumed.contains(invite_id) && whole && log is Some ==> forall|i: int|
                0 <= i < (log->0).len() / 24 ==> informed(v, invite_id, log).consumed.contains(
                    #[trigger] (log->0).subrange(24 * i, 24 * i + 16),
                )
            &&& v.consumed.contains(invite_id) ==> informed(v, invite_id, log) == v
        }),
{
    if log is Some && (log->0).len() % 24 == 0 {
        let b = log->0;
        let ids = log_ids(b);
        assert forall|i: int| 0 <= i < b.len() / 24 implies ids.to_set().contains(
            #[trigger] b.subrange(24 * i, 24 * i + 16),
        ) by {
            assert(ids[i] == b.subrange(24 * i, 24 * i + 16));
        }
        if exists|i: int|
            0 <= i < b.len() / 24 && #[trigger] b.subrange(24 * i, 24 * i + 16) == invite_id {
            let i = choose|i: int|
                0 <= i < b.len() / 24 && #[trigger] b.subrange(24 * i, 24 * i + 16) == invite_id;
            assert(ids[i] == invite_id);
            assert(ids.to_set().contains(invite_id));
        }
        if ids.to_set().contains(invite_id) {
            let i = choose|i: int| 0 <= i < ids.len() && ids[i] == invite_id;
            assert(b.subrange(24 * i, 24 * i + 16) == invite_id);
        }
    }
}

/// The root of a roster is listed since its genesis; without a root nobody is listed.
pub proof fn roots_are_members_since_genesis(v: RosterView, now_ms: u64, ms: Seq<MemberView>, i: int)
    requires
        sound(v),
        members_at(v, now_ms, ms),
    ensures
        v.root is None ==> ms.len() == 0,
        v.root is Some && 0 <= i < ms.len() && Some(ms[i].endpoint_id) == v.root
            ==> ms[i].since_ms == v.facts[v.genesis_fact_id->0].fact.issued_at_ms,
        v.root is Some ==> exists|k: int|
            0 <= k < ms.len() && Some((#[trigger] ms[k]).endpoint_id) == v.root,
{
    if v.root is Some {
        let root = v.root->0;
        let gm = crate::roster::state::genesis_ms(v);
        let rm = root_member(v.facts, root, gm, now_ms);
        let k = choose|k: int| 0 <= k < ms.len() && ms[k] == rm;
        assert(ms[k].endpoint_id == root);
        if 0 <= i < ms.len() {
            members_are_listed_since_their_first_grant(v.facts, root, gm, now_ms, ms, i, root);
        }
    }
}

} // verus!
