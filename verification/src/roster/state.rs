//! The state of a roster and how a fact changes it.
use vstd::prelude::*;
use vstd::string::*;

use crate::protocol::fact::{fact_id_of, FactKind, FactView};
use crate::protocol::signed::{signature_fault, SignedView};
use crate::protocol::fault_text;
use crate::roster::projection::{is_projection, MemberView};
use crate::text::hex_chars;

verus! {

/// Reasons that are kept of facts that were put aside.
pub const QUARANTINE_SAMPLE_CAP: usize = 16;

/// What a roster holds.
#[verifier::ext_equal]
pub struct RosterView {
    /// Where the roster is stored.
    pub data_dir: Seq<char>,
    pub fabric_id: Seq<u8>,
    /// The id of the genesis fact.
    pub genesis_fact_id: Option<Seq<u8>>,
    /// The issuer of the genesis fact.
    pub root: Option<Seq<u8>>,
    /// The facts by id.
    pub facts: Map<Seq<u8>, SignedView>,
    /// Invites that have been used.
    pub consumed: Set<Seq<u8>>,
    /// How many facts were put aside.
    pub quarantine_count: u64,
    /// Why the first of them were.
    pub samples: Seq<Seq<char>>,
}

/// What becomes of a fact.
pub enum Verdict {
    Inserted,
    Duplicate,
    Quarantined(Seq<char>),
}

/// The fields of a fact that go with its kind.
pub open spec fn shape_ok(f: FactView) -> bool {
    match f.kind {
        FactKind::Genesis => f.issuer == f.subject && f.display_name is None && f.expires_at_ms is None
            && f.target_fact_id is None,
        FactKind::Grant => f.target_fact_id is None,
        FactKind::Join => f.target_fact_id is None,
        FactKind::Revoke => true,
    }
}

/// How errors show a kind.
pub open spec fn kind_label(k: FactKind) -> Seq<char> {
    match k {
        FactKind::Genesis => "Genesis"@,
        FactKind::Grant => "Grant"@,
        FactKind::Join => "Join"@,
        FactKind::Revoke => "Revoke"@,
    }
}

/// A fact could stand in a roster of the fabric: it is of the fabric, its signature holds
/// and its fields go with its kind.
pub open spec fn acceptable(fabric_id: Seq<u8>, s: SignedView) -> bool {
    s.fact.fabric_id == fabric_id && signature_fault(s) is None && shape_ok(s.fact)
}

/// What becomes of a fact in a roster.
pub open spec fn judge(v: RosterView, s: SignedView) -> Verdict {
    let id = fact_id_of(s.fact);
    if s.fact.fabric_id != v.fabric_id {
        Verdict::Quarantined(
            "cross-fabric fact rejected (fact fabric "@ + hex_chars(s.fact.fabric_id)
                + ", roster fabric "@ + hex_chars(v.fabric_id) + ")"@,
        )
    } else if signature_fault(s) is Some {
        Verdict::Quarantined("fact rejected: "@ + fault_text(signature_fault(s)->0))
    } else if !shape_ok(s.fact) {
        Verdict::Quarantined(
            "fact kind "@ + kind_label(s.fact.kind) + " rejected: disallowed field combination"@,
        )
    } else if s.fact.kind == FactKind::Genesis && v.genesis_fact_id is Some && v.genesis_fact_id->0
        != id {
        Verdict::Quarantined("conflicting Genesis fact for this fabric rejected"@)
    } else if v.facts.dom().contains(id) {
        if v.facts[id] == s {
            Verdict::Duplicate
        } else if s.fact.kind == FactKind::Genesis {
            Verdict::Quarantined("Genesis id collision (same id, different content)"@)
        } else {
            Verdict::Quarantined("fact id collision (same id, different content) quarantined"@)
        }
    } else {
        Verdict::Inserted
    }
}

/// The roster with a fact that it takes. The first genesis fact makes the root.
pub open spec fn inserted(v: RosterView, s: SignedView) -> RosterView {
    let id = fact_id_of(s.fact);
    let founds = s.fact.kind == FactKind::Genesis && v.genesis_fact_id is None;
    RosterView {
        genesis_fact_id: if founds {
            Some(id)
        } else {
            v.genesis_fact_id
        },
        root: if founds {
            Some(s.fact.issuer)
        } else {
            v.root
        },
        facts: v.facts.insert(id, s),
        ..v
    }
}

/// The roster after a fact was judged.
pub open spec fn judged(v: RosterView, s: SignedView) -> RosterView {
    match judge(v, s) {
        Verdict::Inserted => inserted(v, s),
        _ => v,
    }
}

/// The roster after a fact was put aside.
pub open spec fn quarantined(v: RosterView, reason: Seq<char>) -> RosterView {
    RosterView {
        quarantine_count: (v.quarantine_count + 1) as u64,
        samples: if v.samples.len() < QUARANTINE_SAMPLE_CAP {
            v.samples.push(reason)
        } else {
            v.samples
        },
        ..v
    }
}

/// The roster after a fact came in.
pub open spec fn merged_one(v: RosterView, s: SignedView) -> RosterView {
    match judge(v, s) {
        Verdict::Inserted => inserted(v, s),
        Verdict::Duplicate => v,
        Verdict::Quarantined(reason) => quarantined(v, reason),
    }
}

/// The roster after facts came in, one after the other.
pub open spec fn merged(v: RosterView, s: Seq<SignedView>) -> RosterView
    decreases s.len(),
{
    if s.len() == 0 {
        v
    } else {
        merged_one(merged(v, s.drop_last()), s.last())
    }
}

/// How many of the facts were taken, were there already, and were put aside.
pub open spec fn tally(v: RosterView, s: Seq<SignedView>) -> (nat, nat, nat)
    decreases s.len(),
{
    if s.len() == 0 {
        (0, 0, 0)
    } else {
        let (a, b, c) = tally(v, s.drop_last());
        match judge(merged(v, s.drop_last()), s.last()) {
            Verdict::Inserted => (a + 1, b, c),
            Verdict::Duplicate => (a, b + 1, c),
            Verdict::Quarantined(_) => (a, b, c + 1),
        }
    }
}

/// What holds of every roster: each fact is acceptable and stands under its id, and the
/// one genesis fact, if there is one, made the root.
pub open spec fn sound(v: RosterView) -> bool {
    &&& forall|id: Seq<u8>| #[trigger]
        v.facts.dom().contains(id) ==> acceptable(v.fabric_id, v.facts[id]) && id == fact_id_of(
            v.facts[id].fact,
        )
    &&& forall|id: Seq<u8>| #[trigger]
        v.facts.dom().contains(id) && v.facts[id].fact.kind == FactKind::Genesis
            ==> v.genesis_fact_id == Some(id)
    &&& match v.genesis_fact_id {
        Some(g) => {
            &&& v.facts.dom().contains(g)
            &&& v.facts[g].fact.kind == FactKind::Genesis
            &&& v.root == Some(v.facts[g].fact.issuer)
        },
        None => v.root is None,
    }
    &&& v.samples.len() <= QUARANTINE_SAMPLE_CAP
}

/// When the root was made.
pub open spec fn genesis_ms(v: RosterView) -> u64 {
    match v.genesis_fact_id {
        Some(g) => if v.facts.dom().contains(g) {
            v.facts[g].fact.issued_at_ms
        } else {
            0
        },
        None => 0,
    }
}

/// The members of a roster: none before there is a root.
pub open spec fn members_at(v: RosterView, now_ms: u64, ms: Seq<MemberView>) -> bool {
    match v.root {
        Some(root) => is_projection(v.facts, root, genesis_ms(v), now_ms, ms),
        None => ms.len() == 0,
    }
}

// ---- laws -------------------------------------------------------------------------

/// Facts that come in keep a roster sound.
pub proof fn merging_keeps_the_roster_sound(v: RosterView, s: Seq<SignedView>)
    requires
        sound(v),
    ensures
        sound(merged(v, s)),
    decreases s.len(),
{
    if s.len() > 0 {
        merging_keeps_the_roster_sound(v, s.drop_last());
        lemma_judged_sound(merged(v, s.drop_last()), s.last());
    }
}

pub proof fn lemma_judged_sound(v: RosterView, s: SignedView)
    requires
        sound(v),
    ensures
        sound(judged(v, s)),
        sound(merged_one(v, s)),
{
    if judge(v, s) is Inserted {
        let w = inserted(v, s);
        let id = fact_id_of(s.fact);
        assert forall|k: Seq<u8>| #[trigger] w.facts.dom().contains(k) implies acceptable(
            w.fabric_id,
            w.facts[k],
        ) && k == fact_id_of(w.facts[k].fact) && (w.facts[k].fact.kind == FactKind::Genesis
            ==> w.genesis_fact_id == Some(k)) by {
            if k != id {
                assert(v.facts.dom().contains(k));
            }
        }
    }
}

/// Once there is a root, it stays, and so does the genesis fact: a second genesis fact is
/// put aside.
pub proof fn root_never_changes(v: RosterView, s: Seq<SignedView>)
    requires
        sound(v),
        v.root is Some,
    ensures
        merged(v, s).root == v.root,
        merged(v, s).genesis_fact_id == v.genesis_fact_id,
    decreases s.len(),
{
    if s.len() > 0 {
        root_never_changes(v, s.drop_last());
    }
}

/// A different genesis fact is put aside.
pub proof fn conflicting_genesis_is_put_aside(v: RosterView, s: SignedView)
    requires
        sound(v),
        v.root is Some,
        s.fact.kind == FactKind::Genesis,
        !(v.facts.dom().contains(fact_id_of(s.fact)) && v.facts[fact_id_of(s.fact)] == s),
    ensures
        judge(v, s) is Quarantined,
        merged_one(v, s).facts == v.facts,
        merged_one(v, s).root == v.root,
{
    let id = fact_id_of(s.fact);
    let g = v.genesis_fact_id->0;
    assert(v.facts.dom().contains(g));
}

/// Facts only ever come to a roster: none is lost or changed.
pub proof fn facts_are_never_lost(v: RosterView, s: Seq<SignedView>, id: Seq<u8>)
    requires
        v.facts.dom().contains(id),
    ensures
        merged(v, s).facts.dom().contains(id),
        merged(v, s).facts[id] == v.facts[id],
    decreases s.len(),
{
    if s.len() > 0 {
        facts_are_never_lost(v, s.drop_last(), id);
    }
}

/// Only acceptable facts are taken.
pub proof fn only_acceptable_facts_are_taken(v: RosterView, s: SignedView)
    ensures
        judge(v, s) is Inserted ==> acceptable(v.fabric_id, s),
        !acceptable(v.fabric_id, s) ==> judge(v, s) is Quarantined,
{
}

/// Every fact that comes in is counted once.
pub proof fn tally_counts_every_fact(v: RosterView, s: Seq<SignedView>)
    ensures
        tally(v, s).0 + tally(v, s).1 + tally(v, s).2 == s.len(),
    decreases s.len(),
{
    if s.len() > 0 {
        tally_counts_every_fact(v, s.drop_last());
    }
}

/// Among the facts of the roster and of the list, acceptable facts with one id are one fact,
/// and there is one acceptable genesis fact.
pub open spec fn consistent(v: RosterView, s: Seq<SignedView>) -> bool {
    &&& forall|i: int, j: int|
        0 <= i < s.len() && 0 <= j < s.len() && acceptable(v.fabric_id, #[trigger] s[i])
            && acceptable(v.fabric_id, #[trigger] s[j]) && (fact_id_of(s[i].fact) == fact_id_of(
            s[j].fact,
        ) || (s[i].fact.kind == FactKind::Genesis && s[j].fact.kind == FactKind::Genesis))
            ==> s[i] == s[j]
    &&& forall|i: int|
        0 <= i < s.len() && acceptable(v.fabric_id, #[trigger] s[i]) ==> {
            let id = fact_id_of(s[i].fact);
            &&& v.facts.dom().contains(id) ==> v.facts[id] == s[i]
            &&& s[i].fact.kind == FactKind::Genesis && v.genesis_fact_id is Some
                ==> v.genesis_fact_id == Some(id)
        }
}

/// The list holds an acceptable fact with the id.
#[verifier::opaque]
pub open spec fn offers(fabric_id: Seq<u8>, s: Seq<SignedView>, id: Seq<u8>) -> bool {
    exists|i: int|
        0 <= i < s.len() && acceptable(fabric_id, #[trigger] s[i]) && fact_id_of(s[i].fact) == id
}

proof fn lemma_consistent_front(v: RosterView, s: Seq<SignedView>)
    requires
        consistent(v, s),
        s.len() > 0,
    ensures
        consistent(v, s.drop_last()),
{
    let t = s.drop_last();
    assert forall|i: int, j: int|
        0 <= i < t.len() && 0 <= j < t.len() && acceptable(v.fabric_id, #[trigger] t[i])
            && acceptable(v.fabric_id, #[trigger] t[j]) && (fact_id_of(t[i].fact) == fact_id_of(
            t[j].fact,
        ) || (t[i].fact.kind == FactKind::Genesis && t[j].fact.kind == FactKind::Genesis)) implies t[i]
        == t[j] by {
        assert(t[i] == s[i] && t[j] == s[j]);
    }
    assert forall|i: int| 0 <= i < t.len() && acceptable(v.fabric_id, #[trigger] t[i]) implies {
        let id = fact_id_of(t[i].fact);
        &&& v.facts.dom().contains(id) ==> v.facts[id] == t[i]
        &&& t[i].fact.kind == FactKind::Genesis && v.genesis_fact_id is Some
            ==> v.genesis_fact_id == Some(id)
    } by {
        assert(t[i] == s[i]);
    }
}

proof fn lemma_offers_last(fabric_id: Seq<u8>, s: Seq<SignedView>, id: Seq<u8>)
    requires
        s.len() > 0,
    ensures
        offers(fabric_id, s, id) <==> (offers(fabric_id, s.drop_last(), id) || (acceptable(
            fabric_id,
            s.last(),
        ) && fact_id_of(s.last().fact) == id)),
{
    reveal(offers);
    let t = s.drop_last();
    let n = s.len() - 1;
    if offers(fabric_id, s, id) {
        let i = choose|i: int|
            0 <= i < s.len() && acceptable(fabric_id, #[trigger] s[i]) && fact_id_of(s[i].fact)
                == id;
        if i < n {
            assert(acceptable(fabric_id, t[i]));
        }
    }
    if offers(fabric_id, t, id) {
        let i = choose|i: int|
            0 <= i < t.len() && acceptable(fabric_id, #[trigger] t[i]) && fact_id_of(t[i].fact)
                == id;
        assert(acceptable(fabric_id, s[i]));
    }
    if acceptable(fabric_id, s.last()) && fact_id_of(s.last().fact) == id {
        assert(acceptable(fabric_id, s[n]));
    }
}

/// A fact of the roster so far that has the id of a further one, or is a genesis fact like
/// it, is that fact.
proof fn lemma_union_same(v: RosterView, s: Seq<SignedView>, w: RosterView, k: Seq<u8>)
    requires
        sound(v),
        consistent(v, s),
        s.len() > 0,
        acceptable(v.fabric_id, s.last()),
        w.facts.dom().contains(k),
        k == fact_id_of(w.facts[k].fact),
        v.facts.dom().contains(k) ==> w.facts[k] == v.facts[k],
        !v.facts.dom().contains(k) ==> offers(v.fabric_id, s.drop_last(), k),
        forall|i: int|
            0 <= i < s.len() - 1 && acceptable(v.fabric_id, #[trigger] s[i])
                ==> w.facts[fact_id_of(s[i].fact)] == s[i],
        k == fact_id_of(s.last().fact) || (s.last().fact.kind == FactKind::Genesis
            && w.facts[k].fact.kind == FactKind::Genesis),
    ensures
        w.facts[k] == s.last(),
{
    let t = s.drop_last();
    let n = s.len() - 1;
    assert(acceptable(v.fabric_id, s[n]));
    if v.facts.dom().contains(k) {
        if k != fact_id_of(s.last().fact) {
            assert(v.facts[k].fact.kind == FactKind::Genesis);
        }
    } else {
        reveal(offers);
        let i = choose|i: int|
            0 <= i < t.len() && acceptable(v.fabric_id, #[trigger] t[i]) && fact_id_of(t[i].fact)
                == k;
        assert(t[i] == s[i]);
        assert(w.facts[fact_id_of(s[i].fact)] == s[i]);
    }
}

/// Merging is a union: the roster then holds its own facts and the acceptable ones of the
/// list, each as it came.
pub proof fn merging_is_a_union(v: RosterView, s: Seq<SignedView>)
    requires
        sound(v),
        consistent(v, s),
    ensures
        forall|id: Seq<u8>| #[trigger]
            merged(v, s).facts.dom().contains(id) <==> (v.facts.dom().contains(id) || offers(
                v.fabric_id,
                s,
                id,
            )),
        forall|i: int|
            0 <= i < s.len() && acceptable(v.fabric_id, #[trigger] s[i]) ==> merged(
                v,
                s,
            ).facts.dom().contains(fact_id_of(s[i].fact)) && merged(v, s).facts[fact_id_of(
                s[i].fact,
            )] == s[i],
        merged(v, s).fabric_id == v.fabric_id,
    decreases s.len(),
{
    if s.len() == 0 {
        reveal(offers);
    } else {
        let t = s.drop_last();
        let x = s.last();
        let n = s.len() - 1;
        lemma_consistent_front(v, s);
        merging_is_a_union(v, t);
        merging_keeps_the_roster_sound(v, t);
        let w = merged(v, t);
        let id = fact_id_of(x.fact);
        assert forall|i: int| 0 <= i < n && acceptable(v.fabric_id, #[trigger] s[i]) implies w.facts.dom().contains(
            fact_id_of(s[i].fact),
        ) && w.facts[fact_id_of(s[i].fact)] == s[i] by {
            assert(t[i] == s[i]);
        }
        assert forall|k: Seq<u8>| #[trigger] v.facts.dom().contains(k) implies w.facts[k]
            == v.facts[k] by {
            facts_are_never_lost(v, t, k);
        }
        if acceptable(v.fabric_id, x) {
            if x.fact.kind == FactKind::Genesis && w.genesis_fact_id is Some {
                let g = w.genesis_fact_id->0;
                assert(w.facts.dom().contains(g));
                lemma_union_same(v, s, w, g);
                assert(g == id);
            }
            if w.facts.dom().contains(id) {
                lemma_union_same(v, s, w, id);
            }
            assert(merged(v, s).facts =~= w.facts.insert(id, x));
        } else {
            assert(judge(w, x) is Quarantined);
            assert(merged(v, s).facts == w.facts);
        }
        assert forall|k: Seq<u8>| #[trigger]
            merged(v, s).facts.dom().contains(k) <==> (v.facts.dom().contains(k) || offers(
                v.fabric_id,
                s,
                k,
            )) by {
            lemma_offers_last(v.fabric_id, s, k);
            assert(w.facts.dom().contains(k) <==> (v.facts.dom().contains(k) || offers(
                v.fabric_id,
                t,
                k,
            )));
        }
        assert forall|i: int| 0 <= i < s.len() && acceptable(v.fabric_id, #[trigger] s[i]) implies merged(
            v,
            s,
        ).facts.dom().contains(fact_id_of(s[i].fact)) && merged(v, s).facts[fact_id_of(s[i].fact)]
            == s[i] by {
            if i < n && acceptable(v.fabric_id, x) && fact_id_of(s[i].fact) == id {
                assert(acceptable(v.fabric_id, s[n]));
            }
        }
    }
}

/// The order in which facts come in, and how often each does, makes no difference: lists
/// with the same facts lead to the same facts, the same root and so the same members.
pub proof fn arrival_order_does_not_matter(v: RosterView, s: Seq<SignedView>, t: Seq<SignedView>)
    requires
        sound(v),
        consistent(v, s),
        consistent(v, t),
        forall|x: SignedView| #[trigger] s.contains(x) <==> t.contains(x),
    ensures
        merged(v, s).facts == merged(v, t).facts,
        merged(v, s).root == merged(v, t).root,
        merged(v, s).genesis_fact_id == merged(v, t).genesis_fact_id,
        forall|now_ms: u64, ms: Seq<MemberView>| #[trigger]
            members_at(merged(v, s), now_ms, ms) == members_at(merged(v, t), now_ms, ms),
{
    let a = merged(v, s);
    let b = merged(v, t);
    merging_is_a_union(v, s);
    merging_is_a_union(v, t);
    merging_keeps_the_roster_sound(v, s);
    merging_keeps_the_roster_sound(v, t);
    lemma_same_offers(v, s, t);
    lemma_same_offers(v, t, s);
    assert forall|id: Seq<u8>| #[trigger] a.facts.dom().contains(id) implies b.facts.dom().contains(
        id,
    ) && a.facts[id] == b.facts[id] by {
        lemma_same_fact(v, s, t, id);
    }
    assert forall|id: Seq<u8>| #[trigger] b.facts.dom().contains(id) implies a.facts.dom().contains(
        id,
    ) by {
        assert(v.facts.dom().contains(id) || offers(v.fabric_id, t, id));
    }
    assert(a.facts =~= b.facts);
    match a.genesis_fact_id {
        Some(g) => {
            assert(b.facts.dom().contains(g));
        },
        None => {
            if b.genesis_fact_id is Some {
                assert(a.facts.dom().contains(b.genesis_fact_id->0));
            }
        },
    }
}

proof fn lemma_same_offers(v: RosterView, s: Seq<SignedView>, t: Seq<SignedView>)
    requires
        forall|x: SignedView| #[trigger] s.contains(x) <==> t.contains(x),
    ensures
        forall|id: Seq<u8>| #[trigger]
            offers(v.fabric_id, s, id) ==> offers(v.fabric_id, t, id),
{
    assert forall|id: Seq<u8>| #[trigger] offers(v.fabric_id, s, id) implies offers(
        v.fabric_id,
        t,
        id,
    ) by {
        reveal(offers);
        let i = choose|i: int|
            0 <= i < s.len() && acceptable(v.fabric_id, #[trigger] s[i]) && fact_id_of(s[i].fact)
                == id;
        assert(s.contains(s[i]));
        let j = choose|j: int| 0 <= j < t.len() && t[j] == s[i];
        assert(acceptable(v.fabric_id, t[j]));
    }
}

proof fn lemma_same_fact(v: RosterView, s: Seq<SignedView>, t: Seq<SignedView>, id: Seq<u8>)
    requires
        sound(v),
        consistent(v, s),
        consistent(v, t),
        forall|x: SignedView| #[trigger] s.contains(x) <==> t.contains(x),
        merged(v, s).facts.dom().contains(id),
    ensures
        merged(v, t).facts.dom().contains(id),
        merged(v, s).facts[id] == merged(v, t).facts[id],
{
    merging_is_a_union(v, s);
    merging_is_a_union(v, t);
    if v.facts.dom().contains(id) {
        facts_are_never_lost(v, s, id);
        facts_are_never_lost(v, t, id);
    } else {
        assert(offers(v.fabric_id, s, id));
        reveal(offers);
        let i = choose|i: int|
            0 <= i < s.len() && acceptable(v.fabric_id, #[trigger] s[i]) && fact_id_of(s[i].fact)
                == id;
        assert(s.contains(s[i]));
        let j = choose|j: int| 0 <= j < t.len() && t[j] == s[i];
        assert(acceptable(v.fabric_id, t[j]));
        assert(merged(v, s).facts[fact_id_of(s[i].fact)] == s[i]);
        assert(merged(v, t).facts[fact_id_of(t[j].fact)] == t[j]);
    }
}

/// A fact that would not be taken is not taken later either.
proof fn lemma_settled_stays(w: RosterView, x: SignedView, y: SignedView)
    requires
        sound(w),
        !(judge(w, x) is Inserted),
    ensures
        !(judge(merged_one(w, y), x) is Inserted),
{
}

/// Every fact of a list that came in would not be taken again.
proof fn lemma_all_settled(v: RosterView, s: Seq<SignedView>, i: int)
    requires
        sound(v),
        0 <= i < s.len(),
    ensures
        !(judge(merged(v, s), s[i]) is Inserted),
    decreases s.len(),
{
    let t = s.drop_last();
    let w = merged(v, t);
    merging_keeps_the_roster_sound(v, t);
    if i < t.len() {
        lemma_all_settled(v, t, i);
        assert(t[i] == s[i]);
        lemma_settled_stays(w, s[i], s.last());
    }
}

/// Facts that would not be taken change no fact.
proof fn lemma_nothing_taken(w: RosterView, t: Seq<SignedView>)
    requires
        forall|i: int| 0 <= i < t.len() ==> !(judge(w, #[trigger] t[i]) is Inserted),
    ensures
        merged(w, t).facts == w.facts,
        merged(w, t).root == w.root,
        merged(w, t).genesis_fact_id == w.genesis_fact_id,
        merged(w, t).fabric_id == w.fabric_id,
        tally(w, t).0 == 0,
    decreases t.len(),
{
    if t.len() > 0 {
        let u = t.drop_last();
        assert forall|i: int| 0 <= i < u.len() implies !(judge(w, #[trigger] u[i]) is Inserted) by {
            assert(u[i] == t[i]);
        }
        lemma_nothing_taken(w, u);
        assert(!(judge(w, t[t.len() - 1]) is Inserted));
    }
}

/// Facts that come in again change nothing: none of them is taken, and neither the facts
/// nor the root change, and so not the members.
pub proof fn merging_again_changes_nothing(v: RosterView, s: Seq<SignedView>)
    requires
        sound(v),
    ensures
        merged(merged(v, s), s).facts == merged(v, s).facts,
        merged(merged(v, s), s).root == merged(v, s).root,
        merged(merged(v, s), s).genesis_fact_id == merged(v, s).genesis_fact_id,
        tally(merged(v, s), s).0 == 0,
{
    assert forall|i: int| 0 <= i < s.len() implies !(judge(merged(v, s), #[trigger] s[i]) is Inserted) by {
        lemma_all_settled(v, s, i);
    }
    lemma_nothing_taken(merged(v, s), s);
}

} // verus!
