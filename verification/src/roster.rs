//! Membership: a set of signed facts and the members that follow from it.
//!
//! A fabric has one genesis fact, whose issuer is the root. Facts are kept by their content
//! address; who is a member is derived from them and never stored. A fact that is of another
//! fabric, is not signed by its issuer, has fields that do not go with its kind, or stands
//! against what is there is put aside and counted. Files and locks belong to the embedding
//! program: it hands over what it read, and writes what it is given.
use vstd::prelude::*;
use vstd::string::*;

use crate::identity::{EndpointId, NodeIdentity};
use crate::octets::{array_at, bytes_eq, push_bytes};
use crate::outside::{blake3_hash, ed25519_public, ed25519_signature};
use crate::protocol::fact::{fact_canonical, fact_id_of, FabricId, Fact, FactId, FactKind, FactView};
use crate::protocol::invite::text_views;
use crate::protocol::signed::{
    first_fault, genesis, genesis_fact, signed_ok, signed_views, SignedFact, SignedView,
};
use crate::text::{cat, cat3, cat5, decimal_text};

use error::{root_view, RosterFault};
use files::{
    consumed_of, decoded, empty_roster, id_set, joined, load_consumed_invites, replayed,
    roster_body, roster_bytes, stored_facts, stored_roster_is_read_back, verdict_text,
    ROSTER_MAGIC, ROSTER_MIN_LEN,
};
use projection::{
    has_member, live_grant, member_at, member_views, project, revoked,
    revoking_all_grants_removes_the_member,
};
use state::{
    inserted, judge, judged, kind_label, lemma_judged_sound, members_at, merged, quarantined,
    shape_ok, sound, tally, RosterView, Verdict, QUARANTINE_SAMPLE_CAP,
};
use store::{lists, FactStore};

pub mod conduct;
pub mod error;
pub mod files;
pub mod invites;
pub mod projection;
pub mod state;
pub mod store;

pub use error::RosterError;
pub use files::{
    consumed_invites_file_path, fabric_id_short16, peek_fabric_id, roster_file_path,
    CONSUMED_INVITES_FILE_NAME, ROSTER_FILE_NAME,
};
pub use projection::Member;

verus! {

/// What became of the facts of a merge.
#[derive(Debug, Clone, Copy, PartialEq, Eq, Structural)]
pub struct MergeReport {
    /// Facts that were new.
    pub inserted: usize,
    /// Facts that were there already.
    pub duplicates: usize,
    /// Facts that were put aside.
    pub quarantined: usize,
}

impl Default for MergeReport {
    fn default() -> (r: Self)
        ensures
            r.inserted == 0 && r.duplicates == 0 && r.quarantined == 0,
    {
        MergeReport { inserted: 0, duplicates: 0, quarantined: 0 }
    }
}

/// What a revocation ends.
#[derive(Debug, Clone, Copy, PartialEq, Eq)]
pub enum RevokeTarget {
    /// One grant.
    Grant(FactId),
    /// All grants of an endpoint.
    AllGrantsOf(EndpointId),
}

/// What became of a fact.
#[derive(Debug, Clone, PartialEq, Eq)]
pub enum InsertOutcome {
    Inserted,
    Duplicate,
    Quarantined(String),
}

impl View for InsertOutcome {
    type V = Verdict;

    open spec fn view(&self) -> Verdict {
        match self {
            InsertOutcome::Inserted => Verdict::Inserted,
            InsertOutcome::Duplicate => Verdict::Duplicate,
            InsertOutcome::Quarantined(t) => Verdict::Quarantined(t@),
        }
    }
}

impl InsertOutcome {
    /// The outcome as text.
    fn shown(&self) -> (r: String)
        ensures
            r@ == verdict_text(self@),
    {
        match self {
            InsertOutcome::Inserted => "Inserted".to_owned(),
            InsertOutcome::Duplicate => "Duplicate".to_owned(),
            InsertOutcome::Quarantined(t) => cat3("Quarantined(\"", t.as_str(), "\")"),
        }
    }
}

/// The facts of a fabric and what follows from them.
#[derive(Debug)]
pub struct Roster {
    data_dir: String,
    fabric_id: FabricId,
    genesis_fact_id: Option<FactId>,
    root: Option<EndpointId>,
    store: FactStore,
    consumed_invites: Vec<[u8; 16]>,
    quarantine_count: u64,
    quarantine_samples: Vec<String>,
}

pub open spec fn id_view(id: Option<FactId>) -> Option<Seq<u8>> {
    match id {
        Some(x) => Some(x@),
        None => None,
    }
}

pub open spec fn bytes_view(b: Option<&[u8]>) -> Option<Seq<u8>> {
    match b {
        Some(x) => Some(x@),
        None => None,
    }
}

impl View for Roster {
    type V = RosterView;

    closed spec fn view(&self) -> RosterView {
        RosterView {
            data_dir: self.data_dir@,
            fabric_id: self.fabric_id@,
            genesis_fact_id: id_view(self.genesis_fact_id),
            root: root_view(self.root),
            facts: self.store.map(),
            consumed: id_set(self.consumed_invites@),
            quarantine_count: self.quarantine_count,
            samples: text_views(self.quarantine_samples@),
        }
    }
}

impl Roster {
    pub closed spec fn stored(&self) -> bool {
        self.store.wf()
    }

    /// The roster is sound.
    pub open spec fn wf(&self) -> bool {
        self.stored() && sound(self@)
    }

    // ---- construction -------------------------------------------------------------

    /// A roster without facts; `log` is the log of used invites, if there is one.
    pub fn empty(data_dir: &str, fabric_id: FabricId, log: Option<&[u8]>) -> (r: Result<
        Self,
        RosterError,
    >)
        ensures
            match consumed_of(data_dir@, bytes_view(log)) {
                Ok(ids) => r is Ok && r->Ok_0.wf() && r->Ok_0@ == empty_roster(
                    data_dir@,
                    fabric_id@,
                    ids,
                ),
                Err(e) => r is Err && r->Err_0@ == e,
            },
    {
        let consumed_invites = match load_consumed_invites(data_dir, log) {
            Ok(c) => c,
            Err(e) => return Err(e),
        };
        let r = Roster {
            data_dir: data_dir.to_owned(),
            fabric_id,
            genesis_fact_id: None,
            root: None,
            store: FactStore::new(),
            consumed_invites,
            quarantine_count: 0,
            quarantine_samples: Vec::new(),
        };
        assert(r@.samples =~= Seq::<Seq<char>>::empty());
        Ok(r)
    }

    /// A new fabric with a random id, whose root is `identity`. The file of facts must not
    /// exist yet.
    pub fn create(
        identity: &NodeIdentity,
        data_dir: &str,
        exists: bool,
        log: Option<&[u8]>,
        now_ms: u64,
    ) -> (r: Result<(Self, FabricId), RosterError>)
        ensures
            exists ==> r is Err && r->Err_0@ == (RosterFault::AlreadyExists {
                path: joined(data_dir@, ROSTER_FILE_NAME@),
            }),
            !exists ==> exists|fabric_id: FabricId| match #[trigger] founded(
                identity@,
                data_dir@,
                fabric_id@,
                bytes_view(log),
                now_ms,
            ) {
                Ok(v) => r is Ok && (r->Ok_0).0.wf() && (r->Ok_0).0@ == v && (r->Ok_0).1
                    == fabric_id,
                Err(e) => r is Err && r->Err_0@ == e,
            },
    {
        if exists {
            return Err(RosterError::AlreadyExists { path: roster_file_path(data_dir) });
        }
        let fabric_id = FabricId::random();
        match Self::found(identity, data_dir, fabric_id, log, now_ms) {
            Ok(r) => Ok((r, fabric_id)),
            Err(e) => Err(e),
        }
    }

    /// A new fabric with the given id, whose root is `identity`.
    pub fn found(
        identity: &NodeIdentity,
        data_dir: &str,
        fabric_id: FabricId,
        log: Option<&[u8]>,
        now_ms: u64,
    ) -> (r: Result<Self, RosterError>)
        ensures
            match founded(identity@, data_dir@, fabric_id@, bytes_view(log), now_ms) {
                Ok(v) => r is Ok && r->Ok_0.wf() && r->Ok_0@ == v,
                Err(e) => r is Err && r->Err_0@ == e,
            },
    {
        let genesis = match genesis(identity, fabric_id, now_ms) {
            Ok(g) => g,
            Err(e) => return Err(RosterError::Protocol(e)),
        };
        let mut roster = match Self::empty(data_dir, fabric_id, log) {
            Ok(r) => r,
            Err(e) => return Err(e),
        };
        match roster.validate_and_insert(&genesis) {
            InsertOutcome::Inserted => Ok(roster),
            outcome => Err(
                RosterError::Corrupted {
                    path: roster_file_path(data_dir),
                    reason: cat("fresh genesis did not insert: ", outcome.shown().as_str()),
                },
            ),
        }
    }

    /// The stored roster; `file` is the file of facts, if there is one.
    pub fn open(data_dir: &str, fabric_id: FabricId, file: Option<&[u8]>, log: Option<&[u8]>) -> (r:
        Result<Self, RosterError>)
        ensures
            match opened(data_dir@, fabric_id@, bytes_view(file), bytes_view(log)) {
                Ok(v) => r is Ok && r->Ok_0.wf() && r->Ok_0@ == v,
                Err(e) => r is Err && r->Err_0@ == e,
            },
    {
        match file {
            None => Err(RosterError::NotFound { path: roster_file_path(data_dir) }),
            Some(bytes) => Self::decode_persisted(data_dir, fabric_id, bytes, log),
        }
    }

    /// The stored roster, or one without facts where none is stored.
    pub fn attach(data_dir: &str, fabric_id: FabricId, file: Option<&[u8]>, log: Option<&[u8]>) -> (r:
        Result<Self, RosterError>)
        ensures
            match attached(data_dir@, fabric_id@, bytes_view(file), bytes_view(log)) {
                Ok(v) => r is Ok && r->Ok_0.wf() && r->Ok_0@ == v,
                Err(e) => r is Err && r->Err_0@ == e,
            },
    {
        match file {
            None => Self::empty(data_dir, fabric_id, log),
            Some(bytes) => Self::decode_persisted(data_dir, fabric_id, bytes, log),
        }
    }

    /// The roster of a file of facts: its head, its hash and every fact are checked.
    pub fn decode_persisted(
        data_dir: &str,
        fabric_id: FabricId,
        bytes: &[u8],
        log: Option<&[u8]>,
    ) -> (r: Result<Self, RosterError>)
        ensures
            match decoded(data_dir@, fabric_id@, bytes@, bytes_view(log)) {
                Ok(v) => r is Ok && r->Ok_0.wf() && r->Ok_0@ == v,
                Err(e) => r is Err && r->Err_0@ == e,
            },
    {
        let facts = match Self::read_facts(data_dir, &fabric_id, bytes) {
            Ok(f) => f,
            Err(e) => return Err(e),
        };
        let mut roster = match Self::empty(data_dir, fabric_id, log) {
            Ok(r) => r,
            Err(e) => return Err(e),
        };
        let ghost start = roster@;
        let ghost all = signed_views(facts@);
        let mut i: usize = 0;
        assert(all.subrange(0, 0) =~= Seq::<SignedView>::empty());
        while i < facts.len()
            invariant
                i <= facts@.len(),
                roster.wf(),
                all == signed_views(facts@),
                replayed(start, all.subrange(0, i as int)) == Ok::<RosterView, Seq<char>>(roster@),
                stored_facts(bytes@, fabric_id@, joined(data_dir@, ROSTER_FILE_NAME@)) == Ok::<
                    Seq<SignedView>,
                    RosterFault,
                >(all),
                consumed_of(data_dir@, bytes_view(log)) is Ok,
                start == empty_roster(
                    data_dir@,
                    fabric_id@,
                    consumed_of(data_dir@, bytes_view(log))->Ok_0,
                ),
            decreases facts@.len() - i,
        {
            proof {
                let t = all.subrange(0, i + 1);
                assert(t.drop_last() =~= all.subrange(0, i as int));
                assert(t.last() == facts@[i as int]@);
                if replayed(start, t) is Err {
                    lemma_replay_err(start, all, i + 1, all.len() as int);
                    assert(all.subrange(0, all.len() as int) =~= all);
                }
            }
            match roster.validate_and_insert(&facts[i]) {
                InsertOutcome::Inserted => {},
                outcome => {
                    return Err(
                        RosterError::Corrupted {
                            path: roster_file_path(data_dir),
                            reason: cat(
                                "stored fact failed replay validation: ",
                                outcome.shown().as_str(),
                            ),
                        },
                    );
                },
            }
            i = i + 1;
        }
        proof {
            assert(all.subrange(0, i as int) =~= all);
            roster.store.lemma_count();
        }
        if roster.store.len() > 0 && roster.genesis_fact_id.is_none() {
            return Err(
                RosterError::Corrupted {
                    path: roster_file_path(data_dir),
                    reason: "facts present but no Genesis fact".to_owned(),
                },
            );
        }
        Ok(roster)
    }

    /// The facts of a file, after its head and its hash were checked.
    fn read_facts(data_dir: &str, fabric_id: &FabricId, bytes: &[u8]) -> (r: Result<
        Vec<SignedFact>,
        RosterError,
    >)
        ensures
            match stored_facts(bytes@, fabric_id@, joined(data_dir@, ROSTER_FILE_NAME@)) {
                Ok(s) => r is Ok && signed_views(r->Ok_0@) == s,
                Err(e) => r is Err && r->Err_0@ == e,
            },
    {
        let len: usize = bytes.len();
        if len < ROSTER_MIN_LEN {
            return Err(
                RosterError::Corrupted {
                    path: roster_file_path(data_dir),
                    reason: cat(
                        cat3(
                            "file of ",
                            decimal_text(len as u64).as_str(),
                            " bytes shorter than minimum ",
                        ).as_str(),
                        decimal_text(76).as_str(),
                    ),
                },
            );
        }
        if !bytes_eq(vstd::slice::slice_subrange(bytes, 0, 8), &ROSTER_MAGIC) {
            return Err(
                RosterError::Corrupted {
                    path: roster_file_path(data_dir),
                    reason: "bad magic".to_owned(),
                },
            );
        }
        let stored = FabricId(array_at::<32>(bytes, 8));
        if !stored.same(fabric_id) {
            return Err(
                RosterError::DirFabricMismatch {
                    path: roster_file_path(data_dir),
                    stored,
                    requested: *fabric_id,
                },
            );
        }
        let end: usize = len - 32;
        let checksum = blake3_hash(vstd::slice::slice_subrange(bytes, 0, end));
        if !bytes_eq(&checksum, vstd::slice::slice_subrange(bytes, end, len)) {
            return Err(
                RosterError::Corrupted {
                    path: roster_file_path(data_dir),
                    reason: "BLAKE3 checksum mismatch".to_owned(),
                },
            );
        }
        match SignedFact::decode_all(vstd::slice::slice_subrange(bytes, 40, end)) {
            Ok(f) => Ok(f),
            Err(e) => Err(
                RosterError::Corrupted {
                    path: roster_file_path(data_dir),
                    reason: cat("fact dump failed to decode: ", e.message().as_str()),
                },
            ),
        }
    }

    // ---- accessors ----------------------------------------------------------------

    pub fn fabric_id(&self) -> (r: FabricId)
        ensures
            r@ == self@.fabric_id,
    {
        self.fabric_id
    }

    /// The root, once there is a genesis fact.
    pub fn root(&self) -> (r: Option<EndpointId>)
        ensures
            root_view(r) == self@.root,
    {
        self.root
    }

    pub fn genesis_fact_id(&self) -> (r: Option<FactId>)
        ensures
            id_view(r) == self@.genesis_fact_id,
    {
        self.genesis_fact_id
    }

    /// Number of facts.
    pub fn len(&self) -> (r: usize)
        requires
            self.wf(),
        ensures
            r == self@.facts.len(),
    {
        proof {
            self.store.lemma_count();
        }
        self.store.len()
    }

    pub fn is_empty(&self) -> (r: bool)
        requires
            self.wf(),
        ensures
            r == (self@.facts.len() == 0),
    {
        proof {
            self.store.lemma_count();
        }
        self.store.len() == 0
    }

    /// The fact of an id.
    pub fn get(&self, id: &FactId) -> (r: Option<&SignedFact>)
        requires
            self.wf(),
        ensures
            match r {
                Some(f) => self@.facts.dom().contains(id@) && f@ == self@.facts[id@],
                None => !self@.facts.dom().contains(id@),
            },
    {
        self.store.get(id)
    }

    /// All facts in ascending order of their ids.
    pub fn facts(&self) -> (r: &[SignedFact])
        requires
            self.wf(),
        ensures
            lists(self@.facts, signed_views(r@)),
            forall|k: int| 0 <= k < r@.len() ==> signed_ok(#[trigger] signed_views(r@)[k]),
    {
        proof {
            self.store.lemma_lists();
            let list = self.store.list();
            assert forall|k: int| 0 <= k < list.len() implies signed_ok(#[trigger] list[k]) by {
                assert(self@.facts.dom().contains(store::ids_of(list)[k]));
                assert(fact_canonical(list[k].fact) is Ok);
            }
        }
        self.store.facts()
    }

    /// How many facts were put aside, and why the first of them were.
    pub fn quarantine_stats(&self) -> (r: (u64, &[String]))
        ensures
            r.0 == self@.quarantine_count,
            text_views(r.1@) == self@.samples,
    {
        (self.quarantine_count, self.quarantine_samples.as_slice())
    }

    /// The directory that the roster is stored in.
    pub fn data_dir(&self) -> (r: &str)
        ensures
            r@ == self@.data_dir,
    {
        self.data_dir.as_str()
    }

    // ---- merging ------------------------------------------------------------------

    /// Takes facts in. What is stored has to be written anew where the report says that
    /// facts were inserted.
    pub fn merge(&mut self, facts: &[SignedFact]) -> (r: MergeReport)
        requires
            old(self).wf(),
            old(self)@.quarantine_count + facts@.len() <= u64::MAX,
        ensures
            final(self).wf(),
            final(self)@ == merged(old(self)@, signed_views(facts@)),
            (r.inserted as nat, r.duplicates as nat, r.quarantined as nat) == tally(
                old(self)@,
                signed_views(facts@),
            ),
    {
        let ghost start = self@;
        let ghost all = signed_views(facts@);
        let mut report = MergeReport { inserted: 0, duplicates: 0, quarantined: 0 };
        let mut i: usize = 0;
        assert(all.subrange(0, 0) =~= Seq::<SignedView>::empty());
        while i < facts.len()
            invariant
                i <= facts@.len(),
                self.wf(),
                all == signed_views(facts@),
                self@ == merged(start, all.subrange(0, i as int)),
                self@.quarantine_count <= start.quarantine_count + i,
                start.quarantine_count + facts@.len() <= u64::MAX,
                report.inserted + report.duplicates + report.quarantined == i,
                (report.inserted as nat, report.duplicates as nat, report.quarantined as nat)
                    == tally(start, all.subrange(0, i as int)),
            decreases facts@.len() - i,
        {
            let ghost before = self@;
            proof {
                let t = all.subrange(0, i + 1);
                assert(t.drop_last() =~= all.subrange(0, i as int));
                assert(t.last() == facts@[i as int]@);
                lemma_judged_sound(self@, facts@[i as int]@);
            }
            match self.validate_and_insert(&facts[i]) {
                InsertOutcome::Inserted => {
                    report.inserted = report.inserted + 1;
                },
                InsertOutcome::Duplicate => {
                    report.duplicates = report.duplicates + 1;
                },
                InsertOutcome::Quarantined(reason) => {
                    report.quarantined = report.quarantined + 1;
                    self.record_quarantine(reason);
                },
            }
            i = i + 1;
        }
        assert(all.subrange(0, i as int) =~= all);
        report
    }

    /// Checks a fact and takes it, unless something stands against it.
    pub fn validate_and_insert(&mut self, signed: &SignedFact) -> (r: InsertOutcome)
        requires
            old(self).wf(),
        ensures
            final(self).wf(),
            r@ == judge(old(self)@, signed@),
            final(self)@ == judged(old(self)@, signed@),
    {
        let ghost v = self@;
        let ghost s = signed@;
        proof {
            lemma_judged_sound(v, s);
        }
        if !signed.fact.fabric_id.same(&self.fabric_id) {
            return InsertOutcome::Quarantined(
                cat5(
                    "cross-fabric fact rejected (fact fabric ",
                    signed.fact.fabric_id.display().as_str(),
                    ", roster fabric ",
                    self.fabric_id.display().as_str(),
                    ")",
                ),
            );
        }
        match signed.verify() {
            Ok(()) => {},
            Err(e) => {
                return InsertOutcome::Quarantined(cat("fact rejected: ", e.message().as_str()));
            },
        }
        if !fields_go_with_kind(&signed.fact) {
            return InsertOutcome::Quarantined(
                cat3(
                    "fact kind ",
                    kind_name(signed.fact.kind),
                    " rejected: disallowed field combination",
                ),
            );
        }
        let id = signed.fact_id();
        let genesis = signed.fact.kind == FactKind::Genesis;
        if genesis {
            match &self.genesis_fact_id {
                Some(existing) => {
                    if !bytes_eq(existing, &id) {
                        return InsertOutcome::Quarantined(
                            "conflicting Genesis fact for this fabric rejected".to_owned(),
                        );
                    }
                },
                None => {},
            }
        }
        match self.store.get(&id) {
            Some(existing) => {
                if existing.same(signed) {
                    return InsertOutcome::Duplicate;
                }
                if genesis {
                    return InsertOutcome::Quarantined(
                        "Genesis id collision (same id, different content)".to_owned(),
                    );
                }
                return InsertOutcome::Quarantined(
                    "fact id collision (same id, different content) quarantined".to_owned(),
                );
            },
            None => {},
        }
        if genesis && self.genesis_fact_id.is_none() {
            self.genesis_fact_id = Some(id);
            self.root = Some(signed.fact.issuer);
        }
        self.store.insert(id, signed.copied());
        assert(self@ =~= inserted(v, s));
        InsertOutcome::Inserted
    }

    fn record_quarantine(&mut self, reason: String)
        requires
            old(self).wf(),
            old(self)@.quarantine_count < u64::MAX,
        ensures
            final(self)@ == quarantined(old(self)@, reason@),
            final(self).stored(),
    {
        let ghost before = self@;
        let ghost text = reason@;
        self.quarantine_count = self.quarantine_count + 1;
        if self.quarantine_samples.len() < QUARANTINE_SAMPLE_CAP {
            self.quarantine_samples.push(reason);
            assert(text_views(self.quarantine_samples@) =~= before.samples.push(text));
        }
        assert(self@ =~= quarantined(before, text));
    }

    // ---- members ------------------------------------------------------------------

    /// Whether an endpoint is a member at a moment.
    pub fn is_member(&self, id: &EndpointId, now_ms: u64) -> (r: bool)
        requires
            self.wf(),
        ensures
            r == match self@.root {
                Some(root) => member_at(self@.facts, root, now_ms, id@),
                None => false,
            },
    {
        match &self.root {
            Some(root) => has_member(&self.store, root, now_ms, id),
            None => false,
        }
    }

    /// The members at a moment, the root among them, in the order of their endpoints.
    pub fn effective_members(&self, now_ms: u64) -> (r: Vec<Member>)
        requires
            self.wf(),
        ensures
            members_at(self@, now_ms, member_views(r@)),
    {
        let root = match &self.root {
            Some(root) => root,
            None => return Vec::new(),
        };
        let since: u64 = match &self.genesis_fact_id {
            Some(id) => match self.store.get(id) {
                Some(g) => g.fact.issued_at_ms,
                None => 0,
            },
            None => 0,
        };
        project(&self.store, root, since, now_ms)
    }

    // ---- facts of this node -------------------------------------------------------

    fn require_root(&self, identity: &NodeIdentity) -> (r: Result<EndpointId, RosterError>)
        ensures
            if self@.root == Some(ed25519_public(identity@)) {
                r is Ok && r->Ok_0@ == ed25519_public(identity@)
            } else {
                r is Err && r->Err_0@ == not_root(self@, identity@)
            },
    {
        let caller = identity.endpoint_id();
        match &self.root {
            Some(root) => {
                if root.same(&caller) {
                    return Ok(*root);
                }
            },
            None => {},
        }
        Err(RosterError::NotRoot { caller, root: self.root })
    }

    /// Signs a fact of this node and takes it.
    fn sign_and_insert(&mut self, identity: &NodeIdentity, fact: Fact, label: &str) -> (r: Result<
        SignedFact,
        RosterError,
    >)
        requires
            old(self).wf(),
        ensures
            final(self).wf(),
            match own_fact(old(self)@, identity@, fact@, label@) {
                Ok(s) => r is Ok && r->Ok_0@ == s && final(self)@ == judged(old(self)@, s),
                Err(e) => r is Err && r->Err_0@ == e && final(self)@ == old(self)@,
            },
    {
        let signed = match SignedFact::sign(fact, identity.secret_key()) {
            Ok(s) => s,
            Err(e) => return Err(RosterError::Protocol(e)),
        };
        match self.validate_and_insert(&signed) {
            InsertOutcome::Quarantined(reason) => Err(
                RosterError::Corrupted {
                    path: roster_file_path(self.data_dir.as_str()),
                    reason: cat3(label, " quarantined: ", reason.as_str()),
                },
            ),
            _ => Ok(signed),
        }
    }

    /// Makes an endpoint a member. Only the root can. What is stored has to be written anew.
    pub fn grant(
        &mut self,
        identity: &NodeIdentity,
        subject: EndpointId,
        display_name: Option<String>,
        expires_at_ms: Option<u64>,
        now_ms: u64,
    ) -> (r: Result<SignedFact, RosterError>)
        requires
            old(self).wf(),
        ensures
            final(self).wf(),
            match root_fact(
                old(self)@,
                identity@,
                grant_fact(
                    old(self)@.fabric_id,
                    ed25519_public(identity@),
                    subject@,
                    match display_name {
                        Some(n) => Some(n@),
                        None => None,
                    },
                    expires_at_ms,
                    now_ms,
                ),
            ) {
                Ok(s) => r is Ok && r->Ok_0@ == s && final(self)@ == judged(old(self)@, s),
                Err(e) => r is Err && r->Err_0@ == e && final(self)@ == old(self)@,
            },
    {
        let root = match self.require_root(identity) {
            Ok(root) => root,
            Err(e) => return Err(e),
        };
        let fact = Fact {
            kind: FactKind::Grant,
            fabric_id: self.fabric_id,
            issuer: root,
            subject,
            display_name,
            issued_at_ms: now_ms,
            expires_at_ms,
            target_fact_id: None,
        };
        self.sign_and_insert(identity, fact, "locally constructed fact")
    }

    /// Ends one grant or all grants of an endpoint. Only the root can. What is stored has to
    /// be written anew.
    pub fn revoke(&mut self, identity: &NodeIdentity, target: RevokeTarget, now_ms: u64) -> (r:
        Result<SignedFact, RosterError>)
        requires
            old(self).wf(),
        ensures
            final(self).wf(),
            match revoking(old(self)@, identity@, target, now_ms) {
                Ok(s) => r is Ok && r->Ok_0@ == s && final(self)@ == judged(old(self)@, s),
                Err(e) => r is Err && r->Err_0@ == e && final(self)@ == old(self)@,
            },
    {
        let subject: EndpointId;
        let target_fact_id: Option<FactId>;
        match target {
            RevokeTarget::Grant(fact_id) => {
                match self.store.get(&fact_id) {
                    Some(grant) => {
                        if grant.fact.kind != FactKind::Grant {
                            return Err(RosterError::InvalidRevokeTarget { fact_id });
                        }
                        subject = grant.fact.subject;
                        target_fact_id = Some(fact_id);
                    },
                    None => return Err(RosterError::InvalidRevokeTarget { fact_id }),
                }
            },
            RevokeTarget::AllGrantsOf(s) => {
                subject = s;
                target_fact_id = None;
            },
        }
        let root = match self.require_root(identity) {
            Ok(root) => root,
            Err(e) => return Err(e),
        };
        let fact = Fact {
            kind: FactKind::Revoke,
            fabric_id: self.fabric_id,
            issuer: root,
            subject,
            display_name: None,
            issued_at_ms: now_ms,
            expires_at_ms: None,
            target_fact_id,
        };
        self.sign_and_insert(identity, fact, "locally constructed fact")
    }

    /// Records the name that this node gives itself. What is stored has to be written anew.
    pub fn set_display_name(
        &mut self,
        identity: &NodeIdentity,
        display_name: Option<String>,
        now_ms: u64,
    ) -> (r: Result<SignedFact, RosterError>)
        requires
            old(self).wf(),
        ensures
            final(self).wf(),
            match own_fact(
                old(self)@,
                identity@,
                join_fact(
                    old(self)@.fabric_id,
                    ed25519_public(identity@),
                    match display_name {
                        Some(n) => Some(n@),
                        None => None,
                    },
                    now_ms,
                ),
                "locally constructed join"@,
            ) {
                Ok(s) => r is Ok && r->Ok_0@ == s && final(self)@ == judged(old(self)@, s),
                Err(e) => r is Err && r->Err_0@ == e && final(self)@ == old(self)@,
            },
    {
        let me = identity.endpoint_id();
        let fact = Fact {
            kind: FactKind::Join,
            fabric_id: self.fabric_id,
            issuer: me,
            subject: me,
            display_name,
            issued_at_ms: now_ms,
            expires_at_ms: None,
            target_fact_id: None,
        };
        self.sign_and_insert(identity, fact, "locally constructed join")
    }

    // ---- storing ------------------------------------------------------------------

    /// The file of facts. It is read back as this roster, with the used invites of the log,
    /// if there are no facts or the genesis fact is among them.
    pub fn persisted_bytes(&self) -> (r: Result<Vec<u8>, RosterError>)
        requires
            self.wf(),
        ensures
            r is Ok,
            exists|list: Seq<SignedView>| #[trigger]
                lists(self@.facts, list) && r->Ok_0@ == roster_bytes(self@.fabric_id, list),
            self@.facts.len() <= u32::MAX && (self@.facts.len() > 0 ==> self@.genesis_fact_id is Some)
                ==> forall|log: Option<Seq<u8>>|
                #![trigger consumed_of(self@.data_dir, log)]
                consumed_of(self@.data_dir, log) is Ok ==> decoded(
                    self@.data_dir,
                    self@.fabric_id,
                    r->Ok_0@,
                    log,
                ) == Ok::<RosterView, RosterFault>(
                    (RosterView {
                        consumed: consumed_of(self@.data_dir, log)->Ok_0,
                        quarantine_count: 0,
                        samples: Seq::empty(),
                        ..self@
                    }),
                ),
    {
        let ghost list = self.store.list();
        proof {
            self.store.lemma_lists();
            self.store.lemma_count();
            assert forall|k: int| 0 <= k < list.len() implies fact_canonical((#[trigger] list[k]).fact) is Ok by {
                assert(self@.facts.dom().contains(store::ids_of(list)[k]));
            }
            lemma_no_fault(list, 0);
        }
        let body = match SignedFact::encode_all(self.store.facts()) {
            Ok(b) => b,
            Err(e) => return Err(RosterError::Protocol(e)),
        };
        let mut bytes: Vec<u8> = Vec::new();
        push_bytes(&mut bytes, &ROSTER_MAGIC);
        push_bytes(&mut bytes, self.fabric_id.as_bytes());
        push_bytes(&mut bytes, body.as_slice());
        assert(bytes@ =~= roster_body(self@.fabric_id, list));
        let hash = blake3_hash(bytes.as_slice());
        push_bytes(&mut bytes, &hash);
        let total: usize = bytes.len();
        proof {
            assert(lists(self@.facts, list));
            let v = self@;
            if v.facts.len() <= u32::MAX && (v.facts.len() > 0 ==> v.genesis_fact_id is Some) {
                assert forall|k: int| 0 <= k < list.len() implies signed_ok(#[trigger] list[k]) by {
                    assert(v.facts.dom().contains(store::ids_of(list)[k]));
                    assert(fact_canonical(list[k].fact) is Ok);
                }
                assert forall|log: Option<Seq<u8>>|
                    #![trigger consumed_of(self@.data_dir, log)]
                    consumed_of(self@.data_dir, log) is Ok implies decoded(
                    v.data_dir,
                    v.fabric_id,
                    bytes@,
                    log,
                ) == Ok::<RosterView, RosterFault>(
                    (RosterView {
                        consumed: consumed_of(v.data_dir, log)->Ok_0,
                        quarantine_count: 0,
                        samples: Seq::empty(),
                        ..v
                    }),
                ) by {
                    stored_roster_is_read_back(v, list, v.data_dir, log);
                }
            }
        }
        Ok(bytes)
    }
}

/// A further fact does not help where one was refused.
proof fn lemma_replay_err(v: RosterView, s: Seq<SignedView>, i: int, n: int)
    requires
        0 <= i <= n <= s.len(),
        replayed(v, s.subrange(0, i)) is Err,
    ensures
        replayed(v, s.subrange(0, n)) == replayed(v, s.subrange(0, i)),
    decreases n,
{
    if i < n {
        lemma_replay_err(v, s, i, n - 1);
        assert(s.subrange(0, n).drop_last() =~= s.subrange(0, n - 1));
    }
}

pub(crate) proof fn lemma_no_fault(s: Seq<SignedView>, i: int)
    requires
        0 <= i,
        forall|k: int| 0 <= k < s.len() ==> fact_canonical((#[trigger] s[k]).fact) is Ok,
    ensures
        first_fault(s, i) is None,
    decreases s.len() - i,
{
    if i < s.len() {
        assert(fact_canonical(s[i].fact) is Ok);
        lemma_no_fault(s, i + 1);
    }
}

/// Whether the fields of a fact go with its kind.
fn fields_go_with_kind(f: &Fact) -> (r: bool)
    ensures
        r == shape_ok(f@),
{
    match f.kind {
        FactKind::Genesis => f.issuer.same(&f.subject) && f.display_name.is_none()
            && f.expires_at_ms.is_none() && f.target_fact_id.is_none(),
        FactKind::Grant => f.target_fact_id.is_none(),
        FactKind::Join => f.target_fact_id.is_none(),
        FactKind::Revoke => true,
    }
}

fn kind_name(k: FactKind) -> (r: &'static str)
    ensures
        r@ == kind_label(k),
{
    match k {
        FactKind::Genesis => "Genesis",
        FactKind::Grant => "Grant",
        FactKind::Join => "Join",
        FactKind::Revoke => "Revoke",
    }
}

/// The roster of a new fabric.
pub open spec fn founded(
    seed: Seq<u8>,
    data_dir: Seq<char>,
    fabric_id: Seq<u8>,
    log: Option<Seq<u8>>,
    now_ms: u64,
) -> Result<RosterView, RosterFault> {
    match consumed_of(data_dir, log) {
        Err(e) => Err(e),
        Ok(ids) => {
            let v = empty_roster(data_dir, fabric_id, ids);
            let fact = genesis_fact(ed25519_public(seed), fabric_id, now_ms);
            let s = SignedView {
                fact,
                signature: ed25519_signature(seed, fact_canonical(fact)->Ok_0),
            };
            match judge(v, s) {
                Verdict::Inserted => Ok(inserted(v, s)),
                other => Err(
                    RosterFault::Corrupted {
                        path: joined(data_dir, ROSTER_FILE_NAME@),
                        reason: "fresh genesis did not insert: "@ + verdict_text(other),
                    },
                ),
            }
        },
    }
}

/// The stored roster.
pub open spec fn opened(
    data_dir: Seq<char>,
    fabric_id: Seq<u8>,
    file: Option<Seq<u8>>,
    log: Option<Seq<u8>>,
) -> Result<RosterView, RosterFault> {
    match file {
        None => Err(RosterFault::NotFound { path: joined(data_dir, ROSTER_FILE_NAME@) }),
        Some(b) => decoded(data_dir, fabric_id, b, log),
    }
}

/// The stored roster, or one without facts where none is stored.
pub open spec fn attached(
    data_dir: Seq<char>,
    fabric_id: Seq<u8>,
    file: Option<Seq<u8>>,
    log: Option<Seq<u8>>,
) -> Result<RosterView, RosterFault> {
    match file {
        None => match consumed_of(data_dir, log) {
            Ok(ids) => Ok(empty_roster(data_dir, fabric_id, ids)),
            Err(e) => Err(e),
        },
        Some(b) => decoded(data_dir, fabric_id, b, log),
    }
}

/// The refusal of an operation that is for the root.
pub open spec fn not_root(v: RosterView, seed: Seq<u8>) -> RosterFault {
    RosterFault::NotRoot { caller: ed25519_public(seed), root: v.root }
}

/// The signed fact of this node that the roster takes or has, or why there is none.
pub open spec fn own_fact(v: RosterView, seed: Seq<u8>, fact: FactView, label: Seq<char>) -> Result<
    SignedView,
    RosterFault,
> {
    match fact_canonical(fact) {
        Err(e) => Err(RosterFault::Protocol(e)),
        Ok(b) => {
            let s = SignedView { fact, signature: ed25519_signature(seed, b) };
            match judge(v, s) {
                Verdict::Quarantined(reason) => Err(
                    RosterFault::Corrupted {
                        path: joined(v.data_dir, ROSTER_FILE_NAME@),
                        reason: label + " quarantined: "@ + reason,
                    },
                ),
                _ => Ok(s),
            }
        },
    }
}

/// The signed fact of the root that the roster takes or has, or why there is none.
pub open spec fn root_fact(v: RosterView, seed: Seq<u8>, fact: FactView) -> Result<
    SignedView,
    RosterFault,
> {
    if v.root != Some(ed25519_public(seed)) {
        Err(not_root(v, seed))
    } else {
        own_fact(v, seed, fact, "locally constructed fact"@)
    }
}

pub open spec fn grant_fact(
    fabric_id: Seq<u8>,
    root: Seq<u8>,
    subject: Seq<u8>,
    display_name: Option<Seq<char>>,
    expires_at_ms: Option<u64>,
    now_ms: u64,
) -> FactView {
    FactView {
        kind: FactKind::Grant,
        fabric_id,
        issuer: root,
        subject,
        display_name,
        issued_at_ms: now_ms,
        expires_at_ms,
        target_fact_id: None,
    }
}

pub open spec fn join_fact(
    fabric_id: Seq<u8>,
    me: Seq<u8>,
    display_name: Option<Seq<char>>,
    now_ms: u64,
) -> FactView {
    FactView {
        kind: FactKind::Join,
        fabric_id,
        issuer: me,
        subject: me,
        display_name,
        issued_at_ms: now_ms,
        expires_at_ms: None,
        target_fact_id: None,
    }
}

pub open spec fn revoke_fact(
    fabric_id: Seq<u8>,
    root: Seq<u8>,
    subject: Seq<u8>,
    target: Option<Seq<u8>>,
    now_ms: u64,
) -> FactView {
    FactView {
        kind: FactKind::Revoke,
        fabric_id,
        issuer: root,
        subject,
        display_name: None,
        issued_at_ms: now_ms,
        expires_at_ms: None,
        target_fact_id: target,
    }
}

/// The signed revocation, or why there is none.
pub open spec fn revoking(v: RosterView, seed: Seq<u8>, target: RevokeTarget, now_ms: u64) -> Result<
    SignedView,
    RosterFault,
> {
    let root = ed25519_public(seed);
    match target {
        RevokeTarget::Grant(id) => if !v.facts.dom().contains(id@) || v.facts[id@].fact.kind
            != FactKind::Grant {
            Err(RosterFault::InvalidRevokeTarget { fact_id: id@ })
        } else {
            root_fact(
                v,
                seed,
                revoke_fact(v.fabric_id, root, v.facts[id@].fact.subject, Some(id@), now_ms),
            )
        },
        RevokeTarget::AllGrantsOf(s) => root_fact(
            v,
            seed,
            revoke_fact(v.fabric_id, root, s@, None, now_ms),
        ),
    }
}

// ---- laws -------------------------------------------------------------------------

/// An endpoint to which the root grants membership is a member until the grant expires,
/// unless a revocation ends it.
pub proof fn granting_makes_a_member(
    v: RosterView,
    seed: Seq<u8>,
    subject: Seq<u8>,
    display_name: Option<Seq<char>>,
    expires_at_ms: Option<u64>,
    issued_ms: u64,
    now_ms: u64,
)
    requires
        sound(v),
        subject != ed25519_public(seed),
        expires_at_ms is Some ==> now_ms < expires_at_ms->0,
    ensures
        ({
            let root = ed25519_public(seed);
            let fact = grant_fact(
                v.fabric_id,
                root,
                subject,
                display_name,
                expires_at_ms,
                issued_ms,
            );
            match root_fact(v, seed, fact) {
                Ok(s) => revoked(judged(v, s).facts, root, now_ms, fact_id_of(fact)) || member_at(
                    judged(v, s).facts,
                    root,
                    now_ms,
                    subject,
                ),
                Err(_) => true,
            }
        }),
{
    let root = ed25519_public(seed);
    let fact = grant_fact(v.fabric_id, root, subject, display_name, expires_at_ms, issued_ms);
    match root_fact(v, seed, fact) {
        Ok(s) => {
            let w = judged(v, s).facts;
            let g = fact_id_of(fact);
            assert(w.dom().contains(g) && w[g] == s);
            if !revoked(w, root, now_ms, g) {
                assert(live_grant(w, root, now_ms, g));
            }
        },
        Err(_) => {},
    }
}

/// An endpoint whose grants the root revokes is no member any more, at any moment.
pub proof fn revoking_removes_a_member(
    v: RosterView,
    seed: Seq<u8>,
    subject: EndpointId,
    issued_ms: u64,
    now_ms: u64,
)
    requires
        sound(v),
        subject@ != ed25519_public(seed),
    ensures
        match revoking(v, seed, RevokeTarget::AllGrantsOf(subject), issued_ms) {
            Ok(s) => !member_at(judged(v, s).facts, ed25519_public(seed), now_ms, subject@),
            Err(_) => true,
        },
{
    match revoking(v, seed, RevokeTarget::AllGrantsOf(subject), issued_ms) {
        Ok(s) => {
            let w = judged(v, s).facts;
            let r = fact_id_of(s.fact);
            assert(w.dom().contains(r) && w[r] == s);
            revoking_all_grants_removes_the_member(w, ed25519_public(seed), now_ms, r);
        },
        Err(_) => {},
    }
}

/// A grant that the root revokes makes nobody a member any more.
pub proof fn revoking_ends_a_grant(
    v: RosterView,
    seed: Seq<u8>,
    grant_id: FactId,
    issued_ms: u64,
    now_ms: u64,
)
    requires
        sound(v),
    ensures
        match revoking(v, seed, RevokeTarget::Grant(grant_id), issued_ms) {
            Ok(s) => !live_grant(judged(v, s).facts, ed25519_public(seed), now_ms, grant_id@),
            Err(_) => true,
        },
{
    match revoking(v, seed, RevokeTarget::Grant(grant_id), issued_ms) {
        Ok(s) => {
            let w = judged(v, s).facts;
            let r = fact_id_of(s.fact);
            assert(w.dom().contains(r) && w[r] == s);
            assert(revoked(w, ed25519_public(seed), now_ms, grant_id@));
        },
        Err(_) => {},
    }
}

} // verus!
