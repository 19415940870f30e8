//! The sessions of a node: which session a peer has, who may start one, and which ids
//! are gone for good.
use vstd::prelude::*;

use crate::continuity::model::JournalLimits;
use crate::continuity::session::control::{Id16, ResumeCtl, SessionPhase};
use crate::continuity::session::shared::{fresh_session, SessionShared, SessionView};
use crate::identity::{endpoint_before, endpoints_are_totally_ordered, EndpointId};
use crate::octets::{be_value, bytes_eq, bytes_less, lemma_be_value_injective};
use crate::table::{
    distinct_keys, has_key, key_index, lemma_key_index, lemma_with_value, lemma_without_key,
    lookup, value_of, with_value, without_key, IdTable, NameTable,
};
use crate::text::text_eq;

verus! {

/// A session and the endpoint that started it.
#[derive(Debug)]
pub struct RegistryEntry {
    pub shared: SessionShared,
    pub initiator: Option<EndpointId>,
}

/// What a [`RegistryEntry`] holds.
pub struct EntryView {
    pub session: SessionView,
    pub initiator: Option<Seq<u8>>,
}

impl View for RegistryEntry {
    type V = EntryView;

    open spec fn view(&self) -> EntryView {
        EntryView {
            session: self.shared.view(),
            initiator: match self.initiator {
                Some(id) => Some(id@),
                None => None,
            },
        }
    }
}

/// All sessions, the session of each peer, and the ids of ended sessions.
#[derive(Debug)]
pub struct SessionRegistry {
    sessions: IdTable<16, RegistryEntry>,
    peers: NameTable<Id16>,
    tombstones: Vec<Id16>,
}

/// What a [`SessionRegistry`] holds.
pub struct RegistryView {
    pub sessions: Seq<(Seq<u8>, EntryView)>,
    pub peers: Seq<(Seq<char>, Seq<u8>)>,
    pub tombstones: Set<Seq<u8>>,
}

/// The ids in a list.
pub open spec fn id_set(v: Seq<Id16>) -> Set<Seq<u8>> {
    Set::new(|x: Seq<u8>| exists|i: int| 0 <= i < v.len() && (#[trigger] v[i])@ == x)
}

impl RegistryView {
    /// The tables are in order, and every session is well-formed and has its own id.
    pub open spec fn wf(self) -> bool {
        &&& distinct_keys(self.sessions)
        &&& distinct_keys(self.peers)
        &&& forall|i: int|
            0 <= i < self.sessions.len() ==> (#[trigger] self.sessions[i]).1.session.wf()
                && self.sessions[i].1.session.session_id@ == self.sessions[i].0
    }
}

/// Every session is the one of its peer.
pub open spec fn one_session_per_peer(r: RegistryView) -> bool {
    forall|sid: Seq<u8>| #[trigger]
        has_key(r.sessions, sid) ==> lookup(
            r.peers,
            value_of(r.sessions, sid).session.peer_id,
        ) == Some(sid)
}

/// The session has ended.
pub open spec fn terminal(p: SessionPhase) -> bool {
    p == SessionPhase::Dead || p == SessionPhase::Closed
}

/// Without a session; its peer has none any more if this was the one.
pub open spec fn forgotten(r: RegistryView, sid: Seq<u8>) -> RegistryView {
    let peer = value_of(r.sessions, sid).session.peer_id;
    RegistryView {
        sessions: without_key(r.sessions, sid),
        peers: if lookup(r.peers, peer) == Some(sid) {
            without_key(r.peers, peer)
        } else {
            r.peers
        },
        ..r
    }
}

/// Without a session, whose id is gone for good.
pub open spec fn buried(r: RegistryView, sid: Seq<u8>) -> RegistryView {
    let f = forgotten(r, sid);
    RegistryView { tombstones: f.tombstones.insert(sid), ..f }
}

/// The sessions from place `i` on are checked, and those that have ended are buried.
pub open spec fn reaped_from(r: RegistryView, i: int) -> RegistryView
    decreases r.sessions.len() - i,
{
    if i < 0 || i >= r.sessions.len() {
        r
    } else if terminal(r.sessions[i].1.session.ctl.phase) {
        let b = buried(r, r.sessions[i].0);
        if b.sessions.len() < r.sessions.len() {
            reaped_from(b, i)
        } else {
            r
        }
    } else {
        reaped_from(r, i + 1)
    }
}

/// All sessions that have ended are buried.
pub open spec fn reaped(r: RegistryView) -> RegistryView {
    reaped_from(r, 0)
}

/// The order of attempts to start a session: by endpoint, then by session id.
pub open spec fn attempt_before(a: Seq<u8>, x: Seq<u8>, b: Seq<u8>, y: Seq<u8>) -> bool {
    endpoint_before(a, b) || (a == b && be_value(x) < be_value(y))
}

/// The answer to an attempt to start a session.
#[derive(Debug)]
pub enum InitAdmission {
    /// Admitted: a new session, or the same one again.
    Admitted { fresh: bool },
    /// The session belongs to another peer.
    PeerMismatch,
    /// The session has another token.
    TokenMismatch,
    /// The session has ended.
    TokenRevoked,
    /// The peer has this session already.
    Canonical(Id16),
    /// Admitted; this session of the peer gave way.
    Replaced(SessionShared),
}

/// What an [`InitAdmission`] says.
pub enum AdmissionView {
    Admitted { fresh: bool },
    PeerMismatch,
    TokenMismatch,
    TokenRevoked,
    Canonical(Seq<u8>),
    Replaced(SessionView),
}

impl View for InitAdmission {
    type V = AdmissionView;

    open spec fn view(&self) -> AdmissionView {
        match self {
            InitAdmission::Admitted { fresh } => AdmissionView::Admitted { fresh: *fresh },
            InitAdmission::PeerMismatch => AdmissionView::PeerMismatch,
            InitAdmission::TokenMismatch => AdmissionView::TokenMismatch,
            InitAdmission::TokenRevoked => AdmissionView::TokenRevoked,
            InitAdmission::Canonical(id) => AdmissionView::Canonical(id@),
            InitAdmission::Replaced(s) => AdmissionView::Replaced(s.view()),
        }
    }
}

/// The registry with a session that a peer starts.
pub open spec fn with_session(
    r: RegistryView,
    session: SessionView,
    peer: Seq<char>,
    initiator: Seq<u8>,
) -> RegistryView {
    let sid = session.session_id@;
    RegistryView {
        sessions: with_value(r.sessions, sid, EntryView { session, initiator: Some(initiator) }),
        peers: with_value(r.peers, peer, sid),
        ..r
    }
}

/// The answer for a session id that is known or gone.
pub open spec fn known_answer(r: RegistryView, sid: Seq<u8>, token: Id16, peer: Seq<char>) -> Option<
    AdmissionView,
> {
    if r.tombstones.contains(sid) {
        Some(AdmissionView::TokenRevoked)
    } else if has_key(r.sessions, sid) {
        let s = value_of(r.sessions, sid).session;
        if s.peer_id != peer {
            Some(AdmissionView::PeerMismatch)
        } else if s.ctl.tokens.current.1 != token {
            Some(AdmissionView::TokenMismatch)
        } else {
            Some(AdmissionView::Admitted { fresh: false })
        }
    } else {
        None
    }
}

/// An attempt of a peer to start a session. A known id is answered from what is known; a
/// peer that has a session keeps it, unless that one is still being negotiated and this
/// attempt comes first in the order of attempts.
pub open spec fn admitted(
    before: RegistryView,
    session_id: Id16,
    token: Id16,
    peer: Seq<char>,
    incoming: Seq<u8>,
    limits: JournalLimits,
) -> (RegistryView, AdmissionView) {
    let r = reaped(before);
    let sid = session_id@;
    let session = fresh_session(session_id, token, peer, false, limits);
    match known_answer(r, sid, token, peer) {
        Some(a) => (r, a),
        None => if has_key(r.peers, peer) && has_key(r.sessions, value_of(r.peers, peer)) {
            let canonical = value_of(r.peers, peer);
            let e = value_of(r.sessions, canonical);
            if e.session.ctl.phase == SessionPhase::Negotiating && e.initiator is Some
                && attempt_before(incoming, sid, e.initiator->0, canonical) {
                let f = RegistryView {
                    sessions: without_key(r.sessions, canonical),
                    peers: without_key(r.peers, peer),
                    ..r
                };
                (with_session(f, session, peer, incoming), AdmissionView::Replaced(e.session))
            } else {
                (r, AdmissionView::Canonical(canonical))
            }
        } else {
            (
                with_session(r, session, peer, incoming),
                AdmissionView::Admitted { fresh: true },
            )
        },
    }
}

/// Entering a session that this node starts: a peer that has a session keeps it.
pub open spec fn registered(
    before: RegistryView,
    session: SessionView,
    peer: Seq<char>,
    initiator: Seq<u8>,
) -> (RegistryView, (Seq<u8>, bool)) {
    let r = reaped(before);
    if has_key(r.peers, peer) && has_key(r.sessions, value_of(r.peers, peer)) {
        (r, (value_of(r.peers, peer), false))
    } else {
        let f = RegistryView { peers: without_key(r.peers, peer), ..r };
        (with_session(f, session, peer, initiator), (session.session_id@, true))
    }
}

/// The session that a resume request finds.
#[derive(Debug, Clone, Copy, PartialEq, Eq, Structural)]
pub enum ResumeLookup {
    Active,
    Revoked,
    Missing,
}

pub open spec fn resume_lookup(r: RegistryView, sid: Seq<u8>) -> ResumeLookup {
    if has_key(r.sessions, sid) {
        ResumeLookup::Active
    } else if r.tombstones.contains(sid) {
        ResumeLookup::Revoked
    } else {
        ResumeLookup::Missing
    }
}

proof fn lemma_id_set_push(v: Seq<Id16>, x: Id16)
    ensures
        id_set(v.push(x)) == id_set(v).insert(x@),
{
    let a = id_set(v.push(x));
    let b = id_set(v).insert(x@);
    assert forall|y: Seq<u8>| a.contains(y) <==> b.contains(y) by {
        if a.contains(y) {
            let i = choose|i: int| 0 <= i < v.push(x).len() && (#[trigger] v.push(x)[i])@ == y;
            if i < v.len() {
                assert(v[i]@ == y);
            }
        }
        if b.contains(y) {
            if y == x@ {
                assert(v.push(x)[v.len() as int]@ == y);
            } else {
                let i = choose|i: int| 0 <= i < v.len() && (#[trigger] v[i])@ == y;
                assert(v.push(x)[i]@ == y);
            }
        }
    }
    assert(a =~= b);
}

pub proof fn lemma_forgotten_wf(r: RegistryView, sid: Seq<u8>)
    requires
        r.wf(),
    ensures
        forgotten(r, sid).wf(),
        buried(r, sid).wf(),
        has_key(r.sessions, sid) ==> forgotten(r, sid).sessions.len() == r.sessions.len() - 1,
{
    lemma_without_key(r.sessions, sid);
    lemma_without_key(r.peers, value_of(r.sessions, sid).session.peer_id);
    let t = without_key(r.sessions, sid);
    if has_key(r.sessions, sid) {
        let at = key_index(r.sessions, sid);
        assert(0 <= at < r.sessions.len() && r.sessions[at].0 == sid);
        assert forall|i: int| 0 <= i < t.len() implies (#[trigger] t[i]).1.session.wf()
            && t[i].1.session.session_id@ == t[i].0 by {
            let k = if i < at {
                i
            } else {
                i + 1
            };
            assert(t[i] == r.sessions[k]);
        }
    }
}

pub proof fn lemma_with_session_wf(
    r: RegistryView,
    session: SessionView,
    peer: Seq<char>,
    initiator: Seq<u8>,
)
    requires
        r.wf(),
        session.wf(),
    ensures
        with_session(r, session, peer, initiator).wf(),
{
    let sid = session.session_id@;
    let e = EntryView { session, initiator: Some(initiator) };
    lemma_with_value(r.sessions, sid, e);
    lemma_with_value(r.peers, peer, sid);
    let t = with_value(r.sessions, sid, e);
    assert forall|i: int| 0 <= i < t.len() implies (#[trigger] t[i]).1.session.wf()
        && t[i].1.session.session_id@ == t[i].0 by {
        if i < r.sessions.len() && t[i] == r.sessions[i] {
            assert(r.sessions[i].1.session.wf());
        }
    }
}

pub proof fn lemma_reaped_wf(r: RegistryView, i: int)
    requires
        r.wf(),
        0 <= i,
    ensures
        reaped_from(r, i).wf(),
    decreases r.sessions.len() - i,
{
    if i < r.sessions.len() {
        if terminal(r.sessions[i].1.session.ctl.phase) {
            lemma_key_index(r.sessions, i);
            lemma_forgotten_wf(r, r.sessions[i].0);
            lemma_reaped_wf(buried(r, r.sessions[i].0), i);
        } else {
            lemma_reaped_wf(r, i + 1);
        }
    }
}

impl SessionRegistry {
    pub closed spec fn view(&self) -> RegistryView {
        RegistryView {
            sessions: self.sessions.view(),
            peers: self.peers.view(),
            tombstones: id_set(self.tombstones@),
        }
    }

    pub open spec fn wf(&self) -> bool {
        self.view().wf()
    }

    pub fn new() -> (r: Self)
        ensures
            r.wf(),
            r.view() == (RegistryView {
                sessions: Seq::empty(),
                peers: Seq::empty(),
                tombstones: Set::empty(),
            }),
    {
        let r = SessionRegistry {
            sessions: IdTable::new(),
            peers: NameTable::new(),
            tombstones: Vec::new(),
        };
        assert(r.view().tombstones =~= Set::empty());
        r
    }

    /// Whether an id is gone for good.
    fn is_buried(&self, sid: &Id16) -> (r: bool)
        ensures
            r == self.view().tombstones.contains(sid@),
    {
        let n: usize = self.tombstones.len();
        let mut i: usize = 0;
        while i < n
            invariant
                i <= n,
                n == self.tombstones@.len(),
                forall|j: int| 0 <= j < i ==> (#[trigger] self.tombstones@[j])@ != sid@,
            decreases n - i,
        {
            if bytes_eq(&self.tombstones[i], sid) {
                assert(self.tombstones@[i as int]@ == sid@);
                return true;
            }
            i = i + 1;
        }
        false
    }

    /// Removes a session that is there; its peer has none any more if this was the one.
    fn forget(&mut self, sid: &Id16) -> (r: RegistryEntry)
        requires
            old(self).wf(),
            has_key(old(self).view().sessions, sid@),
        ensures
            final(self).wf(),
            final(self).view() == forgotten(old(self).view(), sid@),
            r@ == value_of(old(self).view().sessions, sid@),
            r.shared.wf(),
    {
        let ghost r0 = self.view();
        proof {
            lemma_forgotten_wf(r0, sid@);
            let at = key_index(r0.sessions, sid@);
            assert(0 <= at < r0.sessions.len() && r0.sessions[at].0 == sid@);
            assert(r0.sessions[at].1.session.wf());
        }
        let entry = match self.sessions.remove(sid) {
            Some(e) => e,
            None => {
                assert(false);
                vstd::pervasive::unreached()
            },
        };
        let is_canonical = match self.peers.find(entry.shared.peer_id()) {
            Some(i) => bytes_eq(self.peers.at(i), sid),
            None => false,
        };
        if is_canonical {
            let _ = self.peers.remove(entry.shared.peer_id());
        }
        entry
    }

    /// Buries the sessions that have ended.
    fn reap_terminal(&mut self)
        requires
            old(self).wf(),
        ensures
            final(self).wf(),
            final(self).view() == reaped(old(self).view()),
    {
        let mut i: usize = 0;
        loop
            invariant
                self.wf(),
                i <= self.view().sessions.len(),
                reaped_from(self.view(), i as int) == reaped(old(self).view()),
            ensures
                self.wf(),
                self.view() == reaped(old(self).view()),
            decreases self.view().sessions.len() - i,
        {
            if i >= self.sessions.len() {
                break;
            }
            let p = self.sessions.at(i).shared.phase();
            if p == SessionPhase::Dead || p == SessionPhase::Closed {
                let sid = self.sessions.key_at(i);
                let ghost before = self.view();
                proof {
                    lemma_key_index(before.sessions, i as int);
                    lemma_forgotten_wf(before, sid@);
                }
                let _ = self.forget(&sid);
                let ghost t = self.tombstones@;
                self.tombstones.push(sid);
                proof {
                    lemma_id_set_push(t, sid);
                    assert(self.view() == buried(before, sid@));
                }
            } else {
                i = i + 1;
            }
        }
    }

    /// The answer for an id that is known or gone.
    fn answer_known(&self, sid: &Id16, token: &Id16, peer_id: &str) -> (r: Option<InitAdmission>)
        requires
            self.wf(),
        ensures
            match r {
                Some(a) => known_answer(self.view(), sid@, *token, peer_id@) == Some(a@),
                None => known_answer(self.view(), sid@, *token, peer_id@) is None,
            },
    {
        if self.is_buried(sid) {
            return Some(InitAdmission::TokenRevoked);
        }
        if let Some(i) = self.sessions.find(sid) {
            let s = &self.sessions.at(i).shared;
            if !text_eq(s.peer_id(), peer_id) {
                return Some(InitAdmission::PeerMismatch);
            }
            if !s.init_token_is(token) {
                return Some(InitAdmission::TokenMismatch);
            }
            return Some(InitAdmission::Admitted { fresh: false });
        }
        None
    }

    /// The session of a peer.
    fn session_of_peer(&self, peer_id: &str) -> (r: Option<Id16>)
        requires
            self.wf(),
        ensures
            match r {
                Some(c) => has_key(self.view().peers, peer_id@) && value_of(
                    self.view().peers,
                    peer_id@,
                ) == c@ && has_key(self.view().sessions, c@),
                None => !(has_key(self.view().peers, peer_id@) && has_key(
                    self.view().sessions,
                    value_of(self.view().peers, peer_id@),
                )),
            },
    {
        match self.peers.find(peer_id) {
            Some(i) => {
                let c = *self.peers.at(i);
                if self.sessions.contains(&c) {
                    Some(c)
                } else {
                    None
                }
            },
            None => None,
        }
    }

    /// Takes the attempt of a peer to start a session.
    pub fn admit_init_ordered(
        &mut self,
        session_id: Id16,
        token: Id16,
        peer_id: String,
        incoming_endpoint: EndpointId,
        limits: JournalLimits,
    ) -> (r: InitAdmission)
        requires
            old(self).wf(),
        ensures
            final(self).wf(),
            (final(self).view(), r@) == admitted(
                old(self).view(),
                session_id,
                token,
                peer_id@,
                incoming_endpoint@,
                limits,
            ),
    {
        self.reap_terminal();
        let ghost r1 = self.view();
        if let Some(a) = self.answer_known(&session_id, &token, peer_id.as_str()) {
            return a;
        }
        let mut replaced: Option<SessionShared> = None;
        if let Some(canonical) = self.session_of_peer(peer_id.as_str()) {
            let wins = match self.sessions.find(&canonical) {
                Some(i) => {
                    let e = self.sessions.at(i);
                    e.shared.phase() == SessionPhase::Negotiating && (match &e.initiator {
                        Some(id) => incoming_endpoint.before(id) || (incoming_endpoint.same(id)
                            && bytes_less(&session_id, &canonical)),
                        None => false,
                    })
                },
                None => false,
            };
            if !wins {
                return InitAdmission::Canonical(canonical);
            }
            proof {
                lemma_without_key(r1.sessions, canonical@);
                lemma_without_key(r1.peers, peer_id@);
                lemma_forgotten_wf(r1, canonical@);
            }
            if let Some(e) = self.sessions.remove(&canonical) {
                replaced = Some(e.shared);
            }
            let _ = self.peers.remove(peer_id.as_str());
        }
        let ghost r2 = self.view();
        let shared = SessionShared::new(session_id, token, peer_id.clone(), false, limits);
        proof {
            lemma_with_session_wf(r2, shared.view(), peer_id@, incoming_endpoint@);
        }
        self.sessions.put(
            session_id,
            RegistryEntry { shared, initiator: Some(incoming_endpoint) },
        );
        self.peers.put(peer_id, session_id);
        match replaced {
            Some(old_session) => InitAdmission::Replaced(old_session),
            None => InitAdmission::Admitted { fresh: true },
        }
    }

    /// Enters a session that this node starts; gives the id of the session that the peer
    /// has now and whether it is this one.
    pub fn register_local(
        &mut self,
        shared: SessionShared,
        peer_id: String,
        initiator: EndpointId,
    ) -> (r: (Id16, bool))
        requires
            old(self).wf(),
            shared.wf(),
        ensures
            final(self).wf(),
            ({
                let (t, x) = registered(old(self).view(), shared.view(), peer_id@, initiator@);
                &&& final(self).view() == t
                &&& r.0@ == x.0
                &&& r.1 == x.1
            }),
    {
        self.reap_terminal();
        let ghost r1 = self.view();
        if let Some(canonical) = self.session_of_peer(peer_id.as_str()) {
            return (canonical, false);
        }
        proof {
            lemma_without_key(r1.peers, peer_id@);
            lemma_with_session_wf(
                RegistryView { peers: without_key(r1.peers, peer_id@), ..r1 },
                shared.view(),
                peer_id@,
                initiator@,
            );
        }
        let _ = self.peers.remove(peer_id.as_str());
        let sid = shared.session_id();
        self.sessions.put(sid, RegistryEntry { shared, initiator: Some(initiator) });
        self.peers.put(peer_id, sid);
        (sid, true)
    }

    /// Ends a session: gives it back dead, and its id is gone for good.
    pub fn remove_if(&mut self, session_id: &Id16) -> (r: Option<SessionShared>)
        requires
            old(self).wf(),
        ensures
            final(self).wf(),
            if has_key(old(self).view().sessions, session_id@) {
                let s = value_of(old(self).view().sessions, session_id@).session;
                &&& r is Some
                &&& r->0.view() == (SessionView {
                    ctl: ResumeCtl { phase: SessionPhase::Dead, ..s.ctl },
                    ..s
                })
                &&& final(self).view() == buried(old(self).view(), session_id@)
            } else {
                r is None && final(self).view() == old(self).view()
            },
    {
        if !self.sessions.contains(session_id) {
            return None;
        }
        let ghost r0 = self.view();
        proof {
            lemma_forgotten_wf(r0, session_id@);
        }
        let entry = self.forget(session_id);
        let mut shared = entry.shared;
        shared.set_phase(SessionPhase::Dead);
        let ghost t = self.tombstones@;
        self.tombstones.push(*session_id);
        proof {
            lemma_id_set_push(t, *session_id);
        }
        Some(shared)
    }

    /// Whether a session is there.
    pub fn contains(&mut self, session_id: &Id16) -> (r: bool)
        requires
            old(self).wf(),
        ensures
            final(self).wf(),
            final(self).view() == reaped(old(self).view()),
            r == has_key(final(self).view().sessions, session_id@),
    {
        self.reap_terminal();
        self.sessions.contains(session_id)
    }

    /// A session that is there.
    pub fn get(&mut self, session_id: &Id16) -> (r: Option<&SessionShared>)
        requires
            old(self).wf(),
        ensures
            final(self).wf(),
            final(self).view() == reaped(old(self).view()),
            match r {
                Some(s) => has_key(reaped(old(self).view()).sessions, session_id@) && s.view()
                    == value_of(reaped(old(self).view()).sessions, session_id@).session,
                None => !has_key(reaped(old(self).view()).sessions, session_id@),
            },
    {
        self.reap_terminal();
        match self.sessions.find(session_id) {
            Some(i) => Some(&self.sessions.at(i).shared),
            None => None,
        }
    }

    /// A session that is there, without burying ended ones first.
    pub fn peek(&self, session_id: &Id16) -> (r: Option<&SessionShared>)
        requires
            self.wf(),
        ensures
            match r {
                Some(s) => has_key(self.view().sessions, session_id@) && s.view() == value_of(
                    self.view().sessions,
                    session_id@,
                ).session,
                None => !has_key(self.view().sessions, session_id@),
            },
    {
        match self.sessions.find(session_id) {
            Some(i) => Some(&self.sessions.at(i).shared),
            None => None,
        }
    }

    /// A session that is there, to be changed in its place.
    pub fn session_mut(&mut self, session_id: &Id16) -> (r: Option<&mut SessionShared>)
        requires
            old(self).wf(),
        ensures
            match r {
                Some(s) => {
                    let e = value_of(old(self).view().sessions, session_id@);
                    &&& has_key(old(self).view().sessions, session_id@)
                    &&& (*s).view() == e.session
                    &&& (*s).wf()
                    &&& final(self).view() == (RegistryView {
                        sessions: with_value(
                            old(self).view().sessions,
                            session_id@,
                            EntryView { session: (*final(s)).view(), ..e },
                        ),
                        ..old(self).view()
                    })
                },
                None => !has_key(old(self).view().sessions, session_id@) && final(self).view()
                    == old(self).view(),
            },
    {
        match self.sessions.find(session_id) {
            Some(i) => {
                assert(self.view().sessions[i as int].1.session.wf());
                let e = self.sessions.at_mut(i);
                Some(&mut e.shared)
            },
            None => None,
        }
    }

    /// What a resume request finds.
    pub fn lookup_resume(&mut self, session_id: &Id16) -> (r: ResumeLookup)
        requires
            old(self).wf(),
        ensures
            final(self).wf(),
            final(self).view() == reaped(old(self).view()),
            r == resume_lookup(final(self).view(), session_id@),
    {
        self.reap_terminal();
        if self.sessions.contains(session_id) {
            return ResumeLookup::Active;
        }
        if self.is_buried(session_id) {
            ResumeLookup::Revoked
        } else {
            ResumeLookup::Missing
        }
    }

    /// The session of a peer that a caller can share.
    pub fn reusable_for_peer(&mut self, peer_id: &str) -> (r: Option<Id16>)
        requires
            old(self).wf(),
        ensures
            final(self).wf(),
            final(self).view() == reaped(old(self).view()),
            match r {
                Some(c) => has_key(final(self).view().peers, peer_id@) && value_of(
                    final(self).view().peers,
                    peer_id@,
                ) == c@ && has_key(final(self).view().sessions, c@) && !terminal(
                    value_of(final(self).view().sessions, c@).session.ctl.phase,
                ),
                None => !(has_key(final(self).view().peers, peer_id@) && has_key(
                    final(self).view().sessions,
                    value_of(final(self).view().peers, peer_id@),
                ) && !terminal(
                    value_of(
                        final(self).view().sessions,
                        value_of(final(self).view().peers, peer_id@),
                    ).session.ctl.phase,
                )),
            },
    {
        self.reap_terminal();
        let c = match self.session_of_peer(peer_id) {
            Some(c) => c,
            None => return None,
        };
        let p = match self.sessions.find(&c) {
            Some(i) => self.sessions.at(i).shared.phase(),
            None => return None,
        };
        if p == SessionPhase::Dead || p == SessionPhase::Closed {
            None
        } else {
            Some(c)
        }
    }
}

/// An admitted session is there.
pub proof fn lemma_admitted_is_there(
    r: RegistryView,
    session_id: Id16,
    token: Id16,
    peer: Seq<char>,
    incoming: Seq<u8>,
    limits: JournalLimits,
)
    requires
        r.wf(),
    ensures
        ({
            let (t, a) = admitted(r, session_id, token, peer, incoming, limits);
            match a {
                AdmissionView::Admitted { fresh } => has_key(t.sessions, session_id@),
                AdmissionView::Replaced(_) => has_key(t.sessions, session_id@),
                AdmissionView::Canonical(c) => has_key(t.sessions, c),
                _ => true,
            }
        }),
{
    lemma_reaped_wf(r, 0);
    let q = reaped(r);
    let e = EntryView {
        session: fresh_session(session_id, token, peer, false, limits),
        initiator: Some(incoming),
    };
    lemma_with_value(q.sessions, session_id@, e);
    if has_key(q.peers, peer) {
        lemma_without_key(q.sessions, value_of(q.peers, peer));
        lemma_with_value(without_key(q.sessions, value_of(q.peers, peer)), session_id@, e);
    }
}

/// Changing a session in its place keeps the registry well-formed.
pub proof fn lemma_session_changed(r: RegistryView, sid: Seq<u8>, session: SessionView)
    requires
        r.wf(),
        has_key(r.sessions, sid),
        session.wf(),
        session.session_id@ == sid,
    ensures
        (RegistryView {
            sessions: with_value(
                r.sessions,
                sid,
                EntryView { session, ..value_of(r.sessions, sid) },
            ),
            ..r
        }).wf(),
{
    let e = EntryView { session, ..value_of(r.sessions, sid) };
    lemma_with_value(r.sessions, sid, e);
    let t = with_value(r.sessions, sid, e);
    assert forall|i: int| 0 <= i < t.len() implies (#[trigger] t[i]).1.session.wf()
        && t[i].1.session.session_id@ == t[i].0 by {
        if t[i] == r.sessions[i] {
            assert(r.sessions[i].1.session.wf());
        }
    }
}

// ---- laws -------------------------------------------------------------------------

/// Two attempts to start a session with each other are ordered one way, so that both ends
/// keep the same one.
pub proof fn attempts_are_totally_ordered(a: Seq<u8>, x: Seq<u8>, b: Seq<u8>, y: Seq<u8>)
    requires
        a.len() == 32,
        b.len() == 32,
        x.len() == 16,
        y.len() == 16,
        a != b || x != y,
    ensures
        attempt_before(a, x, b, y) != attempt_before(b, y, a, x),
{
    endpoints_are_totally_ordered(a, b);
    if be_value(x) == be_value(y) {
        lemma_be_value_injective(x, y);
    }
}

/// Forgetting a session leaves the other peers theirs.
proof fn lemma_forgotten_canonical(r: RegistryView, sid: Seq<u8>)
    requires
        r.wf(),
        has_key(r.sessions, sid),
        one_session_per_peer(r),
    ensures
        one_session_per_peer(forgotten(r, sid)),
{
    let f = forgotten(r, sid);
    let peer = value_of(r.sessions, sid).session.peer_id;
    lemma_without_key(r.sessions, sid);
    lemma_without_key(r.peers, peer);
    assert forall|k: Seq<u8>| #[trigger] has_key(f.sessions, k) implies lookup(
        f.peers,
        value_of(f.sessions, k).session.peer_id,
    ) == Some(k) by {
        assert(has_key(r.sessions, k));
        assert(lookup(f.sessions, k) == lookup(r.sessions, k));
        let p = value_of(r.sessions, k).session.peer_id;
        assert(lookup(r.peers, p) == Some(k));
        if p != peer {
            assert(lookup(without_key(r.peers, peer), p) == lookup(r.peers, p));
        }
    }
}

proof fn lemma_reaped_canonical(r: RegistryView, i: int)
    requires
        r.wf(),
        0 <= i,
        one_session_per_peer(r),
    ensures
        one_session_per_peer(reaped_from(r, i)),
    decreases r.sessions.len() - i,
{
    if i < r.sessions.len() {
        if terminal(r.sessions[i].1.session.ctl.phase) {
            let sid = r.sessions[i].0;
            lemma_key_index(r.sessions, i);
            lemma_forgotten_wf(r, sid);
            lemma_forgotten_canonical(r, sid);
            let b = buried(r, sid);
            assert(one_session_per_peer(b)) by {
                assert forall|k: Seq<u8>| #[trigger] has_key(b.sessions, k) implies lookup(
                    b.peers,
                    value_of(b.sessions, k).session.peer_id,
                ) == Some(k) by {
                    assert(has_key(forgotten(r, sid).sessions, k));
                }
            }
            lemma_reaped_canonical(b, i);
        } else {
            lemma_reaped_canonical(r, i + 1);
        }
    }
}

proof fn lemma_with_session_canonical(
    r: RegistryView,
    session: SessionView,
    peer: Seq<char>,
    initiator: Seq<u8>,
)
    requires
        r.wf(),
        one_session_per_peer(r),
        session.peer_id == peer,
        !has_key(r.sessions, session.session_id@),
        !(has_key(r.peers, peer) && has_key(r.sessions, value_of(r.peers, peer))),
    ensures
        one_session_per_peer(with_session(r, session, peer, initiator)),
{
    let sid = session.session_id@;
    let e = EntryView { session, initiator: Some(initiator) };
    let t = with_session(r, session, peer, initiator);
    lemma_with_value(r.sessions, sid, e);
    lemma_with_value(r.peers, peer, sid);
    assert forall|k: Seq<u8>| #[trigger] has_key(t.sessions, k) implies lookup(
        t.peers,
        value_of(t.sessions, k).session.peer_id,
    ) == Some(k) by {
        if k == sid {
            assert(lookup(t.sessions, k) == Some(e));
        } else {
            assert(has_key(r.sessions, k));
            assert(lookup(t.sessions, k) == lookup(r.sessions, k));
            let p = value_of(r.sessions, k).session.peer_id;
            assert(lookup(r.peers, p) == Some(k));
            assert(p != peer);
            assert(lookup(t.peers, p) == lookup(r.peers, p));
        }
    }
}

/// A peer never has two sessions: an attempt of a peer keeps that so, whatever its answer.
pub proof fn admission_keeps_one_session_per_peer(
    r: RegistryView,
    session_id: Id16,
    token: Id16,
    peer: Seq<char>,
    incoming: Seq<u8>,
    limits: JournalLimits,
)
    requires
        r.wf(),
        one_session_per_peer(r),
    ensures
        one_session_per_peer(admitted(r, session_id, token, peer, incoming, limits).0),
{
    lemma_reaped_wf(r, 0);
    lemma_reaped_canonical(r, 0);
    let q = reaped(r);
    let session = fresh_session(session_id, token, peer, false, limits);
    if known_answer(q, session_id@, token, peer) is None {
        if has_key(q.peers, peer) && has_key(q.sessions, value_of(q.peers, peer)) {
            let canonical = value_of(q.peers, peer);
            let f = RegistryView {
                sessions: without_key(q.sessions, canonical),
                peers: without_key(q.peers, peer),
                ..q
            };
            lemma_without_key(q.sessions, canonical);
            lemma_without_key(q.peers, peer);
            lemma_forgotten_wf(q, canonical);
            assert forall|k: Seq<u8>| #[trigger] has_key(f.sessions, k) implies lookup(
                f.peers,
                value_of(f.sessions, k).session.peer_id,
            ) == Some(k) by {
                assert(has_key(q.sessions, k));
                assert(lookup(f.sessions, k) == lookup(q.sessions, k));
                let p = value_of(q.sessions, k).session.peer_id;
                assert(lookup(q.peers, p) == Some(k));
                assert(p != peer);
                assert(lookup(f.peers, p) == lookup(q.peers, p));
            }
            assert(f.wf());
            lemma_with_session_canonical(f, session, peer, incoming);
        } else {
            lemma_with_session_canonical(q, session, peer, incoming);
        }
    }
}

/// A peer never has two sessions: entering one that this node starts keeps that so.
pub proof fn registration_keeps_one_session_per_peer(
    r: RegistryView,
    session: SessionView,
    peer: Seq<char>,
    initiator: Seq<u8>,
)
    requires
        r.wf(),
        one_session_per_peer(r),
        session.peer_id == peer,
        !has_key(reaped(r).sessions, session.session_id@),
    ensures
        one_session_per_peer(registered(r, session, peer, initiator).0),
{
    lemma_reaped_wf(r, 0);
    lemma_reaped_canonical(r, 0);
    let q = reaped(r);
    if !(has_key(q.peers, peer) && has_key(q.sessions, value_of(q.peers, peer))) {
        let f = RegistryView { peers: without_key(q.peers, peer), ..q };
        lemma_without_key(q.peers, peer);
        assert forall|k: Seq<u8>| #[trigger] has_key(f.sessions, k) implies lookup(
            f.peers,
            value_of(f.sessions, k).session.peer_id,
        ) == Some(k) by {
            let p = value_of(q.sessions, k).session.peer_id;
            assert(has_key(q.sessions, k));
            assert(lookup(q.peers, p) == Some(k));
            assert(p != peer);
            assert(lookup(f.peers, p) == lookup(q.peers, p));
        }
        lemma_with_session_canonical(f, session, peer, initiator);
    }
}

/// An ended session never comes back: its id is refused, now and after any later attempt.
pub proof fn ended_sessions_stay_ended(
    r: RegistryView,
    gone: Id16,
    token: Id16,
    peer: Seq<char>,
    incoming: Seq<u8>,
    limits: JournalLimits,
    other: Id16,
)
    requires
        r.wf(),
        r.tombstones.contains(gone@),
    ensures
        admitted(r, gone, token, peer, incoming, limits).1 == AdmissionView::TokenRevoked,
        admitted(r, other, token, peer, incoming, limits).0.tombstones.contains(gone@),
{
    lemma_reaped_tombstones(r, 0, gone@);
}

proof fn lemma_reaped_tombstones(r: RegistryView, i: int, gone: Seq<u8>)
    requires
        r.tombstones.contains(gone),
        0 <= i,
    ensures
        reaped_from(r, i).tombstones.contains(gone),
    decreases r.sessions.len() - i,
{
    if i < r.sessions.len() {
        if terminal(r.sessions[i].1.session.ctl.phase) {
            let b = buried(r, r.sessions[i].0);
            if b.sessions.len() < r.sessions.len() {
                lemma_reaped_tombstones(b, i, gone);
            }
        } else {
            lemma_reaped_tombstones(r, i + 1, gone);
        }
    }
}

} // verus!
