//! Resume control of a session: the credentials of two generations, the decision on
//! a resume request, and the channel that currently owns the session.
use vstd::prelude::*;

use crate::octets::bytes_eq;

verus! {

/// A session id, token or nonce.
pub type Id16 = [u8; 16];

/// The id with the given bytes.
pub open spec fn id16_of(s: Seq<u8>) -> Id16 {
    choose|a: Id16| #[trigger] a@ == s
}

/// An id is determined by its bytes.
pub proof fn lemma_id16(a: Id16, b: Id16)
    ensures
        id16_of(a@) == a,
        a@ == b@ ==> a == b,
{
    let c = id16_of(a@);
    assert(c@ == a@);
    assert forall|i: int| 0 <= i < 16 implies c[i] == a[i] by {
        assert(c@[i] == a@[i]);
    }
    assert(c =~= a);
    if a@ == b@ {
        assert forall|i: int| 0 <= i < 16 implies b[i] == a[i] by {
            assert(b@[i] == a@[i]);
        }
        assert(b =~= a);
    }
}

/// Whether two ids are equal.
pub fn same16(a: &Id16, b: &Id16) -> (r: bool)
    ensures
        r == (*a == *b),
{
    proof {
        lemma_id16(*a, *b);
    }
    bytes_eq(a, b)
}

/// Phase of a session.
#[derive(Debug, Clone, Copy, PartialEq, Eq, Structural)]
pub enum SessionPhase {
    Negotiating,
    Active,
    Recovering,
    Dead,
    Closed,
}

/// Rule for taking over a session with a new channel.
#[derive(Debug, Clone, Copy, PartialEq, Eq, Structural)]
pub enum InstallPolicy {
    /// The new channel takes over.
    Force,
    /// The new channel takes over only where no channel is alive.
    IfVacant,
}

// ---- tokens -----------------------------------------------------------------------

/// The current resume credentials and, until the current ones are confirmed, those
/// before: `(generation, token)`.
#[derive(Debug, Clone, Copy, PartialEq, Eq)]
pub struct TokenWindow {
    pub current: (u64, Id16),
    pub previous: Option<(u64, Id16)>,
}

/// The credentials match the current or the previous ones.
pub open spec fn token_known(w: TokenWindow, generation: u64, token: Id16) -> bool {
    w.current == (generation, token) || w.previous == Some((generation, token))
}

/// The window after new credentials: the current ones become the previous ones.
pub open spec fn token_rotated(w: TokenWindow, generation: u64, token: Id16) -> TokenWindow {
    TokenWindow { current: (generation, token), previous: Some(w.current) }
}

/// The generation whose token this is.
pub open spec fn generation_of(w: TokenWindow, token: Id16) -> Option<u64> {
    if w.current.1 == token {
        Some(w.current.0)
    } else {
        match w.previous {
            Some((g, t)) => if t == token {
                Some(g)
            } else {
                None
            },
            None => None,
        }
    }
}

impl TokenWindow {
    pub fn new(token: Id16) -> (r: Self)
        ensures
            r == (TokenWindow { current: (1, token), previous: None }),
    {
        TokenWindow { current: (1, token), previous: None }
    }

    /// Whether the credentials match the current or the previous ones.
    pub fn validate(&self, generation: u64, token: &[u8]) -> (r: bool)
        ensures
            r == ((self.current.0 == generation && self.current.1@ == token@) || match self.previous {
                Some((g, t)) => g == generation && t@ == token@,
                None => false,
            }),
    {
        if self.current.0 == generation && bytes_eq(&self.current.1, token) {
            return true;
        }
        match &self.previous {
            Some((g, t)) => *g == generation && bytes_eq(t, token),
            None => false,
        }
    }

    /// New credentials; the current ones become the previous ones.
    pub fn rotate(&mut self, new_generation: u64, new_token: Id16)
        ensures
            *final(self) == token_rotated(*old(self), new_generation, new_token),
    {
        self.previous = Some(self.current);
        self.current = (new_generation, new_token);
    }

    /// Rotates to the next generation if the credentials are known.
    pub fn try_rotate(&mut self, generation: u64, token: &Id16, new_token: Id16) -> (r: Option<
        (u64, Id16),
    >)
        requires
            token_known(*old(self), generation, *token) ==> old(self).current.0 < u64::MAX,
        ensures
            if token_known(*old(self), generation, *token) {
                let next = (old(self).current.0 + 1) as u64;
                r == Some((next, new_token)) && *final(self) == token_rotated(
                    *old(self),
                    next,
                    new_token,
                )
            } else {
                r is None && *final(self) == *old(self)
            },
    {
        let current_match = self.current.0 == generation && same16(&self.current.1, token);
        let previous_match = match &self.previous {
            Some((g, t)) => *g == generation && same16(t, token),
            None => false,
        };
        if !current_match && !previous_match {
            return None;
        }
        let new_generation: u64 = self.current.0 + 1;
        self.rotate(new_generation, new_token);
        Some((new_generation, new_token))
    }

    /// Forgets the previous credentials.
    pub fn clear_previous(&mut self)
        ensures
            *final(self) == (TokenWindow { current: old(self).current, previous: None }),
    {
        self.previous = None;
    }

    pub fn current(&self) -> (r: (u64, Id16))
        ensures
            r == self.current,
    {
        self.current
    }

    pub fn current_generation(&self) -> (r: u64)
        ensures
            r == self.current.0,
    {
        self.current.0
    }

    /// Whether this is the current token.
    pub fn current_token_is(&self, token: &Id16) -> (r: bool)
        ensures
            r == (self.current.1 == *token),
    {
        same16(&self.current.1, token)
    }

    /// The generation whose token this is.
    pub fn generation_for_token(&self, token: &Id16) -> (r: Option<u64>)
        ensures
            r == generation_of(*self, *token),
    {
        if same16(&self.current.1, token) {
            return Some(self.current.0);
        }
        match &self.previous {
            Some((g, t)) => if same16(t, token) {
                Some(*g)
            } else {
                None
            },
            None => None,
        }
    }
}

/// The window keeps two generations: after two rotations the credentials of the
/// first are unknown, unless a later rotation reused them.
pub proof fn window_keeps_two_generations(
    w: TokenWindow,
    g2: u64,
    t2: Id16,
    g3: u64,
    t3: Id16,
)
    requires
        w.current.0 < g2 < g3,
    ensures
        ({
            let w3 = token_rotated(token_rotated(w, g2, t2), g3, t3);
            &&& token_known(w3, g3, t3)
            &&& token_known(w3, g2, t2)
            &&& !token_known(w3, w.current.0, w.current.1)
        }),
{
}

// ---- decisions --------------------------------------------------------------------

/// The decision on one resume request. It names the request, what it presented and
/// what it was given; the lease tells decisions apart.
#[derive(Debug, Clone, Copy, PartialEq, Eq)]
pub struct ResumeDecision {
    pub nonce: Id16,
    pub from_generation: u64,
    pub from_token: Id16,
    pub result_generation: u64,
    pub result_token: Id16,
    pub lease_id: u64,
    pub remote_epoch: u64,
    pub cached: bool,
}

/// A decision whose channel has not been confirmed.
#[derive(Debug, Clone, Copy, PartialEq, Eq)]
pub struct PendingResume {
    pub decision: ResumeDecision,
    /// The channel that was installed for it.
    pub installed_owner: Option<u64>,
}

/// The two name the same decision, whether it was given fresh or again.
pub open spec fn same_decision(a: ResumeDecision, b: ResumeDecision) -> bool {
    ResumeDecision { cached: false, ..a } == ResumeDecision { cached: false, ..b }
}

/// Whether a decision is still the pending one.
pub fn decision_matches_pending(pending: &ResumeDecision, decision: &ResumeDecision) -> (r: bool)
    ensures
        r == same_decision(*pending, *decision),
{
    pending.lease_id == decision.lease_id && same16(&pending.nonce, &decision.nonce)
        && pending.from_generation == decision.from_generation && same16(
        &pending.from_token,
        &decision.from_token,
    ) && pending.result_generation == decision.result_generation && same16(
        &pending.result_token,
        &decision.result_token,
    ) && pending.remote_epoch == decision.remote_epoch
}

/// Everything that a resume changes, kept together so that a request sees and leaves
/// one consistent state.
#[derive(Debug, Clone, Copy, PartialEq, Eq)]
pub struct ResumeCtl {
    pub tokens: TokenWindow,
    pub phase: SessionPhase,
    /// Epoch of the connection that carries the current channel.
    pub active_epoch: u64,
    /// The current channel; grows with each installation.
    pub channel_owner: u64,
    /// The channel on record, once one was installed.
    pub channel: Option<u64>,
    pub pending: Option<PendingResume>,
    /// The previous credentials may still be used.
    pub previous_live: bool,
    /// Highest connection epoch that the peer has declared.
    pub last_seen_remote_epoch: u64,
    pub next_lease: u64,
    /// The channel whose first use confirms the current credentials.
    pub confirmation_owner: Option<u64>,
}

/// A pending decision that answers this request: the request comes again, from the
/// same connection where it names one. Once its token has left the window, the token
/// itself identifies what was presented.
pub open spec fn pending_answers(
    ctl: ResumeCtl,
    nonce: Id16,
    generation: Option<u64>,
    token: Id16,
    remote_epoch: u64,
) -> bool {
    match ctl.pending {
        Some(p) => p.decision.nonce == nonce && (match generation {
            Some(g) => p.decision.from_generation == g,
            None => true,
        }) && p.decision.from_token == token && (remote_epoch == 0 || p.decision.remote_epoch
            == remote_epoch),
        None => false,
    }
}

/// The generation that a request presents: that of its token where the request names
/// a connection epoch, else the one that it states.
pub open spec fn presented_generation(
    ctl: ResumeCtl,
    generation: u64,
    token: Id16,
    remote_epoch: u64,
) -> Option<u64> {
    if remote_epoch != 0 {
        generation_of(ctl.tokens, token)
    } else {
        Some(generation)
    }
}

/// The lease after the last one.
pub open spec fn next_lease_of(ctl: ResumeCtl) -> u64 {
    if ctl.next_lease < u64::MAX {
        (ctl.next_lease + 1) as u64
    } else {
        u64::MAX
    }
}

/// The credentials rotate on a resume request: no pending decision answers it, it is not
/// older than the connection seen last, and it presents known credentials.
pub open spec fn rotates(
    ctl: ResumeCtl,
    nonce: Id16,
    generation: u64,
    token: Id16,
    remote_epoch: u64,
) -> bool {
    let presented = presented_generation(ctl, generation, token, remote_epoch);
    &&& !pending_answers(ctl, nonce, presented, token, remote_epoch)
    &&& presented is Some
    &&& remote_epoch == 0 || remote_epoch >= ctl.last_seen_remote_epoch
    &&& token_known(ctl.tokens, presented->0, token)
}

/// A resume request can be decided on: where the credentials rotate, there is a next
/// generation.
pub open spec fn decidable(
    ctl: ResumeCtl,
    nonce: Id16,
    generation: u64,
    token: Id16,
    remote_epoch: u64,
) -> bool {
    rotates(ctl, nonce, generation, token, remote_epoch) ==> ctl.tokens.current.0 < u64::MAX
}

/// The decision on a resume request and the state that it leaves.
pub open spec fn decided(
    ctl: ResumeCtl,
    nonce: Id16,
    generation: u64,
    token: Id16,
    new_token: Id16,
    remote_epoch: u64,
) -> (ResumeCtl, Option<ResumeDecision>) {
    let presented = presented_generation(ctl, generation, token, remote_epoch);
    if pending_answers(ctl, nonce, presented, token, remote_epoch) {
        (ctl, Some(ResumeDecision { cached: true, ..ctl.pending->0.decision }))
    } else if presented is None {
        (ctl, None)
    } else if remote_epoch != 0 && remote_epoch < ctl.last_seen_remote_epoch {
        (ctl, None)
    } else if !token_known(ctl.tokens, presented->0, token) {
        (ctl, None)
    } else {
        let result_generation = (ctl.tokens.current.0 + 1) as u64;
        let decision = ResumeDecision {
            nonce,
            from_generation: presented->0,
            from_token: token,
            result_generation,
            result_token: new_token,
            lease_id: next_lease_of(ctl),
            remote_epoch,
            cached: false,
        };
        (
            ResumeCtl {
                tokens: token_rotated(ctl.tokens, result_generation, new_token),
                next_lease: next_lease_of(ctl),
                pending: Some(PendingResume { decision, installed_owner: None }),
                last_seen_remote_epoch: if remote_epoch != 0 {
                    remote_epoch
                } else {
                    ctl.last_seen_remote_epoch
                },
                previous_live: true,
                confirmation_owner: None,
                ..ctl
            },
            Some(decision),
        )
    }
}

/// The state after credentials that the peer issued: only a later generation counts.
pub open spec fn rotated_to(ctl: ResumeCtl, generation: u64, token: Id16) -> ResumeCtl {
    if ctl.tokens.current == (generation, token) || generation <= ctl.tokens.current.0 {
        ctl
    } else {
        ResumeCtl {
            tokens: token_rotated(ctl.tokens, generation, token),
            previous_live: true,
            confirmation_owner: None,
            ..ctl
        }
    }
}

/// The state after the first use of a channel: where that channel is the one that
/// confirms, the previous credentials and the pending decision are gone. Without a
/// channel the use counts as the one that confirms.
pub open spec fn confirmed(ctl: ResumeCtl, owner: Option<u64>) -> ResumeCtl {
    let matches_owner = match owner {
        Some(o) => ctl.channel_owner == o && ctl.confirmation_owner == Some(o),
        None => true,
    };
    if ctl.previous_live && matches_owner {
        ResumeCtl {
            pending: None,
            tokens: TokenWindow { current: ctl.tokens.current, previous: None },
            previous_live: false,
            confirmation_owner: None,
            ..ctl
        }
    } else {
        ctl
    }
}

/// A channel may be installed for this decision and generation.
pub open spec fn install_allowed(
    ctl: ResumeCtl,
    decision: Option<ResumeDecision>,
    expected_generation: Option<u64>,
) -> bool {
    &&& match decision {
        Some(d) => match ctl.pending {
            Some(p) => same_decision(p.decision, d) && (d.cached || p.installed_owner is None),
            None => false,
        },
        None => true,
    }
    &&& match expected_generation {
        Some(g) => ctl.tokens.current.0 == g,
        None => true,
    }
}

/// The state with a new channel in charge.
pub open spec fn installed(
    ctl: ResumeCtl,
    epoch: u64,
    decision: Option<ResumeDecision>,
) -> ResumeCtl {
    let owner = (ctl.channel_owner + 1) as u64;
    ResumeCtl {
        channel_owner: owner,
        active_epoch: epoch,
        channel: Some(owner),
        pending: match (decision, ctl.pending) {
            (Some(_), Some(p)) => Some(PendingResume { installed_owner: Some(owner), ..p }),
            _ => ctl.pending,
        },
        confirmation_owner: if ctl.previous_live {
            Some(owner)
        } else {
            ctl.confirmation_owner
        },
        ..ctl
    }
}

/// What to do about a new channel before it is installed.
#[derive(Debug, Clone, Copy, PartialEq, Eq, Structural)]
pub enum InstallStep {
    /// Close the new channel; nothing changes.
    Refuse,
    /// Stop the old channel first, then install.
    StopOld,
    /// Install.
    Proceed,
}

impl ResumeCtl {
    /// The channel on record is never ahead of the current one, the previous
    /// credentials belong to an earlier generation, and the pending lease is the
    /// last one given.
    pub open spec fn wf(self) -> bool {
        &&& match self.channel {
            Some(o) => o <= self.channel_owner,
            None => true,
        }
        &&& match self.tokens.previous {
            Some((g, _)) => g < self.tokens.current.0,
            None => true,
        }
        &&& match self.pending {
            Some(p) => p.decision.lease_id == self.next_lease,
            None => true,
        }
    }

    pub fn new(token: Id16) -> (r: Self)
        ensures
            r.wf(),
            r == (ResumeCtl {
                tokens: TokenWindow { current: (1, token), previous: None },
                phase: SessionPhase::Negotiating,
                active_epoch: 0,
                channel_owner: 0,
                channel: None,
                pending: None,
                previous_live: false,
                last_seen_remote_epoch: 0,
                next_lease: 0,
                confirmation_owner: None,
            }),
    {
        ResumeCtl {
            tokens: TokenWindow::new(token),
            phase: SessionPhase::Negotiating,
            active_epoch: 0,
            channel_owner: 0,
            channel: None,
            pending: None,
            previous_live: false,
            last_seen_remote_epoch: 0,
            next_lease: 0,
            confirmation_owner: None,
        }
    }

    /// Whether a channel is the current one.
    pub fn channel_is_current(&self, epoch: u64, owner: u64) -> (r: bool)
        ensures
            r == (self.active_epoch == epoch && self.channel_owner == owner),
    {
        self.active_epoch == epoch && self.channel_owner == owner
    }

    /// Takes credentials that the peer issued, unless they are not newer.
    pub fn rotate_token(&mut self, new_generation: u64, new_token: Id16)
        requires
            old(self).wf(),
        ensures
            final(self).wf(),
            *final(self) == rotated_to(*old(self), new_generation, new_token),
    {
        if self.tokens.current.0 == new_generation && same16(&self.tokens.current.1, &new_token) {
            return;
        }
        if new_generation <= self.tokens.current_generation() {
            return;
        }
        self.tokens.rotate(new_generation, new_token);
        self.previous_live = true;
        self.confirmation_owner = None;
    }

    /// Takes note of a connection epoch that the peer declared; `false` where it is
    /// zero or older than one seen before.
    pub fn observe_remote_epoch(&mut self, epoch: u64) -> (r: bool)
        requires
            old(self).wf(),
        ensures
            final(self).wf(),
            r == (epoch != 0 && epoch >= old(self).last_seen_remote_epoch),
            *final(self) == if r {
                ResumeCtl { last_seen_remote_epoch: epoch, ..*old(self) }
            } else {
                *old(self)
            },
    {
        if epoch == 0 {
            return false;
        }
        if epoch < self.last_seen_remote_epoch {
            return false;
        }
        self.last_seen_remote_epoch = epoch;
        true
    }

    /// Whether the pending decision answers this request.
    fn answers(&self, nonce: &Id16, generation: Option<u64>, token: &Id16, remote_epoch: u64) -> (r:
        bool)
        ensures
            r == pending_answers(*self, *nonce, generation, *token, remote_epoch),
    {
        match &self.pending {
            Some(p) => {
                let same_generation = match generation {
                    Some(g) => p.decision.from_generation == g,
                    None => true,
                };
                same16(&p.decision.nonce, nonce) && same_generation && same16(
                    &p.decision.from_token,
                    token,
                ) && (remote_epoch == 0 || p.decision.remote_epoch == remote_epoch)
            },
            None => false,
        }
    }

    /// Decides on a resume request that names no connection epoch.
    pub fn decide_resume(
        &mut self,
        nonce: Id16,
        generation: u64,
        token: &Id16,
        new_token: Id16,
    ) -> (r: Option<ResumeDecision>)
        requires
            old(self).wf(),
            decidable(*old(self), nonce, generation, *token, 0),
        ensures
            final(self).wf(),
            (*final(self), r) == decided(*old(self), nonce, generation, *token, new_token, 0),
    {
        self.decide_resume_with_epoch(nonce, generation, token, new_token, 0)
    }

    /// Decides on a resume request. A request that comes again gets the pending
    /// result again; any other must present known credentials, which rotate.
    pub fn decide_resume_with_epoch(
        &mut self,
        nonce: Id16,
        generation: u64,
        token: &Id16,
        new_token: Id16,
        remote_epoch: u64,
    ) -> (r: Option<ResumeDecision>)
        requires
            old(self).wf(),
            decidable(*old(self), nonce, generation, *token, remote_epoch),
        ensures
            final(self).wf(),
            (*final(self), r) == decided(
                *old(self),
                nonce,
                generation,
                *token,
                new_token,
                remote_epoch,
            ),
    {
        let presented: Option<u64> = if remote_epoch != 0 {
            self.tokens.generation_for_token(token)
        } else {
            Some(generation)
        };
        if self.answers(&nonce, presented, token, remote_epoch) {
            if let Some(p) = self.pending {
                let mut again = p.decision;
                again.cached = true;
                return Some(again);
            }
        }
        let from_generation: u64 = match presented {
            Some(g) => g,
            None => return None,
        };
        if remote_epoch != 0 && remote_epoch < self.last_seen_remote_epoch {
            return None;
        }
        let (g, t) = match self.tokens.try_rotate(from_generation, token, new_token) {
            Some(x) => x,
            None => return None,
        };
        if self.next_lease < u64::MAX {
            self.next_lease = self.next_lease + 1;
        }
        let decision = ResumeDecision {
            nonce,
            from_generation,
            from_token: *token,
            result_generation: g,
            result_token: t,
            lease_id: self.next_lease,
            remote_epoch,
            cached: false,
        };
        self.pending = Some(PendingResume { decision, installed_owner: None });
        if remote_epoch != 0 {
            self.last_seen_remote_epoch = remote_epoch;
        }
        self.previous_live = true;
        self.confirmation_owner = None;
        Some(decision)
    }

    /// Whether a request was refused because the peer has since used a later
    /// connection.
    pub fn resume_epoch_is_stale(
        &self,
        nonce: Id16,
        generation: u64,
        token: &Id16,
        remote_epoch: u64,
    ) -> (r: bool)
        ensures
            r == ({
                let presented = match presented_generation(*self, generation, *token, remote_epoch) {
                    Some(g) => g,
                    None => generation,
                };
                &&& !pending_answers(*self, nonce, Some(presented), *token, remote_epoch)
                &&& remote_epoch != 0
                &&& remote_epoch < self.last_seen_remote_epoch
            }),
    {
        let presented: u64 = if remote_epoch != 0 {
            match self.tokens.generation_for_token(token) {
                Some(g) => g,
                None => generation,
            }
        } else {
            generation
        };
        if self.answers(&nonce, Some(presented), token, remote_epoch) {
            return false;
        }
        remote_epoch != 0 && remote_epoch < self.last_seen_remote_epoch
    }

    /// Takes note that a channel was used.
    pub fn note_confirmed(&mut self, owner: Option<u64>)
        requires
            old(self).wf(),
        ensures
            final(self).wf(),
            *final(self) == confirmed(*old(self), owner),
    {
        let matches_owner = match owner {
            Some(o) => self.channel_owner == o && (match self.confirmation_owner {
                Some(c) => c == o,
                None => false,
            }),
            None => true,
        };
        if self.previous_live && matches_owner {
            self.pending = None;
            self.tokens.clear_previous();
            self.previous_live = false;
            self.confirmation_owner = None;
        }
    }

    /// Whether a channel may be installed for this decision and generation.
    pub fn install_is_allowed(
        &self,
        decision: Option<ResumeDecision>,
        expected_generation: Option<u64>,
    ) -> (r: bool)
        ensures
            r == install_allowed(*self, decision, expected_generation),
    {
        let decision_ok = match decision {
            Some(d) => match &self.pending {
                Some(p) => decision_matches_pending(&p.decision, &d) && (d.cached
                    || p.installed_owner.is_none()),
                None => false,
            },
            None => true,
        };
        let generation_ok = match expected_generation {
            Some(g) => self.tokens.current_generation() == g,
            None => true,
        };
        decision_ok && generation_ok
    }

    /// What to do about a new channel. `old_exists` and `old_dead` describe the
    /// channel on record: whether it is still held, and whether its pump has ended.
    pub fn plan_install(
        &self,
        policy: InstallPolicy,
        decision: Option<ResumeDecision>,
        expected_generation: Option<u64>,
        old_exists: bool,
        old_dead: bool,
    ) -> (r: InstallStep)
        ensures
            r == if !install_allowed(*self, decision, expected_generation) {
                InstallStep::Refuse
            } else if policy == InstallPolicy::IfVacant && old_exists && !old_dead {
                InstallStep::Refuse
            } else if old_exists {
                InstallStep::StopOld
            } else {
                InstallStep::Proceed
            },
    {
        if !self.install_is_allowed(decision, expected_generation) {
            return InstallStep::Refuse;
        }
        if policy == InstallPolicy::IfVacant && old_exists && !old_dead {
            return InstallStep::Refuse;
        }
        if old_exists {
            InstallStep::StopOld
        } else {
            InstallStep::Proceed
        }
    }

    /// Installs a channel on a connection of the given epoch; gives its owner id, or
    /// nothing where the decision was superseded meanwhile.
    pub fn commit_install(
        &mut self,
        epoch: u64,
        decision: Option<ResumeDecision>,
        expected_generation: Option<u64>,
    ) -> (r: Option<u64>)
        requires
            old(self).wf(),
            old(self).channel_owner < u64::MAX,
        ensures
            final(self).wf(),
            if install_allowed(*old(self), decision, expected_generation) {
                r == Some((old(self).channel_owner + 1) as u64) && *final(self) == installed(
                    *old(self),
                    epoch,
                    decision,
                )
            } else {
                r is None && *final(self) == *old(self)
            },
    {
        if !self.install_is_allowed(decision, expected_generation) {
            return None;
        }
        let owner: u64 = self.channel_owner + 1;
        self.channel_owner = owner;
        self.active_epoch = epoch;
        self.channel = Some(owner);
        if decision.is_some() {
            if let Some(p) = self.pending {
                self.pending = Some(
                    PendingResume { decision: p.decision, installed_owner: Some(owner) },
                );
            }
        }
        if self.previous_live {
            self.confirmation_owner = Some(owner);
        }
        Some(owner)
    }
}

// ---- laws -------------------------------------------------------------------------

/// Between the two states no use of a channel was confirmed, no other decision was made and
/// no credentials were taken: the tokens and the pending decision are the same.
pub open spec fn unconfirmed(before: ResumeCtl, after: ResumeCtl) -> bool {
    &&& after.tokens == before.tokens
    &&& match (before.pending, after.pending) {
        (Some(p), Some(q)) => q.decision == p.decision,
        (None, None) => true,
        _ => false,
    }
}

/// A resume request that comes again, with the same nonce and credentials, before its
/// decision is confirmed and before another decision is made, gets the same generation,
/// token and lease again, and nothing rotates a second time: a new token that comes with it
/// is not used.
pub proof fn repeated_request_gets_the_same_result(
    ctl: ResumeCtl,
    later: ResumeCtl,
    nonce: Id16,
    generation: u64,
    token: Id16,
    first_token: Id16,
    second_token: Id16,
    remote_epoch: u64,
)
    requires
        first_token != token,
        decided(ctl, nonce, generation, token, first_token, remote_epoch).1 is Some,
        unconfirmed(decided(ctl, nonce, generation, token, first_token, remote_epoch).0, later),
    ensures
        decidable(later, nonce, generation, token, remote_epoch),
        ({
            let d1 = decided(ctl, nonce, generation, token, first_token, remote_epoch).1->0;
            let (c2, d2) = decided(later, nonce, generation, token, second_token, remote_epoch);
            &&& c2 == later
            &&& d2 is Some
            &&& same_decision(d1, d2->0)
            &&& d2->0.result_generation == d1.result_generation
            &&& d2->0.result_token == d1.result_token
            &&& d2->0.lease_id == d1.lease_id
            &&& d2->0.cached
        }),
{
}

/// Refusing a request, answering one again, installing a channel, or the use of a channel
/// that is not the one to confirm leave the pending decision and the credentials as they
/// are.
pub proof fn only_confirmation_ends_a_decision(
    ctl: ResumeCtl,
    nonce: Id16,
    generation: u64,
    token: Id16,
    new_token: Id16,
    remote_epoch: u64,
    epoch: u64,
    decision: Option<ResumeDecision>,
    owner: u64,
)
    ensures
        !rotates(ctl, nonce, generation, token, remote_epoch) ==> unconfirmed(
            ctl,
            decided(ctl, nonce, generation, token, new_token, remote_epoch).0,
        ),
        unconfirmed(ctl, installed(ctl, epoch, decision)),
        ctl.channel_owner != owner || ctl.confirmation_owner != Some(owner) ==> unconfirmed(
            ctl,
            confirmed(ctl, Some(owner)),
        ),
{
}

/// A later decision for another request supersedes an earlier one: no channel can be
/// installed for the earlier one any more.
pub proof fn superseded_decision_cannot_install(
    ctl: ResumeCtl,
    first: ResumeDecision,
    nonce: Id16,
    generation: u64,
    token: Id16,
    new_token: Id16,
    remote_epoch: u64,
)
    requires
        ctl.wf(),
        ctl.tokens.current.0 < u64::MAX,
        ctl.next_lease < u64::MAX,
        ctl.pending is Some,
        same_decision(ctl.pending->0.decision, first),
        decided(ctl, nonce, generation, token, new_token, remote_epoch).1 is Some,
        !decided(ctl, nonce, generation, token, new_token, remote_epoch).1->0.cached,
    ensures
        ({
            let (c, d) = decided(ctl, nonce, generation, token, new_token, remote_epoch);
            &&& !install_allowed(c, Some(first), None)
            &&& install_allowed(c, d, None)
        }),
{
}

/// A fresh decision moves the generation forward by one; nothing moves it back.
pub proof fn generations_only_grow(
    ctl: ResumeCtl,
    nonce: Id16,
    generation: u64,
    token: Id16,
    new_token: Id16,
    remote_epoch: u64,
)
    requires
        ctl.wf(),
        ctl.tokens.current.0 < u64::MAX,
    ensures
        ({
            let (c, d) = decided(ctl, nonce, generation, token, new_token, remote_epoch);
            &&& c.tokens.current.0 == ctl.tokens.current.0 + (if d is Some && !d->0.cached {
                1int
            } else {
                0
            })
            &&& c.last_seen_remote_epoch >= ctl.last_seen_remote_epoch
            &&& rotated_to(ctl, generation, new_token).tokens.current.0 >= ctl.tokens.current.0
        }),
{
}

/// Once the new channel was used, the credentials before are refused, on whatever
/// connection they come.
pub proof fn confirmed_credentials_replace_the_previous(
    ctl: ResumeCtl,
    owner: u64,
    nonce: Id16,
    old_token: Id16,
    new_token: Id16,
    remote_epoch: u64,
)
    requires
        ctl.wf(),
        ctl.previous_live,
        ctl.channel_owner == owner,
        ctl.confirmation_owner == Some(owner),
        ctl.tokens.current.1 != old_token,
        remote_epoch != 0,
    ensures
        decided(confirmed(ctl, Some(owner)), nonce, 0, old_token, new_token, remote_epoch).1 is None,
{
}

/// Only the channel that is current can confirm: a superseded channel changes nothing.
pub proof fn superseded_channel_cannot_confirm(ctl: ResumeCtl, owner: u64)
    requires
        ctl.channel_owner != owner,
    ensures
        confirmed(ctl, Some(owner)) == ctl,
{
}

} // verus!
