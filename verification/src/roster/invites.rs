//! Invites of a roster: giving them out, checking who redeems them, and using each once.
use vstd::prelude::*;
use vstd::string::*;
use vstd::utf8::encode_utf8;

use crate::identity::{EndpointId, NodeIdentity, Signature};
use crate::octets::bytes_eq;
use crate::outside::{ed25519_accepts, ed25519_public, ed25519_signature};
use crate::protocol::fact::random_bytes;
use crate::protocol::invite::{
    invite_bytes, invite_fault, invites_that_fit_can_be_written, pop_bytes,
    redeem_challenge_bytes, text_views, token_fault, InviteToken, InviteV1, InviteView, TokenView,
};
use crate::protocol::invite2::{
    addr_views, invite2_bytes, invite2_fault, invites_v2_that_fit_can_be_written, relay_fits,
    relay_views, token2_fault, AddrView, DirectAddr, Invite2View, InviteRelayV2, InviteV2,
    InviteV2Token, RelayView, Token2View,
};
use crate::protocol::{fault_text, quarantine, Fault, ProtocolError};
use crate::roster::error::{root_view, RosterError, RosterFault};
use crate::roster::files::{
    appended_invite_is_used, consumed_of, consumed_record, consumed_record_bytes, id_set, load_consumed_invites,
};
use crate::roster::state::RosterView;
use crate::roster::{bytes_view, not_root, Roster};
use crate::text::cat;

verus! {

/// The token of an invite of the root, or why there is none.
pub open spec fn issued(
    v: RosterView,
    seed: Seq<u8>,
    relay_url: Seq<char>,
    addrs: Seq<Seq<char>>,
    recipient: Option<Seq<u8>>,
    ttl_ms: u64,
    now_ms: u64,
    invite_id: Seq<u8>,
) -> Result<TokenView, RosterFault> {
    let invite = InviteView {
        fabric_id: v.fabric_id,
        invite_id,
        issuer: ed25519_public(seed),
        relay_url,
        addrs,
        expires_at_ms: (now_ms + ttl_ms) as u64,
        recipient,
    };
    if v.root != Some(ed25519_public(seed)) {
        Err(not_root(v, seed))
    } else if now_ms + ttl_ms > u64::MAX {
        Err(RosterFault::Protocol(Fault::Encoding("invite ttl overflow"@)))
    } else {
        match invite_fault(invite) {
            Some(e) => Err(RosterFault::Protocol(e)),
            None => Ok(
                TokenView { invite, signature: ed25519_signature(seed, invite_bytes(invite)) },
            ),
        }
    }
}

/// The token of an invite of the second version of the root, or why there is none.
pub open spec fn issued_v2(
    v: RosterView,
    seed: Seq<u8>,
    relays: Seq<RelayView>,
    addrs: Seq<AddrView>,
    recipient: Seq<u8>,
    ttl_ms: u64,
    now_ms: u64,
    invite_id: Seq<u8>,
) -> Result<Token2View, RosterFault> {
    let invite = Invite2View {
        fabric_id: v.fabric_id,
        invite_id,
        issuer: ed25519_public(seed),
        expires_at_ms: (now_ms + ttl_ms) as u64,
        recipient,
        relays,
        addrs,
    };
    if v.root != Some(ed25519_public(seed)) {
        Err(not_root(v, seed))
    } else if now_ms + ttl_ms > u64::MAX {
        Err(RosterFault::Protocol(Fault::Encoding("invite ttl overflow"@)))
    } else {
        match invite2_fault(invite) {
            Some(e) => Err(RosterFault::Protocol(e)),
            None => Ok(
                Token2View { invite, signature: ed25519_signature(seed, invite2_bytes(invite)) },
            ),
        }
    }
}

/// An invite that is given out carries what was asked for: the relay URL, the direct
/// addresses and the recipient as they were passed in, the given id, the fabric and the root
/// of the roster, and the moment at which it expires. Its signature is that of the root over
/// the whole invite. It is given out exactly if the root asks, the moment of its end can be
/// told, and the invite can be written.
pub proof fn invites_carry_what_was_asked(
    v: RosterView,
    seed: Seq<u8>,
    relay_url: Seq<char>,
    addrs: Seq<Seq<char>>,
    recipient: Option<Seq<u8>>,
    ttl_ms: u64,
    now_ms: u64,
    invite_id: Seq<u8>,
)
    ensures
        ({
            let r = issued(v, seed, relay_url, addrs, recipient, ttl_ms, now_ms, invite_id);
            &&& r is Ok <==> {
                &&& v.root == Some(ed25519_public(seed))
                &&& now_ms + ttl_ms <= u64::MAX
                &&& encode_utf8(relay_url).len() <= 2048
                &&& addrs.len() <= 4
                &&& forall|i: int|
                    0 <= i < addrs.len() ==> encode_utf8(#[trigger] addrs[i]).len() <= 64
            }
            &&& r is Ok ==> {
                let t = r->Ok_0;
                &&& t.invite.relay_url == relay_url
                &&& t.invite.addrs == addrs
                &&& t.invite.recipient == recipient
                &&& t.invite.invite_id == invite_id
                &&& t.invite.fabric_id == v.fabric_id
                &&& Some(t.invite.issuer) == v.root
                &&& t.invite.expires_at_ms == now_ms + ttl_ms
                &&& t.signature == ed25519_signature(seed, invite_bytes(t.invite))
            }
            &&& v.root != Some(ed25519_public(seed)) ==> r is Err && r->Err_0 is NotRoot
        }),
{
    let invite = InviteView {
        fabric_id: v.fabric_id,
        invite_id,
        issuer: ed25519_public(seed),
        relay_url,
        addrs,
        expires_at_ms: (now_ms + ttl_ms) as u64,
        recipient,
    };
    invites_that_fit_can_be_written(invite);
}

/// The same of an invite of the second version: its relays with their capabilities, its
/// direct addresses and its recipient are those that were passed in.
pub proof fn invites_v2_carry_what_was_asked(
    v: RosterView,
    seed: Seq<u8>,
    relays: Seq<RelayView>,
    addrs: Seq<AddrView>,
    recipient: Seq<u8>,
    ttl_ms: u64,
    now_ms: u64,
    invite_id: Seq<u8>,
)
    ensures
        ({
            let r = issued_v2(v, seed, relays, addrs, recipient, ttl_ms, now_ms, invite_id);
            &&& r is Ok <==> {
                &&& v.root == Some(ed25519_public(seed))
                &&& now_ms + ttl_ms <= u64::MAX
                &&& relays.len() <= 8
                &&& addrs.len() <= 4
                &&& forall|i: int|
                    0 <= i < relays.len() ==> relay_fits(
                        #[trigger] relays[i],
                        recipient,
                        (now_ms + ttl_ms) as u64,
                    )
            }
            &&& r is Ok ==> {
                let t = r->Ok_0;
                &&& t.invite.relays == relays
                &&& t.invite.addrs == addrs
                &&& t.invite.recipient == recipient
                &&& t.invite.invite_id == invite_id
                &&& t.invite.fabric_id == v.fabric_id
                &&& Some(t.invite.issuer) == v.root
                &&& t.invite.expires_at_ms == now_ms + ttl_ms
                &&& t.signature == ed25519_signature(seed, invite2_bytes(t.invite))
            }
            &&& v.root != Some(ed25519_public(seed)) ==> r is Err && r->Err_0 is NotRoot
        }),
{
    let invite = Invite2View {
        fabric_id: v.fabric_id,
        invite_id,
        issuer: ed25519_public(seed),
        expires_at_ms: (now_ms + ttl_ms) as u64,
        recipient,
        relays,
        addrs,
    };
    invites_v2_that_fit_can_be_written(invite);
}

/// An endpoint may redeem an invite, or why not. `forged` says why the token does not hold.
pub open spec fn redeemed(
    v: RosterView,
    fabric_id: Seq<u8>,
    issuer: Seq<u8>,
    forged: Option<Seq<char>>,
    expires_at_ms: u64,
    recipient: Option<Seq<u8>>,
    invite_id: Seq<u8>,
    redeemer: Seq<u8>,
    challenge: Seq<u8>,
    signature: Seq<u8>,
    now_ms: u64,
) -> Result<Seq<u8>, RosterFault> {
    if fabric_id != v.fabric_id {
        Err(RosterFault::WrongFabric { got: fabric_id, expected: v.fabric_id })
    } else if v.root != Some(issuer) {
        Err(RosterFault::InviteNotRoot { issuer, root: v.root })
    } else if forged is Some {
        Err(RosterFault::Protocol(Fault::Quarantine(forged->0)))
    } else if now_ms >= expires_at_ms {
        Err(RosterFault::InviteExpired { expires_at_ms, now_ms })
    } else if recipient is Some && recipient->0 != redeemer {
        Err(RosterFault::InviteRecipientMismatch { expected: recipient->0, redeemer })
    } else if !ed25519_accepts(redeemer, pop_bytes(v.fabric_id, invite_id, challenge), signature) {
        Err(RosterFault::BadPoP { redeemer })
    } else {
        Ok(redeemer)
    }
}

pub open spec fn forged_text(t: TokenView) -> Option<Seq<char>> {
    match token_fault(t) {
        Some(e) => Some("invite token failed verification: "@ + fault_text(e)),
        None => None,
    }
}

pub open spec fn forged_text_v2(t: Token2View) -> Option<Seq<char>> {
    match token2_fault(t) {
        Some(e) => Some("invite v2 token failed verification: "@ + fault_text(e)),
        None => None,
    }
}

/// An endpoint may redeem a token, or why not.
pub open spec fn redeemed_v1(
    v: RosterView,
    t: TokenView,
    redeemer: Seq<u8>,
    challenge: Seq<u8>,
    signature: Seq<u8>,
    now_ms: u64,
) -> Result<Seq<u8>, RosterFault> {
    redeemed(
        v,
        t.invite.fabric_id,
        t.invite.issuer,
        forged_text(t),
        t.invite.expires_at_ms,
        t.invite.recipient,
        t.invite.invite_id,
        redeemer,
        challenge,
        signature,
        now_ms,
    )
}

/// An endpoint may redeem a token of the second version, or why not.
pub open spec fn redeemed_v2(
    v: RosterView,
    t: Token2View,
    redeemer: Seq<u8>,
    challenge: Seq<u8>,
    signature: Seq<u8>,
    now_ms: u64,
) -> Result<Seq<u8>, RosterFault> {
    redeemed(
        v,
        t.invite.fabric_id,
        t.invite.issuer,
        forged_text_v2(t),
        t.invite.expires_at_ms,
        Some(t.invite.recipient),
        t.invite.invite_id,
        redeemer,
        challenge,
        signature,
        now_ms,
    )
}

/// Who redeems an invite is the recipient it is bound to, has proved to hold its key, and
/// does so in time, with a token of the root of this fabric.
pub proof fn redemption_proves_everything(
    v: RosterView,
    t: TokenView,
    redeemer: Seq<u8>,
    challenge: Seq<u8>,
    signature: Seq<u8>,
    now_ms: u64,
)
    requires
        redeemed_v1(v, t, redeemer, challenge, signature, now_ms) is Ok,
    ensures
        t.invite.fabric_id == v.fabric_id,
        v.root == Some(t.invite.issuer),
        token_fault(t) is None,
        ed25519_accepts(t.invite.issuer, invite_bytes(t.invite), t.signature),
        now_ms < t.invite.expires_at_ms,
        t.invite.recipient is Some ==> t.invite.recipient == Some(redeemer),
        ed25519_accepts(
            redeemer,
            pop_bytes(v.fabric_id, t.invite.invite_id, challenge),
            signature,
        ),
{
}

/// The same of an invite of the second version, which always names its recipient.
pub proof fn redemption_v2_proves_everything(
    v: RosterView,
    t: Token2View,
    redeemer: Seq<u8>,
    challenge: Seq<u8>,
    signature: Seq<u8>,
    now_ms: u64,
)
    requires
        redeemed_v2(v, t, redeemer, challenge, signature, now_ms) is Ok,
    ensures
        t.invite.fabric_id == v.fabric_id,
        v.root == Some(t.invite.issuer),
        token2_fault(t) is None,
        ed25519_accepts(t.invite.issuer, invite2_bytes(t.invite), t.signature),
        now_ms < t.invite.expires_at_ms,
        t.invite.recipient == redeemer,
        ed25519_accepts(
            redeemer,
            pop_bytes(v.fabric_id, t.invite.invite_id, challenge),
            signature,
        ),
{
}

/// An invite that the root gives out is accepted for its recipient until it expires, with a
/// proof that holds, where the signature of the root is accepted.
pub proof fn issued_invites_are_redeemable(
    v: RosterView,
    seed: Seq<u8>,
    relay_url: Seq<char>,
    addrs: Seq<Seq<char>>,
    recipient: Option<Seq<u8>>,
    ttl_ms: u64,
    issued_ms: u64,
    invite_id: Seq<u8>,
    redeemer: Seq<u8>,
    challenge: Seq<u8>,
    signature: Seq<u8>,
    now_ms: u64,
)
    requires
        issued(v, seed, relay_url, addrs, recipient, ttl_ms, issued_ms, invite_id) is Ok,
        token_fault(
            issued(v, seed, relay_url, addrs, recipient, ttl_ms, issued_ms, invite_id)->Ok_0,
        ) is None,
        recipient is Some ==> recipient == Some(redeemer),
        ed25519_accepts(redeemer, pop_bytes(v.fabric_id, invite_id, challenge), signature),
    ensures
        redeemed_v1(
            v,
            issued(v, seed, relay_url, addrs, recipient, ttl_ms, issued_ms, invite_id)->Ok_0,
            redeemer,
            challenge,
            signature,
            now_ms,
        ) is Ok <==> now_ms < issued_ms + ttl_ms,
{
}

/// The same of an invite of the second version.
pub proof fn issued_invites_v2_are_redeemable(
    v: RosterView,
    seed: Seq<u8>,
    relays: Seq<RelayView>,
    addrs: Seq<AddrView>,
    recipient: Seq<u8>,
    ttl_ms: u64,
    issued_ms: u64,
    invite_id: Seq<u8>,
    redeemer: Seq<u8>,
    challenge: Seq<u8>,
    signature: Seq<u8>,
    now_ms: u64,
)
    requires
        issued_v2(v, seed, relays, addrs, recipient, ttl_ms, issued_ms, invite_id) is Ok,
        token2_fault(
            issued_v2(v, seed, relays, addrs, recipient, ttl_ms, issued_ms, invite_id)->Ok_0,
        ) is None,
        ed25519_accepts(redeemer, pop_bytes(v.fabric_id, invite_id, challenge), signature),
    ensures
        redeemed_v2(
            v,
            issued_v2(v, seed, relays, addrs, recipient, ttl_ms, issued_ms, invite_id)->Ok_0,
            redeemer,
            challenge,
            signature,
            now_ms,
        ) is Ok <==> now_ms < issued_ms + ttl_ms && redeemer == recipient,
{
}

/// A token whose signature holds is refused for the first of these that is so: it is of
/// another fabric, not of the root, expired, for someone else, or the proof does not hold;
/// and else it is accepted.
pub proof fn refusals_name_the_reason(
    v: RosterView,
    t: TokenView,
    redeemer: Seq<u8>,
    challenge: Seq<u8>,
    signature: Seq<u8>,
    now_ms: u64,
)
    requires
        invite_fault(t.invite) is None,
        ed25519_accepts(t.invite.issuer, invite_bytes(t.invite), t.signature),
    ensures
        ({
            let r = redeemed_v1(v, t, redeemer, challenge, signature, now_ms);
            let i = t.invite;
            let proved = ed25519_accepts(
                redeemer,
                pop_bytes(v.fabric_id, i.invite_id, challenge),
                signature,
            );
            if i.fabric_id != v.fabric_id {
                r is Err && r->Err_0 is WrongFabric
            } else if v.root != Some(i.issuer) {
                r is Err && r->Err_0 is InviteNotRoot
            } else if now_ms >= i.expires_at_ms {
                r is Err && r->Err_0 is InviteExpired
            } else if i.recipient is Some && i.recipient != Some(redeemer) {
                r is Err && r->Err_0 is InviteRecipientMismatch
            } else if !proved {
                r is Err && r->Err_0 is BadPoP
            } else {
                r == Ok::<Seq<u8>, RosterFault>(redeemer)
            }
        }),
{
}

/// A token whose signature does not hold is never accepted, whoever presents it.
pub proof fn forged_tokens_are_refused(
    v: RosterView,
    t: TokenView,
    u: Token2View,
    redeemer: Seq<u8>,
    challenge: Seq<u8>,
    signature: Seq<u8>,
    now_ms: u64,
)
    ensures
        !ed25519_accepts(t.invite.issuer, invite_bytes(t.invite), t.signature) ==> redeemed_v1(
            v,
            t,
            redeemer,
            challenge,
            signature,
            now_ms,
        ) is Err,
        !ed25519_accepts(u.invite.issuer, invite2_bytes(u.invite), u.signature) ==> redeemed_v2(
            v,
            u,
            redeemer,
            challenge,
            signature,
            now_ms,
        ) is Err,
{
}

/// The record of an invite that may be used now, nothing if it has been used, or why the
/// log cannot be read.
pub open spec fn consuming(
    v: RosterView,
    invite_id: Seq<u8>,
    log: Option<Seq<u8>>,
    now_ms: u64,
) -> Result<Option<Seq<u8>>, RosterFault> {
    if v.consumed.contains(invite_id) {
        Ok(None)
    } else {
        match consumed_of(v.data_dir, log) {
            Err(e) => Err(e),
            Ok(ids) => if ids.contains(invite_id) {
                Ok(None)
            } else {
                Ok(Some(consumed_record(invite_id, now_ms)))
            },
        }
    }
}

/// What a roster knows of used invites after it asked for one.
pub open spec fn informed(v: RosterView, invite_id: Seq<u8>, log: Option<Seq<u8>>) -> RosterView {
    if v.consumed.contains(invite_id) || consumed_of(v.data_dir, log) is Err {
        v
    } else {
        RosterView { consumed: consumed_of(v.data_dir, log)->Ok_0, ..v }
    }
}

/// An invite is used once: where its record has been appended to the log, no roster that
/// reads the log gets to use it again, nor does one that noted its use.
pub proof fn invites_are_used_once(
    v: RosterView,
    w: RosterView,
    invite_id: Seq<u8>,
    log: Option<Seq<u8>>,
    first_ms: u64,
    second_ms: u64,
)
    requires
        invite_id.len() == 16,
        consuming(v, invite_id, log, first_ms) is Ok,
        consuming(v, invite_id, log, first_ms)->Ok_0 is Some,
    ensures
        ({
            let record = consuming(v, invite_id, log, first_ms)->Ok_0->0;
            let longer = match log {
                Some(b) => b + record,
                None => record,
            };
            consuming(w, invite_id, Some(longer), second_ms) == Ok::<
                Option<Seq<u8>>,
                RosterFault,
            >(None)
        }),
        w.consumed.contains(invite_id) ==> consuming(w, invite_id, log, second_ms) == Ok::<
            Option<Seq<u8>>,
            RosterFault,
        >(None),
{
    let record = consumed_record(invite_id, first_ms);
    match log {
        Some(b) => {
            appended_invite_is_used(b, invite_id, first_ms);
        },
        None => {
            appended_invite_is_used(Seq::empty(), invite_id, first_ms);
            assert(Seq::<u8>::empty() + record =~= record);
        },
    }
}

impl Roster {
    /// Gives out an invite with a random id. Only the root can.
    pub fn issue_invite(
        &self,
        identity: &NodeIdentity,
        issuer_relay_url: String,
        issuer_direct_addrs: Vec<String>,
        recipient: Option<EndpointId>,
        ttl_ms: u64,
        now_ms: u64,
    ) -> (r: Result<InviteToken, RosterError>)
        ensures
            exists|invite_id: [u8; 16]| match #[trigger] issued(
                self@,
                identity@,
                issuer_relay_url@,
                text_views(issuer_direct_addrs@),
                root_view(recipient),
                ttl_ms,
                now_ms,
                invite_id@,
            ) {
                Ok(t) => r is Ok && r->Ok_0@ == t,
                Err(e) => r is Err && r->Err_0@ == e,
            },
            r is Ok ==> {
                let t = r->Ok_0@.invite;
                &&& t.relay_url == issuer_relay_url@
                &&& t.addrs == text_views(issuer_direct_addrs@)
                &&& t.recipient == root_view(recipient)
                &&& t.fabric_id == self@.fabric_id
                &&& Some(t.issuer) == self@.root
                &&& t.expires_at_ms == now_ms + ttl_ms
            },
    {
        let invite_id = random_bytes::<16>();
        self.issue_invite_with(
            identity,
            issuer_relay_url,
            issuer_direct_addrs,
            recipient,
            ttl_ms,
            now_ms,
            invite_id,
        )
    }

    /// Gives out an invite with the given id. Only the root can.
    pub fn issue_invite_with(
        &self,
        identity: &NodeIdentity,
        issuer_relay_url: String,
        issuer_direct_addrs: Vec<String>,
        recipient: Option<EndpointId>,
        ttl_ms: u64,
        now_ms: u64,
        invite_id: [u8; 16],
    ) -> (r: Result<InviteToken, RosterError>)
        ensures
            match issued(
                self@,
                identity@,
                issuer_relay_url@,
                text_views(issuer_direct_addrs@),
                root_view(recipient),
                ttl_ms,
                now_ms,
                invite_id@,
            ) {
                Ok(t) => r is Ok && r->Ok_0@ == t,
                Err(e) => r is Err && r->Err_0@ == e,
            },
            r is Ok ==> {
                let t = r->Ok_0@.invite;
                &&& t.relay_url == issuer_relay_url@
                &&& t.addrs == text_views(issuer_direct_addrs@)
                &&& t.recipient == root_view(recipient)
                &&& t.fabric_id == self@.fabric_id
                &&& Some(t.issuer) == self@.root
                &&& t.expires_at_ms == now_ms + ttl_ms
            },
    {
        let root = match self.require_root(identity) {
            Ok(root) => root,
            Err(e) => return Err(e),
        };
        let expires_at_ms: u64 = match now_ms.checked_add(ttl_ms) {
            Some(x) => x,
            None => {
                return Err(
                    RosterError::Protocol(
                        ProtocolError::Encoding("invite ttl overflow".to_owned()),
                    ),
                );
            },
        };
        let invite = InviteV1 {
            fabric_id: self.fabric_id,
            invite_id,
            issuer: root,
            issuer_relay_url,
            issuer_direct_addrs,
            expires_at_ms,
            recipient,
        };
        match InviteToken::sign(invite, identity.secret_key()) {
            Ok(t) => Ok(t),
            Err(e) => Err(RosterError::Protocol(e)),
        }
    }

    /// Gives out an invite of the second version with a random id. Only the root can.
    pub fn issue_invite_v2(
        &self,
        identity: &NodeIdentity,
        relays: Vec<InviteRelayV2>,
        direct_addrs: Vec<DirectAddr>,
        recipient: EndpointId,
        ttl_ms: u64,
        now_ms: u64,
    ) -> (r: Result<InviteV2Token, RosterError>)
        ensures
            exists|invite_id: [u8; 16]| match #[trigger] issued_v2(
                self@,
                identity@,
                relay_views(relays@),
                addr_views(direct_addrs@),
                recipient@,
                ttl_ms,
                now_ms,
                invite_id@,
            ) {
                Ok(t) => r is Ok && r->Ok_0@ == t,
                Err(e) => r is Err && r->Err_0@ == e,
            },
            r is Ok ==> {
                let t = r->Ok_0@.invite;
                &&& t.relays == relay_views(relays@)
                &&& t.addrs == addr_views(direct_addrs@)
                &&& t.recipient == recipient@
                &&& t.fabric_id == self@.fabric_id
                &&& Some(t.issuer) == self@.root
                &&& t.expires_at_ms == now_ms + ttl_ms
            },
    {
        let invite_id = random_bytes::<16>();
        self.issue_invite_v2_with(
            identity,
            relays,
            direct_addrs,
            recipient,
            ttl_ms,
            now_ms,
            invite_id,
        )
    }

    /// Gives out an invite of the second version with the given id. Only the root can.
    pub fn issue_invite_v2_with(
        &self,
        identity: &NodeIdentity,
        relays: Vec<InviteRelayV2>,
        direct_addrs: Vec<DirectAddr>,
        recipient: EndpointId,
        ttl_ms: u64,
        now_ms: u64,
        invite_id: [u8; 16],
    ) -> (r: Result<InviteV2Token, RosterError>)
        ensures
            match issued_v2(
                self@,
                identity@,
                relay_views(relays@),
                addr_views(direct_addrs@),
                recipient@,
                ttl_ms,
                now_ms,
                invite_id@,
            ) {
                Ok(t) => r is Ok && r->Ok_0@ == t,
                Err(e) => r is Err && r->Err_0@ == e,
            },
            r is Ok ==> {
                let t = r->Ok_0@.invite;
                &&& t.relays == relay_views(relays@)
                &&& t.addrs == addr_views(direct_addrs@)
                &&& t.recipient == recipient@
                &&& t.fabric_id == self@.fabric_id
                &&& Some(t.issuer) == self@.root
                &&& t.expires_at_ms == now_ms + ttl_ms
            },
    {
        let root = match self.require_root(identity) {
            Ok(root) => root,
            Err(e) => return Err(e),
        };
        let expires_at_ms: u64 = match now_ms.checked_add(ttl_ms) {
            Some(x) => x,
            None => {
                return Err(
                    RosterError::Protocol(
                        ProtocolError::Encoding("invite ttl overflow".to_owned()),
                    ),
                );
            },
        };
        let invite = InviteV2 {
            fabric_id: self.fabric_id,
            invite_id,
            issuer: root,
            expires_at_ms,
            recipient,
            relays,
            direct_addrs,
        };
        match InviteV2Token::sign(invite, identity.secret_key()) {
            Ok(t) => Ok(t),
            Err(e) => Err(RosterError::Protocol(e)),
        }
    }

    /// Checks that an endpoint may redeem a token. The invite is not used up by this.
    pub fn redeem_verify(
        &self,
        token: &InviteToken,
        redeemer: &EndpointId,
        pop_challenge: &[u8; 32],
        pop_sig: &Signature,
        now_ms: u64,
    ) -> (r: Result<EndpointId, RosterError>)
        ensures
            match redeemed_v1(self@, token@, redeemer@, pop_challenge@, pop_sig@, now_ms) {
                Ok(id) => r is Ok && r->Ok_0@ == id,
                Err(e) => r is Err && r->Err_0@ == e,
            },
    {
        if !token.invite.fabric_id.same(&self.fabric_id) {
            return Err(
                RosterError::WrongFabric {
                    got: token.invite.fabric_id,
                    expected: self.fabric_id,
                },
            );
        }
        if !self.is_root(&token.invite.issuer) {
            return Err(
                RosterError::InviteNotRoot { issuer: token.invite.issuer, root: self.root },
            );
        }
        match token.verify() {
            Ok(()) => {},
            Err(e) => {
                return Err(
                    RosterError::Protocol(
                        quarantine(
                            cat("invite token failed verification: ", e.message().as_str()),
                        ),
                    ),
                );
            },
        }
        if token.is_expired(now_ms) {
            return Err(
                RosterError::InviteExpired { expires_at_ms: token.invite.expires_at_ms, now_ms },
            );
        }
        match &token.invite.recipient {
            Some(expected) => {
                if !expected.same(redeemer) {
                    return Err(
                        RosterError::InviteRecipientMismatch {
                            expected: *expected,
                            redeemer: *redeemer,
                        },
                    );
                }
            },
            None => {},
        }
        self.check_proof(&token.invite.invite_id, redeemer, pop_challenge, pop_sig)
    }

    /// Checks that an endpoint may redeem a token of the second version. The invite is not
    /// used up by this.
    pub fn redeem_verify_v2(
        &self,
        token: &InviteV2Token,
        redeemer: &EndpointId,
        pop_challenge: &[u8; 32],
        pop_sig: &Signature,
        now_ms: u64,
    ) -> (r: Result<EndpointId, RosterError>)
        ensures
            match redeemed_v2(self@, token@, redeemer@, pop_challenge@, pop_sig@, now_ms) {
                Ok(id) => r is Ok && r->Ok_0@ == id,
                Err(e) => r is Err && r->Err_0@ == e,
            },
    {
        if !token.invite.fabric_id.same(&self.fabric_id) {
            return Err(
                RosterError::WrongFabric {
                    got: token.invite.fabric_id,
                    expected: self.fabric_id,
                },
            );
        }
        if !self.is_root(&token.invite.issuer) {
            return Err(
                RosterError::InviteNotRoot { issuer: token.invite.issuer, root: self.root },
            );
        }
        match token.verify() {
            Ok(()) => {},
            Err(e) => {
                return Err(
                    RosterError::Protocol(
                        quarantine(
                            cat("invite v2 token failed verification: ", e.message().as_str()),
                        ),
                    ),
                );
            },
        }
        if token.is_expired(now_ms) {
            return Err(
                RosterError::InviteExpired { expires_at_ms: token.invite.expires_at_ms, now_ms },
            );
        }
        if !token.invite.recipient.same(redeemer) {
            return Err(
                RosterError::InviteRecipientMismatch {
                    expected: token.invite.recipient,
                    redeemer: *redeemer,
                },
            );
        }
        self.check_proof(&token.invite.invite_id, redeemer, pop_challenge, pop_sig)
    }

    fn is_root(&self, id: &EndpointId) -> (r: bool)
        ensures
            r == (self@.root == Some(id@)),
    {
        match &self.root {
            Some(root) => root.same(id),
            None => false,
        }
    }

    /// Checks the proof that the redeemer holds its key.
    fn check_proof(
        &self,
        invite_id: &[u8; 16],
        redeemer: &EndpointId,
        pop_challenge: &[u8; 32],
        pop_sig: &Signature,
    ) -> (r: Result<EndpointId, RosterError>)
        ensures
            if ed25519_accepts(
                redeemer@,
                pop_bytes(self@.fabric_id, invite_id@, pop_challenge@),
                pop_sig@,
            ) {
                r is Ok && r->Ok_0@ == redeemer@
            } else {
                r is Err && r->Err_0@ == (RosterFault::BadPoP { redeemer: redeemer@ })
            },
    {
        let challenge = redeem_challenge_bytes(&self.fabric_id, invite_id, pop_challenge);
        if redeemer.verify(challenge.as_slice(), pop_sig) {
            Ok(*redeemer)
        } else {
            Err(RosterError::BadPoP { redeemer: *redeemer })
        }
    }

    /// Whether an invite has been used, as far as this roster knows.
    pub fn is_invite_consumed(&self, invite_id: &[u8; 16]) -> (r: bool)
        ensures
            r == self@.consumed.contains(invite_id@),
    {
        let mut i: usize = 0;
        while i < self.consumed_invites.len()
            invariant
                i <= self.consumed_invites@.len(),
                forall|k: int|
                    0 <= k < i ==> (#[trigger] self.consumed_invites@[k])@ != invite_id@,
            decreases self.consumed_invites@.len() - i,
        {
            if bytes_eq(&self.consumed_invites[i], invite_id) {
                assert(self.consumed_invites@[i as int]@ == invite_id@);
                return true;
            }
            i = i + 1;
        }
        false
    }

    /// Whether an invite may be used now: gives the record to append to the log, or nothing
    /// if the invite has been used. `log` is the log as it stands, read while no one else
    /// can write it; it replaces what the roster knew.
    pub fn consume_invite(&mut self, invite_id: &[u8; 16], log: Option<&[u8]>, now_ms: u64) -> (r:
        Result<Option<Vec<u8>>, RosterError>)
        requires
            old(self).wf(),
        ensures
            final(self).wf(),
            final(self)@ == informed(old(self)@, invite_id@, bytes_view(log)),
            match consuming(old(self)@, invite_id@, bytes_view(log), now_ms) {
                Ok(Some(record)) => r is Ok && r->Ok_0 is Some && (r->Ok_0->0)@ == record,
                Ok(None) => r is Ok && r->Ok_0 is None,
                Err(e) => r is Err && r->Err_0@ == e,
            },
    {
        if self.is_invite_consumed(invite_id) {
            return Ok(None);
        }
        let loaded = match load_consumed_invites(self.data_dir.as_str(), log) {
            Ok(c) => c,
            Err(e) => return Err(e),
        };
        self.consumed_invites = loaded;
        if self.is_invite_consumed(invite_id) {
            return Ok(None);
        }
        Ok(Some(consumed_record_bytes(invite_id, now_ms)))
    }

    /// Notes that the record of an invite was appended: the invite has been used.
    pub fn invite_consumed(&mut self, invite_id: &[u8; 16])
        requires
            old(self).wf(),
        ensures
            final(self).wf(),
            final(self)@ == (RosterView {
                consumed: old(self)@.consumed.insert(invite_id@),
                ..old(self)@
            }),
    {
        let ghost before = self.consumed_invites@;
        self.consumed_invites.push(*invite_id);
        proof {
            let after = self.consumed_invites@;
            assert forall|x: Seq<u8>| id_set(after).contains(x) <==> id_set(before).insert(
                invite_id@,
            ).contains(x) by {
                if id_set(before).contains(x) {
                    let k = choose|k: int| 0 <= k < before.len() && (#[trigger] before[k])@ == x;
                    assert(after[k]@ == x);
                }
                if id_set(after).contains(x) {
                    let k = choose|k: int| 0 <= k < after.len() && (#[trigger] after[k])@ == x;
                    if k < before.len() {
                        assert(before[k]@ == x);
                    }
                }
                assert(after[before.len() as int]@ == invite_id@);
            }
            assert(id_set(after) =~= id_set(before).insert(invite_id@));
        }
    }
}

} // verus!
