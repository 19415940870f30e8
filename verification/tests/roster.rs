//! The roster: merging, members, invites and storage.
use dweb_fabric::identity::{EndpointId, NodeIdentity, Signature};
use dweb_fabric::protocol::{
    genesis, redeem_challenge_bytes, FabricId, Fact, FactKind, InviteRelayV2, InviteToken,
    InviteV1, SignedFact,
};
use dweb_fabric::roster::{
    consumed_invites_file_path, fabric_id_short16, peek_fabric_id, roster_file_path, MergeReport,
    RevokeTarget, Roster, RosterError,
};

const DIR: &str = "/data";

/// A directory: the file of facts and the log of used invites.
#[derive(Default, Clone)]
struct Disk {
    facts: Option<Vec<u8>>,
    log: Option<Vec<u8>>,
}

impl Disk {
    fn save(&mut self, r: &Roster) {
        self.facts = Some(r.persisted_bytes().unwrap());
    }

    fn open(&self, fid: FabricId) -> Result<Roster, RosterError> {
        Roster::open(DIR, fid, self.facts.as_deref(), self.log.as_deref())
    }

    fn create(&mut self, identity: &NodeIdentity, now_ms: u64) -> Result<(Roster, FabricId), RosterError> {
        let (r, fid) = Roster::create(
            identity,
            DIR,
            self.facts.is_some(),
            self.log.as_deref(),
            now_ms,
        )?;
        self.save(&r);
        Ok((r, fid))
    }

    fn attach(&mut self, fid: FabricId) -> Result<Roster, RosterError> {
        let r = Roster::attach(DIR, fid, self.facts.as_deref(), self.log.as_deref())?;
        self.save(&r);
        Ok(r)
    }

    fn consume(&mut self, r: &mut Roster, id: &[u8; 16], now_ms: u64) -> Result<bool, RosterError> {
        match r.consume_invite(id, self.log.as_deref(), now_ms)? {
            Some(record) => {
                self.log.get_or_insert_with(Vec::new).extend(record);
                r.invite_consumed(id);
                Ok(true)
            }
            None => Ok(false),
        }
    }
}

fn idty(seed: u8) -> NodeIdentity {
    NodeIdentity::from_seed([seed; 32])
}

fn member_ids(r: &Roster, now_ms: u64) -> Vec<EndpointId> {
    r.effective_members(now_ms)
        .into_iter()
        .map(|m| m.endpoint_id)
        .collect()
}

fn contains(r: &Roster, id: &EndpointId, now_ms: u64) -> bool {
    member_ids(r, now_ms).contains(id)
}

fn create_root(seed: u8, now_ms: u64) -> (Roster, FabricId, NodeIdentity) {
    let identity = idty(seed);
    let (r, fid) = Disk::default().create(&identity, now_ms).unwrap();
    (r, fid, identity)
}

fn attach_fresh(fid: FabricId) -> Roster {
    Disk::default().attach(fid).unwrap()
}

fn raw_fact(kind: FactKind, issuer: &NodeIdentity, subject: EndpointId) -> Fact {
    Fact {
        kind,
        fabric_id: FabricId::from_name("test"),
        issuer: issuer.endpoint_id(),
        subject,
        display_name: None,
        issued_at_ms: 1_000,
        expires_at_ms: None,
        target_fact_id: None,
    }
}

#[test]
fn attacker_genesis_with_mismatched_issuer_subject_quarantined() {
    let attacker = NodeIdentity::generate();
    let victim = NodeIdentity::generate();
    let mut roster = attach_fresh(FabricId::from_name("test"));
    let fact = raw_fact(FactKind::Genesis, &attacker, victim.endpoint_id());
    let signed = SignedFact::sign(fact, attacker.secret_key()).unwrap();
    let report = roster.merge(&[signed]);
    assert_eq!(report.quarantined, 1, "mismatched Genesis must quarantine");
    assert!(roster.root().is_none());
}

#[test]
fn genesis_with_optional_fields_quarantined() {
    let root = NodeIdentity::generate();
    let mut roster = attach_fresh(FabricId::from_name("test"));
    let mut fact = raw_fact(FactKind::Genesis, &root, root.endpoint_id());
    fact.display_name = Some("evil".into());
    let signed = SignedFact::sign(fact, root.secret_key()).unwrap();
    let report = roster.merge(&[signed]);
    assert_eq!(report.quarantined, 1, "Genesis with name must quarantine");
}

#[test]
fn fake_genesis_first_then_real_real_wins_root() {
    let attacker = NodeIdentity::generate();
    let root = NodeIdentity::generate();
    let fid = FabricId::from_name("test");
    let mut roster = attach_fresh(fid);
    let fake = SignedFact::sign(
        raw_fact(FactKind::Genesis, &attacker, attacker.endpoint_id()),
        attacker.secret_key(),
    )
    .unwrap();
    roster.merge(&[fake]);
    let real = SignedFact::sign(
        raw_fact(FactKind::Genesis, &root, root.endpoint_id()),
        root.secret_key(),
    )
    .unwrap();
    let report = roster.merge(&[real]);
    assert!(report.quarantined >= 1, "second Genesis conflicts");
    assert_eq!(roster.root(), Some(attacker.endpoint_id()));
}

#[test]
fn concurrent_consume_invite_across_instances_is_cas() {
    let identity = NodeIdentity::generate();
    let mut disk = Disk::default();
    let (_r1, fid) = disk.create(&identity, 1_000).unwrap();
    let mut one = disk.open(fid).unwrap();
    let mut two = disk.open(fid).unwrap();
    let a = disk.consume(&mut one, &[7u8; 16], 2_000).unwrap();
    let b = disk.consume(&mut two, &[7u8; 16], 2_001).unwrap();
    assert!(a ^ b, "exactly one consumer must win (a={a}, b={b})");
    let mut r3 = disk.open(fid).unwrap();
    assert!(!disk.consume(&mut r3, &[7u8; 16], 3_000).unwrap());
}

#[test]
fn attach_empty_then_learn_genesis_via_merge() {
    let now = 1000;
    let (root_roster, fid, root) = create_root(1, now);
    let mut disk = Disk::default();
    let mut joiner = disk.attach(fid).unwrap();
    assert!(joiner.root().is_none());
    assert!(joiner.effective_members(now).is_empty());
    let report = joiner.merge(root_roster.facts());
    disk.save(&joiner);
    assert_eq!(report.inserted, root_roster.len());
    assert!(joiner.is_member(&root.endpoint_id(), now));
    // Restart keeps it.
    let reopened = disk.open(fid).unwrap();
    assert!(reopened.is_member(&root.endpoint_id(), now));
}

#[test]
fn conflicting_genesis_is_quarantined() {
    let now = 1000;
    let (mut r, fid, _root) = create_root(1, now);
    let other_root = idty(2);
    let competing = genesis(&other_root, fid, now).unwrap();
    let report = r.merge(&[competing]);
    assert_eq!(report.quarantined, 1);
    assert_eq!(r.root(), Some(_root.endpoint_id()));
}

#[test]
fn cross_fabric_facts_are_quarantined() {
    let now = 1000;
    let (mut r, _fid, root) = create_root(1, now);
    let other_fabric = FabricId::from_name("some-other-fabric");
    let alien = SignedFact::sign(
        Fact {
            kind: FactKind::Grant,
            fabric_id: other_fabric,
            issuer: root.endpoint_id(),
            subject: idty(2).endpoint_id(),
            display_name: None,
            issued_at_ms: now,
            expires_at_ms: None,
            target_fact_id: None,
        },
        root.secret_key(),
    )
    .unwrap();
    let report = r.merge(&[alien]);
    assert_eq!(report.quarantined, 1);
    assert_eq!(report.inserted, 0);
    assert_eq!(r.len(), 1, "only the genesis remains");
    let (count, samples) = r.quarantine_stats();
    assert_eq!(count, 1);
    assert_eq!(samples.len(), 1);
    assert!(samples[0].contains("cross-fabric"));
}

#[test]
fn expiry_is_fail_closed_for_grants_and_revokes() {
    let now = 1000;
    let (mut r, _fid, root) = create_root(1, now);
    let c = idty(3).endpoint_id();
    r.grant(&root, c, None, Some(now + 100), now + 1).unwrap();
    assert!(contains(&r, &c, now + 99));
    assert!(!contains(&r, &c, now + 100), "expired at the instant");
    assert!(!contains(&r, &c, now + 101));

    // A revoke carrying an expiry stops revoking once it expires
    // (uniform fact expiry): grant without expiry + temporary revoke.
    let d = idty(4).endpoint_id();
    r.grant(&root, d, None, None, now + 1).unwrap();
    let tmp_revoke = SignedFact::sign(
        Fact {
            kind: FactKind::Revoke,
            fabric_id: r.fabric_id(),
            issuer: root.endpoint_id(),
            subject: d,
            display_name: None,
            issued_at_ms: now + 2,
            expires_at_ms: Some(now + 50),
            target_fact_id: None,
        },
        root.secret_key(),
    )
    .unwrap();
    r.merge(&[tmp_revoke]);
    assert!(!contains(&r, &d, now + 10), "revoked while revoke is live");
    assert!(
        contains(&r, &d, now + 51),
        "member returns when revoke expires"
    );
}

#[test]
fn non_root_issued_grant_is_stored_but_grants_nothing() {
    let now = 1000;
    let (mut r, fid, root) = create_root(1, now);
    let (member, outsider_target) = (idty(2), idty(3));
    r.grant(&root, member.endpoint_id(), None, None, now + 1)
        .unwrap();

    // A member (valid signature, same fabric) grants membership to
    // someone else. It must be stored (it is a valid fact) but the
    // projection must not change.
    let forged = SignedFact::sign(
        Fact {
            kind: FactKind::Grant,
            fabric_id: fid,
            issuer: member.endpoint_id(),
            subject: outsider_target.endpoint_id(),
            display_name: None,
            issued_at_ms: now + 2,
            expires_at_ms: None,
            target_fact_id: None,
        },
        member.secret_key(),
    )
    .unwrap();
    let len_before = r.len();
    let report = r.merge(&[forged]);
    assert_eq!(report.quarantined, 0);
    assert_eq!(report.inserted, 1);
    assert_eq!(r.len(), len_before + 1, "valid non-root fact is stored");
    assert!(
        !contains(&r, &outsider_target.endpoint_id(), now + 3),
        "non-root grant must not authorize"
    );

    // The root helper API refuses non-root callers outright.
    let err = r
        .grant(&member, outsider_target.endpoint_id(), None, None, now + 3)
        .unwrap_err();
    assert!(matches!(err, RosterError::NotRoot { .. }));
}

#[test]
fn open_missing_errors_and_create_refuses_to_clobber() {
    let mut disk = Disk::default();
    let fid = FabricId::from_name("x");
    assert!(matches!(disk.open(fid), Err(RosterError::NotFound { .. })));
    let root = idty(1);
    let (_r, _fid) = disk.create(&root, 1).unwrap();
    assert!(matches!(
        disk.create(&idty(2), 2),
        Err(RosterError::AlreadyExists { .. })
    ));
}

#[test]
fn restart_replay_keeps_facts_and_membership() {
    let now = 1000;
    let mut disk = Disk::default();
    let root = idty(1);
    let (mut r, fid) = disk.create(&root, now).unwrap();
    let b = idty(2).endpoint_id();
    r.grant(&root, b, Some("b".into()), None, now + 1).unwrap();
    disk.save(&r);
    let before_members = r.effective_members(now + 2);
    let before_len = r.len();

    // "Restart": reopen the same directory.
    let reopened = disk.open(fid).unwrap();
    assert_eq!(reopened.len(), before_len);
    assert_eq!(reopened.effective_members(now + 2), before_members);
    assert_eq!(reopened.root(), Some(root.endpoint_id()));
    assert_eq!(reopened.genesis_fact_id(), r.genesis_fact_id());

    // Corrupted file (bit flip) errors; never a silent rebuild.
    let mut bytes = disk.facts.clone().unwrap();
    let last = bytes.len() - 1;
    bytes[last] ^= 1;
    disk.facts = Some(bytes.clone());
    assert!(matches!(disk.open(fid), Err(RosterError::Corrupted { .. })));
    // Truncated file errors too.
    bytes.truncate(bytes.len() - 5);
    disk.facts = Some(bytes);
    assert!(matches!(disk.open(fid), Err(RosterError::Corrupted { .. })));
}

#[test]
fn revoke_targets_precise_grant_or_all_grants() {
    let now = 1000;
    let (mut r, _fid, root) = create_root(1, now);
    let c = idty(3).endpoint_id();
    let g1 = r
        .grant(&root, c, Some("c-via-1".into()), None, now + 1)
        .unwrap();
    let g2 = r
        .grant(&root, c, Some("c-via-2".into()), None, now + 2)
        .unwrap();
    assert_ne!(g1.fact_id(), g2.fact_id());
    assert!(contains(&r, &c, now + 3));

    // Precise revoke of g1: c survives via g2.
    r.revoke(&root, RevokeTarget::Grant(g1.fact_id()), now + 4)
        .unwrap();
    assert!(contains(&r, &c, now + 5), "c still member via g2");
    let member = r
        .effective_members(now + 5)
        .into_iter()
        .find(|m| m.endpoint_id == c)
        .unwrap();
    assert_eq!(member.since_ms, now + 2, "admitted by g2 now");

    // Blanket revoke: all live grants of c die.
    r.revoke(&root, RevokeTarget::AllGrantsOf(c), now + 6)
        .unwrap();
    assert!(!contains(&r, &c, now + 7));
    assert!(contains(&r, &root.endpoint_id(), now + 7));

    // Unknown grant id is rejected.
    let err = r
        .revoke(&root, RevokeTarget::Grant([0u8; 32]), now + 8)
        .unwrap_err();
    assert!(matches!(err, RosterError::InvalidRevokeTarget { .. }));
    // Non-grant fact id is rejected.
    let err = r
        .revoke(
            &root,
            RevokeTarget::Grant(r.genesis_fact_id().unwrap()),
            now + 9,
        )
        .unwrap_err();
    assert!(matches!(err, RosterError::InvalidRevokeTarget { .. }));
}

#[test]
fn tampered_fact_signature_is_quarantined() {
    let now = 1000;
    let (mut r, fid, root) = create_root(1, now);
    let subject = idty(2);
    let good = SignedFact::sign(
        Fact {
            kind: FactKind::Grant,
            fabric_id: fid,
            issuer: root.endpoint_id(),
            subject: subject.endpoint_id(),
            display_name: None,
            issued_at_ms: now,
            expires_at_ms: None,
            target_fact_id: None,
        },
        root.secret_key(),
    )
    .unwrap();
    // Claim a different issuer but keep root's signature: verify fails.
    let mut forged = good.clone();
    forged.fact.issuer = idty(9).endpoint_id();
    let report = r.merge(&[forged]);
    assert_eq!(report.quarantined, 1);
    // ...and a genuinely flipped signature byte fails too.
    let mut bad_sig = good.signature.to_bytes();
    bad_sig[10] ^= 1;
    let tampered = SignedFact {
        fact: good.fact,
        signature: Signature::from_bytes(&bad_sig),
    };
    let report = r.merge(&[tampered]);
    assert_eq!(report.quarantined, 1);
    assert!(!contains(&r, &subject.endpoint_id(), now + 1));
}

#[test]
fn three_nodes_merge_in_any_order_same_projection() {
    let now = 1000;
    let (mut root_roster, fid, root) = create_root(1, now);
    let (b, c) = (idty(2), idty(3));
    root_roster
        .grant(&root, b.endpoint_id(), Some("b".into()), None, now + 1)
        .unwrap();
    root_roster
        .grant(&root, c.endpoint_id(), None, None, now + 2)
        .unwrap();
    let _ = root_roster.set_display_name(&b, Some("Bee".into()), now + 3);

    let all: Vec<SignedFact> = root_roster.facts().to_vec();
    assert_eq!(all.len(), 4); // genesis + 2 grants + join

    // Node-side rosters merging in three different arrival orders.
    let orders: [Vec<SignedFact>; 3] = [
        all.clone(),
        {
            let mut v = all.clone();
            v.reverse();
            v
        },
        {
            let mut v = all.clone();
            v.rotate_left(2);
            v
        },
    ];
    let mut reference = attach_fresh(fid);
    let reference_report = reference.merge(&orders[0]);
    assert_eq!(reference_report.quarantined, 0);
    let reference_members = reference.effective_members(now + 10);
    for order in &orders[1..] {
        let mut r = attach_fresh(fid);
        let report = r.merge(order);
        assert_eq!(report.quarantined, 0);
        assert_eq!(r.len(), all.len());
        assert_eq!(
            r.effective_members(now + 10),
            reference_members,
            "arrival order must not change the projection"
        );
    }

    // Union with duplicates stays idempotent.
    let mut doubled = attach_fresh(fid);
    let both: Vec<SignedFact> = orders[0].iter().chain(orders[1].iter()).cloned().collect();
    let report = doubled.merge(&both);
    assert_eq!(report.duplicates, all.len());
    assert_eq!(report.inserted, all.len());
    assert_eq!(doubled.effective_members(now + 10), reference_members);
}

// -- consume_invite CAS --------------------------------------------------------

#[test]
fn consume_invite_is_cas_and_survives_restart() {
    let mut disk = Disk::default();
    let root = idty(1);
    let (mut r, fid) = disk.create(&root, 1).unwrap();
    let iid = [9u8; 16];
    assert!(!r.is_invite_consumed(&iid));
    assert!(disk.consume(&mut r, &iid, 100).unwrap(), "first consume wins");
    assert!(
        !disk.consume(&mut r, &iid, 101).unwrap(),
        "second consume is refused"
    );
    assert!(r.is_invite_consumed(&iid));

    let mut reopened = disk.open(fid).unwrap();
    assert!(
        !disk.consume(&mut reopened, &iid, 102).unwrap(),
        "consumption survives restart"
    );
    assert!(disk.consume(&mut reopened, &[8u8; 16], 103).unwrap());

    // A corrupted (partial) consumed log is an error.
    disk.log.as_mut().unwrap().push(0xAB); // partial record
    assert!(matches!(disk.open(fid), Err(RosterError::Corrupted { .. })));
}

#[test]
fn projection_is_rebuildable_from_fact_set() {
    let now = 1000;
    let (mut r, fid, root) = create_root(1, now);
    let (b, c) = (idty(2), idty(3));
    r.grant(&root, b.endpoint_id(), Some("b".into()), None, now + 1)
        .unwrap();
    r.grant(&root, c.endpoint_id(), None, Some(now + 5000), now + 2)
        .unwrap();
    let _ = r.set_display_name(&b, Some("Bee".into()), now + 3);
    let _ = r.set_display_name(&root, Some("The Root".into()), now + 4);
    r.revoke(&root, RevokeTarget::AllGrantsOf(c.endpoint_id()), now + 5)
        .unwrap();

    let first = r.effective_members(now + 10);
    assert_eq!(first.len(), 2);

    // Rebuild on a fresh node from a wire dump of the fact set.
    let wire = SignedFact::encode_all(r.facts()).unwrap();
    let decoded = SignedFact::decode_all(&wire).unwrap();
    let mut rebuilt = attach_fresh(fid);
    rebuilt.merge(&decoded);
    assert_eq!(rebuilt.effective_members(now + 10), first);

    // Deterministic: same input, same output.
    assert_eq!(r.effective_members(now + 10), first);
}

#[test]
fn join_name_wins_over_grant_name_and_updates() {
    let now = 1000;
    let (mut r, _fid, root) = create_root(1, now);
    let c = idty(3).endpoint_id();
    r.grant(&root, c, Some("carol (invited)".into()), None, now + 1)
        .unwrap();
    let name = |r: &Roster, id: &EndpointId| {
        r.effective_members(now + 10)
            .into_iter()
            .find(|m| &m.endpoint_id == id)
            .unwrap()
            .display_name
    };
    assert_eq!(name(&r, &c).as_deref(), Some("carol (invited)"));

    // c names themselves; the self-asserted name wins.
    let _ = r.set_display_name(&idty(3), Some("Carol".into()), now + 2);
    assert_eq!(name(&r, &c).as_deref(), Some("Carol"));
    // A later join with no name does not erase the chosen one (a Join
    // without a name simply does not participate in naming).
    let _ = r.set_display_name(&idty(3), None, now + 3);
    assert_eq!(name(&r, &c).as_deref(), Some("Carol"));
    // A yet later join changes it.
    let _ = r.set_display_name(&idty(3), Some("Carol II".into()), now + 4);
    assert_eq!(name(&r, &c).as_deref(), Some("Carol II"));

    // Root can name itself too; root since_ms is the genesis timestamp.
    let _ = r.set_display_name(&root, Some("The Root".into()), now + 5);
    assert_eq!(name(&r, &root.endpoint_id()).as_deref(), Some("The Root"));
    let root_member = &r.effective_members(now + 10)[0];
    assert_eq!(root_member.endpoint_id, root.endpoint_id());
    assert_eq!(root_member.since_ms, now);
}

// -- issue/redeem/verify -----------------------------------------------------------

#[test]
fn issue_invite_requires_root_and_redeem_verify_checks_everything() {
    let now = 10_000u64;
    let (mut r, _fid, root) = create_root(1, now);
    let (b, attacker) = (idty(2), idty(3));
    let member = idty(4); // not a member at all, just a key

    // Non-root cannot issue.
    assert!(matches!(
        r.issue_invite(&member, "https://relay".into(), vec![], None, 60_000, now),
        Err(RosterError::NotRoot { .. })
    ));

    let token = r
        .issue_invite(
            &root,
            "https://relay.example.com".into(),
            vec!["192.168.1.4:9000".into()],
            None,
            60_000,
            now,
        )
        .unwrap();
    let token_str = token.encode().unwrap();
    assert!(token_str.starts_with("dweb1."));
    let parsed = InviteToken::decode(&token_str).unwrap();
    assert_eq!(parsed, token);

    // Happy path: B signs the PoP challenge.
    let challenge = [42u8; 32];
    let pop = redeem_challenge_bytes(
        &r.fabric_id(),
        &token.invite.invite_id,
        &challenge,
    );
    let sig = b.secret_key().sign(&pop);
    assert_eq!(
        r.redeem_verify(&parsed, &b.endpoint_id(), &challenge, &sig, now + 1)
            .unwrap(),
        b.endpoint_id()
    );

    // Stolen token without B's key: attacker's PoP fails.
    let attacker_sig = attacker.secret_key().sign(&pop);
    assert!(matches!(
        r.redeem_verify(
            &parsed,
            &b.endpoint_id(),
            &challenge,
            &attacker_sig,
            now + 1
        ),
        Err(RosterError::BadPoP { .. })
    ));

    // Expired token is refused.
    assert!(matches!(
        r.redeem_verify(&parsed, &b.endpoint_id(), &challenge, &sig, now + 60_000),
        Err(RosterError::InviteExpired { .. })
    ));

    // Recipient binding: a token bound to someone else refuses B.
    let bound = r
        .issue_invite(
            &root,
            "https://relay.example.com".into(),
            vec![],
            Some(attacker.endpoint_id()),
            60_000,
            now,
        )
        .unwrap();
    assert!(matches!(
        r.redeem_verify(&bound, &b.endpoint_id(), &challenge, &sig, now + 1),
        Err(RosterError::InviteRecipientMismatch { .. })
    ));

    // Wrong fabric: token from another fabric is refused.
    let (other_roster, _other_fid, other_root) = create_root(5, now);
    let alien = other_roster
        .issue_invite(
            &other_root,
            "https://other".into(),
            vec![],
            None,
            60_000,
            now,
        )
        .unwrap();
    assert!(matches!(
        r.redeem_verify(&alien, &b.endpoint_id(), &challenge, &sig, now + 1),
        Err(RosterError::WrongFabric { .. })
    ));

    // Full redemption sequencing: verify -> consume (CAS) -> grant.
    let mut disk = Disk::default();
    assert!(disk
        .consume(&mut r, &token.invite.invite_id, now + 2)
        .unwrap());
    assert!(!disk
        .consume(&mut r, &token.invite.invite_id, now + 3)
        .unwrap());
    r.grant(&root, b.endpoint_id(), Some("b".into()), None, now + 4)
        .unwrap();
    assert!(r.is_member(&b.endpoint_id(), now + 5));
}

#[test]
fn invite_issued_by_non_root_endpoint_fails_verification() {
    // A token claiming a non-root issuer must be refused even though its
    // signature is internally consistent.
    let now = 1000;
    let (r, fid, root) = create_root(1, now);
    let impostor = idty(2);
    let invite = InviteV1 {
        fabric_id: fid,
        invite_id: [1u8; 16],
        issuer: impostor.endpoint_id(), // claims a non-root issuer
        issuer_relay_url: "https://relay".into(),
        issuer_direct_addrs: vec![],
        expires_at_ms: now + 60_000,
        recipient: None,
    };
    let token = InviteToken::sign(invite, impostor.secret_key()).unwrap();
    let challenge = [0u8; 32];
    let pop =
        redeem_challenge_bytes(&fid, &token.invite.invite_id, &challenge);
    let sig = impostor.secret_key().sign(&pop);
    assert!(matches!(
        r.redeem_verify(&token, &impostor.endpoint_id(), &challenge, &sig, now + 1),
        Err(RosterError::InviteNotRoot { .. })
    ));
    assert_eq!(r.root(), Some(root.endpoint_id()));
}

// ---- more -------------------------------------------------------------------------

#[test]
fn paths_and_short_ids() {
    assert_eq!(roster_file_path("/data"), "/data/roster.facts");
    assert_eq!(roster_file_path("/data/"), "/data/roster.facts");
    assert_eq!(roster_file_path(""), "roster.facts");
    assert_eq!(
        consumed_invites_file_path("d"),
        "d/invites.consumed"
    );
    let mut id = [0u8; 32];
    id[0] = 0xab;
    id[7] = 0x01;
    id[8] = 0xff;
    assert_eq!(fabric_id_short16(&FabricId(id)), "ab00000000000001");
}

#[test]
fn peeking_reads_the_head() {
    let mut disk = Disk::default();
    assert_eq!(peek_fabric_id(DIR, None).unwrap(), None);
    let (_r, fid) = disk.create(&idty(1), 1).unwrap();
    assert_eq!(
        peek_fabric_id(DIR, disk.facts.as_deref()).unwrap(),
        Some(fid)
    );
    match peek_fabric_id(DIR, Some(b"DWEBRST2")) {
        Err(RosterError::Corrupted { path, reason }) => {
            assert_eq!(path, "/data/roster.facts");
            assert_eq!(reason, "bad roster header");
        }
        other => panic!("{other:?}"),
    }
}

#[test]
fn damaged_files_are_described() {
    let mut disk = Disk::default();
    let (_r, fid) = disk.create(&idty(1), 1).unwrap();
    let good = disk.facts.clone().unwrap();
    let text = |facts: Vec<u8>, log: Option<Vec<u8>>, fid: FabricId| {
        Disk {
            facts: Some(facts),
            log,
        }
        .open(fid)
        .unwrap_err()
        .message()
    };
    assert_eq!(
        text(vec![0; 75], None, fid),
        "roster file /data/roster.facts is corrupted: file of 75 bytes shorter than minimum 76"
    );
    let mut magic = good.clone();
    magic[0] = 0;
    assert_eq!(
        text(magic, None, fid),
        "roster file /data/roster.facts is corrupted: bad magic"
    );
    let mut flipped = good.clone();
    flipped[50] ^= 1;
    assert_eq!(
        text(flipped, None, fid),
        "roster file /data/roster.facts is corrupted: BLAKE3 checksum mismatch"
    );
    let other = FabricId([9; 32]);
    assert_eq!(
        text(good.clone(), None, other),
        format!(
            "data dir /data/roster.facts belongs to fabric {}, but this operation targets fabric {}; use a fresh --data directory",
            fid.display(),
            other.display()
        )
    );
    assert_eq!(
        text(good.clone(), Some(vec![0; 25]), fid),
        "roster file /data/invites.consumed is corrupted: consumed-invite log length 25 is not a multiple of 24"
    );
    // a list that ends early, under a hash that holds
    let mut cut = good[..good.len() - 33].to_vec();
    let hash = blake3::hash(&cut);
    cut.extend_from_slice(hash.as_bytes());
    assert!(text(cut, None, fid).contains("fact dump failed to decode: quarantine: "));
}

#[test]
fn facts_without_a_genesis_are_not_replayed() {
    let (mut full, fid, root) = create_root(1, 1000);
    let g = full.grant(&root, idty(2).endpoint_id(), None, None, 1001).unwrap();
    let mut disk = Disk::default();
    let mut r = disk.attach(fid).unwrap();
    assert_eq!(
        r.merge(&[g.clone()]),
        MergeReport {
            inserted: 1,
            duplicates: 0,
            quarantined: 0
        }
    );
    assert!(r.effective_members(2000).is_empty());
    disk.save(&r);
    assert_eq!(
        disk.open(fid).unwrap_err().message(),
        "roster file /data/roster.facts is corrupted: facts present but no Genesis fact"
    );
    // with the genesis fact it is
    r.merge(full.facts());
    disk.save(&r);
    let back = disk.open(fid).unwrap();
    assert_eq!(back.facts(), r.facts());
    assert!(back.is_member(&idty(2).endpoint_id(), 2000));
}

#[test]
fn stored_facts_must_be_taken() {
    let (r, fid, root) = create_root(1, 1000);
    let g = r.facts()[0].clone();
    let mut body = b"DWEBRST1".to_vec();
    body.extend_from_slice(fid.as_bytes());
    body.extend_from_slice(&SignedFact::encode_all(&[g.clone(), g]).unwrap());
    let hash = blake3::hash(&body);
    body.extend_from_slice(hash.as_bytes());
    let e = Roster::open(DIR, fid, Some(&body), None).unwrap_err();
    assert_eq!(
        e.message(),
        "roster file /data/roster.facts is corrupted: stored fact failed replay validation: Duplicate"
    );
    let wrong = genesis(&root, FabricId([1; 32]), 5).unwrap();
    let mut body = b"DWEBRST1".to_vec();
    body.extend_from_slice(fid.as_bytes());
    body.extend_from_slice(&SignedFact::encode_all(&[wrong]).unwrap());
    let hash = blake3::hash(&body);
    body.extend_from_slice(hash.as_bytes());
    let e = Roster::open(DIR, fid, Some(&body), None).unwrap_err();
    assert!(e
        .message()
        .contains("failed replay validation: Quarantined(\"cross-fabric fact rejected"));
}

#[test]
fn stored_bytes_have_their_layout() {
    let (mut r, fid, root) = create_root(1, 1000);
    r.grant(&root, idty(2).endpoint_id(), None, None, 1001).unwrap();
    let b = r.persisted_bytes().unwrap();
    assert_eq!(&b[..8], b"DWEBRST1");
    assert_eq!(&b[8..40], fid.as_bytes());
    let end = b.len() - 32;
    assert_eq!(
        &b[40..end],
        &SignedFact::encode_all(r.facts()).unwrap()[..]
    );
    assert_eq!(&b[end..], blake3::hash(&b[..end]).as_bytes());
    let ids: Vec<[u8; 32]> = r.facts().iter().map(|f| f.fact_id()).collect();
    assert!(ids.windows(2).all(|w| w[0] < w[1]), "ascending ids");
    for f in r.facts() {
        assert_eq!(r.get(&f.fact_id()), Some(f));
    }
    assert_eq!(r.get(&[0; 32]), None);
    assert!(!r.is_empty());
    assert_eq!(r.data_dir(), "/data");
}

#[test]
fn misshapen_facts_are_put_aside() {
    let (mut r, fid, root) = create_root(1, 1000);
    let mut grant = raw_fact(FactKind::Grant, &root, idty(2).endpoint_id());
    grant.fabric_id = fid;
    grant.target_fact_id = Some([1; 32]);
    let grant = SignedFact::sign(grant, root.secret_key()).unwrap();
    let mut join = raw_fact(FactKind::Join, &root, root.endpoint_id());
    join.fabric_id = fid;
    join.target_fact_id = Some([1; 32]);
    let join = SignedFact::sign(join, root.secret_key()).unwrap();
    let report = r.merge(&[grant, join]);
    assert_eq!(report.quarantined, 2);
    let (count, samples) = r.quarantine_stats();
    assert_eq!(count, 2);
    assert_eq!(
        samples,
        &[
            "fact kind Grant rejected: disallowed field combination".to_owned(),
            "fact kind Join rejected: disallowed field combination".to_owned(),
        ]
    );
}

#[test]
fn sixteen_reasons_are_kept() {
    let (mut r, _fid, root) = create_root(1, 1000);
    let alien = genesis(&root, FabricId([1; 32]), 5).unwrap();
    let many = vec![alien; 20];
    let report = r.merge(&many);
    assert_eq!(report.quarantined, 20);
    let (count, samples) = r.quarantine_stats();
    assert_eq!((count, samples.len()), (20, 16));
}

#[test]
fn members_come_in_order() {
    let (mut r, _fid, root) = create_root(1, 1000);
    for seed in [9, 3, 7, 5] {
        r.grant(&root, idty(seed).endpoint_id(), None, None, 1000 + seed as u64)
            .unwrap();
    }
    // an earlier grant of a member counts
    r.grant(&root, idty(7).endpoint_id(), Some("early".into()), None, 900)
        .unwrap();
    // a grant to the root has no effect
    r.grant(&root, root.endpoint_id(), Some("self".into()), None, 1)
        .unwrap();
    let ms = r.effective_members(2000);
    assert_eq!(ms.len(), 5);
    assert!(ms
        .windows(2)
        .all(|w| w[0].endpoint_id < w[1].endpoint_id));
    let me = ms
        .iter()
        .find(|m| m.endpoint_id == root.endpoint_id())
        .unwrap();
    assert_eq!((me.display_name.as_deref(), me.since_ms), (None, 1000));
    let seven = ms
        .iter()
        .find(|m| m.endpoint_id == idty(7).endpoint_id())
        .unwrap();
    assert_eq!(seven.since_ms, 900);
    assert_eq!(seven.display_name.as_deref(), Some("early"));
    for m in &ms {
        assert!(r.is_member(&m.endpoint_id, 2000));
    }
    assert!(!r.is_member(&idty(4).endpoint_id(), 2000));
}

#[test]
fn facts_that_come_again_are_not_taken() {
    let (mut r, fid, root) = create_root(1, 1000);
    for s in 2..5u8 {
        r.grant(&root, idty(s).endpoint_id(), None, None, 1001).unwrap();
    }
    let facts = r.facts().to_vec();
    let mut other = Roster::attach("/other", fid, None, None).unwrap();
    assert_eq!(other.merge(&facts).inserted, 4);
    let members = other.effective_members(2000);
    let report = other.merge(&facts);
    assert_eq!((report.inserted, report.quarantined), (0, 0));
    assert_eq!(other.effective_members(2000), members);
}

#[test]
fn the_root_stands_in_its_place() {
    let mut seeds: Vec<u8> = (1..7).collect();
    seeds.sort_by_key(|s| idty(*s).endpoint_id());
    // the root has the largest endpoint
    let (mut r, _fid, root) = create_root(seeds[5], 1000);
    for s in &seeds[..5] {
        r.grant(&root, idty(*s).endpoint_id(), None, None, 1001)
            .unwrap();
    }
    let want: Vec<EndpointId> = seeds.iter().map(|s| idty(*s).endpoint_id()).collect();
    assert_eq!(member_ids(&r, 2000), want);
    assert_eq!(r.effective_members(2000)[5].since_ms, 1000);
}

#[test]
fn revocations_of_others_have_no_effect() {
    let (mut r, fid, root) = create_root(1, 1000);
    let (b, c) = (idty(2), idty(3));
    r.grant(&root, b.endpoint_id(), None, None, 1001).unwrap();
    r.grant(&root, c.endpoint_id(), None, None, 1002).unwrap();
    let mut revoke = raw_fact(FactKind::Revoke, &b, c.endpoint_id());
    revoke.fabric_id = fid;
    let revoke = SignedFact::sign(revoke, b.secret_key()).unwrap();
    assert_eq!(r.merge(&[revoke]).inserted, 1);
    assert!(r.is_member(&c.endpoint_id(), 2000));
    // the root cannot be revoked
    r.revoke(&root, RevokeTarget::AllGrantsOf(root.endpoint_id()), 1003)
        .unwrap();
    assert!(r.is_member(&root.endpoint_id(), 2000));
    // a blanket revocation also ends grants that come later
    r.revoke(&root, RevokeTarget::AllGrantsOf(c.endpoint_id()), 1004)
        .unwrap();
    r.grant(&root, c.endpoint_id(), None, None, 1005).unwrap();
    assert!(!r.is_member(&c.endpoint_id(), 2000));
    // only the root revokes
    assert!(matches!(
        r.revoke(&b, RevokeTarget::AllGrantsOf(c.endpoint_id()), 1006),
        Err(RosterError::NotRoot { .. })
    ));
}

#[test]
fn same_fact_twice_is_a_duplicate() {
    let (mut r, _fid, root) = create_root(1, 1000);
    let g = r.grant(&root, idty(2).endpoint_id(), None, None, 1001).unwrap();
    let again = r.grant(&root, idty(2).endpoint_id(), None, None, 1001).unwrap();
    assert_eq!(g, again);
    assert_eq!(r.len(), 2);
    assert_eq!(
        r.merge(&[g]),
        MergeReport {
            inserted: 0,
            duplicates: 1,
            quarantined: 0
        }
    );
}

#[test]
fn names_that_are_too_long_are_refused() {
    let (mut r, _fid, root) = create_root(1, 1000);
    let e = r
        .grant(
            &root,
            idty(2).endpoint_id(),
            Some("x".repeat(513)),
            None,
            1001,
        )
        .unwrap_err();
    assert_eq!(
        e.message(),
        "canonical encoding error: display_name of 513 bytes exceeds the 512 byte limit"
    );
    assert_eq!(r.len(), 1);
}

#[test]
fn invites_of_the_second_version() {
    let now = 10_000u64;
    let (r, _fid, root) = create_root(1, now);
    let b = idty(2);
    let token = r
        .issue_invite_v2(
            &root,
            vec![InviteRelayV2 {
                url: "https://relay".into(),
                capability: None,
            }],
            vec![],
            b.endpoint_id(),
            60_000,
            now,
        )
        .unwrap();
    assert_eq!(token.invite.expires_at_ms, 70_000);
    let challenge = [42u8; 32];
    let pop = redeem_challenge_bytes(&r.fabric_id(), &token.invite.invite_id, &challenge);
    let sig = b.secret_key().sign(&pop);
    assert_eq!(
        r.redeem_verify_v2(&token, &b.endpoint_id(), &challenge, &sig, now + 1)
            .unwrap(),
        b.endpoint_id()
    );
    assert!(matches!(
        r.redeem_verify_v2(&token, &idty(3).endpoint_id(), &challenge, &sig, now + 1),
        Err(RosterError::InviteRecipientMismatch { .. })
    ));
    assert!(matches!(
        r.redeem_verify_v2(&token, &b.endpoint_id(), &[0; 32], &sig, now + 1),
        Err(RosterError::BadPoP { .. })
    ));
    assert!(matches!(
        r.redeem_verify_v2(&token, &b.endpoint_id(), &challenge, &sig, now + 60_000),
        Err(RosterError::InviteExpired { .. })
    ));
    let mut forged = token.clone();
    forged.invite.expires_at_ms += 1;
    match r.redeem_verify_v2(&forged, &b.endpoint_id(), &challenge, &sig, now + 1) {
        Err(RosterError::Protocol(e)) => assert_eq!(
            e.message(),
            "quarantine: invite v2 token failed verification: quarantine: invite v2 signature verification failed"
        ),
        other => panic!("{other:?}"),
    }
    let (other, _f, other_root) = create_root(5, now);
    assert!(matches!(
        other.redeem_verify_v2(&token, &b.endpoint_id(), &challenge, &sig, now + 1),
        Err(RosterError::WrongFabric { .. })
    ));
    assert!(matches!(
        r.issue_invite_v2(&other_root, vec![], vec![], b.endpoint_id(), 1, now),
        Err(RosterError::NotRoot { .. })
    ));
    match r.issue_invite_v2(&root, vec![], vec![], b.endpoint_id(), u64::MAX, now) {
        Err(e) => assert_eq!(
            e.message(),
            "canonical encoding error: invite ttl overflow"
        ),
        other => panic!("{other:?}"),
    }
}

#[test]
fn forged_tokens_are_not_redeemed() {
    let now = 10_000u64;
    let (r, _fid, root) = create_root(1, now);
    let b = idty(2);
    let mut token = r
        .issue_invite(&root, "https://relay".into(), vec![], None, 60_000, now)
        .unwrap();
    token.invite.expires_at_ms += 1;
    let e = r
        .redeem_verify(
            &token,
            &b.endpoint_id(),
            &[0; 32],
            &Signature::from_bytes(&[0; 64]),
            now,
        )
        .unwrap_err();
    assert_eq!(
        e.message(),
        "quarantine: invite token failed verification: quarantine: invite signature verification failed"
    );
}

#[test]
fn errors_are_worded() {
    let a = idty(1).endpoint_id();
    let hex: String = a.as_bytes().iter().map(|b| format!("{b:02x}")).collect();
    assert_eq!(
        RosterError::NotRoot {
            caller: a,
            root: Some(a)
        }
        .message(),
        format!("operation requires root Some(PublicKey({hex})), caller is PublicKey({hex})")
    );
    assert_eq!(
        RosterError::InviteNotRoot {
            issuer: a,
            root: None
        }
        .message(),
        format!("invite issuer PublicKey({hex}) is not the fabric root None")
    );
    assert_eq!(
        RosterError::InviteRecipientMismatch {
            expected: a,
            redeemer: a
        }
        .message(),
        format!("invite is bound to PublicKey({hex}), redeemer is PublicKey({hex})")
    );
    assert_eq!(
        RosterError::BadPoP { redeemer: a }.message(),
        format!("proof-of-possession verification failed for PublicKey({hex})")
    );
    assert_eq!(
        RosterError::InvalidRevokeTarget { fact_id: [7; 32] }.message(),
        format!(
            "revoke target {:?} is not a stored grant fact",
            [7u8; 32]
        )
    );
    assert_eq!(
        RosterError::Persistence {
            path: "p".into(),
            source: "s".into()
        }
        .message(),
        "roster persistence failed for p: s"
    );
    assert_eq!(
        RosterError::AlreadyExists { path: "p".into() }.message(),
        "data directory already hosts a roster: p"
    );
    assert_eq!(
        RosterError::WrongFabric {
            got: FabricId([0; 32]),
            expected: FabricId([255; 32])
        }
        .message(),
        format!(
            "fact belongs to fabric {}, roster is {}",
            "0".repeat(64),
            "f".repeat(64)
        )
    );
}
