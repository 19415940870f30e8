//! Canonical formats: facts, invites and capabilities.
use base64::engine::general_purpose::URL_SAFE_NO_PAD;
use base64::Engine;

use dweb_fabric::identity::{endpoint_id_display, EndpointId, NodeIdentity, SecretKey, Signature};
use dweb_fabric::protocol::fact::FACT_FIXED_LEN;
use dweb_fabric::protocol::{
    genesis, redeem_challenge_bytes, DirectAddr, FabricId, Fact, FactKind, InviteRelayV2,
    InviteToken, InviteV1, InviteV2, InviteV2Token, InviteVersion, ProtocolError, RelayCapV1,
    SignedFact, CAP_KNOWN_MASK, MAX_DIRECT_ADDRS, MAX_DIRECT_ADDR_BYTES, MAX_NAME_BYTES,
    MAX_RELAY_URL_BYTES, MEMBER_CAPS, POP_DOMAIN, RELAY_CAP_MAX_TTL_MS, RELAY_CAP_TOKEN_LEN,
    RELAY_CAP_TOKEN_PREFIX, TOKEN_PREFIX,
};
use dweb_fabric::text::hex_str;

const INVITE_FIXED_LEN: usize = 96;
const KIND_GRANT: u8 = 2;
const FLAG_HAS_NAME: u8 = 1;
const FLAG_HAS_EXPIRY: u8 = 2;
const FLAG_HAS_TARGET: u8 = 4;

fn mk_invite_bytes(tail_len: usize) -> Vec<u8> {
    let mut v = Vec::new();
    v.extend_from_slice(b"dweb/invite/v1\0");
    v.push(1);
    v.extend_from_slice(&[3u8; 32]);
    v.extend_from_slice(&[4u8; 16]);
    v.extend_from_slice(&[5u8; 32]);
    v.truncate(16 + 1 + tail_len.min(v.len() - 17));
    v
}

#[test]
fn malformed_invite_never_panics_only_quarantine() {
    let base = mk_invite_bytes(usize::MAX);
    for cut in 0..base.len() {
        let sliced = &base[..cut];
        assert!(
            InviteV1::decode_strict(sliced).is_err(),
            "must error at cut={cut}"
        );
    }
    let mut b = base.clone();
    b.truncate(INVITE_FIXED_LEN);
    assert!(InviteV1::decode_strict(&b).is_err());
}

fn idty(seed: u8) -> NodeIdentity {
    NodeIdentity::from_seed([seed; 32])
}

fn sample_fact(display_name: Option<String>, expires_at_ms: Option<u64>) -> Fact {
    let issuer = idty(1);
    let subject = idty(2);
    Fact {
        kind: FactKind::Grant,
        fabric_id: FabricId::from_name("test-fabric"),
        issuer: issuer.endpoint_id(),
        subject: subject.endpoint_id(),
        display_name,
        issued_at_ms: 1_700_000_000_123,
        expires_at_ms,
        target_fact_id: None,
    }
}

#[test]
fn canonical_bytes_are_deterministic_across_construction_paths() {
    // Path 1: literal struct with a &str-derived name.
    let f1 = sample_fact(Some("卡罗尔".to_owned()), Some(999));
    // Path 2: same field values, different String allocation.
    let f2 = {
        let mut f = f1.clone();
        f.display_name = Some(format!("卡{}", "罗尔"));
        f.expires_at_ms = Some(900 + 99);
        f
    };
    // Path 3: decode(encode(f1)) then re-encode.
    let f3 = Fact::decode_strict(&f1.canonical_bytes().unwrap()).unwrap();

    let b1 = f1.canonical_bytes().unwrap();
    assert_eq!(b1, f2.canonical_bytes().unwrap());
    assert_eq!(b1, f3.canonical_bytes().unwrap());
}

#[test]
fn canonical_layout_offsets_match_documentation() {
    let f = sample_fact(Some("ab".to_owned()), None);
    let b = f.canonical_bytes().unwrap();
    assert_eq!(&b[0..13], b"dweb/fact/v1\0");
    assert_eq!(b[13], KIND_GRANT);
    assert_eq!(&b[14..46], f.fabric_id.as_bytes());
    assert_eq!(&b[46..78], f.issuer.as_bytes());
    assert_eq!(&b[78..110], f.subject.as_bytes());
    assert_eq!(
        u64::from_be_bytes(b[110..118].try_into().unwrap()),
        f.issued_at_ms
    );
    assert_eq!(b[118], FLAG_HAS_NAME);
    assert_eq!(u16::from_be_bytes(b[119..121].try_into().unwrap()), 2);
    assert_eq!(&b[121..123], b"ab");
    assert_eq!(b.len(), FACT_FIXED_LEN + 2 + 2);

    // No optionals at all.
    let bare = sample_fact(None, None).canonical_bytes().unwrap();
    assert_eq!(bare.len(), FACT_FIXED_LEN);
    assert_eq!(bare[118], 0);
    // Only expiry.
    let exp_only = sample_fact(None, Some(7)).canonical_bytes().unwrap();
    assert_eq!(exp_only.len(), FACT_FIXED_LEN + 8);
    assert_eq!(exp_only[118], FLAG_HAS_EXPIRY);
    // Only target (Revoke shape).
    let mut target_only = sample_fact(None, None);
    target_only.kind = FactKind::Revoke;
    target_only.target_fact_id = Some([9u8; 32]);
    let t = target_only.canonical_bytes().unwrap();
    assert_eq!(t.len(), FACT_FIXED_LEN + 32);
    assert_eq!(t[118], FLAG_HAS_TARGET);
    assert_eq!(&t[FACT_FIXED_LEN..FACT_FIXED_LEN + 32], &[9u8; 32]);
}

#[test]
fn fact_id_is_content_addressed_and_idempotent() {
    let f = sample_fact(Some("n".to_owned()), None);
    let g = sample_fact(Some("n".to_owned()), None);
    // Same content -> same id, any number of times (idempotent).
    assert_eq!(f.fact_id(), g.fact_id());
    assert_eq!(f.fact_id(), f.fact_id());
    // Any field change -> different id.
    for mutated in [
        Fact {
            issued_at_ms: f.issued_at_ms + 1,
            ..f.clone()
        },
        Fact {
            display_name: Some("m".to_owned()),
            ..f.clone()
        },
        Fact {
            kind: FactKind::Join,
            ..f.clone()
        },
        Fact {
            fabric_id: FabricId::from_name("other"),
            ..f.clone()
        },
    ] {
        assert_ne!(f.fact_id(), mutated.fact_id());
    }
    // Id equals BLAKE3 of the canonical bytes.
    assert_eq!(
        f.fact_id(),
        *blake3::hash(&f.canonical_bytes().unwrap()).as_bytes()
    );
}

#[test]
fn canonical_roundtrip_all_option_combinations() {
    for name in [None, Some("名字".to_owned()), Some(String::new())] {
        for exp in [None, Some(u64::MAX), Some(0)] {
            for target in [None, Some([5u8; 32]), Some([0u8; 32])] {
                let f = Fact {
                    display_name: name.clone(),
                    expires_at_ms: exp,
                    target_fact_id: target,
                    ..sample_fact(None, None)
                };
                let b = f.canonical_bytes().unwrap();
                let back = Fact::decode_strict(&b).unwrap();
                assert_eq!(back, f, "roundtrip failed for {f:?}");
            }
        }
    }
}

#[test]
fn decode_rejects_non_canonical_and_corrupt_bytes() {
    let good = sample_fact(Some("name".to_owned()), Some(5))
        .canonical_bytes()
        .unwrap();

    // Truncation at every length.
    for len in 0..good.len() {
        assert!(
            Fact::decode_strict(&good[..len]).is_err(),
            "decoding {len} bytes should fail"
        );
    }

    // Trailing garbage.
    let mut trailing = good.clone();
    trailing.push(0);
    assert!(Fact::decode_strict(&trailing).is_err());

    // Bad domain / kind / flags.
    for (pos, bad) in [
        (0, b"XWEB/FACT/V1".to_vec()),
        (13, vec![0x00]),
        (13, vec![0x05]),
        (13, vec![0xff]),
        (118, vec![0b1000_0000]),
        (118, vec![0xff]),
    ] {
        let mut m = good.clone();
        m[pos..pos + bad.len()].copy_from_slice(&bad);
        let err = Fact::decode_strict(&m).unwrap_err();
        assert!(
            matches!(err, ProtocolError::Quarantine { .. }),
            "pos {pos} bad {bad:?} gave {err:?}"
        );
    }

    // Name length lying about the actual content length.
    let mut liar = good.clone();
    liar[119] = 0xff;
    liar[120] = 0xff;
    assert!(Fact::decode_strict(&liar).is_err());

    // Non-UTF-8 name bytes.
    let mut bad_utf8 = good.clone();
    bad_utf8[121] = 0xff;
    bad_utf8[122] = 0xfe;
    assert!(Fact::decode_strict(&bad_utf8).is_err());
}

#[test]
fn oversized_name_is_rejected() {
    let mut f = sample_fact(None, None);
    f.display_name = Some("x".repeat(MAX_NAME_BYTES + 1));
    assert!(matches!(
        f.canonical_bytes(),
        Err(ProtocolError::Encoding(_))
    ));
    // The decode side also enforces the cap.
    let mut ok = sample_fact(Some("y".repeat(MAX_NAME_BYTES)), None)
        .canonical_bytes()
        .unwrap();
    // Rewrite the length prefix to claim MAX+1 with truncated body.
    let n = MAX_NAME_BYTES + 1;
    ok[119..121].copy_from_slice(&(n as u16).to_be_bytes());
    ok.truncate(119 + 2 + MAX_NAME_BYTES);
    assert!(matches!(
        Fact::decode_strict(&ok),
        Err(ProtocolError::Quarantine { .. })
    ));
}

#[test]
fn sign_and_verify_roundtrip() {
    let issuer = idty(1);
    let f = sample_fact(None, None);
    let sf = SignedFact::sign(f.clone(), issuer.secret_key()).unwrap();
    sf.verify().unwrap();

    // Any other key fails.
    let other = idty(3);
    let mut forged = sf.clone();
    forged.signature = other.secret_key().sign(&f.canonical_bytes().unwrap());
    assert!(forged.verify().is_err());
}

#[test]
fn tampered_fact_or_signature_fails_verification() {
    let issuer = idty(1);
    let base = sample_fact(Some("n".to_owned()), Some(10));
    let sf = SignedFact::sign(base.clone(), issuer.secret_key()).unwrap();

    // Tamper with each field of the fact: the signature must stop matching.
    for mutated in [
        Fact {
            kind: FactKind::Revoke,
            ..base.clone()
        },
        Fact {
            fabric_id: FabricId::from_name("evil"),
            ..base.clone()
        },
        Fact {
            issuer: idty(4).endpoint_id(),
            ..base.clone()
        },
        Fact {
            subject: idty(5).endpoint_id(),
            ..base.clone()
        },
        Fact {
            display_name: Some("evil".to_owned()),
            ..base.clone()
        },
        Fact {
            issued_at_ms: base.issued_at_ms + 1,
            ..base.clone()
        },
        Fact {
            expires_at_ms: Some(11),
            ..base.clone()
        },
        Fact {
            target_fact_id: Some([1u8; 32]),
            ..base.clone()
        },
    ] {
        let t = SignedFact {
            fact: mutated,
            signature: sf.signature,
        };
        let err = t.verify().unwrap_err();
        assert!(
            matches!(err, ProtocolError::Quarantine { .. }),
            "tampered fact must quarantine, got {err:?}"
        );
    }

    // Tampered signature bytes.
    let mut bad_sig = sf.signature.to_bytes();
    bad_sig[0] ^= 1;
    let t = SignedFact {
        fact: base,
        signature: Signature::from_bytes(&bad_sig),
    };
    assert!(t.verify().is_err());
}

#[test]
fn signed_fact_wire_roundtrip_and_strictness() {
    let issuer = idty(1);
    let f = sample_fact(Some("w".to_owned()), None);
    let sf = SignedFact::sign(f, issuer.secret_key()).unwrap();
    let wire = sf.encode().unwrap();
    let back = SignedFact::decode(&wire).unwrap();
    assert_eq!(back, sf);
    assert!(back.verify().is_ok());

    // Truncated / trailing.
    assert!(SignedFact::decode(&wire[..wire.len() - 1]).is_err());
    let mut trailing = wire.clone();
    trailing.push(0);
    assert!(SignedFact::decode(&trailing).is_err());
    // Lying length prefix (overshoot and undershoot).
    let mut liar = wire.clone();
    liar[3] += 10;
    assert!(SignedFact::decode(&liar).is_err());
    let mut liar2 = wire;
    liar2[3] -= 1;
    assert!(SignedFact::decode(&liar2).is_err());
}

#[test]
fn signed_fact_list_roundtrip() {
    let issuer = idty(1);
    let facts: Vec<SignedFact> = (0..5)
        .map(|i| {
            let f = Fact {
                display_name: Some(format!("m{i}")),
                issued_at_ms: i,
                expires_at_ms: Some(i),
                ..sample_fact(None, None)
            };
            SignedFact::sign(f, issuer.secret_key()).unwrap()
        })
        .collect();
    let bytes = SignedFact::encode_all(&facts).unwrap();
    let back = SignedFact::decode_all(&bytes).unwrap();
    assert_eq!(back, facts);
    // Trailing garbage rejected.
    let mut bad = bytes.clone();
    bad.push(1);
    assert!(SignedFact::decode_all(&bad).is_err());
    // Count lying.
    let mut liar = bytes;
    liar[3] += 10;
    assert!(SignedFact::decode_all(&liar).is_err());
}

#[test]
fn genesis_helper_builds_self_signed_root_fact() {
    let root = idty(1);
    let fid = FabricId::from_name("genesis-test");
    let g = genesis(&root, fid, 42).unwrap();
    assert_eq!(g.fact.kind, FactKind::Genesis);
    assert_eq!(g.fact.issuer, root.endpoint_id());
    assert_eq!(g.fact.subject, root.endpoint_id());
    assert_eq!(g.fact.fabric_id, fid);
    assert_eq!(g.fact.issued_at_ms, 42);
    assert!(g.fact.expires_at_ms.is_none());
    g.verify().unwrap();
}

#[test]
fn fabric_id_derivation() {
    assert_eq!(FabricId::from_name("home"), FabricId::from_name("home"));
    assert_ne!(FabricId::from_name("home"), FabricId::from_name("away"));
    assert_ne!(FabricId::random(), FabricId::random());
}

fn sample_invite(recipient: Option<EndpointId>) -> InviteV1 {
    InviteV1 {
        fabric_id: FabricId::from_name("invite-test"),
        invite_id: [7u8; 16],
        issuer: idty(1).endpoint_id(),
        issuer_relay_url: "https://relay.example.com".to_owned(),
        issuer_direct_addrs: vec!["192.168.1.4:1234".to_owned()],
        expires_at_ms: 60_000,
        recipient,
    }
}

#[test]
fn invite_token_roundtrip() {
    let issuer = idty(1);
    let invite = sample_invite(Some(idty(2).endpoint_id()));
    let token = InviteToken::sign(invite.clone(), issuer.secret_key()).unwrap();

    let s = token.encode().unwrap();
    assert!(s.starts_with("dweb1."));
    assert!(
        !s.contains('+') && !s.contains('/') && !s.contains('='),
        "base64url-nopad only"
    );
    let back = InviteToken::decode(&s).unwrap();
    assert_eq!(back, token);
    assert!(back.verify().is_ok());
    assert_eq!(back.invite, invite);
    assert!(!back.is_expired(59_999));
    assert!(back.is_expired(60_000), "expired at the exact instant");
}

#[test]
fn invite_decode_rejects_malformed_strings_and_bad_signatures() {
    let issuer = idty(1);
    let token = InviteToken::sign(sample_invite(None), issuer.secret_key()).unwrap();
    let good = token.encode().unwrap();

    // Wrong / missing prefix, non-base64, truncation.
    assert!(InviteToken::decode(&good[1..]).is_err());
    assert!(InviteToken::decode(&good.replace("dweb1.", "dweb2.")).is_err());
    assert!(InviteToken::decode(&format!("{TOKEN_PREFIX}!!!!")).is_err());
    assert!(InviteToken::decode(&good[..good.len() - 8]).is_err());

    let raw = URL_SAFE_NO_PAD
        .decode(good.strip_prefix(TOKEN_PREFIX).unwrap())
        .unwrap();
    // Structural corruption: flip a byte inside the domain header.
    let mut evil = raw.clone();
    evil[0] = b'X';
    assert!(
        InviteToken::decode(&format!("{TOKEN_PREFIX}{}", URL_SAFE_NO_PAD.encode(evil)))
            .is_err()
    );
    // Tampered payload byte: structure still parses, signature must fail.
    let mut evil = raw;
    let body_len = evil.len() - Signature::LENGTH;
    evil[body_len - 1] ^= 1;
    assert!(
        InviteToken::decode(&format!("{TOKEN_PREFIX}{}", URL_SAFE_NO_PAD.encode(evil)))
            .is_err(),
        "tampered invite must fail signature check at decode"
    );
    // A second valid key signing over the same bytes must not verify
    // against the embedded issuer.
    let mut other_signed = token.clone();
    other_signed.signature = idty(9)
        .secret_key()
        .sign(&token.invite.canonical_bytes().unwrap());
    assert!(other_signed.verify().is_err());
}

#[test]
fn invite_limits_are_enforced() {
    // Too many direct addrs.
    let mut inv = sample_invite(None);
    inv.issuer_direct_addrs = (0..=MAX_DIRECT_ADDRS)
        .map(|i| format!("10.0.0.1:{i}"))
        .collect();
    assert!(matches!(
        inv.canonical_bytes(),
        Err(ProtocolError::Encoding(_))
    ));
    // One addr too long.
    let mut inv = sample_invite(None);
    inv.issuer_direct_addrs = vec!["x".repeat(MAX_DIRECT_ADDR_BYTES + 1)];
    assert!(matches!(
        inv.canonical_bytes(),
        Err(ProtocolError::Encoding(_))
    ));
    // Relay URL too long.
    let mut inv = sample_invite(None);
    inv.issuer_relay_url = "x".repeat(MAX_RELAY_URL_BYTES + 1);
    assert!(matches!(
        inv.canonical_bytes(),
        Err(ProtocolError::Encoding(_))
    ));
    // max_uses tampering on the wire is rejected by decode.
    let issuer = idty(1);
    let token = InviteToken::sign(sample_invite(None), issuer.secret_key()).unwrap();
    let raw = URL_SAFE_NO_PAD
        .decode(token.encode().unwrap().strip_prefix(TOKEN_PREFIX).unwrap())
        .unwrap();
    let mut evil = raw;
    let last = evil.len() - Signature::LENGTH - 1; // max_uses byte
    evil[last] = 2;
    assert!(
        InviteToken::decode(&format!("{TOKEN_PREFIX}{}", URL_SAFE_NO_PAD.encode(evil)))
            .is_err()
    );
}

#[test]
fn pop_challenge_material_is_domain_separated() {
    let fid = FabricId::from_name("pop-test");
    let iid = [3u8; 16];
    let challenge = [4u8; 32];
    let bytes = redeem_challenge_bytes(&fid, &iid, &challenge);
    assert_eq!(&bytes[..POP_DOMAIN.len()], &POP_DOMAIN[..]);
    let after_domain = POP_DOMAIN.len();
    assert_eq!(
        &bytes[after_domain..after_domain + 32],
        fid.as_bytes(),
        "fabric_id follows the domain"
    );
    assert_eq!(
        &bytes[after_domain + 32..after_domain + 48],
        iid,
        "invite_id follows the fabric_id"
    );
    assert_eq!(
        &bytes[after_domain + 48..],
        challenge,
        "challenge is the tail"
    );
    assert_eq!(bytes.len(), POP_DOMAIN.len() + 32 + 16 + 32);
    // Different fabric or invite or challenge -> different bytes.
    assert_ne!(
        bytes,
        redeem_challenge_bytes(&FabricId::from_name("other"), &iid, &challenge)
    );
    assert_ne!(bytes, redeem_challenge_bytes(&fid, &[0u8; 16], &challenge));
    assert_ne!(bytes, redeem_challenge_bytes(&fid, &iid, &[0u8; 32]));

    // B signs the material; anyone with B's public key verifies.
    let b = idty(2);
    let sig = b.secret_key().sign(&bytes);
    assert!(b.endpoint_id().verify(&bytes, &sig));
    assert!(!idty(3).endpoint_id().verify(&bytes, &sig));
}

#[test]
fn debug_json_projection_mentions_content_address() {
    let issuer = idty(1);
    let sf = SignedFact::sign(
        sample_fact(Some("名字".to_owned()), Some(42)),
        issuer.secret_key(),
    )
    .unwrap();
    let json = sf.to_json_string().unwrap();
    assert!(json.contains(&hex_str(&sf.fact_id())));
    assert!(json.contains(&endpoint_id_display(&sf.fact.issuer)));
}

fn cross_crate_inputs() -> (FabricId, [u8; 32], EndpointId, u8, u64, u64) {
    let fabric_id = FabricId([3u8; 32]);
    let server_id = [2u8; 32];
    let recipient = SecretKey::from_bytes(&[4u8; 32]).public();
    (
        fabric_id,
        server_id,
        recipient,
        CAP_KNOWN_MASK,
        1_800_000_000_000,
        1_800_003_600_000,
    )
}

#[test]
fn relay_cap_roundtrip_and_frozen_shape() {
    let signer = SecretKey::from_bytes(&[1u8; 32]);
    let (fabric_id, server_id, recipient, caps, issued, expires) = cross_crate_inputs();
    let token = RelayCapV1::sign_and_encode(
        &signer, &fabric_id, &server_id, &recipient, caps, issued, expires,
    )
    .unwrap();
    assert_eq!(token.len(), RELAY_CAP_TOKEN_LEN);
    assert_eq!(RELAY_CAP_TOKEN_LEN, 287);
    let parsed = RelayCapV1::decode(&token).unwrap();
    assert_eq!(parsed.fabric_id, fabric_id);
    assert_eq!(parsed.server_id, server_id);
    assert_eq!(parsed.issuer, signer.public());
    assert_eq!(parsed.recipient, recipient);
    assert_eq!(parsed.caps, caps);
    assert_eq!(parsed.issued_at, issued);
    assert_eq!(parsed.expires_at, expires);
}

#[test]
fn relay_cap_cross_crate_vector() {
    let signer = SecretKey::from_bytes(&[1u8; 32]);
    let (fabric_id, server_id, recipient, caps, issued, expires) = cross_crate_inputs();
    let token = RelayCapV1::sign_and_encode(
        &signer, &fabric_id, &server_id, &recipient, caps, issued, expires,
    )
    .unwrap();
    assert_eq!(token, dweb_fabric::CROSS_CRATE_CAP_VECTOR);
}

#[test]
fn relay_cap_encode_rejects_out_of_policy_inputs() {
    let signer = SecretKey::from_bytes(&[1u8; 32]);
    let (fabric_id, server_id, recipient, caps, issued, expires) = cross_crate_inputs();
    assert!(
        RelayCapV1::sign_and_encode(
            &signer,
            &fabric_id,
            &server_id,
            &recipient,
            caps | 0x40,
            issued,
            expires
        )
        .is_err()
    );
    assert!(
        RelayCapV1::sign_and_encode(
            &signer,
            &fabric_id,
            &server_id,
            &recipient,
            caps,
            issued,
            issued + RELAY_CAP_MAX_TTL_MS + 1,
        )
        .is_err()
    );
    // issued_at > expires_at
    assert!(
        RelayCapV1::sign_and_encode(
            &signer, &fabric_id, &server_id, &recipient, caps, expires, issued
        )
        .is_err()
    );
}

#[test]
fn relay_cap_decode_rejects_malformed() {
    let signer = SecretKey::from_bytes(&[1u8; 32]);
    let (fabric_id, server_id, recipient, caps, issued, expires) = cross_crate_inputs();
    let token = RelayCapV1::sign_and_encode(
        &signer, &fabric_id, &server_id, &recipient, caps, issued, expires,
    )
    .unwrap();
    assert!(RelayCapV1::decode("dwebr2.aaaa").is_err());
    assert!(RelayCapV1::decode("").is_err());
    assert!(RelayCapV1::decode(&token[..token.len() - 1]).is_err());
    assert!(RelayCapV1::decode(&format!("{token}=")).is_err());
    assert!(
        RelayCapV1::decode(&format!("{RELAY_CAP_TOKEN_PREFIX}{}", "A".repeat(2048))).is_err()
    );
    let payload = token.strip_prefix(RELAY_CAP_TOKEN_PREFIX).unwrap();
    let mut wire = [0u8; 210];
    URL_SAFE_NO_PAD.decode_slice(payload, &mut wire).unwrap();
    wire[129] = 0xFF;
    let tampered = format!("{RELAY_CAP_TOKEN_PREFIX}{}", URL_SAFE_NO_PAD.encode(wire));
    assert!(RelayCapV1::decode(&tampered).is_err());
}

fn invite_v2_sample() -> (InviteV2, NodeIdentity) {
    let issuer = idty(7);
    let recipient = idty(8);
    let cap = RelayCapV1::sign_and_encode(
        issuer.secret_key(),
        &FabricId::from_name("v2-fabric"),
        &[2u8; 32],
        &recipient.endpoint_id(),
        MEMBER_CAPS,
        1_700_000_000_000,
        1_700_000_000_000 + 60_000,
    )
    .unwrap();
    let invite = InviteV2 {
        fabric_id: FabricId::from_name("v2-fabric"),
        invite_id: [0xAB; 16],
        issuer: issuer.endpoint_id(),
        expires_at_ms: 1_700_000_000_000 + 120_000,
        recipient: recipient.endpoint_id(),
        relays: vec![
            InviteRelayV2 {
                url: "https://relay-a.example".to_owned(),
                capability: Some(cap),
            },
            InviteRelayV2 {
                url: "https://relay-b.example".to_owned(),
                capability: None,
            },
        ],
        direct_addrs: vec![
            DirectAddr::V4 {
                ip: [192, 168, 1, 10],
                port: 53210,
            },
            DirectAddr::V6 {
                ip: [0xfd, 0, 0, 0, 0, 0, 0, 0, 0, 0, 0, 0, 0, 0, 0, 1],
                port: 443,
            },
        ],
    };
    (invite, issuer)
}

#[test]
fn invite_v2_token_roundtrip() {
    let (invite, issuer) = invite_v2_sample();
    let token = InviteV2Token::sign(invite.clone(), issuer.secret_key()).unwrap();
    let s = token.encode().unwrap();
    assert!(s.starts_with("dweb2."));
    let back = InviteV2Token::decode(&s).unwrap();
    assert_eq!(back, token);
    assert_eq!(back.invite, invite);
    let mut bad = token.clone();
    bad.invite.expires_at_ms += 1;
    assert!(bad.verify().is_err());
    assert!(InviteV2Token::decode(&bad.encode().unwrap()).is_err());
}

#[test]
fn invite_v2_layout_offsets_match_appendix_a() {
    let (invite, issuer) = invite_v2_sample();
    let b = invite.canonical_bytes().unwrap();
    assert_eq!(&b[0..15], b"dweb/invite/v2\0");
    assert_eq!(b[15], 0x02);
    assert_eq!(&b[16..48], invite.fabric_id.as_bytes());
    assert_eq!(&b[48..64], &invite.invite_id);
    assert_eq!(&b[64..96], invite.issuer.as_bytes());
    assert_eq!(
        u64::from_be_bytes(b[96..104].try_into().unwrap()),
        invite.expires_at_ms
    );
    assert_eq!(&b[104..136], invite.recipient.as_bytes());
    assert_eq!(b[136], 2, "relay_count");
    let mut off = 137usize;
    let url_len = u16::from_be_bytes(b[off..off + 2].try_into().unwrap()) as usize;
    assert_eq!(url_len, "https://relay-a.example".len());
    assert_eq!(&b[off + 2..off + 2 + url_len], b"https://relay-a.example");
    off += 2 + url_len;
    let cap = invite.relays[0].capability.as_ref().unwrap();
    let cap_len = u16::from_be_bytes(b[off..off + 2].try_into().unwrap()) as usize;
    assert_eq!(cap_len, cap.len());
    assert_eq!(&b[off + 2..off + 2 + cap_len], cap.as_bytes());
    off += 2 + cap_len;
    let url_len_b = u16::from_be_bytes(b[off..off + 2].try_into().unwrap()) as usize;
    off += 2 + url_len_b;
    assert_eq!(
        u16::from_be_bytes(b[off..off + 2].try_into().unwrap()),
        0,
        "cap_len == 0 for capability-less relay"
    );
    off += 2;
    assert_eq!(b[off], 2, "addr_count");
    off += 1;
    assert_eq!(b[off], 4, "IPv4 family tag");
    assert_eq!(&b[off + 1..off + 5], &[192, 168, 1, 10]);
    assert_eq!(
        u16::from_be_bytes(b[off + 5..off + 7].try_into().unwrap()),
        53210
    );
    off += 7;
    assert_eq!(b[off], 6, "IPv6 family tag");
    assert_eq!(
        &b[off + 1..off + 17],
        &[0xfd, 0, 0, 0, 0, 0, 0, 0, 0, 0, 0, 0, 0, 0, 0, 1]
    );
    assert_eq!(
        u16::from_be_bytes(b[off + 17..off + 19].try_into().unwrap()),
        443
    );
    assert_eq!(b.len(), off + 19);
    assert!(
        invite
            .issuer
            .verify(&b, &issuer.secret_key().sign(&b))
    );
}

#[test]
fn invite_v2_decode_rejects_inconsistent_capabilities() {
    let (invite, issuer) = invite_v2_sample();
    let base = invite.canonical_bytes().unwrap();
    let fabric_id = invite.fabric_id;
    let server_id = [2u8; 32];
    let wrong_recipient_cap = RelayCapV1::sign_and_encode(
        issuer.secret_key(),
        &fabric_id,
        &server_id,
        &idty(9).endpoint_id(),
        MEMBER_CAPS,
        1_700_000_000_000,
        invite.expires_at_ms,
    )
    .unwrap();
    let late_cap = RelayCapV1::sign_and_encode(
        issuer.secret_key(),
        &fabric_id,
        &server_id,
        &invite.recipient,
        MEMBER_CAPS,
        1_700_000_000_000,
        invite.expires_at_ms + 1,
    )
    .unwrap();
    for (name, cap) in [
        ("wrong-recipient", wrong_recipient_cap),
        ("late-expiry", late_cap),
    ] {
        let mut bytes = Vec::new();
        bytes.extend_from_slice(&base[..137]);
        let url = "https://relay-a.example";
        bytes.extend_from_slice(&(url.len() as u16).to_be_bytes());
        bytes.extend_from_slice(url.as_bytes());
        bytes.extend_from_slice(&(cap.len() as u16).to_be_bytes());
        bytes.extend_from_slice(cap.as_bytes());
        bytes.extend_from_slice(&base[137 + 2 + url.len() + 2 + 287..]);
        assert!(
            InviteV2::decode_strict(&bytes).is_err(),
            "{name}: decode must quarantine"
        );
        let mut bad_invite = invite.clone();
        bad_invite.relays[0].capability = Some(cap);
        assert!(
            bad_invite.canonical_bytes().is_err(),
            "{name}: encode must fail fast"
        );
    }
}

#[test]
fn invite_v2_limits_enforced() {
    let (invite, issuer) = invite_v2_sample();
    // relay_count > 8
    let mut many = invite.clone();
    many.relays = (0..9)
        .map(|i| InviteRelayV2 {
            url: format!("https://r{i}.example"),
            capability: None,
        })
        .collect();
    assert!(many.canonical_bytes().is_err());
    assert!(InviteV2Token::sign(many.clone(), issuer.secret_key()).is_err());
    let mut bytes = invite.canonical_bytes().unwrap();
    bytes[136] = 9;
    assert!(InviteV2::decode_strict(&bytes).is_err());
    // addr_count > 4
    let mut addrs = invite.clone();
    addrs.direct_addrs = (0..5)
        .map(|i| DirectAddr::V4 {
            ip: [10, 0, 0, i],
            port: 80,
        })
        .collect();
    assert!(addrs.canonical_bytes().is_err());
    let mut long_url = invite.clone();
    long_url.relays[0].url = "x".repeat(2049);
    assert!(long_url.canonical_bytes().is_err());
}

#[test]
fn invite_prefix_dispatch_and_v1_isolation() {
    let (invite, issuer) = invite_v2_sample();
    let v2_str = InviteV2Token::sign(invite, issuer.secret_key())
        .unwrap()
        .encode()
        .unwrap();
    match InviteToken::decode(&v2_str) {
        Err(ProtocolError::UnsupportedInviteVersion(msg)) => {
            assert!(msg.contains("upgrade"), "{msg}");
        }
        other => panic!("expected UnsupportedInviteVersion, got {other:?}"),
    }
    let v1 = sample_v1_token();
    let v1_str = v1.encode().unwrap();
    assert!(matches!(
        InviteV2Token::decode(&v1_str),
        Err(ProtocolError::Quarantine { .. })
    ));
    match InviteVersion::decode(&v1_str) {
        Ok(InviteVersion::V1(t)) => assert_eq!(t, v1),
        other => panic!("expected V1, got {other:?}"),
    }
    match InviteVersion::decode(&v2_str) {
        Ok(InviteVersion::V2(_)) => {}
        other => panic!("expected V2, got {other:?}"),
    }
}

#[test]
fn decode_all_prefix_returns_consumed_offset() {
    let issuer = idty(1);
    let facts: Vec<SignedFact> = (0..2)
        .map(|_| {
            SignedFact::sign(sample_fact(Some("n".to_owned()), None), issuer.secret_key())
                .unwrap()
        })
        .collect();
    let mut payload = SignedFact::encode_all(&facts).unwrap();
    let payload_len = payload.len();
    payload.extend_from_slice(&[0, 0, 0, 0]);
    let (parsed, consumed) = SignedFact::decode_all_prefix(&payload).unwrap();
    assert_eq!(parsed.len(), 2);
    assert_eq!(consumed, payload_len, "facts end exactly before the tail");
    assert!(SignedFact::decode_all(&payload).is_err());
}

fn sample_v1_token() -> InviteToken {
    let issuer = idty(5);
    let invite = InviteV1 {
        fabric_id: FabricId::from_name("v1-fabric"),
        invite_id: [0xCD; 16],
        issuer: issuer.endpoint_id(),
        issuer_relay_url: "https://relay.example".to_owned(),
        issuer_direct_addrs: vec![],
        expires_at_ms: 1_700_000_000_000 + 60_000,
        recipient: None,
    };
    InviteToken::sign(invite, issuer.secret_key()).unwrap()
}

// ---- more -------------------------------------------------------------------------

fn why(e: ProtocolError) -> String {
    e.message()
}

#[test]
fn fabric_ids_are_hashes_of_names() {
    assert_eq!(
        FabricId::from_name("home").as_bytes(),
        blake3::hash(b"home").as_bytes()
    );
    assert_eq!(
        FabricId([0xab; 32]).display(),
        "ab".repeat(32)
    );
}

#[test]
fn invite_errors_are_worded() {
    let good = sample_invite(None).canonical_bytes().unwrap();
    let err = |b: &[u8]| why(InviteV1::decode_strict(b).unwrap_err());
    assert_eq!(
        err(&good[..108]),
        "quarantine: truncated canonical invite: shorter than the fixed prefix"
    );
    let with = |at: usize, v: u8| {
        let mut b = good.clone();
        b[at] = v;
        b
    };
    assert!(err(&with(0, b'X')).starts_with("quarantine: bad invite domain [88, 119, "));
    assert_eq!(
        err(&with(15, 9)),
        "quarantine: unsupported invite version 0x09"
    );
    assert_eq!(
        err(&with(96, 9)),
        "quarantine: relay URL of 2329 bytes exceeds the 2048 byte limit"
    );
    assert_eq!(
        err(&with(96, 1)),
        "quarantine: truncated canonical invite: relay URL bytes"
    );
    assert_eq!(
        err(&with(98, 0xff)),
        "quarantine: relay URL is not valid UTF-8"
    );
    let url = "https://relay.example.com".len();
    assert_eq!(
        err(&with(98 + url, 5)),
        "quarantine: 5 direct addrs exceeds the limit of 4"
    );
    assert_eq!(
        err(&with(99 + url, 65)),
        "quarantine: direct addr of 65 bytes exceeds the 64 byte limit"
    );
    assert_eq!(
        err(&with(99 + url, 40)),
        "quarantine: truncated canonical invite: direct addr bytes"
    );
    assert_eq!(
        err(&with(100 + url, 0xff)),
        "quarantine: direct addr is not valid UTF-8"
    );
    let n = good.len();
    assert_eq!(
        err(&with(n - 2, 2)),
        "quarantine: reserved invite flag bits: 0x02"
    );
    assert_eq!(
        err(&with(n - 2, 1)),
        "quarantine: truncated canonical invite: recipient"
    );
    assert_eq!(
        err(&with(n - 1, 2)),
        "quarantine: invite max_uses must be 1, got 2"
    );
    let mut long = good.clone();
    long.push(0);
    assert_eq!(
        err(&long),
        format!(
            "quarantine: invite length mismatch: expected {n} bytes, got {}",
            n + 1
        )
    );
    assert_eq!(
        why(InviteToken::decode("dweb3.x").unwrap_err()),
        "quarantine: token does not start with \"dweb1.\""
    );
    assert_eq!(
        why(InviteToken::decode("dweb1.AAAA").unwrap_err()),
        "quarantine: token payload shorter than a signature"
    );
    assert!(why(InviteToken::decode("dweb1.!").unwrap_err())
        .starts_with("quarantine: token base64 decoding failed: "));
}

#[test]
fn invites_without_the_optional_parts() {
    for recipient in [None, Some(idty(2).endpoint_id())] {
        for addrs in [vec![], vec!["a".to_owned(), String::new(), "b".repeat(64)]] {
            let mut inv = sample_invite(recipient);
            inv.issuer_relay_url = String::new();
            inv.issuer_direct_addrs = addrs;
            let b = inv.canonical_bytes().unwrap();
            assert_eq!(InviteV1::decode_strict(&b).unwrap(), inv);
        }
    }
}

#[test]
fn invite_v2_errors_are_worded() {
    let (invite, _) = invite_v2_sample();
    let good = invite.canonical_bytes().unwrap();
    let err = |b: &[u8]| why(InviteV2::decode_strict(b).unwrap_err());
    assert_eq!(
        err(&good[..137]),
        "quarantine: truncated canonical invite v2: shorter than the fixed prefix"
    );
    let with = |at: usize, v: u8| {
        let mut b = good.clone();
        b[at] = v;
        b
    };
    assert_eq!(
        err(&with(15, 1)),
        "quarantine: unsupported invite v2 version 0x01"
    );
    assert_eq!(
        err(&with(136, 9)),
        "quarantine: 9 relays exceeds the limit of 8"
    );
    assert_eq!(
        err(&with(136, 3)),
        "quarantine: truncated canonical invite v2: relay 2 url bytes"
    );
    assert_eq!(
        err(&good[..150]),
        "quarantine: truncated canonical invite v2: relay 0 url bytes"
    );
    let n = good.len();
    assert_eq!(
        err(&good[..n - 1]),
        "quarantine: truncated canonical invite v2: direct addr 1 v6 bytes"
    );
    assert_eq!(
        err(&with(n - 19, 7)),
        "quarantine: direct addr 1 has unknown family tag 0x07"
    );
    let mut long = good.clone();
    long.push(0);
    assert_eq!(
        err(&long),
        format!(
            "quarantine: invite v2 length mismatch: expected {n} bytes, got {}",
            n + 1
        )
    );
    assert_eq!(
        why(InviteV2Token::decode("dweb1.x").unwrap_err()),
        "quarantine: token does not start with \"dweb2.\""
    );
    let mut bad = invite.clone();
    bad.relays[0].capability = Some("x".to_owned());
    assert_eq!(
        why(bad.canonical_bytes().unwrap_err()),
        "canonical encoding error: relay capability invalid: quarantine: not a well-formed dwebr1. capability token"
    );
    bad.relays[0].capability = Some("x".repeat(513));
    assert_eq!(
        why(bad.canonical_bytes().unwrap_err()),
        "canonical encoding error: relay capability of 513 bytes exceeds the 512 byte limit"
    );
}

#[test]
fn capability_refusals_are_worded() {
    let key = SecretKey::from_bytes(&[1u8; 32]);
    let (f, s, r, _, issued, _) = cross_crate_inputs();
    let sign = |caps, a, b| {
        why(RelayCapV1::sign_and_encode(&key, &f, &s, &r, caps, a, b).unwrap_err())
    };
    assert_eq!(
        sign(0x08, issued, issued),
        "canonical encoding error: caps 0x08 contains reserved bits (known mask 0x07)"
    );
    assert_eq!(
        sign(1, issued + 1, issued),
        "canonical encoding error: issued_at must not exceed expires_at"
    );
    assert_eq!(
        sign(1, 0, RELAY_CAP_MAX_TTL_MS + 1),
        "canonical encoding error: capability TTL over the 15552000000ms ceiling (design §11.1)"
    );
    assert!(
        RelayCapV1::sign_and_encode(&key, &f, &s, &r, 0, 0, RELAY_CAP_MAX_TTL_MS).is_ok()
    );
    assert_eq!(
        why(RelayCapV1::decode("x").unwrap_err()),
        "quarantine: not a well-formed dwebr1. capability token"
    );
}

#[test]
fn capabilities_are_read_whatever_their_signature() {
    let token = dweb_fabric::CROSS_CRATE_CAP_VECTOR;
    let cap = RelayCapV1::decode(token).unwrap();
    let mut wire = URL_SAFE_NO_PAD
        .decode(token.strip_prefix(RELAY_CAP_TOKEN_PREFIX).unwrap())
        .unwrap();
    assert_eq!(&cap.canonical_bytes()[..], &wire[..146]);
    wire[200] ^= 1;
    assert_eq!(RelayCapV1::from_wire(&wire).unwrap(), cap);
    wire[0] = 2;
    assert!(RelayCapV1::from_wire(&wire).is_err());
}

#[test]
fn readable_facts_are_json() {
    let sf = SignedFact::sign(
        sample_fact(Some("a \"b\"\n\u{1}\u{4e2d}".to_owned()), Some(42)),
        idty(1).secret_key(),
    )
    .unwrap();
    let mut m = serde_json::Map::new();
    let mut put = |k: &str, v: serde_json::Value| {
        m.insert(k.to_owned(), v);
    };
    put("display_name", "a \"b\"\n\u{1}\u{4e2d}".into());
    put("expires_at_ms", 42.into());
    put("fabric_id", sf.fact.fabric_id.display().into());
    put("fact_id", hex_str(&sf.fact_id()).into());
    put("issued_at_ms", 1_700_000_000_123u64.into());
    put("issuer", endpoint_id_display(&sf.fact.issuer).into());
    put("kind", sf.fact.kind.as_str().into());
    put("signature", hex_str(&sf.signature.to_bytes()).into());
    put("subject", endpoint_id_display(&sf.fact.subject).into());
    put("target_fact_id", serde_json::Value::Null);
    assert_eq!(
        sf.to_json_string().unwrap(),
        serde_json::Value::Object(m).to_string()
    );
}

#[test]
fn fact_lists_cut_off_anywhere_are_refused() {
    let issuer = idty(1);
    let facts: Vec<SignedFact> = (0..2)
        .map(|i| {
            let f = Fact {
                issued_at_ms: i,
                ..sample_fact(None, None)
            };
            SignedFact::sign(f, issuer.secret_key()).unwrap()
        })
        .collect();
    let bytes = SignedFact::encode_all(&facts).unwrap();
    for k in 0..bytes.len() {
        assert!(SignedFact::decode_all(&bytes[..k]).is_err());
    }
    assert_eq!(SignedFact::decode_all(&bytes).unwrap(), facts);
}
