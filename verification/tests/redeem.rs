//! Refusals, receipts and the decisions of both ends of a redemption.
use dweb_fabric::clock::now_ms;
use dweb_fabric::identity::{EndpointId, NodeIdentity, SecretKey};
use dweb_fabric::protocol::{
    DirectAddr, FabricId, InviteRelayV2, InviteV1, InviteV2, InviteV2Token, InviteToken,
    InviteVersion, ProtocolError, RelayCapV1, SignedFact, CAP_KNOWN_MASK, CAP_RELAY, MEMBER_CAPS,
    MEMBER_CAP_TTL_MS,
};
use dweb_fabric::roster::{fabric_id_short16, Roster, RosterError};
use dweb_fabric::session::addressing::address;
use dweb_fabric::session::issuer::{
    read_intent, read_proof, redeem_check, redeem_entry, redeem_finish, redeem_invite_id,
    redeem_receipt, RedeemEnd,
};
use dweb_fabric::session::joiner::{
    redeem_answer, redeem_answer_v2, redeem_intent, redeem_intent_v2, redeem_proof,
};
use dweb_fabric::session::redeem_err::{
    decode_records, normalize_payload, reduce, RecordShortRead, RedeemErrorKind, RedeemRecord,
    RedeemRejection,
};
use dweb_fabric::session::redemption::{
    redeem_frame, redeem_next, RedeemAction, RedeemEvent, RedeemPhase,
};
use dweb_fabric::session::{
    encode_ok2_cap_segment, endpoint_addr_from_invite, endpoint_addr_from_invite_v2, frame_type,
    link_status, on_path_event, parse_ok2_caps, read_frame, read_hello, redeem_verify_emit,
    write_frame, LinkStatus, PathKind, PathStep, RedeemCapMinter, RedeemError, SessionError,
    MAX_FRAME, MAX_REDEEM_FRAME,
};

fn rec(kind: u8, payload: &[u8]) -> RedeemRecord {
    RedeemRecord {
        kind,
        payload: payload.to_vec(),
    }
}

#[test]
fn encode_record_matches_contract_layout() {
    assert_eq!(
        RedeemErrorKind::Consumed.encode_record(),
        vec![0x00, 0x00],
        "must equal fixture 'canonical' payload 0000"
    );
    let e = RedeemErrorKind::Other("not-root".into());
    assert_eq!(
        e.encode_record(),
        vec![0x03, 0x08, b'n', b'o', b't', 0x2d, b'r', b'o', b'o', b't']
    );
    assert_eq!(RedeemErrorKind::NotRoot.encode_record(), vec![0x01, 0x00]);
    assert_eq!(RedeemErrorKind::BadPoP.encode_record(), vec![0x02, 0x00]);
}

#[test]
fn normalize_strips_non_printable_and_truncates_255() {
    assert_eq!(normalize_payload("\u{4e2d}"), Vec::<u8>::new());
    assert_eq!(normalize_payload("a\x01b\x7fc d"), b"abc d".to_vec());
    let long = "x".repeat(300);
    assert_eq!(normalize_payload(&long).len(), 255);
    let exact = "y".repeat(255);
    assert_eq!(normalize_payload(&exact).len(), 255);
}

#[test]
fn decode_records_extra_bytes_are_next_record() {
    let payload = [
        0x00u8, 0x00, 0x03, 0x08, b'n', b'o', b't', 0x2d, b'r', b'o', b'o', b't',
    ];
    let rs = decode_records(&payload).unwrap();
    assert_eq!(rs.len(), 2);
    assert!(rs[0].is_consumed());
    assert_eq!(rs[1].kind, 0x03);
    assert_eq!(rs[1].presented(), "not-root");
}

#[test]
fn decode_records_segment_short_reads() {
    assert_eq!(
        decode_records(&[0x03, 0x04, 0x6e, 0x6f]),
        Err(RecordShortRead { at: 0 })
    );
    assert_eq!(
        decode_records(&[0x03, 0x00, 0x01]),
        Err(RecordShortRead { at: 2 })
    );
    assert_eq!(
        decode_records(&[0x03, 0x0a, 0x01]),
        Err(RecordShortRead { at: 0 })
    );
}

#[test]
fn zero_len_other_is_legal() {
    let rs = decode_records(&[0x03, 0x00]).unwrap();
    assert_eq!(rs, vec![rec(0x03, b"")]);
    assert_eq!(rs[0].presented(), "");
}

#[test]
fn unknown_kind_consumed_by_len_and_reduces_to_other() {
    let rs = decode_records(&[0x7f, 0x04, b'a', b'b', b'c', b'd']).unwrap();
    assert_eq!(rs.len(), 1);
    assert_eq!(rs[0].presented(), "abcd");
    assert_eq!(
        reduce(&rs),
        RedeemRejection::Invalid {
            reason: "unknown-kind 0x7f".into()
        }
    );
}

#[test]
fn reduce_is_fail_closed() {
    assert_eq!(reduce(&[rec(0x00, b"")]), RedeemRejection::Consumed);
    assert_eq!(
        reduce(&[rec(0x01, b"")]),
        RedeemRejection::Invalid {
            reason: "not root".into()
        }
    );
    assert_eq!(
        reduce(&[rec(0x01, b"not-root")]),
        RedeemRejection::Invalid {
            reason: "not-root".into()
        }
    );
    assert_eq!(
        reduce(&[rec(0x03, b"")]),
        RedeemRejection::Invalid {
            reason: "other".into()
        }
    );
    assert!(matches!(
        reduce(&[rec(0x00, b""), rec(0x03, b"not-root")]),
        RedeemRejection::Invalid { .. }
    ));
}

#[test]
fn presented_strips_non_ascii_bytes() {
    assert_eq!(rec(0x03, &[0xe4, 0xb8, 0xad]).presented(), "");
    assert_eq!(rec(0x03, b"plain").presented(), "plain");
}

fn ids(seed: u8) -> (FabricId, FabricId) {
    let a = FabricId([seed; 32]);
    let b = FabricId([seed ^ 0xFF; 32]);
    (a, b)
}

fn key(seed: u8) -> EndpointId {
    SecretKey::from_bytes(&[seed; 32]).public()
}

#[test]
fn issuer_mapping_verify_rows_emit() {
    let (got, expected) = ids(1);
    let e = RosterError::WrongFabric { got, expected };
    match redeem_verify_emit(&e) {
        Some(RedeemErrorKind::Other(reason)) => {
            assert_eq!(
                reason,
                format!(
                    "wrong fabric {} vs {}",
                    fabric_id_short16(&got),
                    fabric_id_short16(&expected)
                )
            );
            assert_eq!(reason, "wrong fabric 0101010101010101 vs fefefefefefefefe");
        }
        other => panic!("wrong-fabric must emit Other, got {other:?}"),
    }
    assert_eq!(redeem_verify_emit(&e), redeem_verify_emit(&e));
    let not_root = RosterError::InviteNotRoot {
        issuer: key(2),
        root: None,
    };
    assert_eq!(
        redeem_verify_emit(&not_root),
        Some(RedeemErrorKind::NotRoot)
    );
    let expired = RosterError::InviteExpired {
        expires_at_ms: 1,
        now_ms: 2,
    };
    assert_eq!(
        redeem_verify_emit(&expired),
        Some(RedeemErrorKind::Other("invite expired".into()))
    );
    let mismatch = RosterError::InviteRecipientMismatch {
        expected: key(3),
        redeemer: key(4),
    };
    assert_eq!(
        redeem_verify_emit(&mismatch),
        Some(RedeemErrorKind::Other("recipient mismatch".into()))
    );
    let bad_pop = RosterError::BadPoP { redeemer: key(5) };
    assert_eq!(redeem_verify_emit(&bad_pop), Some(RedeemErrorKind::BadPoP));
}

#[test]
fn issuer_mapping_verify_protocol_row_is_emit_false() {
    let e = RosterError::Protocol(ProtocolError::Quarantine {
        reason: "invite token failed verification".into(),
    });
    assert_eq!(redeem_verify_emit(&e), None);
}

#[test]
fn issuer_mapping_out_of_scope_variants_are_emit_false() {
    let cases = vec![
        RosterError::NotRoot {
            caller: key(6),
            root: None,
        },
        RosterError::Corrupted {
            path: "x".into(),
            reason: "r".into(),
        },
        RosterError::NotFound { path: "x".into() },
        RosterError::AlreadyExists { path: "x".into() },
        RosterError::Persistence {
            path: "x".into(),
            source: "io".into(),
        },
        RosterError::InvalidRevokeTarget { fact_id: [0u8; 32] },
    ];
    for e in cases {
        assert_eq!(redeem_verify_emit(&e), None, "{}", e.message());
    }
    let (a, b) = ids(9);
    assert_eq!(
        redeem_verify_emit(&RosterError::DirFabricMismatch {
            path: "x".into(),
            stored: a,
            requested: b,
        }),
        None,
        "DirFabricMismatch must never be sent on the redeem channel"
    );
}

// ---- capabilities of a receipt ----------------------------------------------------

fn cap_for(signer: &NodeIdentity, recipient: &EndpointId, expires: u64) -> String {
    RelayCapV1::sign_and_encode(
        signer.secret_key(),
        &FabricId::from_name("ok2-fabric"),
        &[2u8; 32],
        recipient,
        MEMBER_CAPS,
        now_ms(),
        expires,
    )
    .unwrap()
}

#[test]
fn ok2_segment_layout_roundtrip() {
    let root = NodeIdentity::from_seed([7u8; 32]);
    let member = NodeIdentity::from_seed([8u8; 32]);
    let cap_a = cap_for(&root, &member.endpoint_id(), now_ms() + 60_000);
    let caps = vec![
        ("https://relay-a.example".to_owned(), cap_a.clone()),
        (
            "https://relay-b.example".to_owned(),
            "dwebr1.Ignored".to_owned(),
        ),
    ];
    let wire = encode_ok2_cap_segment(&caps);
    assert_eq!(&wire[0..4], &(2u32).to_be_bytes());
    let mut off = 4usize;
    for (url, cap) in &caps {
        assert_eq!(&wire[off..off + 2], &(url.len() as u16).to_be_bytes());
        assert_eq!(&wire[off + 2..off + 2 + url.len()], url.as_bytes());
        off += 2 + url.len();
        assert_eq!(&wire[off..off + 2], &(cap.len() as u16).to_be_bytes());
        off += 2 + cap.len();
    }
    assert_eq!(off, wire.len());
}

#[test]
fn ok2_parse_accepts_and_skips_per_item() {
    let root = NodeIdentity::from_seed([7u8; 32]);
    let member = NodeIdentity::from_seed([8u8; 32]);
    let other = NodeIdentity::from_seed([9u8; 32]);
    let good = cap_for(&root, &member.endpoint_id(), now_ms() + 60_000);
    let not_mine = cap_for(&root, &other.endpoint_id(), now_ms() + 60_000);
    let items = vec![
        ("https://first.example".to_owned(), good.clone()),
        (
            "https://bad.example".to_owned(),
            "not-a-capability".to_owned(),
        ),
        ("https://other.example".to_owned(), not_mine),
        ("https://first.example".to_owned(), good.clone()),
    ];
    let tail = encode_ok2_cap_segment(&items);
    let parsed = parse_ok2_caps(&tail, &member.endpoint_id()).unwrap();
    assert_eq!(parsed.items.len(), 1);
    assert_eq!(parsed.items[0].0, "https://first.example");
    assert_eq!(parsed.items[0].1, good);
    assert_eq!(parsed.skipped_malformed, 1);
    assert_eq!(parsed.skipped_not_recipient, 1);
    assert_eq!(parsed.skipped_duplicate, 1);
}

#[test]
fn ok2_parse_rejects_whole_frame_violations() {
    let root = NodeIdentity::from_seed([7u8; 32]);
    let member = NodeIdentity::from_seed([8u8; 32]);
    let good = cap_for(&root, &member.endpoint_id(), now_ms() + 60_000);
    let mut wire = encode_ok2_cap_segment(&[("https://r.example".to_owned(), good.clone())]);
    wire[0..4].copy_from_slice(&(9u32).to_be_bytes());
    assert!(parse_ok2_caps(&wire, &member.endpoint_id()).is_err());
    let ftp = encode_ok2_cap_segment(&[("ftp://r.example".to_owned(), good.clone())]);
    assert!(parse_ok2_caps(&ftp, &member.endpoint_id()).is_err());
    let full = encode_ok2_cap_segment(&[("https://r.example".to_owned(), good.clone())]);
    assert!(parse_ok2_caps(&full[..full.len() - 1], &member.endpoint_id()).is_err());
    let mut trailing = full.clone();
    trailing.push(0xAA);
    assert!(parse_ok2_caps(&trailing, &member.endpoint_id()).is_err());
    let empty = encode_ok2_cap_segment(&[]);
    let parsed = parse_ok2_caps(&empty, &member.endpoint_id()).unwrap();
    assert!(parsed.items.is_empty());
    let mut over = Vec::new();
    over.extend_from_slice(&(1u32).to_be_bytes());
    over.extend_from_slice(&(600u16).to_be_bytes());
    over.extend_from_slice(&vec![b'a'; 600]);
    over.extend_from_slice(&(0u16).to_be_bytes());
    assert!(parse_ok2_caps(&over, &member.endpoint_id()).is_err());
}

#[test]
fn minter_issues_minimal_member_caps() {
    let root = NodeIdentity::from_seed([7u8; 32]);
    let member = NodeIdentity::from_seed([8u8; 32]);
    let now = now_ms();
    let minter = RedeemCapMinter {
        fabric_id: FabricId::from_name("ok2-fabric"),
        signer: root.secret_key(),
        restricted: vec![
            ("https://r1.example".to_owned(), [1u8; 32]),
            ("https://r2.example".to_owned(), [2u8; 32]),
        ],
    };
    let invite_relays = vec![InviteRelayV2 {
        url: "https://r1.example".to_owned(),
        capability: None,
    }];
    let caps = minter.mint_for(&member.endpoint_id(), now + 3_600_000, &invite_relays, now);
    assert_eq!(caps.len(), 1);
    assert_eq!(caps[0].0, "https://r1.example");
    let parsed = RelayCapV1::decode(&caps[0].1).unwrap();
    assert_eq!(parsed.recipient, member.endpoint_id());
    assert_eq!(parsed.issuer, root.endpoint_id());
    assert_eq!(parsed.caps, CAP_RELAY);
    assert_eq!(parsed.expires_at, now + 3_600_000);
    let caps2 = minter.mint_for(
        &member.endpoint_id(),
        now + 400 * 24 * 3600 * 1000,
        &invite_relays,
        now,
    );
    let parsed2 = RelayCapV1::decode(&caps2[0].1).unwrap();
    assert_eq!(parsed2.expires_at, now + MEMBER_CAP_TTL_MS);
    assert!(parsed2.caps & !CAP_KNOWN_MASK == 0);
}

#[test]
fn minter_gives_nothing_for_an_expired_invite() {
    let root = NodeIdentity::from_seed([7u8; 32]);
    let minter = RedeemCapMinter {
        fabric_id: FabricId([3; 32]),
        signer: root.secret_key(),
        restricted: vec![("https://r1.example".to_owned(), [1u8; 32])],
    };
    let relays = vec![InviteRelayV2 {
        url: "https://r1.example".to_owned(),
        capability: None,
    }];
    assert!(minter.mint_for(&key(8), 999, &relays, 1_000).is_empty());
    assert_eq!(minter.mint_for(&key(8), 1_000, &relays, 1_000).len(), 1);
}

#[test]
fn ok2_errors_are_worded() {
    let me = key(8);
    let err = |b: &[u8]| parse_ok2_caps(b, &me).unwrap_err();
    assert_eq!(
        err(&[0, 0, 0]),
        "OK2 capability segment shorter than the u32 count prefix"
    );
    assert_eq!(
        err(&[0, 0, 0, 9]),
        "OK2 cap_item_count 9 exceeds the limit of 8"
    );
    assert_eq!(
        err(&[0, 0, 0, 1, 0]),
        "OK2 cap item 0 url length prefix truncated"
    );
    assert_eq!(err(&[0, 0, 0, 1, 2, 1]), "OK2 cap item 0 url exceeds 512B");
    assert_eq!(
        err(&[0, 0, 0, 1, 0, 2, b'h']),
        "OK2 cap item 0 url bytes truncated"
    );
    assert_eq!(
        err(&[0, 0, 0, 1, 0, 1, 0xff]),
        "OK2 cap item 0 url is not valid UTF-8"
    );
    assert_eq!(
        err(&[0, 0, 0, 1, 0, 2, b'a', b'"']),
        "OK2 cap item 0 url is not http(s): \"a\\\"\""
    );
    let mut b = vec![0, 0, 0, 1, 0, 7];
    b.extend_from_slice(b"http://");
    assert_eq!(
        err(&b),
        "OK2 cap item 0 capability length prefix truncated"
    );
    let mut c = b.clone();
    c.extend_from_slice(&[2, 1]);
    assert_eq!(err(&c), "OK2 cap item 0 capability exceeds 512B");
    let mut d = b.clone();
    d.extend_from_slice(&[0, 3, 1]);
    assert_eq!(err(&d), "OK2 cap item 0 capability bytes truncated");
    let mut e = b.clone();
    e.extend_from_slice(&[0, 1, 0xff, 7]);
    assert_eq!(err(&e), "OK2 capability segment has 1 trailing byte(s)");
    e.pop();
    let skipped = parse_ok2_caps(&e, &me).unwrap();
    assert_eq!(skipped.skipped_malformed, 1);
}

#[test]
fn segments_hold_eight_items() {
    let items: Vec<(String, String)> = (0..10)
        .map(|i| (format!("https://r{i}"), "x".to_owned()))
        .collect();
    let wire = encode_ok2_cap_segment(&items);
    assert_eq!(&wire[0..4], &[0, 0, 0, 8]);
    assert_eq!(wire.len(), 4 + 8 * (2 + 10 + 2 + 1));
}

// ---- frames, greeting, paths ------------------------------------------------------

#[test]
fn frames_carry_length_and_type() {
    let f = write_frame(frame_type::REDEEM_INTENT, b"abc");
    assert_eq!(f, vec![0, 0, 0, 4, 0x10, b'a', b'b', b'c']);
    let head = [f[0], f[1], f[2], f[3], f[4]];
    assert_eq!(read_frame(&head, 8).unwrap(), (0x10, 3));
    assert!(matches!(
        read_frame(&head, 7),
        Err(SessionError::FrameTooLarge { limit: 7 })
    ));
    assert!(matches!(
        read_frame(&[0, 0, 0, 0, 1], MAX_FRAME),
        Err(SessionError::FrameTooLarge { limit: 1_048_576 })
    ));
    assert_eq!(
        read_frame(&[255; 5], MAX_REDEEM_FRAME)
            .unwrap_err()
            .message(),
        "frame exceeds limit 32768B"
    );
}

#[test]
fn greetings_are_checked() {
    let root = NodeIdentity::from_seed([1; 32]);
    let g = dweb_fabric::protocol::genesis(&root, FabricId([3; 32]), 5).unwrap();
    let dump = SignedFact::encode_all(&[g.clone()]).unwrap();
    assert_eq!(read_hello(frame_type::HELLO, &dump).unwrap(), vec![g]);
    assert_eq!(
        read_hello(frame_type::REDEEM_OK2, &dump)
            .unwrap_err()
            .message(),
        "redeem rejected: expect HELLO, got 0x15"
    );
    assert!(matches!(
        read_hello(frame_type::HELLO, &[0]),
        Err(SessionError::Protocol(_))
    ));
}

#[test]
fn paths_are_summarised() {
    assert_eq!(link_status(Some(PathKind::Ip)), LinkStatus::Direct);
    assert_eq!(link_status(Some(PathKind::Relay)), LinkStatus::Relay);
    assert_eq!(link_status(Some(PathKind::Other)), LinkStatus::Unknown);
    assert_eq!(link_status(None), LinkStatus::Unknown);
    assert_eq!(
        on_path_event(true, true, Some(PathKind::Ip), None),
        PathStep::Stop
    );
    assert_eq!(
        on_path_event(false, false, Some(PathKind::Ip), None),
        PathStep::Ignore
    );
    assert_eq!(
        on_path_event(false, true, Some(PathKind::Ip), None),
        PathStep::Note {
            status: LinkStatus::Direct,
            changed: true
        }
    );
    assert_eq!(
        on_path_event(false, true, Some(PathKind::Ip), Some(LinkStatus::Direct)),
        PathStep::Note {
            status: LinkStatus::Direct,
            changed: false
        }
    );
}

fn invite_v1(root: &NodeIdentity, url: &str) -> InviteToken {
    InviteToken::sign(
        InviteV1 {
            fabric_id: FabricId([3; 32]),
            invite_id: [6; 16],
            issuer: root.endpoint_id(),
            issuer_relay_url: url.to_owned(),
            issuer_direct_addrs: vec![],
            expires_at_ms: 10_000,
            recipient: None,
        },
        root.secret_key(),
    )
    .unwrap()
}

#[test]
fn addresses_of_invites() {
    let root = NodeIdentity::from_seed([1; 32]);
    let ip = DirectAddr::V4 {
        ip: [10, 0, 0, 1],
        port: 9000,
    };
    let token = invite_v1(&root, "https://relay.example.com");
    let a = endpoint_addr_from_invite(&token, &[None, Some(ip)]).unwrap();
    assert_eq!(a.id, root.endpoint_id());
    assert_eq!(a.relay_urls, vec!["https://relay.example.com/".to_owned()]);
    assert_eq!(a.ip_addrs, vec![ip]);
    let dark = invite_v1(&root, "no url");
    assert!(matches!(
        endpoint_addr_from_invite(&dark, &[None]),
        Err(SessionError::NoAddressingInfo(_))
    ));
    let v2 = InviteV2Token::sign(
        InviteV2 {
            fabric_id: FabricId([3; 32]),
            invite_id: [6; 16],
            issuer: root.endpoint_id(),
            expires_at_ms: 10_000,
            recipient: key(8),
            relays: vec![
                InviteRelayV2 {
                    url: "::".to_owned(),
                    capability: None,
                },
                InviteRelayV2 {
                    url: "https://r.example".to_owned(),
                    capability: None,
                },
                InviteRelayV2 {
                    url: "https://r.example/".to_owned(),
                    capability: None,
                },
            ],
            direct_addrs: vec![ip, ip],
        },
        root.secret_key(),
    )
    .unwrap();
    let b = endpoint_addr_from_invite_v2(&v2).unwrap();
    assert_eq!(b.relay_urls, vec!["https://r.example/".to_owned()]);
    assert_eq!(b.ip_addrs, vec![ip]);
    assert!(address(key(8), vec![], vec![]).is_err());
    // nothing occurs twice
    let other = DirectAddr::V4 {
        ip: [10, 0, 0, 1],
        port: 9001,
    };
    let c = address(
        key(8),
        vec!["b".into(), "a".into(), "b".into(), "a".into()],
        vec![ip, other, ip],
    )
    .unwrap();
    assert_eq!(c.relay_urls, vec!["b".to_owned(), "a".to_owned()]);
    assert_eq!(c.ip_addrs, vec![ip, other]);
    let d = endpoint_addr_from_invite(&token, &[Some(ip), None, Some(ip)]).unwrap();
    assert_eq!(d.ip_addrs, vec![ip]);
}

// ---- a whole redemption -----------------------------------------------------------

fn found(root: &NodeIdentity) -> Roster {
    Roster::found(root, "/data", FabricId([3; 32]), None, 1_000).unwrap()
}

#[test]
fn redemption_of_the_first_version() {
    let root = NodeIdentity::from_seed([1; 32]);
    let joiner = NodeIdentity::from_seed([2; 32]);
    let mut roster = found(&root);
    let token = roster
        .issue_invite(&root, "https://relay".into(), vec![], None, 60_000, 2_000)
        .unwrap();
    // the joiner sends the token
    let text = redeem_intent(&token).unwrap();
    let read = read_intent(frame_type::REDEEM_INTENT, text.as_bytes()).unwrap();
    assert_eq!(read, InviteVersion::V1(token.clone()));
    assert_eq!(redeem_invite_id(&read), token.invite.invite_id);
    assert_eq!(
        read_intent(frame_type::HELLO, text.as_bytes()).unwrap_err(),
        "first frame must be redeem intent"
    );
    // the issuer challenges, the joiner answers
    let challenge = [42u8; 32];
    let proof = redeem_proof(
        &token.invite.fabric_id,
        &token.invite.invite_id,
        joiner.secret_key(),
        &joiner.endpoint_id(),
        frame_type::REDEEM_CHALLENGE,
        &challenge,
    )
    .unwrap();
    assert_eq!(proof.len(), 96);
    let (redeemer, sig) =
        read_proof(frame_type::REDEEM_PROOF, &proof, &joiner.endpoint_id()).unwrap();
    assert_eq!(redeemer, joiner.endpoint_id());
    assert_eq!(
        read_proof(frame_type::REDEEM_PROOF, &proof, &root.endpoint_id()).unwrap_err(),
        "redeemer key does not match TLS peer"
    );
    assert_eq!(
        read_proof(frame_type::REDEEM_PROOF, &proof[..95], &redeemer).unwrap_err(),
        "bad proof length"
    );
    assert_eq!(
        read_proof(frame_type::MSG, &proof, &redeemer).unwrap_err(),
        "expect proof"
    );
    // verified, used up, granted
    let (phase, action) = redeem_next(
        RedeemPhase::Check,
        RedeemEvent::Checked {
            outcome: redeem_check(&roster, &read, &redeemer, &challenge, &sig, 3_000),
            invite_id: redeem_invite_id(&read),
            redeemer,
        },
    );
    let invite_id = token.invite.invite_id;
    assert_eq!(action, RedeemAction::Consume { invite_id });
    assert_eq!(redeem_frame(&action), None);
    let record = roster
        .consume_invite(&token.invite.invite_id, None, 3_000)
        .unwrap()
        .unwrap();
    roster.invite_consumed(&token.invite.invite_id);
    assert_eq!(record.len(), 24);
    let (after, action) = redeem_next(phase, RedeemEvent::Consumed(Ok(true)));
    assert_eq!(action, RedeemAction::Grant { redeemer });
    roster.grant(&root, redeemer, None, None, 3_000).unwrap();
    let (after, action) = redeem_next(after, RedeemEvent::Granted(Ok(())));
    assert_eq!(
        (after, action),
        (RedeemPhase::Receipt, RedeemAction::Receipt { redeemer })
    );
    assert!(roster.is_member(&redeemer, 3_001));
    // the receipt holds the facts
    let (t, receipt) = redeem_receipt(&roster, &read, &redeemer, None, 3_000).unwrap();
    assert_eq!(t, frame_type::REDEEM_OK);
    let (after, action) = redeem_next(after, RedeemEvent::Encoded(Ok((t, receipt.clone()))));
    assert_eq!(after, RedeemPhase::Ended);
    assert_eq!(redeem_frame(&action), Some((0x13, receipt.clone())));
    let facts = redeem_answer(t, &receipt).unwrap();
    assert_eq!(facts, roster.facts().to_vec());
    let mut mine = Roster::attach("/mine", FabricId([3; 32]), None, None).unwrap();
    let report = mine.merge(&facts);
    assert_eq!(report.inserted, 2);
    assert!(mine.is_member(&joiner.endpoint_id(), 3_001));
    // a second time it is refused
    assert_eq!(
        roster
            .consume_invite(&token.invite.invite_id, Some(&record), 4_000)
            .unwrap(),
        None
    );
    let (after, action) = redeem_next(phase, RedeemEvent::Consumed(Ok(false)));
    assert_eq!(after, RedeemPhase::Ended);
    assert_eq!(
        action,
        RedeemAction::Emit(
            RedeemErrorKind::Consumed,
            "invite already consumed".to_owned()
        )
    );
    assert_eq!(redeem_frame(&action), Some((0x14, vec![0, 0])));
}

#[test]
fn redemption_of_the_second_version() {
    let root = NodeIdentity::from_seed([1; 32]);
    let joiner = NodeIdentity::from_seed([2; 32]);
    let mut roster = found(&root);
    let token = roster
        .issue_invite_v2(
            &root,
            vec![InviteRelayV2 {
                url: "https://r1.example".into(),
                capability: None,
            }],
            vec![],
            joiner.endpoint_id(),
            60_000,
            2_000,
        )
        .unwrap();
    let text = redeem_intent_v2(&token).unwrap();
    assert!(text.starts_with("dweb2."));
    let read = read_intent(frame_type::REDEEM_INTENT, text.as_bytes()).unwrap();
    assert_eq!(read, InviteVersion::V2(token.clone()));
    roster
        .grant(&root, joiner.endpoint_id(), None, None, 3_000)
        .unwrap();
    let minter = RedeemCapMinter {
        fabric_id: FabricId([3; 32]),
        signer: root.secret_key(),
        restricted: vec![("https://r1.example".to_owned(), [1u8; 32])],
    };
    let (t, receipt) =
        redeem_receipt(&roster, &read, &joiner.endpoint_id(), Some(&minter), 3_000).unwrap();
    assert_eq!(t, frame_type::REDEEM_OK2);
    let got = redeem_answer_v2(t, &receipt, &joiner.endpoint_id()).unwrap();
    assert_eq!(got.facts, roster.facts().to_vec());
    assert_eq!(got.relay_caps.len(), 1);
    assert_eq!(got.relay_caps, got.skipped.items);
    let cap = RelayCapV1::decode(&got.relay_caps[0].1).unwrap();
    assert_eq!(cap.recipient, joiner.endpoint_id());
    assert_eq!(cap.expires_at, 62_000);
    // someone else gets nothing out of it
    let other = redeem_answer_v2(t, &receipt, &root.endpoint_id()).unwrap();
    assert_eq!(other.relay_caps.len(), 0);
    assert_eq!(other.skipped.skipped_not_recipient, 1);
    // without a source of capabilities the segment is empty
    let (t, receipt) = redeem_receipt(&roster, &read, &joiner.endpoint_id(), None, 3_000).unwrap();
    let got = redeem_answer_v2(t, &receipt, &joiner.endpoint_id()).unwrap();
    assert!(got.relay_caps.is_empty());
    // a receipt of the first version is taken too
    let dump = SignedFact::encode_all(roster.facts()).unwrap();
    let got = redeem_answer_v2(frame_type::REDEEM_OK, &dump, &joiner.endpoint_id()).unwrap();
    assert_eq!(got.facts.len(), 2);
}

#[test]
fn refused_redemptions_are_told() {
    let root = NodeIdentity::from_seed([1; 32]);
    let joiner = NodeIdentity::from_seed([2; 32]);
    let roster = found(&root);
    let token = InviteVersion::V1(invite_v1(&root, "https://relay"));
    let challenge = [42u8; 32];
    let proof = redeem_proof(
        &FabricId([3; 32]),
        &[6; 16],
        joiner.secret_key(),
        &joiner.endpoint_id(),
        frame_type::REDEEM_CHALLENGE,
        &challenge,
    )
    .unwrap();
    let (redeemer, sig) =
        read_proof(frame_type::REDEEM_PROOF, &proof, &joiner.endpoint_id()).unwrap();
    let checked = |challenge: &[u8; 32], now: u64| {
        redeem_next(
            RedeemPhase::Check,
            RedeemEvent::Checked {
                outcome: redeem_check(&roster, &token, &redeemer, challenge, &sig, now),
                invite_id: redeem_invite_id(&token),
                redeemer,
            },
        )
    };
    let (after, action) = checked(&challenge, 10_000);
    assert_eq!(after, RedeemPhase::Ended);
    assert_eq!(
        redeem_frame(&action),
        Some((0x14, b"\x03\x0einvite expired".to_vec()))
    );
    match action {
        RedeemAction::Emit(RedeemErrorKind::Other(t), why) => {
            assert_eq!(t, "invite expired");
            assert_eq!(why, "invite expired at 10000 ms (now 10000 ms)");
        }
        other => panic!("{other:?}"),
    }
    match checked(&[0; 32], 9_999) {
        (RedeemPhase::Ended, RedeemAction::Emit(RedeemErrorKind::BadPoP, _)) => {}
        other => panic!("{other:?}"),
    }
    // what the joiner makes of the refusal
    let sent = RedeemErrorKind::Consumed.encode_record();
    match redeem_answer(frame_type::REDEEM_ERR, &sent) {
        Err(RedeemError::Rejected(RedeemRejection::Consumed)) => {}
        other => panic!("{other:?}"),
    }
    let e = redeem_answer(
        frame_type::REDEEM_ERR,
        &RedeemErrorKind::Other("a \"b\"".into()).encode_record(),
    )
    .unwrap_err();
    assert_eq!(
        e.message(),
        "redeem rejected: Invalid { reason: \"a \\\"b\\\"\" }"
    );
    assert_eq!(
        redeem_answer(frame_type::REDEEM_ERR, &[])
            .unwrap_err()
            .message(),
        "redeem channel failed: redeem error frame carries no record"
    );
    assert_eq!(
        redeem_answer(frame_type::REDEEM_ERR, &[1])
            .unwrap_err()
            .message(),
        "redeem channel failed: redeem error frame violated wire: redeem error record short read at offset 0"
    );
    assert_eq!(
        redeem_answer(frame_type::REDEEM_OK2, &[])
            .unwrap_err()
            .message(),
        "redeem channel failed: unexpected frame 0x15"
    );
    assert_eq!(
        redeem_answer(frame_type::REDEEM_OK, &[])
            .unwrap_err()
            .message(),
        "redeem channel failed: receipt fact decode failed: quarantine: fact list shorter than the u32 count prefix"
    );
    let e = redeem_proof(
        &FabricId([3; 32]),
        &[6; 16],
        joiner.secret_key(),
        &redeemer,
        frame_type::HELLO,
        &challenge,
    )
    .unwrap_err();
    assert_eq!(
        e.message(),
        "redeem channel failed: expect challenge, got frame 0x1"
    );
    assert_eq!(RedeemError::Timeout.message(), "redeem timeout");
}

#[test]
fn redemptions_end_in_order() {
    assert!(redeem_entry(false, false).is_ok());
    assert_eq!(
        redeem_entry(true, false).unwrap_err().message(),
        "redeem rejected: fabric is shutting down"
    );
    assert!(redeem_entry(false, true).is_err());
    let (close, r) = redeem_finish(RedeemEnd::Done);
    assert!(close.is_none() && r.is_ok());
    let (close, r) = redeem_finish(RedeemEnd::Deadline);
    assert_eq!(close, Some("redeem-deadline"));
    assert_eq!(
        r.unwrap_err().message(),
        "redeem rejected: redeem deadline exceeded"
    );
    let (close, r) = redeem_finish(RedeemEnd::Silent("x".into()));
    assert_eq!(close, Some("redeem-rejected"));
    assert!(r.is_err());
    let (close, r) = redeem_finish(RedeemEnd::Emitted("x".into()));
    assert_eq!(close, None);
    assert!(r.is_err());
    let lost = || RosterError::NotFound { path: "p".into() };
    let redeemer = key(2);
    let silent = |phase: RedeemPhase, event: RedeemEvent| match redeem_next(phase, event) {
        (RedeemPhase::Ended, RedeemAction::Silent(t)) => t,
        other => panic!("{other:?}"),
    };
    assert_eq!(
        silent(
            RedeemPhase::Grant { redeemer },
            RedeemEvent::Granted(Err(lost()))
        ),
        "post-consume grant failed: no persisted roster for this data directory: p"
    );
    assert_eq!(
        silent(
            RedeemPhase::Consume { redeemer },
            RedeemEvent::Consumed(Err(lost()))
        ),
        "no persisted roster for this data directory: p"
    );
    assert_eq!(
        silent(RedeemPhase::Check, RedeemEvent::ShuttingDown),
        "fabric is shutting down"
    );
    // a check whose failure the joiner is not told of
    assert_eq!(
        silent(
            RedeemPhase::Check,
            RedeemEvent::Checked {
                outcome: Err(lost()),
                invite_id: [0; 16],
                redeemer
            }
        ),
        "no persisted roster for this data directory: p"
    );
    assert_eq!(
        silent(RedeemPhase::Receipt, RedeemEvent::Encoded(Err("e".into()))),
        "e"
    );
    // nothing is granted out of step
    let early = silent(RedeemPhase::Check, RedeemEvent::Consumed(Ok(true)));
    assert_eq!(early, "redemption out of step");
    silent(RedeemPhase::Check, RedeemEvent::Granted(Ok(())));
    silent(RedeemPhase::Ended, RedeemEvent::Consumed(Ok(true)));
    silent(
        RedeemPhase::Grant { redeemer },
        RedeemEvent::Consumed(Ok(true)),
    );
}

#[test]
fn payloads_that_are_no_text_are_shown_in_part() {
    assert_eq!(rec(0x03, &[0xff, b'a', 0xc3, b' ', b'b']).presented(), "a b");
    assert_eq!(
        reduce(&[rec(0x02, &[0xff])]),
        RedeemRejection::Invalid {
            reason: "bad proof-of-possession".into()
        }
    );
    assert_eq!(
        reduce(&[]),
        RedeemRejection::Invalid {
            reason: "multiple redeem error records (0) fail-closed".into()
        }
    );
}

#[test]
fn the_clock_runs() {
    assert!(now_ms() > 1_600_000_000_000);
    assert_eq!(dweb_fabric::clock::clock_ms(None), 0);
    assert_eq!(dweb_fabric::clock::clock_ms(Some(7)), 7);
}

#[test]
fn refused_payloads_name_the_record_cut_short() {
    let whole = [rec(1, b"ab"), rec(9, b""), rec(3, b"xyz")];
    let mut bytes = Vec::new();
    let mut starts = Vec::new();
    for r in &whole {
        starts.push(bytes.len());
        bytes.push(r.kind);
        bytes.push(r.payload.len() as u8);
        bytes.extend_from_slice(&r.payload);
    }
    for k in 0..=bytes.len() {
        match decode_records(&bytes[..k]) {
            Ok(got) => {
                assert!(k == bytes.len() || starts.contains(&k));
                assert_eq!(got[..], whole[..got.len()]);
            }
            Err(e) => {
                assert!(!starts.contains(&k));
                assert_eq!(Some(&e.at), starts.iter().filter(|s| **s < k).last());
            }
        }
    }
}
