//! Sessions: credentials, streams, acknowledgements and the registry.
use dweb_fabric::continuity::frame::flags;
use dweb_fabric::continuity::session::control::{
    InstallPolicy, InstallStep, ResumeCtl, TokenWindow,
};
use dweb_fabric::continuity::session::frames::{
    interleave_replay, mk_ack, open_payload, parse_idem_key,
};
use dweb_fabric::continuity::session::handshake::{
    accept_resume, accept_session_init, adopt_session, after_failure, on_first_frame,
    on_init_response, on_resume_response, resume_init_frame, session_init_frame,
    wait_for_existing_session, CampaignMap, FirstFrame, InitReply, OpenStep, ResumeReply,
    ResumeStep, RetryStep, TryAgain, WaitStep,
};
use dweb_fabric::continuity::session::registry::{InitAdmission, ResumeLookup};
use dweb_fabric::continuity::session::shared::{
    RecvStep, DELIVER_QUEUE_STREAM_CAP, GAP_SESSION_BYTE_CAP, MAX_ACTIVE_STREAMS,
};
use dweb_fabric::continuity::session::wire::{
    decode_resume_init, decode_resume_ok_full, decode_session_init, decode_session_init_ok,
    decode_session_init_reject, encode_resume_init, encode_resume_ok_full, encode_session_init,
    encode_session_init_ok, encode_session_init_reject, StreamSummary, PROTOCOL_VERSION,
};
use dweb_fabric::continuity::{
    Direction, Frame, FrameType, JournalLimits, RequestState, SessionOptions, SessionPhase,
    SessionRegistry, SessionShared,
};
use dweb_fabric::identity::NodeIdentity;

/// The next part of a stream.
fn taken(s: &mut SessionShared, stream: u64) -> Vec<u8> {
    match s.recv(stream) {
        RecvStep::Data(d, _) => d,
        other => panic!("{other:?}"),
    }
}

fn fin_from_provider(sid: [u8; 16], stream: u64) -> Frame {
    Frame {
        frame_type: FrameType::Fin,
        flags: flags::END,
        session_id: sid,
        stream_id: stream,
        direction: Direction::ProviderToClient,
        byte_offset: 0,
        payload: Vec::new(),
    }
}

fn data_frame(sid: [u8; 16], stream: u64, off: u64, data: &[u8]) -> Frame {
    Frame {
        frame_type: FrameType::Data,
        flags: 0,
        session_id: sid,
        stream_id: stream,
        direction: Direction::ClientToProvider,
        byte_offset: off,
        payload: data.to_vec(),
    }
}

fn open_frame(sid: [u8; 16], stream: u64) -> Frame {
    Frame {
        frame_type: FrameType::Open,
        flags: flags::START,
        session_id: sid,
        stream_id: stream,
        direction: Direction::ClientToProvider,
        byte_offset: 0,
        payload: format!(
            "{{\"requestId\":\"{stream}\",\"idempotencyKey\":\"k{stream}\"}}"
        )
        .into_bytes(),
    }
}

#[test]
fn token_window_two_generations() {
    let mut w = TokenWindow::new([1u8; 16]);
    assert!(w.validate(1, &[1u8; 16]));
    w.rotate(2, [2u8; 16]);
    assert!(w.validate(2, &[2u8; 16]));
    assert!(w.validate(1, &[1u8; 16]));
    assert!(!w.validate(1, &[9u8; 16]), "another token is refused");
    w.rotate(3, [3u8; 16]);
    assert!(!w.validate(1, &[1u8; 16]));
    assert!(w.validate(2, &[2u8; 16]));
    assert!(w.validate(3, &[3u8; 16]));
}

#[test]
fn token_window_try_rotate_adjudication() {
    let mut w = TokenWindow::new([1u8; 16]);
    assert!(w.try_rotate(1, &[1u8; 16], [2u8; 16]).is_some());
    assert!(
        w.try_rotate(1, &[1u8; 16], [3u8; 16]).is_some(),
        "the previous token resumes too"
    );
    let out = w.try_rotate(3, &[3u8; 16], [4u8; 16]).unwrap();
    assert_eq!(out.0, 4, "one generation further");
    assert!(w.try_rotate(2, &[9u8; 16], [4u8; 16]).is_none());
    assert!(w.try_rotate(1, &[3u8; 16], [4u8; 16]).is_none());
    assert!(w.try_rotate(4, &[4u8; 16], [5u8; 16]).is_some());
}

#[test]
fn a_request_that_comes_again_is_answered_again() {
    let (nonce, token) = ([1u8; 16], [0xB1u8; 16]);
    for epoch in [0u64, 7] {
        let mut ctl = ResumeCtl::new(token);
        // the last generation but one
        ctl.tokens.current.0 = u64::MAX - 1;
        let g = u64::MAX - 1;
        let first = ctl
            .decide_resume_with_epoch(nonce, g, &token, [0xC1; 16], epoch)
            .unwrap();
        assert!(!first.cached);
        assert_eq!(ctl.tokens.current(), (u64::MAX, [0xC1; 16]));
        // an unknown token is refused, and a channel is installed
        assert!(ctl
            .decide_resume_with_epoch([3; 16], g, &[9; 16], [8; 16], epoch)
            .is_none());
        assert!(ctl.commit_install(2, Some(first), None).is_some());
        let again = ctl
            .decide_resume_with_epoch(nonce, g, &token, [0xD1; 16], epoch)
            .unwrap();
        assert!(again.cached);
        assert_eq!(again.result_generation, u64::MAX);
        assert_eq!(again.result_token, [0xC1; 16]);
        assert_eq!(again.lease_id, first.lease_id);
        assert_eq!(ctl.tokens.current(), (u64::MAX, [0xC1; 16]));
    }
}

#[test]
fn install_rejects_superseded_decision_without_stopping_new_owner() {
    let mut shared = SessionShared::new(
        [0xA1u8; 16],
        [0xB1u8; 16],
        "peer".into(),
        true,
        JournalLimits::default(),
    );
    let first = shared
        .decide_resume([1u8; 16], 1, &[0xB1u8; 16], [0xC1u8; 16])
        .expect("first decision");
    let newer = shared
        .decide_resume([2u8; 16], 1, &[0xB1u8; 16], [0xD1u8; 16])
        .expect("previous-token decision supersedes first");

    assert_eq!(
        shared.plan_install(InstallPolicy::Force, Some(newer), None, false, false),
        InstallStep::Proceed
    );
    let owner = shared
        .install_channel(2, Some(newer), None)
        .expect("newer decision installs");

    assert_eq!(
        shared.plan_install(InstallPolicy::Force, Some(first), None, true, false),
        InstallStep::Refuse,
        "the new channel is not stopped"
    );
    assert!(
        shared.install_channel(1, Some(first), None).is_none(),
        "superseded decision must not install"
    );
    assert_eq!(
        shared.debug_channel_owner(),
        1,
        "new owner remains canonical"
    );
    assert_eq!(owner, 1);
    assert!(shared.channel_is_current(2, 1));
}

#[test]
fn token_window_clear_previous() {
    let mut w = TokenWindow::new([1u8; 16]);
    w.rotate(2, [2u8; 16]);
    w.clear_previous();
    assert!(!w.validate(1, &[1u8; 16]), "the previous token is gone");
    assert!(w.validate(2, &[2u8; 16]), "the current token stays");
}

#[test]
fn resume_init_roundtrip() {
    let summaries = vec![
        StreamSummary {
            stream_id: 1,
            recv_ack: 100,
            send_next: 200,
            final_sent: Some(200),
        },
        StreamSummary {
            stream_id: 3,
            recv_ack: 0,
            send_next: 0,
            final_sent: None,
        },
    ];
    let p = encode_resume_init(2, 1, &[7u8; 16], &[9u8; 16], &summaries);
    let parsed = decode_resume_init(&p).expect("parse");
    assert_eq!(parsed.local_generation, 2);
    assert_eq!(parsed.token, [9u8; 16]);
    assert_eq!(parsed.summaries.len(), 2);
    assert_eq!(parsed.summaries[0].recv_ack, 100);
    assert_eq!(parsed.summaries[0].final_sent, Some(200));
    assert_eq!(parsed.summaries[1].final_sent, None);
    assert!(decode_resume_init(&p[..p.len() - 1]).is_none());
}

#[test]
fn resume_init_short_payloads_no_panic() {
    for len in [0usize, 1, 4, 35, 36, 37] {
        let mut p = vec![0u8; len];
        if !p.is_empty() {
            p[0] = PROTOCOL_VERSION;
        }
        assert!(decode_resume_init(&p).is_none(), "len={len}");
    }
}

#[test]
fn interleave_is_round_robin() {
    let big = (0..10)
        .map(|i| (i as u64 * 10, vec![0u8; 10]))
        .collect();
    let small = vec![(0u64, vec![1u8; 5])];
    let out = interleave_replay(vec![(1u64, big), (3u64, small)]);
    let order: Vec<u64> = out.iter().map(|(sid, _, _)| *sid).collect();
    let small_at = order.iter().position(|s| *s == 3).unwrap();
    let big_last = order.iter().rposition(|s| *s == 1).unwrap();
    assert!(small_at < big_last, "{order:?}");
    let big_offsets: Vec<u64> = out
        .iter()
        .filter(|(sid, _, _)| *sid == 1)
        .map(|(_, off, _)| *off)
        .collect();
    let mut sorted = big_offsets.clone();
    sorted.sort();
    assert_eq!(big_offsets, sorted);
}

#[test]
fn journal_cap_gates_record_before_send() {
    let mut shared = SessionShared::new([1u8; 16], [2u8; 16], "peer".into(), true, {
        let mut l = JournalLimits::default();
        l.max_stream_bytes = 64 * 1024;
        l.max_segments = 128;
        l
    });
    let chunk = vec![0u8; 32 * 1024];
    assert!(shared.record_send(1, &chunk).is_ok());
    assert!(shared.record_send(1, &chunk).is_ok());
    assert_eq!(shared.journal_held_bytes(1), 64 * 1024);
    assert!(
        shared.record_send(1, &chunk).is_err(),
        "bounded"
    );
    assert_eq!(shared.journal_held_bytes(1), 64 * 1024);
}

#[test]
fn session_bytes_cap_aggregates_streams() {
    let mut shared = SessionShared::new([1u8; 16], [2u8; 16], "peer".into(), true, {
        let mut l = JournalLimits::default();
        l.max_session_bytes = 64 * 1024;
        l.max_stream_bytes = 64 * 1024;
        l.max_segments = 4096;
        l
    });
    let half = vec![0u8; 32 * 1024];
    shared.record_send(1, &half).unwrap();
    shared.record_send(3, &half).unwrap();
    let err = shared
        .record_send(5, &vec![0u8; 1])
        .expect_err("over the cap of the session");
    assert!(
        err.message().contains("session byte cap"),
        "{}",
        err.message()
    );
    let ack = mk_ack([1u8; 16], 3, Direction::ClientToProvider, 32 * 1024);
    shared.handle_frame(&ack);
    assert!(shared
        .record_send(5, &vec![0u8; 1])
        .is_ok());
}

#[test]
fn deliver_queue_byte_cap_resets_stream_without_growth() {
    let mut shared = SessionShared::new(
        [1u8; 16],
        [2u8; 16],
        "peer".into(),
        false,
        JournalLimits::default(),
    );
    shared.handle_frame(&open_frame([1u8; 16], 1));
    let half = vec![0xAB; DELIVER_QUEUE_STREAM_CAP / 2];
    assert!(matches!(
        shared
            .handle_frame(&data_frame([1u8; 16], 1, 0, &half))
            .reply,
        Some(Frame {
            frame_type: FrameType::Ack,
            ..
        })
    ));
    assert!(matches!(
        shared
            .handle_frame(&data_frame(
                [1u8; 16],
                1,
                (DELIVER_QUEUE_STREAM_CAP / 2) as u64,
                &half,
            ))
            .reply,
        Some(Frame {
            frame_type: FrameType::Ack,
            ..
        })
    ));
    assert_eq!(
        shared.deliver_queue_bytes(1),
        DELIVER_QUEUE_STREAM_CAP,
        "exact cap is still admissible"
    );
    let over = shared
        .handle_frame(&data_frame(
            [1u8; 16],
            1,
            DELIVER_QUEUE_STREAM_CAP as u64,
            &[0xCD],
        ));
    assert!(matches!(
        over.reply,
        Some(Frame {
            frame_type: FrameType::Reset,
            ..
        })
    ));
    assert_eq!(
        shared.deliver_queue_bytes(1),
        DELIVER_QUEUE_STREAM_CAP,
        "over-cap DATA must be dropped"
    );
    assert_eq!(shared.protocol_violations(), 1);
}

#[test]
fn gap_session_byte_cap_resets_without_growth() {
    let mut shared = SessionShared::new(
        [1u8; 16],
        [2u8; 16],
        "peer".into(),
        false,
        JournalLimits::default(),
    );
    let chunk = vec![0xBC; GAP_SESSION_BYTE_CAP / MAX_ACTIVE_STREAMS];
    for index in 0..MAX_ACTIVE_STREAMS {
        let stream_id = (index as u64) * 2 + 1;
        shared.handle_frame(&open_frame([1u8; 16], stream_id));
        assert!(matches!(
            shared
                .handle_frame(&data_frame([1u8; 16], stream_id, 1, &chunk))
                .reply,
            Some(Frame {
                frame_type: FrameType::Ack,
                ..
            })
        ));
    }
    assert_eq!(shared.gap_bytes_total(), GAP_SESSION_BYTE_CAP);

    let over = shared
        .handle_frame(&data_frame(
            [1u8; 16],
            1,
            (GAP_SESSION_BYTE_CAP as u64) + 1,
            &[0xCD],
        ));
    assert!(matches!(
        over.reply,
        Some(Frame {
            frame_type: FrameType::Reset,
            ..
        })
    ));
    assert_eq!(
        shared.gap_bytes_total(),
        GAP_SESSION_BYTE_CAP,
        "nothing more is held"
    );
    assert_eq!(shared.protocol_violations(), 1);
}

#[test]
fn active_stream_cap_rejects_129th_open() {
    let mut shared = SessionShared::new(
        [1u8; 16],
        [2u8; 16],
        "peer".into(),
        true,
        JournalLimits::default(),
    );
    for i in 0..MAX_ACTIVE_STREAMS {
        let sid = (i as u64) * 2 + 1;
        shared.reserve_stream_slot(sid).unwrap();
    }
    let err = shared
        .reserve_stream_slot(257)
        .expect_err("over the cap of streams");
    assert!(err.message().contains("active stream cap"));
    shared.finish(1);
    shared.handle_frame(&fin_from_provider([1u8; 16], 1));
    shared
        .reserve_stream_slot(257)
        .expect("an ended stream makes room");
    shared.handle_frame(&fin_from_provider([1u8; 16], 3));
    assert!(
        shared.reserve_stream_slot(259).is_err(),
        "a stream that is half ended makes no room"
    );
}

#[test]
fn ack_commit_point_pends_until_consumed() {
    let mut sender = SessionShared::new(
        [1u8; 16],
        [2u8; 16],
        "peer".into(),
        true,
        JournalLimits::default(),
    );
    let mut receiver = SessionShared::new(
        [1u8; 16],
        [2u8; 16],
        "peer".into(),
        false,
        JournalLimits::default(),
    );
    let chunk = vec![0xAB; 1024];
    let off = sender.record_send(1, &chunk).unwrap();
    assert_eq!(off, 0);
    receiver.handle_frame(&open_frame([1u8; 16], 1));
    let ack0 = receiver
        .handle_frame(&data_frame([1u8; 16], 1, 0, &chunk))
        .reply
        .expect("DATA, ACK");
    assert_eq!(
        ack0.byte_offset, 0,
        "nothing consumed yet"
    );
    assert_eq!(receiver.deliver_queue_bytes(1), 1024);
    sender.handle_frame(&ack0);
    assert_eq!(
        sender.journal_held_bytes(1),
        1024,
        "held until consumed"
    );
    assert_eq!(taken(&mut receiver, 1).len(), 1024);
    assert_eq!(receiver.committed_offset(1), 1024);
    assert_eq!(receiver.deliver_queue_bytes(1), 0);
    let ack1 = mk_ack(
        [1u8; 16],
        1,
        Direction::ClientToProvider,
        receiver.committed_offset(1),
    );
    sender.handle_frame(&ack1);
    assert_eq!(sender.journal_held_bytes(1), 0, "released");
}

#[test]
fn forged_ack_rejected_and_counted() {
    let mut shared = SessionShared::new(
        [1u8; 16],
        [2u8; 16],
        "peer".into(),
        true,
        JournalLimits::default(),
    );
    let chunk = vec![0u8; 1000];
    shared.record_send(1, &chunk).unwrap();
    let forged = mk_ack([1u8; 16], 1, Direction::ClientToProvider, 999_999);
    shared.handle_frame(&forged);
    assert_eq!(shared.journal_held_bytes(1), 1000, "not released");
    assert_eq!(shared.ack_violations(), 1, "counted");
    let legal = mk_ack([1u8; 16], 1, Direction::ClientToProvider, 1000);
    shared.handle_frame(&legal);
    assert_eq!(shared.journal_held_bytes(1), 0);
    assert_eq!(shared.ack_violations(), 1, "not counted");
}

#[test]
fn stale_session_id_frames_counted_not_delivered() {
    let mut shared = SessionShared::new(
        [1u8; 16],
        [2u8; 16],
        "peer".into(),
        false,
        JournalLimits::default(),
    );
    let out = shared
        .handle_frame(&data_frame([9u8; 16], 1, 0, b"evil"));
    assert!(out.reply.is_none() && out.new_open.is_none(), "no effect");
    assert_eq!(shared.stale_frames(), 1);
    assert_eq!(shared.deliver_queue_bytes(1), 0, "not delivered");
    shared.handle_frame(&open_frame([1u8; 16], 1));
    shared
        .handle_frame(&data_frame([1u8; 16], 1, 0, b"good"));
    assert_eq!(shared.stale_frames(), 1, "not counted");
    assert_eq!(shared.deliver_queue_bytes(1), 4);
}

#[test]
fn previous_token_cleared_after_first_delivery() {
    let mut shared = SessionShared::new(
        [1u8; 16],
        [2u8; 16],
        "peer".into(),
        false,
        JournalLimits::default(),
    );
    shared.rotate_token(2, [3u8; 16]); // previous=(1,[2]) current=(2,[3])
    shared.handle_frame(&open_frame([1u8; 16], 1));
    shared
        .handle_frame(&data_frame([1u8; 16], 1, 0, b"data"));
    assert!(shared
        .decide_resume([9u8; 16], 1, &[2u8; 16], [4u8; 16])
        .is_none());
    assert!(
        shared
            .decide_resume([10u8; 16], 2, &[3u8; 16], [5u8; 16])
            .is_some(),
        "the current token stays"
    );
}

#[test]
fn open_alias_merges_duplicate_streams() {
    let mut shared = SessionShared::new(
        [1u8; 16],
        [2u8; 16],
        "peer".into(),
        false,
        JournalLimits::default(),
    );
    let open = |stream: u64| Frame {
        frame_type: FrameType::Open,
        flags: flags::START,
        session_id: [1u8; 16],
        stream_id: stream,
        direction: Direction::ClientToProvider,
        byte_offset: 0,
        payload: b"{\"requestId\":\"x\",\"idempotencyKey\":\"K\"}".to_vec(),
    };
    let first = shared.handle_frame(&open(7));
    assert_eq!(first.new_open, Some(7), "the first OPEN counts");
    let dup = shared.handle_frame(&open(21));
    assert_eq!(dup.new_open, None, "the second is merged");
    shared
        .handle_frame(&data_frame([1u8; 16], 21, 0, b"payload"));
    assert_eq!(shared.deliver_queue_bytes(7), 7, "delivered to the first");
    assert_eq!(shared.deliver_queue_bytes(21), 0, "no queue of its own");
    assert_eq!(taken(&mut shared, 7), b"payload".to_vec());
}

#[test]
fn try_mark_started_exactly_one_winner() {
    let mut shared = SessionShared::new(
        [1u8; 16],
        [2u8; 16],
        "peer".into(),
        false,
        JournalLimits::default(),
    );
    shared.on_open(1, "k");
    let (a, b) = (shared.try_mark_started(1), shared.try_mark_started(1));
    assert_eq!(a as u8 + b as u8, 1, "exactly one: {a}/{b}");
    assert!(!shared.try_mark_started(1), "later calls lose");
    shared.mark_completed(1);
    assert_eq!(shared.request_state(1), Some(RequestState::Completed));
    shared.mark_started(1);
    assert_eq!(
        shared.request_state(1),
        Some(RequestState::Completed),
        "never goes back"
    );
}

#[test]
fn registry_admit_init_idempotent_and_gates() {
    let mut reg = SessionRegistry::new();
    let lim = JournalLimits::default();
    let from = NodeIdentity::from_seed([7u8; 32]).endpoint_id();
    let mut offer = |token: [u8; 16], peer: &str| {
        reg.admit_init_ordered([7u8; 16], token, peer.to_owned(), from, lim)
    };
    assert!(matches!(
        offer([1u8; 16], "peer-a"),
        InitAdmission::Admitted { fresh: true }
    ));
    // the same again is the same session
    assert!(matches!(
        offer([1u8; 16], "peer-a"),
        InitAdmission::Admitted { fresh: false }
    ));
    assert!(matches!(
        offer([2u8; 16], "peer-a"),
        InitAdmission::TokenMismatch
    ));
    assert!(matches!(
        offer([1u8; 16], "peer-b"),
        InitAdmission::PeerMismatch
    ));
    // after a rotation the old token is refused too
    reg.session_mut(&[7u8; 16])
        .unwrap()
        .rotate_token(2, [9u8; 16]);
    assert!(matches!(
        reg.admit_init_ordered([7u8; 16], [1u8; 16], "peer-a".into(), from, lim),
        InitAdmission::TokenMismatch
    ));
}

#[test]
fn registry_register_local_returns_canonical_single_flight() {
    let mut reg = SessionRegistry::new();
    let initiator = NodeIdentity::from_seed([7u8; 32]).endpoint_id();
    let first = SessionShared::new(
        [1u8; 16],
        [2u8; 16],
        "peer-a".into(),
        true,
        JournalLimits::default(),
    );
    let second = SessionShared::new(
        [3u8; 16],
        [4u8; 16],
        "peer-a".into(),
        true,
        JournalLimits::default(),
    );
    let (canonical, first_owner) = reg.register_local(first, "peer-a".into(), initiator);
    assert!(first_owner);
    assert_eq!(canonical, [1u8; 16]);
    let (reused, second_owner) = reg.register_local(second, "peer-a".into(), initiator);
    assert!(!second_owner, "the second caller is no owner");
    assert_eq!(reused, [1u8; 16], "the first session is shared");
    assert!(reg.reusable_for_peer("peer-a").is_some());
}

#[test]
fn registry_remove_leaves_tombstone_but_releases_peer() {
    let mut reg = SessionRegistry::new();
    let lim = JournalLimits::default();
    let from = NodeIdentity::from_seed([7u8; 32]).endpoint_id();
    let sid = [0x71u8; 16];
    let token = [0x72u8; 16];
    assert!(matches!(
        reg.admit_init_ordered(sid, token, "peer-a".into(), from, lim),
        InitAdmission::Admitted { fresh: true }
    ));
    let removed = reg.remove_if(&sid).unwrap();
    assert!(matches!(
        reg.admit_init_ordered(sid, token, "peer-a".into(), from, lim),
        InitAdmission::TokenRevoked
    ));
    assert!(reg.reusable_for_peer("peer-a").is_none());
    assert_eq!(removed.phase(), SessionPhase::Dead);
}

#[test]
fn duplicate_and_overlap_semantics() {
    let mut shared = SessionShared::new(
        [1u8; 16],
        [2u8; 16],
        "peer".into(),
        false,
        JournalLimits::default(),
    );
    shared.handle_frame(&open_frame([1u8; 16], 1));
    let sid = [1u8; 16];
    let f = |off: u64, data: &[u8]| Frame {
        frame_type: FrameType::Data,
        flags: 0,
        session_id: sid,
        stream_id: 1,
        direction: Direction::ClientToProvider,
        byte_offset: off,
        payload: data.to_vec(),
    };
    let ack = shared
        .handle_frame(&f(0, b"AAAA"))
        .reply
        .expect("deliver, ack");
    assert_eq!(ack.frame_type, FrameType::Ack);
    assert_eq!(ack.byte_offset, 0, "nothing consumed yet");
    let ack2 = shared
        .handle_frame(&f(0, b"AAAA"))
        .reply
        .expect("duplicate, ack");
    assert_eq!(ack2.frame_type, FrameType::Ack);
    assert_eq!(ack2.byte_offset, 0);
    assert_eq!(taken(&mut shared, 1), b"AAAA".to_vec());
    assert_eq!(shared.committed_offset(1), 4);
    let ack3 = shared
        .handle_frame(&f(0, b"AAAA"))
        .reply
        .expect("duplicate, ack");
    assert_eq!(ack3.byte_offset, 4, "consumed");
    let rst = shared
        .handle_frame(&f(0, b"XXXX"))
        .reply
        .expect("mismatch, reset");
    assert_eq!(rst.frame_type, FrameType::Reset);
    assert_eq!(shared.recv(1), RecvStep::Ended);
}

#[test]
fn idem_key_extraction() {
    assert_eq!(
        parse_idem_key(br#"{"requestId":"7","idempotencyKey":"chat-42"}"#),
        "chat-42"
    );
    assert_eq!(
        parse_idem_key(b"\xff{\"idempotencyKey\":\"k1\",\"x\":\"\xc3\"}"),
        "k1".to_string()
    );
    assert_eq!(
        parse_idem_key(b"garbage"),
        "auto-7",
        "a payload without key"
    );
}

// ---- handshakes -------------------------------------------------------------------

fn client(sid: [u8; 16], token: [u8; 16]) -> SessionShared {
    SessionShared::new(sid, token, "provider".into(), true, SessionOptions::default().limits)
}

#[test]
fn a_session_is_started() {
    let (a, b) = (
        NodeIdentity::from_seed([1; 32]).endpoint_id(),
        NodeIdentity::from_seed([2; 32]).endpoint_id(),
    );
    let (sid, token) = ([5u8; 16], [6u8; 16]);
    let init = session_init_frame(sid, &token);
    let mut registry = SessionRegistry::new();
    let mut campaigns = CampaignMap::new();
    let reply = match accept_session_init(
        &mut registry,
        &mut campaigns,
        "client",
        Some(a),
        &b,
        &init,
        1,
        JournalLimits::default(),
    ) {
        InitReply::Accepted { reply, session_id, fresh, .. } => {
            assert_eq!(session_id, sid);
            assert!(fresh);
            reply
        }
        other => panic!("{other:?}"),
    };
    assert!(matches!(
        on_init_response(&reply, &sid),
        OpenStep::Established
    ));
    assert!(registry.contains(&sid));
    // the answer to another session is not taken
    assert!(matches!(
        on_init_response(&reply, &[9; 16]),
        OpenStep::Failed(_)
    ));
    // a second session of the same peer gives way to the first
    let second = session_init_frame([7u8; 16], &token);
    match accept_session_init(
        &mut registry,
        &mut campaigns,
        "client",
        Some(a),
        &b,
        &second,
        1,
        JournalLimits::default(),
    ) {
        InitReply::Rejected { reply, .. } => match on_init_response(&reply, &[7u8; 16]) {
            OpenStep::Adopt(id) => assert_eq!(id, sid),
            other => panic!("{other:?}"),
        },
        other => panic!("{other:?}"),
    }
    // a name that is no endpoint
    let third = session_init_frame([8u8; 16], &token);
    assert!(matches!(
        accept_session_init(
            &mut registry,
            &mut campaigns,
            "nobody",
            None,
            &b,
            &third,
            1,
            JournalLimits::default(),
        ),
        InitReply::BadPeer
    ));
}

#[test]
fn a_session_is_resumed() {
    let a = NodeIdentity::from_seed([1; 32]).endpoint_id();
    let (sid, token) = ([5u8; 16], [6u8; 16]);
    let mut c = client(sid, token);
    let mut registry = SessionRegistry::new();
    assert!(matches!(
        registry.admit_init_ordered(sid, token, "client".into(), a, JournalLimits::default()),
        InitAdmission::Admitted { fresh: true }
    ));
    assert_eq!(registry.lookup_resume(&sid), ResumeLookup::Active);
    let f = resume_init_frame(&c, 2, &[3u8; 16]);
    let reply = match accept_resume(&mut registry, &f, 2, Some([9u8; 16])) {
        ResumeReply::Accepted { reply, session_id, decision, .. } => {
            assert_eq!(session_id, sid);
            assert_eq!(decision.result_generation, 2);
            assert_eq!(decision.result_token, [9u8; 16]);
            reply
        }
        other => panic!("{other:?}"),
    };
    match on_resume_response(&mut c, &reply, 2, 1) {
        ResumeStep::Install { generation } => assert_eq!(generation, 2),
        other => panic!("{other:?}"),
    }
    assert_eq!(c.current_token(), (2, [9u8; 16]));
    // unknown sessions are refused
    let stranger = client([1u8; 16], token);
    let f = resume_init_frame(&stranger, 2, &[3u8; 16]);
    assert!(matches!(
        accept_resume(&mut registry, &f, 2, Some([9u8; 16])),
        ResumeReply::Rejected { .. }
    ));
    // without randomness nothing is decided
    let again = resume_init_frame(&c, 3, &[4u8; 16]);
    assert!(matches!(
        accept_resume(&mut registry, &again, 3, None),
        ResumeReply::NoEntropy(_)
    ));
}

#[test]
fn what_was_sent_is_replayed() {
    let mut c = client([5u8; 16], [6u8; 16]);
    let (stream, open) = c.open_stream("key").unwrap();
    assert_eq!(open.payload, open_payload(stream, "key"));
    let d = c.send_data(stream, b"abc".to_vec()).unwrap();
    assert_eq!((d.byte_offset, d.payload.as_slice()), (0, &b"abc"[..]));
    let d = c.send_data(stream, b"de".to_vec()).unwrap();
    assert_eq!(d.byte_offset, 3);
    let fin = c.finish(stream);
    assert_eq!(fin.byte_offset, 5);
    c.advance_journal_from_summary(&[StreamSummary {
        stream_id: stream,
        recv_ack: 3,
        send_next: 0,
        final_sent: None,
    }]);
    let again = c.replay_frames();
    assert_eq!(again[0].payload, b"de");
    assert_eq!(again[0].byte_offset, 3);
    assert_eq!(c.journal_bytes_total(), 2);
    assert_eq!(c.fin_resent_streams(), vec![(stream, 5)]);
    assert_eq!(c.open_resend_list(), vec![(stream, "key".to_owned())]);
    assert_eq!(c.reopen_frames().len(), 1);
}

#[test]
fn payloads_of_handshakes_are_read_back() {
    let (sid, token) = ([5u8; 16], [6u8; 16]);
    assert_eq!(
        decode_session_init(&encode_session_init(&sid, &token, 7)),
        Some((sid, token, 7))
    );
    assert_eq!(
        decode_session_init_ok(&encode_session_init_ok(&sid, 7, 8)),
        Some((sid, 7, 8))
    );
    assert_eq!(
        decode_session_init_reject(&encode_session_init_reject(2, &sid, 7, 8)),
        Some((2, sid, 7, 8))
    );
    let s = StreamSummary {
        stream_id: 1,
        recv_ack: 2,
        send_next: 3,
        final_sent: Some(3),
    };
    let ok = decode_resume_ok_full(&encode_resume_ok_full(&sid, 1, 2, 3, &token, &[s], 4)).unwrap();
    assert_eq!(ok.new_generation, 3);
    assert_eq!(ok.new_resume_token, token);
    assert_eq!(ok.replay_summaries, vec![s]);
    assert_eq!(ok.status_flags, 4);
}

#[test]
fn waiting_ends() {
    assert!(matches!(
        wait_for_existing_session(true, SessionPhase::Dead, true),
        WaitStep::Ready
    ));
    assert!(matches!(
        wait_for_existing_session(false, SessionPhase::Negotiating, false),
        WaitStep::Wait
    ));
    assert!(matches!(
        wait_for_existing_session(false, SessionPhase::Closed, false),
        WaitStep::GiveUp(_)
    ));
    assert!(matches!(adopt_session(true, true, &[1; 16]), WaitStep::Ready));
    assert!(matches!(adopt_session(false, false, &[1; 16]), WaitStep::Wait));
    match adopt_session(false, true, &[0xab; 16]) {
        WaitStep::GiveUp(e) => assert_eq!(
            e.message(),
            "connect: canonical session abababab not observed locally"
        ),
        other => panic!("{other:?}"),
    }
    let e = || dweb_fabric::session::connect_err("x".to_owned());
    assert!(matches!(
        after_failure(1, TryAgain::Transport(e())),
        RetryStep::Again
    ));
    assert!(matches!(
        after_failure(3, TryAgain::Transport(e())),
        RetryStep::GiveUp(_)
    ));
    assert!(matches!(
        after_failure(1, TryAgain::Definitive(e())),
        RetryStep::GiveUp(_)
    ));
}

#[test]
fn first_frames_are_told_apart() {
    assert!(matches!(
        on_first_frame(FrameType::SessionInit),
        FirstFrame::Init
    ));
    assert!(matches!(
        on_first_frame(FrameType::ResumeInit),
        FirstFrame::Resume
    ));
    match on_first_frame(FrameType::Data) {
        FirstFrame::Unexpected(e) => {
            assert_eq!(e.message(), "connect: unexpected first frame Data")
        }
        other => panic!("{other:?}"),
    }
}

#[test]
fn a_reset_by_the_peer_is_seen() {
    let mut s = SessionShared::new(
        [1u8; 16],
        [2u8; 16],
        "peer".into(),
        false,
        JournalLimits::default(),
    );
    s.handle_frame(&open_frame([1u8; 16], 1));
    assert!(!s.peer_reset(1));
    s.handle_frame(&Frame {
        frame_type: FrameType::Reset,
        flags: flags::RESET,
        session_id: [1u8; 16],
        stream_id: 1,
        direction: Direction::ClientToProvider,
        byte_offset: 0,
        payload: Vec::new(),
    });
    assert!(s.peer_reset(1));
}

#[test]
fn replay_takes_turns_of_four() {
    let of = |n: u64| (0..n).map(|k| (k, vec![k as u8])).collect::<Vec<_>>();
    let out = interleave_replay(vec![(1, of(6)), (3, of(0)), (5, of(9))]);
    let order: Vec<(u64, u64)> = out.iter().map(|x| (x.0, x.1)).collect();
    let want = [
        (1, 0), (1, 1), (1, 2), (1, 3), (5, 0), (5, 1), (5, 2), (5, 3),
        (1, 4), (1, 5), (5, 4), (5, 5), (5, 6), (5, 7),
        (5, 8),
    ];
    assert_eq!(order, want);
    assert!(out.iter().all(|x| x.2 == vec![x.1 as u8]));
}
