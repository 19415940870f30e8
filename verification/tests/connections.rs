//! Connections to peers, and HTTP over sessions.
use dweb_fabric::continuity::http::{
    abort_frame, dispatch_request, dispatch_stream, error_response, first_body_part,
    handler_failed, head_limit_ms, head_step, head_timeout_err, hex16, meta_line_end,
    on_body_part, peel_head, peel_meta_line, request_meta, resend_next, response_head,
    BodyStep, DispatchStep, HeadLine, HeadStep, Header, HeaderItem, HttpEngineError,
    HttpRequestInit, RequestMeta, ResendEvent, ResendStep, ACTIVE_POLL_MS, ACTIVE_TIMEOUT_MS,
};
use dweb_fabric::continuity::manager::{
    adopt_with_winner, after_close, after_redial, begin_dial, connection_lost, dial_connected,
    dial_failed, ensure_connection, next_backoff, CloseStep, ConnectStep, RedialStep, WinnerStep,
};
use dweb_fabric::continuity::{
    ConnHandle, ConnectionPhase, ContinuityState, Direction, FrameType, RequestState,
};
use dweb_fabric::identity::{endpoint_id_display, endpoint_id_parse, EndpointId, NodeIdentity, SecretKey, Signature};
use dweb_fabric::session::{FabricError, LinkStatus, SessionError};

fn peer(n: u8) -> EndpointId {
    SecretKey::from_bytes(&[n; 32]).public()
}

#[test]
fn snapshot_before_subscribe_and_lag_converge() {
    let mut st = ContinuityState::new();
    assert!(st.has_room());
    let p = peer(1);
    let s0 = st.snapshot(&p, 1);
    assert_eq!(s0.phase, ConnectionPhase::Disconnected);
    assert_eq!(s0.epoch, 0);
    assert_eq!(st.snapshot(&p, 2), s0);
    st.set_phase(&p, ConnectionPhase::Connecting, None, false, 3);
    st.set_phase(&p, ConnectionPhase::Handshaking, None, false, 4);
    let latest = st.snapshot(&p, 5);
    assert_eq!(latest.phase, ConnectionPhase::Handshaking);
    assert_eq!(latest.state_seq, s0.state_seq + 2);
    assert_eq!(st.snapshot(&p, 6), latest);
}

#[test]
fn seq_monotonic_across_phase_changes() {
    let mut st = ContinuityState::new();
    let p = peer(2);
    let mut last = st.snapshot(&p, 1).state_seq;
    for phase in [
        ConnectionPhase::Connecting,
        ConnectionPhase::Handshaking,
        ConnectionPhase::Ready,
        ConnectionPhase::Disconnected,
    ] {
        st.set_phase(&p, phase, Some("test".into()), false, 2);
        let cur = st.snapshot(&p, 3).state_seq;
        assert!(cur > last, "state_seq grows");
        last = cur;
    }
}

#[test]
fn connections_come_and_go() {
    let mut st = ContinuityState::new();
    let p = peer(3);
    assert!(matches!(
        ensure_connection(&st, &p, false),
        ConnectStep::Dial
    ));
    assert!(matches!(
        ensure_connection(&st, &p, true),
        ConnectStep::Fail(_)
    ));
    match begin_dial(&mut st, &p, false, 1) {
        Err(FabricError::Session(SessionError::NotMember(m))) => {
            assert_eq!(m, endpoint_id_display(&p))
        }
        other => panic!("{other:?}"),
    }
    assert_eq!(
        st.snapshot(&p, 1).reason.as_deref(),
        Some("not a member")
    );
    begin_dial(&mut st, &p, true, 2).unwrap();
    assert_eq!(
        dial_failed(&mut st, &p, "no route".into(), 3).message(),
        "connect: no route"
    );
    begin_dial(&mut st, &p, true, 4).unwrap();
    dial_connected(&mut st, &p, 5);
    assert_eq!(st.snapshot(&p, 5).phase, ConnectionPhase::Handshaking);
    let (low, high) = if peer(4) < peer(5) {
        (peer(4), peer(5))
    } else {
        (peer(5), peer(4))
    };
    let first = ConnHandle {
        conn: 1,
        initiator: high,
    };
    let second = ConnHandle {
        conn: 2,
        initiator: low,
    };
    match adopt_with_winner(&mut st, &p, first, LinkStatus::Direct, 6) {
        WinnerStep::Adopted { epoch, close } => {
            assert_eq!(epoch, 1);
            assert!(close.is_none());
        }
        other => panic!("{other:?}"),
    }
    match adopt_with_winner(&mut st, &p, second, LinkStatus::Relay, 7) {
        WinnerStep::Adopted { epoch, close } => {
            assert_eq!(epoch, 2);
            assert_eq!(close.unwrap().conn, 1);
        }
        other => panic!("{other:?}"),
    }
    match adopt_with_winner(&mut st, &p, first, LinkStatus::Direct, 8) {
        WinnerStep::Kept(h) => assert_eq!(h.conn, 2),
        other => panic!("{other:?}"),
    }
    match ensure_connection(&st, &p, true) {
        ConnectStep::Use(h) => assert_eq!(h.conn, 2),
        other => panic!("{other:?}"),
    }
    connection_lost(&mut st, &p, None, 9);
    assert!(st.active(&p).is_none());
    assert_eq!(
        st.snapshot(&p, 9).reason.as_deref(),
        Some("connection lost")
    );
    assert_eq!(after_close(false, false), CloseStep::Reconnect);
    assert_eq!(after_close(true, false), CloseStep::Leave);
    assert_eq!(after_close(false, true), CloseStep::Leave);
}

#[test]
fn redialing_backs_off() {
    let failed = || {
        Err(FabricError::Session(SessionError::Connect(
            "x".to_owned(),
        )))
    };
    let mut ms = 100;
    let mut last = 0;
    for _ in 0..20 {
        match after_redial(&failed(), ms) {
            RedialStep::Again { backoff_ms } => {
                assert_eq!(backoff_ms, next_backoff(ms));
                last = ms;
                ms = backoff_ms;
            }
            other => panic!("{other:?}"),
        }
    }
    assert_eq!(ms, last, "bounded");
    assert_eq!(after_redial(&Ok(()), 1), RedialStep::Stop);
    assert_eq!(
        after_redial(
            &Err(FabricError::Session(SessionError::NotMember("p".into()))),
            1
        ),
        RedialStep::Stop
    );
}

#[test]
fn closing_gives_all_connections_back() {
    let mut st = ContinuityState::new();
    for n in 1..4u8 {
        st.adopt(
            &peer(n),
            ConnHandle {
                conn: n as u64,
                initiator: peer(n),
            },
            LinkStatus::Direct,
            1,
        );
    }
    let mut conns: Vec<u64> = st
        .close_all(ConnectionPhase::Closing, "bye", 2)
        .iter()
        .map(|h| h.conn)
        .collect();
    conns.sort();
    assert_eq!(conns, vec![1, 2, 3]);
    assert_eq!(st.snapshot(&peer(1), 3).phase, ConnectionPhase::Closing);
}

// ---- identities -------------------------------------------------------------------

#[test]
fn keys_sign_and_verify() {
    let me = NodeIdentity::from_seed([1; 32]);
    let id = me.endpoint_id();
    let outside = iroh_base::SecretKey::from_bytes(&[1; 32]);
    assert_eq!(id.as_bytes(), outside.public().as_bytes());
    let sig = me.secret_key().sign(b"message");
    assert_eq!(sig.to_bytes(), outside.sign(b"message").to_bytes());
    assert!(id.verify(b"message", &sig));
    assert!(!id.verify(b"other", &sig));
    assert!(!peer(2).verify(b"message", &sig));
    assert!(!id.verify(b"message", &Signature::from_bytes(&[0; 64])));
    assert_eq!(endpoint_id_display(&id), outside.public().to_z32());
    assert_eq!(EndpointId::from_bytes(id.as_bytes()), Some(id));
    // texts are read
    assert_eq!(endpoint_id_parse(&endpoint_id_display(&id)), Ok(id));
    assert_eq!(endpoint_id_parse(&outside.public().to_string()), Ok(id));
    assert_eq!(endpoint_id_parse("x"), Err("invalid length".to_owned()));
    assert_eq!(
        endpoint_id_parse(&"x".repeat(64)),
        Err("failed to decode hex string".to_owned())
    );
    let mut no_key = [0xffu8; 32];
    no_key[0] = 2;
    assert_eq!(
        EndpointId::from_bytes(&no_key).is_some(),
        iroh_base::PublicKey::from_bytes(&no_key).is_ok()
    );
    assert_ne!(
        NodeIdentity::generate().endpoint_id(),
        NodeIdentity::generate().endpoint_id()
    );
}

// ---- http -------------------------------------------------------------------------

#[test]
fn requests_are_described() {
    let post = HttpRequestInit::post("/a\"b", b"{}".to_vec());
    let meta = String::from_utf8(request_meta("k", &post)).unwrap();
    assert_eq!(
        meta,
        "{\"bodyLength\":2,\"contentType\":\"application/json\",\"headers\":[{\"name\":\"content-type\",\"value\":\"application/json\"}],\"idempotencyKey\":\"k\",\"method\":\"POST\",\"path\":\"/a\\\"b\"}"
    );
    let v: serde_json::Value = serde_json::from_str(&meta).unwrap();
    assert_eq!(v.to_string(), meta);
    assert_eq!(v["path"], "/a\"b");
    let get = HttpRequestInit::get("/");
    let meta = String::from_utf8(request_meta("k", &get)).unwrap();
    assert!(meta.starts_with("{\"bodyLength\":0,\"contentType\":\"\",\"headers\":[]"));
    assert_eq!(hex16(&[0xab; 16]), "ab".repeat(16));
}

#[test]
fn responses_are_read() {
    let head = response_head(200, &vec![Header::new("a", "b")]);
    assert_eq!(
        head,
        b"{\"headers\":[{\"name\":\"a\",\"value\":\"b\"}],\"status\":200}\n".to_vec()
    );
    let mut buf = head.clone();
    buf.extend_from_slice(b"body");
    assert_eq!(meta_line_end(&buf), Some(head.len() - 1));
    let line = HeadLine {
        status: Some(200),
        headers: Some(vec![
            HeaderItem {
                name: Some("a".into()),
                value: Some("b".into()),
            },
            HeaderItem {
                name: Some("dropped".into()),
                value: None,
            },
        ]),
    };
    let (status, headers, rest) = peel_head(&buf, Some(line.clone())).unwrap();
    assert_eq!(status, 200);
    assert_eq!(headers, vec![Header::new("a", "b")]);
    assert_eq!(rest, b"body".to_vec());
    assert!(peel_head(b"no line", Some(line)).is_none());
    assert!(peel_head(&buf, None).is_none());
    assert_eq!(
        error_response(400, "no"),
        b"{\"headers\":[{\"name\":\"content-type\",\"value\":\"text/plain\"}],\"status\":400}\nno"
            .to_vec()
    );
    assert_eq!(first_body_part(Some(vec![1])), Some(vec![1]));
    assert_eq!(first_body_part(Some(vec![])), None);
    assert_eq!(first_body_part(None), None);
    assert_eq!(head_timeout_err().message(), "connect: response head timeout");
}

#[test]
fn texts_are_escaped() {
    let mut path: String = (0u8..=0x7f).map(char::from).collect();
    path.push('\u{4e2d}');
    let init = HttpRequestInit::get(&path);
    let meta = String::from_utf8(request_meta("k", &init)).unwrap();
    assert!(meta.contains(
        "\"path\":\"\\u0000\\u0001\\u0002\\u0003\\u0004\\u0005\\u0006\\u0007\\b\\t\\n\\u000b\\f\\r\\u000e"
    ));
    assert!(meta.contains("\\u001f !\\\"#$"));
    assert!(meta.contains("[\\\\]"));
    assert!(meta.contains("~\u{7f}\u{4e2d}\"}"));
    match dispatch_stream(None, Some(meta.as_bytes()), 1) {
        DispatchStep::Run(q) => assert_eq!(q.path, path),
        other => panic!("{other:?}"),
    }
}

#[test]
fn heads_are_parsed() {
    let peel = |t: &str| peel_meta_line(t.as_bytes());
    let headers = vec![Header::new("a", "b\"c\u{e9}"), Header::new("a", "")];
    let mut buf = response_head(404, &headers);
    buf.extend_from_slice(b"bo\ndy");
    assert_eq!(
        peel_meta_line(&buf),
        Some((404, headers, b"bo\ndy".to_vec()))
    );
    // only items with two texts are headers
    assert_eq!(
        peel("{\"status\":7,\"headers\":[{\"name\":\"a\"},{\"name\":1,\"value\":\"b\"},5,\
             {\"value\":\"y\",\"name\":\"x\"}]}\n"),
        Some((7, vec![Header::new("x", "y")], vec![]))
    );
    assert_eq!(peel("{\"status\":7,\"headers\":{}}\n"), Some((7, vec![], vec![])));
    assert_eq!(peel("{\"status\":65736}\n"), Some((200, vec![], vec![])));
    // more than ten headers
    let many: Vec<Header> = (0..12)
        .map(|i| Header::new(&format!("n{i}"), &format!("v{i}")))
        .collect();
    assert_eq!(
        peel_meta_line(&response_head(1, &many)),
        Some((1, many, vec![]))
    );
    assert_eq!(peel("{\"status\":200}"), None);
    assert_eq!(peel("{\"status\":-1}\n"), None);
    assert_eq!(peel("{\"status\":\"200\"}\n"), None);
    assert_eq!(peel("{}\n"), None);
    assert_eq!(peel("[200]\n"), None);
    assert_eq!(peel("not json\n"), None);
    assert_eq!(peel("{\"status\":\n200}\n"), None);
}

#[test]
fn heads_are_waited_for() {
    let head = response_head(204, &vec![]);
    assert!(matches!(head_step(b"", 0, 10), HeadStep::Receive));
    assert!(matches!(head_step(&head[..3], 9, 10), HeadStep::Receive));
    assert!(matches!(head_step(&head[..3], 10, 10), HeadStep::TimedOut));
    match head_step(&head, 11, 10) {
        HeadStep::Head {
            status,
            headers,
            rest,
        } => assert_eq!((status, headers, rest), (204, vec![], vec![])),
        other => panic!("{other:?}"),
    }
    assert_eq!(head_limit_ms(None), 30_000);
    assert_eq!(head_limit_ms(Some(5)), 5);
}

#[test]
fn failed_sends_are_repeated() {
    let look = |active: bool, waited_ms: u64| resend_next(ResendEvent::Looked { active, waited_ms });
    assert_eq!(
        resend_next(ResendEvent::Tried { sent: true }),
        ResendStep::Done
    );
    assert_eq!(
        resend_next(ResendEvent::Tried { sent: false }),
        ResendStep::Look { pause_ms: 0 }
    );
    assert_eq!(look(true, 0), ResendStep::Send);
    assert_eq!(
        look(false, 0),
        ResendStep::Look {
            pause_ms: ACTIVE_POLL_MS
        }
    );
    assert_eq!(look(true, ACTIVE_TIMEOUT_MS - 1), ResendStep::Send);
    assert_eq!(look(true, ACTIVE_TIMEOUT_MS), ResendStep::GiveUp);
    assert_eq!((ACTIVE_POLL_MS, ACTIVE_TIMEOUT_MS), (100, 30_000));
}

#[test]
fn payloads_are_dispatched() {
    let init = HttpRequestInit::post("/a", b"{}".to_vec());
    let raw = request_meta("k", &init);
    match dispatch_stream(Some(RequestState::Accepted), Some(&raw), 7) {
        DispatchStep::Run(q) => {
            assert_eq!((q.method.as_str(), q.path.as_str()), ("POST", "/a"));
            assert_eq!(q.headers, init.headers);
            assert_eq!(q.stream_id, 7);
        }
        other => panic!("{other:?}"),
    }
    match dispatch_stream(None, Some(b"{\"method\":1}"), 8) {
        DispatchStep::Run(q) => {
            assert_eq!((q.method.as_str(), q.path.as_str()), ("GET", "/"));
            assert_eq!(q.headers, vec![]);
        }
        other => panic!("{other:?}"),
    }
    match dispatch_stream(None, Some(b"{"), 8) {
        DispatchStep::Refuse { status, message } => {
            assert_eq!((status, message), (400, "bad request meta"))
        }
        other => panic!("{other:?}"),
    }
    assert!(matches!(
        dispatch_stream(Some(RequestState::Started), Some(&raw), 7),
        DispatchStep::Skip
    ));
    assert!(matches!(
        dispatch_stream(Some(RequestState::Completed), Some(&raw), 7),
        DispatchStep::Skip
    ));
    assert!(matches!(dispatch_stream(None, None, 7), DispatchStep::Skip));
}

#[test]
fn streams_are_dispatched_once() {
    let meta = RequestMeta {
        method: None,
        path: Some("/x".into()),
        headers: None,
    };
    match dispatch_request(Some(RequestState::Accepted), Some(Some(meta.clone())), 7) {
        DispatchStep::Run(q) => {
            assert_eq!((q.method.as_str(), q.path.as_str()), ("GET", "/x"));
            assert_eq!(q.stream_id, 7);
        }
        other => panic!("{other:?}"),
    }
    assert!(matches!(
        dispatch_request(Some(RequestState::Started), Some(Some(meta.clone())), 7),
        DispatchStep::Skip
    ));
    assert!(matches!(
        dispatch_request(Some(RequestState::Completed), Some(Some(meta)), 7),
        DispatchStep::Skip
    ));
    assert!(matches!(
        dispatch_request(None, Some(None), 7),
        DispatchStep::Refuse { status: 400, .. }
    ));
    assert!(matches!(dispatch_request(None, None, 7), DispatchStep::Skip));
    assert!(matches!(
        handler_failed(),
        DispatchStep::Refuse { status: 500, .. }
    ));
    assert_eq!(on_body_part(true), BodyStep::Stop);
    assert_eq!(on_body_part(false), BodyStep::Send);
    let f = abort_frame([1; 16], 7, Direction::ClientToProvider);
    assert_eq!((f.frame_type, f.flags, f.stream_id), (FrameType::Reset, 0, 7));
    assert_eq!(
        HttpEngineError("boom".into()).message(),
        "http engine: boom"
    );
    assert_eq!(
        HttpEngineError("boom".into()).into_fabric().message(),
        "connect: boom"
    );
}
