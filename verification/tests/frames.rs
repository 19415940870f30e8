//! Frames and the reader that cuts them out of a stream.
use dweb_fabric::continuity::frame::flags;
use dweb_fabric::continuity::transport::{FrameInbox, TransportError};
use dweb_fabric::continuity::{
    Direction, Frame, FrameError, FrameType, StreamFramer, HEADER_LEN, MAX_FRAME,
};

fn sample(ft: FrameType, stream_id: u64, payload: &[u8]) -> Frame {
    Frame {
        frame_type: ft,
        flags: if ft == FrameType::Data { flags::START } else { 0 },
        session_id: [9u8; 16],
        stream_id,
        direction: Direction::ClientToProvider,
        byte_offset: if ft == FrameType::Data { 42 } else { 0 },
        payload: payload.to_vec(),
    }
}

#[test]
fn roundtrip_all_frame_types() {
    let all = [
        (FrameType::SessionInit, 0u64),
        (FrameType::ResumeInit, 0),
        (FrameType::ResumeOk, 0),
        (FrameType::ResumeReject, 0),
        (FrameType::Ping, 0),
        (FrameType::Pong, 0),
        (FrameType::SessionFin, 0),
        (FrameType::SessionReset, 0),
        (FrameType::SessionInitOk, 0),
        (FrameType::SessionInitReject, 0),
        (FrameType::Open, 7),
        (FrameType::OpenOk, 7),
        (FrameType::OpenReject, 7),
        (FrameType::Data, 7),
        (FrameType::Ack, 7),
        (FrameType::Fin, 7),
        (FrameType::Reset, 7),
    ];
    for (ft, sid) in all {
        let f = sample(ft, sid, b"payload-bytes");
        let enc = f.encode_to_vec().unwrap();
        assert_eq!(enc.len(), HEADER_LEN + 13);
        let (dec, used) = Frame::decode(&enc).unwrap();
        assert_eq!(used, enc.len());
        assert_eq!(dec, f, "roundtrip: {ft:?}");
    }
}

#[test]
fn roundtrip_all_flags_and_max_frame() {
    let mut f = sample(FrameType::Data, 3, &[0xAB; 4096]);
    f.flags = flags::KNOWN_MASK;
    let (dec, _) = Frame::decode(&f.encode_to_vec().unwrap()).unwrap();
    assert_eq!(dec.flags, flags::KNOWN_MASK);

    let big = sample(FrameType::Data, 3, &vec![0u8; MAX_FRAME]);
    assert!(big.encode_to_vec().is_ok());
    let over = sample(FrameType::Data, 3, &vec![0u8; MAX_FRAME + 1]);
    assert!(matches!(
        over.encode_to_vec().unwrap_err(),
        FrameError::PayloadTooLarge(_, _)
    ));
}

#[test]
fn malformed_negatives() {
    let good = sample(FrameType::Data, 5, b"x").encode_to_vec().unwrap();
    assert!(matches!(
        Frame::decode(&good[..47]),
        Err(FrameError::TooShort(47))
    ));
    let mut b = good.clone();
    b[0] = b'X';
    assert!(matches!(Frame::decode(&b), Err(FrameError::BadMagic)));
    let mut b = good.clone();
    b[4] = 2;
    assert!(matches!(Frame::decode(&b), Err(FrameError::BadVersion(2))));
    let mut b = good.clone();
    b[34..36].copy_from_slice(&49u16.to_be_bytes());
    assert!(matches!(
        Frame::decode(&b),
        Err(FrameError::BadHeaderLen(49))
    ));
    let mut b = good.clone();
    b[33] = 1;
    assert!(matches!(Frame::decode(&b), Err(FrameError::BadReserved)));
    let mut b = good.clone();
    b[5] = 0x99;
    assert!(matches!(
        Frame::decode(&b),
        Err(FrameError::UnknownFrameType(0x99))
    ));
    let mut b = good.clone();
    b[6..8].copy_from_slice(&0x8000u16.to_be_bytes());
    assert!(matches!(
        Frame::decode(&b),
        Err(FrameError::UnknownFlags(0x8000))
    ));
    let mut b = good.clone();
    b[32] = 9;
    assert!(matches!(Frame::decode(&b), Err(FrameError::BadDirection(9))));
    let mut b = good.clone();
    let n = b.len();
    b[44..48].copy_from_slice(&100u32.to_be_bytes());
    assert!(matches!(
        Frame::decode(&b[..n]),
        Err(FrameError::LengthMismatch { declared: 100, .. })
    ));
    assert!(matches!(
        sample(FrameType::Ping, 1, b"").encode_to_vec(),
        Err(FrameError::ControlWithStreamId(1))
    ));
    assert!(matches!(
        sample(FrameType::Data, 0, b"").encode_to_vec(),
        Err(FrameError::BusinessWithZeroStreamId)
    ));
}

fn data_frame(offset: u64, payload: &[u8]) -> Frame {
    Frame {
        frame_type: FrameType::Data,
        flags: 0,
        session_id: [5u8; 16],
        stream_id: 9,
        direction: Direction::ClientToProvider,
        byte_offset: offset,
        payload: payload.to_vec(),
    }
}

#[test]
fn framer_incremental_and_split_boundaries() {
    let f1 = data_frame(0, b"hello");
    let f2 = data_frame(5, b"world!!!");
    let mut wire = Vec::new();
    f1.encode(&mut wire).unwrap();
    f2.encode(&mut wire).unwrap();
    let mut fr = StreamFramer::new();
    let mut got = Vec::new();
    for b in wire.iter() {
        got.extend(fr.feed(&[*b]).unwrap());
    }
    assert_eq!(got.len(), 2);
    assert_eq!(got[0], f1);
    assert_eq!(got[1], f2);
    let mut fr2 = StreamFramer::new();
    let mut produced = 0usize;
    for cut in 1..=wire.len() {
        let out = fr2.feed(&wire[cut - 1..cut]).unwrap();
        produced += out.len();
    }
    assert_eq!(produced, 2);
}

#[test]
fn a_frame_comes_with_its_last_byte() {
    let fs = [data_frame(0, b"hello"), data_frame(5, b""), data_frame(5, b"world")];
    let mut wire = Vec::new();
    let mut ends = Vec::new();
    for f in &fs {
        f.encode(&mut wire).unwrap();
        ends.push(wire.len());
    }
    for i in 0..=wire.len() {
        for j in i..=wire.len() {
            let mut fr = StreamFramer::new();
            for (from, to) in [(0, i), (i, j), (j, wire.len())] {
                let got = fr.feed(&wire[from..to]).unwrap();
                let want: Vec<_> = (0..3)
                    .filter(|k| from < ends[*k] && ends[*k] <= to)
                    .map(|k| fs[k].clone())
                    .collect();
                assert_eq!(got, want);
            }
        }
    }
}

#[test]
fn framer_fatal_propagates() {
    let good = data_frame(0, b"x");
    let mut wire = good.encode_to_vec().unwrap();
    wire[0] = b'Q';
    let mut fr = StreamFramer::new();
    assert!(fr.feed(&wire).is_err());
}

#[test]
fn recv_batch_delivers_all_frames_in_order() {
    let open = Frame {
        frame_type: FrameType::Open,
        flags: flags::START,
        session_id: [5u8; 16],
        stream_id: 9,
        direction: Direction::ClientToProvider,
        byte_offset: 0,
        payload: b"{\"requestId\":\"9\"}".to_vec(),
    };
    let data = data_frame(0, b"ping");
    let fin = Frame {
        frame_type: FrameType::Fin,
        flags: flags::END,
        session_id: [5u8; 16],
        stream_id: 9,
        direction: Direction::ClientToProvider,
        byte_offset: 4,
        payload: Vec::new(),
    };
    let mut wire = Vec::new();
    open.encode(&mut wire).unwrap();
    data.encode(&mut wire).unwrap();
    fin.encode(&mut wire).unwrap();
    let mut inbox = FrameInbox::new();
    inbox.take(&wire).unwrap();
    assert_eq!(inbox.next().unwrap().frame_type, FrameType::Open);
    assert_eq!(inbox.next().unwrap().payload, data.payload);
    assert_eq!(inbox.next().unwrap().frame_type, FrameType::Fin);
    assert!(inbox.next().is_none());
}

#[test]
fn frames_have_their_layout() {
    let f = data_frame(0x0102, b"xy");
    let b = f.encode_to_vec().unwrap();
    assert_eq!(&b[0..4], b"DWS1");
    assert_eq!(b[4], 1);
    assert_eq!(&b[8..24], &[5u8; 16]);
    assert_eq!(&b[24..32], &9u64.to_be_bytes());
    assert_eq!(&b[34..36], &48u16.to_be_bytes());
    assert_eq!(&b[36..44], &0x0102u64.to_be_bytes());
    assert_eq!(&b[44..48], &2u32.to_be_bytes());
    assert_eq!(&b[48..], b"xy");
    assert_eq!(
        FrameType::from_u8(f.frame_type.code()),
        Some(FrameType::Data)
    );
    assert_eq!(FrameType::from_u8(0x99), None);
    assert!(FrameType::Ping.is_control());
    assert!(!FrameType::Data.is_control());
}

#[test]
fn frames_before_a_violation_are_delivered() {
    let good = data_frame(0, b"ok");
    let mut wire = good.encode_to_vec().unwrap();
    wire.extend_from_slice(&[b'Q'; 48]);
    let mut fr = StreamFramer::new();
    assert_eq!(fr.feed(&wire).unwrap(), vec![good.clone()]);
    assert_eq!(fr.feed(&[]), Err(FrameError::BadMagic));
    let mut inbox = FrameInbox::new();
    inbox.take(&wire).unwrap();
    assert_eq!(inbox.next(), Some(good));
    assert_eq!(
        inbox.take(&[]),
        Err(TransportError::Frame(FrameError::BadMagic))
    );
}

#[test]
fn transport_errors_are_worded() {
    assert_eq!(
        TransportError::Io("x".into()).message(),
        "continuity stream io: x"
    );
    assert_eq!(TransportError::Ended.message(), "continuity stream ended");
    assert!(TransportError::Frame(FrameError::BadMagic)
        .message()
        .starts_with("continuity frame: "));
}
