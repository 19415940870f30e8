//! The receive window and the send journal of a stream.
use dweb_fabric::continuity::model::HISTORY_CAP;
use dweb_fabric::continuity::{
    JournalError, JournalLimits, RecvWindow, SegmentAction, StreamJournal,
};

fn b(v: u8, n: usize) -> Vec<u8> {
    vec![v; n]
}

// ---------- RecvWindow ----------

#[test]
fn recv_order_delivery_and_duplicate() {
    let mut w = RecvWindow::new();
    assert_eq!(
        w.feed(0, b(1, 10), 8).unwrap(),
        SegmentAction::Deliver(vec![b(1, 10)])
    );
    assert_eq!(w.feed(0, b(1, 10), 8).unwrap(), SegmentAction::Duplicate);
    assert_eq!(
        w.feed(10, b(2, 5), 8).unwrap(),
        SegmentAction::Deliver(vec![b(2, 5)])
    );
    assert_eq!(w.expected_offset(), 15);
    assert_eq!(w.delivered_bytes(), 15);
}

#[test]
fn recv_overlap_mismatch_detected() {
    let mut w = RecvWindow::new();
    w.feed(0, b(1, 10), 8).unwrap();
    assert_eq!(
        w.feed(0, b(9, 10), 8).unwrap(),
        SegmentAction::OverlapMismatch {
            expected: 10,
            got: 0
        }
    );
    assert_eq!(
        w.feed(8, vec![9u8, 1, 7, 7, 7], 8).unwrap(),
        SegmentAction::OverlapMismatch {
            expected: 10,
            got: 8
        }
    );
}

#[test]
fn recv_straddling_replay_delivers_tail() {
    let mut w = RecvWindow::new();
    w.feed(0, b(1, 10), 8).unwrap();
    let seg = vec![1u8; 5]
        .into_iter()
        .chain(vec![3u8; 5])
        .collect::<Vec<_>>();
    assert_eq!(
        w.feed(5, seg, 8).unwrap(),
        SegmentAction::Deliver(vec![b(3, 5)])
    );
    assert_eq!(w.expected_offset(), 15);
}

#[test]
fn recv_gap_buffer_and_drain() {
    let mut w = RecvWindow::new();
    assert_eq!(w.feed(10, b(2, 5), 8).unwrap(), SegmentAction::Buffered);
    assert_eq!(w.sack_ranges(), vec![(10, 15)]);
    assert_eq!(
        w.feed(0, b(1, 10), 8).unwrap(),
        SegmentAction::Deliver(vec![b(1, 10), b(2, 5)])
    );
    assert_eq!(w.expected_offset(), 15);
    assert!(w.sack_ranges().is_empty());
    assert_eq!(w.delivered_bytes(), 15);
}

#[test]
fn recv_gap_overflow_rejected() {
    let mut w = RecvWindow::new();
    for i in 0..4 {
        w.feed(10 + i * 10, b(1, 5), 4).unwrap();
    }
    assert!(w.feed(100, b(1, 5), 4).is_err());
}

#[test]
fn recv_gap_byte_cap_rejects_without_growth() {
    let mut w = RecvWindow::new();
    assert_eq!(
        w.feed_with_limits(10, b(1, 8), 64, 12).unwrap(),
        SegmentAction::Buffered
    );
    let err = w
        .feed_with_limits(30, b(2, 8), 64, 12)
        .expect_err("byte cap must reject before inserting the segment");
    assert_eq!(err.held, 1);
    assert_eq!(err.held_bytes, 8);
    assert_eq!(err.incoming_bytes, 8);
    assert_eq!(err.byte_cap, 12);
    assert_eq!(w.gap_bytes(), 8, "rejected segment must not grow the gap");
    assert_eq!(w.sack_ranges(), vec![(10, 18)]);
}

#[test]
fn recv_history_bounded_sliding_window() {
    let mut w = RecvWindow::new();
    let total = HISTORY_CAP + 4096;
    w.feed(0, b(7, total), 8).unwrap();
    assert_eq!(w.delivered_bytes(), total as u64);
    assert_eq!(w.history_len(), HISTORY_CAP);
    assert_eq!(w.history_start(), (total - HISTORY_CAP) as u64);
    assert_eq!(w.expected_offset(), total as u64);
    let in_view = (total - 100) as u64;
    assert_eq!(
        w.feed(in_view, vec![7u8; 100], 8).unwrap(),
        SegmentAction::Duplicate
    );
    let mut bad = vec![7u8; 100];
    bad[0] ^= 0xFF;
    assert!(matches!(
        w.feed(in_view, bad, 8).unwrap(),
        SegmentAction::OverlapMismatch { .. }
    ));
}

#[test]
fn recv_ancient_replay_discards_and_counts() {
    let mut w = RecvWindow::new();
    for i in 0..3u64 {
        w.feed(i * 32768, b((i + 1) as u8, 32768), 8).unwrap();
    }
    assert_eq!(w.history_start(), 32768);
    assert_eq!(w.unverifiable_duplicates(), 0);
    assert_eq!(w.feed(0, b(1, 32768), 8).unwrap(), SegmentAction::Duplicate);
    assert_eq!(w.unverifiable_duplicates(), 1);
    assert_eq!(w.delivered_bytes(), 3 * 32768);
    let straddle = {
        let mut v = vec![0xFFu8; 8];
        v.extend_from_slice(&[2u8; 32768]);
        v.extend_from_slice(&[3u8; 32768]);
        v.extend_from_slice(&[9u8; 8]);
        v
    };
    assert_eq!(
        w.feed(32760, straddle, 8).unwrap(),
        SegmentAction::Deliver(vec![b(9, 8)])
    );
    assert_eq!(w.unverifiable_duplicates(), 2);
    assert_eq!(w.expected_offset(), 98312);
}

#[test]
fn recv_property_contiguous_delivery() {
    let mut seed: u64 = 0x9E3779B97F4A7C15;
    let mut next = move || {
        seed ^= seed << 13;
        seed ^= seed >> 7;
        seed ^= seed << 17;
        seed
    };
    for _round in 0..200 {
        let mut w = RecvWindow::new();
        let mut delivered_log: Vec<u8> = Vec::new();
        let mut sent: Vec<(u64, Vec<u8>)> = Vec::new();
        let mut off = 0u64;
        for i in 0..50usize {
            let len = 1 + (next() % 7) as usize;
            sent.push((off, vec![(i % 251) as u8; len]));
            off += len as u64;
        }
        let mut ops: Vec<(u64, Vec<u8>)> = Vec::new();
        for &(o, ref p) in &sent {
            ops.push((o, p.clone()));
            if next() % 3 == 0 {
                ops.push((o, p.clone()));
            }
        }
        for i in (1..ops.len()).rev() {
            let j = (next() as usize) % (i + 1);
            ops.swap(i, j);
        }
        for (o, p) in ops {
            match w.feed(o, p, 64).unwrap() {
                SegmentAction::Deliver(segments) => {
                    for seg in segments {
                        delivered_log.extend_from_slice(&seg)
                    }
                }
                SegmentAction::Duplicate | SegmentAction::Buffered => {}
                SegmentAction::OverlapMismatch { .. } => {
                    panic!("a replay of the same bytes must not mismatch")
                }
            }
        }
        let original: Vec<u8> = sent.iter().flat_map(|(_, p)| p.iter().copied()).collect();
        assert_eq!(delivered_log.len() as u64, w.delivered_bytes());
        assert_eq!(w.expected_offset(), w.delivered_bytes());
        assert_eq!(delivered_log, original[..delivered_log.len()]);
    }
}

// ---------- StreamJournal ----------

#[test]
fn journal_record_ack_release_replay() {
    let mut j = StreamJournal::new(7, JournalLimits::default());
    let o1 = j.record(b(1, 100), false).unwrap();
    let o2 = j.record(b(2, 100), false).unwrap();
    assert_eq!((o1, o2), (0, 100));
    assert_eq!(j.advance_ack(100), 100);
    assert_eq!(j.acked_offset(), 100);
    assert_eq!(j.held_bytes(), 100);
    let replay: Vec<(u64, usize)> = j.replay().iter().map(|(o, p)| (*o, p.len())).collect();
    assert_eq!(replay, vec![(100, 100)]);
    assert_eq!(j.advance_ack(999), 100);
    assert_eq!(j.acked_offset(), 200);
    assert_eq!(j.held_bytes(), 0);
    assert!(j.replay().is_empty());
    assert_eq!(j.advance_ack(50), 0);
    assert_eq!(j.acked_offset(), 200);
}

#[test]
fn journal_mid_segment_ack_keeps_whole_segment() {
    let mut j = StreamJournal::new(1, JournalLimits::default());
    j.record(b(1, 100), false).unwrap();
    assert_eq!(j.advance_ack(50), 0);
    assert_eq!(j.acked_offset(), 50);
    assert_eq!(j.held_bytes(), 100);
    let replay: Vec<(u64, usize)> = j.replay().iter().map(|(o, p)| (*o, p.len())).collect();
    assert_eq!(replay, vec![(0, 100)]);
    assert_eq!(j.advance_ack(100), 100);
    assert_eq!(j.held_bytes(), 0);
}

#[test]
fn journal_caps() {
    let mut lim = JournalLimits::default();
    lim.max_stream_bytes = 100;
    lim.max_segments = 4;
    let mut j = StreamJournal::new(1, lim);
    assert!(j.record(b(1, 40), false).is_ok());
    assert!(j.record(b(1, 40), false).is_ok());
    assert!(matches!(
        j.record(b(1, 21), false),
        Err(JournalError::StreamBytesCap { .. })
    ));
    j.advance_ack(80);
    for _ in 0..4 {
        assert!(j.record(b(1, 1), false).is_ok());
    }
    assert!(matches!(
        j.record(b(1, 1), false),
        Err(JournalError::SegmentCap(4))
    ));
}

#[test]
fn journal_property_bounds() {
    let mut seed: u64 = 0xDEADBEEFCAFEF00D;
    let mut next = move || {
        seed ^= seed << 13;
        seed ^= seed >> 7;
        seed ^= seed << 17;
        seed
    };
    let lim = JournalLimits {
        max_session_bytes: 1 << 20,
        max_stream_bytes: 4096,
        max_segments: 512,
        max_session_segments: 4096,
    };
    for _round in 0..300 {
        let mut j = StreamJournal::new(1, lim);
        for _step in 0..200 {
            if next() % 2 == 0 {
                let len = 1 + (next() % 64) as usize;
                if j.held_bytes() + len <= lim.max_stream_bytes
                    && j.segments_len() < lim.max_segments
                {
                    let before = j.next_offset();
                    j.record(vec![0u8; len], false).unwrap();
                    assert_eq!(j.next_offset(), before + len as u64);
                }
            } else {
                let span = (next() % 128) as u64;
                j.advance_ack(j.acked_offset() + span);
            }
            assert!(j.held_bytes() <= lim.max_stream_bytes);
            assert!(j.acked_offset() <= j.next_offset());
            let mut first = true;
            let mut cursor = 0u64;
            for (o, p) in j.replay() {
                if first {
                    assert!(o <= j.acked_offset());
                    first = false;
                } else {
                    assert_eq!(o, cursor, "no hole between replayed segments");
                }
                cursor = o + p.len() as u64;
            }
            assert!(first || cursor == j.next_offset());
        }
    }
}

#[test]
fn gaps_of_several_streams_of_bytes_drain_in_order() {
    let mut w = RecvWindow::new();
    assert_eq!(w.feed(4, vec![2; 2], 8).unwrap(), SegmentAction::Buffered);
    assert_eq!(w.feed(8, vec![3; 2], 8).unwrap(), SegmentAction::Buffered);
    assert_eq!(w.sack_ranges(), vec![(4, 6), (8, 10)]);
    assert_eq!(
        w.feed(0, vec![1; 4], 8).unwrap(),
        SegmentAction::Deliver(vec![vec![1; 4], vec![2; 2]])
    );
    assert_eq!(w.ack_offset(), 6);
    assert_eq!(w.sack_ranges(), vec![(8, 10)]);
}

#[test]
fn journal_errors_are_worded() {
    let lim = JournalLimits {
        max_session_bytes: 10,
        max_stream_bytes: 2,
        max_segments: 1,
        max_session_segments: 1,
    };
    let mut j = StreamJournal::new(1, lim);
    j.record(vec![0; 1], false).unwrap();
    assert_eq!(
        j.record(vec![0; 1], false).unwrap_err().message(),
        "journal segment cap exceeded: 1"
    );
}

#[test]
fn all_parts_in_any_order_complete_the_stream() {
    let stream: Vec<u8> = (0..10).collect();
    let parts: [(u64, usize); 4] = [(0, 3), (3, 1), (4, 4), (8, 2)];
    // every order of the four parts, and the third twice
    for code in 0..24usize {
        let mut left: Vec<usize> = vec![0, 1, 2, 3];
        let mut order = Vec::new();
        let mut c = code;
        for n in (1..=4).rev() {
            order.push(left.remove(c % n));
            c /= n;
        }
        order.push(2);
        let mut w = RecvWindow::new();
        let mut got: Vec<u8> = Vec::new();
        for k in order {
            let (o, n) = parts[k];
            let bytes = stream[o as usize..o as usize + n].to_vec();
            match w.feed(o, bytes, 8).unwrap() {
                SegmentAction::Deliver(segments) => got.extend(segments.concat()),
                SegmentAction::OverlapMismatch { .. } => panic!("mismatch"),
                _ => {}
            }
            assert_eq!(got, stream[..w.expected_offset() as usize]);
        }
        assert_eq!(got, stream);
        assert_eq!((w.expected_offset(), w.gap_bytes()), (10, 0));
    }
}

#[test]
fn a_replay_begins_with_what_is_unacknowledged() {
    let mut j = StreamJournal::new(1, JournalLimits::default());
    for _ in 0..3 {
        j.record(b(1, 10), false).unwrap();
    }
    for a in 0..=30u64 {
        j.advance_ack(a);
        match j.replay().first() {
            Some((o, p)) => assert!(*o <= a && a < *o + p.len() as u64),
            None => assert_eq!(a, 30),
        }
    }
}
