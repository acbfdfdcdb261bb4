use neurocam::{
    classify, fragment_frame, DataHeader, ExpiredFrame, IngestOutcome, Packet, Reassembler,
    FRAME_TIMEOUT_MS,
};

fn frame_of(len: usize) -> Vec<u8> {
    (0..len).map(|i| (i * 7 % 256) as u8).collect()
}

fn packets(frame: &[u8], frame_id: u32, key: bool, ts: u64) -> Vec<(DataHeader, Vec<u8>)> {
    fragment_frame(frame, frame_id, key, ts)
        .unwrap()
        .iter()
        .map(|d| match classify(d) {
            Ok(Packet::Data { header, payload }) => (header, payload),
            other => panic!("not a data packet: {:?}", other),
        })
        .collect()
}

#[test]
fn out_of_order_duplicated_delivery() {
    let frame = frame_of(4 * 1400 - 100);
    let pkts = packets(&frame, 11, false, 9);
    assert_eq!(pkts.len(), 4);
    let mut r = Reassembler::new();
    let order = [2usize, 0, 2, 3, 1, 0];
    let mut outcomes = Vec::new();
    let mut count_before_completion = None;
    for (k, &i) in order.iter().enumerate() {
        if k == 4 {
            count_before_completion = r.received_count(11);
        }
        outcomes.push(r.ingest(&pkts[i].0, pkts[i].1.clone(), 0));
    }
    assert_eq!(outcomes[0], IngestOutcome::Stored);
    assert_eq!(outcomes[1], IngestOutcome::Stored);
    assert_eq!(outcomes[2], IngestOutcome::DuplicateIgnored);
    assert_eq!(outcomes[3], IngestOutcome::Stored);
    assert_eq!(
        outcomes[4],
        IngestOutcome::Completed { frame: frame.clone(), is_key_frame: false, capture_timestamp_ns: 9 }
    );
    assert_eq!(count_before_completion, Some(3));
    let completions = outcomes
        .iter()
        .filter(|o| matches!(o, IngestOutcome::Completed { .. }))
        .count();
    assert_eq!(completions, 1);
}

#[test]
fn every_order_of_three_fragments_completes_once() {
    let frame = frame_of(3500);
    let pkts = packets(&frame, 5, true, 77);
    let orders = [[0, 1, 2], [0, 2, 1], [1, 0, 2], [1, 2, 0], [2, 0, 1], [2, 1, 0]];
    for order in orders {
        let mut r = Reassembler::new();
        let mut completed = Vec::new();
        for (k, &i) in order.iter().enumerate() {
            match r.ingest(&pkts[i].0, pkts[i].1.clone(), k as u64) {
                IngestOutcome::Completed { frame, is_key_frame, capture_timestamp_ns } => {
                    completed.push((k, frame, is_key_frame, capture_timestamp_ns))
                }
                IngestOutcome::Stored => {}
                other => panic!("unexpected {:?}", other),
            }
        }
        assert_eq!(completed, vec![(2, frame.clone(), true, 77)]);
        assert_eq!(r.len(), 0);
    }
}

#[test]
fn duplicates_fill_a_slot_once() {
    let frame = frame_of(3000);
    let pkts = packets(&frame, 2, false, 0);
    let mut r = Reassembler::new();
    assert_eq!(r.ingest(&pkts[1].0, pkts[1].1.clone(), 0), IngestOutcome::Stored);
    for _ in 0..5 {
        assert_eq!(
            r.ingest(&pkts[1].0, vec![0xFF; 3], 1),
            IngestOutcome::DuplicateIgnored
        );
        assert_eq!(r.received_count(2), Some(1));
    }
    r.ingest(&pkts[0].0, pkts[0].1.clone(), 2);
    match r.ingest(&pkts[2].0, pkts[2].1.clone(), 3) {
        IngestOutcome::Completed { frame: got, .. } => assert_eq!(got, frame),
        other => panic!("unexpected {:?}", other),
    }
}

#[test]
fn invalid_packet_id_is_dropped() {
    let mut r = Reassembler::new();
    let h = DataHeader {
        frame_id: 1,
        capture_timestamp_ns: 0,
        packet_id: 2,
        total_packets: 2,
        is_key_frame: 0,
    };
    assert_eq!(r.ingest(&h, vec![1], 0), IngestOutcome::InvalidPacketId);
    assert_eq!(r.len(), 0);
    let zero = DataHeader { total_packets: 0, packet_id: 0, ..h };
    assert_eq!(r.ingest(&zero, vec![1], 0), IngestOutcome::InvalidPacketId);
    let ok = DataHeader { packet_id: 0, ..h };
    assert_eq!(r.ingest(&ok, vec![1], 0), IngestOutcome::Stored);
    let bad = DataHeader { packet_id: 7, total_packets: 9, ..h };
    assert_eq!(r.ingest(&bad, vec![1], 0), IngestOutcome::InvalidPacketId);
    assert_eq!(r.received_count(1), Some(1));
}

#[test]
fn metadata_comes_from_the_first_packet() {
    let mut r = Reassembler::new();
    let first = DataHeader {
        frame_id: 4,
        capture_timestamp_ns: 100,
        packet_id: 1,
        total_packets: 2,
        is_key_frame: 1,
    };
    let second = DataHeader { packet_id: 0, capture_timestamp_ns: 999, is_key_frame: 0, ..first };
    assert_eq!(r.ingest(&first, vec![3, 4], 0), IngestOutcome::Stored);
    assert_eq!(
        r.ingest(&second, vec![1, 2], 0),
        IngestOutcome::Completed { frame: vec![1, 2, 3, 4], is_key_frame: true, capture_timestamp_ns: 100 }
    );
}

#[test]
fn sweep_removes_only_stale_frames() {
    let mut r = Reassembler::new();
    let h = |id: u32, key: u8| DataHeader {
        frame_id: id,
        capture_timestamp_ns: 0,
        packet_id: 0,
        total_packets: 2,
        is_key_frame: key,
    };
    r.ingest(&h(30, 0), vec![1], 1000);
    r.ingest(&h(31, 1), vec![1], 1000);
    r.ingest(&h(32, 0), vec![1], 4000);
    assert!(r.sweep(1000 + FRAME_TIMEOUT_MS).is_empty());
    let mut expired = r.sweep(1001 + FRAME_TIMEOUT_MS);
    expired.sort_by_key(|e| e.frame_id);
    assert_eq!(
        expired,
        vec![
            ExpiredFrame { frame_id: 30, is_key_frame: false },
            ExpiredFrame { frame_id: 31, is_key_frame: true }
        ]
    );
    assert_eq!(r.len(), 1);
    assert_eq!(r.received_count(32), Some(1));
    assert_eq!(r.received_count(30), None);
}

#[test]
fn clear_drops_everything() {
    let mut r = Reassembler::new();
    let h = DataHeader {
        frame_id: 8,
        capture_timestamp_ns: 0,
        packet_id: 0,
        total_packets: 3,
        is_key_frame: 0,
    };
    r.ingest(&h, vec![1], 0);
    r.clear();
    assert_eq!(r.len(), 0);
    assert_eq!(r.ingest(&h, vec![1], 0), IngestOutcome::Stored);
}
