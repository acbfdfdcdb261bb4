use neurocam::{
    ack_datagram, fragment_frame, iframe_request_datagram, parameter_set_datagram,
    ControlOutcome, Receiver, ReceiverAction, Sender, FRAME_TIMEOUT_MS,
};

const PEER: u128 = 0xC0A8_0103;

fn frame_of(len: usize, seed: u8) -> Vec<u8> {
    (0..len).map(|i| (i as u8).wrapping_mul(31).wrapping_add(seed)).collect()
}

/// A receiver that has already heard from `PEER`.
fn receiver() -> Receiver {
    let mut r = Receiver::new();
    let first = r.on_datagram(PEER, &[2], 0);
    assert_eq!(first, vec![ReceiverAction::Reply(iframe_request_datagram())]);
    r
}

#[test]
fn happy_path_single_fragment_p_frame() {
    let mut r = receiver();
    let frame = frame_of(800, 1);
    let datagrams = fragment_frame(&frame, 7, false, 123).unwrap();
    assert_eq!(datagrams.len(), 1);
    let actions = r.on_datagram(PEER, &datagrams[0], 10);
    assert_eq!(
        actions,
        vec![ReceiverAction::Deliver { frame, capture_timestamp_ns: 123 }]
    );
}

#[test]
fn fragmented_i_frame_is_delivered_and_acked() {
    let mut sender = Sender::new();
    for _ in 0..10 {
        sender.send_frame(&[0], false, 0, 0).unwrap();
    }
    let frame = frame_of(3500, 2);
    let out = sender.send_frame(&frame, true, 77, 0).unwrap();
    assert_eq!(out.frame_id, 10);
    let mut r = receiver();
    let mut actions = Vec::new();
    for d in &out.datagrams {
        actions.extend(r.on_datagram(PEER, d, 5));
    }
    assert_eq!(
        actions,
        vec![
            ReceiverAction::Deliver { frame, capture_timestamp_ns: 77 },
            ReceiverAction::Reply(ack_datagram(10)),
        ]
    );
    assert_eq!(sender.on_control_datagram(&ack_datagram(10)), ControlOutcome::Acked(10));
    let report = sender.retransmit_tick(10_000);
    assert_eq!(report.confirmed, vec![10]);
    assert_eq!(sender.unacked_count(), 0);
}

#[test]
fn first_datagram_requests_a_key_frame() {
    let mut r = Receiver::new();
    let d = fragment_frame(&[1, 2, 3], 0, false, 0).unwrap();
    let actions = r.on_datagram(PEER, &d[0], 0);
    assert_eq!(
        actions,
        vec![
            ReceiverAction::Reply(iframe_request_datagram()),
            ReceiverAction::Deliver { frame: vec![1, 2, 3], capture_timestamp_ns: 0 },
        ]
    );
    assert!(r.on_datagram(PEER, &[1, 0, 0, 0, 1], 0).is_empty());
}

#[test]
fn new_peer_flushes_and_restarts() {
    let mut r = receiver();
    let frame = frame_of(3000, 3);
    let d = fragment_frame(&frame, 4, false, 0).unwrap();
    assert!(r.on_datagram(PEER, &d[0], 0).is_empty());
    assert_eq!(r.pending_frames(), 1);
    let actions = r.on_datagram(PEER + 1, &d[1], 0);
    assert_eq!(
        actions,
        vec![ReceiverAction::RestartSink, ReceiverAction::Reply(iframe_request_datagram())]
    );
    assert_eq!(r.pending_frames(), 1);
    assert!(r.on_datagram(PEER + 1, &d[2], 0).is_empty());
}

#[test]
fn peer_initiated_recovery() {
    let mut r = receiver();
    let frame = frame_of(3000, 4);
    let d = fragment_frame(&frame, 30, false, 0).unwrap();
    r.on_datagram(PEER, &d[0], 1000);
    let (none, no_requests) = r.on_sweep(1000 + FRAME_TIMEOUT_MS);
    assert!(none.is_empty() && no_requests.is_empty());
    let (expired, requests) = r.on_sweep(1001 + FRAME_TIMEOUT_MS);
    assert_eq!(expired.len(), 1);
    assert_eq!(expired[0].frame_id, 30);
    assert_eq!(requests, vec![iframe_request_datagram()]);
    assert_eq!(r.pending_frames(), 0);
    let mut sender = Sender::new();
    assert_eq!(
        sender.on_control_datagram(&requests[0]),
        ControlOutcome::KeyFrameRequested
    );
}

#[test]
fn expired_key_frame_gets_no_request() {
    let mut r = receiver();
    let d = fragment_frame(&frame_of(3000, 5), 31, true, 0).unwrap();
    r.on_datagram(PEER, &d[0], 0);
    let (expired, requests) = r.on_sweep(FRAME_TIMEOUT_MS + 1);
    assert_eq!(expired.len(), 1);
    assert!(expired[0].is_key_frame);
    assert!(requests.is_empty());
}

#[test]
fn parameter_set_injection() {
    let mut r = receiver();
    let ps = vec![0, 0, 0, 1, 0x67, 0x42, 0, 0, 0, 1, 0x68];
    assert!(r.on_datagram(PEER, &parameter_set_datagram(&ps), 0).is_empty());
    for id in 1..=4u32 {
        let k = frame_of(100, id as u8);
        let d = fragment_frame(&k, id, true, id as u64).unwrap();
        let actions = r.on_datagram(PEER, &d[0], 0);
        let expected = if id <= 3 { [ps.clone(), k.clone()].concat() } else { k.clone() };
        assert_eq!(
            actions,
            vec![
                ReceiverAction::Deliver { frame: expected, capture_timestamp_ns: id as u64 },
                ReceiverAction::Reply(ack_datagram(id)),
            ]
        );
    }
}

#[test]
fn non_key_frames_are_never_prepended() {
    let mut r = receiver();
    r.on_datagram(PEER, &parameter_set_datagram(&[9, 9]), 0);
    let d = fragment_frame(&[1, 2], 5, false, 0).unwrap();
    assert_eq!(
        r.on_datagram(PEER, &d[0], 0),
        vec![ReceiverAction::Deliver { frame: vec![1, 2], capture_timestamp_ns: 0 }]
    );
    let k = fragment_frame(&[3], 6, true, 0).unwrap();
    assert_eq!(
        r.on_datagram(PEER, &k[0], 0)[0],
        ReceiverAction::Deliver { frame: vec![9, 9, 3], capture_timestamp_ns: 0 }
    );
}

#[test]
fn same_parameter_set_does_not_restore_budget() {
    let mut r = receiver();
    let ps = parameter_set_datagram(&[7]);
    r.on_datagram(PEER, &ps, 0);
    for id in 0..3u32 {
        let k = fragment_frame(&[1], id, true, 0).unwrap();
        r.on_datagram(PEER, &k[0], 0);
    }
    r.on_datagram(PEER, &ps, 0);
    let k = fragment_frame(&[1], 3, true, 0).unwrap();
    assert_eq!(
        r.on_datagram(PEER, &k[0], 0)[0],
        ReceiverAction::Deliver { frame: vec![1], capture_timestamp_ns: 0 }
    );
    r.on_datagram(PEER, &parameter_set_datagram(&[8]), 0);
    let k = fragment_frame(&[1], 4, true, 0).unwrap();
    assert_eq!(
        r.on_datagram(PEER, &k[0], 0)[0],
        ReceiverAction::Deliver { frame: vec![8, 1], capture_timestamp_ns: 0 }
    );
}

#[test]
fn empty_key_frame_is_acked_but_not_delivered() {
    let mut r = receiver();
    let h = neurocam::DataHeader {
        frame_id: 12,
        capture_timestamp_ns: 0,
        packet_id: 0,
        total_packets: 1,
        is_key_frame: 1,
    };
    let d = neurocam::data_datagram(&h, &[]);
    assert_eq!(r.on_datagram(PEER, &d, 0), vec![ReceiverAction::Reply(ack_datagram(12))]);
}

#[test]
fn malformed_and_control_datagrams_are_ignored() {
    let mut r = receiver();
    assert!(r.on_datagram(PEER, &[], 0).is_empty());
    assert!(r.on_datagram(PEER, &[7, 7], 0).is_empty());
    assert!(r.on_datagram(PEER, &[0, 1, 2], 0).is_empty());
    assert!(r.on_datagram(PEER, &ack_datagram(3), 0).is_empty());
    assert!(r.on_datagram(PEER, &iframe_request_datagram(), 0).is_empty());
}
