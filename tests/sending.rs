use neurocam::{
    ack_datagram, fragment_frame, iframe_request_datagram, parameter_set_datagram,
    ControlOutcome, FragmentError, Sender, MAX_RETRIES, RETRANSMISSION_TIMEOUT_MS,
};

#[test]
fn frame_ids_increase_by_one() {
    let mut s = Sender::new();
    let mut ids = Vec::new();
    for i in 0..5u64 {
        let out = s.send_frame(&[1, 2, 3], i % 2 == 0, i, i).unwrap();
        ids.push(out.frame_id);
    }
    assert_eq!(ids, vec![0, 1, 2, 3, 4]);
    assert_eq!(s.send_frame(&[], true, 0, 0).err(), Some(FragmentError::EmptyFrame));
    assert_eq!(s.next_frame_id(), 5);
    assert_eq!(s.send_frame(&[9], false, 0, 0).unwrap().frame_id, 5);
}

#[test]
fn sent_datagrams_are_the_fragments() {
    let mut s = Sender::new();
    let frame: Vec<u8> = (0..3500).map(|i| i as u8).collect();
    let out = s.send_frame(&frame, true, 42, 0).unwrap();
    assert_eq!(out.datagrams, fragment_frame(&frame, 0, true, 42).unwrap());
    assert_eq!(s.unacked_count(), 1);
    let p = s.send_frame(&frame, false, 43, 0).unwrap();
    assert_eq!(p.datagrams, fragment_frame(&frame, 1, false, 43).unwrap());
    assert_eq!(s.unacked_count(), 1);
}

fn sender_at(frame_id: u32) -> Sender {
    let mut s = Sender::new();
    for _ in 0..frame_id {
        s.send_frame(&[0], false, 0, 0).unwrap();
    }
    s
}

#[test]
fn acked_key_frame_is_confirmed() {
    let mut s = sender_at(10);
    let frame = vec![7u8; 3500];
    let out = s.send_frame(&frame, true, 1, 1000).unwrap();
    assert_eq!(out.frame_id, 10);
    assert_eq!(out.datagrams.len(), 3);
    assert_eq!(s.on_control_datagram(&ack_datagram(10)), ControlOutcome::Acked(10));
    let report = s.retransmit_tick(1000 + RETRANSMISSION_TIMEOUT_MS + 1);
    assert_eq!(report.confirmed, vec![10]);
    assert!(report.retransmit.is_empty());
    assert!(report.given_up.is_empty());
    assert_eq!(s.unacked_count(), 0);
    let later = s.retransmit_tick(100_000);
    assert!(later.retransmit.is_empty());
}

#[test]
fn lost_i_frame_is_retransmitted_then_given_up() {
    let mut s = sender_at(20);
    let frame = vec![3u8; 2000];
    let out = s.send_frame(&frame, true, 5, 0).unwrap();
    assert_eq!(out.frame_id, 20);
    assert_eq!(out.datagrams.len(), 2);
    let early = s.retransmit_tick(RETRANSMISSION_TIMEOUT_MS);
    assert!(early.retransmit.is_empty());
    let mut now = 0u64;
    for _ in 0..MAX_RETRIES {
        now += RETRANSMISSION_TIMEOUT_MS + 1;
        let r = s.retransmit_tick(now);
        assert_eq!(r.retransmit, out.datagrams);
        assert!(r.given_up.is_empty());
    }
    now += RETRANSMISSION_TIMEOUT_MS + 1;
    let last = s.retransmit_tick(now);
    assert!(last.retransmit.is_empty());
    assert_eq!(last.given_up, vec![20]);
    assert_eq!(s.unacked_count(), 0);
}

#[test]
fn retry_restarts_the_timeout() {
    let mut s = Sender::new();
    s.send_frame(&[1], true, 0, 0).unwrap();
    assert_eq!(s.retransmit_tick(501).retransmit.len(), 1);
    assert!(s.retransmit_tick(1001).retransmit.is_empty());
    assert_eq!(s.retransmit_tick(1002).retransmit.len(), 1);
}

#[test]
fn key_frame_request_is_reported_once_per_datagram() {
    let mut s = Sender::new();
    assert_eq!(
        s.on_control_datagram(&iframe_request_datagram()),
        ControlOutcome::KeyFrameRequested
    );
    assert_eq!(
        s.on_control_datagram(&iframe_request_datagram()),
        ControlOutcome::KeyFrameRequested
    );
    assert_eq!(s.on_control_datagram(&parameter_set_datagram(&[1])), ControlOutcome::Ignored);
    assert_eq!(s.on_control_datagram(&[]), ControlOutcome::Ignored);
    assert_eq!(s.on_control_datagram(&[1, 0]), ControlOutcome::Ignored);
}

#[test]
fn abandoned_frame_is_not_retransmitted() {
    let mut s = Sender::new();
    let out = s.send_frame(&[1, 2], true, 0, 0).unwrap();
    s.abandon_frame(out.frame_id);
    assert_eq!(s.unacked_count(), 0);
    assert!(s.retransmit_tick(10_000).retransmit.is_empty());
}
