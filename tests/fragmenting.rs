use neurocam::{
    classify, fragment_frame, DataHeader, FragmentError, Packet, MAX_FRAGMENTS, MAX_PAYLOAD_SIZE,
};

fn frame_of(len: usize) -> Vec<u8> {
    (0..len).map(|i| (i % 251) as u8).collect()
}

fn decode_all(datagrams: &[Vec<u8>]) -> Vec<(DataHeader, Vec<u8>)> {
    datagrams
        .iter()
        .map(|d| match classify(d) {
            Ok(Packet::Data { header, payload }) => (header, payload),
            other => panic!("not a data packet: {:?}", other),
        })
        .collect()
}

#[test]
fn single_fragment_p_frame() {
    let frame = frame_of(800);
    let datagrams = fragment_frame(&frame, 7, false, 123).unwrap();
    assert_eq!(datagrams.len(), 1);
    let decoded = decode_all(&datagrams);
    assert_eq!(
        decoded[0].0,
        DataHeader {
            frame_id: 7,
            capture_timestamp_ns: 123,
            packet_id: 0,
            total_packets: 1,
            is_key_frame: 0
        }
    );
    assert_eq!(decoded[0].1, frame);
}

#[test]
fn fragmented_i_frame_chunk_sizes() {
    let frame = frame_of(3500);
    let datagrams = fragment_frame(&frame, 10, true, 55).unwrap();
    let decoded = decode_all(&datagrams);
    let sizes: Vec<usize> = decoded.iter().map(|(_, p)| p.len()).collect();
    assert_eq!(sizes, vec![1400, 1400, 700]);
    for (i, (h, _)) in decoded.iter().enumerate() {
        assert_eq!(h.packet_id as usize, i);
        assert_eq!(h.total_packets, 3);
        assert_eq!(h.is_key_frame, 1);
        assert_eq!(h.frame_id, 10);
    }
}

#[test]
fn chunks_partition_the_frame() {
    for len in [1usize, 1399, 1400, 1401, 2800, 2801, 10_000] {
        let frame = frame_of(len);
        let decoded = decode_all(&fragment_frame(&frame, 1, false, 0).unwrap());
        assert_eq!(decoded.len(), (len + MAX_PAYLOAD_SIZE - 1) / MAX_PAYLOAD_SIZE);
        let mut joined = Vec::new();
        for (_, p) in &decoded {
            assert!(!p.is_empty() && p.len() <= MAX_PAYLOAD_SIZE);
            joined.extend_from_slice(p);
        }
        assert_eq!(joined, frame);
    }
}

#[test]
fn empty_frame_is_an_error() {
    assert_eq!(fragment_frame(&[], 0, true, 0), Err(FragmentError::EmptyFrame));
}

#[test]
fn oversized_frame_is_an_error() {
    let frame = vec![0u8; MAX_FRAGMENTS * MAX_PAYLOAD_SIZE + 1];
    assert_eq!(fragment_frame(&frame, 0, false, 0), Err(FragmentError::FrameTooLarge));
}
