use neurocam::{
    ack_datagram, classify, data_datagram, iframe_request_datagram, parameter_set_datagram,
    AckPacket, DataHeader, DecodeError, Packet, PacketType, ACK_PACKET_SIZE, DATA_HEADER_SIZE,
};

#[test]
fn test_data_header_serialization() {
    let header = DataHeader {
        frame_id: 12345,
        capture_timestamp_ns: 9876543210,
        packet_id: 1,
        total_packets: 10,
        is_key_frame: 1,
    };
    let bytes = header.to_bytes();
    let reconstructed = DataHeader::from_bytes(&bytes).unwrap();
    assert_eq!(header, reconstructed);
}

#[test]
fn data_header_bytes_are_big_endian() {
    let header = DataHeader {
        frame_id: 0x0102_0304,
        capture_timestamp_ns: 0x1112_1314_1516_1718,
        packet_id: 0x2122,
        total_packets: 0x3132,
        is_key_frame: 1,
    };
    assert_eq!(
        header.to_bytes(),
        [
            0x01, 0x02, 0x03, 0x04, 0x11, 0x12, 0x13, 0x14, 0x15, 0x16, 0x17, 0x18, 0x21, 0x22,
            0x31, 0x32, 0x01
        ]
    );
}

#[test]
fn data_header_too_short_is_rejected() {
    let bytes = [0u8; DATA_HEADER_SIZE - 1];
    assert_eq!(DataHeader::from_bytes(&bytes), None);
    assert_eq!(DataHeader::from_bytes(&[]), None);
}

#[test]
fn data_header_ignores_trailing_bytes() {
    let header = DataHeader {
        frame_id: u32::MAX,
        capture_timestamp_ns: u64::MAX,
        packet_id: u16::MAX,
        total_packets: u16::MAX,
        is_key_frame: 0,
    };
    let mut bytes = header.to_bytes().to_vec();
    bytes.extend_from_slice(&[9, 9, 9]);
    assert_eq!(DataHeader::from_bytes(&bytes), Some(header));
}

#[test]
fn ack_round_trip() {
    let ack = AckPacket { frame_id: 0xDEAD_BEEF };
    let bytes = ack.to_bytes();
    assert_eq!(bytes, [0xDE, 0xAD, 0xBE, 0xEF]);
    assert_eq!(AckPacket::from_bytes(&bytes), Some(ack));
    assert_eq!(AckPacket::from_bytes(&bytes[..ACK_PACKET_SIZE - 1]), None);
}

#[test]
fn packet_type_tags() {
    assert_eq!(PacketType::try_from(0u8), Ok(PacketType::Data));
    assert_eq!(PacketType::try_from(1u8), Ok(PacketType::Ack));
    assert_eq!(PacketType::try_from(2u8), Ok(PacketType::IFrameRequest));
    assert_eq!(PacketType::try_from(3u8), Ok(PacketType::SpsPps));
    assert_eq!(PacketType::try_from(4u8), Err(()));
    assert_eq!(PacketType::SpsPps.tag(), 3);
    assert_eq!(PacketType::Data.tag(), 0);
}

#[test]
fn classify_round_trips_every_packet_type() {
    let header = DataHeader {
        frame_id: 7,
        capture_timestamp_ns: 123,
        packet_id: 0,
        total_packets: 1,
        is_key_frame: 0,
    };
    let d = data_datagram(&header, &[5, 6, 7]);
    assert_eq!(d.len(), 1 + DATA_HEADER_SIZE + 3);
    assert_eq!(d[0], 0);
    assert_eq!(
        classify(&d),
        Ok(Packet::Data { header, payload: vec![5, 6, 7] })
    );
    let a = ack_datagram(42);
    assert_eq!(a, vec![1, 0, 0, 0, 42]);
    assert_eq!(classify(&a), Ok(Packet::Ack(AckPacket { frame_id: 42 })));
    let r = iframe_request_datagram();
    assert_eq!(r, vec![2]);
    assert_eq!(classify(&r), Ok(Packet::IFrameRequest));
    let p = parameter_set_datagram(&[0, 0, 0, 1, 0x67]);
    assert_eq!(p, vec![3, 0, 0, 0, 1, 0x67]);
    assert_eq!(classify(&p), Ok(Packet::ParameterSet(vec![0, 0, 0, 1, 0x67])));
}

#[test]
fn classify_rejects_malformed_datagrams() {
    assert_eq!(classify(&[]), Err(DecodeError::Empty));
    assert_eq!(classify(&[9, 1, 2]), Err(DecodeError::UnknownType(9)));
    assert_eq!(classify(&[0; 17]), Err(DecodeError::MalformedHeader));
    assert_eq!(classify(&[1, 0, 0]), Err(DecodeError::MalformedHeader));
    assert_eq!(classify(&[3]), Ok(Packet::ParameterSet(vec![])));
}
