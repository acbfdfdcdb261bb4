//! Packet type tags and the fixed-size headers of the wire format.
//! All integers travel in network (big-endian) byte order.

use vstd::prelude::*;

verus! {

/// Size in bytes of an encoded [`DataHeader`].
pub const DATA_HEADER_SIZE: usize = 17;

/// Largest payload carried by one data datagram.
pub const MAX_PAYLOAD_SIZE: usize = 1400;

/// Size in bytes of an encoded [`AckPacket`].
pub const ACK_PACKET_SIZE: usize = 4;

/// The leading byte of every datagram.
#[derive(Debug, Clone, Copy, PartialEq, Eq, Structural)]
pub enum PacketType {
    Data,
    Ack,
    IFrameRequest,
    SpsPps,
}

/// The tag byte that stands for a packet type on the wire.
pub open spec fn tag_of(t: PacketType) -> u8 {
    match t {
        PacketType::Data => 0,
        PacketType::Ack => 1,
        PacketType::IFrameRequest => 2,
        PacketType::SpsPps => 3,
    }
}

/// The packet type a tag byte stands for, if any.
pub open spec fn type_of_tag(tag: u8) -> Option<PacketType> {
    if tag == 0 {
        Some(PacketType::Data)
    } else if tag == 1 {
        Some(PacketType::Ack)
    } else if tag == 2 {
        Some(PacketType::IFrameRequest)
    } else if tag == 3 {
        Some(PacketType::SpsPps)
    } else {
        None
    }
}

impl PacketType {
    /// The tag byte written in front of a datagram of this type.
    pub fn tag(self) -> (r: u8)
        ensures
            r == tag_of(self),
    {
        match self {
            PacketType::Data => 0,
            PacketType::Ack => 1,
            PacketType::IFrameRequest => 2,
            PacketType::SpsPps => 3,
        }
    }
}

impl TryFrom<u8> for PacketType {
    type Error = ();

    fn try_from(value: u8) -> (r: Result<PacketType, ()>) {
        match value {
            0 => Ok(PacketType::Data),
            1 => Ok(PacketType::Ack),
            2 => Ok(PacketType::IFrameRequest),
            3 => Ok(PacketType::SpsPps),
            _ => Err(()),
        }
    }
}

impl vstd::std_specs::convert::TryFromSpecImpl<u8> for PacketType {
    open spec fn obeys_try_from_spec() -> bool {
        true
    }

    open spec fn try_from_spec(v: u8) -> Result<PacketType, ()> {
        match type_of_tag(v) {
            Some(t) => Ok(t),
            None => Err(()),
        }
    }
}

// ---------------------------------------------------------------------------
// Big-endian integers

/// The two big-endian bytes of `x`.
pub open spec fn be_u16(x: u16) -> Seq<u8> {
    seq![(x >> 8u16) as u8, x as u8]
}

/// The four big-endian bytes of `x`.
pub open spec fn be_u32(x: u32) -> Seq<u8> {
    seq![(x >> 24u32) as u8, (x >> 16u32) as u8, (x >> 8u32) as u8, x as u8]
}

/// The eight big-endian bytes of `x`.
pub open spec fn be_u64(x: u64) -> Seq<u8> {
    seq![
        (x >> 56u64) as u8,
        (x >> 48u64) as u8,
        (x >> 40u64) as u8,
        (x >> 32u64) as u8,
        (x >> 24u64) as u8,
        (x >> 16u64) as u8,
        (x >> 8u64) as u8,
        x as u8,
    ]
}

/// The `u16` held big-endian in the two bytes of `b` from `at`.
pub open spec fn read_be_u16(b: Seq<u8>, at: int) -> u16 {
    ((b[at] as u16) << 8u16) | (b[at + 1] as u16)
}

/// The `u32` held big-endian in the four bytes of `b` from `at`.
pub open spec fn read_be_u32(b: Seq<u8>, at: int) -> u32 {
    ((b[at] as u32) << 24u32) | ((b[at + 1] as u32) << 16u32) | ((b[at + 2] as u32) << 8u32) | (
    b[at + 3] as u32)
}

/// The `u64` held big-endian in the eight bytes of `b` from `at`.
pub open spec fn read_be_u64(b: Seq<u8>, at: int) -> u64 {
    ((b[at] as u64) << 56u64) | ((b[at + 1] as u64) << 48u64) | ((b[at + 2] as u64) << 40u64) | ((
    b[at + 3] as u64) << 32u64) | ((b[at + 4] as u64) << 24u64) | ((b[at + 5] as u64) << 16u64)
        | ((b[at + 6] as u64) << 8u64) | (b[at + 7] as u64)
}

proof fn lemma_be_u16(x: u16)
    ensures
        read_be_u16(be_u16(x), 0) == x,
{
    let b0 = (x >> 8u16) as u8;
    let b1 = x as u8;
    assert((((b0 as u16) << 8u16) | (b1 as u16)) == x) by (bit_vector)
        requires
            b0 == (x >> 8u16) as u8,
            b1 == x as u8,
    ;
}

proof fn lemma_be_u32(x: u32)
    ensures
        read_be_u32(be_u32(x), 0) == x,
{
    let b0 = (x >> 24u32) as u8;
    let b1 = (x >> 16u32) as u8;
    let b2 = (x >> 8u32) as u8;
    let b3 = x as u8;
    assert((((b0 as u32) << 24u32) | ((b1 as u32) << 16u32) | ((b2 as u32) << 8u32) | (b3 as u32))
        == x) by (bit_vector)
        requires
            b0 == (x >> 24u32) as u8,
            b1 == (x >> 16u32) as u8,
            b2 == (x >> 8u32) as u8,
            b3 == x as u8,
    ;
}

proof fn lemma_be_u64(x: u64)
    ensures
        read_be_u64(be_u64(x), 0) == x,
{
    let b0 = (x >> 56u64) as u8;
    let b1 = (x >> 48u64) as u8;
    let b2 = (x >> 40u64) as u8;
    let b3 = (x >> 32u64) as u8;
    let b4 = (x >> 24u64) as u8;
    let b5 = (x >> 16u64) as u8;
    let b6 = (x >> 8u64) as u8;
    let b7 = x as u8;
    assert((((b0 as u64) << 56u64) | ((b1 as u64) << 48u64) | ((b2 as u64) << 40u64) | ((
    b3 as u64) << 32u64) | ((b4 as u64) << 24u64) | ((b5 as u64) << 16u64) | ((b6 as u64) << 8u64)
        | (b7 as u64)) == x) by (bit_vector)
        requires
            b0 == (x >> 56u64) as u8,
            b1 == (x >> 48u64) as u8,
            b2 == (x >> 40u64) as u8,
            b3 == (x >> 32u64) as u8,
            b4 == (x >> 24u64) as u8,
            b5 == (x >> 16u64) as u8,
            b6 == (x >> 8u64) as u8,
            b7 == x as u8,
    ;
}


// ---------------------------------------------------------------------------
// Data header

/// The fixed header in front of every data payload.
#[derive(Debug, Clone, Copy, PartialEq, Eq, Structural)]
pub struct DataHeader {
    pub frame_id: u32,
    /// Capture time of the frame, in nanoseconds.
    pub capture_timestamp_ns: u64,
    pub packet_id: u16,
    pub total_packets: u16,
    pub is_key_frame: u8,
}

/// The 17 bytes that encode a data header.
pub open spec fn encode_header(h: DataHeader) -> Seq<u8> {
    be_u32(h.frame_id) + be_u64(h.capture_timestamp_ns) + be_u16(h.packet_id) + be_u16(
        h.total_packets,
    ) + seq![h.is_key_frame]
}

/// The header read from the first 17 bytes of `b`.
pub open spec fn decode_header(b: Seq<u8>) -> DataHeader {
    DataHeader {
        frame_id: read_be_u32(b, 0),
        capture_timestamp_ns: read_be_u64(b, 4),
        packet_id: read_be_u16(b, 12),
        total_packets: read_be_u16(b, 14),
        is_key_frame: b[16],
    }
}

/// Decoding an encoded header gives the header back, whatever bytes follow it.
pub proof fn lemma_header_round_trip(h: DataHeader, rest: Seq<u8>)
    ensures
        encode_header(h).len() == DATA_HEADER_SIZE,
        decode_header(encode_header(h)) == h,
        decode_header(encode_header(h) + rest) == h,
{
    let e = encode_header(h);
    lemma_be_u32(h.frame_id);
    lemma_be_u64(h.capture_timestamp_ns);
    lemma_be_u16(h.packet_id);
    lemma_be_u16(h.total_packets);
    assert(read_be_u32(e, 0) == read_be_u32(be_u32(h.frame_id), 0));
    assert(read_be_u64(e, 4) == read_be_u64(be_u64(h.capture_timestamp_ns), 0));
    assert(read_be_u16(e, 12) == read_be_u16(be_u16(h.packet_id), 0));
    assert(read_be_u16(e, 14) == read_be_u16(be_u16(h.total_packets), 0));
    let f = e + rest;
    assert(f.subrange(0, 17) == e);
    assert(read_be_u32(f, 0) == read_be_u32(e, 0));
    assert(read_be_u64(f, 4) == read_be_u64(e, 4));
    assert(read_be_u16(f, 12) == read_be_u16(e, 12));
    assert(read_be_u16(f, 14) == read_be_u16(e, 14));
    assert(f[16] == e[16]);
}

impl DataHeader {
    /// The header in wire form.
    pub fn to_bytes(&self) -> (r: [u8; DATA_HEADER_SIZE])
        ensures
            r@ == encode_header(*self),
    {
        let f = self.frame_id;
        let t = self.capture_timestamp_ns;
        let p = self.packet_id;
        let n = self.total_packets;
        let r = [
            (f >> 24u32) as u8,
            (f >> 16u32) as u8,
            (f >> 8u32) as u8,
            f as u8,
            (t >> 56u64) as u8,
            (t >> 48u64) as u8,
            (t >> 40u64) as u8,
            (t >> 32u64) as u8,
            (t >> 24u64) as u8,
            (t >> 16u64) as u8,
            (t >> 8u64) as u8,
            t as u8,
            (p >> 8u16) as u8,
            p as u8,
            (n >> 8u16) as u8,
            n as u8,
            self.is_key_frame,
        ];
        assert(r@ =~= encode_header(*self));
        r
    }

    /// Reads a header from the front of `bytes`; `None` when fewer than
    /// `DATA_HEADER_SIZE` bytes are given.
    pub fn from_bytes(bytes: &[u8]) -> (r: Option<DataHeader>)
        ensures
            bytes@.len() < DATA_HEADER_SIZE ==> r is None,
            bytes@.len() >= DATA_HEADER_SIZE ==> r == Some(decode_header(bytes@)),
    {
        if bytes.len() < DATA_HEADER_SIZE {
            return None;
        }
        let frame_id = ((bytes[0] as u32) << 24u32) | ((bytes[1] as u32) << 16u32) | ((
        bytes[2] as u32) << 8u32) | (bytes[3] as u32);
        let capture_timestamp_ns = ((bytes[4] as u64) << 56u64) | ((bytes[5] as u64) << 48u64) | ((
        bytes[6] as u64) << 40u64) | ((bytes[7] as u64) << 32u64) | ((bytes[8] as u64) << 24u64)
            | ((bytes[9] as u64) << 16u64) | ((bytes[10] as u64) << 8u64) | (bytes[11] as u64);
        let packet_id = ((bytes[12] as u16) << 8u16) | (bytes[13] as u16);
        let total_packets = ((bytes[14] as u16) << 8u16) | (bytes[15] as u16);
        let is_key_frame = bytes[16];
        Some(DataHeader { frame_id, capture_timestamp_ns, packet_id, total_packets, is_key_frame })
    }
}

// ---------------------------------------------------------------------------
// Ack

/// Acknowledgement of a completely received key frame.
#[derive(Debug, Clone, Copy, PartialEq, Eq, Structural)]
pub struct AckPacket {
    pub frame_id: u32,
}

/// The 4 bytes that encode an ack body.
pub open spec fn encode_ack(a: AckPacket) -> Seq<u8> {
    be_u32(a.frame_id)
}

/// The ack read from the first 4 bytes of `b`.
pub open spec fn decode_ack(b: Seq<u8>) -> AckPacket {
    AckPacket { frame_id: read_be_u32(b, 0) }
}

/// Decoding an encoded ack gives the ack back, whatever bytes follow it.
pub proof fn lemma_ack_round_trip(a: AckPacket, rest: Seq<u8>)
    ensures
        encode_ack(a).len() == ACK_PACKET_SIZE,
        decode_ack(encode_ack(a)) == a,
        decode_ack(encode_ack(a) + rest) == a,
{
    lemma_be_u32(a.frame_id);
    let e = encode_ack(a);
    let f = e + rest;
    assert(read_be_u32(f, 0) == read_be_u32(e, 0));
}

impl AckPacket {
    /// The ack body in wire form.
    pub fn to_bytes(&self) -> (r: [u8; ACK_PACKET_SIZE])
        ensures
            r@ == encode_ack(*self),
    {
        let f = self.frame_id;
        let r = [(f >> 24u32) as u8, (f >> 16u32) as u8, (f >> 8u32) as u8, f as u8];
        assert(r@ =~= encode_ack(*self));
        r
    }

    /// Reads an ack body from the front of `bytes`; `None` when fewer than
    /// `ACK_PACKET_SIZE` bytes are given.
    pub fn from_bytes(bytes: &[u8]) -> (r: Option<AckPacket>)
        ensures
            bytes@.len() < ACK_PACKET_SIZE ==> r is None,
            bytes@.len() >= ACK_PACKET_SIZE ==> r == Some(decode_ack(bytes@)),
    {
        if bytes.len() < ACK_PACKET_SIZE {
            return None;
        }
        let frame_id = ((bytes[0] as u32) << 24u32) | ((bytes[1] as u32) << 16u32) | ((
        bytes[2] as u32) << 8u32) | (bytes[3] as u32);
        Some(AckPacket { frame_id })
    }
}

} // verus!
