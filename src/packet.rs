//! Whole datagrams: a tag byte followed by the body of its packet type.

use vstd::prelude::*;
use crate::protocol::{
    decode_ack, decode_header, encode_ack, encode_header, lemma_ack_round_trip,
    lemma_header_round_trip, tag_of, type_of_tag, AckPacket, DataHeader, PacketType,
    ACK_PACKET_SIZE, DATA_HEADER_SIZE,
};

verus! {

/// A decoded datagram.
#[derive(Debug, PartialEq, Eq)]
pub enum Packet {
    Data { header: DataHeader, payload: Vec<u8> },
    Ack(AckPacket),
    IFrameRequest,
    ParameterSet(Vec<u8>),
}

/// What a datagram holds, with its byte buffers as sequences.
pub enum PacketView {
    Data { header: DataHeader, payload: Seq<u8> },
    Ack(AckPacket),
    IFrameRequest,
    ParameterSet(Seq<u8>),
}

impl View for Packet {
    type V = PacketView;

    open spec fn view(&self) -> PacketView {
        match self {
            Packet::Data { header, payload } => PacketView::Data {
                header: *header,
                payload: payload@,
            },
            Packet::Ack(a) => PacketView::Ack(*a),
            Packet::IFrameRequest => PacketView::IFrameRequest,
            Packet::ParameterSet(b) => PacketView::ParameterSet(b@),
        }
    }
}

/// Why a datagram was rejected.
#[derive(Debug, Clone, Copy, PartialEq, Eq, Structural)]
pub enum DecodeError {
    /// The datagram holds no bytes at all.
    Empty,
    /// The leading byte is no known packet type.
    UnknownType(u8),
    /// The datagram is shorter than the header its type declares.
    MalformedHeader,
}

/// Datagram length of a data packet's tag and header.
pub const DATA_PREFIX_SIZE: usize = 18;

/// What a datagram decodes to.
pub open spec fn parse_datagram(d: Seq<u8>) -> Result<PacketView, DecodeError> {
    if d.len() == 0 {
        Err(DecodeError::Empty)
    } else {
        match type_of_tag(d[0]) {
            None => Err(DecodeError::UnknownType(d[0])),
            Some(PacketType::Data) => if d.len() < DATA_PREFIX_SIZE {
                Err(DecodeError::MalformedHeader)
            } else {
                Ok(
                    PacketView::Data {
                        header: decode_header(d.subrange(1, d.len() as int)),
                        payload: d.subrange(DATA_PREFIX_SIZE as int, d.len() as int),
                    },
                )
            },
            Some(PacketType::Ack) => if d.len() < 1 + ACK_PACKET_SIZE {
                Err(DecodeError::MalformedHeader)
            } else {
                Ok(PacketView::Ack(decode_ack(d.subrange(1, d.len() as int))))
            },
            Some(PacketType::IFrameRequest) => Ok(PacketView::IFrameRequest),
            Some(PacketType::SpsPps) => Ok(PacketView::ParameterSet(d.subrange(1, d.len() as int))),
        }
    }
}

/// The datagram that carries a packet.
pub open spec fn datagram_of(p: PacketView) -> Seq<u8> {
    match p {
        PacketView::Data { header, payload } => seq![tag_of(PacketType::Data)] + encode_header(
            header,
        ) + payload,
        PacketView::Ack(a) => seq![tag_of(PacketType::Ack)] + encode_ack(a),
        PacketView::IFrameRequest => seq![tag_of(PacketType::IFrameRequest)],
        PacketView::ParameterSet(b) => seq![tag_of(PacketType::SpsPps)] + b,
    }
}

/// Every packet survives the trip through its datagram.
pub proof fn lemma_datagram_round_trip(p: PacketView)
    ensures
        parse_datagram(datagram_of(p)) == Ok::<PacketView, DecodeError>(p),
{
    let d = datagram_of(p);
    match p {
        PacketView::Data { header, payload } => {
            lemma_header_round_trip(header, payload);
            assert(d.subrange(1, d.len() as int) =~= encode_header(header) + payload);
            assert(d.subrange(DATA_PREFIX_SIZE as int, d.len() as int) =~= payload);
        },
        PacketView::Ack(a) => {
            lemma_ack_round_trip(a, Seq::empty());
            assert(d.subrange(1, d.len() as int) =~= encode_ack(a));
        },
        PacketView::IFrameRequest => {},
        PacketView::ParameterSet(b) => {
            assert(d.subrange(1, d.len() as int) =~= b);
        },
    }
}

/// Appends the bytes of `src` to `dst`.
pub(crate) fn append_bytes(dst: &mut Vec<u8>, src: &[u8])
    ensures
        final(dst)@ == old(dst)@ + src@,
{
    let mut i: usize = 0;
    while i < src.len()
        invariant
            i <= src@.len(),
            dst@ == old(dst)@ + src@.subrange(0, i as int),
        decreases src@.len() - i,
    {
        dst.push(src[i]);
        i = i + 1;
        assert(src@.subrange(0, i as int) =~= src@.subrange(0, i - 1) + seq![src@[i - 1]]);
    }
    assert(src@.subrange(0, i as int) =~= src@);
}

/// The datagram of a data packet: tag, header, then `payload`.
pub fn data_datagram(header: &DataHeader, payload: &[u8]) -> (r: Vec<u8>)
    ensures
        r@ == datagram_of(PacketView::Data { header: *header, payload: payload@ }),
{
    let mut r: Vec<u8> = Vec::new();
    r.push(PacketType::Data.tag());
    let h = header.to_bytes();
    append_bytes(&mut r, &h);
    append_bytes(&mut r, payload);
    r
}

/// The datagram that acknowledges `frame_id`.
pub fn ack_datagram(frame_id: u32) -> (r: Vec<u8>)
    ensures
        r@ == datagram_of(PacketView::Ack(AckPacket { frame_id })),
{
    let mut r: Vec<u8> = Vec::with_capacity(1 + ACK_PACKET_SIZE);
    r.push(PacketType::Ack.tag());
    let a = AckPacket { frame_id };
    let b = a.to_bytes();
    append_bytes(&mut r, &b);
    r
}

/// The datagram that asks the sender for a new key frame.
pub fn iframe_request_datagram() -> (r: Vec<u8>)
    ensures
        r@ == datagram_of(PacketView::IFrameRequest),
{
    let mut r: Vec<u8> = Vec::new();
    r.push(PacketType::IFrameRequest.tag());
    r
}

/// The datagram that carries a parameter-set blob.
pub fn parameter_set_datagram(blob: &[u8]) -> (r: Vec<u8>)
    ensures
        r@ == datagram_of(PacketView::ParameterSet(blob@)),
{
    let mut r: Vec<u8> = Vec::new();
    r.push(PacketType::SpsPps.tag());
    append_bytes(&mut r, blob);
    r
}

/// Copies the bytes of `src` from `start` to its end.
fn copy_tail(src: &[u8], start: usize) -> (r: Vec<u8>)
    requires
        start <= src@.len(),
    ensures
        r@ == src@.subrange(start as int, src@.len() as int),
{
    let mut r: Vec<u8> = Vec::with_capacity(src.len() - start);
    append_bytes(&mut r, &src[start..src.len()]);
    r
}

/// Reads the type tag of a datagram and decodes its body.
pub fn classify(datagram: &[u8]) -> (r: Result<Packet, DecodeError>)
    ensures
        match r {
            Ok(p) => parse_datagram(datagram@) == Ok::<PacketView, DecodeError>(p@),
            Err(e) => parse_datagram(datagram@) == Err::<PacketView, DecodeError>(e),
        },
{
    if datagram.len() == 0 {
        return Err(DecodeError::Empty);
    }
    let tag = datagram[0];
    let body = &datagram[1..datagram.len()];
    match PacketType::try_from(tag) {
        Err(()) => Err(DecodeError::UnknownType(tag)),
        Ok(PacketType::Data) => match DataHeader::from_bytes(body) {
            None => Err(DecodeError::MalformedHeader),
            Some(header) => {
                let payload = copy_tail(datagram, DATA_PREFIX_SIZE);
                Ok(Packet::Data { header, payload })
            },
        },
        Ok(PacketType::Ack) => match AckPacket::from_bytes(body) {
            None => Err(DecodeError::MalformedHeader),
            Some(a) => Ok(Packet::Ack(a)),
        },
        Ok(PacketType::IFrameRequest) => Ok(Packet::IFrameRequest),
        Ok(PacketType::SpsPps) => Ok(Packet::ParameterSet(copy_tail(datagram, 1))),
    }
}

} // verus!
