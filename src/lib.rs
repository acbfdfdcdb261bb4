//! A small application-layer transport for streaming H.264 video over UDP:
//! a wire codec, a fragmenter, a reassembler, and the sender and receiver
//! state machines that make a lossy datagram channel usable for live video.
//!
//! Everything here is pure state and computation; sockets, clocks, threads
//! and the decoder live with the caller, who hands in datagrams and times
//! (in milliseconds) and carries out the returned actions.

pub mod delivery;
pub mod fragment;
pub mod history;
pub mod packet;
pub mod protocol;
pub mod reassembly;
pub mod receiver;
pub mod replay;
pub mod sender;

pub use fragment::{fragment_frame, FragmentError, MAX_FRAGMENTS};
pub use packet::{
    ack_datagram, classify, data_datagram, iframe_request_datagram, parameter_set_datagram,
    DecodeError, Packet, DATA_PREFIX_SIZE,
};
pub use protocol::{
    AckPacket, DataHeader, PacketType, ACK_PACKET_SIZE, DATA_HEADER_SIZE, MAX_PAYLOAD_SIZE,
};
pub use reassembly::{ExpiredFrame, IngestOutcome, Reassembler, FRAME_TIMEOUT_MS};
pub use receiver::{Receiver, ReceiverAction, PARAMETER_INJECT_COUNT};
pub use sender::{
    ControlOutcome, OutgoingFrame, Sender, TickReport, MAX_RETRIES, RETRANSMISSION_TIMEOUT_MS,
};
