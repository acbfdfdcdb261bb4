//! The receiver: demultiplexes datagrams, reassembles frames, acknowledges
//! key frames, caches parameter sets and injects them before key frames.

use vstd::prelude::*;
use crate::packet::{
    ack_datagram, append_bytes, classify, datagram_of, iframe_request_datagram, parse_datagram,
    Packet, PacketView,
};
use crate::protocol::AckPacket;
use crate::reassembly::{
    ingest_spec, sweep_spec, ExpiredFrame, IngestOutcome, IngestView, PartialView, Reassembler,
};

verus! {

/// How many key frames get the cached parameter set in front of them after
/// it was (re)cached.
pub const PARAMETER_INJECT_COUNT: u8 = 3;

/// Something the receiver asks its host to do.
#[derive(Debug, PartialEq, Eq)]
pub enum ReceiverAction {
    /// Send this datagram to the peer.
    Reply(Vec<u8>),
    /// Hand this frame to the decoder.
    Deliver { frame: Vec<u8>, capture_timestamp_ns: u64 },
    /// Restart the decoder: the stream now comes from another peer.
    RestartSink,
}

/// A host action, with its byte buffers as sequences.
pub enum ActionView {
    Reply(Seq<u8>),
    Deliver { frame: Seq<u8>, capture_timestamp_ns: u64 },
    RestartSink,
}

impl View for ReceiverAction {
    type V = ActionView;

    open spec fn view(&self) -> ActionView {
        match self {
            ReceiverAction::Reply(d) => ActionView::Reply(d@),
            ReceiverAction::Deliver { frame, capture_timestamp_ns } => ActionView::Deliver {
                frame: frame@,
                capture_timestamp_ns: *capture_timestamp_ns,
            },
            ReceiverAction::RestartSink => ActionView::RestartSink,
        }
    }
}

/// The actions of a vector, as views.
pub open spec fn actions_of(v: Seq<ReceiverAction>) -> Seq<ActionView> {
    v.map_values(|a: ReceiverAction| a@)
}

/// What the receiver holds.
pub struct ReceiverView {
    pub frames: Map<u32, PartialView>,
    pub parameter_set: Option<Seq<u8>>,
    pub inject_budget: u8,
    pub peer: Option<u128>,
}

/// The request for a new key frame.
pub open spec fn request_view() -> Seq<u8> {
    datagram_of(PacketView::IFrameRequest)
}

/// The acknowledgement of frame `id`.
pub open spec fn ack_view(id: u32) -> Seq<u8> {
    datagram_of(PacketView::Ack(AckPacket { frame_id: id }))
}

/// The receiver after a datagram from `source`, before its contents are
/// looked at: a new peer flushes the partial frames; and the actions that
/// causes: a restart of the decoder when the peer changed, and a request for
/// a key frame whenever the peer is new.
pub open spec fn peer_spec(s: ReceiverView, source: u128) -> (ReceiverView, Seq<ActionView>) {
    if s.peer == Some(source) {
        (s, Seq::empty())
    } else {
        (
            ReceiverView { frames: Map::empty(), peer: Some(source), ..s },
            (if s.peer is Some {
                seq![ActionView::RestartSink]
            } else {
                Seq::empty()
            }) + seq![ActionView::Reply(request_view())],
        )
    }
}

/// Whether a completed frame gets the cached parameter set in front of it.
pub open spec fn injects(s: ReceiverView, is_key_frame: bool) -> bool {
    is_key_frame && s.inject_budget > 0 && s.parameter_set is Some
}

/// The receiver after frame `id` completed, and the actions for it: the
/// frame is delivered (with the parameter set in front while the budget
/// lasts, and not at all when empty), and a key frame is acknowledged.
pub open spec fn frame_ready_spec(
    s: ReceiverView,
    id: u32,
    frame: Seq<u8>,
    is_key_frame: bool,
    capture_timestamp_ns: u64,
) -> (ReceiverView, Seq<ActionView>) {
    let inject = frame.len() > 0 && injects(s, is_key_frame);
    let s2 = if inject {
        ReceiverView { inject_budget: (s.inject_budget - 1) as u8, ..s }
    } else {
        s
    };
    let delivered = if inject {
        s.parameter_set->Some_0 + frame
    } else {
        frame
    };
    (
        s2,
        (if frame.len() > 0 {
            seq![ActionView::Deliver { frame: delivered, capture_timestamp_ns }]
        } else {
            Seq::empty()
        }) + (if is_key_frame {
            seq![ActionView::Reply(ack_view(id))]
        } else {
            Seq::empty()
        }),
    )
}

/// The receiver after one datagram `d` from `source` at `now_ms`, and what it
/// asks its host to do.
pub open spec fn receive_spec(s: ReceiverView, source: u128, d: Seq<u8>, now_ms: u64) -> (
    ReceiverView,
    Seq<ActionView>,
) {
    let (s1, pre) = peer_spec(s, source);
    match parse_datagram(d) {
        Ok(PacketView::ParameterSet(b)) => (
            if s1.parameter_set == Some(b) {
                s1
            } else {
                ReceiverView {
                    parameter_set: Some(b),
                    inject_budget: PARAMETER_INJECT_COUNT,
                    ..s1
                }
            },
            pre,
        ),
        Ok(PacketView::Data { header, payload }) => {
            let (m, o) = ingest_spec(s1.frames, header, payload, now_ms);
            let s2 = ReceiverView { frames: m, ..s1 };
            match o {
                IngestView::Completed { frame, is_key_frame, capture_timestamp_ns } => {
                    let (s3, acts) = frame_ready_spec(
                        s2,
                        header.frame_id,
                        frame,
                        is_key_frame,
                        capture_timestamp_ns,
                    );
                    (s3, pre + acts)
                },
                _ => (s2, pre),
            }
        },
        _ => (s1, pre),
    }
}

/// How many of the expired frames are not key frames.
pub open spec fn non_key_count(es: Seq<ExpiredFrame>) -> nat
    decreases es.len(),
{
    if es.len() == 0 {
        0
    } else {
        non_key_count(es.drop_last()) + if es.last().is_key_frame {
            0nat
        } else {
            1nat
        }
    }
}

/// Whether two byte strings are equal.
fn bytes_equal(a: &[u8], b: &[u8]) -> (r: bool)
    ensures
        r == (a@ == b@),
{
    if a.len() != b.len() {
        return false;
    }
    let mut i: usize = 0;
    while i < a.len()
        invariant
            a@.len() == b@.len(),
            i <= a@.len(),
            forall|j: int| 0 <= j < i ==> a@[j] == b@[j],
        decreases a@.len() - i,
    {
        if a[i] != b[i] {
            return false;
        }
        i = i + 1;
    }
    assert(a@ =~= b@);
    true
}

/// One key-frame request for each expired frame that is not a key frame.
fn requests_for(expired: &Vec<ExpiredFrame>) -> (r: Vec<Vec<u8>>)
    ensures
        r@.len() == non_key_count(expired@),
        forall|k: int| 0 <= k < r@.len() ==> (#[trigger] r@[k])@ == request_view(),
{
    let mut requests: Vec<Vec<u8>> = Vec::new();
        let mut i: usize = 0;
        while i < expired.len()
            invariant
                i <= expired@.len(),
                requests@.len() == non_key_count(expired@.subrange(0, i as int)),
                forall|k: int| 0 <= k < requests@.len() ==> (#[trigger] requests@[k])@ == request_view(),
            decreases expired@.len() - i,
        {
            assert(expired@.subrange(0, i + 1).drop_last() =~= expired@.subrange(0, i as int));
            if !expired[i].is_key_frame {
                requests.push(iframe_request_datagram());
            }
            i = i + 1;
        }
        assert(expired@.subrange(0, i as int) =~= expired@);
    requests
}

/// The receiving side of a stream.
pub struct Receiver {
    reassembler: Reassembler,
    parameter_set: Option<Vec<u8>>,
    inject_budget: u8,
    peer: Option<u128>,
}

impl View for Receiver {
    type V = ReceiverView;

    closed spec fn view(&self) -> ReceiverView {
        ReceiverView {
            frames: self.reassembler@,
            parameter_set: match self.parameter_set {
                Some(b) => Some(b@),
                None => None,
            },
            inject_budget: self.inject_budget,
            peer: self.peer,
        }
    }
}

impl Receiver {
    /// The registry is well formed and the budget within its bound.
    pub closed spec fn wf(&self) -> bool {
        &&& self.reassembler.wf()
        &&& self.inject_budget <= PARAMETER_INJECT_COUNT
    }

    /// A receiver that has heard from nobody yet.
    pub fn new() -> (r: Receiver)
        ensures
            r.wf(),
            r@ == (ReceiverView {
                frames: Map::empty(),
                parameter_set: None,
                inject_budget: 0,
                peer: None,
            }),
    {
        Receiver { reassembler: Reassembler::new(), parameter_set: None, inject_budget: 0, peer: None }
    }

    /// The cached parameter set's budget never exceeds its bound.
    pub proof fn lemma_budget_bounded(&self)
        requires
            self.wf(),
        ensures
            self@.inject_budget <= PARAMETER_INJECT_COUNT,
    {
    }

    /// Number of partial frames held.
    pub fn pending_frames(&self) -> (r: usize)
        requires
            self.wf(),
        ensures
            r == self@.frames.len(),
    {
        self.reassembler.len()
    }

    fn frame_ready(
        &mut self,
        id: u32,
        frame: Vec<u8>,
        is_key_frame: bool,
        capture_timestamp_ns: u64,
        actions: &mut Vec<ReceiverAction>,
    )
        requires
            old(self).wf(),
        ensures
            final(self).wf(),
            (final(self)@, actions_of(final(actions)@)) == ({
                let (s2, acts) = frame_ready_spec(
                    old(self)@,
                    id,
                    frame@,
                    is_key_frame,
                    capture_timestamp_ns,
                );
                (s2, actions_of(old(actions)@) + acts)
            }),
    {
        let ghost a0 = actions_of(actions@);
        let ghost delivered_acts: Seq<ActionView> = Seq::empty();
        if frame.len() > 0 {
            let inject = is_key_frame && self.inject_budget > 0 && self.parameter_set.is_some();
            let delivered = if inject {
                let mut v: Vec<u8> = Vec::new();
                match &self.parameter_set {
                    Some(p) => append_bytes(&mut v, p.as_slice()),
                    None => {},
                }
                append_bytes(&mut v, frame.as_slice());
                self.inject_budget = self.inject_budget - 1;
                v
            } else {
                frame
            };
            let act = ReceiverAction::Deliver { frame: delivered, capture_timestamp_ns };
            proof {
                delivered_acts = seq![act@];
            }
            actions.push(act);
        }
        assert(actions_of(actions@) =~= a0 + delivered_acts);
        if is_key_frame {
            let ack = ack_datagram(id);
            actions.push(ReceiverAction::Reply(ack));
        }
        let ghost acts = frame_ready_spec(old(self)@, id, frame@, is_key_frame, capture_timestamp_ns).1;
        assert(actions_of(actions@) =~= a0 + acts);
    }

    /// Handles one datagram from `source` (a key for the sending host) at
    /// `now_ms`, and returns what the host should do, in order.
    pub fn on_datagram(&mut self, source: u128, datagram: &[u8], now_ms: u64) -> (r: Vec<
        ReceiverAction,
    >)
        requires
            old(self).wf(),
        ensures
            final(self).wf(),
            (final(self)@, actions_of(r@)) == receive_spec(old(self)@, source, datagram@, now_ms),
    {
        let mut actions: Vec<ReceiverAction> = Vec::new();
        let same_peer = match self.peer {
            Some(p) => p == source,
            None => false,
        };
        if !same_peer {
            if self.peer.is_some() {
                self.reassembler.clear();
                actions.push(ReceiverAction::RestartSink);
            } else {
                self.reassembler.clear();
            }
            self.peer = Some(source);
            actions.push(ReceiverAction::Reply(iframe_request_datagram()));
        }
        let ghost (s1, pre) = peer_spec(old(self)@, source);
        assert(self@ == s1);
        assert(actions_of(actions@) =~= pre);
        match classify(datagram) {
            Ok(Packet::ParameterSet(b)) => {
                let same = match &self.parameter_set {
                    Some(p) => bytes_equal(p.as_slice(), b.as_slice()),
                    None => false,
                };
                if !same {
                    self.parameter_set = Some(b);
                    self.inject_budget = PARAMETER_INJECT_COUNT;
                }
            },
            Ok(Packet::Data { header, payload }) => {
                let o = self.reassembler.ingest(&header, payload, now_ms);
                match o {
                    IngestOutcome::Completed { frame, is_key_frame, capture_timestamp_ns } => {
                        self.frame_ready(
                            header.frame_id,
                            frame,
                            is_key_frame,
                            capture_timestamp_ns,
                            &mut actions,
                        );
                    },
                    _ => {},
                }
            },
            _ => {},
        }
        actions
    }

    /// Removes the partial frames that timed out at `now_ms`. Returns them,
    /// with one key-frame request for each that was not a key frame: a key
    /// frame is left to the sender's retransmission.
    pub fn on_sweep(&mut self, now_ms: u64) -> (r: (Vec<ExpiredFrame>, Vec<Vec<u8>>))
        requires
            old(self).wf(),
        ensures
            final(self).wf(),
            final(self)@ == (ReceiverView {
                frames: sweep_spec(old(self)@.frames, now_ms),
                ..old(self)@
            }),
            forall|k: int|
                #![trigger r.0@[k]]
                0 <= k < r.0@.len() ==> {
                    let id = r.0@[k].frame_id;
                    &&& old(self)@.frames.contains_key(id)
                    &&& crate::reassembly::is_expired(
                        old(self)@.frames[id].last_seen_ms,
                        now_ms,
                    )
                    &&& r.0@[k].is_key_frame == old(self)@.frames[id].is_key_frame
                },
            forall|id: u32|
                old(self)@.frames.contains_key(id) && crate::reassembly::is_expired(
                    old(self)@.frames[id].last_seen_ms,
                    now_ms,
                ) ==> exists|k: int| 0 <= k < r.0@.len() && (#[trigger] r.0@[k]).frame_id == id,
            forall|k: int, l: int|
                0 <= k < l < r.0@.len() ==> r.0@[k].frame_id != r.0@[l].frame_id,
            r.1@.len() == non_key_count(r.0@),
            forall|k: int| 0 <= k < r.1@.len() ==> (#[trigger] r.1@[k])@ == request_view(),
    {
        let expired = self.reassembler.sweep(now_ms);
        let requests = requests_for(&expired);
        assert forall|id: u32|
            old(self)@.frames.contains_key(id) && crate::reassembly::is_expired(
                old(self)@.frames[id].last_seen_ms,
                now_ms,
            ) implies exists|k: int| 0 <= k < expired@.len() && (#[trigger] expired@[k]).frame_id == id by {
            assert(old(self).reassembler@.contains_key(id));
        }
        let r = (expired, requests);
        assert forall|id: u32|
            old(self)@.frames.contains_key(id) && crate::reassembly::is_expired(
                old(self)@.frames[id].last_seen_ms,
                now_ms,
            ) implies exists|k: int| 0 <= k < r.0@.len() && (#[trigger] r.0@[k]).frame_id == id by {
            let k = choose|k: int| 0 <= k < expired@.len() && (#[trigger] expired@[k]).frame_id == id;
            assert(r.0@[k] == expired@[k]);
        }
        r
    }
}

} // verus!
