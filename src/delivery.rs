//! The receiver over single datagrams and whole sequences of them: which
//! frames are acknowledged, and how often the parameter set is injected.

use vstd::prelude::*;
use crate::packet::{lemma_datagram_round_trip, parse_datagram, PacketView};
use crate::protocol::AckPacket;
use crate::reassembly::{ingest_spec, IngestView};
use crate::receiver::{
    ack_view, injects, peer_spec, receive_spec, request_view, ActionView, ReceiverView,
    PARAMETER_INJECT_COUNT,
};

verus! {

/// The frame id an action acknowledges, if it is an acknowledgement.
pub open spec fn ack_of(a: ActionView) -> Option<u32> {
    match a {
        ActionView::Reply(d) => match parse_datagram(d) {
            Ok(PacketView::Ack(p)) => Some(p.frame_id),
            _ => None,
        },
        _ => None,
    }
}

/// The frame ids acknowledged by `acts`, in order.
pub open spec fn acks_in(acts: Seq<ActionView>) -> Seq<u32>
    decreases acts.len(),
{
    if acts.len() == 0 {
        Seq::empty()
    } else {
        acks_in(acts.drop_last()) + match ack_of(acts.last()) {
            Some(id) => seq![id],
            None => Seq::empty(),
        }
    }
}

proof fn lemma_acks_concat(a: Seq<ActionView>, b: Seq<ActionView>)
    ensures
        acks_in(a + b) == acks_in(a) + acks_in(b),
    decreases b.len(),
{
    if b.len() == 0 {
        assert(a + b =~= a);
        assert(acks_in(a) + acks_in(b) =~= acks_in(a));
    } else {
        lemma_acks_concat(a, b.drop_last());
        assert((a + b).drop_last() =~= a + b.drop_last());
        assert((a + b).last() == b.last());
        assert(acks_in(a + b) =~= acks_in(a) + acks_in(b));
    }
}

/// The frame that datagram `d` completes, with whether it is a key frame.
pub open spec fn completed_by(s: ReceiverView, source: u128, d: Seq<u8>, now_ms: u64) -> Option<
    (u32, bool),
> {
    match parse_datagram(d) {
        Ok(PacketView::Data { header, payload }) => match ingest_spec(
            peer_spec(s, source).0.frames,
            header,
            payload,
            now_ms,
        ).1 {
            IngestView::Completed { is_key_frame, .. } => Some((header.frame_id, is_key_frame)),
            _ => None,
        },
        _ => None,
    }
}

/// Ack selectivity: a datagram makes the receiver acknowledge a frame exactly
/// when it completes a key frame, and then it acknowledges that frame once.
pub proof fn lemma_ack_selectivity(s: ReceiverView, source: u128, d: Seq<u8>, now_ms: u64)
    ensures
        acks_in(receive_spec(s, source, d, now_ms).1) == match completed_by(s, source, d, now_ms) {
            Some((id, true)) => seq![id],
            _ => Seq::<u32>::empty(),
        },
{
    let (s1, pre) = peer_spec(s, source);
    lemma_datagram_round_trip(PacketView::IFrameRequest);
    assert(ack_of(ActionView::Reply(request_view())) is None);
    assert(ack_of(ActionView::RestartSink) is None);
    let rs = seq![ActionView::RestartSink];
    let rq = seq![ActionView::Reply(request_view())];
    assert(acks_in(Seq::<ActionView>::empty()) == Seq::<u32>::empty());
    assert(acks_in(rs) =~= Seq::<u32>::empty()) by {
        assert(rs.drop_last() =~= Seq::<ActionView>::empty());
        assert(rs.last() == ActionView::RestartSink);
    }
    assert(acks_in(rq) =~= Seq::<u32>::empty()) by {
        assert(rq.drop_last() =~= Seq::<ActionView>::empty());
        assert(rq.last() == ActionView::Reply(request_view()));
    }
    lemma_acks_concat(rs, rq);
    lemma_acks_concat(Seq::empty(), rq);
    assert(acks_in(pre) =~= Seq::<u32>::empty());
    if let Ok(PacketView::Data { header, payload }) = parse_datagram(d) {
        let (m, o) = ingest_spec(s1.frames, header, payload, now_ms);
        if let IngestView::Completed { frame, is_key_frame, capture_timestamp_ns } = o {
            let s2 = ReceiverView { frames: m, ..s1 };
            let inject = frame.len() > 0 && injects(s2, is_key_frame);
            let delivered = if inject {
                s2.parameter_set->Some_0 + frame
            } else {
                frame
            };
            let dl: Seq<ActionView> = if frame.len() > 0 {
                seq![ActionView::Deliver { frame: delivered, capture_timestamp_ns }]
            } else {
                Seq::empty()
            };
            let ak: Seq<ActionView> = if is_key_frame {
                seq![ActionView::Reply(ack_view(header.frame_id))]
            } else {
                Seq::empty()
            };
            lemma_datagram_round_trip(PacketView::Ack(AckPacket { frame_id: header.frame_id }));
            assert(acks_in(dl) =~= Seq::<u32>::empty()) by {
                if dl.len() > 0 {
                    assert(dl.drop_last() =~= Seq::<ActionView>::empty());
                }
            }
            assert(acks_in(ak) =~= if is_key_frame {
                seq![header.frame_id]
            } else {
                Seq::<u32>::empty()
            }) by {
                if ak.len() > 0 {
                    assert(ak.drop_last() =~= Seq::<ActionView>::empty());
                }
            }
            lemma_acks_concat(dl, ak);
            lemma_acks_concat(pre, dl + ak);
            assert(receive_spec(s, source, d, now_ms).1 == pre + (dl + ak)) by {
                assert(pre + (dl + ak) =~= pre + dl + ak);
            }
        }
    }
}

// ---------------------------------------------------------------------------
// Parameter-set injection

/// A datagram arriving from `source` at `now_ms`.
pub struct Arrival {
    pub source: u128,
    pub datagram: Seq<u8>,
    pub now_ms: u64,
}

pub open spec fn arrive(s: ReceiverView, a: Arrival) -> (ReceiverView, Seq<ActionView>) {
    receive_spec(s, a.source, a.datagram, a.now_ms)
}

/// Whether arrival `a` delivers a frame with the parameter set in front.
pub open spec fn injects_now(s: ReceiverView, a: Arrival) -> bool {
    let s1 = peer_spec(s, a.source).0;
    match parse_datagram(a.datagram) {
        Ok(PacketView::Data { header, payload }) => match ingest_spec(
            s1.frames,
            header,
            payload,
            a.now_ms,
        ).1 {
            IngestView::Completed { frame, is_key_frame, .. } => frame.len() > 0 && injects(
                s1,
                is_key_frame,
            ),
            _ => false,
        },
        _ => false,
    }
}

/// Whether arrival `a` caches a parameter set that differs from the cached one.
pub open spec fn recaches(s: ReceiverView, a: Arrival) -> bool {
    match parse_datagram(a.datagram) {
        Ok(PacketView::ParameterSet(b)) => peer_spec(s, a.source).0.parameter_set != Some(b),
        _ => false,
    }
}

/// How many of the arrivals deliver a frame with the parameter set in front.
pub open spec fn inject_count(s: ReceiverView, arrivals: Seq<Arrival>) -> nat
    decreases arrivals.len(),
{
    if arrivals.len() == 0 {
        0
    } else {
        (if injects_now(s, arrivals[0]) {
            1nat
        } else {
            0nat
        }) + inject_count(arrive(s, arrivals[0]).0, arrivals.drop_first())
    }
}

/// Whether none of the arrivals recaches the parameter set.
pub open spec fn never_recached(s: ReceiverView, arrivals: Seq<Arrival>) -> bool
    decreases arrivals.len(),
{
    arrivals.len() == 0 || (!recaches(s, arrivals[0]) && never_recached(
        arrive(s, arrivals[0]).0,
        arrivals.drop_first(),
    ))
}

/// Only a key frame ever gets the parameter set in front of it.
pub proof fn lemma_only_key_frames_injected(s: ReceiverView, a: Arrival)
    ensures
        injects_now(s, a) ==> completed_by(s, a.source, a.datagram, a.now_ms) matches Some(
            (_, true),
        ),
{
}

/// The parameter injection bound: until a different parameter set is cached,
/// at most as many frames get the parameter set in front of them as the
/// budget left, which never exceeds `PARAMETER_INJECT_COUNT`; a (re)cached
/// parameter set restores that budget.
pub proof fn lemma_injection_bound(s: ReceiverView, arrivals: Seq<Arrival>)
    requires
        s.inject_budget <= PARAMETER_INJECT_COUNT,
        never_recached(s, arrivals),
    ensures
        inject_count(s, arrivals) <= s.inject_budget,
        inject_count(s, arrivals) <= PARAMETER_INJECT_COUNT,
    decreases arrivals.len(),
{
    if arrivals.len() > 0 {
        let a = arrivals[0];
        let s2 = arrive(s, a).0;
        assert(s2.inject_budget == s.inject_budget - if injects_now(s, a) {
            1int
        } else {
            0int
        });
        lemma_injection_bound(s2, arrivals.drop_first());
    }
}

/// Caching a parameter set that differs from the cached one restores the
/// full injection budget.
pub proof fn lemma_recache_restores_budget(s: ReceiverView, a: Arrival)
    ensures
        recaches(s, a) ==> arrive(s, a).0.inject_budget == PARAMETER_INJECT_COUNT,
{
}

} // verus!
