//! The sender over whole sequences of calls: the frame ids it hands out and
//! how often the retransmitter sends a key frame again.

use vstd::prelude::*;
use crate::fragment::{fragment_result, FragmentError};
use crate::sender::{
    ack_spec, fate, find_entry, ids_unique, lemma_find_absent, lemma_find_push, lemma_find_some,
    lemma_tick_unacked, next_id, retried, retries_bounded, sent_spec, tick_spec, tick_unacked,
    Fate, SenderView, UnackedView, MAX_RETRIES, RETRANSMISSION_TIMEOUT_MS,
};

verus! {

/// One call of `send_frame`: the frame, whether it is a key frame, its
/// capture time, and the time of the call.
pub struct SendCall {
    pub frame: Seq<u8>,
    pub is_key_frame: bool,
    pub capture_timestamp_ns: u64,
    pub now_ms: u64,
}

/// The sender after one `send_frame` call, and the frame id the call handed
/// out, if any.
pub open spec fn send_step(s: SenderView, c: SendCall) -> (SenderView, Result<u32, FragmentError>) {
    match fragment_result(c.frame, s.next_frame_id, c.is_key_frame, c.capture_timestamp_ns) {
        Ok(d) => (sent_spec(s, c.is_key_frame, d, c.now_ms), Ok(s.next_frame_id)),
        Err(e) => (s, Err(e)),
    }
}

/// The sender after the calls `cs` in order, and what each call handed out.
pub open spec fn send_run(s: SenderView, cs: Seq<SendCall>) -> (SenderView, Seq<
    Result<u32, FragmentError>,
>)
    decreases cs.len(),
{
    if cs.len() == 0 {
        (s, Seq::empty())
    } else {
        let first = send_step(s, cs[0]);
        let rest = send_run(first.0, cs.drop_first());
        (rest.0, seq![first.1] + rest.1)
    }
}

/// How many of the calls succeeded.
pub open spec fn ok_count(rs: Seq<Result<u32, FragmentError>>) -> nat
    decreases rs.len(),
{
    if rs.len() == 0 {
        0
    } else {
        ok_count(rs.drop_last()) + if rs.last() is Ok {
            1nat
        } else {
            0nat
        }
    }
}

proof fn lemma_ok_count_front(rs: Seq<Result<u32, FragmentError>>)
    requires
        rs.len() > 0,
    ensures
        ok_count(rs) == ok_count(rs.drop_first()) + if rs[0] is Ok {
            1nat
        } else {
            0nat
        },
    decreases rs.len(),
{
    if rs.len() > 1 {
        lemma_ok_count_front(rs.drop_last());
        assert(rs.drop_last().drop_first() =~= rs.drop_first().drop_last());
        assert(rs.drop_first().last() == rs.last());
        assert(rs.drop_last()[0] == rs[0]);
        let df = rs.drop_first();
        assert(ok_count(df) == ok_count(df.drop_last()) + if df.last() is Ok {
            1nat
        } else {
            0nat
        });
    } else {
        assert(rs.drop_first().len() == 0);
        assert(rs.drop_last().len() == 0);
        assert(ok_count(rs.drop_first()) == 0);
        assert(ok_count(rs.drop_last()) == 0);
        assert(rs.last() == rs[0]);
    }
}

/// Frame ids are handed out in sequence, wrapping at 2^32: the `k`-th call,
/// if it succeeds, gets the starting id plus the number of calls before it
/// that succeeded, modulo 2^32. Failed calls use up no id.
pub proof fn lemma_frame_ids_monotonic(s: SenderView, cs: Seq<SendCall>)
    ensures
        ({
            let (s2, rs) = send_run(s, cs);
            &&& rs.len() == cs.len()
            &&& forall|k: int|
                0 <= k < rs.len() && (#[trigger] rs[k]) is Ok ==> rs[k] == Ok::<
                    u32,
                    FragmentError,
                >(((s.next_frame_id + ok_count(rs.subrange(0, k))) % 0x1_0000_0000) as u32)
            &&& s2.next_frame_id == (s.next_frame_id + ok_count(rs)) % 0x1_0000_0000
        }),
    decreases cs.len(),
{
    let (s2, rs) = send_run(s, cs);
    if cs.len() == 0 {
        assert(rs.len() == 0);
        return;
    }
    let first = send_step(s, cs[0]);
    let s1 = first.0;
    lemma_frame_ids_monotonic(s1, cs.drop_first());
    let rest = send_run(s1, cs.drop_first());
    assert(rs == seq![first.1] + rest.1);
    let step: nat = if first.1 is Ok {
        1
    } else {
        0
    };
    assert(s1.next_frame_id == (s.next_frame_id + step) % 0x1_0000_0000);
    lemma_ok_count_front(rs);
    assert(rs.drop_first() =~= rest.1);
    assert forall|k: int| 0 <= k < rs.len() && (#[trigger] rs[k]) is Ok implies rs[k] == Ok::<
        u32,
        FragmentError,
    >(((s.next_frame_id + ok_count(rs.subrange(0, k))) % 0x1_0000_0000) as u32) by {
        if k == 0 {
            assert(rs.subrange(0, 0).len() == 0);
        } else {
            let p = rs.subrange(0, k);
            lemma_ok_count_front(p);
            assert(p.drop_first() =~= rest.1.subrange(0, k - 1));
            assert(rs[k] == rest.1[k - 1]);
            let c = ok_count(rest.1.subrange(0, k - 1));
            vstd::arithmetic::div_mod::lemma_add_mod_noop_right(
                c as int,
                s.next_frame_id + step,
                0x1_0000_0000,
            );
        }
    }
    vstd::arithmetic::div_mod::lemma_add_mod_noop_right(
        ok_count(rest.1) as int,
        s.next_frame_id + step,
        0x1_0000_0000,
    );
}

// ---------------------------------------------------------------------------
// Retransmission

/// What reaches the retransmission table between sends: a tick of the
/// retransmitter, or an acknowledgement.
pub enum ReliabilityEvent {
    Tick(u64),
    Ack(u32),
}

/// The sender after one event.
pub open spec fn event_step(s: SenderView, ev: ReliabilityEvent) -> SenderView {
    match ev {
        ReliabilityEvent::Tick(now_ms) => tick_spec(s, now_ms),
        ReliabilityEvent::Ack(id) => ack_spec(s, id),
    }
}

/// Whether event `ev` sends frame `id` again.
pub open spec fn resends_now(s: SenderView, ev: ReliabilityEvent, id: u32) -> bool {
    match ev {
        ReliabilityEvent::Tick(now_ms) => match find_entry(s.unacked, id) {
            Some(e) => fate(e, s.acked, now_ms) is Retried,
            None => false,
        },
        ReliabilityEvent::Ack(_) => false,
    }
}

/// How many of the events `evs` send frame `id` again.
pub open spec fn resend_count(s: SenderView, evs: Seq<ReliabilityEvent>, id: u32) -> nat
    decreases evs.len(),
{
    if evs.len() == 0 {
        0
    } else {
        (if resends_now(s, evs[0], id) {
            1nat
        } else {
            0nat
        }) + resend_count(event_step(s, evs[0]), evs.drop_first(), id)
    }
}

/// Retries frame `id` has left.
pub open spec fn retries_left(s: SenderView, id: u32) -> nat {
    match find_entry(s.unacked, id) {
        Some(e) => (MAX_RETRIES - e.retries) as nat,
        None => 0,
    }
}

/// What a tick does to the entry of one frame id.
pub proof fn lemma_tick_find(es: Seq<UnackedView>, acked: Seq<u32>, now_ms: u64, id: u32)
    requires
        ids_unique(es),
    ensures
        find_entry(tick_unacked(es, acked, now_ms), id) == match find_entry(es, id) {
            Some(e) => match fate(e, acked, now_ms) {
                Fate::Waiting => Some(e),
                Fate::Retried => Some(retried(e, now_ms)),
                _ => None,
            },
            None => None,
        },
    decreases es.len(),
{
    if es.len() > 0 {
        let d = es.drop_last();
        let e = es.last();
        assert(ids_unique(d)) by {
            assert forall|i: int, j: int| 0 <= i < j < d.len() implies (#[trigger] d[i]).frame_id
                != (#[trigger] d[j]).frame_id by {
                assert(d[i] == es[i] && d[j] == es[j]);
            }
        }
        lemma_tick_find(d, acked, now_ms, id);
        let piece = match fate(e, acked, now_ms) {
            Fate::Waiting => seq![e],
            Fate::Retried => seq![retried(e, now_ms)],
            _ => Seq::<UnackedView>::empty(),
        };
        lemma_find_push(tick_unacked(d, acked, now_ms), piece, id);
        if e.frame_id == id {
            assert forall|i: int| 0 <= i < d.len() implies (#[trigger] d[i]).frame_id != id by {
                assert(d[i] == es[i]);
                assert(es[es.len() - 1] == e);
            }
            lemma_find_absent(d, id);
        }
    }
}

proof fn lemma_unique_after(s: SenderView, ev: ReliabilityEvent)
    requires
        ids_unique(s.unacked),
        retries_bounded(s.unacked),
    ensures
        ids_unique(event_step(s, ev).unacked),
        retries_bounded(event_step(s, ev).unacked),
{
    if let ReliabilityEvent::Tick(now_ms) = ev {
        lemma_tick_unacked(s.unacked, s.acked, now_ms);
    }
}

/// Once frame `id` has left the table, no event sends it again.
proof fn lemma_absent_never_resent(s: SenderView, evs: Seq<ReliabilityEvent>, id: u32)
    requires
        ids_unique(s.unacked),
        find_entry(s.unacked, id) is None,
    ensures
        resend_count(s, evs, id) == 0,
    decreases evs.len(),
{
    if evs.len() > 0 {
        let s1 = event_step(s, evs[0]);
        if let ReliabilityEvent::Tick(now_ms) = evs[0] {
            lemma_tick_find(s.unacked, s.acked, now_ms, id);
            lemma_tick_unacked(s.unacked, s.acked, now_ms);
        }
        lemma_absent_never_resent(s1, evs.drop_first(), id);
    }
}

/// The retransmission bound: however ticks and acknowledgements interleave,
/// the retransmitter sends frame `id` again at most as many times as it has
/// retries left, and so at most `MAX_RETRIES` times. With its first
/// transmission by `send_frame`, which enters it with no retries used, a key
/// frame goes out at most `1 + MAX_RETRIES` times.
pub proof fn lemma_retransmission_bound(s: SenderView, evs: Seq<ReliabilityEvent>, id: u32)
    requires
        ids_unique(s.unacked),
        retries_bounded(s.unacked),
    ensures
        resend_count(s, evs, id) <= retries_left(s, id),
        retries_left(s, id) <= MAX_RETRIES,
    decreases evs.len(),
{
    lemma_find_some(s.unacked, id);
    if evs.len() > 0 {
        let s1 = event_step(s, evs[0]);
        lemma_unique_after(s, evs[0]);
        lemma_retransmission_bound(s1, evs.drop_first(), id);
        if let ReliabilityEvent::Tick(now_ms) = evs[0] {
            lemma_tick_find(s.unacked, s.acked, now_ms, id);
        }
    }
}

/// A key frame that `send_frame` has just entered has all its retries left.
pub proof fn lemma_fresh_entry_retries(s: SenderView, d: Seq<Seq<u8>>, now_ms: u64)
    ensures
        retries_left(sent_spec(s, true, d, now_ms), s.next_frame_id) == MAX_RETRIES,
{
    let s2 = sent_spec(s, true, d, now_ms);
    lemma_find_push(
        crate::sender::without_id(s.unacked, s.next_frame_id),
        seq![s2.unacked.last()],
        s.next_frame_id,
    );
    assert(crate::sender::without_id(s.unacked, s.next_frame_id) + seq![s2.unacked.last()]
        =~= s2.unacked);
}

/// With its acknowledgement recorded, frame `id` is never sent again.
proof fn lemma_acked_never_resent(s: SenderView, evs: Seq<ReliabilityEvent>, id: u32)
    requires
        ids_unique(s.unacked),
        s.acked.contains(id),
    ensures
        resend_count(s, evs, id) == 0,
    decreases evs.len(),
{
    if evs.len() > 0 {
        let s1 = event_step(s, evs[0]);
        match evs[0] {
            ReliabilityEvent::Tick(now_ms) => {
                lemma_find_some(s.unacked, id);
                lemma_tick_find(s.unacked, s.acked, now_ms, id);
                lemma_tick_unacked(s.unacked, s.acked, now_ms);
                lemma_absent_never_resent(s1, evs.drop_first(), id);
            },
            ReliabilityEvent::Ack(x) => {
                if !s.acked.contains(x) {
                    let i = choose|i: int| 0 <= i < s.acked.len() && s.acked[i] == id;
                    assert(s1.acked[i] == id);
                    assert(s1.acked.contains(id));
                }
                lemma_acked_never_resent(s1, evs.drop_first(), id);
            },
        }
    }
}

/// A key frame acknowledged before its first timeout is never sent again,
/// so it is transmitted exactly once: if the acknowledgement of `id` is the
/// `a`-th event and no tick before it comes later than the timeout after the
/// frame was sent, no event sends it again.
pub proof fn lemma_acked_in_time_sent_once(
    s: SenderView,
    evs: Seq<ReliabilityEvent>,
    id: u32,
    a: int,
)
    requires
        ids_unique(s.unacked),
        retries_bounded(s.unacked),
        0 <= a < evs.len(),
        evs[a] == ReliabilityEvent::Ack(id),
        forall|t: int|
            0 <= t < a ==> match #[trigger] evs[t] {
                ReliabilityEvent::Tick(now_ms) => match find_entry(s.unacked, id) {
                    Some(e) => now_ms <= e.sent_at_ms + RETRANSMISSION_TIMEOUT_MS,
                    None => true,
                },
                ReliabilityEvent::Ack(_) => true,
            },
    ensures
        resend_count(s, evs, id) == 0,
    decreases evs.len(),
{
    let s1 = event_step(s, evs[0]);
    lemma_unique_after(s, evs[0]);
    if s.acked.contains(id) {
        lemma_acked_never_resent(s, evs, id);
    } else if find_entry(s.unacked, id) is None {
        lemma_absent_never_resent(s, evs, id);
    } else if a == 0 {
        assert(s1.acked == s.acked.push(id));
        assert(s1.acked[s.acked.len() as int] == id);
        lemma_acked_never_resent(s1, evs.drop_first(), id);
    } else {
        let e = find_entry(s.unacked, id)->Some_0;
        lemma_find_some(s.unacked, id);
        assert(evs[0] == evs[0]);
        if let ReliabilityEvent::Tick(now_ms) = evs[0] {
            lemma_tick_find(s.unacked, s.acked, now_ms, id);
        }
        assert(find_entry(s1.unacked, id) == Some(e));
        let rest = evs.drop_first();
        assert forall|t: int| 0 <= t < a - 1 implies match #[trigger] rest[t] {
            ReliabilityEvent::Tick(now_ms) => match find_entry(s1.unacked, id) {
                Some(e) => now_ms <= e.sent_at_ms + RETRANSMISSION_TIMEOUT_MS,
                None => true,
            },
            ReliabilityEvent::Ack(_) => true,
        } by {
            assert(rest[t] == evs[t + 1]);
        }
        lemma_acked_in_time_sent_once(s1, rest, id, a - 1);
    }
}

} // verus!
