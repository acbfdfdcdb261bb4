//! The registry over whole sequences of packets: what reassembly guarantees
//! whatever order the fragments of a frame arrive in.

use vstd::prelude::*;
use crate::fragment::{
    ceil_div, chunks, fragment_header, lemma_fragment_partition, MAX_FRAGMENTS,
};
use crate::protocol::{DataHeader, MAX_PAYLOAD_SIZE};
use crate::reassembly::{
    filled_count, fresh_partial, ingest_spec, joined, lemma_filled_count_bound,
    lemma_filled_count_empty, lemma_filled_count_update, IngestView, PartialView, SlotsView,
};

verus! {

/// The registry after handing it `pkts` in order, the `k`-th at time `now_ms[k]`,
/// and the outcome of each packet.
pub open spec fn run_ingest(
    m: Map<u32, PartialView>,
    pkts: Seq<(DataHeader, Seq<u8>)>,
    now_ms: Seq<u64>,
) -> (Map<u32, PartialView>, Seq<IngestView>)
    decreases pkts.len(),
{
    if pkts.len() == 0 {
        (m, Seq::empty())
    } else {
        let first = ingest_spec(m, pkts[0].0, pkts[0].1, now_ms[0]);
        let rest = run_ingest(first.0, pkts.drop_first(), now_ms.drop_first());
        (rest.0, seq![first.1] + rest.1)
    }
}

/// One outcome per packet.
pub proof fn lemma_run_len(
    m: Map<u32, PartialView>,
    pkts: Seq<(DataHeader, Seq<u8>)>,
    now_ms: Seq<u64>,
)
    ensures
        run_ingest(m, pkts, now_ms).1.len() == pkts.len(),
    decreases pkts.len(),
{
    if pkts.len() > 0 {
        let first = ingest_spec(m, pkts[0].0, pkts[0].1, now_ms[0]);
        lemma_run_len(first.0, pkts.drop_first(), now_ms.drop_first());
    }
}

/// The packets that carry chunks `c` of a frame, in the order `order` gives
/// by chunk index.
pub open spec fn packets_in_order(
    frame_id: u32,
    is_key_frame: bool,
    capture_timestamp_ns: u64,
    c: Seq<Seq<u8>>,
    order: Seq<int>,
) -> Seq<(DataHeader, Seq<u8>)> {
    Seq::new(
        order.len(),
        |k: int|
            (
                fragment_header(frame_id, is_key_frame, capture_timestamp_ns, order[k], c.len()),
                c[order[k]],
            ),
    )
}

/// `order` names each of `0..n` exactly once.
pub open spec fn is_permutation(order: Seq<int>, n: nat) -> bool {
    &&& order.len() == n
    &&& order.no_duplicates()
    &&& forall|k: int| 0 <= k < order.len() ==> 0 <= #[trigger] order[k] < n
}

/// The slots of a partial frame of chunks `c` in which exactly the indices in
/// `d` have arrived.
pub open spec fn slots_for(c: Seq<Seq<u8>>, d: Set<int>) -> SlotsView {
    Seq::new(
        c.len(),
        |i: int|
            if d.contains(i) {
                Some(c[i])
            } else {
                None
            },
    )
}

proof fn lemma_joined_all(c: Seq<Seq<u8>>)
    ensures
        joined(Seq::new(c.len(), |i: int| Some(c[i]))) == c.flatten(),
    decreases c.len(),
{
    c.lemma_flatten_and_flatten_alt_are_equivalent();
    if c.len() > 0 {
        let s = Seq::new(c.len(), |i: int| Some(c[i]));
        let d = c.drop_last();
        assert(s.drop_last() =~= Seq::new(d.len(), |i: int| Some(d[i])));
        lemma_joined_all(d);
        d.lemma_flatten_and_flatten_alt_are_equivalent();
    }
}

/// The general form: from a registry in which the indices `d` (`dn` of them)
/// of the frame have arrived, the packets `order` (distinct and new) are
/// handed over in turn.
proof fn lemma_run_fragments(
    m: Map<u32, PartialView>,
    frame_id: u32,
    is_key_frame: bool,
    capture_timestamp_ns: u64,
    c: Seq<Seq<u8>>,
    d: Set<int>,
    dn: nat,
    order: Seq<int>,
    now_ms: Seq<u64>,
)
    requires
        1 <= c.len() <= MAX_FRAGMENTS,
        order.no_duplicates(),
        forall|k: int| 0 <= k < order.len() ==> 0 <= #[trigger] order[k] < c.len(),
        forall|k: int| 0 <= k < order.len() ==> !d.contains(#[trigger] order[k]),
        dn + order.len() <= c.len(),
        dn < c.len(),
        now_ms.len() == order.len(),
        filled_count(slots_for(c, d)) == dn,
        dn == 0 ==> !m.contains_key(frame_id) && d =~= Set::<int>::empty(),
        dn > 0 ==> m.contains_key(frame_id) && m[frame_id].total_packets == c.len()
            && m[frame_id].is_key_frame == is_key_frame && m[frame_id].capture_timestamp_ns
            == capture_timestamp_ns && m[frame_id].slots == slots_for(c, d),
    ensures
        ({
            let (m2, outs) = run_ingest(
                m,
                packets_in_order(frame_id, is_key_frame, capture_timestamp_ns, c, order),
                now_ms,
            );
            &&& outs.len() == order.len()
            &&& forall|k: int|
                0 <= k < order.len() ==> #[trigger] outs[k] == if dn + k + 1 == c.len() {
                    IngestView::Completed {
                        frame: c.flatten(),
                        is_key_frame,
                        capture_timestamp_ns,
                    }
                } else {
                    IngestView::Stored
                }
            &&& m2.remove(frame_id) == m.remove(frame_id)
            &&& (dn + order.len() == c.len() ==> !m2.contains_key(frame_id))
            &&& (0 < dn + order.len() < c.len() ==> m2.contains_key(frame_id))
        }),
    decreases order.len(),
{
    let pkts = packets_in_order(frame_id, is_key_frame, capture_timestamp_ns, c, order);
    if order.len() == 0 {
        return;
    }
    let n = c.len();
    let i = order[0];
    let h = pkts[0].0;
    assert(h == fragment_header(frame_id, is_key_frame, capture_timestamp_ns, i, n));
    assert(h.packet_id as int == i);
    assert(h.total_packets as int == n);
    let cur = if m.contains_key(frame_id) {
        m[frame_id]
    } else {
        fresh_partial(h, now_ms[0])
    };
    if dn == 0 {
        assert(cur.slots =~= slots_for(c, d));
    }
    assert(cur.slots == slots_for(c, d));
    assert(cur.total_packets == n);
    assert(cur.is_key_frame == is_key_frame);
    assert(cur.capture_timestamp_ns == capture_timestamp_ns);
    let d2 = d.insert(i);
    let slots = cur.slots.update(i, Some(c[i]));
    assert(slots =~= slots_for(c, d2));
    lemma_filled_count_update(cur.slots, i, c[i]);
    let first = ingest_spec(m, h, pkts[0].1, now_ms[0]);
    let rest_order = order.drop_first();
    assert(pkts.drop_first() =~= packets_in_order(
        frame_id,
        is_key_frame,
        capture_timestamp_ns,
        c,
        rest_order,
    ));
    if dn + 1 == n {
        lemma_filled_count_bound(slots);
        assert(slots =~= Seq::new(c.len(), |j: int| Some(c[j])));
        lemma_joined_all(c);
        assert(first.1 == IngestView::Completed {
            frame: c.flatten(),
            is_key_frame,
            capture_timestamp_ns,
        });
        assert(rest_order.len() == 0);
        let res = run_ingest(m, pkts, now_ms);
        assert(res.1 =~= seq![first.1]);
        assert(first.0 == m.remove(frame_id));
        assert(m.remove(frame_id).remove(frame_id) =~= m.remove(frame_id));
    } else {
        assert(first.1 == IngestView::Stored);
        assert forall|k: int| 0 <= k < rest_order.len() implies !d2.contains(
            #[trigger] rest_order[k],
        ) by {
            assert(rest_order[k] == order[k + 1]);
            assert(order[k + 1] != order[0]);
        }
        lemma_run_fragments(
            first.0,
            frame_id,
            is_key_frame,
            capture_timestamp_ns,
            c,
            d2,
            dn + 1,
            rest_order,
            now_ms.drop_first(),
        );
        let rest = run_ingest(first.0, pkts.drop_first(), now_ms.drop_first());
        let res = run_ingest(m, pkts, now_ms);
        assert(res.1 == seq![first.1] + rest.1);
        assert forall|k: int| 0 <= k < order.len() implies #[trigger] res.1[k] == if dn + k + 1
            == c.len() {
            IngestView::Completed { frame: c.flatten(), is_key_frame, capture_timestamp_ns }
        } else {
            IngestView::Stored
        } by {
            if k > 0 {
                assert(res.1[k] == rest.1[k - 1]);
            }
        }
        assert(first.0.remove(frame_id) =~= m.remove(frame_id));
    }
}

/// Reassembly inverts fragmentation: handing the registry the fragments of a
/// non-empty frame in any order yields exactly one completion, on the last
/// fragment, with the frame's bytes and metadata, and leaves no partial frame
/// for that id behind.
pub proof fn lemma_reassembly_inverse(
    m: Map<u32, PartialView>,
    frame: Seq<u8>,
    frame_id: u32,
    is_key_frame: bool,
    capture_timestamp_ns: u64,
    order: Seq<int>,
    now_ms: Seq<u64>,
)
    requires
        !m.contains_key(frame_id),
        0 < frame.len() <= MAX_FRAGMENTS * MAX_PAYLOAD_SIZE,
        is_permutation(order, chunks(frame, MAX_PAYLOAD_SIZE as nat).len()),
        now_ms.len() == order.len(),
    ensures
        ({
            let c = chunks(frame, MAX_PAYLOAD_SIZE as nat);
            let (m2, outs) = run_ingest(
                m,
                packets_in_order(frame_id, is_key_frame, capture_timestamp_ns, c, order),
                now_ms,
            );
            &&& outs.len() == c.len()
            &&& outs.last() == IngestView::Completed { frame, is_key_frame, capture_timestamp_ns }
            &&& forall|k: int| 0 <= k < outs.len() - 1 ==> #[trigger] outs[k] == IngestView::Stored
            &&& m2 == m
        }),
{
    let p = MAX_PAYLOAD_SIZE as nat;
    let c = chunks(frame, p);
    lemma_fragment_partition(frame, p);
    assert(ceil_div(frame.len(), p) <= MAX_FRAGMENTS) by (nonlinear_arith)
        requires
            frame.len() <= MAX_FRAGMENTS * MAX_PAYLOAD_SIZE,
            p == MAX_PAYLOAD_SIZE,
    ;
    assert(slots_for(c, Set::empty()) =~= Seq::new(c.len(), |i: int| None::<Seq<u8>>));
    lemma_filled_count_empty(c.len());
    lemma_run_fragments(
        m,
        frame_id,
        is_key_frame,
        capture_timestamp_ns,
        c,
        Set::empty(),
        0,
        order,
        now_ms,
    );
    let (m2, outs) = run_ingest(
        m,
        packets_in_order(frame_id, is_key_frame, capture_timestamp_ns, c, order),
        now_ms,
    );
    assert(outs[outs.len() - 1] == IngestView::Completed {
        frame,
        is_key_frame,
        capture_timestamp_ns,
    });
    assert(m.remove(frame_id) =~= m);
    assert(m2 =~= m2.remove(frame_id));
}

/// A frame completes at most once: however few or many of its fragments
/// arrive, in whatever order, as long as none arrives twice, at most one of
/// them completes the frame.
pub proof fn lemma_completes_at_most_once(
    m: Map<u32, PartialView>,
    frame: Seq<u8>,
    frame_id: u32,
    is_key_frame: bool,
    capture_timestamp_ns: u64,
    order: Seq<int>,
    now_ms: Seq<u64>,
)
    requires
        !m.contains_key(frame_id),
        0 < frame.len() <= MAX_FRAGMENTS * MAX_PAYLOAD_SIZE,
        order.no_duplicates(),
        now_ms.len() == order.len(),
        forall|k: int|
            0 <= k < order.len() ==> 0 <= #[trigger] order[k] < chunks(
                frame,
                MAX_PAYLOAD_SIZE as nat,
            ).len(),
    ensures
        ({
            let c = chunks(frame, MAX_PAYLOAD_SIZE as nat);
            let (m2, outs) = run_ingest(
                m,
                packets_in_order(frame_id, is_key_frame, capture_timestamp_ns, c, order),
                now_ms,
            );
            forall|k: int, l: int|
                0 <= k < outs.len() && 0 <= l < outs.len() && (#[trigger] outs[k]) is Completed
                    && (#[trigger] outs[l]) is Completed ==> k == l
        }),
{
    let p = MAX_PAYLOAD_SIZE as nat;
    let c = chunks(frame, p);
    lemma_fragment_partition(frame, p);
    assert(ceil_div(frame.len(), p) <= MAX_FRAGMENTS) by (nonlinear_arith)
        requires
            frame.len() <= MAX_FRAGMENTS * MAX_PAYLOAD_SIZE,
            p == MAX_PAYLOAD_SIZE,
    ;
    order.unique_seq_to_set();
    let range = Set::new(|i: int| 0 <= i < c.len());
    assert(order.to_set().subset_of(range));
    vstd::set_lib::lemma_int_range(0, c.len() as int);
    assert(range =~= vstd::set_lib::set_int_range(0, c.len() as int));
    vstd::set_lib::lemma_len_subset(order.to_set(), range);
    assert(slots_for(c, Set::empty()) =~= Seq::new(c.len(), |i: int| None::<Seq<u8>>));
    lemma_filled_count_empty(c.len());
    lemma_run_fragments(
        m,
        frame_id,
        is_key_frame,
        capture_timestamp_ns,
        c,
        Set::empty(),
        0,
        order,
        now_ms,
    );
}


/// Every partial frame of `m` has one slot per packet.
pub open spec fn slots_sized(m: Map<u32, PartialView>) -> bool {
    forall|id: u32| #[trigger]
        m.contains_key(id) ==> m[id].slots.len() == m[id].total_packets
}

/// `k` copies of one packet.
pub open spec fn repeated(h: DataHeader, payload: Seq<u8>, k: nat) -> Seq<(DataHeader, Seq<u8>)> {
    Seq::new(k, |j: int| (h, payload))
}

proof fn lemma_repeat_filled(m: Map<u32, PartialView>, h: DataHeader, payload: Seq<u8>, now_ms: Seq<u64>)
    requires
        m.contains_key(h.frame_id),
        m[h.frame_id].slots.len() == m[h.frame_id].total_packets,
        (h.packet_id as int) < m[h.frame_id].total_packets,
        m[h.frame_id].slots[h.packet_id as int] is Some,
    ensures
        ({
            let (m2, outs) = run_ingest(m, repeated(h, payload, now_ms.len()), now_ms);
            &&& outs.len() == now_ms.len()
            &&& forall|j: int| 0 <= j < outs.len() ==> #[trigger] outs[j] == IngestView::DuplicateIgnored
            &&& m2.contains_key(h.frame_id)
            &&& m2[h.frame_id].slots == m[h.frame_id].slots
            &&& m2[h.frame_id].total_packets == m[h.frame_id].total_packets
            &&& m2.remove(h.frame_id) == m.remove(h.frame_id)
        }),
    decreases now_ms.len(),
{
    let pkts = repeated(h, payload, now_ms.len());
    if now_ms.len() > 0 {
        let first = ingest_spec(m, h, payload, now_ms[0]);
        assert(pkts.drop_first() =~= repeated(h, payload, (now_ms.len() - 1) as nat));
        lemma_repeat_filled(first.0, h, payload, now_ms.drop_first());
        let rest = run_ingest(first.0, pkts.drop_first(), now_ms.drop_first());
        let res = run_ingest(m, pkts, now_ms);
        assert forall|j: int| 0 <= j < res.1.len() implies #[trigger] res.1[j]
            == IngestView::DuplicateIgnored by {
            if j > 0 {
                assert(res.1[j] == rest.1[j - 1]);
            }
        }
        assert(first.0.remove(h.frame_id) =~= m.remove(h.frame_id));
    }
}

proof fn lemma_repeat_invalid(m: Map<u32, PartialView>, h: DataHeader, payload: Seq<u8>, now_ms: Seq<u64>)
    requires
        (h.packet_id as int) >= (if m.contains_key(h.frame_id) {
            m[h.frame_id].total_packets
        } else {
            h.total_packets
        }),
    ensures
        ({
            let (m2, outs) = run_ingest(m, repeated(h, payload, now_ms.len()), now_ms);
            &&& outs.len() == now_ms.len()
            &&& forall|j: int| 0 <= j < outs.len() ==> #[trigger] outs[j] == IngestView::InvalidPacketId
            &&& m2 == m
        }),
    decreases now_ms.len(),
{
    let pkts = repeated(h, payload, now_ms.len());
    if now_ms.len() > 0 {
        assert(pkts.drop_first() =~= repeated(h, payload, (now_ms.len() - 1) as nat));
        lemma_repeat_invalid(m, h, payload, now_ms.drop_first());
        let rest = run_ingest(m, pkts.drop_first(), now_ms.drop_first());
        let res = run_ingest(m, pkts, now_ms);
        assert forall|j: int| 0 <= j < res.1.len() implies #[trigger] res.1[j]
            == IngestView::InvalidPacketId by {
            if j > 0 {
                assert(res.1[j] == rest.1[j - 1]);
            }
        }
    }
}

/// Duplicates are idempotent: handing the registry one packet `k` times fills
/// at most one slot. Unless the first copy completes the frame, every later
/// copy is ignored (or rejected, as the first was), and the slots stay as the
/// first copy left them.
pub proof fn lemma_duplicate_idempotent(
    m: Map<u32, PartialView>,
    h: DataHeader,
    payload: Seq<u8>,
    now_ms: Seq<u64>,
)
    requires
        slots_sized(m),
        now_ms.len() >= 1,
    ensures
        ({
            let id = h.frame_id;
            let (m1, first) = ingest_spec(m, h, payload, now_ms[0]);
            let (m2, outs) = run_ingest(m, repeated(h, payload, now_ms.len()), now_ms);
            &&& outs.len() == now_ms.len()
            &&& outs[0] == first
            &&& (m.contains_key(id) && m1.contains_key(id) ==> filled_count(m1[id].slots)
                <= filled_count(m[id].slots) + 1)
            &&& (!(first is Completed) ==> {
                &&& forall|j: int|
                    1 <= j < outs.len() ==> #[trigger] outs[j] == if first is InvalidPacketId {
                        IngestView::InvalidPacketId
                    } else {
                        IngestView::DuplicateIgnored
                    }
                &&& m2.contains_key(id) == m1.contains_key(id)
                &&& (m1.contains_key(id) ==> m2[id].slots == m1[id].slots)
                &&& m2.remove(id) == m1.remove(id)
            })
        }),
{
    let id = h.frame_id;
    let pid = h.packet_id as int;
    let pkts = repeated(h, payload, now_ms.len());
    let (m1, first) = ingest_spec(m, h, payload, now_ms[0]);
    let tail = now_ms.drop_first();
    assert(pkts.drop_first() =~= repeated(h, payload, tail.len()));
    let rest = run_ingest(m1, pkts.drop_first(), tail);
    let res = run_ingest(m, pkts, now_ms);
    assert(res.1 == seq![first] + rest.1);
    let cur = if m.contains_key(id) {
        m[id]
    } else {
        fresh_partial(h, now_ms[0])
    };
    if pid < cur.total_packets && cur.slots[pid] is None {
        lemma_filled_count_update(cur.slots, pid, payload);
    }
    lemma_run_len(m1, pkts.drop_first(), tail);
    assert(res.1[0] == first);
    if m.contains_key(id) && m1.contains_key(id) {
        assert(filled_count(m1[id].slots) <= filled_count(m[id].slots) + 1);
    }
    if first is InvalidPacketId {
        lemma_repeat_invalid(m1, h, payload, tail);
        assert forall|j: int| 1 <= j < res.1.len() implies #[trigger] res.1[j]
            == IngestView::InvalidPacketId by {
            assert(res.1[j] == rest.1[j - 1]);
        }
    } else if !(first is Completed) {
        assert(m1.contains_key(id));
        lemma_repeat_filled(m1, h, payload, tail);
        assert forall|j: int| 1 <= j < res.1.len() implies #[trigger] res.1[j]
            == IngestView::DuplicateIgnored by {
            assert(res.1[j] == rest.1[j - 1]);
        }
    }
}

} // verus!
