//! Reassembly of frames from their data packets, keyed by frame id.

use vstd::prelude::*;
use crate::packet::append_bytes;
use crate::protocol::DataHeader;

verus! {

/// A partial frame older than this, in milliseconds, is swept away.
pub const FRAME_TIMEOUT_MS: u64 = 5000;

/// The slots of a partial frame: the payload of each packet received so far.
pub type SlotsView = Seq<Option<Seq<u8>>>;

/// How many slots hold a payload.
pub open spec fn filled_count(s: SlotsView) -> nat
    decreases s.len(),
{
    if s.len() == 0 {
        0
    } else {
        filled_count(s.drop_last()) + if s.last() is Some {
            1nat
        } else {
            0nat
        }
    }
}

/// The payloads of the slots, concatenated in slot order.
pub open spec fn joined(s: SlotsView) -> Seq<u8>
    decreases s.len(),
{
    if s.len() == 0 {
        Seq::empty()
    } else {
        joined(s.drop_last()) + match s.last() {
            Some(b) => b,
            None => Seq::empty(),
        }
    }
}

/// What a partial frame holds.
pub struct PartialView {
    pub total_packets: u16,
    pub is_key_frame: bool,
    pub capture_timestamp_ns: u64,
    pub last_seen_ms: u64,
    pub slots: SlotsView,
}

/// The partial frame that the first packet of a frame opens.
pub open spec fn fresh_partial(h: DataHeader, now_ms: u64) -> PartialView {
    PartialView {
        total_packets: h.total_packets,
        is_key_frame: h.is_key_frame != 0,
        capture_timestamp_ns: h.capture_timestamp_ns,
        last_seen_ms: now_ms,
        slots: Seq::new(h.total_packets as nat, |i: int| None),
    }
}

/// What one packet did to the registry.
pub enum IngestView {
    Stored,
    Completed { frame: Seq<u8>, is_key_frame: bool, capture_timestamp_ns: u64 },
    DuplicateIgnored,
    InvalidPacketId,
}

/// The registry after one packet, and what came of the packet.
pub open spec fn ingest_spec(
    m: Map<u32, PartialView>,
    h: DataHeader,
    payload: Seq<u8>,
    now_ms: u64,
) -> (Map<u32, PartialView>, IngestView) {
    let id = h.frame_id;
    let cur = if m.contains_key(id) {
        m[id]
    } else {
        fresh_partial(h, now_ms)
    };
    let pid = h.packet_id as int;
    if pid >= cur.total_packets {
        (m, IngestView::InvalidPacketId)
    } else if cur.slots[pid] is Some {
        (
            m.insert(
                id,
                PartialView {
                    total_packets: cur.total_packets,
                    is_key_frame: cur.is_key_frame,
                    capture_timestamp_ns: cur.capture_timestamp_ns,
                    last_seen_ms: now_ms,
                    slots: cur.slots,
                },
            ),
            IngestView::DuplicateIgnored,
        )
    } else {
        let slots = cur.slots.update(pid, Some(payload));
        if filled_count(slots) == cur.total_packets {
            (
                m.remove(id),
                IngestView::Completed {
                    frame: joined(slots),
                    is_key_frame: cur.is_key_frame,
                    capture_timestamp_ns: cur.capture_timestamp_ns,
                },
            )
        } else {
            (
                m.insert(
                    id,
                    PartialView {
                        total_packets: cur.total_packets,
                        is_key_frame: cur.is_key_frame,
                        capture_timestamp_ns: cur.capture_timestamp_ns,
                        last_seen_ms: now_ms,
                        slots,
                    },
                ),
                IngestView::Stored,
            )
        }
    }
}

/// Whether a partial frame last seen at `last_seen_ms` has timed out at `now_ms`.
pub open spec fn is_expired(last_seen_ms: u64, now_ms: u64) -> bool {
    now_ms > last_seen_ms + FRAME_TIMEOUT_MS
}

// ---------------------------------------------------------------------------
// Lemmas on slots

/// No more slots are filled than there are, and when all are, each holds a payload.
pub proof fn lemma_filled_count_bound(s: SlotsView)
    ensures
        filled_count(s) <= s.len(),
        filled_count(s) == s.len() ==> forall|i: int| 0 <= i < s.len() ==> (#[trigger] s[i]) is Some,
    decreases s.len(),
{
    if s.len() > 0 {
        lemma_filled_count_bound(s.drop_last());
        assert forall|i: int| 0 <= i < s.len() && filled_count(s) == s.len() implies (
        #[trigger] s[i]) is Some by {
            if i < s.len() - 1 {
                assert(s.drop_last()[i] == s[i]);
            }
        }
    }
}

/// A fresh slot array has no slot filled.
pub proof fn lemma_filled_count_empty(n: nat)
    ensures
        filled_count(Seq::new(n, |i: int| None::<Seq<u8>>)) == 0,
    decreases n,
{
    if n > 0 {
        let s = Seq::new(n, |i: int| None::<Seq<u8>>);
        assert(s.drop_last() =~= Seq::new((n - 1) as nat, |i: int| None::<Seq<u8>>));
        lemma_filled_count_empty((n - 1) as nat);
    }
}

/// Filling an empty slot fills one more.
pub proof fn lemma_filled_count_update(s: SlotsView, i: int, b: Seq<u8>)
    requires
        0 <= i < s.len(),
        s[i] is None,
    ensures
        filled_count(s.update(i, Some(b))) == filled_count(s) + 1,
    decreases s.len(),
{
    let t = s.update(i, Some(b));
    if i == s.len() - 1 {
        assert(t.drop_last() =~= s.drop_last());
    } else {
        assert(t.drop_last() =~= s.drop_last().update(i, Some(b)));
        lemma_filled_count_update(s.drop_last(), i, b);
    }
}

proof fn lemma_joined_prefix(s: SlotsView, j: int)
    requires
        0 <= j < s.len(),
    ensures
        joined(s.subrange(0, j + 1)) == joined(s.subrange(0, j)) + match s[j] {
            Some(b) => b,
            None => Seq::empty(),
        },
{
    assert(s.subrange(0, j + 1).drop_last() =~= s.subrange(0, j));
}

// ---------------------------------------------------------------------------
// Partial frames

/// A frame whose packets are still arriving.
pub struct PartialFrame {
    frame_id: u32,
    slots: Vec<Option<Vec<u8>>>,
    received_count: u16,
    total_packets: u16,
    last_seen_ms: u64,
    is_key_frame: bool,
    capture_timestamp_ns: u64,
}

/// A slot with its payload as a sequence.
pub open spec fn slot_view(o: Option<Vec<u8>>) -> Option<Seq<u8>> {
    match o {
        Some(v) => Some(v@),
        None => None,
    }
}

impl View for PartialFrame {
    type V = PartialView;

    closed spec fn view(&self) -> PartialView {
        PartialView {
            total_packets: self.total_packets,
            is_key_frame: self.is_key_frame,
            capture_timestamp_ns: self.capture_timestamp_ns,
            last_seen_ms: self.last_seen_ms,
            slots: self.slots@.map_values(|o: Option<Vec<u8>>| slot_view(o)),
        }
    }
}

impl PartialFrame {
    /// The frame this partial frame belongs to.
    pub closed spec fn id(&self) -> u32 {
        self.frame_id
    }

    /// The slot vector matches the header and the counter matches the slots.
    pub closed spec fn wf(&self) -> bool {
        &&& self.slots@.len() == self.total_packets
        &&& self.received_count == filled_count(self@.slots)
    }

    fn new(h: &DataHeader, now_ms: u64) -> (r: PartialFrame)
        ensures
            r.wf(),
            r.id() == h.frame_id,
            r@ == fresh_partial(*h, now_ms),
    {
        let mut slots: Vec<Option<Vec<u8>>> = Vec::new();
        let mut i: u16 = 0;
        while i < h.total_packets
            invariant
                i <= h.total_packets,
                slots@.len() == i,
                forall|j: int| 0 <= j < i ==> slots@[j] is None,
            decreases h.total_packets - i,
        {
            slots.push(None);
            i = i + 1;
        }
        let r = PartialFrame {
            frame_id: h.frame_id,
            slots,
            received_count: 0,
            total_packets: h.total_packets,
            last_seen_ms: now_ms,
            is_key_frame: h.is_key_frame != 0,
            capture_timestamp_ns: h.capture_timestamp_ns,
        };
        proof {
            assert(r@.slots =~= fresh_partial(*h, now_ms).slots);
            lemma_filled_count_empty(h.total_packets as nat);
        }
        r
    }

    fn total_packets(&self) -> (r: u16)
        ensures
            r == self@.total_packets,
    {
        self.total_packets
    }

    fn is_filled(&self, i: u16) -> (r: bool)
        requires
            self.wf(),
            i < self@.total_packets,
        ensures
            r == self@.slots[i as int] is Some,
    {
        self.slots[i as usize].is_some()
    }

    fn touch(&mut self, now_ms: u64)
        requires
            old(self).wf(),
        ensures
            final(self).wf(),
            final(self).id() == old(self).id(),
            final(self)@ == (PartialView { last_seen_ms: now_ms, ..old(self)@ }),
    {
        self.last_seen_ms = now_ms;
    }

    /// Stores `payload` in empty slot `i`; true when every slot is then filled.
    fn fill(&mut self, i: u16, payload: Vec<u8>, now_ms: u64) -> (complete: bool)
        requires
            old(self).wf(),
            i < old(self)@.total_packets,
            old(self)@.slots[i as int] is None,
        ensures
            final(self).wf(),
            final(self).id() == old(self).id(),
            final(self)@ == (PartialView {
                last_seen_ms: now_ms,
                slots: old(self)@.slots.update(i as int, Some(payload@)),
                ..old(self)@
            }),
            complete == (filled_count(final(self)@.slots) == final(self)@.total_packets),
    {
        let ghost s0 = self@.slots;
        proof {
            lemma_filled_count_update(s0, i as int, payload@);
            lemma_filled_count_bound(s0.update(i as int, Some(payload@)));
        }
        self.slots.set(i as usize, Some(payload));
        self.received_count = self.received_count + 1;
        self.last_seen_ms = now_ms;
        assert(self@.slots =~= s0.update(i as int, Some(payload@)));
        self.received_count == self.total_packets
    }

    /// The payloads of all slots, concatenated in order.
    fn join(&self) -> (r: Vec<u8>)
        ensures
            r@ == joined(self@.slots),
    {
        let ghost s = self@.slots;
        let mut out: Vec<u8> = Vec::new();
        let mut j: usize = 0;
        while j < self.slots.len()
            invariant
                s == self@.slots,
                j <= s.len(),
                s.len() == self.slots@.len(),
                out@ == joined(s.subrange(0, j as int)),
            decreases self.slots@.len() - j,
        {
            proof {
                lemma_joined_prefix(s, j as int);
            }
            match &self.slots[j] {
                Some(b) => append_bytes(&mut out, b.as_slice()),
                None => {},
            }
            j = j + 1;
        }
        assert(s.subrange(0, j as int) =~= s);
        out
    }
}


// ---------------------------------------------------------------------------
// The registry

/// The outcome of handing one data packet to the registry.
#[derive(Debug, PartialEq, Eq)]
pub enum IngestOutcome {
    /// The payload filled a slot; the frame is still incomplete.
    Stored,
    /// The payload filled the last slot; the frame's bytes, in order.
    Completed { frame: Vec<u8>, is_key_frame: bool, capture_timestamp_ns: u64 },
    /// The slot was already filled; the packet was dropped.
    DuplicateIgnored,
    /// `packet_id` is not below `total_packets`; the packet was dropped.
    InvalidPacketId,
}

impl View for IngestOutcome {
    type V = IngestView;

    open spec fn view(&self) -> IngestView {
        match self {
            IngestOutcome::Stored => IngestView::Stored,
            IngestOutcome::Completed { frame, is_key_frame, capture_timestamp_ns } =>
                IngestView::Completed {
                frame: frame@,
                is_key_frame: *is_key_frame,
                capture_timestamp_ns: *capture_timestamp_ns,
            },
            IngestOutcome::DuplicateIgnored => IngestView::DuplicateIgnored,
            IngestOutcome::InvalidPacketId => IngestView::InvalidPacketId,
        }
    }
}

/// A partial frame removed by a sweep.
#[derive(Debug, Clone, Copy, PartialEq, Eq, Structural)]
pub struct ExpiredFrame {
    pub frame_id: u32,
    pub is_key_frame: bool,
}

/// The registry after a sweep at `now_ms`: the partial frames that have not
/// timed out.
pub open spec fn sweep_spec(m: Map<u32, PartialView>, now_ms: u64) -> Map<u32, PartialView> {
    Map::new(
        |id: u32| m.contains_key(id) && !is_expired(m[id].last_seen_ms, now_ms),
        |id: u32| m[id],
    )
}

/// The registry of partial frames, one per frame id.
pub struct Reassembler {
    frames: Vec<PartialFrame>,
    model: Ghost<Map<u32, PartialView>>,
}

/// `s` holds one well-formed partial frame for each frame id of `m`, and no other.
pub closed spec fn frames_match(s: Seq<PartialFrame>, m: Map<u32, PartialView>) -> bool {
    &&& forall|i: int, j: int| 0 <= i < j < s.len() ==> s[i].id() != s[j].id()
    &&& forall|i: int|
        #![trigger s[i]]
        0 <= i < s.len() ==> s[i].wf() && m.contains_key(s[i].id()) && m[s[i].id()] == s[i]@
    &&& forall|id: u32| #[trigger]
        m.contains_key(id) ==> exists|i: int| 0 <= i < s.len() && s[i].id() == id
}

proof fn lemma_frames_remove(s: Seq<PartialFrame>, m: Map<u32, PartialView>, i: int)
    requires
        frames_match(s, m),
        0 <= i < s.len(),
    ensures
        frames_match(s.remove(i), m.remove(s[i].id())),
{
    let t = s.remove(i);
    let n = m.remove(s[i].id());
    assert forall|a: int| 0 <= a < t.len() implies #[trigger] t[a] == s[if a < i {
        a
    } else {
        a + 1
    }] by {}
    assert forall|a: int, b: int| 0 <= a < b < t.len() implies t[a].id() != t[b].id() by {
        let a1 = if a < i {
            a
        } else {
            a + 1
        };
        let b1 = if b < i {
            b
        } else {
            b + 1
        };
        assert(t[a] == s[a1] && t[b] == s[b1]);
    }
    assert forall|a: int| 0 <= a < t.len() implies #[trigger] t[a].wf() && n.contains_key(
        t[a].id(),
    ) && n[t[a].id()] == t[a]@ by {
        let a1 = if a < i {
            a
        } else {
            a + 1
        };
        assert(t[a] == s[a1]);
        assert(s[a1].id() != s[i].id());
    }
    assert forall|id: u32| #[trigger] n.contains_key(id) implies exists|a: int|
        0 <= a < t.len() && t[a].id() == id by {
        let a1 = choose|a1: int| 0 <= a1 < s.len() && s[a1].id() == id;
        assert(a1 != i);
        let a = if a1 < i {
            a1
        } else {
            a1 - 1
        };
        assert(t[a] == s[a1]);
    }
}

proof fn lemma_frames_push(s: Seq<PartialFrame>, m: Map<u32, PartialView>, f: PartialFrame)
    requires
        frames_match(s, m),
        f.wf(),
        !m.contains_key(f.id()),
    ensures
        frames_match(s.push(f), m.insert(f.id(), f@)),
{
    let t = s.push(f);
    let n = m.insert(f.id(), f@);
    assert forall|a: int| 0 <= a < s.len() implies #[trigger] t[a] == s[a] by {}
    assert forall|a: int, b: int| 0 <= a < b < t.len() implies t[a].id() != t[b].id() by {
        assert(t[a] == s[a]);
        if b < s.len() {
            assert(t[b] == s[b]);
        }
    }
    assert forall|a: int| 0 <= a < t.len() implies #[trigger] t[a].wf() && n.contains_key(
        t[a].id(),
    ) && n[t[a].id()] == t[a]@ by {
        if a < s.len() {
            assert(t[a] == s[a]);
        }
    }
    assert forall|id: u32| #[trigger] n.contains_key(id) implies exists|a: int|
        0 <= a < t.len() && t[a].id() == id by {
        if id != f.id() {
            let a = choose|a: int| 0 <= a < s.len() && s[a].id() == id;
            assert(t[a] == s[a]);
        } else {
            assert(t[s.len() as int] == f);
        }
    }
}

impl View for Reassembler {
    type V = Map<u32, PartialView>;

    closed spec fn view(&self) -> Map<u32, PartialView> {
        self.model@
    }
}

impl Reassembler {
    /// Each stored partial frame is well formed and filed under its own id.
    pub closed spec fn wf(&self) -> bool {
        frames_match(self.frames@, self.model@)
    }

    /// Every partial frame in the registry has slots for each of its packets.
    pub proof fn lemma_slots_sized(&self, id: u32)
        requires
            self.wf(),
            self@.contains_key(id),
        ensures
            self@[id].slots.len() == self@[id].total_packets,
    {
        let i = choose|i: int| 0 <= i < self.frames@.len() && self.frames@[i].id() == id;
        assert(self.frames@[i].wf());
    }

    /// An empty registry.
    pub fn new() -> (r: Reassembler)
        ensures
            r.wf(),
            r@ == Map::<u32, PartialView>::empty(),
    {
        Reassembler { frames: Vec::new(), model: Ghost(Map::empty()) }
    }

    /// Number of partial frames held.
    pub fn len(&self) -> (r: usize)
        requires
            self.wf(),
        ensures
            r == self@.len(),
    {
        proof {
            self.lemma_len();
        }
        self.frames.len()
    }

    proof fn lemma_len(&self)
        requires
            self.wf(),
        ensures
            self.frames@.len() == self@.len(),
            self@.dom().finite(),
    {
        let s = self.frames@;
        let ids = Seq::new(s.len(), |i: int| s[i].id());
        assert(ids.no_duplicates());
        assert(ids.to_set() =~= self@.dom()) by {
            assert forall|id: u32| #[trigger] self@.contains_key(id) implies ids.to_set().contains(
                id,
            ) by {
                let i = choose|i: int| 0 <= i < s.len() && s[i].id() == id;
                assert(ids[i] == id);
            }
        }
        ids.unique_seq_to_set();
    }

    /// Drops every partial frame.
    pub fn clear(&mut self)
        ensures
            final(self).wf(),
            final(self)@ == Map::<u32, PartialView>::empty(),
    {
        self.frames = Vec::new();
        self.model = Ghost(Map::empty());
    }

    fn find(&self, id: u32) -> (r: Option<usize>)
        requires
            self.wf(),
        ensures
            match r {
                Some(i) => i < self.frames@.len() && self.frames@[i as int].id() == id,
                None => !self@.contains_key(id),
            },
    {
        let mut i: usize = 0;
        while i < self.frames.len()
            invariant
                i <= self.frames@.len(),
                forall|j: int| 0 <= j < i ==> self.frames@[j].id() != id,
            decreases self.frames@.len() - i,
        {
            if self.frames[i].frame_id == id {
                return Some(i);
            }
            i = i + 1;
        }
        None
    }

    /// How many packets of frame `frame_id` are held, if it is pending.
    pub fn received_count(&self, frame_id: u32) -> (r: Option<u16>)
        requires
            self.wf(),
        ensures
            match r {
                Some(n) => self@.contains_key(frame_id) && n == filled_count(
                    self@[frame_id].slots,
                ),
                None => !self@.contains_key(frame_id),
            },
    {
        match self.find(frame_id) {
            Some(i) => Some(self.frames[i].received_count),
            None => None,
        }
    }

    /// Hands one data packet to the registry. A packet of an unseen frame opens
    /// a partial frame whose metadata comes from this header; the packet that
    /// fills the last slot removes the frame and returns its bytes.
    pub fn ingest(&mut self, header: &DataHeader, payload: Vec<u8>, now_ms: u64) -> (r:
        IngestOutcome)
        requires
            old(self).wf(),
        ensures
            final(self).wf(),
            (final(self)@, r@) == ingest_spec(old(self)@, *header, payload@, now_ms),
    {
        let ghost m0 = self@;
        let id = header.frame_id;
        let pid = header.packet_id;
        let mut f = match self.find(id) {
            Some(i) => {
                proof {
                    lemma_frames_remove(self.frames@, self.model@, i as int);
                }
                let f = self.frames.remove(i);
                self.model = Ghost(self.model@.remove(id));
                f
            },
            None => {
                if pid >= header.total_packets {
                    return IngestOutcome::InvalidPacketId;
                }
                PartialFrame::new(header, now_ms)
            },
        };
        assert(f@ == if m0.contains_key(id) {
            m0[id]
        } else {
            fresh_partial(*header, now_ms)
        });
        assert(self@ == m0.remove(id));
        if pid >= f.total_packets() {
            proof {
                lemma_frames_push(self.frames@, self.model@, f);
            }
            self.frames.push(f);
            self.model = Ghost(self.model@.insert(id, f@));
            assert(self@ =~= m0);
            return IngestOutcome::InvalidPacketId;
        }
        if f.is_filled(pid) {
            f.touch(now_ms);
            proof {
                lemma_frames_push(self.frames@, self.model@, f);
            }
            self.frames.push(f);
            self.model = Ghost(self.model@.insert(id, f@));
            assert(self@ =~= m0.insert(id, f@));
            return IngestOutcome::DuplicateIgnored;
        }
        let complete = f.fill(pid, payload, now_ms);
        if complete {
            let frame = f.join();
            IngestOutcome::Completed {
                frame,
                is_key_frame: f.is_key_frame,
                capture_timestamp_ns: f.capture_timestamp_ns,
            }
        } else {
            proof {
                lemma_frames_push(self.frames@, self.model@, f);
            }
            self.frames.push(f);
            self.model = Ghost(self.model@.insert(id, f@));
            assert(self@ =~= m0.insert(id, f@));
            IngestOutcome::Stored
        }
    }

    /// Removes every partial frame that has timed out at `now_ms`, and lists them.
    pub fn sweep(&mut self, now_ms: u64) -> (r: Vec<ExpiredFrame>)
        requires
            old(self).wf(),
        ensures
            final(self).wf(),
            final(self)@ == sweep_spec(old(self)@, now_ms),
            forall|k: int|
                #![trigger r@[k]]
                0 <= k < r@.len() ==> {
                    let id = r@[k].frame_id;
                    &&& old(self)@.contains_key(id)
                    &&& is_expired(old(self)@[id].last_seen_ms, now_ms)
                    &&& r@[k].is_key_frame == old(self)@[id].is_key_frame
                },
            forall|id: u32|
                old(self)@.contains_key(id) && is_expired(old(self)@[id].last_seen_ms, now_ms)
                    ==> exists|k: int| 0 <= k < r@.len() && (#[trigger] r@[k]).frame_id == id,
            forall|k: int, l: int| 0 <= k < l < r@.len() ==> r@[k].frame_id != r@[l].frame_id,
    {
        let ghost m0 = self@;
        let mut out: Vec<ExpiredFrame> = Vec::new();
        let mut i: usize = 0;
        while i < self.frames.len()
            invariant
                frames_match(self.frames@, self.model@),
                i <= self.frames@.len(),
                forall|id: u32| #[trigger]
                    self.model@.contains_key(id) ==> m0.contains_key(id) && self.model@[id]
                        == m0[id],
                forall|id: u32|
                    m0.contains_key(id) && !is_expired(m0[id].last_seen_ms, now_ms)
                        ==> #[trigger] self.model@.contains_key(id),
                forall|id: u32|
                    m0.contains_key(id) && is_expired(m0[id].last_seen_ms, now_ms)
                        && !self.model@.contains_key(id) ==> exists|k: int|
                        0 <= k < out@.len() && (#[trigger] out@[k]).frame_id == id,
                forall|j: int|
                    0 <= j < i ==> !is_expired(
                        (#[trigger] self.frames@[j])@.last_seen_ms,
                        now_ms,
                    ),
                forall|k: int|
                    #![trigger out@[k]]
                    0 <= k < out@.len() ==> {
                        let id = out@[k].frame_id;
                        &&& m0.contains_key(id)
                        &&& !self.model@.contains_key(id)
                        &&& is_expired(m0[id].last_seen_ms, now_ms)
                        &&& out@[k].is_key_frame == m0[id].is_key_frame
                    },
                forall|k: int, l: int| 0 <= k < l < out@.len() ==> out@[k].frame_id != out@[l].frame_id,
            decreases self.frames@.len() - i,
        {
            let last_seen = self.frames[i].last_seen_ms;
            assert(self.frames@[i as int]@.last_seen_ms == last_seen);
            if now_ms > last_seen && now_ms - last_seen > FRAME_TIMEOUT_MS {
                let ghost id = self.frames@[i as int].id();
                proof {
                    lemma_frames_remove(self.frames@, self.model@, i as int);
                }
                let f = self.frames.remove(i);
                self.model = Ghost(self.model@.remove(id));
                let e = ExpiredFrame { frame_id: f.frame_id, is_key_frame: f.is_key_frame };
                let ghost out0 = out@;
                out.push(e);
                proof {
                    assert(out@[out@.len() - 1] == e);
                    assert forall|id2: u32|
                        m0.contains_key(id2) && is_expired(m0[id2].last_seen_ms, now_ms)
                            && !self.model@.contains_key(id2) implies exists|k: int|
                        0 <= k < out@.len() && (#[trigger] out@[k]).frame_id == id2 by {
                        if id2 == id {
                            assert(out@[out@.len() - 1].frame_id == id2);
                        } else {
                            let k = choose|k: int| 0 <= k < out0.len() && (#[trigger] out0[k]).frame_id == id2;
                            assert(out@[k] == out0[k]);
                        }
                    }
                }
            } else {
                i = i + 1;
            }
        }
        proof {
            assert forall|id: u32| #[trigger]
                self.model@.contains_key(id) implies !is_expired(m0[id].last_seen_ms, now_ms) by {
                let j = choose|j: int| 0 <= j < self.frames@.len() && self.frames@[j].id() == id;
                assert(self.frames@[j]@ == self.model@[id]);
            }
            assert(self.model@ =~= sweep_spec(m0, now_ms));
        }
        out
    }
}

} // verus!
