//! The sender: frame ids, fragmentation, and the retransmission table that
//! keeps key frames until they are acknowledged or given up.

use vstd::prelude::*;
use crate::fragment::{bytes_of, fragment_frame, fragment_result, FragmentError};
use crate::packet::{append_bytes, classify, parse_datagram, Packet, PacketView};

verus! {

/// A key frame not acknowledged this long after it was sent, in milliseconds,
/// is sent again.
pub const RETRANSMISSION_TIMEOUT_MS: u64 = 500;

/// How many times an unacknowledged key frame is sent again before it is
/// given up.
pub const MAX_RETRIES: u8 = 5;

/// The frame id after `id`, wrapping at 2^32.
pub open spec fn next_id(id: u32) -> u32 {
    if id == u32::MAX {
        0
    } else {
        (id + 1) as u32
    }
}

/// A key frame waiting for its acknowledgement.
pub struct UnackedView {
    pub frame_id: u32,
    pub datagrams: Seq<Seq<u8>>,
    pub sent_at_ms: u64,
    pub retries: u8,
}

/// What the sender holds.
pub struct SenderView {
    pub next_frame_id: u32,
    pub unacked: Seq<UnackedView>,
    pub acked: Seq<u32>,
}

/// `es` without its entry for `id`.
pub open spec fn without_id(es: Seq<UnackedView>, id: u32) -> Seq<UnackedView>
    decreases es.len(),
{
    if es.len() == 0 {
        Seq::empty()
    } else {
        without_id(es.drop_last(), id) + if es.last().frame_id == id {
            Seq::empty()
        } else {
            seq![es.last()]
        }
    }
}

/// The entry of `es` for `id`, if any.
pub open spec fn find_entry(es: Seq<UnackedView>, id: u32) -> Option<UnackedView>
    decreases es.len(),
{
    if es.len() == 0 {
        None
    } else if es.last().frame_id == id {
        Some(es.last())
    } else {
        find_entry(es.drop_last(), id)
    }
}

/// No two entries share a frame id.
pub open spec fn ids_unique(es: Seq<UnackedView>) -> bool {
    forall|i: int, j: int|
        0 <= i < j < es.len() ==> (#[trigger] es[i]).frame_id != (#[trigger] es[j]).frame_id
}

/// The sender after handing out frame `s.next_frame_id` as `datagrams`.
pub open spec fn sent_spec(
    s: SenderView,
    is_key_frame: bool,
    datagrams: Seq<Seq<u8>>,
    now_ms: u64,
) -> SenderView {
    SenderView {
        next_frame_id: next_id(s.next_frame_id),
        unacked: if is_key_frame {
            without_id(s.unacked, s.next_frame_id).push(
                UnackedView {
                    frame_id: s.next_frame_id,
                    datagrams,
                    sent_at_ms: now_ms,
                    retries: 0,
                },
            )
        } else {
            s.unacked
        },
        acked: s.acked,
    }
}

/// The sender after an acknowledgement of `id` arrived.
pub open spec fn ack_spec(s: SenderView, id: u32) -> SenderView {
    if s.acked.contains(id) {
        s
    } else {
        SenderView { acked: s.acked.push(id), ..s }
    }
}

/// What a retransmission tick does with one entry.
pub enum Fate {
    /// It was acknowledged and leaves the table.
    Confirmed,
    /// It has not timed out yet.
    Waiting,
    /// It timed out and is sent again.
    Retried,
    /// It timed out with no retries left and leaves the table.
    GaveUp,
}

/// The fate of entry `e` in a tick at `now_ms`, given the acknowledgements `acked`.
pub open spec fn fate(e: UnackedView, acked: Seq<u32>, now_ms: u64) -> Fate {
    if acked.contains(e.frame_id) {
        Fate::Confirmed
    } else if now_ms > e.sent_at_ms + RETRANSMISSION_TIMEOUT_MS {
        if e.retries < MAX_RETRIES {
            Fate::Retried
        } else {
            Fate::GaveUp
        }
    } else {
        Fate::Waiting
    }
}

/// The entry after a tick in which it was sent again.
pub open spec fn retried(e: UnackedView, now_ms: u64) -> UnackedView {
    UnackedView { sent_at_ms: now_ms, retries: (e.retries + 1) as u8, ..e }
}

/// The entries that stay after a tick, in order.
pub open spec fn tick_unacked(es: Seq<UnackedView>, acked: Seq<u32>, now_ms: u64) -> Seq<
    UnackedView,
>
    decreases es.len(),
{
    if es.len() == 0 {
        Seq::empty()
    } else {
        let e = es.last();
        tick_unacked(es.drop_last(), acked, now_ms) + match fate(e, acked, now_ms) {
            Fate::Waiting => seq![e],
            Fate::Retried => seq![retried(e, now_ms)],
            _ => Seq::empty(),
        }
    }
}

/// The datagrams a tick sends again, frame by frame in table order.
pub open spec fn tick_resent(es: Seq<UnackedView>, acked: Seq<u32>, now_ms: u64) -> Seq<Seq<u8>>
    decreases es.len(),
{
    if es.len() == 0 {
        Seq::empty()
    } else {
        let e = es.last();
        tick_resent(es.drop_last(), acked, now_ms) + if fate(e, acked, now_ms) is Retried {
            e.datagrams
        } else {
            Seq::empty()
        }
    }
}

/// The ids of the entries whose fate in a tick is `f`, in table order.
pub open spec fn tick_ids(es: Seq<UnackedView>, acked: Seq<u32>, now_ms: u64, f: Fate) -> Seq<u32>
    decreases es.len(),
{
    if es.len() == 0 {
        Seq::empty()
    } else {
        let e = es.last();
        tick_ids(es.drop_last(), acked, now_ms, f) + if fate(e, acked, now_ms) == f {
            seq![e.frame_id]
        } else {
            Seq::empty()
        }
    }
}

/// The sender after a retransmission tick: acknowledged entries are gone,
/// timed-out ones retried or given up, and the acknowledgements consumed.
pub open spec fn tick_spec(s: SenderView, now_ms: u64) -> SenderView {
    SenderView {
        next_frame_id: s.next_frame_id,
        unacked: tick_unacked(s.unacked, s.acked, now_ms),
        acked: Seq::empty(),
    }
}

/// What one control datagram from the receiver asks of the sender.
#[derive(Debug, Clone, Copy, PartialEq, Eq, Structural)]
pub enum ControlOutcome {
    /// An acknowledgement of this frame id was recorded.
    Acked(u32),
    /// The receiver asks for a new key frame.
    KeyFrameRequested,
    /// Anything else; nothing changed.
    Ignored,
}

/// A frame's id and the datagrams that carry it, in `packet_id` order.
pub struct OutgoingFrame {
    pub frame_id: u32,
    pub datagrams: Vec<Vec<u8>>,
}

/// What a retransmission tick did.
pub struct TickReport {
    /// Datagrams to send again, in order.
    pub retransmit: Vec<Vec<u8>>,
    /// Key frames whose acknowledgement removed them from the table.
    pub confirmed: Vec<u32>,
    /// Key frames dropped after `MAX_RETRIES` retransmissions.
    pub given_up: Vec<u32>,
}

struct UnackedFrame {
    frame_id: u32,
    datagrams: Vec<Vec<u8>>,
    sent_at_ms: u64,
    retries: u8,
}

impl View for UnackedFrame {
    type V = UnackedView;

    closed spec fn view(&self) -> UnackedView {
        UnackedView {
            frame_id: self.frame_id,
            datagrams: bytes_of(self.datagrams@),
            sent_at_ms: self.sent_at_ms,
            retries: self.retries,
        }
    }
}

spec fn views_of(v: Seq<UnackedFrame>) -> Seq<UnackedView> {
    v.map_values(|e: UnackedFrame| e@)
}

/// Copies a list of datagrams.
fn copy_datagrams(v: &Vec<Vec<u8>>) -> (r: Vec<Vec<u8>>)
    ensures
        bytes_of(r@) == bytes_of(v@),
{
    let mut r: Vec<Vec<u8>> = Vec::new();
    let mut i: usize = 0;
    while i < v.len()
        invariant
            i <= v@.len(),
            r@.len() == i,
            forall|j: int| 0 <= j < i ==> (#[trigger] r@[j])@ == v@[j]@,
        decreases v@.len() - i,
    {
        let mut d: Vec<u8> = Vec::new();
        append_bytes(&mut d, v[i].as_slice());
        r.push(d);
        i = i + 1;
    }
    assert(bytes_of(r@) =~= bytes_of(v@));
    r
}

/// Appends each datagram of `src` to `dst`.
fn append_datagrams(dst: &mut Vec<Vec<u8>>, src: &Vec<Vec<u8>>)
    ensures
        bytes_of(final(dst)@) == bytes_of(old(dst)@) + bytes_of(src@),
{
    let c = copy_datagrams(src);
    let ghost d0 = dst@;
    let mut i: usize = 0;
    while i < c.len()
        invariant
            i <= c@.len(),
            bytes_of(c@) == bytes_of(src@),
            bytes_of(dst@) == bytes_of(d0) + bytes_of(c@).subrange(0, i as int),
        decreases c@.len() - i,
    {
        let mut d: Vec<u8> = Vec::new();
        append_bytes(&mut d, c[i].as_slice());
        let ghost before = dst@;
        dst.push(d);
        assert(bytes_of(dst@) =~= bytes_of(before) + seq![d@]);
        assert(bytes_of(c@).subrange(0, i + 1) =~= bytes_of(c@).subrange(0, i as int) + seq![
            c@[i as int]@,
        ]);
        i = i + 1;
    }
    assert(bytes_of(c@).subrange(0, i as int) =~= bytes_of(c@));
}


// ---------------------------------------------------------------------------
// Lemmas on the table

/// Every entry of `r` carries the id of some entry of `es`.
pub open spec fn ids_drawn_from(r: Seq<UnackedView>, es: Seq<UnackedView>) -> bool {
    forall|a: int|
        0 <= a < r.len() ==> exists|i: int|
            0 <= i < es.len() && (#[trigger] r[a]).frame_id == (#[trigger] es[i]).frame_id
}

/// No entry has used more than `MAX_RETRIES` retries.
pub open spec fn retries_bounded(es: Seq<UnackedView>) -> bool {
    forall|i: int| 0 <= i < es.len() ==> (#[trigger] es[i]).retries <= MAX_RETRIES
}

/// Removing an id keeps the other entries and what holds of them.
pub proof fn lemma_without_id(es: Seq<UnackedView>, id: u32)
    ensures
        ids_drawn_from(without_id(es, id), es),
        forall|a: int|
            0 <= a < without_id(es, id).len() ==> (#[trigger] without_id(es, id)[a]).frame_id
                != id,
        ids_unique(es) ==> ids_unique(without_id(es, id)),
        retries_bounded(es) ==> retries_bounded(without_id(es, id)),
        find_entry(without_id(es, id), id) is None,
    decreases es.len(),
{
    if es.len() > 0 {
        let d = es.drop_last();
        lemma_without_id(d, id);
        let r = without_id(es, id);
        let rd = without_id(d, id);
        assert forall|a: int| 0 <= a < r.len() implies exists|i: int|
            0 <= i < es.len() && (#[trigger] r[a]).frame_id == (#[trigger] es[i]).frame_id by {
            if a < rd.len() {
                assert(r[a] == rd[a]);
                let i = choose|i: int| 0 <= i < d.len() && rd[a].frame_id == d[i].frame_id;
                assert(es[i] == d[i]);
            } else {
                assert(r[a] == es.last());
                assert(es[es.len() - 1] == es.last());
            }
        }
        assert forall|a: int| 0 <= a < r.len() implies (#[trigger] r[a]).frame_id != id by {
            if a < rd.len() {
                assert(r[a] == rd[a]);
            }
        }
        if ids_unique(es) {
            assert forall|a: int, b: int| 0 <= a < b < r.len() implies (#[trigger] r[a]).frame_id
                != (#[trigger] r[b]).frame_id by {
                assert(r[a] == rd[a]);
                if b < rd.len() {
                    assert(r[b] == rd[b]);
                } else {
                    let i = choose|i: int| 0 <= i < d.len() && rd[a].frame_id == d[i].frame_id;
                    assert(es[i] == d[i]);
                    assert(r[b] == es[es.len() - 1]);
                }
            }
        }
        if retries_bounded(es) {
            assert forall|a: int| 0 <= a < r.len() implies (#[trigger] r[a]).retries
                <= MAX_RETRIES by {
                if a < rd.len() {
                    assert(r[a] == rd[a]);
                } else {
                    assert(r[a] == es[es.len() - 1]);
                }
            }
        }
        lemma_find_push(rd, if es.last().frame_id == id {
            Seq::empty()
        } else {
            seq![es.last()]
        }, id);
    }
}

/// Looking an id up in `a + b`, where `b` has at most one entry.
pub proof fn lemma_find_push(a: Seq<UnackedView>, b: Seq<UnackedView>, id: u32)
    requires
        b.len() <= 1,
    ensures
        find_entry(a + b, id) == if b.len() == 1 && b[0].frame_id == id {
            Some(b[0])
        } else {
            find_entry(a, id)
        },
{
    if b.len() == 1 {
        assert((a + b).drop_last() =~= a);
    } else {
        assert(a + b =~= a);
    }
}

/// An id that no entry carries is not found.
pub proof fn lemma_find_absent(es: Seq<UnackedView>, id: u32)
    requires
        forall|i: int| 0 <= i < es.len() ==> (#[trigger] es[i]).frame_id != id,
    ensures
        find_entry(es, id) is None,
    decreases es.len(),
{
    if es.len() > 0 {
        assert(es[es.len() - 1] == es.last());
        lemma_find_absent(es.drop_last(), id);
    }
}

/// An entry that is found carries the id looked for.
pub proof fn lemma_find_some(es: Seq<UnackedView>, id: u32)
    ensures
        find_entry(es, id) matches Some(e) ==> e.frame_id == id && exists|i: int|
            0 <= i < es.len() && es[i] == e,
    decreases es.len(),
{
    if es.len() > 0 {
        lemma_find_some(es.drop_last(), id);
        if es.last().frame_id != id {
            if let Some(e) = find_entry(es, id) {
                let i = choose|i: int| 0 <= i < es.drop_last().len() && es.drop_last()[i] == e;
                assert(es[i] == e);
            }
        } else {
            assert(es[es.len() - 1] == es.last());
        }
    }
}

/// A tick keeps only entries it was given, so what holds of their ids and
/// retries still holds.
pub proof fn lemma_tick_unacked(es: Seq<UnackedView>, acked: Seq<u32>, now_ms: u64)
    ensures
        ids_drawn_from(tick_unacked(es, acked, now_ms), es),
        ids_unique(es) ==> ids_unique(tick_unacked(es, acked, now_ms)),
        retries_bounded(es) ==> retries_bounded(tick_unacked(es, acked, now_ms)),
    decreases es.len(),
{
    if es.len() > 0 {
        let d = es.drop_last();
        lemma_tick_unacked(d, acked, now_ms);
        let r = tick_unacked(es, acked, now_ms);
        let rd = tick_unacked(d, acked, now_ms);
        let e = es.last();
        assert(es[es.len() - 1] == e);
        assert forall|a: int| 0 <= a < r.len() implies exists|i: int|
            0 <= i < es.len() && (#[trigger] r[a]).frame_id == (#[trigger] es[i]).frame_id by {
            if a < rd.len() {
                assert(r[a] == rd[a]);
                let i = choose|i: int| 0 <= i < d.len() && rd[a].frame_id == d[i].frame_id;
                assert(es[i] == d[i]);
            } else {
                assert(r[a].frame_id == es[es.len() - 1].frame_id);
            }
        }
        if ids_unique(es) {
            assert forall|a: int, b: int| 0 <= a < b < r.len() implies (#[trigger] r[a]).frame_id
                != (#[trigger] r[b]).frame_id by {
                assert(r[a] == rd[a]);
                if b < rd.len() {
                    assert(r[b] == rd[b]);
                } else {
                    let i = choose|i: int| 0 <= i < d.len() && rd[a].frame_id == d[i].frame_id;
                    assert(es[i] == d[i]);
                }
            }
        }
        if retries_bounded(es) {
            assert forall|a: int| 0 <= a < r.len() implies (#[trigger] r[a]).retries
                <= MAX_RETRIES by {
                if a < rd.len() {
                    assert(r[a] == rd[a]);
                }
            }
        }
    }
}

/// The sending side of a stream.
pub struct Sender {
    next_frame_id: u32,
    unacked: Vec<UnackedFrame>,
    acked: Vec<u32>,
}

impl View for Sender {
    type V = SenderView;

    closed spec fn view(&self) -> SenderView {
        SenderView {
            next_frame_id: self.next_frame_id,
            unacked: views_of(self.unacked@),
            acked: self.acked@,
        }
    }
}

impl Sender {
    /// The table holds at most one entry per frame id, none past its retries.
    pub open spec fn wf(&self) -> bool {
        &&& ids_unique(self@.unacked)
        &&& retries_bounded(self@.unacked)
    }

    /// A sender whose first frame gets id 0.
    pub fn new() -> (r: Sender)
        ensures
            r.wf(),
            r@ == (SenderView { next_frame_id: 0, unacked: Seq::empty(), acked: Seq::empty() }),
    {
        let r = Sender { next_frame_id: 0, unacked: Vec::new(), acked: Vec::new() };
        assert(r@.unacked =~= Seq::<UnackedView>::empty());
        r
    }

    /// The id the next frame will get.
    pub fn next_frame_id(&self) -> (r: u32)
        ensures
            r == self@.next_frame_id,
    {
        self.next_frame_id
    }

    /// Number of key frames waiting for an acknowledgement.
    pub fn unacked_count(&self) -> (r: usize)
        ensures
            r == self@.unacked.len(),
    {
        self.unacked.len()
    }
    /// Removes the entry for `id`, keeping the order of the others.
    fn remove_entry(&mut self, id: u32)
        requires
            old(self).wf(),
        ensures
            final(self).wf(),
            final(self)@ == (SenderView { unacked: without_id(old(self)@.unacked, id), ..old(self)@ }),
    {
        let ghost es = self@.unacked;
        let mut pending: Vec<UnackedFrame> = Vec::new();
        std::mem::swap(&mut pending, &mut self.unacked);
        let ghost n = pending@.len();
        let ghost k: int = 0;
        while pending.len() > 0
            invariant
                0 <= k <= n,
                n == es.len(),
                self.next_frame_id == old(self).next_frame_id,
                self.acked@ == old(self).acked@,
                pending@.len() == n - k,
                forall|j: int| 0 <= j < pending@.len() ==> (#[trigger] pending@[j])@ == es[k + j],
                views_of(self.unacked@) == without_id(es.subrange(0, k), id),
            decreases pending@.len(),
        {
            let e = pending.remove(0);
            assert(e@ == es[k]);
            let ghost before = views_of(self.unacked@);
            if e.frame_id != id {
                self.unacked.push(e);
            }
            assert(es.subrange(0, k + 1).drop_last() =~= es.subrange(0, k));
            assert(views_of(self.unacked@) =~= without_id(es.subrange(0, k + 1), id));
            proof {
                k = k + 1;
            }
        }
        assert(es.subrange(0, k) =~= es);
        proof {
            lemma_without_id(es, id);
        }
    }

    /// Gives the frame the next frame id and splits it into datagrams. A key
    /// frame is also kept, under its id, for retransmission until it is
    /// acknowledged. An empty or oversized frame consumes no id.
    pub fn send_frame(
        &mut self,
        frame: &[u8],
        is_key_frame: bool,
        capture_timestamp_ns: u64,
        now_ms: u64,
    ) -> (r: Result<OutgoingFrame, FragmentError>)
        requires
            old(self).wf(),
        ensures
            final(self).wf(),
            match r {
                Ok(out) => {
                    &&& out.frame_id == old(self)@.next_frame_id
                    &&& fragment_result(frame@, out.frame_id, is_key_frame, capture_timestamp_ns)
                        == Ok::<Seq<Seq<u8>>, FragmentError>(bytes_of(out.datagrams@))
                    &&& final(self)@ == sent_spec(
                        old(self)@,
                        is_key_frame,
                        bytes_of(out.datagrams@),
                        now_ms,
                    )
                },
                Err(e) => {
                    &&& fragment_result(
                        frame@,
                        old(self)@.next_frame_id,
                        is_key_frame,
                        capture_timestamp_ns,
                    ) == Err::<Seq<Seq<u8>>, FragmentError>(e)
                    &&& final(self)@ == old(self)@
                },
            },
    {
        let id = self.next_frame_id;
        match fragment_frame(frame, id, is_key_frame, capture_timestamp_ns) {
            Err(e) => Err(e),
            Ok(datagrams) => {
                if is_key_frame {
                    let cached = copy_datagrams(&datagrams);
                    self.remove_entry(id);
                    let ghost es = self@.unacked;
                    proof {
                        lemma_without_id(old(self)@.unacked, id);
                    }
                    let entry = UnackedFrame {
                        frame_id: id,
                        datagrams: cached,
                        sent_at_ms: now_ms,
                        retries: 0,
                    };
                    self.unacked.push(entry);
                    assert(self@.unacked =~= es.push(entry@));
                }
                self.next_frame_id = if id == u32::MAX {
                    0
                } else {
                    id + 1
                };
                Ok(OutgoingFrame { frame_id: id, datagrams })
            },
        }
    }

    /// Forgets the key frame `frame_id`, whose transmission failed.
    pub fn abandon_frame(&mut self, frame_id: u32)
        requires
            old(self).wf(),
        ensures
            final(self).wf(),
            final(self)@ == (SenderView {
                unacked: without_id(old(self)@.unacked, frame_id),
                ..old(self)@
            }),
    {
        self.remove_entry(frame_id);
    }

    fn is_acked(&self, id: u32) -> (r: bool)
        ensures
            r == self@.acked.contains(id),
    {
        let mut i: usize = 0;
        while i < self.acked.len()
            invariant
                i <= self.acked@.len(),
                forall|j: int| 0 <= j < i ==> self.acked@[j] != id,
            decreases self.acked@.len() - i,
        {
            if self.acked[i] == id {
                assert(self.acked@[i as int] == id);
                return true;
            }
            i = i + 1;
        }
        false
    }

    /// Handles one datagram from the receiver: an acknowledgement is recorded
    /// for the next tick, and a key-frame request is reported to the caller.
    pub fn on_control_datagram(&mut self, datagram: &[u8]) -> (r: ControlOutcome)
        requires
            old(self).wf(),
        ensures
            final(self).wf(),
            match parse_datagram(datagram@) {
                Ok(PacketView::Ack(a)) => r == ControlOutcome::Acked(a.frame_id) && final(self)@
                    == ack_spec(old(self)@, a.frame_id),
                Ok(PacketView::IFrameRequest) => r == ControlOutcome::KeyFrameRequested
                    && final(self)@ == old(self)@,
                _ => r == ControlOutcome::Ignored && final(self)@ == old(self)@,
            },
    {
        match classify(datagram) {
            Ok(Packet::Ack(a)) => {
                if !self.is_acked(a.frame_id) {
                    self.acked.push(a.frame_id);
                }
                ControlOutcome::Acked(a.frame_id)
            },
            Ok(Packet::IFrameRequest) => ControlOutcome::KeyFrameRequested,
            _ => ControlOutcome::Ignored,
        }
    }

    /// One pass of the retransmitter at time `now_ms`: acknowledged key frames
    /// leave the table; those unacknowledged for longer than the timeout are
    /// sent again (each retry restarts the timeout) or, after `MAX_RETRIES`
    /// retries, given up.
    pub fn retransmit_tick(&mut self, now_ms: u64) -> (r: TickReport)
        requires
            old(self).wf(),
        ensures
            final(self).wf(),
            final(self)@ == tick_spec(old(self)@, now_ms),
            bytes_of(r.retransmit@) == tick_resent(old(self)@.unacked, old(self)@.acked, now_ms),
            r.confirmed@ == tick_ids(old(self)@.unacked, old(self)@.acked, now_ms, Fate::Confirmed),
            r.given_up@ == tick_ids(old(self)@.unacked, old(self)@.acked, now_ms, Fate::GaveUp),
    {
        let ghost es = self@.unacked;
        let ghost acked = self@.acked;
        let mut pending: Vec<UnackedFrame> = Vec::new();
        std::mem::swap(&mut pending, &mut self.unacked);
        let ghost n = pending@.len();
        let ghost k: int = 0;
        let mut retransmit: Vec<Vec<u8>> = Vec::new();
        let mut confirmed: Vec<u32> = Vec::new();
        let mut given_up: Vec<u32> = Vec::new();
        while pending.len() > 0
            invariant
                acked == self@.acked,
                self.next_frame_id == old(self).next_frame_id,
                0 <= k <= n,
                n == es.len(),
                retries_bounded(es),
                pending@.len() == n - k,
                forall|j: int| 0 <= j < pending@.len() ==> (#[trigger] pending@[j])@ == es[k + j],
                views_of(self.unacked@) == tick_unacked(es.subrange(0, k), acked, now_ms),
                bytes_of(retransmit@) == tick_resent(es.subrange(0, k), acked, now_ms),
                confirmed@ == tick_ids(es.subrange(0, k), acked, now_ms, Fate::Confirmed),
                given_up@ == tick_ids(es.subrange(0, k), acked, now_ms, Fate::GaveUp),
            decreases pending@.len(),
        {
            let mut e = pending.remove(0);
            assert(e@ == es[k]);
            assert(es.subrange(0, k + 1).drop_last() =~= es.subrange(0, k));
            assert(es.subrange(0, k + 1).last() == es[k]);
            let ghost u0 = views_of(self.unacked@);
            let ghost t0 = bytes_of(retransmit@);
            if self.is_acked(e.frame_id) {
                confirmed.push(e.frame_id);
                assert(self@.unacked =~= u0);
            } else if now_ms > e.sent_at_ms && now_ms - e.sent_at_ms > RETRANSMISSION_TIMEOUT_MS {
                if e.retries < MAX_RETRIES {
                    append_datagrams(&mut retransmit, &e.datagrams);
                    e.retries = e.retries + 1;
                    e.sent_at_ms = now_ms;
                    self.unacked.push(e);
                    assert(views_of(self.unacked@) =~= u0 + seq![retried(es[k], now_ms)]);
                } else {
                    given_up.push(e.frame_id);
                    assert(self@.unacked =~= u0);
                }
            } else {
                self.unacked.push(e);
                assert(views_of(self.unacked@) =~= u0 + seq![es[k]]);
            }
            assert(bytes_of(retransmit@) =~= tick_resent(es.subrange(0, k + 1), acked, now_ms));
            assert(confirmed@ =~= tick_ids(es.subrange(0, k + 1), acked, now_ms, Fate::Confirmed));
            assert(given_up@ =~= tick_ids(es.subrange(0, k + 1), acked, now_ms, Fate::GaveUp));
            proof {
                k = k + 1;
            }
        }
        assert(es.subrange(0, k) =~= es);
        self.acked = Vec::new();
        proof {
            lemma_tick_unacked(es, acked, now_ms);
        }
        assert(self@ =~= tick_spec(old(self)@, now_ms));
        TickReport { retransmit, confirmed, given_up }
    }
}

} // verus!
