//! Splitting an encoded frame into data datagrams.

use vstd::prelude::*;
use crate::packet::{
    data_datagram, datagram_of, lemma_datagram_round_trip, parse_datagram, DecodeError, PacketView,
};
use crate::protocol::{DataHeader, MAX_PAYLOAD_SIZE};

verus! {

/// The most fragments one frame can have: `total_packets` is a `u16`.
pub const MAX_FRAGMENTS: usize = 65535;

/// Why a frame could not be fragmented.
#[derive(Debug, Clone, Copy, PartialEq, Eq, Structural)]
pub enum FragmentError {
    /// The frame holds no bytes.
    EmptyFrame,
    /// The frame needs more than `MAX_FRAGMENTS` datagrams.
    FrameTooLarge,
}

/// The chunks of `f` of at most `p` bytes each, in order.
pub open spec fn chunks(f: Seq<u8>, p: nat) -> Seq<Seq<u8>>
    decreases f.len(),
{
    if p == 0 || f.len() == 0 {
        Seq::empty()
    } else if f.len() <= p {
        seq![f]
    } else {
        seq![f.subrange(0, p as int)] + chunks(f.subrange(p as int, f.len() as int), p)
    }
}

/// `ceil(n / p)`.
pub open spec fn ceil_div(n: nat, p: nat) -> nat
    recommends
        p > 0,
{
    ((n + p - 1) as nat / p) as nat
}

/// The `i`-th chunk of `f` starts at `i * p` and ends `p` bytes later or at
/// the end of `f`.
pub proof fn lemma_chunk_at(f: Seq<u8>, p: nat, i: int)
    requires
        p > 0,
        0 <= i < chunks(f, p).len(),
    ensures
        i * p < f.len(),
        chunks(f, p)[i] == f.subrange(i * p, if (i + 1) * p <= f.len() {
            (i + 1) * p
        } else {
            f.len() as int
        }),
    decreases f.len(),
{
    if f.len() <= p {
        assert(i == 0);
        assert(f.subrange(0, f.len() as int) =~= f);
    } else if i > 0 {
        let g = f.subrange(p as int, f.len() as int);
        lemma_chunk_at(g, p, i - 1);
        assert((i - 1) * p + p == i * p) by (nonlinear_arith);
        assert(i * p + p == (i + 1) * p) by (nonlinear_arith);
        assert(chunks(g, p)[i - 1] =~= f.subrange(i * p, if (i + 1) * p <= f.len() {
            (i + 1) * p
        } else {
            f.len() as int
        }));
    }
}

/// Concatenating the chunks of a non-empty frame gives the frame back; there
/// are `ceil(|f| / p)` of them, and each holds between 1 and `p` bytes.
pub proof fn lemma_fragment_partition(f: Seq<u8>, p: nat)
    requires
        p > 0,
        f.len() > 0,
    ensures
        chunks(f, p).flatten() == f,
        chunks(f, p).len() == ceil_div(f.len(), p),
        forall|i: int|
            0 <= i < chunks(f, p).len() ==> 1 <= #[trigger] chunks(f, p)[i].len() <= p,
    decreases f.len(),
{
    let c = chunks(f, p);
    if f.len() <= p {
        c.lemma_flatten_one_element();
        assert((f.len() + p - 1) as nat / p == 1) by (nonlinear_arith)
            requires
                0 < f.len() <= p,
        ;
    } else {
        let g = f.subrange(p as int, f.len() as int);
        lemma_fragment_partition(g, p);
        assert(c.drop_first() =~= chunks(g, p));
        assert(c.flatten() =~= f);
        assert((f.len() + p - 1) as nat / p == (g.len() + p - 1) as nat / p + 1) by (
        nonlinear_arith)
            requires
                g.len() == f.len() - p,
                p > 0,
        ;
    }
}

/// The header of fragment `i` out of `n` of a frame.
pub open spec fn fragment_header(
    frame_id: u32,
    is_key_frame: bool,
    capture_timestamp_ns: u64,
    i: int,
    n: nat,
) -> DataHeader {
    DataHeader {
        frame_id,
        capture_timestamp_ns,
        packet_id: i as u16,
        total_packets: n as u16,
        is_key_frame: if is_key_frame {
            1
        } else {
            0
        },
    }
}

/// The datagrams that carry frame `f`, in `packet_id` order.
pub open spec fn fragment_datagrams(
    f: Seq<u8>,
    frame_id: u32,
    is_key_frame: bool,
    capture_timestamp_ns: u64,
) -> Seq<Seq<u8>> {
    let c = chunks(f, MAX_PAYLOAD_SIZE as nat);
    Seq::new(
        c.len(),
        |i: int|
            datagram_of(
                PacketView::Data {
                    header: fragment_header(
                        frame_id,
                        is_key_frame,
                        capture_timestamp_ns,
                        i,
                        c.len(),
                    ),
                    payload: c[i],
                },
            ),
    )
}

/// Each datagram of a frame decodes to its fragment's header and chunk.
pub proof fn lemma_fragment_datagram_parses(
    f: Seq<u8>,
    frame_id: u32,
    is_key_frame: bool,
    capture_timestamp_ns: u64,
    i: int,
)
    requires
        0 <= i < chunks(f, MAX_PAYLOAD_SIZE as nat).len(),
    ensures
        ({
            let c = chunks(f, MAX_PAYLOAD_SIZE as nat);
            parse_datagram(fragment_datagrams(f, frame_id, is_key_frame, capture_timestamp_ns)[i])
                == Ok::<PacketView, DecodeError>(
                PacketView::Data {
                    header: fragment_header(frame_id, is_key_frame, capture_timestamp_ns, i, c.len()),
                    payload: c[i],
                },
            )
        }),
{
    let c = chunks(f, MAX_PAYLOAD_SIZE as nat);
    lemma_datagram_round_trip(
        PacketView::Data {
            header: fragment_header(frame_id, is_key_frame, capture_timestamp_ns, i, c.len()),
            payload: c[i],
        },
    );
}

/// What fragmenting `f` gives: the datagrams, or why there are none.
pub open spec fn fragment_result(
    f: Seq<u8>,
    frame_id: u32,
    is_key_frame: bool,
    capture_timestamp_ns: u64,
) -> Result<Seq<Seq<u8>>, FragmentError> {
    if f.len() == 0 {
        Err(FragmentError::EmptyFrame)
    } else if f.len() > MAX_FRAGMENTS * MAX_PAYLOAD_SIZE {
        Err(FragmentError::FrameTooLarge)
    } else {
        Ok(fragment_datagrams(f, frame_id, is_key_frame, capture_timestamp_ns))
    }
}

/// The byte buffers held by a vector of datagrams.
pub open spec fn bytes_of(v: Seq<Vec<u8>>) -> Seq<Seq<u8>> {
    v.map_values(|d: Vec<u8>| d@)
}

/// Splits `frame` into data datagrams of at most `MAX_PAYLOAD_SIZE` payload
/// bytes each, numbered from 0 and all marked with the frame's metadata.
pub fn fragment_frame(
    frame: &[u8],
    frame_id: u32,
    is_key_frame: bool,
    capture_timestamp_ns: u64,
) -> (r: Result<Vec<Vec<u8>>, FragmentError>)
    ensures
        match r {
            Ok(v) => fragment_result(frame@, frame_id, is_key_frame, capture_timestamp_ns) == Ok::<
                Seq<Seq<u8>>,
                FragmentError,
            >(bytes_of(v@)),
            Err(e) => fragment_result(frame@, frame_id, is_key_frame, capture_timestamp_ns) == Err::<
                Seq<Seq<u8>>,
                FragmentError,
            >(e),
        },
{
    let len = frame.len();
    if len == 0 {
        return Err(FragmentError::EmptyFrame);
    }
    if len > MAX_FRAGMENTS * MAX_PAYLOAD_SIZE {
        return Err(FragmentError::FrameTooLarge);
    }
    let n: usize = (len + MAX_PAYLOAD_SIZE - 1) / MAX_PAYLOAD_SIZE;
    let ghost f = frame@;
    let ghost p = MAX_PAYLOAD_SIZE as nat;
    let ghost spec_r = fragment_datagrams(f, frame_id, is_key_frame, capture_timestamp_ns);
    proof {
        lemma_fragment_partition(f, p);
    }
    let key: u8 = if is_key_frame {
        1
    } else {
        0
    };
    let mut out: Vec<Vec<u8>> = Vec::new();
    let mut i: usize = 0;
    let mut start: usize = 0;
    while i < n
        invariant
            f == frame@,
            key == (if is_key_frame {
                1u8
            } else {
                0u8
            }),
            len == f.len(),
            0 < len <= MAX_FRAGMENTS * MAX_PAYLOAD_SIZE,
            n == chunks(f, p).len(),
            n <= MAX_FRAGMENTS,
            p == MAX_PAYLOAD_SIZE,
            spec_r == fragment_datagrams(f, frame_id, is_key_frame, capture_timestamp_ns),
            i <= n,
            i < n ==> start == i * MAX_PAYLOAD_SIZE,
            out@.len() == i,
            forall|j: int| 0 <= j < i ==> (#[trigger] out@[j])@ == spec_r[j],
        decreases n - i,
    {
        proof {
            lemma_chunk_at(f, p, i as int);
            assert((i + 1) * p == i * p + p) by (nonlinear_arith);
        }
        let end: usize = if start + MAX_PAYLOAD_SIZE <= len {
            start + MAX_PAYLOAD_SIZE
        } else {
            len
        };
        let header = DataHeader {
            frame_id,
            capture_timestamp_ns,
            packet_id: i as u16,
            total_packets: n as u16,
            is_key_frame: key,
        };
        let d = data_datagram(&header, &frame[start..end]);
        assert(header == fragment_header(frame_id, is_key_frame, capture_timestamp_ns, i as int, n as nat));
        assert(d@ == spec_r[i as int]);
        out.push(d);
        i = i + 1;
        start = end;
        proof {
            if i < n {
                lemma_chunk_at(f, p, i as int);
                assert(i * p == (i - 1) * p + p) by (nonlinear_arith);
            }
        }
    }
    assert(bytes_of(out@) =~= spec_r);
    Ok(out)
}

} // verus!
