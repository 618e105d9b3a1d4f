//! The stored form of a diff.
//!
//! Four integers lead: base slot, target slot, length of the base, number of
//! segments. The segments follow in order. A copy is the byte 0, its start and
//! its length; an insert is the byte 1, the number of its bytes, and the bytes.

use vstd::prelude::*;
use vstd::slice::slice_subrange;
use crate::hdiff::{HDiffBuffer, HDiffView, Segment, SegmentView, segment_views};
use crate::wire::{
    u64_bytes, u64_at, put_u64, put_bytes, read_u64, copy_range, lemma_u64_round_trip,
};

verus! {

/// The number of bytes before the segments of a stored diff.
pub const DIFF_HEADER_LEN: usize = 32;

/// The number of bytes of a stored copy.
pub const COPY_LEN: usize = 17;

/// The number of bytes before the bytes of a stored insert.
pub const INSERT_HEADER_LEN: usize = 9;

/// The stored form of a segment.
pub open spec fn segment_bytes(seg: SegmentView) -> Seq<u8> {
    match seg {
        SegmentView::Copy { start, len } => seq![0u8] + u64_bytes(start) + u64_bytes(len),
        SegmentView::Insert { bytes } => seq![1u8] + u64_bytes(bytes.len() as u64) + bytes,
    }
}

/// The stored form of a list of segments.
pub open spec fn segments_bytes(segs: Seq<SegmentView>) -> Seq<u8>
    decreases segs.len(),
{
    if segs.len() == 0 {
        Seq::empty()
    } else {
        segment_bytes(segs[0]) + segments_bytes(segs.drop_first())
    }
}

/// The stored form of a diff.
pub open spec fn diff_bytes(d: HDiffView) -> Seq<u8> {
    u64_bytes(d.base_slot) + u64_bytes(d.target_slot) + u64_bytes(d.base_len) + u64_bytes(
        d.segments.len() as u64,
    ) + segments_bytes(d.segments)
}

/// The segment that `input` begins with, and the number of bytes it takes.
pub open spec fn parsed_segment(input: Seq<u8>) -> Option<(SegmentView, int)> {
    if input.len() < 1 {
        None
    } else if input[0] == 0 {
        if input.len() < COPY_LEN {
            None
        } else {
            Some((SegmentView::Copy { start: u64_at(input, 1), len: u64_at(input, 9) }, COPY_LEN as int))
        }
    } else if input[0] == 1 {
        if input.len() < INSERT_HEADER_LEN || input.len() < INSERT_HEADER_LEN + u64_at(input, 1) {
            None
        } else {
            Some(
                (
                    SegmentView::Insert {
                        bytes: input.subrange(
                            INSERT_HEADER_LEN as int,
                            INSERT_HEADER_LEN + u64_at(input, 1),
                        ),
                    },
                    INSERT_HEADER_LEN + u64_at(input, 1),
                ),
            )
        }
    } else {
        None
    }
}

/// The `count` segments that `input` consists of.
pub open spec fn parsed_segments(input: Seq<u8>, count: nat) -> Option<Seq<SegmentView>>
    decreases count,
{
    if count == 0 {
        if input.len() == 0 {
            Some(Seq::empty())
        } else {
            None
        }
    } else {
        match parsed_segment(input) {
            None => None,
            Some((seg, used)) => match parsed_segments(input.skip(used), (count - 1) as nat) {
                None => None,
                Some(rest) => Some(seq![seg] + rest),
            },
        }
    }
}

/// The diff that `input` is the stored form of, where it is one.
pub open spec fn diff_of_bytes(input: Seq<u8>) -> Option<HDiffView> {
    if input.len() < DIFF_HEADER_LEN {
        None
    } else {
        match parsed_segments(input.skip(DIFF_HEADER_LEN as int), u64_at(input, 24) as nat) {
            None => None,
            Some(segments) => Some(
                HDiffView {
                    base_slot: u64_at(input, 0),
                    target_slot: u64_at(input, 8),
                    base_len: u64_at(input, 16),
                    segments,
                },
            ),
        }
    }
}

/// Whether a diff can be stored: the number of its segments, and of the bytes
/// of each insert, fits the integer that states it.
pub open spec fn storable(d: HDiffView) -> bool {
    &&& d.segments.len() <= u64::MAX
    &&& forall|k: int|
        0 <= k < d.segments.len() ==> (#[trigger] d.segments[k]).out_len() <= u64::MAX
}

/// The stored form of a list with one more segment at its end.
pub proof fn lemma_segments_bytes_push(segs: Seq<SegmentView>, seg: SegmentView)
    ensures
        segments_bytes(segs.push(seg)) == segments_bytes(segs) + segment_bytes(seg),
    decreases segs.len(),
{
    if segs.len() == 0 {
        assert(segs.push(seg).drop_first() =~= Seq::<SegmentView>::empty());
        assert(segs.push(seg)[0] == seg);
        assert(segments_bytes(segs.push(seg).drop_first()) =~= Seq::<u8>::empty());
        assert(segments_bytes(segs.push(seg)) =~= segment_bytes(seg));
        assert(segments_bytes(segs) + segment_bytes(seg) =~= segment_bytes(seg));
    } else {
        lemma_segments_bytes_push(segs.drop_first(), seg);
        assert(segs.push(seg).drop_first() =~= segs.drop_first().push(seg));
        assert(segments_bytes(segs.push(seg)) =~= segments_bytes(segs) + segment_bytes(seg));
    }
}

/// A stored segment, whatever follows it, is read back as the segment.
pub proof fn lemma_parse_segment(seg: SegmentView, rest: Seq<u8>)
    requires
        seg.out_len() <= u64::MAX,
    ensures
        parsed_segment(segment_bytes(seg) + rest) == Some((seg, segment_bytes(seg).len() as int)),
{
    let input = segment_bytes(seg) + rest;
    match seg {
        SegmentView::Copy { start, len } => {
            lemma_u64_round_trip(seq![0u8], start, u64_bytes(len) + rest);
            lemma_u64_round_trip(seq![0u8] + u64_bytes(start), len, rest);
            assert(seq![0u8] + u64_bytes(start) + (u64_bytes(len) + rest) =~= input);
            assert(seq![0u8] + u64_bytes(start) + u64_bytes(len) + rest =~= input);
        },
        SegmentView::Insert { bytes } => {
            lemma_u64_round_trip(seq![1u8], bytes.len() as u64, bytes + rest);
            assert(seq![1u8] + u64_bytes(bytes.len() as u64) + (bytes + rest) =~= input);
            assert(input.subrange(INSERT_HEADER_LEN as int, INSERT_HEADER_LEN + bytes.len())
                =~= bytes);
        },
    }
}

/// Stored segments are read back as the segments.
pub proof fn lemma_parse_segments(segs: Seq<SegmentView>)
    requires
        forall|k: int| 0 <= k < segs.len() ==> (#[trigger] segs[k]).out_len() <= u64::MAX,
    ensures
        parsed_segments(segments_bytes(segs), segs.len()) == Some(segs),
    decreases segs.len(),
{
    if segs.len() > 0 {
        let rest = segs.drop_first();
        assert forall|k: int| 0 <= k < rest.len() implies (#[trigger] rest[k]).out_len()
            <= u64::MAX by {
            assert(rest[k] == segs[k + 1]);
        }
        lemma_parse_segments(rest);
        lemma_parse_segment(segs[0], segments_bytes(rest));
        let input = segments_bytes(segs);
        assert(input.skip(segment_bytes(segs[0]).len() as int) =~= segments_bytes(rest));
        assert(seq![segs[0]] + rest =~= segs);
    }
}

/// The round trip of the stored form: a diff that can be stored is read back
/// from its stored form as the same diff.
pub proof fn lemma_diff_round_trip_bytes(d: HDiffView)
    requires
        storable(d),
    ensures
        diff_of_bytes(diff_bytes(d)) == Some(d),
{
    let input = diff_bytes(d);
    let a = u64_bytes(d.base_slot);
    let b = u64_bytes(d.target_slot);
    let c = u64_bytes(d.base_len);
    let n = u64_bytes(d.segments.len() as u64);
    let s = segments_bytes(d.segments);
    lemma_u64_round_trip(Seq::empty(), d.base_slot, b + c + n + s);
    lemma_u64_round_trip(a, d.target_slot, c + n + s);
    lemma_u64_round_trip(a + b, d.base_len, n + s);
    lemma_u64_round_trip(a + b + c, d.segments.len() as u64, s);
    assert(Seq::<u8>::empty() + a + (b + c + n + s) =~= input);
    assert(a + b + (c + n + s) =~= input);
    assert(a + b + c + (n + s) =~= input);
    assert(input.skip(DIFF_HEADER_LEN as int) =~= s);
    lemma_parse_segments(d.segments);
}

/// Every diff in memory can be stored.
pub proof fn lemma_storable(d: &HDiffBuffer)
    ensures
        storable(d@),
{
    assert(d.segments.len() == d.segments@.len());
    assert(d@.segments.len() == d.segments@.len());
    assert forall|k: int| 0 <= k < d@.segments.len() implies (#[trigger] d@.segments[k]).out_len()
        <= u64::MAX by {
        assert(d@.segments[k] == d.segments@[k]@);
        match d.segments@[k] {
            Segment::Copy { start, len } => {},
            Segment::Insert { bytes } => {
                assert(bytes.len() == bytes@.len());
            },
        }
    }
}

impl HDiffBuffer {
    /// The stored form of the diff.
    pub fn encode(&self) -> (out: Vec<u8>)
        ensures
            out@ == diff_bytes(self@),
            diff_of_bytes(out@) == Some(self@),
    {
        let ghost segs = self@.segments;
        let n: usize = self.segments.len();
        let mut out: Vec<u8> = Vec::new();
        put_u64(&mut out, self.base_slot);
        put_u64(&mut out, self.target_slot);
        put_u64(&mut out, self.base_len);
        put_u64(&mut out, n as u64);
        let ghost header = out@;
        let mut k: usize = 0;
        proof {
            assert(segs.take(0) =~= Seq::<SegmentView>::empty());
            assert(out@ =~= header + segments_bytes(segs.take(0)));
        }
        while k < n
            invariant
                n == self.segments@.len(),
                segs == self@.segments,
                k <= n,
                out@ == header + segments_bytes(segs.take(k as int)),
            decreases n - k,
        {
            let ghost before = out@;
            proof {
                assert(segs.take(k + 1) =~= segs.take(k as int).push(segs[k as int]));
                lemma_segments_bytes_push(segs.take(k as int), segs[k as int]);
                assert(segs[k as int] == self.segments@[k as int]@);
            }
            match &self.segments[k] {
                Segment::Copy { start, len } => {
                    out.push(0u8);
                    put_u64(&mut out, *start);
                    put_u64(&mut out, *len);
                    assert(out@ =~= before + segment_bytes(segs[k as int]));
                },
                Segment::Insert { bytes } => {
                    out.push(1u8);
                    put_u64(&mut out, bytes.len() as u64);
                    put_bytes(&mut out, bytes.as_slice());
                    assert(out@ =~= before + segment_bytes(segs[k as int]));
                },
            }
            k += 1;
            assert(out@ =~= header + segments_bytes(segs.take(k as int)));
        }
        proof {
            assert(segs.take(n as int) =~= segs);
            assert(out@ =~= diff_bytes(self@));
            lemma_storable(self);
            lemma_diff_round_trip_bytes(self@);
        }
        out
    }

    /// The diff that `bytes` are the stored form of.
    pub fn decode(bytes: &[u8]) -> (r: Option<HDiffBuffer>)
        ensures
            r is Some <==> diff_of_bytes(bytes@) is Some,
            r is Some ==> r.unwrap()@ == diff_of_bytes(bytes@).unwrap(),
    {
        if bytes.len() < DIFF_HEADER_LEN {
            return None;
        }
        let base_slot: u64 = read_u64(bytes, 0).unwrap();
        let target_slot: u64 = read_u64(bytes, 8).unwrap();
        let base_len: u64 = read_u64(bytes, 16).unwrap();
        let count: u64 = read_u64(bytes, 24).unwrap();
        let body = slice_subrange(bytes, DIFF_HEADER_LEN, bytes.len());
        assert(body@ =~= bytes@.skip(DIFF_HEADER_LEN as int));
        let m: usize = body.len();
        let mut segments: Vec<Segment> = Vec::new();
        let mut pos: usize = 0;
        let mut k: u64 = 0;
        proof {
            assert(body@.skip(0) =~= body@);
            assert(segment_views(segments@) =~= Seq::<SegmentView>::empty());
            match parsed_segments(body@, count as nat) {
                Some(all) => {
                    assert(segment_views(segments@) + all =~= all);
                },
                None => {},
            }
        }
        while k < count
            invariant
                m == body@.len(),
                pos <= m,
                k <= count,
                bytes@.len() >= DIFF_HEADER_LEN,
                body@ == bytes@.skip(DIFF_HEADER_LEN as int),
                count == u64_at(bytes@, 24),
                parsed_segments(body@, count as nat) == (match parsed_segments(
                    body@.skip(pos as int),
                    (count - k) as nat,
                ) {
                    Some(rest) => Some(segment_views(segments@) + rest),
                    None => None,
                }),
            decreases count - k,
        {
            let ghost tail = body@.skip(pos as int);
            let ghost before = segment_views(segments@);
            if pos >= m {
                return None;
            }
            let tag: u8 = body[pos];
            assert(tail[0] == tag);
            if tag == 0 {
                if m - pos < COPY_LEN {
                    return None;
                }
                let start: u64 = read_u64(body, pos + 1).unwrap();
                let len: u64 = read_u64(body, pos + 9).unwrap();
                proof {
                    assert(tail.subrange(1, 9) =~= body@.subrange(pos + 1, pos + 9));
                    assert(tail.subrange(9, 17) =~= body@.subrange(pos + 9, pos + 17));
                    assert(tail.skip(COPY_LEN as int) =~= body@.skip(pos + COPY_LEN));
                }
                segments.push(Segment::Copy { start, len });
                pos += COPY_LEN;
            } else if tag == 1 {
                if m - pos < INSERT_HEADER_LEN {
                    return None;
                }
                let n: u64 = read_u64(body, pos + 1).unwrap();
                proof {
                    assert(tail.subrange(1, 9) =~= body@.subrange(pos + 1, pos + 9));
                }
                if n > (m - pos - INSERT_HEADER_LEN) as u64 {
                    return None;
                }
                let from: usize = pos + INSERT_HEADER_LEN;
                let to: usize = from + n as usize;
                let data = copy_range(body, from, to);
                proof {
                    assert(tail.subrange(INSERT_HEADER_LEN as int, INSERT_HEADER_LEN + n) =~= data@);
                    assert(tail.skip(INSERT_HEADER_LEN + n) =~= body@.skip(to as int));
                }
                segments.push(Segment::Insert { bytes: data });
                pos = to;
            } else {
                return None;
            }
            k += 1;
            proof {
                let seg = parsed_segment(tail).unwrap().0;
                assert(segment_views(segments@) =~= before.push(seg));
                match parsed_segments(body@.skip(pos as int), (count - k) as nat) {
                    Some(rest) => {
                        assert(segment_views(segments@) + rest =~= before + (seq![seg] + rest));
                    },
                    None => {},
                }
            }
        }
        if pos != m {
            return None;
        }
        proof {
            assert(body@.skip(m as int).len() == 0);
            assert(segment_views(segments@) + Seq::<SegmentView>::empty() =~= segment_views(
                segments@,
            ));
        }
        Some(HDiffBuffer { base_slot, target_slot, base_len, segments })
    }
}

} // verus!
