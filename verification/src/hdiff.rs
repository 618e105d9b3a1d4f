//! Binary diffs between two serialized states.
//!
//! A diff is a list of segments. Read in order, each segment yields the next
//! run of the target's bytes: either by copying a run of the base, or by
//! carrying the bytes itself.

use vstd::prelude::*;
use crate::cache::CacheValue;
use crate::metrics::{add_saturating};
use crate::wire::{copy_range, copy_bytes};

verus! {

/// One run of the target's bytes.
#[derive(Clone, Debug, PartialEq, Eq)]
pub enum Segment {
    /// `len` bytes of the base, from `start` on.
    Copy { start: u64, len: u64 },
    /// Bytes that the base does not supply.
    Insert { bytes: Vec<u8> },
}

/// The mathematical value of a [`Segment`].
pub enum SegmentView {
    Copy { start: u64, len: u64 },
    Insert { bytes: Seq<u8> },
}

impl View for Segment {
    type V = SegmentView;

    open spec fn view(&self) -> SegmentView {
        match *self {
            Segment::Copy { start, len } => SegmentView::Copy { start, len },
            Segment::Insert { bytes } => SegmentView::Insert { bytes: bytes@ },
        }
    }
}

impl SegmentView {
    /// How many bytes of the target the segment yields.
    pub open spec fn out_len(self) -> nat {
        match self {
            SegmentView::Copy { len, .. } => len as nat,
            SegmentView::Insert { bytes } => bytes.len(),
        }
    }

    /// Whether the segment can be read against `base`.
    pub open spec fn fits(self, base: Seq<u8>) -> bool {
        match self {
            SegmentView::Copy { start, len } => start + len <= base.len(),
            SegmentView::Insert { .. } => true,
        }
    }

    /// The bytes that the segment yields against `base`.
    pub open spec fn piece(self, base: Seq<u8>) -> Seq<u8> {
        match self {
            SegmentView::Copy { start, len } => base.subrange(start as int, start + len),
            SegmentView::Insert { bytes } => bytes,
        }
    }

    pub open spec fn is_copy(self) -> bool {
        self is Copy
    }
}

/// The total number of bytes that `segs` yield.
pub open spec fn output_len(segs: Seq<SegmentView>) -> nat
    decreases segs.len(),
{
    if segs.len() == 0 {
        0
    } else {
        output_len(segs.drop_last()) + segs.last().out_len()
    }
}

/// Whether every segment can be read against `base`.
pub open spec fn segments_fit(segs: Seq<SegmentView>, base: Seq<u8>) -> bool {
    forall|k: int| 0 <= k < segs.len() ==> (#[trigger] segs[k]).fits(base)
}

/// The bytes that `segs` yield against `base`, in order.
pub open spec fn apply_segments(segs: Seq<SegmentView>, base: Seq<u8>) -> Seq<u8>
    decreases segs.len(),
{
    if segs.len() == 0 {
        Seq::empty()
    } else {
        apply_segments(segs.drop_last(), base) + segs.last().piece(base)
    }
}

/// Whether `base` and `target` both have a byte at `p`, and the same one.
pub open spec fn same_at(base: Seq<u8>, target: Seq<u8>, p: int) -> bool {
    0 <= p < base.len() && p < target.len() && base[p] == target[p]
}

/// Whether `seg`, standing at offset `o` of the target, is a run of a
/// position-by-position comparison of `base` and `target`: a copy covers only
/// positions where the two agree and takes them from the same offset of the
/// base; an insert covers only positions where they do not agree and carries
/// the target's bytes. No segment is empty.
pub open spec fn segment_ok(seg: SegmentView, o: int, base: Seq<u8>, target: Seq<u8>) -> bool {
    &&& seg.out_len() > 0
    &&& 0 <= o
    &&& o + seg.out_len() <= target.len()
    &&& match seg {
        SegmentView::Copy { start, len } => {
            &&& start == o
            &&& forall|p: int| o <= p < o + len ==> same_at(base, target, p)
        },
        SegmentView::Insert { bytes } => {
            &&& bytes == target.subrange(o, o + bytes.len())
            &&& forall|p: int| o <= p < o + bytes.len() ==> !same_at(base, target, p)
        },
    }
}

/// Whether the segment at `k` is a run of the comparison, standing at the
/// offset that the segments before it add up to.
pub open spec fn run_at(segs: Seq<SegmentView>, k: int, base: Seq<u8>, target: Seq<u8>) -> bool {
    segment_ok(segs[k], output_len(segs.take(k)) as int, base, target)
}

/// Whether the segment at `k` is of the other kind than the one before it.
pub open spec fn alternates_at(segs: Seq<SegmentView>, k: int) -> bool {
    segs[k - 1].is_copy() != segs[k].is_copy()
}

/// Whether `segs` is the positional diff from `base` to the first `i` bytes of
/// `target`: its segments cover those bytes from the first to the last, each
/// is a run of the comparison (see [`segment_ok`]), and copies and inserts
/// alternate, so that every run is as long as it can be.
pub open spec fn is_positional_prefix(
    segs: Seq<SegmentView>,
    base: Seq<u8>,
    target: Seq<u8>,
    i: int,
) -> bool {
    &&& output_len(segs) == i
    &&& forall|k: int| 0 <= k < segs.len() ==> #[trigger] run_at(segs, k, base, target)
    &&& forall|k: int| 0 < k < segs.len() ==> #[trigger] alternates_at(segs, k)
}

/// Whether `segs` is the positional diff from `base` to `target`.
pub open spec fn is_positional_diff(segs: Seq<SegmentView>, base: Seq<u8>, target: Seq<u8>) -> bool {
    is_positional_prefix(segs, base, target, target.len() as int)
}

/// Adding a segment adds its bytes to the length.
pub proof fn lemma_output_len_push(segs: Seq<SegmentView>, seg: SegmentView)
    ensures
        output_len(segs.push(seg)) == output_len(segs) + seg.out_len(),
{
    assert(segs.push(seg).drop_last() =~= segs);
}

/// Adding a segment adds its bytes to the output.
pub proof fn lemma_apply_push(segs: Seq<SegmentView>, seg: SegmentView, base: Seq<u8>)
    ensures
        apply_segments(segs.push(seg), base) == apply_segments(segs, base) + seg.piece(base),
{
    assert(segs.push(seg).drop_last() =~= segs);
}

/// Segments that fit yield as many bytes as their lengths add up to.
pub proof fn lemma_apply_len(segs: Seq<SegmentView>, base: Seq<u8>)
    requires
        segments_fit(segs, base),
    ensures
        apply_segments(segs, base).len() == output_len(segs),
    decreases segs.len(),
{
    if segs.len() > 0 {
        lemma_apply_len(segs.drop_last(), base);
        assert(segs.last().fits(base));
    }
}

/// The positional diff, read against its base, yields the first bytes of the
/// target, segment by segment.
pub proof fn lemma_positional_prefix(
    segs: Seq<SegmentView>,
    base: Seq<u8>,
    target: Seq<u8>,
    n: int,
)
    requires
        is_positional_diff(segs, base, target),
        0 <= n <= segs.len(),
    ensures
        output_len(segs.take(n)) <= target.len(),
        apply_segments(segs.take(n), base) == target.subrange(
            0,
            output_len(segs.take(n)) as int,
        ),
    decreases n,
{
    if n == 0 {
        assert(segs.take(0).len() == 0);
        assert(target.subrange(0, 0) =~= Seq::<u8>::empty());
    } else {
        lemma_positional_prefix(segs, base, target, n - 1);
        let before = segs.take(n - 1);
        let seg = segs[n - 1];
        let o = output_len(before) as int;
        assert(segs.take(n) =~= before.push(seg));
        lemma_output_len_push(before, seg);
        lemma_apply_push(before, seg, base);
        assert(run_at(segs, n - 1, base, target));
        match seg {
            SegmentView::Copy { start, len } => {
                assert forall|p: int| o <= p < o + len implies base[p] == target[p] by {
                    assert(same_at(base, target, p));
                }
                if len > 0 {
                    assert(same_at(base, target, o + len - 1));
                }
                assert(seg.piece(base) =~= target.subrange(o, o + len));
            },
            SegmentView::Insert { bytes } => {},
        }
        assert(target.subrange(0, o) + target.subrange(o, o + seg.out_len()) =~= target.subrange(
            0,
            o + seg.out_len(),
        ));
    }
}

/// Every copy of the positional diff lies within the base.
pub proof fn lemma_positional_fits(segs: Seq<SegmentView>, base: Seq<u8>, target: Seq<u8>)
    requires
        is_positional_diff(segs, base, target),
    ensures
        segments_fit(segs, base),
{
    assert forall|k: int| 0 <= k < segs.len() implies (#[trigger] segs[k]).fits(base) by {
        let o = output_len(segs.take(k)) as int;
        assert(run_at(segs, k, base, target));
        match segs[k] {
            SegmentView::Copy { start, len } => {
                assert(same_at(base, target, o + len - 1));
            },
            SegmentView::Insert { bytes } => {},
        }
    }
}

/// The round trip: the positional diff from `base` to `target`, read against
/// `base`, yields `target`, byte for byte.
pub proof fn lemma_diff_round_trip(segs: Seq<SegmentView>, base: Seq<u8>, target: Seq<u8>)
    requires
        is_positional_diff(segs, base, target),
    ensures
        segments_fit(segs, base),
        apply_segments(segs, base) == target,
{
    lemma_positional_fits(segs, base, target);
    lemma_positional_prefix(segs, base, target, segs.len() as int);
    assert(segs.take(segs.len() as int) =~= segs);
    assert(target.subrange(0, target.len() as int) =~= target);
}

/// A diff that leads from the state at `base_slot` to the state at
/// `target_slot`.
#[derive(Clone, Debug, PartialEq, Eq)]
pub struct HDiffBuffer {
    pub base_slot: u64,
    pub target_slot: u64,
    /// The length of the base that the diff was computed against.
    pub base_len: u64,
    pub segments: Vec<Segment>,
}

/// The mathematical value of an [`HDiffBuffer`].
pub struct HDiffView {
    pub base_slot: u64,
    pub target_slot: u64,
    pub base_len: u64,
    pub segments: Seq<SegmentView>,
}

/// The values of a list of segments.
pub open spec fn segment_views(segments: Seq<Segment>) -> Seq<SegmentView> {
    Seq::new(segments.len(), |k: int| segments[k]@)
}

impl View for HDiffBuffer {
    type V = HDiffView;

    open spec fn view(&self) -> HDiffView {
        HDiffView {
            base_slot: self.base_slot,
            target_slot: self.target_slot,
            base_len: self.base_len,
            segments: segment_views(self.segments@),
        }
    }
}

impl HDiffView {
    /// Whether the diff can be applied to `base`: `base` has the length of
    /// the diff's own base, and every copy lies within it.
    pub open spec fn applies_to(self, base: Seq<u8>) -> bool {
        self.base_len == base.len() && segments_fit(self.segments, base)
    }

    /// What applying the diff to `base` yields.
    pub open spec fn apply(self, base: Seq<u8>) -> Seq<u8> {
        apply_segments(self.segments, base)
    }

    /// The bytes that the diff carries itself.
    pub open spec fn carried(self) -> nat {
        carried_len(self.segments)
    }
}

/// The number of bytes that the inserts of `segs` carry.
pub open spec fn carried_len(segs: Seq<SegmentView>) -> nat
    decreases segs.len(),
{
    if segs.len() == 0 {
        0
    } else {
        carried_len(segs.drop_last()) + (match segs.last() {
            SegmentView::Copy { .. } => 0nat,
            SegmentView::Insert { bytes } => bytes.len(),
        })
    }
}

/// The number of positions below `n` at which `target` has a byte that
/// `base` does not have there.
pub open spec fn differing(base: Seq<u8>, target: Seq<u8>, n: int) -> nat
    decreases n,
{
    if n <= 0 {
        0
    } else {
        differing(base, target, n - 1) + (if same_at(base, target, n - 1) {
            0nat
        } else {
            1nat
        })
    }
}

/// Over a run of positions where the two agree, the count of differing
/// positions stays.
pub proof fn lemma_differing_same_run(base: Seq<u8>, target: Seq<u8>, from: int, to: int)
    requires
        0 <= from <= to,
        forall|p: int| from <= p < to ==> same_at(base, target, p),
    ensures
        differing(base, target, to) == differing(base, target, from),
    decreases to - from,
{
    if from < to {
        lemma_differing_same_run(base, target, from, to - 1);
    }
}

/// Over a run of positions where the two do not agree, the count of
/// differing positions grows by the length of the run.
pub proof fn lemma_differing_other_run(base: Seq<u8>, target: Seq<u8>, from: int, to: int)
    requires
        0 <= from <= to,
        forall|p: int| from <= p < to ==> !same_at(base, target, p),
    ensures
        differing(base, target, to) == differing(base, target, from) + (to - from),
    decreases to - from,
{
    if from < to {
        lemma_differing_other_run(base, target, from, to - 1);
    }
}

/// The positional diff carries exactly the bytes of the target that the base
/// does not have at the same position, and no others.
pub proof fn lemma_positional_carries_differing(
    segs: Seq<SegmentView>,
    base: Seq<u8>,
    target: Seq<u8>,
    n: int,
)
    requires
        is_positional_diff(segs, base, target),
        0 <= n <= segs.len(),
    ensures
        carried_len(segs.take(n)) == differing(base, target, output_len(segs.take(n)) as int),
    decreases n,
{
    if n == 0 {
        assert(segs.take(0).len() == 0);
    } else {
        lemma_positional_carries_differing(segs, base, target, n - 1);
        let before = segs.take(n - 1);
        let seg = segs[n - 1];
        let o = output_len(before) as int;
        assert(segs.take(n) =~= before.push(seg));
        assert(before.push(seg).drop_last() =~= before);
        lemma_output_len_push(before, seg);
        assert(run_at(segs, n - 1, base, target));
        match seg {
            SegmentView::Copy { start, len } => {
                lemma_differing_same_run(base, target, o, o + len);
            },
            SegmentView::Insert { bytes } => {
                lemma_differing_other_run(base, target, o, o + bytes.len());
            },
        }
    }
}

impl HDiffBuffer {
    /// Applies the diff to `base`. Yields nothing where the diff does not
    /// apply to `base`.
    pub fn apply(&self, base: &[u8]) -> (r: Option<Vec<u8>>)
        ensures
            r is Some <==> self@.applies_to(base@),
            r is Some ==> r.unwrap()@ == self@.apply(base@),
    {
        let ghost segs = self@.segments;
        let n: usize = base.len();
        if self.base_len != n as u64 {
            return None;
        }
        let mut out: Vec<u8> = Vec::new();
        let mut k: usize = 0;
        while k < self.segments.len()
            invariant
                segs == self@.segments,
                n == base@.len(),
                k <= self.segments.len(),
                segments_fit(segs.take(k as int), base@),
                out@ == apply_segments(segs.take(k as int), base@),
            decreases self.segments.len() - k,
        {
            let ghost before = segs.take(k as int);
            proof {
                assert(segs.take(k as int + 1) =~= before.push(segs[k as int]));
                lemma_apply_push(before, segs[k as int], base@);
            }
            match &self.segments[k] {
                Segment::Copy { start, len } => {
                    if *start > n as u64 || *len > n as u64 - *start {
                        proof {
                            assert(!segs[k as int].fits(base@));
                        }
                        return None;
                    }
                    let from: usize = *start as usize;
                    let to: usize = from + *len as usize;
                    let mut p: usize = from;
                    while p < to
                        invariant
                            from <= p <= to <= base@.len(),
                            out@ == apply_segments(before, base@) + base@.subrange(
                                from as int,
                                p as int,
                            ),
                        decreases to - p,
                    {
                        out.push(base[p]);
                        p += 1;
                        assert(out@ =~= apply_segments(before, base@) + base@.subrange(
                            from as int,
                            p as int,
                        ));
                    }
                },
                Segment::Insert { bytes } => {
                    let m: usize = bytes.len();
                    let mut p: usize = 0;
                    while p < m
                        invariant
                            m == bytes@.len(),
                            p <= m,
                            out@ == apply_segments(before, base@) + bytes@.subrange(0, p as int),
                        decreases m - p,
                    {
                        out.push(bytes[p]);
                        p += 1;
                        assert(out@ =~= apply_segments(before, base@) + bytes@.subrange(
                            0,
                            p as int,
                        ));
                    }
                    assert(bytes@.subrange(0, m as int) =~= bytes@);
                },
            }
            k += 1;
            proof {
                assert forall|j: int| 0 <= j < k implies (#[trigger] segs.take(k as int)[j]).fits(
                    base@,
                ) by {
                    if j < k - 1 {
                        assert(segs.take(k as int)[j] == before[j]);
                    }
                }
            }
        }
        proof {
            assert(segs.take(k as int) =~= segs);
        }
        Some(out)
    }
}

/// The offset after the segment at `n` is the offset before it and its
/// length.
pub proof fn lemma_output_len_take(segs: Seq<SegmentView>, n: int)
    requires
        0 <= n < segs.len(),
    ensures
        output_len(segs.take(n + 1)) == output_len(segs.take(n)) + segs[n].out_len(),
{
    assert(segs.take(n + 1) =~= segs.take(n).push(segs[n]));
    lemma_output_len_push(segs.take(n), segs[n]);
}

/// In a positional diff, the kind of a segment is decided by the first
/// position it covers.
pub proof fn lemma_kind_at(segs: Seq<SegmentView>, base: Seq<u8>, target: Seq<u8>, n: int)
    requires
        is_positional_diff(segs, base, target),
        0 <= n < segs.len(),
    ensures
        segs[n].is_copy() == same_at(base, target, output_len(segs.take(n)) as int),
{
    assert(run_at(segs, n, base, target));
}

/// In a positional diff, a run ends only where the target ends or the
/// comparison changes.
pub proof fn lemma_run_is_longest(segs: Seq<SegmentView>, base: Seq<u8>, target: Seq<u8>, n: int)
    requires
        is_positional_diff(segs, base, target),
        0 <= n < segs.len(),
    ensures
        output_len(segs.take(n + 1)) <= target.len(),
        output_len(segs.take(n + 1)) < target.len() ==> same_at(
            base,
            target,
            output_len(segs.take(n + 1)) as int,
        ) != segs[n].is_copy(),
{
    lemma_positional_prefix(segs, base, target, n + 1);
    if output_len(segs.take(n + 1)) < target.len() {
        if n + 1 == segs.len() {
            assert(segs.take(n + 1) =~= segs);
        }
        assert(alternates_at(segs, n + 1));
        lemma_kind_at(segs, base, target, n + 1);
    }
}

/// Two positional diffs of the same pair agree segment by segment.
pub proof fn lemma_positional_same_prefix(
    a: Seq<SegmentView>,
    b: Seq<SegmentView>,
    base: Seq<u8>,
    target: Seq<u8>,
    n: int,
)
    requires
        is_positional_diff(a, base, target),
        is_positional_diff(b, base, target),
        0 <= n <= a.len(),
        n <= b.len(),
    ensures
        a.take(n) == b.take(n),
    decreases n,
{
    if n == 0 {
        assert(a.take(0) =~= b.take(0));
    } else {
        let m = n - 1;
        lemma_positional_same_prefix(a, b, base, target, m);
        let o = output_len(a.take(m)) as int;
        assert(run_at(a, m, base, target));
        assert(run_at(b, m, base, target));
        lemma_kind_at(a, base, target, m);
        lemma_kind_at(b, base, target, m);
        lemma_output_len_take(a, m);
        lemma_output_len_take(b, m);
        lemma_run_is_longest(a, base, target, m);
        lemma_run_is_longest(b, base, target, m);
        let la = a[m].out_len() as int;
        let lb = b[m].out_len() as int;
        if la < lb {
            // the position after the run of `a` is still inside the run of `b`
            assert(same_at(base, target, o + la) == b[m].is_copy()) by {
                match b[m] {
                    SegmentView::Copy { start, len } => {},
                    SegmentView::Insert { bytes } => {},
                }
            }
        }
        if lb < la {
            assert(same_at(base, target, o + lb) == a[m].is_copy()) by {
                match a[m] {
                    SegmentView::Copy { start, len } => {},
                    SegmentView::Insert { bytes } => {},
                }
            }
        }
        assert(la == lb);
        assert(a[m] == b[m]) by {
            match a[m] {
                SegmentView::Copy { start, len } => {},
                SegmentView::Insert { bytes } => {},
            }
        }
        assert(a.take(n) =~= a.take(m).push(a[m]));
        assert(b.take(n) =~= b.take(m).push(b[m]));
    }
}

/// The positional diff of a pair is unique: the computation of a diff is
/// deterministic.
pub proof fn lemma_positional_unique(
    a: Seq<SegmentView>,
    b: Seq<SegmentView>,
    base: Seq<u8>,
    target: Seq<u8>,
)
    requires
        is_positional_diff(a, base, target),
        is_positional_diff(b, base, target),
    ensures
        a == b,
{
    let n = if a.len() <= b.len() {
        a.len() as int
    } else {
        b.len() as int
    };
    lemma_positional_same_prefix(a, b, base, target, n);
    if a.len() < b.len() {
        assert(a.take(n) =~= a);
        assert(run_at(b, n, base, target));
    } else if b.len() < a.len() {
        assert(b.take(n) =~= b);
        assert(run_at(a, n, base, target));
    } else {
        assert(a.take(n) =~= a);
        assert(b.take(n) =~= b);
    }
}

/// The segment that covers the one position `p` of the target.
pub open spec fn unit_segment(base: Seq<u8>, target: Seq<u8>, p: int) -> SegmentView {
    if same_at(base, target, p) {
        SegmentView::Copy { start: p as u64, len: 1 }
    } else {
        SegmentView::Insert { bytes: target.subrange(p, p + 1) }
    }
}

/// `seg`, made one position longer at its end; `o` is the offset it stands
/// at.
pub open spec fn grown_segment(seg: SegmentView, o: int, target: Seq<u8>) -> SegmentView {
    match seg {
        SegmentView::Copy { start, len } => SegmentView::Copy { start, len: (len + 1) as u64 },
        SegmentView::Insert { bytes } => SegmentView::Insert {
            bytes: target.subrange(o, o + bytes.len() + 1),
        },
    }
}

/// A diff of the first `i` bytes becomes a diff of the first `i + 1` bytes
/// when its last run is made one position longer, where the comparison at
/// `i` is what it is on that run.
pub proof fn lemma_positional_grow(segs: Seq<SegmentView>, base: Seq<u8>, target: Seq<u8>, i: int)
    requires
        is_positional_prefix(segs, base, target, i),
        segs.len() > 0,
        i < target.len(),
        i < u64::MAX,
        segs.last().is_copy() == same_at(base, target, i),
    ensures
        is_positional_prefix(
            segs.drop_last().push(
                grown_segment(segs.last(), output_len(segs.drop_last()) as int, target),
            ),
            base,
            target,
            i + 1,
        ),
{
    let n = segs.len() - 1;
    let front = segs.drop_last();
    let o = output_len(front) as int;
    let last = segs.last();
    let grown = grown_segment(last, o, target);
    let after = front.push(grown);
    assert(segs.take(n) =~= front);
    assert(run_at(segs, n, base, target));
    assert(o + last.out_len() == i);
    lemma_output_len_push(front, grown);
    assert(segment_ok(grown, o, base, target)) by {
        match last {
            SegmentView::Copy { start, len } => {},
            SegmentView::Insert { bytes } => {},
        }
    }
    assert forall|k: int| 0 <= k < after.len() implies #[trigger] run_at(
        after,
        k,
        base,
        target,
    ) by {
        if k < n {
            assert(run_at(segs, k, base, target));
            assert(segs.take(k) =~= front.take(k));
            assert(after.take(k) =~= front.take(k));
            assert(after[k] == segs[k]);
        } else {
            assert(after.take(k) =~= front);
        }
    }
    assert forall|k: int| 0 < k < after.len() implies #[trigger] alternates_at(after, k) by {
        assert(alternates_at(segs, k));
        assert(after[k - 1] == segs[k - 1]);
    }
}

/// Every two byte strings of lengths that fit sixty-four bits have a
/// positional diff up to each position, whose last run is of the kind that
/// the comparison before that position asks for.
pub proof fn lemma_positional_prefix_exists(base: Seq<u8>, target: Seq<u8>, i: int) -> (segs: Seq<
    SegmentView,
>)
    requires
        0 <= i <= target.len(),
        target.len() <= u64::MAX,
    ensures
        is_positional_prefix(segs, base, target, i),
        i > 0 ==> segs.len() > 0 && segs.last().is_copy() == same_at(base, target, i - 1),
    decreases i,
{
    if i == 0 {
        let segs = Seq::<SegmentView>::empty();
        assert(output_len(segs) == 0);
        segs
    } else {
        let before = lemma_positional_prefix_exists(base, target, i - 1);
        let p = i - 1;
        if before.len() > 0 && before.last().is_copy() == same_at(base, target, p) {
            lemma_positional_grow(before, base, target, p);
            let front = before.drop_last();
            let grown = grown_segment(before.last(), output_len(front) as int, target);
            let segs = front.push(grown);
            assert(segs.last() == grown);
            segs
        } else {
            let seg = unit_segment(base, target, p);
            assert(segment_ok(seg, p, base, target));
            lemma_positional_extend(before, seg, base, target, p);
            let segs = before.push(seg);
            assert(segs.last() == seg);
            segs
        }
    }
}

/// Every two byte strings of lengths that fit sixty-four bits have a
/// positional diff: the computation of a diff has a result for every pair of
/// states.
pub proof fn lemma_positional_diff_exists(base: Seq<u8>, target: Seq<u8>)
    requires
        target.len() <= u64::MAX,
    ensures
        is_positional_diff(positional_diff(base, target), base, target),
{
    let segs = lemma_positional_prefix_exists(base, target, target.len() as int);
    assert(is_positional_diff(segs, base, target));
}

/// The round trip of a diff between two states: the diff that leads from
/// `base` to `target` applies to `base`, and yields `target`.
pub proof fn lemma_diff_between_round_trip(
    base_slot: u64,
    target_slot: u64,
    base: Seq<u8>,
    target: Seq<u8>,
)
    requires
        base.len() <= u64::MAX,
        target.len() <= u64::MAX,
    ensures
        diff_between(base_slot, target_slot, base, target).applies_to(base),
        diff_between(base_slot, target_slot, base, target).apply(base) == target,
{
    lemma_positional_diff_exists(base, target);
    lemma_diff_round_trip(positional_diff(base, target), base, target);
}

/// The positional diff from `base` to `target`.
pub open spec fn positional_diff(base: Seq<u8>, target: Seq<u8>) -> Seq<SegmentView> {
    choose|segs: Seq<SegmentView>| is_positional_diff(segs, base, target)
}

/// The diff that leads from `base` at `base_slot` to `target` at
/// `target_slot`.
pub open spec fn diff_between(base_slot: u64, target_slot: u64, base: Seq<u8>, target: Seq<u8>) -> HDiffView {
    HDiffView {
        base_slot,
        target_slot,
        base_len: base.len() as u64,
        segments: positional_diff(base, target),
    }
}

/// Whether `d` is the diff that [`compute_diff`] yields for these inputs.
pub open spec fn is_diff_of(
    d: HDiffView,
    base_slot: u64,
    target_slot: u64,
    base: Seq<u8>,
    target: Seq<u8>,
) -> bool {
    &&& d.base_slot == base_slot
    &&& d.target_slot == target_slot
    &&& d.base_len == base.len()
    &&& is_positional_diff(d.segments, base, target)
}

/// A run keeps its place when a segment is added at the end.
pub proof fn lemma_run_at_push(
    segs: Seq<SegmentView>,
    seg: SegmentView,
    k: int,
    base: Seq<u8>,
    target: Seq<u8>,
)
    requires
        0 <= k < segs.len(),
        run_at(segs, k, base, target),
    ensures
        run_at(segs.push(seg), k, base, target),
{
    assert(segs.push(seg).take(k) =~= segs.take(k));
}

/// A diff of the first `i` bytes, extended by a run that starts at `i` and is
/// of the other kind than the last one, is a diff of the bytes up to the end
/// of that run.
pub proof fn lemma_positional_extend(
    segs: Seq<SegmentView>,
    seg: SegmentView,
    base: Seq<u8>,
    target: Seq<u8>,
    i: int,
)
    requires
        is_positional_prefix(segs, base, target, i),
        segment_ok(seg, i, base, target),
        segs.len() > 0 ==> segs.last().is_copy() != seg.is_copy(),
    ensures
        is_positional_prefix(segs.push(seg), base, target, i + seg.out_len()),
{
    let after = segs.push(seg);
    lemma_output_len_push(segs, seg);
    assert forall|k: int| 0 <= k < after.len() implies #[trigger] run_at(
        after,
        k,
        base,
        target,
    ) by {
        if k < segs.len() {
            assert(run_at(segs, k, base, target));
            lemma_run_at_push(segs, seg, k, base, target);
        } else {
            assert(after.take(k) =~= segs);
        }
    }
    assert forall|k: int| 0 < k < after.len() implies #[trigger] alternates_at(after, k) by {
        if k < segs.len() {
            assert(alternates_at(segs, k));
        }
    }
}

/// Computes the positional diff from `base` to `target`.
///
/// The diff applies to `base` and yields `target`. It carries exactly the
/// bytes of `target` that `base` does not hold at the same position.
pub fn compute_diff(base_slot: u64, target_slot: u64, base: &[u8], target: &[u8]) -> (d:
    HDiffBuffer)
    ensures
        d@ == diff_between(base_slot, target_slot, base@, target@),
        is_diff_of(d@, base_slot, target_slot, base@, target@),
        d@.applies_to(base@),
        d@.apply(base@) == target@,
        d@.carried() == differing(base@, target@, target@.len() as int),
{
    let bn: usize = base.len();
    let tn: usize = target.len();
    let mut segments: Vec<Segment> = Vec::new();
    let mut i: usize = 0;
    let mut last_copy: bool = false;
    proof {
        assert(segment_views(segments@).len() == 0);
    }
    while i < tn
        invariant
            bn == base@.len(),
            tn == target@.len(),
            i <= tn,
            is_positional_prefix(segment_views(segments@), base@, target@, i as int),
            segments@.len() > 0 ==> last_copy == segment_views(segments@).last().is_copy(),
            segments@.len() > 0 && i < tn ==> last_copy != same_at(base@, target@, i as int),
        decreases tn - i,
    {
        let ghost before = segment_views(segments@);
        let copying: bool = i < bn && base[i] == target[i];
        let mut j: usize = i + 1;
        while j < tn && (j < bn && base[j] == target[j]) == copying
            invariant
                bn == base@.len(),
                tn == target@.len(),
                i < j <= tn,
                forall|p: int| i <= p < j ==> same_at(base@, target@, p) == copying,
            decreases tn - j,
        {
            j += 1;
        }
        let seg = if copying {
            Segment::Copy { start: i as u64, len: (j - i) as u64 }
        } else {
            Segment::Insert { bytes: copy_range(target, i, j) }
        };
        proof {
            assert(same_at(base@, target@, i as int) == copying);
            assert(seg@.is_copy() == copying);
            assert(seg@.out_len() == j - i);
            assert(segment_ok(seg@, i as int, base@, target@));
            lemma_positional_extend(before, seg@, base@, target@, i as int);
        }
        segments.push(seg);
        proof {
            assert(segment_views(segments@) =~= before.push(seg@));
        }
        last_copy = copying;
        i = j;
    }
    let d = HDiffBuffer { base_slot, target_slot, base_len: bn as u64, segments };
    proof {
        let segs = d@.segments;
        assert(is_positional_diff(segs, base@, target@));
        lemma_diff_round_trip(segs, base@, target@);
        lemma_positional_carries_differing(segs, base@, target@, segs.len() as int);
        assert(segs.take(segs.len() as int) =~= segs);
        lemma_positional_unique(segs, positional_diff(base@, target@), base@, target@);
    }
    d
}

/// The round trip of computing and applying: whatever diff meets the
/// contract of [`compute_diff`] for `base` and `target` applies to `base`,
/// and what it yields there is `target`.
pub proof fn lemma_apply_of_computed_diff(
    d: HDiffView,
    base_slot: u64,
    target_slot: u64,
    base: Seq<u8>,
    target: Seq<u8>,
)
    requires
        is_diff_of(d, base_slot, target_slot, base, target),
    ensures
        d.applies_to(base),
        d.apply(base) == target,
{
    lemma_diff_round_trip(d.segments, base, target);
}

/// The number of bytes that a segment is accounted with: what it carries,
/// and seventeen or nine bytes that describe it.
pub open spec fn segment_size(seg: SegmentView) -> nat {
    match seg {
        SegmentView::Copy { .. } => 17,
        SegmentView::Insert { bytes } => 9 + bytes.len(),
    }
}

/// The number of bytes that `segs` are accounted with.
pub open spec fn segments_size(segs: Seq<SegmentView>) -> nat
    decreases segs.len(),
{
    if segs.len() == 0 {
        0
    } else {
        segments_size(segs.drop_last()) + segment_size(segs.last())
    }
}

/// `n`, or the greatest 64-bit value where `n` is beyond it.
pub open spec fn capped(n: nat) -> u64 {
    if n > u64::MAX {
        u64::MAX
    } else {
        n as u64
    }
}

impl Segment {
    /// A copy of the segment.
    pub fn duplicate(&self) -> (c: Segment)
        ensures
            c@ == self@,
    {
        match self {
            Segment::Copy { start, len } => Segment::Copy { start: *start, len: *len },
            Segment::Insert { bytes } => Segment::Insert { bytes: copy_bytes(bytes.as_slice()) },
        }
    }
}

impl CacheValue for HDiffBuffer {
    open spec fn spec_byte_size(v: HDiffView) -> u64 {
        capped(32 + segments_size(v.segments))
    }

    fn byte_size(&self) -> (n: u64) {
        let ghost segs = self@.segments;
        let mut total: u64 = 32;
        let mut k: usize = 0;
        proof {
            assert(segs.take(0).len() == 0);
        }
        while k < self.segments.len()
            invariant
                segs == self@.segments,
                k <= self.segments@.len(),
                total == capped(32 + segments_size(segs.take(k as int))),
            decreases self.segments@.len() - k,
        {
            proof {
                assert(segs.take(k + 1).drop_last() =~= segs.take(k as int));
                assert(segs.take(k + 1).last() == self.segments@[k as int]@);
            }
            let piece: u64 = match &self.segments[k] {
                Segment::Copy { .. } => 17,
                Segment::Insert { bytes } => add_saturating(9, bytes.len() as u64),
            };
            total = add_saturating(total, piece);
            k += 1;
        }
        proof {
            assert(segs.take(k as int) =~= segs);
        }
        total
    }

    fn duplicate(&self) -> (c: HDiffBuffer) {
        let mut segments: Vec<Segment> = Vec::new();
        let mut k: usize = 0;
        while k < self.segments.len()
            invariant
                k <= self.segments@.len(),
                segments@.len() == k,
                forall|j: int| 0 <= j < k ==> (#[trigger] segments@[j])@ == self.segments@[j]@,
            decreases self.segments@.len() - k,
        {
            segments.push(self.segments[k].duplicate());
            k += 1;
        }
        let c = HDiffBuffer {
            base_slot: self.base_slot,
            target_slot: self.target_slot,
            base_len: self.base_len,
            segments,
        };
        assert(c@.segments =~= self@.segments);
        c
    }
}

} // verus!
