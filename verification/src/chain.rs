//! The diff chains of the freezer.
//!
//! The freezer holds a snapshot, a full state in a frame, at some slots, and
//! at others a diff that leads there from the frozen state before. The state
//! of the chain at a slot is the latest snapshot at or before it with every
//! later diff up to the slot applied in order.

use vstd::prelude::*;
use crate::cache::LruCache;
use crate::codec::{decompress, unframed};
use crate::column::Column;
use crate::column_store::ColumnStore;
use crate::error::{ReconstructionStep, StoreError};
use crate::hdiff::HDiffBuffer;
use crate::kv::{
    StoreMap, floor_of, ceiling_of, is_floor, is_ceiling, lemma_floor_of, lemma_ceiling_of,
    lemma_floor_unique, lemma_floor_same_keys, lemma_ceiling_same_keys, lemma_ceiling_below,
};
use crate::hdiff::HDiffView;
use crate::metrics::{Counter, MetricsRegistry, MetricsView};
use crate::stored::{coherent, stored_value, read_through};

verus! {

/// The error of a reconstruction that failed at `step` on the way from `slot`
/// to `target`.
pub open spec fn gap(step: ReconstructionStep, slot: u64, target: u64) -> StoreError {
    StoreError::ReconstructionError { step, slot, target }
}

/// The latest snapshot at or before `target`: its slot and the bytes of its
/// state.
///
/// Fails with a reconstruction error at `LoadSnapshot` where the index holds
/// no slot at or before `target` (the error then names `target` itself) or
/// the snapshot of the indexed slot is absent, and with `CorruptData` where
/// the snapshot is no frame.
pub open spec fn snapshot_for(fz: StoreMap, target: u64) -> Result<(u64, Seq<u8>), StoreError> {
    match floor_of(fz, Column::SnapshotIndex, target) {
        None => Err(gap(ReconstructionStep::LoadSnapshot, target, target)),
        Some(s) => if !fz.contains_key((Column::Snapshot, s)) {
            Err(gap(ReconstructionStep::LoadSnapshot, s, target))
        } else {
            match unframed(fz[(Column::Snapshot, s)]) {
                None => Err(StoreError::CorruptData),
                Some(bytes) => Ok((s, bytes)),
            }
        },
    }
}

/// The state reached from `bytes` at slot `cur` by applying, in order, every
/// diff after `cur` and at or before `target`: its slot and its bytes.
///
/// Fails with `CorruptData` where a diff cannot be decoded, and with a
/// reconstruction error that names the slot reached so far where a diff does
/// not start from that slot (`LoadDiff`) or does not apply to the state
/// reached (`ApplyDiff`).
pub open spec fn diffs_applied(fz: StoreMap, cur: u64, bytes: Seq<u8>, target: u64) -> Result<
    (u64, Seq<u8>),
    StoreError,
>
    decreases target - cur,
{
    if cur >= target {
        Ok((cur, bytes))
    } else {
        match ceiling_of(fz, Column::Diff, (cur + 1) as u64) {
            None => Ok((cur, bytes)),
            Some(next) => if next > target || next <= cur {
                Ok((cur, bytes))
            } else {
                match stored_value::<HDiffBuffer>(fz, Column::Diff, next) {
                    Err(e) => Err(e),
                    Ok(d) => if d.base_slot != cur || d.target_slot != next {
                        Err(gap(ReconstructionStep::LoadDiff, cur, target))
                    } else if !d.applies_to(bytes) {
                        Err(gap(ReconstructionStep::ApplyDiff, cur, target))
                    } else {
                        diffs_applied(fz, next, d.apply(bytes), target)
                    },
                }
            },
        }
    }
}

/// The state of the chain at `target`: the slot of the latest frozen state at
/// or before `target`, and its bytes.
pub open spec fn chain_state(fz: StoreMap, target: u64) -> Result<(u64, Seq<u8>), StoreError> {
    match snapshot_for(fz, target) {
        Err(e) => Err(e),
        Ok((s, bytes)) => diffs_applied(fz, s, bytes, target),
    }
}

/// Whether the chain of the freezer has a state at `slot` itself.
pub open spec fn frozen_at(fz: StoreMap, slot: u64) -> bool {
    chain_state(fz, slot) is Ok && chain_state(fz, slot).unwrap().0 == slot
}

/// The chain never reaches beyond the slot asked for, nor falls back behind
/// where it started.
pub proof fn lemma_diffs_applied_bounds(fz: StoreMap, cur: u64, bytes: Seq<u8>, target: u64)
    requires
        cur <= target,
    ensures
        diffs_applied(fz, cur, bytes, target) is Ok ==> cur <= diffs_applied(
            fz,
            cur,
            bytes,
            target,
        ).unwrap().0 <= target,
    decreases target - cur,
{
    if cur < target {
        match ceiling_of(fz, Column::Diff, (cur + 1) as u64) {
            None => {},
            Some(next) => {
                if !(next > target || next <= cur) {
                    match stored_value::<HDiffBuffer>(fz, Column::Diff, next) {
                        Err(e) => {},
                        Ok(d) => {
                            if d.base_slot == cur && d.target_slot == next && d.applies_to(bytes) {
                                lemma_diffs_applied_bounds(fz, next, d.apply(bytes), target);
                            }
                        },
                    }
                }
            },
        }
    }
}

/// The state of the chain at `target` is at or before `target`.
pub proof fn lemma_chain_state_bounds(fz: StoreMap, target: u64)
    ensures
        chain_state(fz, target) is Ok ==> chain_state(fz, target).unwrap().0 <= target,
{
    match floor_of(fz, Column::SnapshotIndex, target) {
        None => {},
        Some(s) => {
            let f = choose|f: u64| is_floor(fz, Column::SnapshotIndex, target, f);
            assert(is_floor(fz, Column::SnapshotIndex, target, f));
            match snapshot_for(fz, target) {
                Err(e) => {},
                Ok((s2, bytes)) => {
                    lemma_diffs_applied_bounds(fz, s, bytes, target);
                },
            }
        },
    }
}

/// Whether two maps hold the same under every key at or before `upto`.
pub open spec fn agree_upto(a: StoreMap, b: StoreMap, upto: u64) -> bool {
    forall|column: Column, k: u64|
        k <= upto ==> (#[trigger] a.contains_key((column, k)) == b.contains_key((column, k))) && (
        a.contains_key((column, k)) ==> a[(column, k)] == b[(column, k)])
}

/// The diffs up to a slot depend on nothing that is stored after that slot.
pub proof fn lemma_diffs_applied_frame(
    a: StoreMap,
    b: StoreMap,
    cur: u64,
    bytes: Seq<u8>,
    target: u64,
)
    requires
        agree_upto(a, b, target),
    ensures
        diffs_applied(a, cur, bytes, target) == diffs_applied(b, cur, bytes, target),
    decreases target - cur,
{
    if cur < target {
        let from = (cur + 1) as u64;
        assert forall|k: u64| from <= k <= target implies (#[trigger] a.contains_key(
            (Column::Diff, k),
        ) == b.contains_key((Column::Diff, k))) by {}
        lemma_ceiling_same_keys(a, b, Column::Diff, from, target);
        lemma_ceiling_of(a, Column::Diff, from);
        match ceiling_of(a, Column::Diff, from) {
            None => {},
            Some(next) => {
                if !(next > target || next <= cur) {
                    assert(a.contains_key((Column::Diff, next)));
                    match stored_value::<HDiffBuffer>(a, Column::Diff, next) {
                        Err(e) => {},
                        Ok(d) => {
                            if d.base_slot == cur && d.target_slot == next && d.applies_to(bytes) {
                                lemma_diffs_applied_frame(a, b, next, d.apply(bytes), target);
                            }
                        },
                    }
                }
            },
        }
    }
}

/// The state of the chain at a slot depends on nothing that is stored after
/// that slot.
pub proof fn lemma_chain_state_frame(a: StoreMap, b: StoreMap, target: u64)
    requires
        agree_upto(a, b, target),
    ensures
        chain_state(a, target) == chain_state(b, target),
{
    assert forall|k: u64| k <= target implies (#[trigger] a.contains_key(
        (Column::SnapshotIndex, k),
    ) == b.contains_key((Column::SnapshotIndex, k))) by {}
    lemma_floor_same_keys(a, b, Column::SnapshotIndex, target);
    lemma_floor_of(a, Column::SnapshotIndex, target);
    match floor_of(a, Column::SnapshotIndex, target) {
        None => {},
        Some(s) => {
            assert(a.contains_key((Column::Snapshot, s)) == b.contains_key((Column::Snapshot, s)));
            match snapshot_for(a, target) {
                Err(e) => {},
                Ok((s2, bytes)) => {
                    lemma_diffs_applied_frame(a, b, s, bytes, target);
                },
            }
        },
    }
}

/// A snapshot written at a slot is the state of the chain at that slot.
pub proof fn lemma_chain_state_of_snapshot(
    fz: StoreMap,
    slot: u64,
    frame: Seq<u8>,
    marker: Seq<u8>,
    bytes: Seq<u8>,
)
    requires
        unframed(frame) == Some(bytes),
    ensures
        chain_state(
            fz.insert((Column::Snapshot, slot), frame).insert((Column::SnapshotIndex, slot), marker),
            slot,
        ) == Ok::<(u64, Seq<u8>), StoreError>((slot, bytes)),
{
    let after = fz.insert((Column::Snapshot, slot), frame).insert(
        (Column::SnapshotIndex, slot),
        marker,
    );
    assert(after.contains_key((Column::SnapshotIndex, slot)));
    assert(is_floor(after, Column::SnapshotIndex, slot, slot));
    lemma_floor_unique(after, Column::SnapshotIndex, slot, slot);
}

/// A diff written at a slot, from the state that the chain had there before,
/// extends the chain: where the diffs up to `slot` led from `cur` to an
/// earlier slot `tip`, they now lead on to `slot`, and to what the new diff
/// yields.
pub proof fn lemma_diffs_applied_extended(
    fz: StoreMap,
    cur: u64,
    bytes: Seq<u8>,
    slot: u64,
    frame: Seq<u8>,
    d: HDiffView,
    tip: u64,
    base: Seq<u8>,
)
    requires
        cur <= slot,
        diffs_applied(fz, cur, bytes, slot) == Ok::<(u64, Seq<u8>), StoreError>((tip, base)),
        tip < slot,
        !fz.contains_key((Column::Diff, slot)),
        crate::stored::diff_of_frame(frame) == Some(d),
        d.base_slot == tip,
        d.target_slot == slot,
        d.applies_to(base),
    ensures
        diffs_applied(fz.insert((Column::Diff, slot), frame), cur, bytes, slot) == Ok::<
            (u64, Seq<u8>),
            StoreError,
        >((slot, d.apply(base))),
    decreases slot - cur,
{
    let after = fz.insert((Column::Diff, slot), frame);
    lemma_diffs_applied_bounds(fz, cur, bytes, slot);
    assert(cur < slot);
    let from = (cur + 1) as u64;
    let limit = (slot - 1) as u64;
    assert forall|k: u64| from <= k <= limit implies (#[trigger] fz.contains_key(
        (Column::Diff, k),
    ) == after.contains_key((Column::Diff, k))) by {}
    lemma_ceiling_same_keys(fz, after, Column::Diff, from, limit);
    lemma_ceiling_of(fz, Column::Diff, from);
    lemma_ceiling_of(after, Column::Diff, from);
    let before_next = ceiling_of(fz, Column::Diff, from);
    if before_next is Some && before_next.unwrap() <= limit {
        let next = before_next.unwrap();
        assert(is_ceiling(fz, Column::Diff, from, next));
        assert(ceiling_of(after, Column::Diff, from) == Some(next));
        assert(cur < next < slot);
        assert(fz.contains_key((Column::Diff, next)));
        assert(after.contains_key((Column::Diff, next)));
        assert(after[(Column::Diff, next)] == fz[(Column::Diff, next)]);
        assert(stored_value::<HDiffBuffer>(after, Column::Diff, next) == stored_value::<
            HDiffBuffer,
        >(fz, Column::Diff, next));
        match stored_value::<HDiffBuffer>(fz, Column::Diff, next) {
            Err(e) => {
                assert(false);
            },
            Ok(step) => {
                assert(step.base_slot == cur && step.target_slot == next);
                assert(step.applies_to(bytes));
                assert(diffs_applied(fz, cur, bytes, slot) == diffs_applied(
                    fz,
                    next,
                    step.apply(bytes),
                    slot,
                ));
                lemma_diffs_applied_extended(
                    fz,
                    next,
                    step.apply(bytes),
                    slot,
                    frame,
                    d,
                    tip,
                    base,
                );
                assert(diffs_applied(after, cur, bytes, slot) == diffs_applied(
                    after,
                    next,
                    step.apply(bytes),
                    slot,
                ));
            },
        }
    } else {
        if before_next is Some {
            assert(fz.contains_key((Column::Diff, before_next.unwrap())));
            assert(before_next.unwrap() > slot);
        }
        assert(diffs_applied(fz, cur, bytes, slot) == Ok::<(u64, Seq<u8>), StoreError>(
            (cur, bytes),
        ));
        assert(tip == cur && base == bytes);
        assert(after.contains_key((Column::Diff, slot)));
        lemma_ceiling_below(after, Column::Diff, from, slot);
        assert(ceiling_of(after, Column::Diff, from) == Some(slot));
        assert(after[(Column::Diff, slot)] == frame);
        assert(stored_value::<HDiffBuffer>(after, Column::Diff, slot) == Ok::<
            HDiffView,
            StoreError,
        >(d));
        assert(diffs_applied(after, slot, d.apply(bytes), slot) == Ok::<
            (u64, Seq<u8>),
            StoreError,
        >((slot, d.apply(bytes))));
        assert(diffs_applied(after, cur, bytes, slot) == diffs_applied(
            after,
            slot,
            d.apply(bytes),
            slot,
        ));
    }
}

/// A diff written at a slot, from the state that the chain had there before,
/// makes the state that it yields the state of the chain at that slot.
pub proof fn lemma_chain_state_of_diff(
    fz: StoreMap,
    slot: u64,
    frame: Seq<u8>,
    d: HDiffView,
    tip: u64,
    base: Seq<u8>,
)
    requires
        chain_state(fz, slot) == Ok::<(u64, Seq<u8>), StoreError>((tip, base)),
        tip < slot,
        !fz.contains_key((Column::Diff, slot)),
        crate::stored::diff_of_frame(frame) == Some(d),
        d.base_slot == tip,
        d.target_slot == slot,
        d.applies_to(base),
    ensures
        chain_state(fz.insert((Column::Diff, slot), frame), slot) == Ok::<
            (u64, Seq<u8>),
            StoreError,
        >((slot, d.apply(base))),
{
    let after = fz.insert((Column::Diff, slot), frame);
    assert forall|k: u64| k <= slot implies (#[trigger] fz.contains_key(
        (Column::SnapshotIndex, k),
    ) == after.contains_key((Column::SnapshotIndex, k))) by {}
    lemma_floor_same_keys(fz, after, Column::SnapshotIndex, slot);
    lemma_floor_of(fz, Column::SnapshotIndex, slot);
    match snapshot_for(fz, slot) {
        Err(e) => {},
        Ok((s, bytes)) => {
            assert(after[(Column::Snapshot, s)] == fz[(Column::Snapshot, s)]);
            lemma_diffs_applied_extended(fz, s, bytes, slot, frame, d, tip, base);
        },
    }
}

/// The number of diffs that are looked up on the way from `bytes` at slot
/// `cur` to `target`: those that are applied, and the one at which the way
/// ends in an error.
pub open spec fn diff_lookups(fz: StoreMap, cur: u64, bytes: Seq<u8>, target: u64) -> nat
    decreases target - cur,
{
    if cur >= target {
        0
    } else {
        match ceiling_of(fz, Column::Diff, (cur + 1) as u64) {
            None => 0,
            Some(next) => if next > target || next <= cur {
                0
            } else {
                1 + (match stored_value::<HDiffBuffer>(fz, Column::Diff, next) {
                    Err(e) => 0nat,
                    Ok(d) => if d.base_slot != cur || d.target_slot != next || !d.applies_to(
                        bytes,
                    ) {
                        0nat
                    } else {
                        diff_lookups(fz, next, d.apply(bytes), target)
                    },
                })
            },
        }
    }
}

/// The number of diffs that are looked up to load the state of the chain at
/// `target`.
pub open spec fn chain_lookups(fz: StoreMap, target: u64) -> nat {
    match snapshot_for(fz, target) {
        Err(e) => 0,
        Ok((s, bytes)) => diff_lookups(fz, s, bytes, target),
    }
}

/// Whether, from `before` to `after`, the hits and the misses of the diff
/// cache have together grown by `n`, where neither count has reached the top
/// of its range.
pub open spec fn lookups_counted(before: MetricsView, after: MetricsView, n: nat) -> bool {
    after.counters[Counter::HdiffBufferCacheHit] < u64::MAX && after.counters[Counter::HdiffBufferCacheMiss]
        < u64::MAX ==> after.counters[Counter::HdiffBufferCacheHit]
        + after.counters[Counter::HdiffBufferCacheMiss]
        == before.counters[Counter::HdiffBufferCacheHit]
        + before.counters[Counter::HdiffBufferCacheMiss] + n
}

/// Loads the state of the chain at `target` (see [`chain_state`]).
///
/// Diffs are taken from the cache where it has them, and else from the
/// freezer, which then fills the cache; the result is the same either way.
/// Each lookup of a diff counts as a hit or a miss of the diff cache.
pub fn load_chain_state(
    freezer: &ColumnStore,
    cache: &mut LruCache<HDiffBuffer>,
    metrics: &mut MetricsRegistry,
    target: u64,
) -> (r: Result<(u64, Vec<u8>), StoreError>)
    requires
        freezer.wf(),
        old(cache).wf(),
        coherent::<HDiffBuffer>(old(cache)@.entries, freezer@, Column::Diff),
    ensures
        final(cache).wf(),
        coherent::<HDiffBuffer>(final(cache)@.entries, freezer@, Column::Diff),
        final(cache)@.max_items == old(cache)@.max_items,
        final(cache)@.max_bytes == old(cache)@.max_bytes,
        match chain_state(freezer@, target) {
            Ok((slot, bytes)) => r is Ok && r.unwrap().0 == slot && r.unwrap().1@ == bytes,
            Err(e) => r == Err::<(u64, Vec<u8>), StoreError>(e),
        },
        final(metrics)@.not_below(old(metrics)@),
        final(metrics)@.gauges == old(metrics)@.gauges,
        forall|c: Counter|
            c != Counter::HdiffBufferCacheHit && c != Counter::HdiffBufferCacheMiss
                ==> #[trigger] final(metrics)@.counters[c] == old(metrics)@.counters[c],
        lookups_counted(old(metrics)@, final(metrics)@, chain_lookups(freezer@, target)),
{
    let ghost fz = freezer@;
    let ghost mut seen: nat = 0;
    let s: u64 = match freezer.floor_key(Column::SnapshotIndex, target) {
        None => {
            return Err(
                StoreError::ReconstructionError {
                    step: ReconstructionStep::LoadSnapshot,
                    slot: target,
                    target,
                },
            );
        },
        Some(s) => s,
    };
    proof {
        let f = choose|f: u64| is_floor(fz, Column::SnapshotIndex, target, f);
        assert(is_floor(fz, Column::SnapshotIndex, target, f));
    }
    let frame: Vec<u8> = match freezer.get(metrics, Column::Snapshot, s) {
        None => {
            return Err(
                StoreError::ReconstructionError {
                    step: ReconstructionStep::LoadSnapshot,
                    slot: s,
                    target,
                },
            );
        },
        Some(frame) => frame,
    };
    let mut bytes: Vec<u8> = match decompress(frame.as_slice()) {
        Err(e) => {
            return Err(StoreError::CorruptData);
        },
        Ok(bytes) => bytes,
    };
    let mut cur: u64 = s;
    let mut done: bool = false;
    while !done && cur < target
        invariant
            freezer.wf(),
            fz == freezer@,
            cache.wf(),
            coherent::<HDiffBuffer>(cache@.entries, fz, Column::Diff),
            cache@.max_items == old(cache)@.max_items,
            cache@.max_bytes == old(cache)@.max_bytes,
            metrics@.not_below(old(metrics)@),
            metrics@.gauges == old(metrics)@.gauges,
            forall|c: Counter|
                c != Counter::HdiffBufferCacheHit && c != Counter::HdiffBufferCacheMiss
                    ==> #[trigger] metrics@.counters[c] == old(metrics)@.counters[c],
            cur <= target,
            chain_state(fz, target) == diffs_applied(fz, cur, bytes@, target),
            done ==> diffs_applied(fz, cur, bytes@, target) == Ok::<(u64, Seq<u8>), StoreError>(
                (cur, bytes@),
            ),
            chain_lookups(fz, target) == seen + diff_lookups(fz, cur, bytes@, target),
            done ==> diff_lookups(fz, cur, bytes@, target) == 0,
            lookups_counted(old(metrics)@, metrics@, seen),
        decreases (if done { 0 } else { 1 + target - cur }),
    {
        match freezer.ceiling_key(Column::Diff, cur + 1) {
            None => {
                done = true;
            },
            Some(next) => {
                proof {
                    let from = (cur + 1) as u64;
                    let c = choose|c: u64| is_ceiling(fz, Column::Diff, from, c);
                    assert(is_ceiling(fz, Column::Diff, from, c));
                }
                if next > target {
                    done = true;
                } else {
                    let (found, hit) = read_through(cache, freezer, metrics, Column::Diff, next);
                    if hit {
                        metrics.inc_counter(Counter::HdiffBufferCacheHit);
                    } else {
                        metrics.inc_counter(Counter::HdiffBufferCacheMiss);
                    }
                    proof {
                        seen = seen + 1;
                    }
                    let d: HDiffBuffer = match found {
                        Err(e) => {
                            return Err(e);
                        },
                        Ok(d) => d,
                    };
                    if d.base_slot != cur || d.target_slot != next {
                        return Err(
                            StoreError::ReconstructionError {
                                step: ReconstructionStep::LoadDiff,
                                slot: cur,
                                target,
                            },
                        );
                    }
                    match d.apply(bytes.as_slice()) {
                        None => {
                            return Err(
                                StoreError::ReconstructionError {
                                    step: ReconstructionStep::ApplyDiff,
                                    slot: cur,
                                    target,
                                },
                            );
                        },
                        Some(out) => {
                            bytes = out;
                            cur = next;
                        },
                    }
                }
            },
        }
    }
    Ok((cur, bytes))
}

} // verus!
