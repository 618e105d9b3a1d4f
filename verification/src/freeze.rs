//! The snapshot and diff manager: how states enter the freezer.
//!
//! A state is frozen as a snapshot where its slot is a multiple of the
//! snapshot interval, or where the chain has no state to start a diff from;
//! otherwise as a diff from the state that the chain has at its slot. Either
//! way the chain then yields the state at its slot, and what it yielded at
//! earlier slots it still yields.

use vstd::prelude::*;
use crate::cache::{LruCache, lemma_all_entries_kept};
use crate::chain::{
    frozen_at, chain_state, load_chain_state, agree_upto, lemma_chain_state_frame,
    lemma_chain_state_of_snapshot, lemma_chain_state_of_diff, lemma_chain_state_bounds,
};
use crate::codec::{compress, decompress, framed, unframed};
use crate::column::Column;
use crate::column_store::ColumnStore;
use crate::diff_format::diff_bytes;
use crate::error::StoreError;
use crate::hdiff::{HDiffBuffer, HDiffView, compute_diff, diff_between, is_diff_of};
use crate::kv::{StoreMap, KeyValueOp, OpView, op_views, batch_outcome, lemma_batch_unfold};
use crate::metrics::MetricsRegistry;
use crate::stored::{Stored, backed, coherent, lemma_coherent_frame, lemma_coherent_except};
use crate::types::{BeaconState, StateView, state_bytes};

verus! {

/// A full state in its frame, as the freezer keeps it.
#[derive(Clone, Debug, PartialEq, Eq)]
pub struct Snapshot {
    pub slot: u64,
    pub bytes: Vec<u8>,
}

/// How a state was frozen.
#[derive(Clone, Copy, Debug, PartialEq, Eq, Structural)]
pub enum FreezeOutcome {
    /// As a full state.
    Snapshot,
    /// As a diff from the frozen state before it.
    Diff,
    /// Not at all: the chain had a state at the slot already.
    AlreadyFrozen,
}

/// Serializes `state` and puts it into a frame.
pub fn take_snapshot(state: &BeaconState) -> (s: Snapshot)
    ensures
        s.slot == state.slot,
        s.bytes@ == framed(state_bytes(state@)),
        unframed(s.bytes@) == Some(state_bytes(state@)),
{
    let bytes = state.encode();
    Snapshot { slot: state.slot, bytes: compress(bytes.as_slice()) }
}

/// Computes the diff that leads from the stored form of `base` to the stored
/// form of `target`.
pub fn diff_states(base: &BeaconState, target: &BeaconState) -> (d: HDiffBuffer)
    ensures
        d@ == diff_between(base.slot, target.slot, state_bytes(base@), state_bytes(target@)),
        is_diff_of(d@, base.slot, target.slot, state_bytes(base@), state_bytes(target@)),
        d@.applies_to(state_bytes(base@)),
        d@.apply(state_bytes(base@)) == state_bytes(target@),
{
    let from = base.encode();
    let to = target.encode();
    compute_diff(base.slot, target.slot, from.as_slice(), to.as_slice())
}

/// What [`load_and_decompress`] yields: the content of the frame under
/// `column` and `key`; `NotFound` where nothing is stored there;
/// `CorruptData` where what is stored is no frame.
pub open spec fn frame_content(m: StoreMap, column: Column, key: u64) -> Result<
    Seq<u8>,
    StoreError,
> {
    if !m.contains_key((column, key)) {
        Err(StoreError::NotFound)
    } else {
        match unframed(m[(column, key)]) {
            Some(bytes) => Ok(bytes),
            None => Err(StoreError::CorruptData),
        }
    }
}

/// Reads the frame under `column` and `key` and takes its content out.
pub fn load_and_decompress(
    store: &ColumnStore,
    metrics: &mut MetricsRegistry,
    column: Column,
    key: u64,
) -> (r: Result<Vec<u8>, StoreError>)
    requires
        store.wf(),
    ensures
        match frame_content(store@, column, key) {
            Ok(bytes) => r is Ok && r.unwrap()@ == bytes,
            Err(e) => r == Err::<Vec<u8>, StoreError>(e),
        },
        final(metrics)@ == crate::column_store::counted_read(
            old(metrics)@,
            column,
            crate::column_store::read_len(store@, column, key),
        ),
        final(metrics)@.not_below(old(metrics)@),
{
    match store.get(metrics, column, key) {
        None => Err(StoreError::NotFound),
        Some(frame) => decompress(frame.as_slice()),
    }
}

/// Whether a snapshot is due at `slot`.
pub open spec fn is_aligned(interval: u64, slot: u64) -> bool {
    interval != 0 && slot % interval == 0
}

/// How a state at `slot` enters a freezer that holds `fz`.
pub open spec fn freeze_plan(fz: StoreMap, interval: u64, slot: u64) -> FreezeOutcome {
    match chain_state(fz, slot) {
        Ok((tip, base)) => if tip == slot {
            FreezeOutcome::AlreadyFrozen
        } else if is_aligned(interval, slot) || fz.contains_key((Column::Diff, slot)) {
            FreezeOutcome::Snapshot
        } else {
            FreezeOutcome::Diff
        },
        Err(e) => FreezeOutcome::Snapshot,
    }
}

/// The two writes that freeze a snapshot: the frame, and the entry of the
/// index.
pub open spec fn snapshot_ops(slot: u64, frame: Seq<u8>) -> Seq<OpView> {
    seq![
        OpView::Put { column: Column::Snapshot, key: slot, value: frame },
        OpView::Put { column: Column::SnapshotIndex, key: slot, value: Seq::<u8>::empty() },
    ]
}

/// What the freezer holds with a snapshot at `slot`.
pub open spec fn with_snapshot(fz: StoreMap, slot: u64, frame: Seq<u8>) -> StoreMap {
    fz.insert((Column::Snapshot, slot), frame).insert(
        (Column::SnapshotIndex, slot),
        Seq::<u8>::empty(),
    )
}

/// The frame of the diff that freezes `bytes` at `slot` on top of the state
/// `base` at `tip`.
pub open spec fn diff_frame(tip: u64, slot: u64, base: Seq<u8>, bytes: Seq<u8>) -> Seq<u8> {
    framed(diff_bytes(diff_between(tip, slot, base, bytes)))
}

/// What freezing `state` makes of a freezer that holds `fz` in `used` bytes:
/// what it holds afterwards, in how many bytes, and the outcome.
///
/// A state whose slot the chain has a state at already is not frozen again.
/// A snapshot is written together with its entry in the index, a diff
/// alone. Where the capacity does not allow the write, the freezer stays as
/// it is and the outcome is `StorageError`.
pub open spec fn freeze_result(
    fz: StoreMap,
    used: nat,
    capacity: u64,
    interval: u64,
    state: StateView,
) -> (StoreMap, nat, Result<FreezeOutcome, StoreError>) {
    let bytes = state_bytes(state);
    match freeze_plan(fz, interval, state.slot) {
        FreezeOutcome::AlreadyFrozen => (fz, used, Ok(FreezeOutcome::AlreadyFrozen)),
        FreezeOutcome::Snapshot => match batch_outcome(
            fz,
            used,
            capacity,
            snapshot_ops(state.slot, framed(bytes)),
        ) {
            Some((m, u)) => (
                with_snapshot(fz, state.slot, framed(bytes)),
                u,
                Ok(FreezeOutcome::Snapshot),
            ),
            None => (fz, used, Err(StoreError::StorageError)),
        },
        FreezeOutcome::Diff => {
            let tip = chain_state(fz, state.slot).unwrap().0;
            let base = chain_state(fz, state.slot).unwrap().1;
            let frame = diff_frame(tip, state.slot, base, bytes);
            if used + frame.len() <= capacity {
                (
                    fz.insert((Column::Diff, state.slot), frame),
                    used + frame.len(),
                    Ok(FreezeOutcome::Diff),
                )
            } else {
                (fz, used, Err(StoreError::StorageError))
            }
        },
    }
}

/// The batch of a snapshot, where the freezer takes it, leaves the freezer
/// with the snapshot.
pub proof fn lemma_snapshot_batch(fz: StoreMap, used: nat, capacity: u64, slot: u64, frame: Seq<u8>)
    ensures
        batch_outcome(fz, used, capacity, snapshot_ops(slot, frame)) is Some ==> batch_outcome(
            fz,
            used,
            capacity,
            snapshot_ops(slot, frame),
        ).unwrap().0 == with_snapshot(fz, slot, frame),
{
    let ops = snapshot_ops(slot, frame);
    lemma_batch_unfold(fz, used, capacity, ops);
    if crate::kv::op_fits(fz, used, capacity, ops[0]) {
        let m1 = crate::kv::map_after(fz, ops[0]);
        let u1 = crate::kv::used_after(fz, used, ops[0]);
        let rest = ops.drop_first();
        assert(rest[0] == ops[1]);
        lemma_batch_unfold(m1, u1, capacity, rest);
        if crate::kv::op_fits(m1, u1, capacity, rest[0]) {
            let m2 = crate::kv::map_after(m1, rest[0]);
            let u2 = crate::kv::used_after(m1, u1, rest[0]);
            assert(rest.drop_first().len() == 0);
            assert(batch_outcome(m2, u2, capacity, rest.drop_first()) == Some((m2, u2)));
        }
    }
}

/// Freezes `state` (see [`freeze_plan`]).
///
/// On success the chain yields a state at the slot of `state`, and unless
/// one was there already, it is `state`. Whatever the outcome, the chain
/// yields at every earlier slot what it yielded before. Where the freezer
/// refuses the write, nothing changes.
pub fn freeze_state(
    freezer: &mut ColumnStore,
    cache: &mut LruCache<HDiffBuffer>,
    metrics: &mut MetricsRegistry,
    interval: u64,
    state: &BeaconState,
) -> (r: Result<FreezeOutcome, StoreError>)
    requires
        old(freezer).wf(),
        old(cache).wf(),
        coherent::<HDiffBuffer>(old(cache)@.entries, old(freezer)@, Column::Diff),
    ensures
        final(freezer).wf(),
        final(cache).wf(),
        coherent::<HDiffBuffer>(final(cache)@.entries, final(freezer)@, Column::Diff),
        final(freezer).spec_capacity() == old(freezer).spec_capacity(),
        final(cache)@.max_items == old(cache)@.max_items,
        final(cache)@.max_bytes == old(cache)@.max_bytes,
        final(metrics)@.not_below(old(metrics)@),
        (final(freezer)@, final(freezer).spec_used(), r) == freeze_result(
            old(freezer)@,
            old(freezer).spec_used(),
            old(freezer).spec_capacity(),
            interval,
            state@,
        ),
        r is Ok ==> frozen_at(final(freezer)@, state.slot),
        r is Ok && r != Ok::<FreezeOutcome, StoreError>(FreezeOutcome::AlreadyFrozen)
            ==> chain_state(final(freezer)@, state.slot) == Ok::<(u64, Seq<u8>), StoreError>(
            (state.slot, state_bytes(state@)),
        ),
        forall|t: u64|
            t < state.slot ==> #[trigger] chain_state(final(freezer)@, t) == chain_state(
                old(freezer)@,
                t,
            ),
{
    let ghost fz = freezer@;
    let ghost entries = cache@.entries;
    let slot: u64 = state.slot;
    let bytes = state.encode();
    let loaded = load_chain_state(freezer, cache, metrics, slot);
    let mut as_diff: Option<(u64, Vec<u8>)> = None;
    match loaded {
        Ok((tip, base)) => {
            if tip == slot {
                assert forall|t: u64| t < slot implies #[trigger] chain_state(freezer@, t)
                    == chain_state(fz, t) by {}
                return Ok(FreezeOutcome::AlreadyFrozen);
            }
            let aligned: bool = interval != 0 && slot % interval == 0;
            if !aligned && !freezer.key_exists(metrics, Column::Diff, slot) {
                as_diff = Some((tip, base));
            }
        },
        Err(e) => {},
    }
    let ghost kept = cache@.entries;
    match as_diff {
        Some((tip, base)) => {
            let d = compute_diff(tip, slot, base.as_slice(), bytes.as_slice());
            let frame = d.to_stored();
            proof {
                lemma_chain_state_bounds(fz, slot);
                lemma_chain_state_of_diff(fz, slot, frame@, d@, tip, base@);
                lemma_all_entries_kept(
                    kept,
                    |k: u64, v: HDiffView| backed::<HDiffBuffer>(fz, Column::Diff, k, v),
                    slot,
                    0,
                    0,
                    0,
                );
            }
            cache.remove(slot);
            match freezer.put(metrics, Column::Diff, slot, frame) {
                Err(e) => {
                    assert forall|t: u64| t < slot implies #[trigger] chain_state(freezer@, t)
                        == chain_state(fz, t) by {}
                    Err(StoreError::StorageError)
                },
                Ok(()) => {
                    proof {
                        lemma_coherent_except::<HDiffBuffer>(
                            cache@.entries,
                            fz,
                            freezer@,
                            Column::Diff,
                            slot,
                        );
                        assert forall|t: u64| t < slot implies #[trigger] chain_state(
                            freezer@,
                            t,
                        ) == chain_state(fz, t) by {
                            assert(agree_upto(fz, freezer@, t));
                            lemma_chain_state_frame(fz, freezer@, t);
                        }
                    }
                    Ok(FreezeOutcome::Diff)
                },
            }
        },
        None => {
            let frame = take_snapshot(state).bytes;
            let mut ops: Vec<KeyValueOp> = Vec::new();
            ops.push(KeyValueOp::Put { column: Column::Snapshot, key: slot, value: frame });
            ops.push(KeyValueOp::Put { column: Column::SnapshotIndex, key: slot, value: Vec::new() });
            proof {
                assert(op_views(ops@) =~= snapshot_ops(slot, framed(bytes@)));
                lemma_snapshot_batch(
                    fz,
                    freezer.spec_used(),
                    freezer.spec_capacity(),
                    slot,
                    framed(bytes@),
                );
                lemma_chain_state_of_snapshot(
                    fz,
                    slot,
                    framed(bytes@),
                    Seq::<u8>::empty(),
                    bytes@,
                );
            }
            match freezer.write_batch(metrics, &ops) {
                Err(e) => {
                    assert forall|t: u64| t < slot implies #[trigger] chain_state(freezer@, t)
                        == chain_state(fz, t) by {}
                    Err(StoreError::StorageError)
                },
                Ok(()) => {
                    proof {
                        lemma_coherent_frame::<HDiffBuffer>(
                            cache@.entries,
                            fz,
                            freezer@,
                            Column::Diff,
                        );
                        assert forall|t: u64| t < slot implies #[trigger] chain_state(
                            freezer@,
                            t,
                        ) == chain_state(fz, t) by {
                            assert(agree_upto(fz, freezer@, t));
                            lemma_chain_state_frame(fz, freezer@, t);
                        }
                    }
                    Ok(FreezeOutcome::Snapshot)
                },
            }
        },
    }
}

/// Freezing is idempotent: a freezer whose chain has a state at a slot takes
/// no other state for that slot, whatever the interval, so that a state
/// frozen twice is frozen once.
pub proof fn lemma_frozen_stays(fz: StoreMap, interval: u64, slot: u64)
    requires
        frozen_at(fz, slot),
    ensures
        freeze_plan(fz, interval, slot) == FreezeOutcome::AlreadyFrozen,
{
}

} // verus!
