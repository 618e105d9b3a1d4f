//! The reconstruction engine: the state at a slot, from the latest snapshot
//! at or before it, the diffs after that, and the blocks after those.

use vstd::prelude::*;
use crate::cache::LruCache;
use crate::chain::{
    chain_lookups, chain_state, lemma_chain_state_bounds, load_chain_state, lookups_counted,
};
use crate::column::Column;
use crate::column_store::ColumnStore;
use crate::error::StoreError;
use crate::hdiff::HDiffBuffer;
use crate::kv::StoreMap;
use crate::metrics::{Counter, MetricsRegistry, saturating_sum};
use crate::replay::{
    replayed, replay_blocks, result_view, transition_total, transition_functional, blocks_between,
    same_blocks, lemma_replayed_deterministic, lemma_replayed_frame, lemma_replayed_slot,
};
use crate::stored::coherent;
use crate::types::{BeaconState, Block, StateView, state_of};

verus! {

/// Whether `result` is an outcome of reconstructing the state at `target`
/// from a freezer that holds `fz` and a hot store that holds `hot`.
///
/// Where the chain of the freezer has no state for `target`, the outcome is
/// the error of the chain. Where the state of the chain cannot be decoded, or
/// is not a state of the slot it is frozen at, it is `CorruptData`. Else it
/// is an outcome of replaying the blocks after that state up to `target`.
pub open spec fn reconstructs<F: Fn(&BeaconState, &Block) -> Option<BeaconState>>(
    fz: StoreMap,
    hot: StoreMap,
    f: F,
    target: u64,
    result: Result<StateView, StoreError>,
) -> bool {
    match chain_state(fz, target) {
        Err(e) => result == Err::<StateView, StoreError>(e),
        Ok((tip, bytes)) => match state_of(bytes) {
            None => result == Err::<StateView, StoreError>(StoreError::CorruptData),
            Some(state) => if state.slot != tip {
                result == Err::<StateView, StoreError>(StoreError::CorruptData)
            } else {
                replayed(hot, f, state, target, result)
            },
        },
    }
}

/// The slot of the state that the chain of the freezer has for `target`, or
/// `target` where it has none.
pub open spec fn chain_tip(fz: StoreMap, target: u64) -> u64 {
    match chain_state(fz, target) {
        Ok((tip, bytes)) => tip,
        Err(e) => target,
    }
}

/// Reconstructs the state at `target` (see [`reconstructs`]).
///
/// Diffs and blocks are taken from their caches where those have them; the
/// result does not depend on it. On success the count of replayed blocks has
/// grown by the number of slots between the state of the chain and `target`.
pub fn reconstruct_state<F: Fn(&BeaconState, &Block) -> Option<BeaconState>>(
    freezer: &ColumnStore,
    hot: &ColumnStore,
    hdiff_cache: &mut LruCache<HDiffBuffer>,
    block_cache: &mut LruCache<Block>,
    metrics: &mut MetricsRegistry,
    transition: &F,
    target: u64,
) -> (r: Result<BeaconState, StoreError>)
    requires
        freezer.wf(),
        hot.wf(),
        old(hdiff_cache).wf(),
        old(block_cache).wf(),
        coherent::<HDiffBuffer>(old(hdiff_cache)@.entries, freezer@, Column::Diff),
        coherent::<Block>(old(block_cache)@.entries, hot@, Column::Block),
        transition_total(*transition),
    ensures
        final(hdiff_cache).wf(),
        final(block_cache).wf(),
        coherent::<HDiffBuffer>(final(hdiff_cache)@.entries, freezer@, Column::Diff),
        coherent::<Block>(final(block_cache)@.entries, hot@, Column::Block),
        final(hdiff_cache)@.max_items == old(hdiff_cache)@.max_items,
        final(hdiff_cache)@.max_bytes == old(hdiff_cache)@.max_bytes,
        final(block_cache)@.max_items == old(block_cache)@.max_items,
        final(block_cache)@.max_bytes == old(block_cache)@.max_bytes,
        reconstructs(freezer@, hot@, *transition, target, result_view(r)),
        r is Ok ==> r.unwrap().slot == target,
        r is Ok ==> final(metrics)@.counter(Counter::ReplayedBlocks) == saturating_sum(
            old(metrics)@.counter(Counter::ReplayedBlocks),
            blocks_between(chain_tip(freezer@, target), target),
        ),
        final(metrics)@.not_below(old(metrics)@),
        final(metrics)@.gauges == old(metrics)@.gauges,
        lookups_counted(old(metrics)@, final(metrics)@, chain_lookups(freezer@, target)),
        forall|c: Counter|
            c != Counter::HdiffBufferCacheHit && c != Counter::HdiffBufferCacheMiss && c
                != Counter::ReplayedBlocks ==> #[trigger] final(metrics)@.counters[c] == old(
                metrics,
            )@.counters[c],
{
    proof {
        lemma_chain_state_bounds(freezer@, target);
    }
    let (tip, bytes) = match load_chain_state(freezer, hdiff_cache, metrics, target) {
        Err(e) => {
            return Err(e);
        },
        Ok(found) => found,
    };
    let state = match BeaconState::decode(bytes.as_slice()) {
        None => {
            return Err(StoreError::CorruptData);
        },
        Some(state) => state,
    };
    if state.slot != tip {
        return Err(StoreError::CorruptData);
    }
    replay_blocks(hot, block_cache, metrics, transition, state, target)
}

/// Reconstruction is deterministic: where the promises of the transition
/// determine its answers, reconstructing the state at one slot from the same
/// stored data has one outcome.
pub proof fn lemma_reconstruction_deterministic<
    F: Fn(&BeaconState, &Block) -> Option<BeaconState>,
>(
    fz: StoreMap,
    hot: StoreMap,
    f: F,
    target: u64,
    a: Result<StateView, StoreError>,
    b: Result<StateView, StoreError>,
)
    requires
        transition_functional(f),
        reconstructs(fz, hot, f, target, a),
        reconstructs(fz, hot, f, target, b),
    ensures
        a == b,
{
    match chain_state(fz, target) {
        Err(e) => {},
        Ok((tip, bytes)) => match state_of(bytes) {
            None => {},
            Some(state) => {
                if state.slot == tip {
                    lemma_replayed_deterministic(hot, f, state, target, a, b);
                }
            },
        },
    }
}

/// Reconstruction reads of the hot store nothing but blocks and the index of
/// their roots.
pub proof fn lemma_reconstructs_frame<F: Fn(&BeaconState, &Block) -> Option<BeaconState>>(
    fz: StoreMap,
    a: StoreMap,
    b: StoreMap,
    f: F,
    target: u64,
    result: Result<StateView, StoreError>,
)
    requires
        same_blocks(a, b),
        reconstructs(fz, a, f, target, result),
    ensures
        reconstructs(fz, b, f, target, result),
{
    match chain_state(fz, target) {
        Err(e) => {},
        Ok((tip, bytes)) => match state_of(bytes) {
            None => {},
            Some(state) => {
                if state.slot == tip {
                    lemma_replayed_frame(a, b, f, state, target, result);
                }
            },
        },
    }
}

/// A reconstruction that succeeds yields a state of the slot asked for.
pub proof fn lemma_reconstructs_slot<F: Fn(&BeaconState, &Block) -> Option<BeaconState>>(
    fz: StoreMap,
    hot: StoreMap,
    f: F,
    target: u64,
    end: StateView,
)
    requires
        reconstructs(fz, hot, f, target, Ok::<StateView, StoreError>(end)),
    ensures
        end.slot == target,
{
    lemma_chain_state_bounds(fz, target);
    match chain_state(fz, target) {
        Err(e) => {},
        Ok((tip, bytes)) => match state_of(bytes) {
            None => {},
            Some(state) => {
                if state.slot == tip {
                    lemma_replayed_slot(hot, f, state, target, end);
                }
            },
        },
    }
}

} // verus!
