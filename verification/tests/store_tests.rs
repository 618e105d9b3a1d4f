use store::column::Column;
use store::error::{ReconstructionStep, StoreError};
use store::freeze::{freeze_state, load_and_decompress, take_snapshot, diff_states, FreezeOutcome};
use store::cache::LruCache;
use store::chain::load_chain_state;
use store::codec::{compress, decompress};
use store::column_store::ColumnStore;
use store::hdiff::HDiffBuffer;
use store::metrics::{Counter, Gauge, MetricsRegistry};
use store::hot_cold_store::{HotColdStore, StateId, StoreConfig};
use store::stored::Stored;
use store::types::{BeaconState, Block, SidecarList};

fn config() -> StoreConfig {
    StoreConfig {
        snapshot_interval: 100,
        hot_capacity: 1 << 20,
        freezer_capacity: 1 << 20,
        block_cache_size: 4,
        blob_cache_size: 4,
        data_column_cache_size: 4,
        state_cache_size: 4,
        historic_state_cache_size: 4,
        hdiff_buffer_cache_size: 4,
        hdiff_buffer_cache_bytes: 1 << 16,
    }
}

/// A transition for tests: the new state takes the slot of the block, mixes
/// the roots, and appends the payload; a block without payload is refused.
fn apply(state: &BeaconState, block: &Block) -> Option<BeaconState> {
    if block.payload.is_empty() {
        return None;
    }
    let mut data = state.data.clone();
    data.extend_from_slice(&block.payload);
    Some(BeaconState { slot: block.slot, root: state.root.wrapping_mul(31) ^ block.root, data })
}

fn state_at(slot: u64) -> BeaconState {
    let mut data = vec![0u8; 64];
    for (i, b) in data.iter_mut().enumerate() {
        *b = ((slot as usize + i / 8) % 256) as u8;
    }
    BeaconState { slot, root: 1000 + slot, data }
}

fn block_at(slot: u64) -> Block {
    Block { slot, root: 5000 + slot, parent_root: 5000 + slot - 1, payload: vec![slot as u8, 1, 2] }
}

/// A store with the states of slots 100 and 150 in the freezer.
fn frozen_store() -> HotColdStore<fn(&BeaconState, &Block) -> Option<BeaconState>> {
    let mut s = HotColdStore::new(
        config(),
        apply as fn(&BeaconState, &Block) -> Option<BeaconState>,
    );
    assert_eq!(s.put_state(state_at(100)), Ok(()));
    assert_eq!(s.put_state(state_at(150)), Ok(()));
    assert_eq!(s.migrate(150), Ok(2));
    s
}

#[test]
fn block_put_then_get() {
    let mut s = HotColdStore::new(config(), apply);
    assert_eq!(s.get_block(5001), Err(StoreError::NotFound));
    assert_eq!(s.put_block(block_at(1)), Ok(()));
    assert_eq!(s.get_block(5001), Ok(block_at(1)));
    assert_eq!(s.metrics.counter(Counter::BeaconBlockGet), 2);
    assert_eq!(s.metrics.counter(Counter::BeaconBlockCacheHit), 1);
    assert_eq!(s.metrics.gauge(Gauge::BlockCacheSize), 1);
}

#[test]
fn block_is_read_from_the_store_after_eviction() {
    let mut s = HotColdStore::new(config(), apply);
    for slot in 1..=6u64 {
        assert_eq!(s.put_block(block_at(slot)), Ok(()));
    }
    assert_eq!(s.metrics.gauge(Gauge::BlockCacheSize), 4);
    assert!(!s.block_cache.contains(5001));
    assert_eq!(s.get_block(5001), Ok(block_at(1)));
    assert_eq!(s.metrics.counter(Counter::BeaconBlockCacheHit), 0);
    assert!(s.block_cache.contains(5001));
    assert_eq!(s.get_block(5001), Ok(block_at(1)));
    assert_eq!(s.metrics.counter(Counter::BeaconBlockCacheHit), 1);
}

#[test]
fn block_that_cannot_be_decoded_is_corrupt() {
    let mut s = HotColdStore::new(config(), apply);
    assert_eq!(s.hot.put(&mut s.metrics, Column::Block, 9, vec![1, 2, 3]), Ok(()));
    assert_eq!(s.get_block(9), Err(StoreError::CorruptData));
}

#[test]
fn put_block_is_refused_as_a_whole_when_the_store_is_full() {
    let mut c = config();
    // room for the block, not for the entry of the index as well
    c.hot_capacity = 30;
    let mut s = HotColdStore::new(c, apply);
    assert_eq!(s.put_block(block_at(1)), Err(StoreError::StorageError));
    assert_eq!(s.hot.used_bytes(), 0);
    assert_eq!(s.get_block(5001), Err(StoreError::NotFound));
}

#[test]
fn sidecars_put_then_get() {
    let mut s = HotColdStore::new(config(), apply);
    assert_eq!(s.get_blobs(1), Err(StoreError::NotFound));
    assert_eq!(s.put_blobs(1, SidecarList { bytes: vec![1; 9] }), Ok(()));
    assert_eq!(s.put_data_columns(1, SidecarList { bytes: vec![2; 5] }), Ok(()));
    assert_eq!(s.get_blobs(1), Ok(SidecarList { bytes: vec![1; 9] }));
    assert_eq!(s.get_data_columns(1), Ok(SidecarList { bytes: vec![2; 5] }));
    assert_eq!(s.get_data_columns(2), Err(StoreError::NotFound));
    assert_eq!(s.metrics.counter(Counter::BeaconBlobsCacheHit), 1);
    assert_eq!(s.metrics.counter(Counter::BeaconDataColumnsCacheHit), 1);
    assert_eq!(s.metrics.gauge(Gauge::BlobCacheSize), 1);
}

#[test]
fn hot_state_put_then_get_by_root() {
    let mut s = HotColdStore::new(config(), apply);
    assert_eq!(s.put_state(state_at(7)), Ok(()));
    assert_eq!(s.get_state(StateId::Root(1007)), Ok(state_at(7)));
    assert_eq!(s.get_state_by_root(1008), Err(StoreError::NotFound));
    assert_eq!(s.metrics.counter(Counter::BeaconStateGet), 2);
    assert_eq!(s.metrics.counter(Counter::BeaconStateHotGet), 1);
    assert_eq!(s.metrics.counter(Counter::BeaconStateWrite), 1);
    assert_eq!(s.metrics.counter(Counter::BeaconStateWriteBytes), 80);
    assert_eq!(s.metrics.gauge(Gauge::StateCacheSize), 1);
}

#[test]
fn migration_freezes_a_snapshot_and_a_diff() {
    let mut s = frozen_store();
    assert!(s.freezer.key_exists(&mut s.metrics, Column::Snapshot, 100));
    assert!(s.freezer.key_exists(&mut s.metrics, Column::SnapshotIndex, 100));
    assert!(s.freezer.key_exists(&mut s.metrics, Column::Diff, 150));
    assert!(!s.freezer.key_exists(&mut s.metrics, Column::Snapshot, 150));
    // the states have left the hot store, their summaries have stayed
    assert!(!s.hot.key_exists(&mut s.metrics, Column::State, 1100));
    assert!(!s.hot.key_exists(&mut s.metrics, Column::StateRoots, 100));
    assert!(s.hot.key_exists(&mut s.metrics, Column::StateSummary, 1100));
    assert_eq!(s.metrics.gauge(Gauge::StateCacheSize), 0);
    // the diff is the diff between the two stored forms
    let frame = s.freezer.get(&mut s.metrics, Column::Diff, 150).unwrap();
    let diff = HDiffBuffer::from_stored(&frame).unwrap();
    assert_eq!(diff, diff_states(&state_at(100), &state_at(150)));
    assert_eq!(diff.apply(&state_at(100).encode()), Some(state_at(150).encode()));
}

#[test]
fn frozen_states_are_reconstructed_exactly() {
    let mut s = frozen_store();
    assert_eq!(s.get_state_by_slot(100), Ok(state_at(100)));
    assert_eq!(s.get_state_by_slot(150), Ok(state_at(150)));
    assert_eq!(s.metrics.counter(Counter::ReplayedBlocks), 0);
    assert_eq!(s.metrics.counter(Counter::HdiffBufferCacheMiss), 1);
    assert_eq!(s.metrics.gauge(Gauge::HistoricStateCacheSize), 2);
    assert_eq!(s.metrics.gauge(Gauge::HdiffBufferCacheSize), 1);
    assert_eq!(
        s.metrics.gauge(Gauge::HdiffBufferCacheByteSize),
        s.hdiff_buffer_cache.size_bytes() as i64
    );
}

#[test]
fn frozen_state_is_read_by_its_root() {
    let mut s = frozen_store();
    assert_eq!(s.get_state_by_root(1150), Ok(state_at(150)));
    assert_eq!(s.metrics.counter(Counter::BeaconStateHotGet), 0);
    assert_eq!(s.get_state(StateId::Slot(150)), Ok(state_at(150)));
}

#[test]
fn reconstruction_replays_blocks_on_top_of_the_diffed_state() {
    let mut s = frozen_store();
    assert_eq!(s.put_block(block_at(151)), Ok(()));
    assert_eq!(s.put_block(block_at(152)), Ok(()));
    let before = s.metrics.counter(Counter::ReplayedBlocks);
    let got = s.get_state_by_slot(152);
    let expected = apply(&apply(&state_at(150), &block_at(151)).unwrap(), &block_at(152)).unwrap();
    assert_eq!(got, Ok(expected));
    assert_eq!(s.metrics.counter(Counter::ReplayedBlocks), before + 2);
}

#[test]
fn reconstruction_twice_yields_the_same_state() {
    let mut s = frozen_store();
    assert_eq!(s.put_block(block_at(151)), Ok(()));
    let first = s.get_state_by_slot(151);
    let replayed = s.metrics.counter(Counter::ReplayedBlocks);
    let second = s.get_state_by_slot(151);
    assert_eq!(first, second);
    assert_eq!(first, Ok(apply(&state_at(150), &block_at(151)).unwrap()));
    // the second answer came from the cache
    assert_eq!(s.metrics.counter(Counter::ReplayedBlocks), replayed);
    assert_eq!(s.historic_state_cache.hits(), 1);
    // and without the caches the answer is the same again
    s.historic_state_cache.clear();
    s.hdiff_buffer_cache.clear();
    s.block_cache.clear();
    assert_eq!(s.get_state_by_slot(151), first);
}

#[test]
fn missing_blocks_are_a_reconstruction_error_that_names_the_gap() {
    let mut s = frozen_store();
    assert_eq!(
        s.get_state_by_slot(300),
        Err(StoreError::ReconstructionError {
            step: ReconstructionStep::LoadBlock,
            slot: 150,
            target: 300,
        })
    );
    assert_eq!(s.put_block(block_at(151)), Ok(()));
    assert_eq!(
        s.get_state_by_slot(300),
        Err(StoreError::ReconstructionError {
            step: ReconstructionStep::LoadBlock,
            slot: 151,
            target: 300,
        })
    );
    assert_eq!(
        s.get_state_by_slot(120),
        Err(StoreError::ReconstructionError {
            step: ReconstructionStep::LoadBlock,
            slot: 100,
            target: 120,
        })
    );
}

#[test]
fn missing_snapshot_is_a_reconstruction_error() {
    let mut s = frozen_store();
    assert_eq!(
        s.get_state_by_slot(99),
        Err(StoreError::ReconstructionError {
            step: ReconstructionStep::LoadSnapshot,
            slot: 99,
            target: 99,
        })
    );
    s.freezer.delete(&mut s.metrics, Column::Snapshot, 100);
    assert_eq!(
        s.get_state_by_slot(100),
        Err(StoreError::ReconstructionError {
            step: ReconstructionStep::LoadSnapshot,
            slot: 100,
            target: 100,
        })
    );
}

#[test]
fn refused_block_is_a_reconstruction_error() {
    let mut s = frozen_store();
    let mut empty = block_at(151);
    empty.payload.clear();
    assert_eq!(s.put_block(empty), Ok(()));
    assert_eq!(
        s.get_state_by_slot(151),
        Err(StoreError::ReconstructionError {
            step: ReconstructionStep::ApplyBlock,
            slot: 150,
            target: 151,
        })
    );
    assert_eq!(s.metrics.counter(Counter::ReplayedBlocks), 0);
}

#[test]
fn transition_to_another_slot_is_a_reconstruction_error() {
    let stuck = |state: &BeaconState, _block: &Block| -> Option<BeaconState> {
        Some(state.clone())
    };
    let mut s = HotColdStore::new(config(), stuck);
    assert_eq!(s.put_state(state_at(100)), Ok(()));
    assert_eq!(s.migrate(100), Ok(1));
    assert_eq!(s.put_block(block_at(101)), Ok(()));
    assert_eq!(
        s.get_state_by_slot(101),
        Err(StoreError::ReconstructionError {
            step: ReconstructionStep::ApplyBlock,
            slot: 100,
            target: 101,
        })
    );
}

#[test]
fn broken_chain_is_a_reconstruction_error() {
    let mut s = frozen_store();
    // a diff that starts from a state that the chain does not have
    let stray = diff_states(&state_at(160), &state_at(170));
    assert_eq!(s.freezer.put(&mut s.metrics, Column::Diff, 170, stray.to_stored()), Ok(()));
    assert_eq!(
        s.get_state_by_slot(170),
        Err(StoreError::ReconstructionError {
            step: ReconstructionStep::LoadDiff,
            slot: 150,
            target: 170,
        })
    );
    // a diff that starts from the right slot and does not fit the state
    let mut short = state_at(150);
    short.data.pop();
    let unfit = diff_states(&short, &state_at(170));
    assert_eq!(s.freezer.put(&mut s.metrics, Column::Diff, 170, unfit.to_stored()), Ok(()));
    s.hdiff_buffer_cache.clear();
    assert_eq!(
        s.get_state_by_slot(170),
        Err(StoreError::ReconstructionError {
            step: ReconstructionStep::ApplyDiff,
            slot: 150,
            target: 170,
        })
    );
    // the chain before the broken diff is as it was
    assert_eq!(s.get_state_by_slot(150), Ok(state_at(150)));
}

#[test]
fn corrupt_frames_are_corrupt_data() {
    let mut s = frozen_store();
    let mut frame = s.freezer.get(&mut s.metrics, Column::Diff, 150).unwrap();
    let last = frame.len() - 1;
    frame[last] ^= 0x55;
    assert_eq!(s.freezer.put(&mut s.metrics, Column::Diff, 150, frame), Ok(()));
    s.hdiff_buffer_cache.clear();
    s.historic_state_cache.clear();
    assert_eq!(s.get_state_by_slot(150), Err(StoreError::CorruptData));
    assert_eq!(s.get_state_by_slot(100), Ok(state_at(100)));
    assert_eq!(s.freezer.put(&mut s.metrics, Column::Snapshot, 100, vec![1, 2, 3]), Ok(()));
    s.historic_state_cache.clear();
    assert_eq!(s.get_state_by_slot(100), Err(StoreError::CorruptData));
}

#[test]
fn migration_run_again_changes_nothing() {
    let mut s = frozen_store();
    let used = s.freezer.used_bytes();
    let snapshot = s.freezer.get(&mut s.metrics, Column::Snapshot, 100);
    let diff = s.freezer.get(&mut s.metrics, Column::Diff, 150);
    assert_eq!(s.migrate(150), Ok(0));
    assert_eq!(s.freezer.used_bytes(), used);
    assert_eq!(s.freezer.get(&mut s.metrics, Column::Snapshot, 100), snapshot);
    assert_eq!(s.freezer.get(&mut s.metrics, Column::Diff, 150), diff);
    assert_eq!(s.freezer.ceiling_key(Column::Diff, 0), Some(150));
    assert_eq!(s.freezer.ceiling_key(Column::Diff, 151), None);
    assert_eq!(s.freezer.ceiling_key(Column::Snapshot, 101), None);
}

#[test]
fn state_put_again_after_migration_is_not_frozen_twice() {
    let mut s = frozen_store();
    let used = s.freezer.used_bytes();
    assert_eq!(s.put_state(state_at(150)), Ok(()));
    assert_eq!(s.migrate(150), Ok(1));
    assert_eq!(s.freezer.used_bytes(), used);
    assert!(!s.freezer.key_exists(&mut s.metrics, Column::Snapshot, 150));
    assert_eq!(s.get_state_by_slot(150), Ok(state_at(150)));
}

#[test]
fn migration_moves_states_up_to_the_bound_only() {
    let mut s = HotColdStore::new(config(), apply);
    for slot in [100u64, 130, 160, 200, 230] {
        assert_eq!(s.put_state(state_at(slot)), Ok(()));
    }
    assert_eq!(s.migrate(200), Ok(4));
    assert!(s.hot.key_exists(&mut s.metrics, Column::State, 1230));
    assert!(s.freezer.key_exists(&mut s.metrics, Column::Snapshot, 100));
    assert!(s.freezer.key_exists(&mut s.metrics, Column::Diff, 130));
    assert!(s.freezer.key_exists(&mut s.metrics, Column::Diff, 160));
    assert!(s.freezer.key_exists(&mut s.metrics, Column::Snapshot, 200));
    assert!(!s.freezer.key_exists(&mut s.metrics, Column::Diff, 200));
    for slot in [100u64, 130, 160, 200] {
        assert_eq!(s.get_state_by_slot(slot), Ok(state_at(slot)));
    }
    assert_eq!(s.migrate(u64::MAX), Ok(1));
    assert_eq!(s.get_state_by_slot(230), Ok(state_at(230)));
}

#[test]
fn migration_without_a_base_falls_back_to_a_snapshot() {
    let mut s = HotColdStore::new(config(), apply);
    assert_eq!(s.put_state(state_at(130)), Ok(()));
    assert_eq!(s.migrate(130), Ok(1));
    assert!(s.freezer.key_exists(&mut s.metrics, Column::Snapshot, 130));
    assert_eq!(s.get_state_by_slot(130), Ok(state_at(130)));
}

#[test]
fn migration_stops_where_the_freezer_is_full() {
    let mut c = config();
    c.freezer_capacity = 60;
    let mut s = HotColdStore::new(c, apply);
    assert_eq!(s.put_state(state_at(100)), Ok(()));
    assert_eq!(s.put_state(state_at(200)), Ok(()));
    // the first snapshot fits, the second does not
    assert_eq!(s.migrate(200), Err(StoreError::StorageError));
    assert!(s.freezer.key_exists(&mut s.metrics, Column::Snapshot, 100));
    assert!(!s.freezer.key_exists(&mut s.metrics, Column::Snapshot, 200));
    assert!(!s.hot.key_exists(&mut s.metrics, Column::StateRoots, 100));
    assert!(s.hot.key_exists(&mut s.metrics, Column::StateRoots, 200));
    assert_eq!(s.get_state_by_root(1200), Ok(state_at(200)));
}

#[test]
fn migration_reports_a_state_that_the_index_names_and_the_store_lacks() {
    let mut s = HotColdStore::new(config(), apply);
    assert_eq!(s.put_state(state_at(100)), Ok(()));
    s.state_cache.clear();
    s.hot.delete(&mut s.metrics, Column::State, 1100);
    assert_eq!(s.migrate(100), Err(StoreError::CorruptData));
}

#[test]
fn scrape_publishes_directory_sizes() {
    let mut s = HotColdStore::new(config(), apply);
    s.scrape_for_metrics(1234, 5678);
    assert_eq!(s.metrics.gauge(Gauge::DiskDbSize), 1234);
    assert_eq!(s.metrics.gauge(Gauge::FreezerDbSize), 5678);
}

#[test]
fn snapshot_is_the_frame_of_the_stored_form() {
    let state = state_at(100);
    let snapshot = take_snapshot(&state);
    assert_eq!(snapshot.slot, 100);
    assert_eq!(snapshot.bytes, compress(&state.encode()));
    assert_eq!(decompress(&snapshot.bytes), Ok(state.encode()));
}

#[test]
fn freeze_state_plans_by_slot_and_chain() {
    let mut freezer = ColumnStore::new(1 << 20);
    let mut cache: LruCache<HDiffBuffer> = LruCache::new(4, 1 << 16);
    let mut m = MetricsRegistry::new();
    // nothing to start a diff from
    assert_eq!(
        freeze_state(&mut freezer, &mut cache, &mut m, 100, &state_at(110)),
        Ok(FreezeOutcome::Snapshot)
    );
    assert_eq!(
        freeze_state(&mut freezer, &mut cache, &mut m, 100, &state_at(120)),
        Ok(FreezeOutcome::Diff)
    );
    assert_eq!(
        freeze_state(&mut freezer, &mut cache, &mut m, 100, &state_at(200)),
        Ok(FreezeOutcome::Snapshot)
    );
    assert_eq!(
        freeze_state(&mut freezer, &mut cache, &mut m, 100, &state_at(120)),
        Ok(FreezeOutcome::AlreadyFrozen)
    );
    assert_eq!(
        freeze_state(&mut freezer, &mut cache, &mut m, 0, &state_at(300)),
        Ok(FreezeOutcome::Diff)
    );
    assert_eq!(
        load_chain_state(&freezer, &mut cache, &mut m, 150),
        Ok((120, state_at(120).encode()))
    );
    assert_eq!(
        load_chain_state(&freezer, &mut cache, &mut m, 300),
        Ok((300, state_at(300).encode()))
    );
    assert_eq!(
        load_and_decompress(&freezer, &mut m, Column::Snapshot, 110),
        Ok(state_at(110).encode())
    );
    assert_eq!(
        load_and_decompress(&freezer, &mut m, Column::Snapshot, 111),
        Err(StoreError::NotFound)
    );
}

#[test]
fn diff_chain_of_several_diffs_is_walked_in_order() {
    let mut s = HotColdStore::new(config(), apply);
    for slot in [100u64, 110, 120, 130] {
        assert_eq!(s.put_state(state_at(slot)), Ok(()));
    }
    assert_eq!(s.migrate(130), Ok(4));
    s.hdiff_buffer_cache.clear();
    let hits = s.metrics.counter(Counter::HdiffBufferCacheHit);
    let misses = s.metrics.counter(Counter::HdiffBufferCacheMiss);
    assert_eq!(s.get_state_by_slot(130), Ok(state_at(130)));
    assert_eq!(s.metrics.counter(Counter::HdiffBufferCacheMiss), misses + 3);
    assert_eq!(s.metrics.counter(Counter::HdiffBufferCacheHit), hits);
    s.historic_state_cache.clear();
    assert_eq!(s.get_state_by_slot(120), Ok(state_at(120)));
    assert_eq!(s.metrics.counter(Counter::HdiffBufferCacheHit), hits + 2);
    assert_eq!(s.metrics.counter(Counter::HdiffBufferCacheMiss), misses + 3);
}

#[test]
fn state_read_from_the_hot_store_is_counted_with_its_bytes() {
    let mut s = HotColdStore::new(config(), apply);
    assert_eq!(s.put_state(state_at(7)), Ok(()));
    assert_eq!(s.get_state_by_root(1007), Ok(state_at(7)));
    // served by the cache
    assert_eq!(s.metrics.counter(Counter::BeaconStateRead), 0);
    s.state_cache.clear();
    assert_eq!(s.get_state_by_root(1007), Ok(state_at(7)));
    assert_eq!(s.metrics.counter(Counter::BeaconStateRead), 1);
    assert_eq!(s.metrics.counter(Counter::BeaconStateReadBytes), 80);
    assert_eq!(s.metrics.counter(Counter::BeaconStateHotGet), 2);
}

#[test]
fn state_of_another_root_at_the_known_slot_is_corrupt() {
    let mut s = frozen_store();
    // a summary that names the slot of another state
    assert_eq!(
        s.hot.put(&mut s.metrics, Column::StateSummary, 4242, 150u64.to_le_bytes().to_vec()),
        Ok(())
    );
    assert_eq!(s.get_state_by_root(4242), Err(StoreError::CorruptData));
    assert_eq!(s.hot.put(&mut s.metrics, Column::StateSummary, 4243, vec![1, 2]), Ok(()));
    assert_eq!(s.get_state_by_root(4243), Err(StoreError::CorruptData));
}
