use store::cache::LruCache;
use store::column::Column;
use store::column_store::ColumnStore;
use store::error::{ReconstructionStep, StoreError};
use store::hdiff::HDiffBuffer;
use store::metrics::{Counter, MetricsRegistry};
use store::reconstruct::reconstruct_state;
use store::replay::{check_transition, load_block_at, replay_blocks};
use store::stored::{read_through, write_through};
use store::types::{BeaconState, Block};
use store::wire::{copy_bytes, copy_range, put_bytes, put_u64, read_u64};

fn next_state(state: &BeaconState, block: &Block) -> Option<BeaconState> {
    let mut data = state.data.clone();
    data.push(block.payload.len() as u8);
    Some(BeaconState { slot: block.slot, root: block.root + 1, data })
}

fn block(slot: u64) -> Block {
    Block { slot, root: 900 + slot, parent_root: 899 + slot, payload: vec![7; slot as usize % 5] }
}

fn store_block(hot: &mut ColumnStore, m: &mut MetricsRegistry, b: &Block) {
    assert_eq!(hot.put(m, Column::Block, b.root, b.encode()), Ok(()));
    assert_eq!(hot.put(m, Column::BlockRoots, b.slot, b.root.to_le_bytes().to_vec()), Ok(()));
}

#[test]
fn wire_integers_are_little_endian() {
    let mut out = vec![0xee];
    put_u64(&mut out, 0x0102030405060708);
    assert_eq!(out, vec![0xee, 8, 7, 6, 5, 4, 3, 2, 1]);
    assert_eq!(read_u64(&out, 1), Some(0x0102030405060708));
    assert_eq!(read_u64(&out, 2), None);
    assert_eq!(read_u64(&out, usize::MAX), None);
    assert_eq!(read_u64(&[], 0), None);
}

#[test]
fn wire_copies_bytes() {
    let mut out = vec![1];
    put_bytes(&mut out, &[2, 3]);
    put_bytes(&mut out, &[]);
    assert_eq!(out, vec![1, 2, 3]);
    assert_eq!(copy_range(&out, 1, 3), vec![2, 3]);
    assert_eq!(copy_range(&out, 2, 2), Vec::<u8>::new());
    assert_eq!(copy_bytes(&out), out);
}

#[test]
fn transition_answer_is_judged_by_slot() {
    let gap = StoreError::ReconstructionError {
        step: ReconstructionStep::ApplyBlock,
        slot: 4,
        target: 9,
    };
    let good = BeaconState { slot: 5, root: 1, data: vec![1] };
    let other = BeaconState { slot: 6, root: 1, data: vec![1] };
    assert_eq!(check_transition(Some(good.clone()), 4, 5, 9), Ok(good));
    assert_eq!(check_transition(Some(other), 4, 5, 9), Err(gap));
    assert_eq!(check_transition(None, 4, 5, 9), Err(gap));
}

#[test]
fn block_of_a_slot_is_found_through_the_index() {
    let mut hot = ColumnStore::new(10_000);
    let mut cache: LruCache<Block> = LruCache::new(2, u64::MAX);
    let mut m = MetricsRegistry::new();
    store_block(&mut hot, &mut m, &block(3));
    assert_eq!(load_block_at(&hot, &mut cache, &mut m, 3), Ok(block(3)));
    assert_eq!(load_block_at(&hot, &mut cache, &mut m, 4), Err(StoreError::NotFound));
    // an entry of the index that is no root
    assert_eq!(hot.put(&mut m, Column::BlockRoots, 5, vec![1, 2, 3]), Ok(()));
    assert_eq!(load_block_at(&hot, &mut cache, &mut m, 5), Err(StoreError::CorruptData));
    // a root without a block
    assert_eq!(hot.put(&mut m, Column::BlockRoots, 6, 77u64.to_le_bytes().to_vec()), Ok(()));
    assert_eq!(load_block_at(&hot, &mut cache, &mut m, 6), Err(StoreError::NotFound));
    // a block of another slot under the root
    assert_eq!(hot.put(&mut m, Column::BlockRoots, 7, 903u64.to_le_bytes().to_vec()), Ok(()));
    assert_eq!(load_block_at(&hot, &mut cache, &mut m, 7), Err(StoreError::CorruptData));
}

#[test]
fn replay_applies_each_block_once_in_order() {
    let mut hot = ColumnStore::new(10_000);
    let mut cache: LruCache<Block> = LruCache::new(2, u64::MAX);
    let mut m = MetricsRegistry::new();
    for slot in 11..=14u64 {
        store_block(&mut hot, &mut m, &block(slot));
    }
    let start = BeaconState { slot: 10, root: 1, data: vec![] };
    let got = replay_blocks(&hot, &mut cache, &mut m, &next_state, start.clone(), 14);
    assert_eq!(got, Ok(BeaconState { slot: 14, root: 915, data: vec![1, 2, 3, 4] }));
    assert_eq!(m.counter(Counter::ReplayedBlocks), 4);
    // nothing to replay at or before the start
    let same = replay_blocks(&hot, &mut cache, &mut m, &next_state, start.clone(), 10);
    assert_eq!(same, Ok(start.clone()));
    let earlier = replay_blocks(&hot, &mut cache, &mut m, &next_state, start.clone(), 3);
    assert_eq!(earlier, Ok(start.clone()));
    assert_eq!(m.counter(Counter::ReplayedBlocks), 4);
    // the blocks applied before a gap are counted
    let short = replay_blocks(&hot, &mut cache, &mut m, &next_state, start, 20);
    assert_eq!(
        short,
        Err(StoreError::ReconstructionError {
            step: ReconstructionStep::LoadBlock,
            slot: 14,
            target: 20,
        })
    );
    assert_eq!(m.counter(Counter::ReplayedBlocks), 8);
}

#[test]
fn reconstruction_without_a_snapshot_fails() {
    let freezer = ColumnStore::new(10_000);
    let hot = ColumnStore::new(10_000);
    let mut diffs: LruCache<HDiffBuffer> = LruCache::new(2, 1000);
    let mut blocks: LruCache<Block> = LruCache::new(2, u64::MAX);
    let mut m = MetricsRegistry::new();
    let got = reconstruct_state(&freezer, &hot, &mut diffs, &mut blocks, &mut m, &next_state, 5);
    assert_eq!(
        got,
        Err(StoreError::ReconstructionError {
            step: ReconstructionStep::LoadSnapshot,
            slot: 5,
            target: 5,
        })
    );
}

#[test]
fn reads_and_writes_go_through_cache_and_store() {
    let mut hot = ColumnStore::new(60);
    let mut cache: LruCache<Block> = LruCache::new(1, u64::MAX);
    let mut m = MetricsRegistry::new();
    assert_eq!(write_through(&mut cache, &mut hot, &mut m, Column::Block, 903, block(3)), Ok(()));
    assert_eq!(write_through(&mut cache, &mut hot, &mut m, Column::Block, 904, block(4)), Ok(()));
    assert!(!cache.contains(903));
    assert_eq!(read_through(&mut cache, &hot, &mut m, Column::Block, 904), (Ok(block(4)), true));
    assert_eq!(read_through(&mut cache, &hot, &mut m, Column::Block, 903), (Ok(block(3)), false));
    assert!(cache.contains(903));
    assert_eq!(
        read_through(&mut cache, &hot, &mut m, Column::Block, 1),
        (Err(StoreError::NotFound), false)
    );
    // a refused write leaves cache and store as they were
    let big = Block { slot: 9, root: 909, parent_root: 908, payload: vec![0; 100] };
    assert_eq!(
        write_through(&mut cache, &mut hot, &mut m, Column::Block, 909, big),
        Err(StoreError::StorageError)
    );
    assert!(cache.contains(903));
    assert!(!cache.contains(909));
    assert_eq!(hot.used_bytes(), 24 + 3 + 24 + 4);
}
