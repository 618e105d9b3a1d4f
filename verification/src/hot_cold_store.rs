//! The store: the one entry point for blocks, states and sidecars.
//!
//! Reads go to the cache, then to the hot store, and for historical states to
//! the reconstruction engine; writes go to the hot store and then to the
//! cache. Every cache stays coherent with what the stores hold, so a read
//! yields the same value whichever way it was served.

use vstd::prelude::*;
use crate::cache::{
    all_entries, has_key, inserted, lemma_all_entries_inserted, lemma_all_entries_kept, total_size,
    touched, CacheValue, EntryView, LruCache,
};
use crate::chain::{chain_lookups, chain_state, frozen_at, lookups_counted};
use crate::column::Column;
use crate::column_store::{
    counted_ops, counted_read, counted_write, lemma_counted_ops_columns, read_len, ColumnStore,
};
use crate::error::StoreError;
use crate::freeze::{freeze_result, freeze_state};
use crate::hdiff::{capped, HDiffBuffer};
use crate::kv::{
    batch_outcome, ceiling_of, is_ceiling, lemma_batch_map, lemma_ceiling_of,
    lemma_map_after_three, lemma_map_after_two, op_views, KeyValueOp, OpView, StoreMap,
};
use crate::metrics::{
    add_saturating, gauge_value, saturating_sum, size_to_gauge, Counter, Gauge, MetricsRegistry,
};
use crate::reconstruct::{chain_tip, lemma_reconstructs_frame, reconstruct_state, reconstructs};
use crate::replay::{blocks_between, result_view, same_blocks, same_column, transition_total};
use crate::stored::{
    coherent, entries_after_read, lemma_coherent_except, lemma_coherent_frame, read_through,
    stored_value, write_through, Stored,
};
use crate::types::{
    block_bytes, state_bytes, BeaconState, Block, BlockView, SidecarList, StateView,
};
use crate::wire::{put_u64, read_u64, u64_at, u64_bytes};

verus! {

/// The sizes that a store is built with.
#[derive(Clone, Copy, Debug)]
pub struct StoreConfig {
    /// A state whose slot is a multiple of this is frozen as a snapshot.
    pub snapshot_interval: u64,
    /// The bytes that the hot store may hold.
    pub hot_capacity: u64,
    /// The bytes that the freezer may hold.
    pub freezer_capacity: u64,
    pub block_cache_size: usize,
    pub blob_cache_size: usize,
    pub data_column_cache_size: usize,
    pub state_cache_size: usize,
    pub historic_state_cache_size: usize,
    pub hdiff_buffer_cache_size: usize,
    /// The bytes that the cached diffs may take together.
    pub hdiff_buffer_cache_bytes: u64,
}

/// The hot store, the freezer, their caches, the recorder, and the state
/// transition that replay applies blocks with.
pub struct HotColdStore<F> {
    pub hot: ColumnStore,
    pub freezer: ColumnStore,
    pub metrics: MetricsRegistry,
    pub block_cache: LruCache<Block>,
    pub blob_cache: LruCache<SidecarList>,
    pub data_column_cache: LruCache<SidecarList>,
    pub state_cache: LruCache<BeaconState>,
    pub historic_state_cache: LruCache<BeaconState>,
    pub hdiff_buffer_cache: LruCache<HDiffBuffer>,
    pub snapshot_interval: u64,
    pub transition: F,
}

/// Whether every entry of the cache of historic states is an outcome of
/// reconstructing the state at its slot from what the stores hold.
pub open spec fn historic_coherent<F: Fn(&BeaconState, &Block) -> Option<BeaconState>>(
    entries: Seq<EntryView<StateView>>,
    fz: StoreMap,
    hot: StoreMap,
    f: F,
) -> bool {
    all_entries(
        entries,
        |slot: u64, state: StateView|
            reconstructs(fz, hot, f, slot, Ok::<StateView, StoreError>(state)),
    )
}

/// The cache of historic states stays coherent while the freezer, the blocks
/// and the index of block roots stay as they are.
pub proof fn lemma_historic_frame<F: Fn(&BeaconState, &Block) -> Option<BeaconState>>(
    entries: Seq<EntryView<StateView>>,
    fz: StoreMap,
    before: StoreMap,
    after: StoreMap,
    f: F,
)
    requires
        historic_coherent(entries, fz, before, f),
        same_blocks(before, after),
    ensures
        historic_coherent(entries, fz, after, f),
{
    assert forall|i: int| 0 <= i < entries.len() implies reconstructs(
        fz,
        after,
        f,
        (#[trigger] entries[i]).key,
        Ok::<StateView, StoreError>(entries[i].value),
    ) by {
        lemma_reconstructs_frame(
            fz,
            before,
            after,
            f,
            entries[i].key,
            Ok::<StateView, StoreError>(entries[i].value),
        );
    }
}

/// The value that the gauge of a cache's size takes for `n` entries.
pub open spec fn count_gauge(n: nat) -> i64 {
    gauge_value(n as u64)
}

impl<F: Fn(&BeaconState, &Block) -> Option<BeaconState>> HotColdStore<F> {
    /// The invariant of the store: its parts are well formed, every cache is
    /// coherent with the column it serves, and the transition accepts every
    /// state and block.
    pub open spec fn wf(&self) -> bool {
        &&& self.hot.wf()
        &&& self.freezer.wf()
        &&& self.block_cache.wf()
        &&& self.blob_cache.wf()
        &&& self.data_column_cache.wf()
        &&& self.state_cache.wf()
        &&& self.historic_state_cache.wf()
        &&& self.hdiff_buffer_cache.wf()
        &&& coherent::<Block>(self.block_cache@.entries, self.hot@, Column::Block)
        &&& coherent::<SidecarList>(self.blob_cache@.entries, self.hot@, Column::Blob)
        &&& coherent::<SidecarList>(
            self.data_column_cache@.entries,
            self.hot@,
            Column::DataColumn,
        )
        &&& coherent::<BeaconState>(self.state_cache@.entries, self.hot@, Column::State)
        &&& coherent::<HDiffBuffer>(
            self.hdiff_buffer_cache@.entries,
            self.freezer@,
            Column::Diff,
        )
        &&& historic_coherent(
            self.historic_state_cache@.entries,
            self.freezer@,
            self.hot@,
            self.transition,
        )
        &&& transition_total(self.transition)
    }

    /// Whether the gauges of the caches show what the caches hold.
    pub open spec fn gauges_current(&self) -> bool {
        &&& self.metrics@.gauge(Gauge::BlockCacheSize) == count_gauge(
            self.block_cache@.entries.len(),
        )
        &&& self.metrics@.gauge(Gauge::BlobCacheSize) == count_gauge(
            self.blob_cache@.entries.len(),
        )
        &&& self.metrics@.gauge(Gauge::StateCacheSize) == count_gauge(
            self.state_cache@.entries.len(),
        )
        &&& self.metrics@.gauge(Gauge::HistoricStateCacheSize) == count_gauge(
            self.historic_state_cache@.entries.len(),
        )
        &&& self.metrics@.gauge(Gauge::HdiffBufferCacheSize) == count_gauge(
            self.hdiff_buffer_cache@.entries.len(),
        )
        &&& self.metrics@.gauge(Gauge::HdiffBufferCacheByteSize) == gauge_value(
            total_size(self.hdiff_buffer_cache@.entries) as u64,
        )
    }

    /// Whether `self` differs from `earlier` in nothing but the recorder.
    pub open spec fn same_but_metrics(&self, earlier: &Self) -> bool {
        &&& self.hot == earlier.hot
        &&& self.freezer == earlier.freezer
        &&& self.block_cache == earlier.block_cache
        &&& self.blob_cache == earlier.blob_cache
        &&& self.data_column_cache == earlier.data_column_cache
        &&& self.state_cache == earlier.state_cache
        &&& self.historic_state_cache == earlier.historic_state_cache
        &&& self.hdiff_buffer_cache == earlier.hdiff_buffer_cache
        &&& self.snapshot_interval == earlier.snapshot_interval
        &&& self.transition == earlier.transition
    }

    /// An empty store.
    pub fn new(config: StoreConfig, transition: F) -> (s: Self)
        requires
            transition_total(transition),
        ensures
            s.wf(),
            s.gauges_current(),
            s.hot@ == Map::<(Column, u64), Seq<u8>>::empty(),
            s.freezer@ == Map::<(Column, u64), Seq<u8>>::empty(),
            s.hot.spec_capacity() == config.hot_capacity,
            s.freezer.spec_capacity() == config.freezer_capacity,
            s.snapshot_interval == config.snapshot_interval,
            s.transition == transition,
            s.block_cache@.entries.len() == 0,
            s.blob_cache@.entries.len() == 0,
            s.data_column_cache@.entries.len() == 0,
            s.state_cache@.entries.len() == 0,
            s.historic_state_cache@.entries.len() == 0,
            s.hdiff_buffer_cache@.entries.len() == 0,
            s.block_cache@.max_items == config.block_cache_size,
            s.blob_cache@.max_items == config.blob_cache_size,
            s.data_column_cache@.max_items == config.data_column_cache_size,
            s.state_cache@.max_items == config.state_cache_size,
            s.historic_state_cache@.max_items == config.historic_state_cache_size,
            s.hdiff_buffer_cache@.max_items == config.hdiff_buffer_cache_size,
            s.hdiff_buffer_cache@.max_bytes == config.hdiff_buffer_cache_bytes,
            forall|c: Counter| s.metrics@.counter(c) == 0,
    {
        let mut s = HotColdStore {
            hot: ColumnStore::new(config.hot_capacity),
            freezer: ColumnStore::new(config.freezer_capacity),
            metrics: MetricsRegistry::new(),
            block_cache: LruCache::new(config.block_cache_size, u64::MAX),
            blob_cache: LruCache::new(config.blob_cache_size, u64::MAX),
            data_column_cache: LruCache::new(config.data_column_cache_size, u64::MAX),
            state_cache: LruCache::new(config.state_cache_size, u64::MAX),
            historic_state_cache: LruCache::new(config.historic_state_cache_size, u64::MAX),
            hdiff_buffer_cache: LruCache::new(
                config.hdiff_buffer_cache_size,
                config.hdiff_buffer_cache_bytes,
            ),
            snapshot_interval: config.snapshot_interval,
            transition,
        };
        let ghost fresh = s.metrics@;
        s.record_cache_gauges();
        proof {
            assert forall|c: Counter| s.metrics@.counter(c) == 0 by {
                assert(fresh.counter(c) == 0);
            }
        }
        s
    }

    /// Sets the gauges of the caches to what the caches hold.
    pub fn record_cache_gauges(&mut self)
        requires
            old(self).hdiff_buffer_cache.wf(),
        ensures
            final(self).same_but_metrics(old(self)),
            final(self).gauges_current(),
            final(self).metrics@.counters == old(self).metrics@.counters,
            final(self).metrics@.columns == old(self).metrics@.columns,
            final(self).metrics@.observations == old(self).metrics@.observations,
            final(self).metrics@.observed == old(self).metrics@.observed,
            final(self).metrics@.gauge(Gauge::DiskDbSize) == old(self).metrics@.gauge(
                Gauge::DiskDbSize,
            ),
            final(self).metrics@.gauge(Gauge::FreezerDbSize) == old(self).metrics@.gauge(
                Gauge::FreezerDbSize,
            ),
            final(self).metrics@.not_below(old(self).metrics@),
    {
        self.metrics.set_gauge(Gauge::BlockCacheSize, size_to_gauge(self.block_cache.len() as u64));
        self.metrics.set_gauge(Gauge::BlobCacheSize, size_to_gauge(self.blob_cache.len() as u64));
        self.metrics.set_gauge(Gauge::StateCacheSize, size_to_gauge(self.state_cache.len() as u64));
        self.metrics.set_gauge(
            Gauge::HistoricStateCacheSize,
            size_to_gauge(self.historic_state_cache.len() as u64),
        );
        self.metrics.set_gauge(
            Gauge::HdiffBufferCacheSize,
            size_to_gauge(self.hdiff_buffer_cache.len() as u64),
        );
        self.metrics.set_gauge(
            Gauge::HdiffBufferCacheByteSize,
            size_to_gauge(self.hdiff_buffer_cache.size_bytes()),
        );
    }

    /// Whether every cache of `self` but the one of `kind` is what it is in
    /// `earlier`.
    pub open spec fn same_caches_but(&self, earlier: &Self, kind: CacheKind) -> bool {
        &&& kind != CacheKind::Block ==> self.block_cache == earlier.block_cache
        &&& kind != CacheKind::Blob ==> self.blob_cache == earlier.blob_cache
        &&& kind != CacheKind::DataColumn ==> self.data_column_cache == earlier.data_column_cache
        &&& kind != CacheKind::State ==> self.state_cache == earlier.state_cache
        &&& kind != CacheKind::HistoricState ==> self.historic_state_cache
            == earlier.historic_state_cache
        &&& kind != CacheKind::HdiffBuffer ==> self.hdiff_buffer_cache
            == earlier.hdiff_buffer_cache
    }

    /// Whether `self` holds in its stores what `earlier` holds.
    pub open spec fn same_stores(&self, earlier: &Self) -> bool {
        &&& self.hot == earlier.hot
        &&& self.freezer == earlier.freezer
        &&& self.snapshot_interval == earlier.snapshot_interval
        &&& self.transition == earlier.transition
    }

    /// Reads the block of `root`, from the cache or the hot store.
    ///
    /// Counts one request for a block, and one hit where the cache had it.
    pub fn get_block(&mut self, root: u64) -> (r: Result<Block, StoreError>)
        requires
            old(self).wf(),
        ensures
            final(self).wf(),
            final(self).gauges_current(),
            final(self).same_stores(old(self)),
            match stored_value::<Block>(old(self).hot@, Column::Block, root) {
                Ok(block) => r is Ok && r.unwrap()@ == block,
                Err(e) => r == Err::<Block, StoreError>(e),
            },
            final(self).metrics@.counter(Counter::BeaconBlockGet) == saturating_sum(
                old(self).metrics@.counter(Counter::BeaconBlockGet),
                1,
            ),
            final(self).metrics@.counter(Counter::BeaconBlockCacheHit) == (if has_key(
                old(self).block_cache@.entries,
                root,
            ) {
                saturating_sum(old(self).metrics@.counter(Counter::BeaconBlockCacheHit), 1)
            } else {
                old(self).metrics@.counter(Counter::BeaconBlockCacheHit)
            }),
            final(self).metrics@.not_below(old(self).metrics@),
            final(self).block_cache@.entries == entries_after_read::<Block>(
                old(self).block_cache@.entries,
                old(self).hot@,
                Column::Block,
                root,
                old(self).block_cache@.max_items,
                old(self).block_cache@.max_bytes,
            ),
            final(self).same_caches_but(old(self), CacheKind::Block),
            final(self).metrics@.columns == (if has_key(old(self).block_cache@.entries, root) {
                old(self).metrics@.columns
            } else {
                counted_read(
                    old(self).metrics@,
                    Column::Block,
                    read_len(old(self).hot@, Column::Block, root),
                ).columns
            }),
    {
        self.metrics.inc_counter(Counter::BeaconBlockGet);
        let (r, hit) = read_through(
            &mut self.block_cache,
            &self.hot,
            &mut self.metrics,
            Column::Block,
            root,
        );
        if hit {
            self.metrics.inc_counter(Counter::BeaconBlockCacheHit);
        }
        self.record_cache_gauges();
        r
    }

    /// Stores `block` under its root, and its root under its slot, as one
    /// unit, and puts the block into the cache.
    ///
    /// Where the hot store refuses the writes, nothing changes.
    pub fn put_block(&mut self, block: Block) -> (r: Result<(), StoreError>)
        requires
            old(self).wf(),
        ensures
            final(self).wf(),
            final(self).gauges_current(),
            final(self).freezer == old(self).freezer,
            final(self).hot.spec_capacity() == old(self).hot.spec_capacity(),
            r is Ok <==> batch_outcome(
                old(self).hot@,
                old(self).hot.spec_used(),
                old(self).hot.spec_capacity(),
                block_ops(block@),
            ) is Some,
            r is Ok ==> final(self).hot@ == old(self).hot@.insert(
                (Column::Block, block.root),
                block_bytes(block@),
            ).insert((Column::BlockRoots, block.slot), u64_bytes(block.root)),
            r is Err ==> r == Err::<(), StoreError>(StoreError::StorageError) && final(self).hot@
                == old(self).hot@,
            final(self).metrics@.not_below(old(self).metrics@),
            r is Ok ==> final(self).block_cache@.entries == inserted(
                old(self).block_cache@.entries,
                block.root,
                block@,
                Block::spec_byte_size(block@),
                old(self).block_cache@.max_items,
                old(self).block_cache@.max_bytes,
            ) && final(self).historic_state_cache@.entries.len() == 0,
            r is Err ==> final(self).block_cache == old(self).block_cache,
            r is Err ==> final(self).historic_state_cache == old(self).historic_state_cache,
            final(self).blob_cache == old(self).blob_cache,
            final(self).data_column_cache == old(self).data_column_cache,
            final(self).state_cache == old(self).state_cache,
            final(self).hdiff_buffer_cache == old(self).hdiff_buffer_cache,
            final(self).metrics@.columns == counted_ops(old(self).metrics@, block_ops(block@)).columns,
            final(self).metrics@.counters == old(self).metrics@.counters,
    {
        let ghost before = self.hot@;
        let ghost view = block@;
        let root: u64 = block.root;
        let slot: u64 = block.slot;
        let bytes = block.to_stored();
        let mut entry: Vec<u8> = Vec::new();
        put_u64(&mut entry, root);
        let mut ops: Vec<KeyValueOp> = Vec::new();
        ops.push(KeyValueOp::Put { column: Column::Block, key: root, value: bytes });
        ops.push(KeyValueOp::Put { column: Column::BlockRoots, key: slot, value: entry });
        proof {
            assert(entry@ =~= u64_bytes(root));
            assert(op_views(ops@) =~= block_ops(view));
            lemma_batch_map(before, self.hot.spec_used(), self.hot.spec_capacity(), block_ops(view));
            lemma_map_after_two(before, block_ops(view)[0], block_ops(view)[1]);
        }
        let written = self.hot.write_batch(&mut self.metrics, &ops);
        match written {
            Err(e) => {
                self.record_cache_gauges();
                Err(e)
            },
            Ok(()) => {
                let ghost after = self.hot@;
                proof {
                    self.block_cache.lemma_wf();
                    crate::stored::lemma_coherent_inserted::<Block>(
                        self.block_cache@.entries,
                        before,
                        after,
                        Column::Block,
                        root,
                        view,
                        Block::spec_byte_size(view),
                        self.block_cache@.max_items,
                        self.block_cache@.max_bytes,
                    );
                    lemma_coherent_frame::<SidecarList>(
                        self.blob_cache@.entries,
                        before,
                        after,
                        Column::Blob,
                    );
                    lemma_coherent_frame::<SidecarList>(
                        self.data_column_cache@.entries,
                        before,
                        after,
                        Column::DataColumn,
                    );
                    lemma_coherent_frame::<BeaconState>(
                        self.state_cache@.entries,
                        before,
                        after,
                        Column::State,
                    );
                }
                self.block_cache.put(root, block);
                self.historic_state_cache.clear();
                self.record_cache_gauges();
                Ok(())
            },
        }
    }

    /// Stores the blob sidecars of the block of `root` and puts them into the
    /// cache. Where the hot store refuses the write, nothing changes.
    pub fn put_blobs(&mut self, root: u64, blobs: SidecarList) -> (r: Result<(), StoreError>)
        requires
            old(self).wf(),
        ensures
            final(self).wf(),
            final(self).gauges_current(),
            final(self).freezer == old(self).freezer,
            final(self).hot.spec_capacity() == old(self).hot.spec_capacity(),
            r is Ok ==> final(self).hot@ == old(self).hot@.insert((Column::Blob, root), blobs@),
            r is Err ==> r == Err::<(), StoreError>(StoreError::StorageError) && final(self).hot@
                == old(self).hot@,
            r is Ok <==> old(self).hot.spec_used() - crate::kv::stored_len(
                old(self).hot@,
                Column::Blob,
                root,
            ) + blobs@.len() <= old(self).hot.spec_capacity(),
            final(self).metrics@.not_below(old(self).metrics@),
            final(self).blob_cache@.entries == (if r is Ok {
                inserted(
                    old(self).blob_cache@.entries,
                    root,
                    blobs@,
                    SidecarList::spec_byte_size(blobs@),
                    old(self).blob_cache@.max_items,
                    old(self).blob_cache@.max_bytes,
                )
            } else {
                old(self).blob_cache@.entries
            }),
            final(self).same_caches_but(old(self), CacheKind::Blob),
            final(self).metrics@.columns == counted_write(
                old(self).metrics@,
                Column::Blob,
                blobs@.len(),
            ).columns,
            final(self).metrics@.counters == old(self).metrics@.counters,
    {
        let ghost before = self.hot@;
        let r = write_through(
            &mut self.blob_cache,
            &mut self.hot,
            &mut self.metrics,
            Column::Blob,
            root,
            blobs,
        );
        proof {
            self.lemma_other_columns_kept(before, Column::Blob);
        }
        self.record_cache_gauges();
        r
    }

    /// Reads the blob sidecars of the block of `root`, from the cache or the
    /// hot store. Counts one hit where the cache had them.
    pub fn get_blobs(&mut self, root: u64) -> (r: Result<SidecarList, StoreError>)
        requires
            old(self).wf(),
        ensures
            final(self).wf(),
            final(self).gauges_current(),
            final(self).same_stores(old(self)),
            match stored_value::<SidecarList>(old(self).hot@, Column::Blob, root) {
                Ok(blobs) => r is Ok && r.unwrap()@ == blobs,
                Err(e) => r == Err::<SidecarList, StoreError>(e),
            },
            final(self).metrics@.counter(Counter::BeaconBlobsCacheHit) == (if has_key(
                old(self).blob_cache@.entries,
                root,
            ) {
                saturating_sum(old(self).metrics@.counter(Counter::BeaconBlobsCacheHit), 1)
            } else {
                old(self).metrics@.counter(Counter::BeaconBlobsCacheHit)
            }),
            final(self).metrics@.not_below(old(self).metrics@),
            final(self).blob_cache@.entries == entries_after_read::<SidecarList>(
                old(self).blob_cache@.entries,
                old(self).hot@,
                Column::Blob,
                root,
                old(self).blob_cache@.max_items,
                old(self).blob_cache@.max_bytes,
            ),
            final(self).same_caches_but(old(self), CacheKind::Blob),
            final(self).metrics@.columns == (if has_key(old(self).blob_cache@.entries, root) {
                old(self).metrics@.columns
            } else {
                counted_read(
                    old(self).metrics@,
                    Column::Blob,
                    read_len(old(self).hot@, Column::Blob, root),
                ).columns
            }),
    {
        let (r, hit) = read_through(
            &mut self.blob_cache,
            &self.hot,
            &mut self.metrics,
            Column::Blob,
            root,
        );
        if hit {
            self.metrics.inc_counter(Counter::BeaconBlobsCacheHit);
        }
        self.record_cache_gauges();
        r
    }

    /// Stores the data-column sidecars of the block of `root` and puts them
    /// into the cache. Where the hot store refuses the write, nothing
    /// changes.
    pub fn put_data_columns(&mut self, root: u64, columns: SidecarList) -> (r: Result<
        (),
        StoreError,
    >)
        requires
            old(self).wf(),
        ensures
            final(self).wf(),
            final(self).gauges_current(),
            final(self).freezer == old(self).freezer,
            final(self).hot.spec_capacity() == old(self).hot.spec_capacity(),
            r is Ok ==> final(self).hot@ == old(self).hot@.insert(
                (Column::DataColumn, root),
                columns@,
            ),
            r is Err ==> r == Err::<(), StoreError>(StoreError::StorageError) && final(self).hot@
                == old(self).hot@,
            r is Ok <==> old(self).hot.spec_used() - crate::kv::stored_len(
                old(self).hot@,
                Column::DataColumn,
                root,
            ) + columns@.len() <= old(self).hot.spec_capacity(),
            final(self).metrics@.not_below(old(self).metrics@),
            final(self).data_column_cache@.entries == (if r is Ok {
                inserted(
                    old(self).data_column_cache@.entries,
                    root,
                    columns@,
                    SidecarList::spec_byte_size(columns@),
                    old(self).data_column_cache@.max_items,
                    old(self).data_column_cache@.max_bytes,
                )
            } else {
                old(self).data_column_cache@.entries
            }),
            final(self).same_caches_but(old(self), CacheKind::DataColumn),
            final(self).metrics@.columns == counted_write(
                old(self).metrics@,
                Column::DataColumn,
                columns@.len(),
            ).columns,
            final(self).metrics@.counters == old(self).metrics@.counters,
    {
        let ghost before = self.hot@;
        let r = write_through(
            &mut self.data_column_cache,
            &mut self.hot,
            &mut self.metrics,
            Column::DataColumn,
            root,
            columns,
        );
        proof {
            self.lemma_other_columns_kept(before, Column::DataColumn);
        }
        self.record_cache_gauges();
        r
    }

    /// Reads the data-column sidecars of the block of `root`, from the cache
    /// or the hot store. Counts one hit where the cache had them.
    pub fn get_data_columns(&mut self, root: u64) -> (r: Result<SidecarList, StoreError>)
        requires
            old(self).wf(),
        ensures
            final(self).wf(),
            final(self).gauges_current(),
            final(self).same_stores(old(self)),
            match stored_value::<SidecarList>(old(self).hot@, Column::DataColumn, root) {
                Ok(columns) => r is Ok && r.unwrap()@ == columns,
                Err(e) => r == Err::<SidecarList, StoreError>(e),
            },
            final(self).metrics@.counter(Counter::BeaconDataColumnsCacheHit) == (if has_key(
                old(self).data_column_cache@.entries,
                root,
            ) {
                saturating_sum(old(self).metrics@.counter(Counter::BeaconDataColumnsCacheHit), 1)
            } else {
                old(self).metrics@.counter(Counter::BeaconDataColumnsCacheHit)
            }),
            final(self).metrics@.not_below(old(self).metrics@),
            final(self).data_column_cache@.entries == entries_after_read::<SidecarList>(
                old(self).data_column_cache@.entries,
                old(self).hot@,
                Column::DataColumn,
                root,
                old(self).data_column_cache@.max_items,
                old(self).data_column_cache@.max_bytes,
            ),
            final(self).same_caches_but(old(self), CacheKind::DataColumn),
            final(self).metrics@.columns == (if has_key(
                old(self).data_column_cache@.entries,
                root,
            ) {
                old(self).metrics@.columns
            } else {
                counted_read(
                    old(self).metrics@,
                    Column::DataColumn,
                    read_len(old(self).hot@, Column::DataColumn, root),
                ).columns
            }),
    {
        let (r, hit) = read_through(
            &mut self.data_column_cache,
            &self.hot,
            &mut self.metrics,
            Column::DataColumn,
            root,
        );
        if hit {
            self.metrics.inc_counter(Counter::BeaconDataColumnsCacheHit);
        }
        self.record_cache_gauges();
        r
    }

    /// After a change of the hot store that touched no column but `changed`,
    /// and neither blocks nor the index of their roots, the caches of the
    /// other columns and the cache of historic states are coherent as
    /// before.
    proof fn lemma_other_columns_kept(&self, before: StoreMap, changed: Column)
        requires
            changed != Column::Block,
            changed != Column::BlockRoots,
            forall|c: Column, k: u64|
                c != changed ==> (#[trigger] before.contains_key((c, k)) == self.hot@.contains_key(
                    (c, k),
                )) && (before.contains_key((c, k)) ==> before[(c, k)] == self.hot@[(c, k)]),
            coherent::<Block>(self.block_cache@.entries, before, Column::Block),
            changed != Column::Blob ==> coherent::<SidecarList>(
                self.blob_cache@.entries,
                before,
                Column::Blob,
            ),
            changed != Column::DataColumn ==> coherent::<SidecarList>(
                self.data_column_cache@.entries,
                before,
                Column::DataColumn,
            ),
            changed != Column::State ==> coherent::<BeaconState>(
                self.state_cache@.entries,
                before,
                Column::State,
            ),
            historic_coherent(
                self.historic_state_cache@.entries,
                self.freezer@,
                before,
                self.transition,
            ),
        ensures
            coherent::<Block>(self.block_cache@.entries, self.hot@, Column::Block),
            changed != Column::Blob ==> coherent::<SidecarList>(
                self.blob_cache@.entries,
                self.hot@,
                Column::Blob,
            ),
            changed != Column::DataColumn ==> coherent::<SidecarList>(
                self.data_column_cache@.entries,
                self.hot@,
                Column::DataColumn,
            ),
            changed != Column::State ==> coherent::<BeaconState>(
                self.state_cache@.entries,
                self.hot@,
                Column::State,
            ),
            historic_coherent(
                self.historic_state_cache@.entries,
                self.freezer@,
                self.hot@,
                self.transition,
            ),
    {
        let after = self.hot@;
        assert forall|k: u64| #[trigger]
            before.contains_key((Column::Block, k)) implies after.contains_key((Column::Block, k))
            && after[(Column::Block, k)] == before[(Column::Block, k)] by {}
        lemma_coherent_frame::<Block>(self.block_cache@.entries, before, after, Column::Block);
        if changed != Column::Blob {
            assert forall|k: u64| #[trigger]
                before.contains_key((Column::Blob, k)) implies after.contains_key((Column::Blob, k))
                && after[(Column::Blob, k)] == before[(Column::Blob, k)] by {}
            lemma_coherent_frame::<SidecarList>(
                self.blob_cache@.entries,
                before,
                after,
                Column::Blob,
            );
        }
        if changed != Column::DataColumn {
            assert forall|k: u64| #[trigger]
                before.contains_key((Column::DataColumn, k)) implies after.contains_key(
                (Column::DataColumn, k),
            ) && after[(Column::DataColumn, k)] == before[(Column::DataColumn, k)] by {}
            lemma_coherent_frame::<SidecarList>(
                self.data_column_cache@.entries,
                before,
                after,
                Column::DataColumn,
            );
        }
        if changed != Column::State {
            assert forall|k: u64| #[trigger]
                before.contains_key((Column::State, k)) implies after.contains_key(
                (Column::State, k),
            ) && after[(Column::State, k)] == before[(Column::State, k)] by {}
            lemma_coherent_frame::<BeaconState>(
                self.state_cache@.entries,
                before,
                after,
                Column::State,
            );
        }
        assert(same_column(before, after, Column::Block));
        assert(same_column(before, after, Column::BlockRoots));
        lemma_historic_frame(
            self.historic_state_cache@.entries,
            self.freezer@,
            before,
            after,
            self.transition,
        );
    }

    /// Publishes the sizes of the two database directories on their gauges.
    pub fn scrape_for_metrics(&mut self, db_size: u64, freezer_db_size: u64)
        ensures
            final(self).same_but_metrics(old(self)),
            final(self).metrics@ == old(self).metrics@.put_gauge(
                Gauge::DiskDbSize,
                gauge_value(db_size),
            ).put_gauge(Gauge::FreezerDbSize, gauge_value(freezer_db_size)),
    {
        crate::metrics::scrape_for_metrics(&mut self.metrics, db_size, freezer_db_size);
    }

    /// Stores `state` under its root, with its slot under its root and its
    /// root under its slot, as one unit, and puts the state into the cache.
    ///
    /// Counts one state written, and the bytes of its stored form, also where
    /// the hot store refuses the writes; then nothing else changes.
    pub fn put_state(&mut self, state: BeaconState) -> (r: Result<(), StoreError>)
        requires
            old(self).wf(),
        ensures
            final(self).wf(),
            final(self).gauges_current(),
            final(self).freezer == old(self).freezer,
            final(self).hot.spec_capacity() == old(self).hot.spec_capacity(),
            r is Ok <==> batch_outcome(
                old(self).hot@,
                old(self).hot.spec_used(),
                old(self).hot.spec_capacity(),
                state_ops(state@),
            ) is Some,
            r is Ok ==> final(self).hot@ == old(self).hot@.insert(
                (Column::State, state.root),
                state_bytes(state@),
            ).insert((Column::StateSummary, state.root), u64_bytes(state.slot)).insert(
                (Column::StateRoots, state.slot),
                u64_bytes(state.root),
            ),
            r is Err ==> r == Err::<(), StoreError>(StoreError::StorageError) && final(self).hot@
                == old(self).hot@,
            final(self).metrics@.counter(Counter::BeaconStateWrite) == saturating_sum(
                old(self).metrics@.counter(Counter::BeaconStateWrite),
                1,
            ),
            final(self).metrics@.counter(Counter::BeaconStateWriteBytes) == saturating_sum(
                old(self).metrics@.counter(Counter::BeaconStateWriteBytes),
                state_bytes(state@).len() as u64,
            ),
            final(self).metrics@.not_below(old(self).metrics@),
            final(self).state_cache@.entries == (if r is Ok {
                inserted(
                    old(self).state_cache@.entries,
                    state.root,
                    state@,
                    BeaconState::spec_byte_size(state@),
                    old(self).state_cache@.max_items,
                    old(self).state_cache@.max_bytes,
                )
            } else {
                old(self).state_cache@.entries
            }),
            final(self).same_caches_but(old(self), CacheKind::State),
            final(self).metrics@.columns == counted_ops(old(self).metrics@, state_ops(state@)).columns,
            forall|c: Counter|
                c != Counter::BeaconStateWrite && c != Counter::BeaconStateWriteBytes
                    ==> #[trigger] final(self).metrics@.counters[c] == old(self).metrics@.counters[c],
    {
        let ghost before = self.hot@;
        let ghost view = state@;
        let root: u64 = state.root;
        let slot: u64 = state.slot;
        let bytes = state.to_stored();
        self.metrics.inc_counter(Counter::BeaconStateWrite);
        self.metrics.inc_counter_by(Counter::BeaconStateWriteBytes, bytes.len() as u64);
        let mut summary: Vec<u8> = Vec::new();
        put_u64(&mut summary, slot);
        let mut entry: Vec<u8> = Vec::new();
        put_u64(&mut entry, root);
        let mut ops: Vec<KeyValueOp> = Vec::new();
        ops.push(KeyValueOp::Put { column: Column::State, key: root, value: bytes });
        ops.push(KeyValueOp::Put { column: Column::StateSummary, key: root, value: summary });
        ops.push(KeyValueOp::Put { column: Column::StateRoots, key: slot, value: entry });
        proof {
            assert(summary@ =~= u64_bytes(slot));
            assert(entry@ =~= u64_bytes(root));
            assert(op_views(ops@) =~= state_ops(view));
            lemma_batch_map(before, self.hot.spec_used(), self.hot.spec_capacity(), state_ops(view));
            lemma_map_after_three(
                before,
                state_ops(view)[0],
                state_ops(view)[1],
                state_ops(view)[2],
            );
            lemma_counted_ops_columns(old(self).metrics@, self.metrics@, state_ops(view));
        }
        let written = self.hot.write_batch(&mut self.metrics, &ops);
        match written {
            Err(e) => {
                self.record_cache_gauges();
                Err(e)
            },
            Ok(()) => {
                let ghost after = self.hot@;
                proof {
                    self.state_cache.lemma_wf();
                    crate::stored::lemma_coherent_inserted::<BeaconState>(
                        self.state_cache@.entries,
                        before,
                        after,
                        Column::State,
                        root,
                        view,
                        BeaconState::spec_byte_size(view),
                        self.state_cache@.max_items,
                        self.state_cache@.max_bytes,
                    );
                    lemma_coherent_frame::<Block>(
                        self.block_cache@.entries,
                        before,
                        after,
                        Column::Block,
                    );
                    lemma_coherent_frame::<SidecarList>(
                        self.blob_cache@.entries,
                        before,
                        after,
                        Column::Blob,
                    );
                    lemma_coherent_frame::<SidecarList>(
                        self.data_column_cache@.entries,
                        before,
                        after,
                        Column::DataColumn,
                    );
                    assert(same_column(before, after, Column::Block));
                    assert(same_column(before, after, Column::BlockRoots));
                    lemma_historic_frame(
                        self.historic_state_cache@.entries,
                        self.freezer@,
                        before,
                        after,
                        self.transition,
                    );
                }
                self.state_cache.put(root, state);
                self.record_cache_gauges();
                Ok(())
            },
        }
    }

    /// The state at `slot`, from the cache of historic states or from the
    /// reconstruction engine, which then fills the cache.
    fn load_historic(&mut self, slot: u64) -> (r: Result<BeaconState, StoreError>)
        requires
            old(self).wf(),
        ensures
            final(self).wf(),
            final(self).same_stores(old(self)),
            final(self).state_cache == old(self).state_cache,
            final(self).blob_cache == old(self).blob_cache,
            final(self).data_column_cache == old(self).data_column_cache,
            reconstructs(
                old(self).freezer@,
                old(self).hot@,
                old(self).transition,
                slot,
                result_view(r),
            ),
            r is Ok ==> r.unwrap().slot == slot,
            final(self).historic_state_cache@.entries == (if has_key(
                old(self).historic_state_cache@.entries,
                slot,
            ) {
                touched(old(self).historic_state_cache@.entries, slot)
            } else {
                match r {
                    Ok(state) => inserted(
                        old(self).historic_state_cache@.entries,
                        slot,
                        state@,
                        BeaconState::spec_byte_size(state@),
                        old(self).historic_state_cache@.max_items,
                        old(self).historic_state_cache@.max_bytes,
                    ),
                    Err(e) => old(self).historic_state_cache@.entries,
                }
            }),
            r is Ok && !has_key(old(self).historic_state_cache@.entries, slot) ==> final(self).metrics@.counter(
                Counter::ReplayedBlocks,
            ) == saturating_sum(
                old(self).metrics@.counter(Counter::ReplayedBlocks),
                blocks_between(chain_tip(old(self).freezer@, slot), slot),
            ),
            has_key(old(self).historic_state_cache@.entries, slot) ==> final(self).metrics@
                == old(self).metrics@,
            !has_key(old(self).historic_state_cache@.entries, slot) ==> lookups_counted(
                old(self).metrics@,
                final(self).metrics@,
                chain_lookups(old(self).freezer@, slot),
            ),
            final(self).metrics@.not_below(old(self).metrics@),
            final(self).metrics@.gauges == old(self).metrics@.gauges,
            forall|c: Counter|
                c != Counter::HdiffBufferCacheHit && c != Counter::HdiffBufferCacheMiss && c
                    != Counter::ReplayedBlocks ==> #[trigger] final(self).metrics@.counters[c]
                    == old(self).metrics@.counters[c],
    {
        let ghost entries = self.historic_state_cache@.entries;
        let ghost p = |k: u64, v: StateView|
            reconstructs(
                self.freezer@,
                self.hot@,
                self.transition,
                k,
                Ok::<StateView, StoreError>(v),
            );
        proof {
            lemma_all_entries_kept(entries, p, slot, 0, 0, 0);
        }
        match self.historic_state_cache.get(slot) {
            Some(state) => {
                proof {
                    assert(p(slot, state@));
                    crate::reconstruct::lemma_reconstructs_slot(
                        self.freezer@,
                        self.hot@,
                        self.transition,
                        slot,
                        state@,
                    );
                }
                Ok(state)
            },
            None => {
                let found = reconstruct_state(
                    &self.freezer,
                    &self.hot,
                    &mut self.hdiff_buffer_cache,
                    &mut self.block_cache,
                    &mut self.metrics,
                    &self.transition,
                    slot,
                );
                match found {
                    Err(e) => Err(e),
                    Ok(state) => {
                        let copy = state.duplicate();
                        proof {
                            assert(p(slot, state@));
                            lemma_all_entries_inserted(
                                entries,
                                p,
                                slot,
                                state@,
                                BeaconState::spec_byte_size(state@),
                                self.historic_state_cache@.max_items,
                                self.historic_state_cache@.max_bytes,
                            );
                        }
                        self.historic_state_cache.put(slot, state);
                        Ok(copy)
                    },
                }
            },
        }
    }

    /// Reads the state at `slot`.
    ///
    /// The state is an outcome of reconstructing it from what the stores
    /// hold, whether it came from the cache of historic states or was
    /// reconstructed now. Counts one request for a state; a reconstruction
    /// that succeeds adds the blocks it replayed to their count.
    pub fn get_state_by_slot(&mut self, slot: u64) -> (r: Result<BeaconState, StoreError>)
        requires
            old(self).wf(),
        ensures
            final(self).wf(),
            final(self).gauges_current(),
            final(self).same_stores(old(self)),
            reconstructs(
                old(self).freezer@,
                old(self).hot@,
                old(self).transition,
                slot,
                result_view(r),
            ),
            r is Ok ==> r.unwrap().slot == slot,
            final(self).historic_state_cache@.entries == (if has_key(
                old(self).historic_state_cache@.entries,
                slot,
            ) {
                touched(old(self).historic_state_cache@.entries, slot)
            } else {
                match r {
                    Ok(state) => inserted(
                        old(self).historic_state_cache@.entries,
                        slot,
                        state@,
                        BeaconState::spec_byte_size(state@),
                        old(self).historic_state_cache@.max_items,
                        old(self).historic_state_cache@.max_bytes,
                    ),
                    Err(e) => old(self).historic_state_cache@.entries,
                }
            }),
            final(self).metrics@.counter(Counter::BeaconStateGet) == saturating_sum(
                old(self).metrics@.counter(Counter::BeaconStateGet),
                1,
            ),
            r is Ok && !has_key(old(self).historic_state_cache@.entries, slot) ==> final(self).metrics@.counter(
                Counter::ReplayedBlocks,
            ) == saturating_sum(
                old(self).metrics@.counter(Counter::ReplayedBlocks),
                blocks_between(chain_tip(old(self).freezer@, slot), slot),
            ),
            has_key(old(self).historic_state_cache@.entries, slot) ==> final(self).metrics@.counter(
                Counter::ReplayedBlocks,
            ) == old(self).metrics@.counter(Counter::ReplayedBlocks),
            final(self).metrics@.not_below(old(self).metrics@),
            lookups_counted(
                old(self).metrics@,
                final(self).metrics@,
                if has_key(old(self).historic_state_cache@.entries, slot) {
                    0
                } else {
                    chain_lookups(old(self).freezer@, slot)
                },
            ),
            final(self).state_cache == old(self).state_cache,
            final(self).blob_cache == old(self).blob_cache,
            final(self).data_column_cache == old(self).data_column_cache,
    {
        self.metrics.inc_counter(Counter::BeaconStateGet);
        let r = self.load_historic(slot);
        self.record_cache_gauges();
        r
    }

    /// Reads the state of `root`: from the cache or the hot store where the
    /// state is hot, and else, where its slot is known, by reconstruction (see
    /// [`state_by_root`]).
    ///
    /// Counts one request for a state, and one for a hot state where the
    /// state was hot.
    pub fn get_state_by_root(&mut self, root: u64) -> (r: Result<BeaconState, StoreError>)
        requires
            old(self).wf(),
        ensures
            final(self).wf(),
            final(self).gauges_current(),
            final(self).same_stores(old(self)),
            state_by_root(
                old(self).freezer@,
                old(self).hot@,
                old(self).transition,
                root,
                result_view(r),
            ),
            final(self).metrics@.counter(Counter::BeaconStateGet) == saturating_sum(
                old(self).metrics@.counter(Counter::BeaconStateGet),
                1,
            ),
            final(self).metrics@.counter(Counter::BeaconStateHotGet) == (if is_hot(
                old(self).hot@,
                root,
            ) {
                saturating_sum(old(self).metrics@.counter(Counter::BeaconStateHotGet), 1)
            } else {
                old(self).metrics@.counter(Counter::BeaconStateHotGet)
            }),
            final(self).metrics@.counter(Counter::BeaconStateRead) == (if read_from_hot(
                old(self).state_cache@.entries,
                old(self).hot@,
                root,
            ) {
                saturating_sum(old(self).metrics@.counter(Counter::BeaconStateRead), 1)
            } else {
                old(self).metrics@.counter(Counter::BeaconStateRead)
            }),
            final(self).metrics@.counter(Counter::BeaconStateReadBytes) == (if read_from_hot(
                old(self).state_cache@.entries,
                old(self).hot@,
                root,
            ) {
                saturating_sum(
                    old(self).metrics@.counter(Counter::BeaconStateReadBytes),
                    capped(old(self).hot@[(Column::State, root)].len()),
                )
            } else {
                old(self).metrics@.counter(Counter::BeaconStateReadBytes)
            }),
            final(self).metrics@.not_below(old(self).metrics@),
    {
        self.metrics.inc_counter(Counter::BeaconStateGet);
        let (found, hit) = read_through(
            &mut self.state_cache,
            &self.hot,
            &mut self.metrics,
            Column::State,
            root,
        );
        match found {
            Ok(state) => {
                self.metrics.inc_counter(Counter::BeaconStateHotGet);
                if !hit {
                    self.metrics.inc_counter(Counter::BeaconStateRead);
                    self.metrics.inc_counter_by(Counter::BeaconStateReadBytes, state.byte_size());
                }
                self.record_cache_gauges();
                Ok(state)
            },
            Err(e) => {
                match e {
                    StoreError::NotFound => {
                        let summary = self.hot.get(&mut self.metrics, Column::StateSummary, root);
                        match summary {
                            None => {
                                self.record_cache_gauges();
                                Err(StoreError::NotFound)
                            },
                            Some(entry) => {
                                if entry.len() != 8 {
                                    self.record_cache_gauges();
                                    return Err(StoreError::CorruptData);
                                }
                                let slot: u64 = read_u64(entry.as_slice(), 0).unwrap();
                                let loaded = self.load_historic(slot);
                                self.record_cache_gauges();
                                let ghost outcome = result_view(loaded);
                                proof {
                                    lemma_state_by_root_historic(
                                        old(self).freezer@,
                                        old(self).hot@,
                                        old(self).transition,
                                        root,
                                        slot,
                                        outcome,
                                    );
                                }
                                match loaded {
                                    Err(e) => Err(e),
                                    Ok(state) => {
                                        if state.root != root {
                                            Err(StoreError::CorruptData)
                                        } else {
                                            Ok(state)
                                        }
                                    },
                                }
                            },
                        }
                    },
                    other => {
                        self.record_cache_gauges();
                        Err(other)
                    },
                }
            },
        }
    }

    /// Where a migration of this store starts.
    pub open spec fn start_of_migration(&self) -> MigrationView {
        self.migration_view(0)
    }

    /// Where a migration of this store stands when it has moved `moved`
    /// states.
    pub open spec fn migration_view(&self, moved: nat) -> MigrationView {
        MigrationView {
            hot: self.hot@,
            freezer: self.freezer@,
            freezer_used: self.freezer.spec_used(),
            moved,
            error: None,
        }
    }

    /// Moves the state that the hot store holds at `slot` into the freezer:
    /// freezes it, and then takes it and its entry in the index of state
    /// roots out of the hot store.
    fn migrate_one(&mut self, slot: u64) -> (r: Result<(), StoreError>)
        requires
            old(self).wf(),
            old(self).historic_state_cache@.entries.len() == 0,
        ensures
            final(self).wf(),
            final(self).historic_state_cache@.entries.len() == 0,
            final(self).snapshot_interval == old(self).snapshot_interval,
            final(self).transition == old(self).transition,
            final(self).hot.spec_capacity() == old(self).hot.spec_capacity(),
            final(self).freezer.spec_capacity() == old(self).freezer.spec_capacity(),
            same_blocks(old(self).hot@, final(self).hot@),
            final(self).metrics@.not_below(old(self).metrics@),
            match hot_state_at(old(self).hot@, slot) {
                Err(e) => {
                    &&& r == Err::<(), StoreError>(e)
                    &&& final(self).hot@ == old(self).hot@
                    &&& final(self).freezer@ == old(self).freezer@
                    &&& final(self).freezer.spec_used() == old(self).freezer.spec_used()
                },
                Ok(state) => {
                    let frozen = freeze_result(
                        old(self).freezer@,
                        old(self).freezer.spec_used(),
                        old(self).freezer.spec_capacity(),
                        old(self).snapshot_interval,
                        state,
                    );
                    &&& final(self).freezer@ == frozen.0
                    &&& final(self).freezer.spec_used() == frozen.1
                    &&& match frozen.2 {
                        Err(e) => r == Err::<(), StoreError>(e) && final(self).hot@ == old(
                            self,
                        ).hot@,
                        Ok(outcome) => r is Ok && final(self).hot@ == old(self).hot@.remove(
                            (Column::State, state.root),
                        ).remove((Column::StateRoots, slot)),
                    }
                },
            },
            r is Ok ==> frozen_at(final(self).freezer@, slot),
            forall|t: u64|
                t < slot ==> #[trigger] chain_state(final(self).freezer@, t) == chain_state(
                    old(self).freezer@,
                    t,
                ),
    {
        let ghost hot1 = self.hot@;
        let entry = match self.hot.get(&mut self.metrics, Column::StateRoots, slot) {
            None => {
                return Err(StoreError::CorruptData);
            },
            Some(entry) => entry,
        };
        if entry.len() != 8 {
            return Err(StoreError::CorruptData);
        }
        let root: u64 = read_u64(entry.as_slice(), 0).unwrap();
        let (found, hit) = read_through(
            &mut self.state_cache,
            &self.hot,
            &mut self.metrics,
            Column::State,
            root,
        );
        let state = match found {
            Err(e) => {
                return Err(StoreError::CorruptData);
            },
            Ok(state) => state,
        };
        if state.slot != slot || state.root != root {
            return Err(StoreError::CorruptData);
        }
        let frozen = freeze_state(
            &mut self.freezer,
            &mut self.hdiff_buffer_cache,
            &mut self.metrics,
            self.snapshot_interval,
            &state,
        );
        match frozen {
            Err(e) => {
                return Err(e);
            },
            Ok(outcome) => {},
        }
        self.state_cache.remove(root);
        self.hot.delete(&mut self.metrics, Column::State, root);
        proof {
            lemma_coherent_except::<BeaconState>(
                self.state_cache@.entries,
                hot1,
                self.hot@,
                Column::State,
                root,
            );
            self.lemma_other_columns_kept(hot1, Column::State);
        }
        let ghost hot2 = self.hot@;
        self.hot.delete(&mut self.metrics, Column::StateRoots, slot);
        proof {
            self.lemma_other_columns_kept(hot2, Column::StateRoots);
            assert(same_column(hot1, self.hot@, Column::Block));
            assert(same_column(hot1, self.hot@, Column::BlockRoots));
        }
        Ok(())
    }

    /// Moves every state of the hot store at or before `upto` into the
    /// freezer, in the order of their slots, and clears the cache of historic
    /// states. Returns how many states were moved (see [`migration`]).
    ///
    /// Each state is frozen (see [`freeze_state`]) and then leaves the hot
    /// store; its summary stays, so that it can still be read by its root. On
    /// success the hot store holds no state at or before `upto`, and the
    /// chain of the freezer has a state at every slot that had one in the hot
    /// store. Where the hot store held none, nothing but the cache of
    /// historic states changes: a migration run again is a migration that
    /// does nothing.
    ///
    /// Fails with `CorruptData` where the index of state roots names a state
    /// that the hot store does not hold or that is not of that root and slot,
    /// and with `StorageError` where the freezer refuses a write; states
    /// moved before stay moved.
    pub fn migrate(&mut self, upto: u64) -> (r: Result<u64, StoreError>)
        requires
            old(self).wf(),
        ensures
            final(self).wf(),
            final(self).gauges_current(),
            final(self).snapshot_interval == old(self).snapshot_interval,
            final(self).transition == old(self).transition,
            final(self).hot.spec_capacity() == old(self).hot.spec_capacity(),
            final(self).freezer.spec_capacity() == old(self).freezer.spec_capacity(),
            same_blocks(old(self).hot@, final(self).hot@),
            ({
                let end = migration(
                    old(self).start_of_migration(),
                    old(self).freezer.spec_capacity(),
                    old(self).snapshot_interval,
                    0,
                    upto,
                );
                &&& final(self).hot@ == end.hot
                &&& final(self).freezer@ == end.freezer
                &&& final(self).freezer.spec_used() == end.freezer_used
                &&& r == (match end.error {
                    None => Ok::<u64, StoreError>(capped(end.moved)),
                    Some(e) => Err::<u64, StoreError>(e),
                })
            }),
            r is Ok ==> nothing_to_migrate(final(self).hot@, upto),
            r is Ok ==> forall|s: u64|
                s <= upto && #[trigger] old(self).hot@.contains_key((Column::StateRoots, s))
                    ==> frozen_at(final(self).freezer@, s),
            nothing_to_migrate(old(self).hot@, upto) ==> {
                &&& r == Ok::<u64, StoreError>(0)
                &&& final(self).hot@ == old(self).hot@
                &&& final(self).freezer@ == old(self).freezer@
            },
            final(self).historic_state_cache@.entries.len() == 0,
            final(self).metrics@.not_below(old(self).metrics@),
    {
        let ghost hot0 = self.hot@;
        let ghost fz0 = self.freezer@;
        let ghost v0 = self.start_of_migration();
        let ghost capacity = self.freezer.spec_capacity();
        let ghost interval = self.snapshot_interval;
        let ghost mut count: nat = 0;
        self.historic_state_cache.clear();
        let mut from: u64 = 0;
        let mut done: bool = false;
        let mut moved: u64 = 0;
        while !done
            invariant
                self.wf(),
                self.historic_state_cache@.entries.len() == 0,
                self.snapshot_interval == old(self).snapshot_interval,
                self.transition == old(self).transition,
                self.hot.spec_capacity() == old(self).hot.spec_capacity(),
                self.freezer.spec_capacity() == old(self).freezer.spec_capacity(),
                hot0 == old(self).hot@,
                fz0 == old(self).freezer@,
                v0 == old(self).start_of_migration(),
                capacity == old(self).freezer.spec_capacity(),
                interval == old(self).snapshot_interval,
                same_blocks(hot0, self.hot@),
                self.metrics@.not_below(old(self).metrics@),
                forall|k: u64|
                    (k < from || (done && k <= upto)) ==> !(#[trigger] self.hot@.contains_key(
                        (Column::StateRoots, k),
                    )),
                forall|k: u64|
                    !done && k >= from ==> (#[trigger] self.hot@.contains_key(
                        (Column::StateRoots, k),
                    ) == hot0.contains_key((Column::StateRoots, k))),
                forall|s: u64|
                    (s < from || (done && s <= upto)) && #[trigger] hot0.contains_key(
                        (Column::StateRoots, s),
                    ) ==> frozen_at(self.freezer@, s),
                nothing_to_migrate(hot0, upto) ==> self.hot@ == hot0 && self.freezer@ == fz0
                    && moved == 0,
                moved == capped(count),
                !done ==> migration(v0, capacity, interval, 0, upto) == migration(
                    self.migration_view(count),
                    capacity,
                    interval,
                    from,
                    upto,
                ),
                done ==> migration(v0, capacity, interval, 0, upto) == self.migration_view(count),
            decreases (if done { 0 } else { u64::MAX - from + 1 }),
        {
            let ghost hot1 = self.hot@;
            let ghost fz1 = self.freezer@;
            let ghost here = self.migration_view(count);
            proof {
                lemma_ceiling_of(hot1, Column::StateRoots, from);
                // what is left to move stands at or after `from`, as it did at the start
                assert forall|s: u64| s >= from implies hot1.contains_key((Column::StateRoots, s))
                    == #[trigger] hot0.contains_key((Column::StateRoots, s)) by {}
            }
            match self.hot.ceiling_key(Column::StateRoots, from) {
                None => {
                    proof {
                        assert forall|s: u64| s >= from implies !#[trigger] hot0.contains_key(
                            (Column::StateRoots, s),
                        ) by {
                            if hot1.contains_key((Column::StateRoots, s)) {
                                assert(crate::kv::has_key_from(hot1, Column::StateRoots, from));
                            }
                        }
                    }
                    done = true;
                },
                Some(slot) => {
                    assert(is_ceiling(hot1, Column::StateRoots, from, slot));
                    proof {
                        assert forall|s: u64| from <= s < slot implies !#[trigger] hot0.contains_key(
                            (Column::StateRoots, s),
                        ) by {
                            assert(!hot1.contains_key((Column::StateRoots, s)));
                        }
                    }
                    if slot > upto {
                        done = true;
                    } else {
                        assert(hot0.contains_key((Column::StateRoots, slot)));
                        match self.migrate_one(slot) {
                            Err(e) => {
                                self.record_cache_gauges();
                                return Err(e);
                            },
                            Ok(()) => {},
                        }
                        proof {
                            assert forall|s: u64|
                                s <= slot && #[trigger] hot0.contains_key(
                                    (Column::StateRoots, s),
                                ) implies frozen_at(self.freezer@, s) by {
                                if s < slot {
                                    assert(chain_state(self.freezer@, s) == chain_state(fz1, s));
                                }
                            }
                            count = count + 1;
                        }
                        moved = add_saturating(moved, 1);
                        if slot == u64::MAX {
                            done = true;
                        } else {
                            from = slot + 1;
                        }
                    }
                },
            }
        }
        self.record_cache_gauges();
        Ok(moved)
    }

    /// Reads the state that `id` names.
    pub fn get_state(&mut self, id: StateId) -> (r: Result<BeaconState, StoreError>)
        requires
            old(self).wf(),
        ensures
            final(self).wf(),
            final(self).gauges_current(),
            final(self).same_stores(old(self)),
            match id {
                StateId::Slot(slot) => reconstructs(
                    old(self).freezer@,
                    old(self).hot@,
                    old(self).transition,
                    slot,
                    result_view(r),
                ),
                StateId::Root(root) => state_by_root(
                    old(self).freezer@,
                    old(self).hot@,
                    old(self).transition,
                    root,
                    result_view(r),
                ),
            },
            final(self).metrics@.counter(Counter::BeaconStateGet) == saturating_sum(
                old(self).metrics@.counter(Counter::BeaconStateGet),
                1,
            ),
            final(self).metrics@.not_below(old(self).metrics@),
    {
        match id {
            StateId::Slot(slot) => self.get_state_by_slot(slot),
            StateId::Root(root) => self.get_state_by_root(root),
        }
    }
}

/// The writes that store a state: the state under its root, its slot under
/// its root, and its root under its slot.
pub open spec fn state_ops(state: StateView) -> Seq<OpView> {
    seq![
        OpView::Put { column: Column::State, key: state.root, value: state_bytes(state) },
        OpView::Put { column: Column::StateSummary, key: state.root, value: u64_bytes(state.slot) },
        OpView::Put { column: Column::StateRoots, key: state.slot, value: u64_bytes(state.root) },
    ]
}

/// A state that is not hot, read by its root, is what reconstruction at its
/// slot yields, judged by its root.
pub proof fn lemma_state_by_root_historic<F: Fn(&BeaconState, &Block) -> Option<BeaconState>>(
    fz: StoreMap,
    hot: StoreMap,
    f: F,
    root: u64,
    slot: u64,
    outcome: Result<StateView, StoreError>,
)
    requires
        stored_value::<BeaconState>(hot, Column::State, root) == Err::<StateView, StoreError>(
            StoreError::NotFound,
        ),
        summary_slot(hot, root) == Ok::<u64, StoreError>(slot),
        reconstructs(fz, hot, f, slot, outcome),
    ensures
        state_by_root(fz, hot, f, root, rooted(outcome, root)),
{
    let e = stored_value::<BeaconState>(hot, Column::State, root)->Err_0;
    assert(e == StoreError::NotFound);
    let known = summary_slot(hot, root)->Ok_0;
    assert(known == slot);
    assert(reconstructs(fz, hot, f, known, outcome));
}

/// Whether the hot store holds no state at or before `upto`.
pub open spec fn nothing_to_migrate(hot: StoreMap, upto: u64) -> bool {
    forall|k: u64| k <= upto ==> !(#[trigger] hot.contains_key((Column::StateRoots, k)))
}

/// The caches of a store.
#[derive(Clone, Copy, Debug, PartialEq, Eq, Structural)]
pub enum CacheKind {
    Block,
    Blob,
    DataColumn,
    State,
    HistoricState,
    HdiffBuffer,
}

/// The state of the hot store at `slot`: the state under the root that the
/// index of state roots holds for the slot. `CorruptData` where the index
/// holds no root there, no state is stored under the root or it cannot be
/// decoded, or it is not the state of that root and slot.
pub open spec fn hot_state_at(hot: StoreMap, slot: u64) -> Result<StateView, StoreError> {
    if !hot.contains_key((Column::StateRoots, slot)) || hot[(Column::StateRoots, slot)].len()
        != 8 {
        Err(StoreError::CorruptData)
    } else {
        let root = u64_at(hot[(Column::StateRoots, slot)], 0);
        match stored_value::<BeaconState>(hot, Column::State, root) {
            Err(e) => Err(StoreError::CorruptData),
            Ok(state) => if state.slot != slot || state.root != root {
                Err(StoreError::CorruptData)
            } else {
                Ok(state)
            },
        }
    }
}

/// Where a migration stands: what the two stores hold, the bytes that the
/// freezer uses, the number of states moved, and the error it stopped at.
pub struct MigrationView {
    pub hot: StoreMap,
    pub freezer: StoreMap,
    pub freezer_used: nat,
    pub moved: nat,
    pub error: Option<StoreError>,
}

/// Where a migration that stands at `v` ends, when it moves the states of
/// the hot store from the slot `from` up to the slot `upto`, in the order of
/// their slots.
///
/// Each state is frozen (see [`freeze_result`]) and then leaves the hot
/// store, with its entry in the index of state roots. The migration stops at
/// the first state that cannot be read or frozen, with that error.
pub open spec fn migration(
    v: MigrationView,
    capacity: u64,
    interval: u64,
    from: u64,
    upto: u64,
) -> MigrationView
    decreases upto - from + 1,
{
    if from > upto {
        v
    } else {
        match ceiling_of(v.hot, Column::StateRoots, from) {
            None => v,
            Some(slot) => if slot > upto || slot < from {
                v
            } else {
                match hot_state_at(v.hot, slot) {
                    Err(e) => MigrationView { error: Some(e), ..v },
                    Ok(state) => {
                        let frozen = freeze_result(
                            v.freezer,
                            v.freezer_used,
                            capacity,
                            interval,
                            state,
                        );
                        match frozen.2 {
                            Err(e) => MigrationView { error: Some(e), ..v },
                            Ok(outcome) => {
                                let next = MigrationView {
                                    hot: v.hot.remove((Column::State, state.root)).remove(
                                        (Column::StateRoots, slot),
                                    ),
                                    freezer: frozen.0,
                                    freezer_used: frozen.1,
                                    moved: v.moved + 1,
                                    error: None,
                                };
                                if slot == u64::MAX {
                                    next
                                } else {
                                    migration(next, capacity, interval, (slot + 1) as u64, upto)
                                }
                            },
                        }
                    },
                }
            },
        }
    }
}

/// A migration that ends without an error leaves no state in the hot store
/// at or before its bound.
pub proof fn lemma_migration_clears(
    v: MigrationView,
    capacity: u64,
    interval: u64,
    from: u64,
    upto: u64,
)
    requires
        forall|k: u64| k < from ==> !(#[trigger] v.hot.contains_key((Column::StateRoots, k))),
        v.error is None,
        migration(v, capacity, interval, from, upto).error is None,
    ensures
        nothing_to_migrate(migration(v, capacity, interval, from, upto).hot, upto),
    decreases upto - from + 1,
{
    if from <= upto {
        lemma_ceiling_of(v.hot, Column::StateRoots, from);
        match ceiling_of(v.hot, Column::StateRoots, from) {
            None => {
                assert forall|k: u64| k <= upto implies !(#[trigger] v.hot.contains_key(
                    (Column::StateRoots, k),
                )) by {
                    if k >= from && v.hot.contains_key((Column::StateRoots, k)) {
                        assert(crate::kv::has_key_from(v.hot, Column::StateRoots, from));
                    }
                }
            },
            Some(slot) => {
                assert(is_ceiling(v.hot, Column::StateRoots, from, slot));
                if slot > upto || slot < from {
                    assert forall|k: u64| k <= upto implies !(#[trigger] v.hot.contains_key(
                        (Column::StateRoots, k),
                    )) by {}
                } else {
                    match hot_state_at(v.hot, slot) {
                        Err(e) => {},
                        Ok(state) => {
                            let frozen = freeze_result(
                                v.freezer,
                                v.freezer_used,
                                capacity,
                                interval,
                                state,
                            );
                            match frozen.2 {
                                Err(e) => {},
                                Ok(outcome) => {
                                    let next = MigrationView {
                                        hot: v.hot.remove((Column::State, state.root)).remove(
                                            (Column::StateRoots, slot),
                                        ),
                                        freezer: frozen.0,
                                        freezer_used: frozen.1,
                                        moved: v.moved + 1,
                                        error: None,
                                    };
                                    assert forall|k: u64| k <= slot implies !(
                                    #[trigger] next.hot.contains_key((Column::StateRoots, k))) by {
                                        if k < slot && k >= from {
                                            assert(!v.hot.contains_key((Column::StateRoots, k)));
                                        }
                                    }
                                    if slot < u64::MAX {
                                        lemma_migration_clears(
                                            next,
                                            capacity,
                                            interval,
                                            (slot + 1) as u64,
                                            upto,
                                        );
                                    }
                                },
                            }
                        },
                    }
                }
            },
        }
    }
}

/// A migration over a hot store that holds no state at or before the bound
/// changes nothing.
pub proof fn lemma_migration_of_nothing(
    v: MigrationView,
    capacity: u64,
    interval: u64,
    upto: u64,
)
    requires
        nothing_to_migrate(v.hot, upto),
    ensures
        migration(v, capacity, interval, 0, upto) == v,
{
    lemma_ceiling_of(v.hot, Column::StateRoots, 0);
    match ceiling_of(v.hot, Column::StateRoots, 0) {
        None => {},
        Some(slot) => {
            assert(is_ceiling(v.hot, Column::StateRoots, 0, slot));
        },
    }
}

/// Migration is idempotent: a migration run again over the same range, after
/// one that ended without an error, leaves both stores as the first run left
/// them.
pub proof fn lemma_migration_idempotent(
    v: MigrationView,
    capacity: u64,
    interval: u64,
    upto: u64,
)
    requires
        v.error is None,
        migration(v, capacity, interval, 0, upto).error is None,
    ensures
        migration(migration(v, capacity, interval, 0, upto), capacity, interval, 0, upto)
            == migration(v, capacity, interval, 0, upto),
{
    lemma_migration_clears(v, capacity, interval, 0, upto);
    lemma_migration_of_nothing(migration(v, capacity, interval, 0, upto), capacity, interval, upto);
}

/// A state named by its slot or by its root.
#[derive(Clone, Copy, Debug, PartialEq, Eq, Structural)]
pub enum StateId {
    Slot(u64),
    Root(u64),
}

/// Whether the hot store holds a state under `root` that can be decoded.
pub open spec fn is_hot(hot: StoreMap, root: u64) -> bool {
    stored_value::<BeaconState>(hot, Column::State, root) is Ok
}

/// Whether a read of the state of `root` is served by the hot store itself:
/// the cache does not have the state, and the hot store holds it.
pub open spec fn read_from_hot(
    entries: Seq<EntryView<StateView>>,
    hot: StoreMap,
    root: u64,
) -> bool {
    !has_key(entries, root) && is_hot(hot, root)
}

/// The slot that the hot store knows for the state of `root`.
pub open spec fn summary_slot(hot: StoreMap, root: u64) -> Result<u64, StoreError> {
    if !hot.contains_key((Column::StateSummary, root)) {
        Err(StoreError::NotFound)
    } else if hot[(Column::StateSummary, root)].len() != 8 {
        Err(StoreError::CorruptData)
    } else {
        Ok(u64_at(hot[(Column::StateSummary, root)], 0))
    }
}

/// `outcome`, where it is a state of `root` or an error; `CorruptData` where
/// it is a state of another root.
pub open spec fn rooted(outcome: Result<StateView, StoreError>, root: u64) -> Result<
    StateView,
    StoreError,
> {
    match outcome {
        Ok(state) => if state.root == root {
            Ok(state)
        } else {
            Err(StoreError::CorruptData)
        },
        Err(e) => Err(e),
    }
}

/// Whether `result` is an outcome of reading the state of `root`.
///
/// Where the hot store holds the state, the outcome is that state, or
/// `CorruptData` where it cannot be decoded. Where it does not, and knows no
/// slot for the root, the outcome is `NotFound`. Else it is an outcome of
/// reconstructing the state at that slot, or `CorruptData` where that state
/// has another root.
pub open spec fn state_by_root<F: Fn(&BeaconState, &Block) -> Option<BeaconState>>(
    fz: StoreMap,
    hot: StoreMap,
    f: F,
    root: u64,
    result: Result<StateView, StoreError>,
) -> bool {
    match stored_value::<BeaconState>(hot, Column::State, root) {
        Ok(state) => result == Ok::<StateView, StoreError>(state),
        Err(e) => if e == StoreError::NotFound {
            match summary_slot(hot, root) {
                Err(e) => result == Err::<StateView, StoreError>(e),
                Ok(slot) => exists|outcome: Result<StateView, StoreError>| #[trigger]
                    reconstructs(fz, hot, f, slot, outcome) && result == rooted(outcome, root),
            }
        } else {
            result == Err::<StateView, StoreError>(e)
        },
    }
}

/// The writes that store a block: the block under its root, and its root
/// under its slot.
pub open spec fn block_ops(block: BlockView) -> Seq<OpView> {
    seq![
        OpView::Put { column: Column::Block, key: block.root, value: block_bytes(block) },
        OpView::Put { column: Column::BlockRoots, key: block.slot, value: u64_bytes(block.root) },
    ]
}

} // verus!
