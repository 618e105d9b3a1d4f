use store::column::Column;
use store::error::{ReconstructionStep, StoreError};
use store::metrics::{
    add_saturating, scrape_for_metrics, size_to_gauge, ColumnCounter, Counter, Gauge, Histogram,
    MetricsRegistry,
};

#[test]
fn registry_starts_at_zero() {
    let m = MetricsRegistry::new();
    assert_eq!(m.counter(Counter::ReplayedBlocks), 0);
    assert_eq!(m.counter(Counter::BeaconStateGet), 0);
    assert_eq!(m.gauge(Gauge::DiskDbSize), 0);
    assert_eq!(m.column_counter(ColumnCounter::DeleteCount, Column::Diff), 0);
    assert_eq!(m.observation_count(Histogram::DiskDbReadTimes), 0);
    assert_eq!(m.observed_total(Histogram::DiskDbReadTimes), 0);
}

#[test]
fn counters_grow_by_what_is_added() {
    let mut m = MetricsRegistry::new();
    m.inc_counter(Counter::ReplayedBlocks);
    m.inc_counter(Counter::ReplayedBlocks);
    m.inc_counter_by(Counter::BeaconStateReadBytes, 40);
    assert_eq!(m.counter(Counter::ReplayedBlocks), 2);
    assert_eq!(m.counter(Counter::BeaconStateReadBytes), 40);
    assert_eq!(m.counter(Counter::BeaconStateRead), 0);
}

#[test]
fn counters_stop_at_the_top() {
    let mut m = MetricsRegistry::new();
    m.inc_counter_by(Counter::BeaconBlockGet, u64::MAX - 1);
    m.inc_counter(Counter::BeaconBlockGet);
    assert_eq!(m.counter(Counter::BeaconBlockGet), u64::MAX);
    m.inc_counter(Counter::BeaconBlockGet);
    assert_eq!(m.counter(Counter::BeaconBlockGet), u64::MAX);
    assert_eq!(add_saturating(u64::MAX, 5), u64::MAX);
    assert_eq!(add_saturating(3, 5), 8);
}

#[test]
fn column_counters_are_kept_apart() {
    let mut m = MetricsRegistry::new();
    m.inc_column_by(ColumnCounter::ReadBytes, Column::State, 7);
    m.inc_column_by(ColumnCounter::ReadBytes, Column::StateRoots, 9);
    m.inc_column_by(ColumnCounter::DeleteCount, Column::Block, 1);
    assert_eq!(m.column_counter(ColumnCounter::ReadBytes, Column::State), 7);
    assert_eq!(m.column_counter(ColumnCounter::ReadBytes, Column::StateRoots), 9);
    assert_eq!(m.column_counter(ColumnCounter::DeleteCount, Column::Block), 1);
    assert_eq!(m.column_counter(ColumnCounter::ReadBytes, Column::Block), 0);
    assert_eq!(m.column_counter(ColumnCounter::WriteBytes, Column::State), 0);
    assert_eq!(m.column_counter(ColumnCounter::WriteBytes, Column::Block), 0);
}

#[test]
fn histograms_count_and_add_up() {
    let mut m = MetricsRegistry::new();
    m.observe(Histogram::HdiffBufferApplyTime, 1500);
    m.observe(Histogram::HdiffBufferApplyTime, 500);
    assert_eq!(m.observation_count(Histogram::HdiffBufferApplyTime), 2);
    assert_eq!(m.observed_total(Histogram::HdiffBufferApplyTime), 2000);
    assert_eq!(m.observation_count(Histogram::HdiffBufferComputeTime), 0);
}

#[test]
fn scrape_sets_the_two_size_gauges() {
    let mut m = MetricsRegistry::new();
    m.set_gauge(Gauge::BlockCacheSize, 5);
    scrape_for_metrics(&mut m, 4096, 123_456_789);
    assert_eq!(m.gauge(Gauge::DiskDbSize), 4096);
    assert_eq!(m.gauge(Gauge::FreezerDbSize), 123_456_789);
    assert_eq!(m.gauge(Gauge::BlockCacheSize), 5);
    scrape_for_metrics(&mut m, 0, 1);
    assert_eq!(m.gauge(Gauge::DiskDbSize), 0);
    assert_eq!(m.gauge(Gauge::FreezerDbSize), 1);
}

#[test]
fn gauge_of_a_size_beyond_the_signed_range() {
    assert_eq!(size_to_gauge(0), 0);
    assert_eq!(size_to_gauge(i64::MAX as u64), i64::MAX);
    assert_eq!(size_to_gauge(i64::MAX as u64 + 1), i64::MIN);
    assert_eq!(size_to_gauge(u64::MAX), -1);
    let mut m = MetricsRegistry::new();
    scrape_for_metrics(&mut m, u64::MAX, 1u64 << 63);
    assert_eq!(m.gauge(Gauge::DiskDbSize), -1);
    assert_eq!(m.gauge(Gauge::FreezerDbSize), i64::MIN);
}

#[test]
fn signals_have_their_exported_names() {
    assert_eq!(Gauge::DiskDbSize.name(), "store_disk_db_size");
    assert_eq!(Gauge::FreezerDbSize.name(), "store_freezer_db_size");
    assert_eq!(Gauge::HdiffBufferCacheByteSize.name(), "store_beacon_hdiff_buffer_cache_byte_size");
    assert_eq!(Counter::ReplayedBlocks.name(), "store_beacon_replayed_blocks_total");
    assert_eq!(Counter::BeaconDataColumnsCacheHit.name(), "store_beacon_data_columns_cache_hit_total");
    assert_eq!(Histogram::FreezerCompressTime.name(), "store_beacon_state_compress_seconds");
    assert_eq!(ColumnCounter::ExistsCount.name(), "store_disk_db_exists_count_total");
    assert_eq!(Column::Block.label(), "blk");
    assert_eq!(Column::StateRoots.label(), "bsr");
}

#[test]
fn indexes_are_dense() {
    assert_eq!(Column::Block.index(), 0);
    assert_eq!(Column::StateRoots.index(), 9);
    assert_eq!(Counter::BeaconDataColumnsCacheHit.index(), 12);
    assert_eq!(Gauge::HdiffBufferCacheByteSize.index(), 7);
    assert_eq!(Histogram::HdiffBufferLoadTime.index(), 9);
    assert_eq!(ColumnCounter::DeleteCount.index(), 5);
}

#[test]
fn errors_have_codes() {
    assert_eq!(StoreError::StorageError.code(), 1);
    assert_eq!(StoreError::CorruptData.code(), 2);
    assert_eq!(StoreError::NotFound.code(), 3);
    let e = StoreError::ReconstructionError {
        step: ReconstructionStep::LoadBlock,
        slot: 150,
        target: 300,
    };
    assert_eq!(e.code(), 4);
}
