//! The metrics recorder that the storage engine reports to.
//!
//! The recorder is an ordinary value that the engine owns: counters only
//! grow, gauges hold the last value set, histograms count observations and
//! add up what was observed. Counters saturate at the top of their range
//! instead of wrapping, so they never decrease.

use vstd::prelude::*;
use crate::column::{Column, COLUMN_COUNT};

verus! {

pub const COUNTER_COUNT: usize = 13;

pub const GAUGE_COUNT: usize = 8;

pub const HISTOGRAM_COUNT: usize = 10;

pub const COLUMN_COUNTER_COUNT: usize = 6;

/// A counter that is not tied to a column.
#[derive(Clone, Copy, Debug, PartialEq, Eq, Structural)]
pub enum Counter {
    BeaconStateGet,
    BeaconStateHotGet,
    BeaconStateRead,
    BeaconStateReadBytes,
    BeaconStateWrite,
    BeaconStateWriteBytes,
    BeaconBlockGet,
    BeaconBlockCacheHit,
    BeaconBlobsCacheHit,
    HdiffBufferCacheHit,
    HdiffBufferCacheMiss,
    ReplayedBlocks,
    BeaconDataColumnsCacheHit,
}

/// A gauge.
#[derive(Clone, Copy, Debug, PartialEq, Eq, Structural)]
pub enum Gauge {
    DiskDbSize,
    FreezerDbSize,
    BlockCacheSize,
    BlobCacheSize,
    StateCacheSize,
    HistoricStateCacheSize,
    HdiffBufferCacheSize,
    HdiffBufferCacheByteSize,
}

/// A histogram of durations, in nanoseconds.
#[derive(Clone, Copy, Debug, PartialEq, Eq, Structural)]
pub enum Histogram {
    DiskDbReadTimes,
    DiskDbWriteTimes,
    BeaconStateReadTimes,
    BeaconStateReadOverheadTimes,
    BeaconStateWriteOverheadTimes,
    FreezerCompressTime,
    FreezerDecompressTime,
    HdiffBufferApplyTime,
    HdiffBufferComputeTime,
    HdiffBufferLoadTime,
}

/// A counter of which every column has one.
#[derive(Clone, Copy, Debug, PartialEq, Eq, Structural)]
pub enum ColumnCounter {
    WriteBytes,
    ReadBytes,
    ReadCount,
    WriteCount,
    ExistsCount,
    DeleteCount,
}

impl Counter {
    pub open spec fn spec_index(self) -> nat {
        match self {
            Counter::BeaconStateGet => 0,
            Counter::BeaconStateHotGet => 1,
            Counter::BeaconStateRead => 2,
            Counter::BeaconStateReadBytes => 3,
            Counter::BeaconStateWrite => 4,
            Counter::BeaconStateWriteBytes => 5,
            Counter::BeaconBlockGet => 6,
            Counter::BeaconBlockCacheHit => 7,
            Counter::BeaconBlobsCacheHit => 8,
            Counter::HdiffBufferCacheHit => 9,
            Counter::HdiffBufferCacheMiss => 10,
            Counter::ReplayedBlocks => 11,
            Counter::BeaconDataColumnsCacheHit => 12,
        }
    }

    pub fn index(self) -> (i: usize)
        ensures
            i == self.spec_index(),
            i < COUNTER_COUNT,
    {
        match self {
            Counter::BeaconStateGet => 0,
            Counter::BeaconStateHotGet => 1,
            Counter::BeaconStateRead => 2,
            Counter::BeaconStateReadBytes => 3,
            Counter::BeaconStateWrite => 4,
            Counter::BeaconStateWriteBytes => 5,
            Counter::BeaconBlockGet => 6,
            Counter::BeaconBlockCacheHit => 7,
            Counter::BeaconBlobsCacheHit => 8,
            Counter::HdiffBufferCacheHit => 9,
            Counter::HdiffBufferCacheMiss => 10,
            Counter::ReplayedBlocks => 11,
            Counter::BeaconDataColumnsCacheHit => 12,
        }
    }

    /// The name under which the counter is exported.
    pub open spec fn spec_name(self) -> Seq<char> {
        match self {
            Counter::BeaconStateGet => "store_beacon_state_get_total"@,
            Counter::BeaconStateHotGet => "store_beacon_state_hot_get_total"@,
            Counter::BeaconStateRead => "store_beacon_state_read_total"@,
            Counter::BeaconStateReadBytes => "store_beacon_state_read_bytes_total"@,
            Counter::BeaconStateWrite => "store_beacon_state_write_total"@,
            Counter::BeaconStateWriteBytes => "store_beacon_state_write_bytes_total"@,
            Counter::BeaconBlockGet => "store_beacon_block_get_total"@,
            Counter::BeaconBlockCacheHit => "store_beacon_block_cache_hit_total"@,
            Counter::BeaconBlobsCacheHit => "store_beacon_blobs_cache_hit_total"@,
            Counter::HdiffBufferCacheHit => "store_beacon_hdiff_buffer_cache_hit_total"@,
            Counter::HdiffBufferCacheMiss => "store_beacon_hdiff_buffer_cache_miss_total"@,
            Counter::ReplayedBlocks => "store_beacon_replayed_blocks_total"@,
            Counter::BeaconDataColumnsCacheHit => "store_beacon_data_columns_cache_hit_total"@,
        }
    }

    /// The exported name (see [`Self::spec_name`]).
    pub fn name(self) -> (s: &'static str)
        ensures
            s@ == self.spec_name(),
    {
        match self {
            Counter::BeaconStateGet => "store_beacon_state_get_total",
            Counter::BeaconStateHotGet => "store_beacon_state_hot_get_total",
            Counter::BeaconStateRead => "store_beacon_state_read_total",
            Counter::BeaconStateReadBytes => "store_beacon_state_read_bytes_total",
            Counter::BeaconStateWrite => "store_beacon_state_write_total",
            Counter::BeaconStateWriteBytes => "store_beacon_state_write_bytes_total",
            Counter::BeaconBlockGet => "store_beacon_block_get_total",
            Counter::BeaconBlockCacheHit => "store_beacon_block_cache_hit_total",
            Counter::BeaconBlobsCacheHit => "store_beacon_blobs_cache_hit_total",
            Counter::HdiffBufferCacheHit => "store_beacon_hdiff_buffer_cache_hit_total",
            Counter::HdiffBufferCacheMiss => "store_beacon_hdiff_buffer_cache_miss_total",
            Counter::ReplayedBlocks => "store_beacon_replayed_blocks_total",
            Counter::BeaconDataColumnsCacheHit => "store_beacon_data_columns_cache_hit_total",
        }
    }
}

impl Gauge {
    pub open spec fn spec_index(self) -> nat {
        match self {
            Gauge::DiskDbSize => 0,
            Gauge::FreezerDbSize => 1,
            Gauge::BlockCacheSize => 2,
            Gauge::BlobCacheSize => 3,
            Gauge::StateCacheSize => 4,
            Gauge::HistoricStateCacheSize => 5,
            Gauge::HdiffBufferCacheSize => 6,
            Gauge::HdiffBufferCacheByteSize => 7,
        }
    }

    pub fn index(self) -> (i: usize)
        ensures
            i == self.spec_index(),
            i < GAUGE_COUNT,
    {
        match self {
            Gauge::DiskDbSize => 0,
            Gauge::FreezerDbSize => 1,
            Gauge::BlockCacheSize => 2,
            Gauge::BlobCacheSize => 3,
            Gauge::StateCacheSize => 4,
            Gauge::HistoricStateCacheSize => 5,
            Gauge::HdiffBufferCacheSize => 6,
            Gauge::HdiffBufferCacheByteSize => 7,
        }
    }

    /// The name under which the gauge is exported.
    pub open spec fn spec_name(self) -> Seq<char> {
        match self {
            Gauge::DiskDbSize => "store_disk_db_size"@,
            Gauge::FreezerDbSize => "store_freezer_db_size"@,
            Gauge::BlockCacheSize => "store_beacon_block_cache_size"@,
            Gauge::BlobCacheSize => "store_beacon_blob_cache_size"@,
            Gauge::StateCacheSize => "store_beacon_state_cache_size"@,
            Gauge::HistoricStateCacheSize => "store_beacon_historic_state_cache_size"@,
            Gauge::HdiffBufferCacheSize => "store_beacon_hdiff_buffer_cache_size"@,
            Gauge::HdiffBufferCacheByteSize => "store_beacon_hdiff_buffer_cache_byte_size"@,
        }
    }

    /// The exported name (see [`Self::spec_name`]).
    pub fn name(self) -> (s: &'static str)
        ensures
            s@ == self.spec_name(),
    {
        match self {
            Gauge::DiskDbSize => "store_disk_db_size",
            Gauge::FreezerDbSize => "store_freezer_db_size",
            Gauge::BlockCacheSize => "store_beacon_block_cache_size",
            Gauge::BlobCacheSize => "store_beacon_blob_cache_size",
            Gauge::StateCacheSize => "store_beacon_state_cache_size",
            Gauge::HistoricStateCacheSize => "store_beacon_historic_state_cache_size",
            Gauge::HdiffBufferCacheSize => "store_beacon_hdiff_buffer_cache_size",
            Gauge::HdiffBufferCacheByteSize => "store_beacon_hdiff_buffer_cache_byte_size",
        }
    }
}

impl Histogram {
    pub open spec fn spec_index(self) -> nat {
        match self {
            Histogram::DiskDbReadTimes => 0,
            Histogram::DiskDbWriteTimes => 1,
            Histogram::BeaconStateReadTimes => 2,
            Histogram::BeaconStateReadOverheadTimes => 3,
            Histogram::BeaconStateWriteOverheadTimes => 4,
            Histogram::FreezerCompressTime => 5,
            Histogram::FreezerDecompressTime => 6,
            Histogram::HdiffBufferApplyTime => 7,
            Histogram::HdiffBufferComputeTime => 8,
            Histogram::HdiffBufferLoadTime => 9,
        }
    }

    pub fn index(self) -> (i: usize)
        ensures
            i == self.spec_index(),
            i < HISTOGRAM_COUNT,
    {
        match self {
            Histogram::DiskDbReadTimes => 0,
            Histogram::DiskDbWriteTimes => 1,
            Histogram::BeaconStateReadTimes => 2,
            Histogram::BeaconStateReadOverheadTimes => 3,
            Histogram::BeaconStateWriteOverheadTimes => 4,
            Histogram::FreezerCompressTime => 5,
            Histogram::FreezerDecompressTime => 6,
            Histogram::HdiffBufferApplyTime => 7,
            Histogram::HdiffBufferComputeTime => 8,
            Histogram::HdiffBufferLoadTime => 9,
        }
    }

    /// The name under which the histogram is exported.
    pub open spec fn spec_name(self) -> Seq<char> {
        match self {
            Histogram::DiskDbReadTimes => "store_disk_db_read_seconds"@,
            Histogram::DiskDbWriteTimes => "store_disk_db_write_seconds"@,
            Histogram::BeaconStateReadTimes => "store_beacon_state_read_seconds"@,
            Histogram::BeaconStateReadOverheadTimes => "store_beacon_state_read_overhead_seconds"@,
            Histogram::BeaconStateWriteOverheadTimes => "store_beacon_state_write_overhead_seconds"@,
            Histogram::FreezerCompressTime => "store_beacon_state_compress_seconds"@,
            Histogram::FreezerDecompressTime => "store_beacon_state_decompress_seconds"@,
            Histogram::HdiffBufferApplyTime => "store_beacon_hdiff_buffer_apply_seconds"@,
            Histogram::HdiffBufferComputeTime => "store_beacon_hdiff_buffer_compute_seconds"@,
            Histogram::HdiffBufferLoadTime => "store_beacon_hdiff_buffer_load_seconds"@,
        }
    }

    /// The exported name (see [`Self::spec_name`]).
    pub fn name(self) -> (s: &'static str)
        ensures
            s@ == self.spec_name(),
    {
        match self {
            Histogram::DiskDbReadTimes => "store_disk_db_read_seconds",
            Histogram::DiskDbWriteTimes => "store_disk_db_write_seconds",
            Histogram::BeaconStateReadTimes => "store_beacon_state_read_seconds",
            Histogram::BeaconStateReadOverheadTimes => "store_beacon_state_read_overhead_seconds",
            Histogram::BeaconStateWriteOverheadTimes => "store_beacon_state_write_overhead_seconds",
            Histogram::FreezerCompressTime => "store_beacon_state_compress_seconds",
            Histogram::FreezerDecompressTime => "store_beacon_state_decompress_seconds",
            Histogram::HdiffBufferApplyTime => "store_beacon_hdiff_buffer_apply_seconds",
            Histogram::HdiffBufferComputeTime => "store_beacon_hdiff_buffer_compute_seconds",
            Histogram::HdiffBufferLoadTime => "store_beacon_hdiff_buffer_load_seconds",
        }
    }
}

impl ColumnCounter {
    pub open spec fn spec_index(self) -> nat {
        match self {
            ColumnCounter::WriteBytes => 0,
            ColumnCounter::ReadBytes => 1,
            ColumnCounter::ReadCount => 2,
            ColumnCounter::WriteCount => 3,
            ColumnCounter::ExistsCount => 4,
            ColumnCounter::DeleteCount => 5,
        }
    }

    pub fn index(self) -> (i: usize)
        ensures
            i == self.spec_index(),
            i < COLUMN_COUNTER_COUNT,
    {
        match self {
            ColumnCounter::WriteBytes => 0,
            ColumnCounter::ReadBytes => 1,
            ColumnCounter::ReadCount => 2,
            ColumnCounter::WriteCount => 3,
            ColumnCounter::ExistsCount => 4,
            ColumnCounter::DeleteCount => 5,
        }
    }

    /// The name under which the counter is exported, one series per column.
    pub open spec fn spec_name(self) -> Seq<char> {
        match self {
            ColumnCounter::WriteBytes => "store_disk_db_write_bytes_total"@,
            ColumnCounter::ReadBytes => "store_disk_db_read_bytes_total"@,
            ColumnCounter::ReadCount => "store_disk_db_read_count_total"@,
            ColumnCounter::WriteCount => "store_disk_db_write_count_total"@,
            ColumnCounter::ExistsCount => "store_disk_db_exists_count_total"@,
            ColumnCounter::DeleteCount => "store_disk_db_delete_count_total"@,
        }
    }

    /// The exported name (see [`Self::spec_name`]).
    pub fn name(self) -> (s: &'static str)
        ensures
            s@ == self.spec_name(),
    {
        match self {
            ColumnCounter::WriteBytes => "store_disk_db_write_bytes_total",
            ColumnCounter::ReadBytes => "store_disk_db_read_bytes_total",
            ColumnCounter::ReadCount => "store_disk_db_read_count_total",
            ColumnCounter::WriteCount => "store_disk_db_write_count_total",
            ColumnCounter::ExistsCount => "store_disk_db_exists_count_total",
            ColumnCounter::DeleteCount => "store_disk_db_delete_count_total",
        }
    }
}

/// The sum of two counts, held at the top of the range where it would pass it.
pub open spec fn saturating_sum(a: u64, b: u64) -> u64 {
    if a + b > u64::MAX {
        u64::MAX
    } else {
        (a + b) as u64
    }
}

/// Computes [`saturating_sum`].
pub fn add_saturating(a: u64, b: u64) -> (r: u64)
    ensures
        r == saturating_sum(a, b),
        r >= a,
        r >= b,
{
    if b > u64::MAX - a {
        u64::MAX
    } else {
        a + b
    }
}

/// The value that a gauge takes for a size in bytes: the size itself while it
/// fits the gauge's signed range, and beyond that the value with the same
/// sixty-four bits.
pub open spec fn gauge_value(size: u64) -> i64 {
    if size <= i64::MAX {
        size as i64
    } else {
        (size - 0x1_0000_0000_0000_0000) as i64
    }
}

/// Computes [`gauge_value`].
pub fn size_to_gauge(size: u64) -> (v: i64)
    ensures
        v == gauge_value(size),
{
    if size <= 0x7fff_ffff_ffff_ffff {
        size as i64
    } else {
        let above: u64 = size - 0x8000_0000_0000_0000;
        let v: i64 = above as i64;
        v + i64::MIN
    }
}

/// What a recorder holds: the value of every signal.
pub struct MetricsView {
    pub counters: Map<Counter, u64>,
    pub gauges: Map<Gauge, i64>,
    pub columns: Map<(ColumnCounter, Column), u64>,
    /// How many durations each histogram has seen.
    pub observations: Map<Histogram, u64>,
    /// The sum of the durations that each histogram has seen.
    pub observed: Map<Histogram, u64>,
}

impl MetricsView {
    pub open spec fn counter(self, c: Counter) -> u64 {
        self.counters[c]
    }

    pub open spec fn gauge(self, g: Gauge) -> i64 {
        self.gauges[g]
    }

    pub open spec fn column(self, kind: ColumnCounter, column: Column) -> u64 {
        self.columns[(kind, column)]
    }

    /// How many durations `h` has seen.
    pub open spec fn observation_count(self, h: Histogram) -> u64 {
        self.observations[h]
    }

    /// The sum of the durations that `h` has seen.
    pub open spec fn observed_total(self, h: Histogram) -> u64 {
        self.observed[h]
    }

    /// The recorder after `c` has grown by `n`.
    pub open spec fn add_counter(self, c: Counter, n: u64) -> MetricsView {
        MetricsView { counters: self.counters.insert(c, saturating_sum(self.counter(c), n)), ..self }
    }

    /// The recorder after `g` was set to `v`.
    pub open spec fn put_gauge(self, g: Gauge, v: i64) -> MetricsView {
        MetricsView { gauges: self.gauges.insert(g, v), ..self }
    }

    /// The recorder after the counter `kind` of `column` has grown by `n`.
    pub open spec fn add_column(self, kind: ColumnCounter, column: Column, n: u64) -> MetricsView {
        MetricsView {
            columns: self.columns.insert(
                (kind, column),
                saturating_sum(self.column(kind, column), n),
            ),
            ..self
        }
    }

    /// The recorder after `h` has seen a duration of `nanos`.
    pub open spec fn add_observation(self, h: Histogram, nanos: u64) -> MetricsView {
        MetricsView {
            observations: self.observations.insert(
                h,
                saturating_sum(self.observation_count(h), 1),
            ),
            observed: self.observed.insert(h, saturating_sum(self.observed_total(h), nanos)),
            ..self
        }
    }

    /// Whether every counter and every histogram of `self` is at least what
    /// it is in `earlier`.
    pub open spec fn not_below(self, earlier: MetricsView) -> bool {
        &&& forall|c: Counter| #[trigger] self.counters[c] >= earlier.counters[c]
        &&& forall|k: ColumnCounter, col: Column| #[trigger]
            self.columns[(k, col)] >= earlier.columns[(k, col)]
        &&& forall|h: Histogram| #[trigger] self.observations[h] >= earlier.observations[h]
        &&& forall|h: Histogram| #[trigger] self.observed[h] >= earlier.observed[h]
    }
}

/// Counters never decrease over a sequence of recordings.
pub proof fn lemma_not_below_transitive(a: MetricsView, b: MetricsView, c: MetricsView)
    requires
        b.not_below(a),
        c.not_below(b),
    ensures
        c.not_below(a),
{
    assert forall|x: Counter| #[trigger] c.counters[x] >= a.counters[x] by {
        assert(b.counters[x] >= a.counters[x]);
    }
    assert forall|k: ColumnCounter, col: Column| #[trigger]
        c.columns[(k, col)] >= a.columns[(k, col)] by {
        assert(b.columns[(k, col)] >= a.columns[(k, col)]);
    }
    assert forall|h: Histogram| #[trigger] c.observations[h] >= a.observations[h] by {
        assert(b.observations[h] >= a.observations[h]);
    }
    assert forall|h: Histogram| #[trigger] c.observed[h] >= a.observed[h] by {
        assert(b.observed[h] >= a.observed[h]);
    }
}

/// The recorder: every signal of the engine, in one value.
#[derive(Debug)]
pub struct MetricsRegistry {
    counters: Vec<u64>,
    gauges: Vec<i64>,
    columns: Vec<u64>,
    observations: Vec<u64>,
    observed: Vec<u64>,
}

impl View for MetricsRegistry {
    type V = MetricsView;

    closed spec fn view(&self) -> MetricsView {
        MetricsView {
            counters: Map::new(|c: Counter| true, |c: Counter| self.counters@[c.spec_index() as int]),
            gauges: Map::new(|g: Gauge| true, |g: Gauge| self.gauges@[g.spec_index() as int]),
            columns: Map::new(
                |k: (ColumnCounter, Column)| true,
                |k: (ColumnCounter, Column)| self.columns@[column_slot(k.0, k.1) as int],
            ),
            observations: Map::new(
                |h: Histogram| true,
                |h: Histogram| self.observations@[h.spec_index() as int],
            ),
            observed: Map::new(
                |h: Histogram| true,
                |h: Histogram| self.observed@[h.spec_index() as int],
            ),
        }
    }
}

/// The position of a column's counter in the table of column counters.
pub open spec fn column_slot(kind: ColumnCounter, column: Column) -> nat {
    kind.spec_index() * COLUMN_COUNT as nat + column.spec_index()
}

/// A table of `n` zeros.
fn zeros(n: usize) -> (v: Vec<u64>)
    ensures
        v@.len() == n,
        forall|i: int| 0 <= i < n ==> v@[i] == 0,
{
    let mut v: Vec<u64> = Vec::new();
    while v.len() < n
        invariant
            v@.len() <= n,
            forall|i: int| 0 <= i < v@.len() ==> v@[i] == 0,
        decreases n - v@.len(),
    {
        v.push(0);
    }
    v
}

impl MetricsRegistry {
    #[verifier::type_invariant]
    spec fn inv(self) -> bool {
        &&& self.counters@.len() == COUNTER_COUNT
        &&& self.gauges@.len() == GAUGE_COUNT
        &&& self.columns@.len() == COLUMN_COUNTER_COUNT * COLUMN_COUNT
        &&& self.observations@.len() == HISTOGRAM_COUNT
        &&& self.observed@.len() == HISTOGRAM_COUNT
    }

    /// A recorder with every signal at zero.
    pub fn new() -> (m: MetricsRegistry)
        ensures
            forall|c: Counter| m@.counter(c) == 0,
            forall|g: Gauge| m@.gauge(g) == 0,
            forall|k: ColumnCounter, col: Column| m@.column(k, col) == 0,
            forall|h: Histogram| m@.observation_count(h) == 0 && m@.observed_total(h) == 0,
    {
        let mut gauges: Vec<i64> = Vec::new();
        while gauges.len() < GAUGE_COUNT
            invariant
                gauges@.len() <= GAUGE_COUNT,
                forall|i: int| 0 <= i < gauges@.len() ==> gauges@[i] == 0,
            decreases GAUGE_COUNT - gauges@.len(),
        {
            gauges.push(0);
        }
        MetricsRegistry {
            counters: zeros(COUNTER_COUNT),
            gauges,
            columns: zeros(COLUMN_COUNTER_COUNT * COLUMN_COUNT),
            observations: zeros(HISTOGRAM_COUNT),
            observed: zeros(HISTOGRAM_COUNT),
        }
    }

    pub fn counter(&self, c: Counter) -> (v: u64)
        ensures
            v == self@.counter(c),
    {
        proof {
            use_type_invariant(self);
        }
        self.counters[c.index()]
    }

    pub fn gauge(&self, g: Gauge) -> (v: i64)
        ensures
            v == self@.gauge(g),
    {
        proof {
            use_type_invariant(self);
        }
        self.gauges[g.index()]
    }

    pub fn column_counter(&self, kind: ColumnCounter, column: Column) -> (v: u64)
        ensures
            v == self@.column(kind, column),
    {
        proof {
            use_type_invariant(self);
        }
        self.columns[kind.index() * COLUMN_COUNT + column.index()]
    }

    pub fn observation_count(&self, h: Histogram) -> (v: u64)
        ensures
            v == self@.observation_count(h),
    {
        proof {
            use_type_invariant(self);
        }
        self.observations[h.index()]
    }

    pub fn observed_total(&self, h: Histogram) -> (v: u64)
        ensures
            v == self@.observed_total(h),
    {
        proof {
            use_type_invariant(self);
        }
        self.observed[h.index()]
    }

    /// Adds one to `c`.
    pub fn inc_counter(&mut self, c: Counter)
        ensures
            final(self)@ == old(self)@.add_counter(c, 1),
            final(self)@.not_below(old(self)@),
    {
        self.inc_counter_by(c, 1);
    }

    /// Adds `n` to `c`.
    pub fn inc_counter_by(&mut self, c: Counter, n: u64)
        ensures
            final(self)@ == old(self)@.add_counter(c, n),
            final(self)@.not_below(old(self)@),
    {
        proof {
            use_type_invariant(&*self);
        }
        let i: usize = c.index();
        let v: u64 = add_saturating(self.counters[i], n);
        self.counters[i] = v;
        proof {
            assert(self@.counters =~= old(self)@.counters.insert(c, v));
            assert(self@.gauges =~= old(self)@.gauges);
            assert(self@.columns =~= old(self)@.columns);
            assert(self@.observations =~= old(self)@.observations);
            assert(self@.observed =~= old(self)@.observed);
        }
    }

    /// Sets `g` to `v`.
    pub fn set_gauge(&mut self, g: Gauge, v: i64)
        ensures
            final(self)@ == old(self)@.put_gauge(g, v),
            final(self)@.not_below(old(self)@),
    {
        proof {
            use_type_invariant(&*self);
        }
        let i: usize = g.index();
        self.gauges[i] = v;
        proof {
            assert(self@.gauges =~= old(self)@.gauges.insert(g, v));
            assert(self@.counters =~= old(self)@.counters);
            assert(self@.columns =~= old(self)@.columns);
            assert(self@.observations =~= old(self)@.observations);
            assert(self@.observed =~= old(self)@.observed);
        }
    }

    /// Adds `n` to the counter `kind` of `column`.
    pub fn inc_column_by(&mut self, kind: ColumnCounter, column: Column, n: u64)
        ensures
            final(self)@ == old(self)@.add_column(kind, column, n),
            final(self)@.not_below(old(self)@),
    {
        proof {
            use_type_invariant(&*self);
        }
        let i: usize = kind.index() * COLUMN_COUNT + column.index();
        let v: u64 = add_saturating(self.columns[i], n);
        self.columns[i] = v;
        proof {
            assert forall|k: (ColumnCounter, Column)| k != (kind, column) implies column_slot(
                k.0,
                k.1,
            ) != i by {
                if k.1.spec_index() == column.spec_index() {
                    crate::column::lemma_index_injective(k.1, column);
                }
            }
            assert(self@.columns =~= old(self)@.columns.insert((kind, column), v));
            assert(self@.counters =~= old(self)@.counters);
            assert(self@.gauges =~= old(self)@.gauges);
            assert(self@.observations =~= old(self)@.observations);
            assert(self@.observed =~= old(self)@.observed);
        }
    }

    /// Records that `h` has seen a duration of `nanos`.
    pub fn observe(&mut self, h: Histogram, nanos: u64)
        ensures
            final(self)@ == old(self)@.add_observation(h, nanos),
            final(self)@.not_below(old(self)@),
    {
        proof {
            use_type_invariant(&*self);
        }
        let i: usize = h.index();
        let n: u64 = add_saturating(self.observations[i], 1);
        let t: u64 = add_saturating(self.observed[i], nanos);
        self.observations[i] = n;
        self.observed[i] = t;
        proof {
            assert(self@.observations =~= old(self)@.observations.insert(h, n));
            assert(self@.observed =~= old(self)@.observed.insert(h, t));
            assert(self@.counters =~= old(self)@.counters);
            assert(self@.gauges =~= old(self)@.gauges);
            assert(self@.columns =~= old(self)@.columns);
        }
    }
}

/// Publishes the sizes of the two database directories on the gauges for the
/// hot and the freezer database. Nothing else changes.
pub fn scrape_for_metrics(metrics: &mut MetricsRegistry, db_size: u64, freezer_db_size: u64)
    ensures
        final(metrics)@ == old(metrics)@.put_gauge(Gauge::DiskDbSize, gauge_value(db_size)).put_gauge(
            Gauge::FreezerDbSize,
            gauge_value(freezer_db_size),
        ),
        final(metrics)@.not_below(old(metrics)@),
{
    metrics.set_gauge(Gauge::DiskDbSize, size_to_gauge(db_size));
    metrics.set_gauge(Gauge::FreezerDbSize, size_to_gauge(freezer_db_size));
}

} // verus!
