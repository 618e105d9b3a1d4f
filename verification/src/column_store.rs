//! The column store: the key-value layer with its accounting.
//!
//! Every operation is counted once on the counter of its kind and column,
//! whether or not it finds or changes anything, and reads and writes add the
//! bytes they move to the byte counters of the column.

use vstd::prelude::*;
use crate::column::Column;
use crate::error::StoreError;
use crate::kv::{
    MemoryStore, StoreMap, KeyValueOp, OpView, op_views, batch_outcome, stored_len, floor_of,
    ceiling_of,
};
use crate::metrics::{MetricsRegistry, MetricsView, ColumnCounter, saturating_sum};

verus! {

/// The recorder after one read of `column` that moved `bytes` bytes.
pub open spec fn counted_read(m: MetricsView, column: Column, bytes: nat) -> MetricsView {
    m.add_column(ColumnCounter::ReadCount, column, 1).add_column(
        ColumnCounter::ReadBytes,
        column,
        bytes as u64,
    )
}

/// The recorder after one write to `column` of `bytes` bytes.
pub open spec fn counted_write(m: MetricsView, column: Column, bytes: nat) -> MetricsView {
    m.add_column(ColumnCounter::WriteCount, column, 1).add_column(
        ColumnCounter::WriteBytes,
        column,
        bytes as u64,
    )
}

/// The recorder after one deletion from `column`.
pub open spec fn counted_delete(m: MetricsView, column: Column) -> MetricsView {
    m.add_column(ColumnCounter::DeleteCount, column, 1)
}

/// The recorder after one existence check on `column`.
pub open spec fn counted_exists(m: MetricsView, column: Column) -> MetricsView {
    m.add_column(ColumnCounter::ExistsCount, column, 1)
}

/// The recorder after the write `op` of a batch.
pub open spec fn counted_op(m: MetricsView, op: OpView) -> MetricsView {
    match op {
        OpView::Put { column, key, value } => counted_write(m, column, value.len()),
        OpView::Delete { column, key } => counted_delete(m, column),
    }
}

/// The recorder after the writes `ops` of a batch.
pub open spec fn counted_ops(m: MetricsView, ops: Seq<OpView>) -> MetricsView
    decreases ops.len(),
{
    if ops.len() == 0 {
        m
    } else {
        counted_op(counted_ops(m, ops.drop_last()), ops.last())
    }
}

/// The length of what a read of `column` and `key` returns.
pub open spec fn read_len(m: StoreMap, column: Column, key: u64) -> nat {
    stored_len(m, column, key)
}

/// Adding to one column counter changes that counter and nothing else.
pub proof fn lemma_add_column(m: MetricsView, kind: ColumnCounter, column: Column, n: u64)
    ensures
        m.add_column(kind, column, n).column(kind, column) == saturating_sum(
            m.column(kind, column),
            n,
        ),
        forall|k: ColumnCounter, c: Column|
            k != kind || c != column ==> #[trigger] m.add_column(kind, column, n).column(k, c)
                == m.column(k, c),
        m.add_column(kind, column, n).counters == m.counters,
        m.add_column(kind, column, n).gauges == m.gauges,
        m.add_column(kind, column, n).observations == m.observations,
        m.add_column(kind, column, n).observed == m.observed,
{
    assert forall|k: ColumnCounter, c: Column| k != kind || c != column implies #[trigger] m.add_column(
        kind,
        column,
        n,
    ).column(k, c) == m.column(k, c) by {
        if c.spec_index() == column.spec_index() {
            crate::column::lemma_index_injective(c, column);
        }
    }
}

/// Counter law for reads: short of the top of the counters' range, one read
/// adds exactly one to the read count of its column and exactly the bytes it
/// moved to the column's read bytes, and leaves every other counter of every
/// column as it was.
pub proof fn lemma_read_counted_once(m: MetricsView, column: Column, bytes: nat)
    requires
        m.column(ColumnCounter::ReadCount, column) < u64::MAX,
        m.column(ColumnCounter::ReadBytes, column) + bytes <= u64::MAX,
    ensures
        counted_read(m, column, bytes).column(ColumnCounter::ReadCount, column) == m.column(
            ColumnCounter::ReadCount,
            column,
        ) + 1,
        counted_read(m, column, bytes).column(ColumnCounter::ReadBytes, column) == m.column(
            ColumnCounter::ReadBytes,
            column,
        ) + bytes,
        forall|k: ColumnCounter, c: Column|
            (k != ColumnCounter::ReadCount && k != ColumnCounter::ReadBytes) || c != column
                ==> #[trigger] counted_read(m, column, bytes).column(k, c) == m.column(k, c),
{
    let first = m.add_column(ColumnCounter::ReadCount, column, 1);
    lemma_add_column(m, ColumnCounter::ReadCount, column, 1);
    lemma_add_column(first, ColumnCounter::ReadBytes, column, bytes as u64);
}

/// Counter law for writes: short of the top of the counters' range, one write
/// adds exactly one to the write count of its column and exactly the size of
/// its payload to the column's written bytes, and leaves every other counter
/// of every column as it was.
pub proof fn lemma_write_counted_once(m: MetricsView, column: Column, bytes: nat)
    requires
        m.column(ColumnCounter::WriteCount, column) < u64::MAX,
        m.column(ColumnCounter::WriteBytes, column) + bytes <= u64::MAX,
    ensures
        counted_write(m, column, bytes).column(ColumnCounter::WriteCount, column) == m.column(
            ColumnCounter::WriteCount,
            column,
        ) + 1,
        counted_write(m, column, bytes).column(ColumnCounter::WriteBytes, column) == m.column(
            ColumnCounter::WriteBytes,
            column,
        ) + bytes,
        forall|k: ColumnCounter, c: Column|
            (k != ColumnCounter::WriteCount && k != ColumnCounter::WriteBytes) || c != column
                ==> #[trigger] counted_write(m, column, bytes).column(k, c) == m.column(k, c),
{
    let first = m.add_column(ColumnCounter::WriteCount, column, 1);
    lemma_add_column(m, ColumnCounter::WriteCount, column, 1);
    lemma_add_column(first, ColumnCounter::WriteBytes, column, bytes as u64);
}

/// Counter law for deletions: short of the top of the counter's range, one
/// deletion adds exactly one to the deletion count of its column, and leaves
/// every other counter of every column as it was.
pub proof fn lemma_delete_counted_once(m: MetricsView, column: Column)
    requires
        m.column(ColumnCounter::DeleteCount, column) < u64::MAX,
    ensures
        counted_delete(m, column).column(ColumnCounter::DeleteCount, column) == m.column(
            ColumnCounter::DeleteCount,
            column,
        ) + 1,
        forall|k: ColumnCounter, c: Column|
            k != ColumnCounter::DeleteCount || c != column ==> #[trigger] counted_delete(
                m,
                column,
            ).column(k, c) == m.column(k, c),
{
    lemma_add_column(m, ColumnCounter::DeleteCount, column, 1);
}

/// Counter law for existence checks: short of the top of the counter's range,
/// one check adds exactly one to the check count of its column, and leaves
/// every other counter of every column as it was.
pub proof fn lemma_exists_counted_once(m: MetricsView, column: Column)
    requires
        m.column(ColumnCounter::ExistsCount, column) < u64::MAX,
    ensures
        counted_exists(m, column).column(ColumnCounter::ExistsCount, column) == m.column(
            ColumnCounter::ExistsCount,
            column,
        ) + 1,
        forall|k: ColumnCounter, c: Column|
            k != ColumnCounter::ExistsCount || c != column ==> #[trigger] counted_exists(
                m,
                column,
            ).column(k, c) == m.column(k, c),
{
    lemma_add_column(m, ColumnCounter::ExistsCount, column, 1);
}

/// Counting the writes of a batch changes nothing but column counters.
pub proof fn lemma_counted_ops_frame(m: MetricsView, ops: Seq<OpView>)
    ensures
        counted_ops(m, ops).counters == m.counters,
        counted_ops(m, ops).gauges == m.gauges,
        counted_ops(m, ops).observations == m.observations,
        counted_ops(m, ops).observed == m.observed,
    decreases ops.len(),
{
    if ops.len() > 0 {
        lemma_counted_ops_frame(m, ops.drop_last());
    }
}

/// The column counters after the writes of a batch depend on nothing but the
/// column counters before.
pub proof fn lemma_counted_ops_columns(a: MetricsView, b: MetricsView, ops: Seq<OpView>)
    requires
        a.columns == b.columns,
    ensures
        counted_ops(a, ops).columns == counted_ops(b, ops).columns,
    decreases ops.len(),
{
    if ops.len() > 0 {
        lemma_counted_ops_columns(a, b, ops.drop_last());
    }
}

/// A key-value store whose operations are counted.
pub struct ColumnStore {
    db: MemoryStore,
}

impl View for ColumnStore {
    type V = StoreMap;

    closed spec fn view(&self) -> StoreMap {
        self.db@
    }
}

impl ColumnStore {
    /// The invariant of the store.
    pub closed spec fn wf(&self) -> bool {
        self.db.wf()
    }

    /// The number of bytes in the stored values.
    pub closed spec fn spec_used(&self) -> nat {
        self.db.spec_used()
    }

    /// The number of bytes that the stored values may take.
    pub closed spec fn spec_capacity(&self) -> u64 {
        self.db.spec_capacity()
    }

    /// An empty store.
    pub fn new(capacity: u64) -> (s: ColumnStore)
        ensures
            s.wf(),
            s@ == Map::<(Column, u64), Seq<u8>>::empty(),
            s.spec_used() == 0,
            s.spec_capacity() == capacity,
    {
        ColumnStore { db: MemoryStore::new(capacity) }
    }

    /// The number of bytes in the stored values.
    pub fn used_bytes(&self) -> (n: u64)
        requires
            self.wf(),
        ensures
            n == self.spec_used(),
            n <= self.spec_capacity(),
    {
        self.db.used_bytes()
    }

    /// The number of bytes that the stored values may take.
    pub fn capacity(&self) -> (n: u64)
        ensures
            n == self.spec_capacity(),
    {
        self.db.capacity()
    }

    /// Reads the value under `column` and `key`. Counts one read, and the
    /// bytes of the value where there is one.
    pub fn get(&self, metrics: &mut MetricsRegistry, column: Column, key: u64) -> (r: Option<
        Vec<u8>,
    >)
        requires
            self.wf(),
        ensures
            r is Some <==> self@.contains_key((column, key)),
            r is Some ==> r.unwrap()@ == self@[(column, key)],
            final(metrics)@ == counted_read(old(metrics)@, column, read_len(self@, column, key)),
            final(metrics)@.not_below(old(metrics)@),
    {
        let r = self.db.get(column, key);
        let n: u64 = match &r {
            Some(v) => v.len() as u64,
            None => 0,
        };
        metrics.inc_column_by(ColumnCounter::ReadCount, column, 1);
        metrics.inc_column_by(ColumnCounter::ReadBytes, column, n);
        r
    }

    /// Whether a value is stored under `column` and `key`. Counts one
    /// existence check.
    pub fn key_exists(&self, metrics: &mut MetricsRegistry, column: Column, key: u64) -> (b: bool)
        requires
            self.wf(),
        ensures
            b == self@.contains_key((column, key)),
            final(metrics)@ == counted_exists(old(metrics)@, column),
            final(metrics)@.not_below(old(metrics)@),
    {
        metrics.inc_column_by(ColumnCounter::ExistsCount, column, 1);
        self.db.key_exists(column, key)
    }

    /// Stores `value` under `column` and `key`. Counts one write and the
    /// bytes of `value`, also where the write is refused.
    pub fn put(
        &mut self,
        metrics: &mut MetricsRegistry,
        column: Column,
        key: u64,
        value: Vec<u8>,
    ) -> (r: Result<(), StoreError>)
        requires
            old(self).wf(),
        ensures
            final(self).wf(),
            final(self).spec_capacity() == old(self).spec_capacity(),
            r is Ok <==> old(self).spec_used() - stored_len(old(self)@, column, key) + value@.len()
                <= old(self).spec_capacity(),
            r is Ok ==> final(self)@ == old(self)@.insert((column, key), value@)
                && final(self).spec_used() == old(self).spec_used() - stored_len(
                old(self)@,
                column,
                key,
            ) + value@.len(),
            r is Err ==> r == Err::<(), StoreError>(StoreError::StorageError) && final(self)@ == old(
                self,
            )@ && final(self).spec_used() == old(self).spec_used(),
            final(metrics)@ == counted_write(old(metrics)@, column, value@.len()),
            final(metrics)@.not_below(old(metrics)@),
    {
        metrics.inc_column_by(ColumnCounter::WriteCount, column, 1);
        metrics.inc_column_by(ColumnCounter::WriteBytes, column, value.len() as u64);
        self.db.put(column, key, value)
    }

    /// Removes the value under `column` and `key`. Counts one deletion.
    pub fn delete(&mut self, metrics: &mut MetricsRegistry, column: Column, key: u64)
        requires
            old(self).wf(),
        ensures
            final(self).wf(),
            final(self).spec_capacity() == old(self).spec_capacity(),
            final(self)@ == old(self)@.remove((column, key)),
            final(self).spec_used() == old(self).spec_used() - stored_len(old(self)@, column, key),
            final(metrics)@ == counted_delete(old(metrics)@, column),
            final(metrics)@.not_below(old(metrics)@),
    {
        metrics.inc_column_by(ColumnCounter::DeleteCount, column, 1);
        self.db.delete(column, key);
    }

    /// The greatest stored key of `column` that is at most `key`. An index
    /// lookup: it moves no value and is not counted.
    pub fn floor_key(&self, column: Column, key: u64) -> (r: Option<u64>)
        requires
            self.wf(),
        ensures
            r == floor_of(self@, column, key),
    {
        self.db.floor_key(column, key)
    }

    /// The least stored key of `column` that is at least `key`. An index
    /// lookup: it moves no value and is not counted.
    pub fn ceiling_key(&self, column: Column, key: u64) -> (r: Option<u64>)
        requires
            self.wf(),
        ensures
            r == ceiling_of(self@, column, key),
    {
        self.db.ceiling_key(column, key)
    }

    /// Makes the writes `ops` as one unit (see [`batch_outcome`]). Counts
    /// every write of the batch, also where the batch is refused.
    pub fn write_batch(&mut self, metrics: &mut MetricsRegistry, ops: &Vec<KeyValueOp>) -> (r:
        Result<(), StoreError>)
        requires
            old(self).wf(),
        ensures
            final(self).wf(),
            final(self).spec_capacity() == old(self).spec_capacity(),
            match batch_outcome(
                old(self)@,
                old(self).spec_used(),
                old(self).spec_capacity(),
                op_views(ops@),
            ) {
                Some((m, used)) => r is Ok && final(self)@ == m && final(self).spec_used() == used,
                None => r == Err::<(), StoreError>(StoreError::StorageError) && final(self)@ == old(
                    self,
                )@ && final(self).spec_used() == old(self).spec_used(),
            },
            final(metrics)@ == counted_ops(old(metrics)@, op_views(ops@)),
            final(metrics)@.not_below(old(metrics)@),
            final(metrics)@.counters == old(metrics)@.counters,
            final(metrics)@.gauges == old(metrics)@.gauges,
    {
        let ghost all = op_views(ops@);
        let mut k: usize = 0;
        proof {
            assert(all.take(0).len() == 0);
        }
        while k < ops.len()
            invariant
                k <= ops@.len(),
                all == op_views(ops@),
                metrics@ == counted_ops(old(metrics)@, all.take(k as int)),
                metrics@.not_below(old(metrics)@),
            decreases ops@.len() - k,
        {
            proof {
                assert(all.take(k + 1).drop_last() =~= all.take(k as int));
                assert(all.take(k + 1).last() == ops@[k as int]@);
            }
            match &ops[k] {
                KeyValueOp::Put { column, key, value } => {
                    metrics.inc_column_by(ColumnCounter::WriteCount, *column, 1);
                    metrics.inc_column_by(ColumnCounter::WriteBytes, *column, value.len() as u64);
                },
                KeyValueOp::Delete { column, key } => {
                    metrics.inc_column_by(ColumnCounter::DeleteCount, *column, 1);
                },
            }
            k += 1;
        }
        proof {
            assert(all.take(k as int) =~= all);
            lemma_counted_ops_frame(old(metrics)@, all);
        }
        self.db.write_batch(ops)
    }
}

} // verus!
