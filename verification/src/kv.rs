//! An ordered key-value store over named columns, held in memory.
//!
//! The store keeps its records sorted by column and key, finds a key by
//! bisection, and has a capacity in bytes: a write that would take the stored
//! values beyond it is refused and changes nothing.

use vstd::prelude::*;
use crate::column::Column;
use crate::error::StoreError;
use crate::wire::copy_range;

verus! {

/// What a store holds: the value under each column and key.
pub type StoreMap = Map<(Column, u64), Seq<u8>>;

/// One record of the store.
pub struct RecordView {
    pub column: Column,
    pub key: u64,
    pub value: Seq<u8>,
}

/// Whether `(c1, k1)` sorts strictly before `(c2, k2)`: columns go by their
/// position, keys within a column by their value.
pub open spec fn sorts_before(c1: Column, k1: u64, c2: Column, k2: u64) -> bool {
    c1.spec_index() < c2.spec_index() || (c1 == c2 && k1 < k2)
}

/// Whether the records are in strictly increasing order.
pub open spec fn sorted(recs: Seq<RecordView>) -> bool {
    forall|i: int, j: int|
        0 <= i < j < recs.len() ==> sorts_before(
            (#[trigger] recs[i]).column,
            recs[i].key,
            (#[trigger] recs[j]).column,
            recs[j].key,
        )
}

/// Whether a record of `recs` stands under `column` and `key`.
pub open spec fn holds(recs: Seq<RecordView>, column: Column, key: u64) -> bool {
    exists|i: int| 0 <= i < recs.len() && is_at(recs, i, column, key)
}

/// Whether the record at `i` stands under `column` and `key`.
pub open spec fn is_at(recs: Seq<RecordView>, i: int, column: Column, key: u64) -> bool {
    recs[i].column == column && recs[i].key == key
}

/// The position of the record under `column` and `key`.
pub open spec fn place_of(recs: Seq<RecordView>, column: Column, key: u64) -> int {
    choose|i: int| 0 <= i < recs.len() && is_at(recs, i, column, key)
}

/// The records as a map.
pub open spec fn as_map(recs: Seq<RecordView>) -> StoreMap {
    Map::new(
        |ck: (Column, u64)| holds(recs, ck.0, ck.1),
        |ck: (Column, u64)| recs[place_of(recs, ck.0, ck.1)].value,
    )
}

/// The number of bytes in the values of `recs`.
pub open spec fn bytes_of(recs: Seq<RecordView>) -> nat
    decreases recs.len(),
{
    if recs.len() == 0 {
        0
    } else {
        bytes_of(recs.drop_last()) + recs.last().value.len()
    }
}

/// Whether `f` is the greatest key of `column` that is at most `key`.
pub open spec fn is_floor(m: StoreMap, column: Column, key: u64, f: u64) -> bool {
    &&& m.contains_key((column, f))
    &&& f <= key
    &&& forall|k: u64| #[trigger] m.contains_key((column, k)) && k <= key ==> k <= f
}

/// The greatest key of `column` that is at most `key`, if there is one.
pub open spec fn floor_of(m: StoreMap, column: Column, key: u64) -> Option<u64> {
    if exists|f: u64| is_floor(m, column, key, f) {
        Some(choose|f: u64| is_floor(m, column, key, f))
    } else {
        None
    }
}

/// Whether `c` is the least key of `column` that is at least `key`.
pub open spec fn is_ceiling(m: StoreMap, column: Column, key: u64, c: u64) -> bool {
    &&& m.contains_key((column, c))
    &&& c >= key
    &&& forall|k: u64| #[trigger] m.contains_key((column, k)) && k >= key ==> k >= c
}

/// The least key of `column` that is at least `key`, if there is one.
pub open spec fn ceiling_of(m: StoreMap, column: Column, key: u64) -> Option<u64> {
    if exists|c: u64| is_ceiling(m, column, key, c) {
        Some(choose|c: u64| is_ceiling(m, column, key, c))
    } else {
        None
    }
}

/// A floor, where there is one, is the only one.
pub proof fn lemma_floor_unique(m: StoreMap, column: Column, key: u64, f: u64)
    requires
        is_floor(m, column, key, f),
    ensures
        floor_of(m, column, key) == Some(f),
{
    let g = choose|g: u64| is_floor(m, column, key, g);
    assert(is_floor(m, column, key, g));
    assert(m.contains_key((column, f)));
    assert(m.contains_key((column, g)));
}

/// A ceiling, where there is one, is the only one.
pub proof fn lemma_ceiling_unique(m: StoreMap, column: Column, key: u64, c: u64)
    requires
        is_ceiling(m, column, key, c),
    ensures
        ceiling_of(m, column, key) == Some(c),
{
    let g = choose|g: u64| is_ceiling(m, column, key, g);
    assert(is_ceiling(m, column, key, g));
    assert(m.contains_key((column, c)));
    assert(m.contains_key((column, g)));
}

/// Whether `column` has a key at or after `from`.
pub open spec fn has_key_from(m: StoreMap, column: Column, from: u64) -> bool {
    exists|k: u64| #[trigger] m.contains_key((column, k)) && k >= from
}

/// Whether `column` has a key at or before `upto`.
pub open spec fn has_key_upto(m: StoreMap, column: Column, upto: u64) -> bool {
    exists|k: u64| #[trigger] m.contains_key((column, k)) && k <= upto
}

/// Below any key at or after `from` there is a least one.
pub proof fn lemma_ceiling_below(m: StoreMap, column: Column, from: u64, k: u64)
    requires
        m.contains_key((column, k)),
        k >= from,
    ensures
        ceiling_of(m, column, from) is Some,
        is_ceiling(m, column, from, ceiling_of(m, column, from).unwrap()),
        ceiling_of(m, column, from).unwrap() <= k,
    decreases k,
{
    if exists|j: u64| #[trigger] m.contains_key((column, j)) && j >= from && j < k {
        let j = choose|j: u64| #[trigger] m.contains_key((column, j)) && j >= from && j < k;
        lemma_ceiling_below(m, column, from, j);
    } else {
        assert(is_ceiling(m, column, from, k));
        lemma_ceiling_unique(m, column, from, k);
    }
}

/// Above any key at or before `upto` there is a greatest one.
pub proof fn lemma_floor_above(m: StoreMap, column: Column, upto: u64, k: u64)
    requires
        m.contains_key((column, k)),
        k <= upto,
    ensures
        floor_of(m, column, upto) is Some,
        is_floor(m, column, upto, floor_of(m, column, upto).unwrap()),
        floor_of(m, column, upto).unwrap() >= k,
    decreases upto - k,
{
    if exists|j: u64| #[trigger] m.contains_key((column, j)) && j <= upto && j > k {
        let j = choose|j: u64| #[trigger] m.contains_key((column, j)) && j <= upto && j > k;
        lemma_floor_above(m, column, upto, j);
    } else {
        assert(is_floor(m, column, upto, k));
        lemma_floor_unique(m, column, upto, k);
    }
}

/// What a floor is: where there is one it is a stored key, and there is one
/// exactly where the column has a key at or before the bound.
pub proof fn lemma_floor_of(m: StoreMap, column: Column, upto: u64)
    ensures
        floor_of(m, column, upto) is Some <==> has_key_upto(m, column, upto),
        floor_of(m, column, upto) is Some ==> is_floor(
            m,
            column,
            upto,
            floor_of(m, column, upto).unwrap(),
        ),
{
    if has_key_upto(m, column, upto) {
        let k = choose|k: u64| #[trigger] m.contains_key((column, k)) && k <= upto;
        lemma_floor_above(m, column, upto, k);
    }
    if floor_of(m, column, upto) is Some {
        let f = choose|f: u64| is_floor(m, column, upto, f);
        assert(is_floor(m, column, upto, f));
        assert(m.contains_key((column, f)));
    }
}

/// What a ceiling is: where there is one it is a stored key, and there is
/// one exactly where the column has a key at or after the bound.
pub proof fn lemma_ceiling_of(m: StoreMap, column: Column, from: u64)
    ensures
        ceiling_of(m, column, from) is Some <==> has_key_from(m, column, from),
        ceiling_of(m, column, from) is Some ==> is_ceiling(
            m,
            column,
            from,
            ceiling_of(m, column, from).unwrap(),
        ),
{
    if has_key_from(m, column, from) {
        let k = choose|k: u64| #[trigger] m.contains_key((column, k)) && k >= from;
        lemma_ceiling_below(m, column, from, k);
    }
    if ceiling_of(m, column, from) is Some {
        let c = choose|c: u64| is_ceiling(m, column, from, c);
        assert(is_ceiling(m, column, from, c));
        assert(m.contains_key((column, c)));
    }
}

/// Two maps with the same keys in a column at or before a bound have the
/// same floor there.
pub proof fn lemma_floor_same_keys(a: StoreMap, b: StoreMap, column: Column, upto: u64)
    requires
        forall|k: u64| k <= upto ==> (#[trigger] a.contains_key((column, k)) == b.contains_key((column, k))),
    ensures
        floor_of(a, column, upto) == floor_of(b, column, upto),
{
    lemma_floor_of(a, column, upto);
    lemma_floor_of(b, column, upto);
    if has_key_upto(a, column, upto) {
        let k = choose|k: u64| #[trigger] a.contains_key((column, k)) && k <= upto;
        assert(b.contains_key((column, k)));
        let f = floor_of(a, column, upto).unwrap();
        assert(a.contains_key((column, f)));
        assert(b.contains_key((column, f)));
        assert forall|j: u64| #[trigger] b.contains_key((column, j)) && j <= upto implies j <= f by {
            assert(a.contains_key((column, j)));
        }
        assert(is_floor(b, column, upto, f));
        lemma_floor_unique(b, column, upto, f);
    } else if has_key_upto(b, column, upto) {
        let k = choose|k: u64| #[trigger] b.contains_key((column, k)) && k <= upto;
        assert(a.contains_key((column, k)));
    }
}

/// Two maps with the same keys in a column from a bound up to a limit have
/// the same ceiling there, as far as the limit: either the same key, or each
/// none or one beyond the limit.
pub proof fn lemma_ceiling_same_keys(
    a: StoreMap,
    b: StoreMap,
    column: Column,
    from: u64,
    limit: u64,
)
    requires
        forall|k: u64|
            from <= k <= limit ==> (#[trigger] a.contains_key((column, k)) == b.contains_key(
                (column, k),
            )),
    ensures
        (ceiling_of(a, column, from) is Some && ceiling_of(a, column, from).unwrap() <= limit)
            ==> ceiling_of(b, column, from) == ceiling_of(a, column, from),
        (ceiling_of(a, column, from) is None || ceiling_of(a, column, from).unwrap() > limit)
            ==> (ceiling_of(b, column, from) is None || ceiling_of(b, column, from).unwrap()
            > limit),
{
    lemma_ceiling_of(a, column, from);
    lemma_ceiling_of(b, column, from);
    if ceiling_of(a, column, from) is Some && ceiling_of(a, column, from).unwrap() <= limit {
        let c = ceiling_of(a, column, from).unwrap();
        assert(a.contains_key((column, c)));
        assert(b.contains_key((column, c)));
        assert forall|j: u64| #[trigger] b.contains_key((column, j)) && j >= from implies j >= c by {
            if j < c {
                assert(a.contains_key((column, j)));
            }
        }
        assert(is_ceiling(b, column, from, c));
        lemma_ceiling_unique(b, column, from, c);
    } else if ceiling_of(b, column, from) is Some && ceiling_of(b, column, from).unwrap() <= limit {
        let c = ceiling_of(b, column, from).unwrap();
        assert(b.contains_key((column, c)));
        assert(a.contains_key((column, c)));
        lemma_ceiling_below(a, column, from, c);
    }
}

/// In sorted records, a column and key stand at one place at most.
pub proof fn lemma_place_unique(recs: Seq<RecordView>, i: int, column: Column, key: u64)
    requires
        sorted(recs),
        0 <= i < recs.len(),
        is_at(recs, i, column, key),
    ensures
        holds(recs, column, key),
        place_of(recs, column, key) == i,
        as_map(recs).contains_key((column, key)),
        as_map(recs)[(column, key)] == recs[i].value,
{
    let j = place_of(recs, column, key);
    assert(is_at(recs, j, column, key));
    if j < i {
        assert(sorts_before(recs[j].column, recs[j].key, recs[i].column, recs[i].key));
    }
    if i < j {
        assert(sorts_before(recs[i].column, recs[i].key, recs[j].column, recs[j].key));
    }
}

/// Adding a record adds its bytes.
pub proof fn lemma_bytes_insert(recs: Seq<RecordView>, i: int, r: RecordView)
    requires
        0 <= i <= recs.len(),
    ensures
        bytes_of(recs.insert(i, r)) == bytes_of(recs) + r.value.len(),
    decreases recs.len(),
{
    if i == recs.len() {
        assert(recs.insert(i, r).drop_last() =~= recs);
    } else {
        lemma_bytes_insert(recs.drop_last(), i, r);
        assert(recs.insert(i, r).drop_last() =~= recs.drop_last().insert(i, r));
    }
}

/// Removing a record takes its bytes away.
pub proof fn lemma_bytes_remove(recs: Seq<RecordView>, i: int)
    requires
        0 <= i < recs.len(),
    ensures
        bytes_of(recs.remove(i)) + recs[i].value.len() == bytes_of(recs),
    decreases recs.len(),
{
    if i == recs.len() - 1 {
        assert(recs.remove(i) =~= recs.drop_last());
    } else {
        lemma_bytes_remove(recs.drop_last(), i);
        assert(recs.remove(i).drop_last() =~= recs.drop_last().remove(i));
    }
}

/// Replacing a record exchanges its bytes.
pub proof fn lemma_bytes_update(recs: Seq<RecordView>, i: int, r: RecordView)
    requires
        0 <= i < recs.len(),
    ensures
        bytes_of(recs.update(i, r)) + recs[i].value.len() == bytes_of(recs) + r.value.len(),
{
    lemma_bytes_remove(recs, i);
    lemma_bytes_insert(recs.remove(i), i, r);
    assert(recs.remove(i).insert(i, r) =~= recs.update(i, r));
}

/// A new record, put where the order wants it, leaves the records sorted and
/// adds one pair to the map.
pub proof fn lemma_insert_record(recs: Seq<RecordView>, p: int, r: RecordView)
    requires
        sorted(recs),
        0 <= p <= recs.len(),
        forall|j: int|
            0 <= j < p ==> sorts_before((#[trigger] recs[j]).column, recs[j].key, r.column, r.key),
        forall|j: int|
            p <= j < recs.len() ==> sorts_before(
                r.column,
                r.key,
                (#[trigger] recs[j]).column,
                recs[j].key,
            ),
    ensures
        sorted(recs.insert(p, r)),
        as_map(recs.insert(p, r)) == as_map(recs).insert((r.column, r.key), r.value),
{
    let after = recs.insert(p, r);
    assert forall|i: int, j: int| 0 <= i < j < after.len() implies sorts_before(
        (#[trigger] after[i]).column,
        after[i].key,
        (#[trigger] after[j]).column,
        after[j].key,
    ) by {
        let si = if i < p {
            i
        } else {
            i - 1
        };
        let sj = if j < p {
            j
        } else {
            j - 1
        };
        if i != p {
            assert(after[i] == recs[si]);
        }
        if j != p {
            assert(after[j] == recs[sj]);
        }
    }
    assert(is_at(after, p, r.column, r.key));
    lemma_place_unique(after, p, r.column, r.key);
    let target = as_map(recs).insert((r.column, r.key), r.value);
    assert forall|ck: (Column, u64)| as_map(after).contains_key(ck) == target.contains_key(
        ck,
    ) by {
        if holds(recs, ck.0, ck.1) {
            let i = place_of(recs, ck.0, ck.1);
            let a = if i < p {
                i
            } else {
                i + 1
            };
            assert(is_at(after, a, ck.0, ck.1));
        }
        if holds(after, ck.0, ck.1) && ck != (r.column, r.key) {
            let a = place_of(after, ck.0, ck.1);
            let i = if a < p {
                a
            } else {
                a - 1
            };
            assert(after[a] == recs[i]);
            assert(is_at(recs, i, ck.0, ck.1));
        }
    }
    assert forall|ck: (Column, u64)| as_map(after).contains_key(ck) implies as_map(after)[ck]
        == target[ck] by {
        if ck != (r.column, r.key) {
            let a = place_of(after, ck.0, ck.1);
            let i = if a < p {
                a
            } else {
                a - 1
            };
            assert(is_at(after, a, ck.0, ck.1));
            assert(after[a] == recs[i]);
            assert(is_at(recs, i, ck.0, ck.1));
            lemma_place_unique(recs, i, ck.0, ck.1);
            lemma_place_unique(after, a, ck.0, ck.1);
        }
    }
    assert(as_map(after) =~= target);
}

/// A record replaced by one with the same column and key leaves the records
/// sorted and changes one value of the map.
pub proof fn lemma_update_record(recs: Seq<RecordView>, p: int, r: RecordView)
    requires
        sorted(recs),
        0 <= p < recs.len(),
        is_at(recs, p, r.column, r.key),
    ensures
        sorted(recs.update(p, r)),
        as_map(recs.update(p, r)) == as_map(recs).insert((r.column, r.key), r.value),
{
    let after = recs.update(p, r);
    assert forall|i: int, j: int| 0 <= i < j < after.len() implies sorts_before(
        (#[trigger] after[i]).column,
        after[i].key,
        (#[trigger] after[j]).column,
        after[j].key,
    ) by {
        assert(sorts_before(recs[i].column, recs[i].key, recs[j].column, recs[j].key));
    }
    let target = as_map(recs).insert((r.column, r.key), r.value);
    lemma_place_unique(recs, p, r.column, r.key);
    assert(is_at(after, p, r.column, r.key));
    lemma_place_unique(after, p, r.column, r.key);
    assert forall|ck: (Column, u64)| as_map(after).contains_key(ck) == target.contains_key(
        ck,
    ) by {
        if holds(recs, ck.0, ck.1) {
            let i = place_of(recs, ck.0, ck.1);
            assert(is_at(after, i, ck.0, ck.1));
        }
        if holds(after, ck.0, ck.1) {
            let a = place_of(after, ck.0, ck.1);
            assert(is_at(recs, a, ck.0, ck.1));
        }
    }
    assert forall|ck: (Column, u64)| as_map(after).contains_key(ck) implies as_map(after)[ck]
        == target[ck] by {
        if ck != (r.column, r.key) {
            let a = place_of(after, ck.0, ck.1);
            assert(is_at(after, a, ck.0, ck.1));
            assert(is_at(recs, a, ck.0, ck.1));
            lemma_place_unique(recs, a, ck.0, ck.1);
            lemma_place_unique(after, a, ck.0, ck.1);
        }
    }
    assert(as_map(after) =~= target);
}

/// A record taken out leaves the records sorted and takes one pair from the
/// map.
pub proof fn lemma_remove_record(recs: Seq<RecordView>, p: int)
    requires
        sorted(recs),
        0 <= p < recs.len(),
    ensures
        sorted(recs.remove(p)),
        as_map(recs.remove(p)) == as_map(recs).remove((recs[p].column, recs[p].key)),
{
    let after = recs.remove(p);
    let gone = (recs[p].column, recs[p].key);
    assert forall|a: int| 0 <= a < after.len() implies #[trigger] after[a] == recs[if a < p {
        a
    } else {
        a + 1
    }] by {}
    assert forall|i: int, j: int| 0 <= i < j < after.len() implies sorts_before(
        (#[trigger] after[i]).column,
        after[i].key,
        (#[trigger] after[j]).column,
        after[j].key,
    ) by {
        let si = if i < p {
            i
        } else {
            i + 1
        };
        let sj = if j < p {
            j
        } else {
            j + 1
        };
        assert(sorts_before(recs[si].column, recs[si].key, recs[sj].column, recs[sj].key));
    }
    let target = as_map(recs).remove(gone);
    lemma_place_unique(recs, p, gone.0, gone.1);
    assert forall|ck: (Column, u64)| as_map(after).contains_key(ck) == target.contains_key(
        ck,
    ) by {
        if holds(recs, ck.0, ck.1) && ck != gone {
            let i = place_of(recs, ck.0, ck.1);
            let a = if i < p {
                i
            } else {
                i - 1
            };
            assert(is_at(after, a, ck.0, ck.1));
        }
        if holds(after, ck.0, ck.1) {
            let a = place_of(after, ck.0, ck.1);
            let i = if a < p {
                a
            } else {
                a + 1
            };
            assert(is_at(recs, i, ck.0, ck.1));
            lemma_place_unique(recs, i, ck.0, ck.1);
        }
    }
    assert forall|ck: (Column, u64)| as_map(after).contains_key(ck) implies as_map(after)[ck]
        == target[ck] by {
        let a = place_of(after, ck.0, ck.1);
        let i = if a < p {
            a
        } else {
            a + 1
        };
        assert(is_at(recs, i, ck.0, ck.1));
        lemma_place_unique(recs, i, ck.0, ck.1);
    }
    assert(as_map(after) =~= target);
}

/// The length of the value under `column` and `key`, or zero where there is
/// none.
pub open spec fn stored_len(m: StoreMap, column: Column, key: u64) -> nat {
    if m.contains_key((column, key)) {
        m[(column, key)].len()
    } else {
        0
    }
}

/// One write of a batch.
#[derive(Clone, Debug, PartialEq, Eq)]
pub enum KeyValueOp {
    Put { column: Column, key: u64, value: Vec<u8> },
    Delete { column: Column, key: u64 },
}

/// The mathematical value of a [`KeyValueOp`].
pub enum OpView {
    Put { column: Column, key: u64, value: Seq<u8> },
    Delete { column: Column, key: u64 },
}

impl View for KeyValueOp {
    type V = OpView;

    open spec fn view(&self) -> OpView {
        match *self {
            KeyValueOp::Put { column, key, value } => OpView::Put { column, key, value: value@ },
            KeyValueOp::Delete { column, key } => OpView::Delete { column, key },
        }
    }
}

/// The values of a list of writes.
pub open spec fn op_views(ops: Seq<KeyValueOp>) -> Seq<OpView> {
    Seq::new(ops.len(), |i: int| ops[i]@)
}

/// Whether a store that holds `m` in `used` bytes takes the write `op`.
pub open spec fn op_fits(m: StoreMap, used: nat, capacity: u64, op: OpView) -> bool {
    match op {
        OpView::Put { column, key, value } => used - stored_len(m, column, key) + value.len()
            <= capacity,
        OpView::Delete { .. } => true,
    }
}

/// What the store holds after the write `op`.
pub open spec fn map_after(m: StoreMap, op: OpView) -> StoreMap {
    match op {
        OpView::Put { column, key, value } => m.insert((column, key), value),
        OpView::Delete { column, key } => m.remove((column, key)),
    }
}

/// How many bytes are in use after the write `op`.
pub open spec fn used_after(m: StoreMap, used: nat, op: OpView) -> nat {
    match op {
        OpView::Put { column, key, value } => (used - stored_len(m, column, key) + value.len()) as nat,
        OpView::Delete { column, key } => (used - stored_len(m, column, key)) as nat,
    }
}

/// What a store that holds `m` in `used` bytes holds after the writes `ops`,
/// made in order, and in how many bytes; nothing where one of them is not
/// taken.
pub open spec fn batch_outcome(m: StoreMap, used: nat, capacity: u64, ops: Seq<OpView>) -> Option<
    (StoreMap, nat),
>
    decreases ops.len(),
{
    if ops.len() == 0 {
        Some((m, used))
    } else if !op_fits(m, used, capacity, ops[0]) {
        None
    } else {
        batch_outcome(map_after(m, ops[0]), used_after(m, used, ops[0]), capacity, ops.drop_first())
    }
}

struct Record {
    column: Column,
    key: u64,
    value: Vec<u8>,
}

impl View for Record {
    type V = RecordView;

    closed spec fn view(&self) -> RecordView {
        RecordView { column: self.column, key: self.key, value: self.value@ }
    }
}

/// An ordered key-value store in memory, with a capacity in bytes.
pub struct MemoryStore {
    records: Vec<Record>,
    capacity: u64,
    used: u64,
}

impl View for MemoryStore {
    type V = StoreMap;

    closed spec fn view(&self) -> StoreMap {
        as_map(self.record_views())
    }
}

/// Whether the pair of the first column and key is strictly before the second.
fn precedes(c1: Column, k1: u64, c2: Column, k2: u64) -> (b: bool)
    ensures
        b == sorts_before(c1, k1, c2, k2),
{
    let i1: usize = c1.index();
    let i2: usize = c2.index();
    proof {
        if i1 == i2 {
            crate::column::lemma_index_injective(c1, c2);
        }
    }
    i1 < i2 || (i1 == i2 && k1 < k2)
}

impl MemoryStore {
    closed spec fn record_views(&self) -> Seq<RecordView> {
        Seq::new(self.records@.len(), |i: int| self.records@[i]@)
    }

    /// The invariant of the store: the records are sorted, and the bytes in
    /// use are those of the stored values and within the capacity.
    pub closed spec fn wf(&self) -> bool {
        &&& sorted(self.record_views())
        &&& self.used == bytes_of(self.record_views())
        &&& self.used <= self.capacity
    }

    /// The number of bytes in the stored values.
    pub closed spec fn spec_used(&self) -> nat {
        self.used as nat
    }

    /// The number of bytes that the stored values may take.
    pub closed spec fn spec_capacity(&self) -> u64 {
        self.capacity
    }

    /// An empty store.
    pub fn new(capacity: u64) -> (s: MemoryStore)
        ensures
            s.wf(),
            s@ == Map::<(Column, u64), Seq<u8>>::empty(),
            s.spec_used() == 0,
            s.spec_capacity() == capacity,
    {
        let s = MemoryStore { records: Vec::new(), capacity, used: 0 };
        assert(s@ =~= Map::<(Column, u64), Seq<u8>>::empty());
        s
    }

    /// The number of bytes in the stored values.
    pub fn used_bytes(&self) -> (n: u64)
        requires
            self.wf(),
        ensures
            n == self.spec_used(),
            n <= self.spec_capacity(),
    {
        self.used
    }

    /// The number of bytes that the stored values may take.
    pub fn capacity(&self) -> (n: u64)
        ensures
            n == self.spec_capacity(),
    {
        self.capacity
    }

    /// The first position whose record does not sort before `column` and
    /// `key`, found by bisection.
    fn lower_bound(&self, column: Column, key: u64) -> (p: usize)
        requires
            self.wf(),
        ensures
            p <= self.records@.len(),
            forall|j: int|
                0 <= j < p ==> sorts_before(
                    (#[trigger] self.record_views()[j]).column,
                    self.record_views()[j].key,
                    column,
                    key,
                ),
            forall|j: int|
                p <= j < self.records@.len() ==> !sorts_before(
                    (#[trigger] self.record_views()[j]).column,
                    self.record_views()[j].key,
                    column,
                    key,
                ),
    {
        let ghost recs = self.record_views();
        let mut lo: usize = 0;
        let mut hi: usize = self.records.len();
        while lo < hi
            invariant
                self.wf(),
                recs == self.record_views(),
                lo <= hi <= self.records@.len(),
                forall|j: int|
                    0 <= j < lo ==> sorts_before(
                        (#[trigger] recs[j]).column,
                        recs[j].key,
                        column,
                        key,
                    ),
                forall|j: int|
                    hi <= j < recs.len() ==> !sorts_before(
                        (#[trigger] recs[j]).column,
                        recs[j].key,
                        column,
                        key,
                    ),
            decreases hi - lo,
        {
            let mid: usize = lo + (hi - lo) / 2;
            let r = &self.records[mid];
            assert(recs[mid as int] == r@);
            if precedes(r.column, r.key, column, key) {
                assert forall|j: int| 0 <= j < mid + 1 implies sorts_before(
                    (#[trigger] recs[j]).column,
                    recs[j].key,
                    column,
                    key,
                ) by {
                    if j < mid {
                        assert(sorts_before(
                            recs[j].column,
                            recs[j].key,
                            recs[mid as int].column,
                            recs[mid as int].key,
                        ));
                    }
                }
                lo = mid + 1;
            } else {
                assert forall|j: int| mid <= j < recs.len() implies !sorts_before(
                    (#[trigger] recs[j]).column,
                    recs[j].key,
                    column,
                    key,
                ) by {
                    if mid < j {
                        assert(sorts_before(
                            recs[mid as int].column,
                            recs[mid as int].key,
                            recs[j].column,
                            recs[j].key,
                        ));
                    }
                }
                hi = mid;
            }
        }
        lo
    }

    /// The position of the record under `column` and `key`, or the position
    /// where such a record would stand.
    fn locate(&self, column: Column, key: u64) -> (r: (usize, bool))
        requires
            self.wf(),
        ensures
            r.0 <= self.records@.len(),
            r.1 == self@.contains_key((column, key)),
            r.1 ==> r.0 < self.records@.len() && is_at(
                self.record_views(),
                r.0 as int,
                column,
                key,
            ),
            forall|j: int|
                0 <= j < r.0 ==> sorts_before(
                    (#[trigger] self.record_views()[j]).column,
                    self.record_views()[j].key,
                    column,
                    key,
                ),
            forall|j: int|
                r.0 <= j < self.records@.len() ==> !sorts_before(
                    (#[trigger] self.record_views()[j]).column,
                    self.record_views()[j].key,
                    column,
                    key,
                ),
            !r.1 ==> forall|j: int|
                r.0 <= j < self.records@.len() ==> sorts_before(
                    column,
                    key,
                    (#[trigger] self.record_views()[j]).column,
                    self.record_views()[j].key,
                ),
    {
        let ghost recs = self.record_views();
        let p: usize = self.lower_bound(column, key);
        let found: bool = p < self.records.len() && self.records[p].column == column
            && self.records[p].key == key;
        proof {
            if found {
                assert(recs[p as int] == self.records@[p as int]@);
                lemma_place_unique(recs, p as int, column, key);
            } else {
                if holds(recs, column, key) {
                    let i = place_of(recs, column, key);
                    assert(is_at(recs, i, column, key));
                    if i < p {
                        assert(sorts_before(recs[i].column, recs[i].key, column, key));
                    } else if i > p {
                        assert(sorts_before(
                            recs[p as int].column,
                            recs[p as int].key,
                            recs[i].column,
                            recs[i].key,
                        ));
                        assert(!sorts_before(recs[p as int].column, recs[p as int].key, column, key));
                    } else {
                        assert(recs[p as int] == self.records@[p as int]@);
                    }
                }
                assert forall|j: int| p <= j < self.records@.len() implies sorts_before(
                    column,
                    key,
                    (#[trigger] recs[j]).column,
                    recs[j].key,
                ) by {
                    assert(!sorts_before(recs[j].column, recs[j].key, column, key));
                    if recs[j].column == column && recs[j].key == key {
                        assert(is_at(recs, j, column, key));
                        lemma_place_unique(recs, j, column, key);
                    }
                    if recs[j].column.spec_index() == column.spec_index() {
                        crate::column::lemma_index_injective(recs[j].column, column);
                    }
                }
            }
        }
        (p, found)
    }

    /// Whether a value is stored under `column` and `key`.
    pub fn key_exists(&self, column: Column, key: u64) -> (b: bool)
        requires
            self.wf(),
        ensures
            b == self@.contains_key((column, key)),
    {
        self.locate(column, key).1
    }

    /// A copy of the value under `column` and `key`.
    pub fn get(&self, column: Column, key: u64) -> (r: Option<Vec<u8>>)
        requires
            self.wf(),
        ensures
            r is Some <==> self@.contains_key((column, key)),
            r is Some ==> r.unwrap()@ == self@[(column, key)],
    {
        let (p, found) = self.locate(column, key);
        if found {
            let value = &self.records[p].value;
            proof {
                assert(self.record_views()[p as int] == self.records@[p as int]@);
                lemma_place_unique(self.record_views(), p as int, column, key);
            }
            Some(copy_range(value.as_slice(), 0, value.len()))
        } else {
            None
        }
    }

    /// The greatest stored key of `column` that is at most `key`.
    pub fn floor_key(&self, column: Column, key: u64) -> (r: Option<u64>)
        requires
            self.wf(),
        ensures
            r == floor_of(self@, column, key),
    {
        let ghost recs = self.record_views();
        let (p, found) = self.locate(column, key);
        if found {
            proof {
                assert(is_floor(self@, column, key, key));
                lemma_floor_unique(self@, column, key, key);
            }
            return Some(key);
        }
        proof {
            // every stored key of the column that is at most `key` stands before `p`
            assert forall|k: u64| #[trigger]
                self@.contains_key((column, k)) && k <= key implies place_of(recs, column, k) < p by {
                let i = place_of(recs, column, k);
                assert(is_at(recs, i, column, k));
                if i >= p {
                    assert(sorts_before(column, key, recs[i].column, recs[i].key));
                }
            }
        }
        if p > 0 && self.records[p - 1].column == column {
            let f: u64 = self.records[p - 1].key;
            proof {
                assert(recs[p - 1] == self.records@[p - 1]@);
                assert(is_at(recs, p - 1, column, f));
                lemma_place_unique(recs, p - 1, column, f);
                assert(sorts_before(recs[p - 1].column, recs[p - 1].key, column, key));
                assert forall|k: u64| #[trigger]
                    self@.contains_key((column, k)) && k <= key implies k <= f by {
                    let i = place_of(recs, column, k);
                    assert(is_at(recs, i, column, k));
                    if i < p - 1 {
                        assert(sorts_before(
                            recs[i].column,
                            recs[i].key,
                            recs[p - 1].column,
                            recs[p - 1].key,
                        ));
                    }
                }
                assert(is_floor(self@, column, key, f));
                lemma_floor_unique(self@, column, key, f);
            }
            Some(f)
        } else {
            proof {
                assert forall|f: u64| !is_floor(self@, column, key, f) by {
                    if self@.contains_key((column, f)) && f <= key {
                        let i = place_of(recs, column, f);
                        assert(is_at(recs, i, column, f));
                        assert(i < p);
                        assert(recs[p - 1] == self.records@[p - 1]@);
                        assert(sorts_before(recs[p - 1].column, recs[p - 1].key, column, key));
                        if i < p - 1 {
                            assert(sorts_before(
                                recs[i].column,
                                recs[i].key,
                                recs[p - 1].column,
                                recs[p - 1].key,
                            ));
                        }
                        crate::column::lemma_index_injective(recs[p - 1].column, column);
                    }
                }
            }
            None
        }
    }

    /// The least stored key of `column` that is at least `key`.
    pub fn ceiling_key(&self, column: Column, key: u64) -> (r: Option<u64>)
        requires
            self.wf(),
        ensures
            r == ceiling_of(self@, column, key),
    {
        let ghost recs = self.record_views();
        let p: usize = self.lower_bound(column, key);
        proof {
            // every stored key of the column that is at least `key` stands at `p` or after
            assert forall|k: u64| #[trigger]
                self@.contains_key((column, k)) && k >= key implies place_of(recs, column, k) >= p by {
                let i = place_of(recs, column, k);
                assert(is_at(recs, i, column, k));
                if i < p {
                    assert(sorts_before(recs[i].column, recs[i].key, column, key));
                }
            }
        }
        if p < self.records.len() && self.records[p].column == column {
            let c: u64 = self.records[p].key;
            proof {
                assert(recs[p as int] == self.records@[p as int]@);
                assert(is_at(recs, p as int, column, c));
                lemma_place_unique(recs, p as int, column, c);
                assert(!sorts_before(recs[p as int].column, recs[p as int].key, column, key));
                assert forall|k: u64| #[trigger]
                    self@.contains_key((column, k)) && k >= key implies k >= c by {
                    let i = place_of(recs, column, k);
                    assert(is_at(recs, i, column, k));
                    if i > p {
                        assert(sorts_before(
                            recs[p as int].column,
                            recs[p as int].key,
                            recs[i].column,
                            recs[i].key,
                        ));
                    }
                }
                assert(is_ceiling(self@, column, key, c));
                lemma_ceiling_unique(self@, column, key, c);
            }
            Some(c)
        } else {
            proof {
                assert forall|c: u64| !is_ceiling(self@, column, key, c) by {
                    if self@.contains_key((column, c)) && c >= key {
                        let i = place_of(recs, column, c);
                        assert(is_at(recs, i, column, c));
                        assert(i >= p);
                        assert(recs[p as int] == self.records@[p as int]@);
                        assert(!sorts_before(recs[p as int].column, recs[p as int].key, column, key));
                        if i > p {
                            assert(sorts_before(
                                recs[p as int].column,
                                recs[p as int].key,
                                recs[i].column,
                                recs[i].key,
                            ));
                        }
                        crate::column::lemma_index_injective(recs[p as int].column, column);
                    }
                }
            }
            None
        }
    }

    /// Stores `value` under `column` and `key`, in place of what was there.
    ///
    /// The write is refused, and nothing changes, where the stored values
    /// would then take more bytes than the capacity.
    pub fn put(&mut self, column: Column, key: u64, value: Vec<u8>) -> (r: Result<(), StoreError>)
        requires
            old(self).wf(),
        ensures
            final(self).wf(),
            final(self).spec_capacity() == old(self).spec_capacity(),
            r is Ok <==> old(self).spec_used() - stored_len(old(self)@, column, key) + value@.len()
                <= old(self).spec_capacity(),
            r is Ok ==> final(self)@ == old(self)@.insert((column, key), value@)
                && final(self).spec_used() == old(self).spec_used() - stored_len(
                old(self)@,
                column,
                key,
            ) + value@.len(),
            r is Err ==> r == Err::<(), StoreError>(StoreError::StorageError) && final(self)@ == old(
                self,
            )@ && final(self).spec_used() == old(self).spec_used(),
    {
        let ghost recs = self.record_views();
        let (p, found) = self.locate(column, key);
        let n: usize = value.len();
        let ghost rv = RecordView { column, key, value: value@ };
        if found {
            let prev: usize = self.records[p].value.len();
            proof {
                assert(recs[p as int] == self.records@[p as int]@);
                lemma_place_unique(recs, p as int, column, key);
                lemma_bytes_update(recs, p as int, rv);
                lemma_bytes_remove(recs, p as int);
                lemma_update_record(recs, p as int, rv);
            }
            let base: u64 = self.used - prev as u64;
            if n as u64 > self.capacity - base {
                return Err(StoreError::StorageError);
            }
            self.records[p] = Record { column, key, value };
            self.used = base + n as u64;
            proof {
                assert(self.record_views() =~= recs.update(p as int, rv));
            }
            Ok(())
        } else {
            proof {
                lemma_bytes_insert(recs, p as int, rv);
                lemma_insert_record(recs, p as int, rv);
            }
            if n as u64 > self.capacity - self.used {
                return Err(StoreError::StorageError);
            }
            self.records.insert(p, Record { column, key, value });
            self.used = self.used + n as u64;
            proof {
                assert(self.record_views() =~= recs.insert(p as int, rv));
            }
            Ok(())
        }
    }

    /// Removes the value under `column` and `key`, if there is one.
    pub fn delete(&mut self, column: Column, key: u64)
        requires
            old(self).wf(),
        ensures
            final(self).wf(),
            final(self).spec_capacity() == old(self).spec_capacity(),
            final(self)@ == old(self)@.remove((column, key)),
            final(self).spec_used() == old(self).spec_used() - stored_len(old(self)@, column, key),
    {
        let ghost recs = self.record_views();
        let (p, found) = self.locate(column, key);
        if found {
            proof {
                assert(recs[p as int] == self.records@[p as int]@);
                lemma_place_unique(recs, p as int, column, key);
                lemma_bytes_remove(recs, p as int);
                lemma_remove_record(recs, p as int);
            }
            let gone = self.records.remove(p);
            self.used = self.used - gone.value.len() as u64;
            proof {
                assert(self.record_views() =~= recs.remove(p as int));
            }
        } else {
            assert(self@ =~= old(self)@.remove((column, key)));
        }
    }

    fn copy_records(&self) -> (out: Vec<Record>)
        ensures
            Seq::new(out@.len(), |i: int| out@[i]@) == self.record_views(),
    {
        let mut out: Vec<Record> = Vec::new();
        let mut i: usize = 0;
        while i < self.records.len()
            invariant
                i <= self.records@.len(),
                out@.len() == i,
                forall|j: int| 0 <= j < i ==> (#[trigger] out@[j])@ == self.records@[j]@,
            decreases self.records@.len() - i,
        {
            let r = &self.records[i];
            let copy = Record {
                column: r.column,
                key: r.key,
                value: copy_range(r.value.as_slice(), 0, r.value.len()),
            };
            assert(copy@.value =~= r@.value);
            assert(copy@ == r@);
            out.push(copy);
            i += 1;
        }
        assert(Seq::new(out@.len(), |i: int| out@[i]@) =~= self.record_views());
        out
    }

    /// Makes the writes `ops` in order, as one unit: either every one of them
    /// is taken, or the store is as it was.
    pub fn write_batch(&mut self, ops: &Vec<KeyValueOp>) -> (r: Result<(), StoreError>)
        requires
            old(self).wf(),
        ensures
            final(self).wf(),
            final(self).spec_capacity() == old(self).spec_capacity(),
            match batch_outcome(
                old(self)@,
                old(self).spec_used(),
                old(self).spec_capacity(),
                op_views(ops@),
            ) {
                Some((m, used)) => r is Ok && final(self)@ == m && final(self).spec_used() == used,
                None => r == Err::<(), StoreError>(StoreError::StorageError) && final(self)@ == old(
                    self,
                )@ && final(self).spec_used() == old(self).spec_used(),
            },
    {
        let backup = self.copy_records();
        let backup_used: u64 = self.used;
        let ghost all = op_views(ops@);
        let ghost capacity = self.spec_capacity();
        let mut k: usize = 0;
        proof {
            assert(all.skip(0) =~= all);
        }
        while k < ops.len()
            invariant
                self.wf(),
                k <= ops@.len(),
                all == op_views(ops@),
                capacity == self.spec_capacity(),
                capacity == old(self).spec_capacity(),
                old(self).wf(),
                backup_used == old(self).used,
                Seq::new(backup@.len(), |i: int| backup@[i]@) == old(self).record_views(),
                batch_outcome(old(self)@, old(self).spec_used(), capacity, all) == batch_outcome(
                    self@,
                    self.spec_used(),
                    capacity,
                    all.skip(k as int),
                ),
            decreases ops@.len() - k,
        {
            let ghost rest = all.skip(k as int);
            proof {
                assert(rest[0] == ops@[k as int]@);
                assert(rest.drop_first() =~= all.skip(k + 1));
                lemma_batch_unfold(self@, self.spec_used(), capacity, rest);
            }
            match &ops[k] {
                KeyValueOp::Put { column, key, value } => {
                    let copy = copy_range(value.as_slice(), 0, value.len());
                    assert(copy@ =~= value@);
                    let taken = self.put(*column, *key, copy);
                    if taken.is_err() {
                        self.records = backup;
                        self.used = backup_used;
                        proof {
                            assert(self.record_views() =~= old(self).record_views());
                        }
                        return Err(StoreError::StorageError);
                    }
                },
                KeyValueOp::Delete { column, key } => {
                    self.delete(*column, *key);
                },
            }
            k += 1;
        }
        proof {
            assert(all.skip(k as int).len() == 0);
        }
        Ok(())
    }
}

/// A batch is a unit: where it is not taken as a whole, the outcome is
/// nothing, whatever its first writes were; where it is, the outcome of the
/// whole is the outcome of the rest after the first write.
pub proof fn lemma_batch_unfold(m: StoreMap, used: nat, capacity: u64, ops: Seq<OpView>)
    requires
        ops.len() > 0,
    ensures
        batch_outcome(m, used, capacity, ops) == (if op_fits(m, used, capacity, ops[0]) {
            batch_outcome(
                map_after(m, ops[0]),
                used_after(m, used, ops[0]),
                capacity,
                ops.drop_first(),
            )
        } else {
            None
        }),
{
}

/// What the store holds after the writes `ops`, made in order, where each is
/// taken.
pub open spec fn map_after_all(m: StoreMap, ops: Seq<OpView>) -> StoreMap
    decreases ops.len(),
{
    if ops.len() == 0 {
        m
    } else {
        map_after_all(map_after(m, ops[0]), ops.drop_first())
    }
}

/// A batch that is taken leaves what its writes, made in order, leave.
pub proof fn lemma_batch_map(m: StoreMap, used: nat, capacity: u64, ops: Seq<OpView>)
    ensures
        batch_outcome(m, used, capacity, ops) is Some ==> batch_outcome(
            m,
            used,
            capacity,
            ops,
        ).unwrap().0 == map_after_all(m, ops),
    decreases ops.len(),
{
    if ops.len() > 0 && op_fits(m, used, capacity, ops[0]) {
        lemma_batch_map(map_after(m, ops[0]), used_after(m, used, ops[0]), capacity, ops.drop_first());
    }
}

/// What two writes leave.
pub proof fn lemma_map_after_two(m: StoreMap, a: OpView, b: OpView)
    ensures
        map_after_all(m, seq![a, b]) == map_after(map_after(m, a), b),
{
    let ops = seq![a, b];
    let rest = ops.drop_first();
    assert(rest[0] == b);
    assert(rest.drop_first().len() == 0);
    assert(map_after_all(map_after(m, a), rest) == map_after_all(
        map_after(map_after(m, a), b),
        rest.drop_first(),
    ));
}

/// What three writes leave.
pub proof fn lemma_map_after_three(m: StoreMap, a: OpView, b: OpView, c: OpView)
    ensures
        map_after_all(m, seq![a, b, c]) == map_after(map_after(map_after(m, a), b), c),
{
    let ops = seq![a, b, c];
    let rest = ops.drop_first();
    assert(rest =~= seq![b, c]);
    lemma_map_after_two(map_after(m, a), b, c);
}

} // verus!
