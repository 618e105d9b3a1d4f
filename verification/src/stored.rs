//! Values that are kept in a column as bytes and, decoded, in a cache.
//!
//! A cache is coherent with a column where every entry of the cache is the
//! decoded form of what the column holds under the same key. Reads and writes
//! that go through both keep them so, and a read then returns the same value
//! whether the cache had it or not.

use vstd::prelude::*;
use crate::cache::{
    CacheValue, LruCache, EntryView, all_entries, has_key, touched, inserted, without,
    lemma_all_entries_kept, lemma_all_entries_inserted, lemma_remove_keeps_distinct, position_of,
};
use crate::codec::{compress, decompress, framed, unframed};
use crate::column::Column;
use crate::column_store::{ColumnStore, counted_read, counted_write, read_len};
use crate::diff_format::{diff_bytes, diff_of_bytes};
use crate::error::StoreError;
use crate::hdiff::{HDiffBuffer, HDiffView};
use crate::kv::{StoreMap, stored_len};
use crate::metrics::MetricsRegistry;
use crate::types::{
    BeaconState, Block, SidecarList, StateView, BlockView, state_bytes, state_of, block_bytes,
    block_of, lemma_state_round_trip, lemma_block_round_trip,
};
use crate::wire::copy_bytes;

verus! {

/// A value with a stored form.
pub trait Stored: CacheValue {
    /// The bytes that a value is stored as.
    spec fn to_bytes(v: Self::V) -> Seq<u8>;

    /// The value that bytes are the stored form of, where they are one.
    spec fn from_bytes(bytes: Seq<u8>) -> Option<Self::V>;

    /// The stored form of the value. Read back, it is the same value.
    fn to_stored(&self) -> (out: Vec<u8>)
        ensures
            out@ == Self::to_bytes(self@),
            Self::from_bytes(out@) == Some(self@),
    ;

    /// The value that `bytes` are the stored form of.

    fn from_stored(bytes: &[u8]) -> (r: Option<Self>)
        ensures
            r is Some <==> Self::from_bytes(bytes@) is Some,
            r is Some ==> r.unwrap()@ == Self::from_bytes(bytes@).unwrap(),
    ;
}

impl Stored for BeaconState {
    open spec fn to_bytes(v: StateView) -> Seq<u8> {
        state_bytes(v)
    }

    open spec fn from_bytes(bytes: Seq<u8>) -> Option<StateView> {
        state_of(bytes)
    }

    fn to_stored(&self) -> (out: Vec<u8>) {
        proof {
            lemma_state_round_trip(self@);
        }
        self.encode()
    }

    fn from_stored(bytes: &[u8]) -> (r: Option<BeaconState>) {
        BeaconState::decode(bytes)
    }
}

impl Stored for Block {
    open spec fn to_bytes(v: BlockView) -> Seq<u8> {
        block_bytes(v)
    }

    open spec fn from_bytes(bytes: Seq<u8>) -> Option<BlockView> {
        block_of(bytes)
    }

    fn to_stored(&self) -> (out: Vec<u8>) {
        proof {
            lemma_block_round_trip(self@);
        }
        self.encode()
    }

    fn from_stored(bytes: &[u8]) -> (r: Option<Block>) {
        Block::decode(bytes)
    }
}

impl Stored for SidecarList {
    open spec fn to_bytes(v: Seq<u8>) -> Seq<u8> {
        v
    }

    open spec fn from_bytes(bytes: Seq<u8>) -> Option<Seq<u8>> {
        Some(bytes)
    }

    fn to_stored(&self) -> (out: Vec<u8>) {
        copy_bytes(self.bytes.as_slice())
    }

    fn from_stored(bytes: &[u8]) -> (r: Option<SidecarList>) {
        Some(SidecarList { bytes: copy_bytes(bytes) })
    }
}

/// The diff that the frame `bytes` holds, where it holds one.
pub open spec fn diff_of_frame(bytes: Seq<u8>) -> Option<HDiffView> {
    match unframed(bytes) {
        Some(raw) => diff_of_bytes(raw),
        None => None,
    }
}

impl Stored for HDiffBuffer {
    open spec fn to_bytes(v: HDiffView) -> Seq<u8> {
        framed(diff_bytes(v))
    }

    open spec fn from_bytes(bytes: Seq<u8>) -> Option<HDiffView> {
        diff_of_frame(bytes)
    }

    fn to_stored(&self) -> (out: Vec<u8>) {
        let raw = self.encode();
        compress(raw.as_slice())
    }

    fn from_stored(bytes: &[u8]) -> (r: Option<HDiffBuffer>) {
        match decompress(bytes) {
            Ok(raw) => HDiffBuffer::decode(raw.as_slice()),
            Err(_) => None,
        }
    }
}

/// Whether `value` is the decoded form of what `m` holds under `column` and
/// `key`.
pub open spec fn backed<V: Stored>(m: StoreMap, column: Column, key: u64, value: V::V) -> bool {
    m.contains_key((column, key)) && V::from_bytes(m[(column, key)]) == Some(value)
}

/// Whether every entry is the decoded form of what `m` holds in `column`
/// under the entry's key.
pub open spec fn coherent<V: Stored>(
    entries: Seq<EntryView<V::V>>,
    m: StoreMap,
    column: Column,
) -> bool {
    all_entries(entries, |key: u64, value: V::V| backed::<V>(m, column, key, value))
}

/// What a read of `column` and `key` yields: the decoded value; `NotFound`
/// where the column holds nothing under the key; `CorruptData` where what it
/// holds is no stored form of a value.
pub open spec fn stored_value<V: Stored>(m: StoreMap, column: Column, key: u64) -> Result<
    V::V,
    StoreError,
> {
    if !m.contains_key((column, key)) {
        Err(StoreError::NotFound)
    } else {
        match V::from_bytes(m[(column, key)]) {
            Some(v) => Ok(v),
            None => Err(StoreError::CorruptData),
        }
    }
}

/// A cache that is coherent with a column stays so while the column stays as
/// it is, whatever else the store takes.
pub proof fn lemma_coherent_frame<V: Stored>(
    entries: Seq<EntryView<V::V>>,
    before: StoreMap,
    after: StoreMap,
    column: Column,
)
    requires
        coherent::<V>(entries, before, column),
        forall|k: u64| #[trigger]
            before.contains_key((column, k)) ==> after.contains_key((column, k)) && after[(
                column,
                k,
            )] == before[(column, k)],
    ensures
        coherent::<V>(entries, after, column),
{
    assert forall|i: int| 0 <= i < entries.len() implies backed::<V>(
        after,
        column,
        (#[trigger] entries[i]).key,
        entries[i].value,
    ) by {
        assert(backed::<V>(before, column, entries[i].key, entries[i].value));
        assert(before.contains_key((column, entries[i].key)));
    }
}

/// A cache without an entry for a key is coherent with a column whatever the
/// column holds under that key.
pub proof fn lemma_coherent_except<V: Stored>(
    entries: Seq<EntryView<V::V>>,
    before: StoreMap,
    after: StoreMap,
    column: Column,
    key: u64,
)
    requires
        coherent::<V>(entries, before, column),
        !has_key(entries, key),
        forall|k: u64|
            k != key && #[trigger] before.contains_key((column, k)) ==> after.contains_key(
                (column, k),
            ) && after[(column, k)] == before[(column, k)],
    ensures
        coherent::<V>(entries, after, column),
{
    assert forall|i: int| 0 <= i < entries.len() implies backed::<V>(
        after,
        column,
        (#[trigger] entries[i]).key,
        entries[i].value,
    ) by {
        assert(backed::<V>(before, column, entries[i].key, entries[i].value));
        assert(before.contains_key((column, entries[i].key)));
    }
}

/// A cache that is coherent with a column is coherent with it again after a
/// value was written under a key and inserted under the same key.
pub proof fn lemma_coherent_inserted<V: Stored>(
    entries: Seq<EntryView<V::V>>,
    before: StoreMap,
    after: StoreMap,
    column: Column,
    key: u64,
    value: V::V,
    size: u64,
    max_items: nat,
    max_bytes: u64,
)
    requires
        coherent::<V>(entries, before, column),
        crate::cache::distinct_keys(entries),
        forall|k: u64|
            k != key && #[trigger] before.contains_key((column, k)) ==> after.contains_key(
                (column, k),
            ) && after[(column, k)] == before[(column, k)],
        backed::<V>(after, column, key, value),
    ensures
        coherent::<V>(inserted(entries, key, value, size, max_items, max_bytes), after, column),
{
    let p = |k: u64, v: V::V| backed::<V>(after, column, k, v);
    let rest = without(entries, key);
    lemma_all_entries_kept(
        entries,
        |k: u64, v: V::V| backed::<V>(before, column, k, v),
        key,
        0,
        0,
        0,
    );
    if has_key(entries, key) {
        lemma_remove_keeps_distinct(entries, position_of(entries, key));
    }
    assert(!has_key(rest, key));
    lemma_coherent_except::<V>(rest, before, after, column, key);
    assert(p(key, value));
    lemma_all_entries_inserted(rest, p, key, value, size, max_items, max_bytes);
    assert(without(rest, key) == rest);
    assert(inserted(rest, key, value, size, max_items, max_bytes) == inserted(
        entries,
        key,
        value,
        size,
        max_items,
        max_bytes,
    ));
}

/// The entries of a cache after a read of `key` went through it: the entry
/// of the key has become the most recent where there was one; else the value
/// read from the store has been inserted, where one was read.
pub open spec fn entries_after_read<V: Stored>(
    entries: Seq<EntryView<V::V>>,
    m: StoreMap,
    column: Column,
    key: u64,
    max_items: nat,
    max_bytes: u64,
) -> Seq<EntryView<V::V>> {
    if has_key(entries, key) {
        touched(entries, key)
    } else {
        match stored_value::<V>(m, column, key) {
            Ok(v) => inserted(entries, key, v, V::spec_byte_size(v), max_items, max_bytes),
            Err(e) => entries,
        }
    }
}

/// Reads the value under `column` and `key`, from the cache where the cache
/// has it and else from the store, which then fills the cache.
///
/// The value is the same either way. The flag says whether the cache had it.
/// Only a read that goes to the store is counted there.
pub fn read_through<V: Stored>(
    cache: &mut LruCache<V>,
    store: &ColumnStore,
    metrics: &mut MetricsRegistry,
    column: Column,
    key: u64,
) -> (r: (Result<V, StoreError>, bool))
    requires
        old(cache).wf(),
        store.wf(),
        coherent::<V>(old(cache)@.entries, store@, column),
    ensures
        final(cache).wf(),
        coherent::<V>(final(cache)@.entries, store@, column),
        final(cache)@.max_items == old(cache)@.max_items,
        final(cache)@.max_bytes == old(cache)@.max_bytes,
        r.1 == has_key(old(cache)@.entries, key),
        match stored_value::<V>(store@, column, key) {
            Ok(v) => r.0 is Ok && r.0.unwrap()@ == v,
            Err(e) => r.0 == Err::<V, StoreError>(e),
        },
        final(cache)@.entries == entries_after_read::<V>(
            old(cache)@.entries,
            store@,
            column,
            key,
            old(cache)@.max_items,
            old(cache)@.max_bytes,
        ),
        final(metrics)@ == (if r.1 {
            old(metrics)@
        } else {
            counted_read(old(metrics)@, column, read_len(store@, column, key))
        }),
        final(metrics)@.not_below(old(metrics)@),
{
    let ghost p = |k: u64, v: V::V| backed::<V>(store@, column, k, v);
    let ghost entries = cache@.entries;
    proof {
        lemma_all_entries_kept(entries, p, key, 0, 0, 0);
    }
    match cache.get(key) {
        Some(v) => {
            proof {
                assert(p(key, v@));
            }
            (Ok(v), true)
        },
        None => {
            assert(cache@.entries == entries);
            match store.get(metrics, column, key) {
                None => (Err(StoreError::NotFound), false),
                Some(bytes) => match V::from_stored(bytes.as_slice()) {
                    None => (Err(StoreError::CorruptData), false),
                    Some(v) => {
                        let copy = v.duplicate();
                        proof {
                            assert(p(key, v@));
                            lemma_all_entries_inserted(
                                entries,
                                p,
                                key,
                                v@,
                                V::spec_byte_size(v@),
                                cache@.max_items,
                                cache@.max_bytes,
                            );
                        }
                        cache.put(key, v);
                        (Ok(copy), false)
                    },
                },
            }
        },
    }
}

/// Writes `value` under `column` and `key` to the store and then to the
/// cache. Where the store refuses the write, neither changes.
pub fn write_through<V: Stored>(
    cache: &mut LruCache<V>,
    store: &mut ColumnStore,
    metrics: &mut MetricsRegistry,
    column: Column,
    key: u64,
    value: V,
) -> (r: Result<(), StoreError>)
    requires
        old(cache).wf(),
        old(store).wf(),
        coherent::<V>(old(cache)@.entries, old(store)@, column),
    ensures
        final(cache).wf(),
        final(store).wf(),
        coherent::<V>(final(cache)@.entries, final(store)@, column),
        final(cache)@.max_items == old(cache)@.max_items,
        final(cache)@.max_bytes == old(cache)@.max_bytes,
        final(cache)@.hits == old(cache)@.hits,
        final(cache)@.misses == old(cache)@.misses,
        final(store).spec_capacity() == old(store).spec_capacity(),
        r is Ok <==> old(store).spec_used() - stored_len(old(store)@, column, key) + V::to_bytes(
            value@,
        ).len() <= old(store).spec_capacity(),
        r is Ok ==> {
            &&& final(store)@ == old(store)@.insert((column, key), V::to_bytes(value@))
            &&& final(store).spec_used() == old(store).spec_used() - stored_len(
                old(store)@,
                column,
                key,
            ) + V::to_bytes(value@).len()
            &&& final(cache)@.entries == inserted(
                old(cache)@.entries,
                key,
                value@,
                V::spec_byte_size(value@),
                old(cache)@.max_items,
                old(cache)@.max_bytes,
            )
        },
        r is Err ==> {
            &&& r == Err::<(), StoreError>(StoreError::StorageError)
            &&& final(store)@ == old(store)@
            &&& final(store).spec_used() == old(store).spec_used()
            &&& final(cache)@.entries == old(cache)@.entries
        },
        final(metrics)@ == counted_write(old(metrics)@, column, V::to_bytes(value@).len()),
        final(metrics)@.not_below(old(metrics)@),
{
    let ghost entries = cache@.entries;
    let ghost before = store@;
    let bytes = value.to_stored();
    match store.put(metrics, column, key, bytes) {
        Err(e) => Err(e),
        Ok(()) => {
            let ghost after = store@;
            proof {
                cache.lemma_wf();
                lemma_coherent_inserted::<V>(
                    entries,
                    before,
                    after,
                    column,
                    key,
                    value@,
                    V::spec_byte_size(value@),
                    cache@.max_items,
                    cache@.max_bytes,
                );
            }
            cache.put(key, value);
            Ok(())
        },
    }
}

} // verus!
