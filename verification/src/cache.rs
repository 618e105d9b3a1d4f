//! A bounded cache that evicts what was used least recently.
//!
//! A cache keeps its entries in the order of their last use, the least
//! recently used first. It is bounded twice: by a number of entries and by a
//! budget of bytes, and an insertion evicts from the front until both bounds
//! hold with the new entry in place.

use vstd::prelude::*;
use crate::metrics::{saturating_sum, add_saturating};

verus! {

/// What a cache can hold: a value that knows its size in bytes and can be
/// copied.
pub trait CacheValue: View + Sized {
    /// The size in bytes that a value is accounted with.
    spec fn spec_byte_size(v: Self::V) -> u64;

    fn byte_size(&self) -> (n: u64)
        ensures
            n == Self::spec_byte_size(self@),
    ;

    fn duplicate(&self) -> (c: Self)
        ensures
            c@ == self@,
    ;
}

/// One entry of a cache.
pub struct EntryView<M> {
    pub key: u64,
    pub value: M,
    pub size: u64,
}

/// The sum of the sizes of `entries`.
pub open spec fn total_size<M>(entries: Seq<EntryView<M>>) -> nat
    decreases entries.len(),
{
    if entries.len() == 0 {
        0
    } else {
        total_size(entries.drop_last()) + entries.last().size as nat
    }
}

/// Whether one of `entries` has the key `key`.
pub open spec fn has_key<M>(entries: Seq<EntryView<M>>, key: u64) -> bool {
    exists|i: int| 0 <= i < entries.len() && (#[trigger] entries[i]).key == key
}

/// The position of the entry with the key `key`.
pub open spec fn position_of<M>(entries: Seq<EntryView<M>>, key: u64) -> int {
    choose|i: int| 0 <= i < entries.len() && (#[trigger] entries[i]).key == key
}

/// Whether no two of `entries` have the same key.
pub open spec fn distinct_keys<M>(entries: Seq<EntryView<M>>) -> bool {
    forall|i: int, j: int|
        0 <= i < entries.len() && 0 <= j < entries.len() && i != j ==> (#[trigger] entries[i]).key
            != (#[trigger] entries[j]).key
}

/// The value stored under `key`, if there is one.
pub open spec fn lookup<M>(entries: Seq<EntryView<M>>, key: u64) -> Option<M> {
    if has_key(entries, key) {
        Some(entries[position_of(entries, key)].value)
    } else {
        None
    }
}

/// `entries` without the entry of `key`.
pub open spec fn without<M>(entries: Seq<EntryView<M>>, key: u64) -> Seq<EntryView<M>> {
    if has_key(entries, key) {
        entries.remove(position_of(entries, key))
    } else {
        entries
    }
}

/// `entries` after `key` was used: its entry, if there is one, has moved to
/// the end, and the others have kept their order.
pub open spec fn touched<M>(entries: Seq<EntryView<M>>, key: u64) -> Seq<EntryView<M>> {
    if has_key(entries, key) {
        entries.remove(position_of(entries, key)).push(entries[position_of(entries, key)])
    } else {
        entries
    }
}

/// Whether an entry of `size` bytes can join `entries` within the bounds.
pub open spec fn has_room<M>(
    entries: Seq<EntryView<M>>,
    size: u64,
    max_items: nat,
    max_bytes: u64,
) -> bool {
    entries.len() + 1 <= max_items && total_size(entries) + size <= max_bytes
}

/// `entries` after evicting from the front, one entry at a time, until an
/// entry of `size` bytes has room.
pub open spec fn evicted_for<M>(
    entries: Seq<EntryView<M>>,
    size: u64,
    max_items: nat,
    max_bytes: u64,
) -> Seq<EntryView<M>>
    decreases entries.len(),
{
    if entries.len() == 0 || has_room(entries, size, max_items, max_bytes) {
        entries
    } else {
        evicted_for(entries.drop_first(), size, max_items, max_bytes)
    }
}

/// `entries` after an insertion of `value` under `key`.
///
/// An earlier entry of `key` leaves first. A value that alone exceeds the
/// bounds is not taken in, and evicts nothing. Otherwise the least recently
/// used entries leave until the new one has room, and it joins at the end.
pub open spec fn inserted<M>(
    entries: Seq<EntryView<M>>,
    key: u64,
    value: M,
    size: u64,
    max_items: nat,
    max_bytes: u64,
) -> Seq<EntryView<M>> {
    let rest = without(entries, key);
    if max_items == 0 || size > max_bytes {
        rest
    } else {
        evicted_for(rest, size, max_items, max_bytes).push(EntryView { key, value, size })
    }
}

/// Adding an entry adds its size.
pub proof fn lemma_total_push<M>(entries: Seq<EntryView<M>>, e: EntryView<M>)
    ensures
        total_size(entries.push(e)) == total_size(entries) + e.size,
{
    assert(entries.push(e).drop_last() =~= entries);
}

/// Removing an entry takes its size away.
pub proof fn lemma_total_remove<M>(entries: Seq<EntryView<M>>, i: int)
    requires
        0 <= i < entries.len(),
    ensures
        total_size(entries.remove(i)) + entries[i].size == total_size(entries),
    decreases entries.len(),
{
    if i == entries.len() - 1 {
        assert(entries.remove(i) =~= entries.drop_last());
    } else {
        lemma_total_remove(entries.drop_last(), i);
        assert(entries.remove(i).drop_last() =~= entries.drop_last().remove(i));
    }
}

/// Among distinct keys, the entry of a key stands where the key is found.
pub proof fn lemma_position<M>(entries: Seq<EntryView<M>>, i: int)
    requires
        distinct_keys(entries),
        0 <= i < entries.len(),
    ensures
        has_key(entries, entries[i].key),
        position_of(entries, entries[i].key) == i,
{
}

/// Removing an entry keeps the keys distinct and takes the entry's key away.
pub proof fn lemma_remove_keeps_distinct<M>(entries: Seq<EntryView<M>>, i: int)
    requires
        distinct_keys(entries),
        0 <= i < entries.len(),
    ensures
        distinct_keys(entries.remove(i)),
        !has_key(entries.remove(i), entries[i].key),
        forall|k: u64| k != entries[i].key ==> has_key(entries.remove(i), k) == has_key(entries, k),
{
    let after = entries.remove(i);
    assert forall|a: int| 0 <= a < after.len() implies #[trigger] after[a] == entries[if a < i {
        a
    } else {
        a + 1
    }] by {}
    assert forall|k: u64| k != entries[i].key && has_key(entries, k) implies has_key(after, k) by {
        let j = position_of(entries, k);
        let a = if j < i {
            j
        } else {
            j - 1
        };
        assert(after[a].key == k);
    }
}

/// Adding an entry under a key that is not there keeps the keys distinct.
pub proof fn lemma_push_keeps_distinct<M>(entries: Seq<EntryView<M>>, e: EntryView<M>)
    requires
        distinct_keys(entries),
        !has_key(entries, e.key),
    ensures
        distinct_keys(entries.push(e)),
{
    let after = entries.push(e);
    assert forall|a: int, b: int|
        0 <= a < after.len() && 0 <= b < after.len() && a != b implies (#[trigger] after[a]).key != (
    #[trigger] after[b]).key by {
        if a < entries.len() {
            assert(after[a] == entries[a]);
        }
        if b < entries.len() {
            assert(after[b] == entries[b]);
        }
    }
}

/// What is left after evicting is an end piece of what was there, and has
/// room for the new entry wherever the entry alone is within the bounds.
pub proof fn lemma_evicted_for<M>(
    entries: Seq<EntryView<M>>,
    size: u64,
    max_items: nat,
    max_bytes: u64,
)
    ensures
        ({
            let left = evicted_for(entries, size, max_items, max_bytes);
            &&& left.len() <= entries.len()
            &&& left == entries.skip(entries.len() - left.len())
            &&& (max_items > 0 && size <= max_bytes ==> has_room(left, size, max_items, max_bytes))
            &&& (has_room(entries, size, max_items, max_bytes) ==> left == entries)
        }),
    decreases entries.len(),
{
    let left = evicted_for(entries, size, max_items, max_bytes);
    if entries.len() == 0 || has_room(entries, size, max_items, max_bytes) {
        assert(entries.skip(0) =~= entries);
    } else {
        lemma_evicted_for(entries.drop_first(), size, max_items, max_bytes);
        let rest = entries.drop_first();
        assert(rest.skip(rest.len() - left.len()) =~= entries.skip(entries.len() - left.len()));
    }
}

/// Whether `entries` are within the bounds and no key occurs twice.
pub open spec fn bounded<M>(entries: Seq<EntryView<M>>, max_items: nat, max_bytes: u64) -> bool {
    &&& distinct_keys(entries)
    &&& entries.len() <= max_items
    &&& total_size(entries) <= max_bytes
}

/// An end piece of entries with distinct keys has distinct keys, and holds no
/// key that the whole does not hold.
pub proof fn lemma_skip_keeps_distinct<M>(entries: Seq<EntryView<M>>, n: int)
    requires
        distinct_keys(entries),
        0 <= n <= entries.len(),
    ensures
        distinct_keys(entries.skip(n)),
        forall|k: u64| has_key(entries.skip(n), k) ==> has_key(entries, k),
{
    let tail = entries.skip(n);
    assert forall|a: int| 0 <= a < tail.len() implies #[trigger] tail[a] == entries[a + n] by {}
    assert forall|k: u64| has_key(tail, k) implies has_key(entries, k) by {
        let a = position_of(tail, k);
        assert(entries[a + n].key == k);
    }
}

/// The cache bound: an insertion into entries that are within the bounds
/// leaves entries that are within the bounds.
pub proof fn lemma_insert_keeps_bounds<M>(
    entries: Seq<EntryView<M>>,
    key: u64,
    value: M,
    size: u64,
    max_items: nat,
    max_bytes: u64,
)
    requires
        bounded(entries, max_items, max_bytes),
    ensures
        bounded(inserted(entries, key, value, size, max_items, max_bytes), max_items, max_bytes),
{
    let rest = without(entries, key);
    if has_key(entries, key) {
        let i = position_of(entries, key);
        lemma_remove_keeps_distinct(entries, i);
        lemma_total_remove(entries, i);
    }
    assert(bounded(rest, max_items, max_bytes));
    assert(!has_key(rest, key));
    if !(max_items == 0 || size > max_bytes) {
        let left = evicted_for(rest, size, max_items, max_bytes);
        let e = EntryView { key, value, size };
        lemma_evicted_for(rest, size, max_items, max_bytes);
        lemma_skip_keeps_distinct(rest, rest.len() - left.len());
        lemma_push_keeps_distinct(left, e);
        lemma_total_push(left, e);
    }
}

/// `entries` after the insertions `puts`, made in order.
pub open spec fn inserted_all<M>(
    entries: Seq<EntryView<M>>,
    puts: Seq<EntryView<M>>,
    max_items: nat,
    max_bytes: u64,
) -> Seq<EntryView<M>>
    decreases puts.len(),
{
    if puts.len() == 0 {
        entries
    } else {
        inserted(
            inserted_all(entries, puts.drop_last(), max_items, max_bytes),
            puts.last().key,
            puts.last().value,
            puts.last().size,
            max_items,
            max_bytes,
        )
    }
}

/// The cache bound over time: after any sequence of insertions into an empty
/// cache, the entries are within the bounds.
pub proof fn lemma_insertions_keep_bounds<M>(
    puts: Seq<EntryView<M>>,
    max_items: nat,
    max_bytes: u64,
)
    ensures
        bounded(inserted_all(Seq::empty(), puts, max_items, max_bytes), max_items, max_bytes),
    decreases puts.len(),
{
    if puts.len() > 0 {
        lemma_insertions_keep_bounds(puts.drop_last(), max_items, max_bytes);
        lemma_insert_keeps_bounds(
            inserted_all(Seq::empty(), puts.drop_last(), max_items, max_bytes),
            puts.last().key,
            puts.last().value,
            puts.last().size,
            max_items,
            max_bytes,
        );
    }
}

/// Eviction takes the least recently used: an insertion under a new key into
/// a cache that holds as many entries as it may, where the bytes have room
/// once the first entry has left, evicts the first entry and no other, and
/// the new entry becomes the last.
pub proof fn lemma_insert_into_full_evicts_least_recent<M>(
    entries: Seq<EntryView<M>>,
    key: u64,
    value: M,
    size: u64,
    max_items: nat,
    max_bytes: u64,
)
    requires
        bounded(entries, max_items, max_bytes),
        entries.len() == max_items,
        max_items > 0,
        !has_key(entries, key),
        total_size(entries.drop_first()) + size <= max_bytes,
    ensures
        inserted(entries, key, value, size, max_items, max_bytes) == entries.drop_first().push(
            EntryView { key, value, size },
        ),
{
    let rest = entries.drop_first();
    lemma_evicted_for(rest, size, max_items, max_bytes);
}

/// Eviction takes the least recently used, in general: what an insertion
/// leaves of the earlier entries is an end piece of them, and the shortest
/// piece cut from the front that makes room.
pub proof fn lemma_eviction_is_minimal_prefix<M>(
    entries: Seq<EntryView<M>>,
    size: u64,
    max_items: nat,
    max_bytes: u64,
)
    ensures
        ({
            let left = evicted_for(entries, size, max_items, max_bytes);
            let gone = entries.len() - left.len();
            &&& 0 <= gone <= entries.len()
            &&& left == entries.skip(gone)
            &&& forall|n: int|
                0 <= n < gone ==> !has_room(#[trigger] entries.skip(n), size, max_items, max_bytes)
        }),
    decreases entries.len(),
{
    let left = evicted_for(entries, size, max_items, max_bytes);
    let gone = entries.len() - left.len();
    lemma_evicted_for(entries, size, max_items, max_bytes);
    if !(entries.len() == 0 || has_room(entries, size, max_items, max_bytes)) {
        let rest = entries.drop_first();
        lemma_eviction_is_minimal_prefix(rest, size, max_items, max_bytes);
        assert forall|n: int| 0 <= n < gone implies !has_room(
            #[trigger] entries.skip(n),
            size,
            max_items,
            max_bytes,
        ) by {
            if n == 0 {
                assert(entries.skip(0) =~= entries);
            } else {
                assert(entries.skip(n) =~= rest.skip(n - 1));
            }
        }
    }
}

/// Whether `p` holds of the key and value of every entry.
pub open spec fn all_entries<M>(entries: Seq<EntryView<M>>, p: spec_fn(u64, M) -> bool) -> bool {
    forall|i: int| 0 <= i < entries.len() ==> p((#[trigger] entries[i]).key, entries[i].value)
}

/// What holds of every entry holds of every entry that is left, in whatever
/// order, after an entry was used or removed or others were evicted; and of
/// a looked-up value.
pub proof fn lemma_all_entries_kept<M>(
    entries: Seq<EntryView<M>>,
    p: spec_fn(u64, M) -> bool,
    key: u64,
    size: u64,
    max_items: nat,
    max_bytes: u64,
)
    requires
        all_entries(entries, p),
    ensures
        all_entries(touched(entries, key), p),
        all_entries(without(entries, key), p),
        all_entries(evicted_for(entries, size, max_items, max_bytes), p),
        lookup(entries, key) is Some ==> p(key, lookup(entries, key).unwrap()),
{
    if has_key(entries, key) {
        let i = position_of(entries, key);
        let t = touched(entries, key);
        assert forall|a: int| 0 <= a < t.len() implies p((#[trigger] t[a]).key, t[a].value) by {
            let sa = if a == t.len() - 1 {
                i
            } else if a < i {
                a
            } else {
                a + 1
            };
            assert(t[a] == entries[sa]);
        }
        let w = without(entries, key);
        assert forall|a: int| 0 <= a < w.len() implies p((#[trigger] w[a]).key, w[a].value) by {
            assert(w[a] == entries[if a < i {
                a
            } else {
                a + 1
            }]);
        }
        assert(entries[i].key == key);
    }
    let left = evicted_for(entries, size, max_items, max_bytes);
    lemma_evicted_for(entries, size, max_items, max_bytes);
    let n = entries.len() - left.len();
    assert forall|a: int| 0 <= a < left.len() implies p((#[trigger] left[a]).key, left[a].value) by {
        assert(left[a] == entries[a + n]);
    }
}

/// What holds of every entry and of a new key and value holds of every entry
/// after the insertion of that value under that key.
pub proof fn lemma_all_entries_inserted<M>(
    entries: Seq<EntryView<M>>,
    p: spec_fn(u64, M) -> bool,
    key: u64,
    value: M,
    size: u64,
    max_items: nat,
    max_bytes: u64,
)
    requires
        all_entries(entries, p),
        p(key, value),
    ensures
        all_entries(inserted(entries, key, value, size, max_items, max_bytes), p),
{
    let rest = without(entries, key);
    lemma_all_entries_kept(entries, p, key, size, max_items, max_bytes);
    lemma_all_entries_kept(rest, p, key, size, max_items, max_bytes);
    let left = evicted_for(rest, size, max_items, max_bytes);
    let after = inserted(entries, key, value, size, max_items, max_bytes);
    if !(max_items == 0 || size > max_bytes) {
        assert forall|a: int| 0 <= a < after.len() implies p(
            (#[trigger] after[a]).key,
            after[a].value,
        ) by {
            if a < left.len() {
                assert(after[a] == left[a]);
            }
        }
    }
}

/// Whether every entry is accounted with the size of its value.
pub open spec fn sizes_match<V: CacheValue>(entries: Seq<EntryView<V::V>>) -> bool {
    forall|i: int|
        0 <= i < entries.len() ==> (#[trigger] entries[i]).size == V::spec_byte_size(
            entries[i].value,
        )
}

/// What a cache holds, and its bounds.
pub struct CacheView<M> {
    /// The entries, the least recently used first.
    pub entries: Seq<EntryView<M>>,
    pub max_items: nat,
    pub max_bytes: u64,
    pub hits: u64,
    pub misses: u64,
}

impl<M> CacheView<M> {
    /// The bounds hold, and no key occurs twice.
    pub open spec fn well_formed(self) -> bool {
        &&& distinct_keys(self.entries)
        &&& self.entries.len() <= self.max_items
        &&& total_size(self.entries) <= self.max_bytes
    }
}

struct CacheEntry<V> {
    key: u64,
    value: V,
    size: u64,
}

/// A cache from 64-bit keys to values of `V`.
pub struct LruCache<V: CacheValue> {
    entries: Vec<CacheEntry<V>>,
    max_items: usize,
    max_bytes: u64,
    bytes: u64,
    hits: u64,
    misses: u64,
}

impl<V: CacheValue> View for LruCache<V> {
    type V = CacheView<V::V>;

    closed spec fn view(&self) -> CacheView<V::V> {
        CacheView {
            entries: Seq::new(
                self.entries@.len(),
                |i: int|
                    EntryView {
                        key: self.entries@[i].key,
                        value: self.entries@[i].value@,
                        size: self.entries@[i].size,
                    },
            ),
            max_items: self.max_items as nat,
            max_bytes: self.max_bytes,
            hits: self.hits,
            misses: self.misses,
        }
    }
}

impl<V: CacheValue> LruCache<V> {
    /// The invariant of the cache: its bounds hold, no key occurs twice, every
    /// entry is accounted with the size of its value, and the running total
    /// of bytes is the sum of the entries' sizes.
    pub closed spec fn wf(&self) -> bool {
        &&& self@.well_formed()
        &&& sizes_match::<V>(self@.entries)
        &&& self.bytes == total_size(self@.entries)
    }

    /// What the invariant says of the cache's contents.
    pub proof fn lemma_wf(&self)
        requires
            self.wf(),
        ensures
            self@.well_formed(),
            sizes_match::<V>(self@.entries),
    {
    }

    /// An empty cache with the given bounds.
    pub fn new(max_items: usize, max_bytes: u64) -> (c: LruCache<V>)
        ensures
            c.wf(),
            c@.entries.len() == 0,
            c@.max_items == max_items,
            c@.max_bytes == max_bytes,
            c@.hits == 0,
            c@.misses == 0,
    {
        LruCache { entries: Vec::new(), max_items, max_bytes, bytes: 0, hits: 0, misses: 0 }
    }

    /// The number of entries.
    pub fn len(&self) -> (n: usize)
        ensures
            n == self@.entries.len(),
    {
        self.entries.len()
    }

    /// The sum of the sizes of the entries.
    pub fn size_bytes(&self) -> (n: u64)
        requires
            self.wf(),
        ensures
            n == total_size(self@.entries),
            n <= self@.max_bytes,
    {
        self.bytes
    }

    /// The bound on the number of entries.
    pub fn max_items(&self) -> (n: usize)
        ensures
            n == self@.max_items,
    {
        self.max_items
    }

    /// The bound on the sum of the sizes.
    pub fn max_bytes(&self) -> (n: u64)
        ensures
            n == self@.max_bytes,
    {
        self.max_bytes
    }

    /// How many lookups found their key.
    pub fn hits(&self) -> (n: u64)
        ensures
            n == self@.hits,
    {
        self.hits
    }

    /// How many lookups did not find their key.
    pub fn misses(&self) -> (n: u64)
        ensures
            n == self@.misses,
    {
        self.misses
    }

    fn find(&self, key: u64) -> (r: Option<usize>)
        requires
            self.wf(),
        ensures
            r is Some <==> has_key(self@.entries, key),
            r is Some ==> r.unwrap() < self.entries@.len() && r.unwrap() == position_of(
                self@.entries,
                key,
            ) && self.entries@[r.unwrap() as int].key == key,
    {
        let mut i: usize = 0;
        while i < self.entries.len()
            invariant
                self.wf(),
                i <= self.entries@.len(),
                forall|j: int| 0 <= j < i ==> (#[trigger] self@.entries[j]).key != key,
            decreases self.entries@.len() - i,
        {
            if self.entries[i].key == key {
                proof {
                    assert(self@.entries[i as int].key == key);
                    lemma_position(self@.entries, i as int);
                }
                return Some(i);
            }
            i += 1;
        }
        None
    }

    /// Whether `key` has an entry. The order of use does not change.
    pub fn contains(&self, key: u64) -> (b: bool)
        requires
            self.wf(),
        ensures
            b == has_key(self@.entries, key),
    {
        self.find(key).is_some()
    }

    /// The key that an eviction would take first.
    pub fn lru_key(&self) -> (k: Option<u64>)
        ensures
            k == (if self@.entries.len() == 0 {
                None
            } else {
                Some(self@.entries[0].key)
            }),
    {
        if self.entries.len() == 0 {
            None
        } else {
            Some(self.entries[0].key)
        }
    }

    /// Looks `key` up. A hit makes the entry the most recently used and
    /// counts as a hit; a miss changes nothing but the count of misses.
    pub fn get(&mut self, key: u64) -> (r: Option<V>)
        requires
            old(self).wf(),
        ensures
            final(self).wf(),
            final(self)@.entries == touched(old(self)@.entries, key),
            final(self)@.max_items == old(self)@.max_items,
            final(self)@.max_bytes == old(self)@.max_bytes,
            match r {
                Some(v) => {
                    &&& lookup(old(self)@.entries, key) == Some(v@)
                    &&& final(self)@.hits == saturating_sum(old(self)@.hits, 1)
                    &&& final(self)@.misses == old(self)@.misses
                },
                None => {
                    &&& lookup(old(self)@.entries, key) is None
                    &&& final(self)@.hits == old(self)@.hits
                    &&& final(self)@.misses == saturating_sum(old(self)@.misses, 1)
                },
            },
    {
        match self.find(key) {
            None => {
                self.misses = add_saturating(self.misses, 1);
                assert(self@.entries =~= old(self)@.entries);
                None
            },
            Some(i) => {
                let ghost before = self@.entries;
                let e = self.entries.remove(i);
                let v = e.value.duplicate();
                self.entries.push(e);
                self.hits = add_saturating(self.hits, 1);
                proof {
                    let after = self@.entries;
                    assert(after =~= before.remove(i as int).push(before[i as int]));
                    lemma_total_remove(before, i as int);
                    lemma_total_push(before.remove(i as int), before[i as int]);
                    assert(distinct_keys(after)) by {
                        assert forall|a: int, b: int|
                            0 <= a < after.len() && 0 <= b < after.len() && a != b implies (
                        #[trigger] after[a]).key != (#[trigger] after[b]).key by {
                            let sa = if a == after.len() - 1 {
                                i as int
                            } else if a < i {
                                a
                            } else {
                                a + 1
                            };
                            let sb = if b == after.len() - 1 {
                                i as int
                            } else if b < i {
                                b
                            } else {
                                b + 1
                            };
                            assert(after[a] == before[sa]);
                            assert(after[b] == before[sb]);
                        }
                    }
                    assert(sizes_match::<V>(after)) by {
                        assert forall|a: int| 0 <= a < after.len() implies (#[trigger] after[a]).size
                            == V::spec_byte_size(after[a].value) by {
                            let sa = if a == after.len() - 1 {
                                i as int
                            } else if a < i {
                                a
                            } else {
                                a + 1
                            };
                            assert(after[a] == before[sa]);
                        }
                    }
                }
                Some(v)
            },
        }
    }

    /// Removes the entry of `key`, if there is one.
    pub fn remove(&mut self, key: u64) -> (removed: bool)
        requires
            old(self).wf(),
        ensures
            final(self).wf(),
            removed == has_key(old(self)@.entries, key),
            final(self)@.entries == without(old(self)@.entries, key),
            !has_key(final(self)@.entries, key),
            final(self)@.max_items == old(self)@.max_items,
            final(self)@.max_bytes == old(self)@.max_bytes,
            final(self)@.hits == old(self)@.hits,
            final(self)@.misses == old(self)@.misses,
    {
        match self.find(key) {
            None => false,
            Some(i) => {
                let ghost before = self@.entries;
                let e = self.entries.remove(i);
                proof {
                    lemma_total_remove(before, i as int);
                }
                self.bytes = self.bytes - e.size;
                proof {
                    let after = self@.entries;
                    assert(after =~= before.remove(i as int));
                    lemma_remove_keeps_distinct(before, i as int);
                    assert forall|a: int| 0 <= a < after.len() implies (#[trigger] after[a]).size
                        == V::spec_byte_size(after[a].value) by {
                        assert(after[a] == before[if a < i {
                            a
                        } else {
                            a + 1
                        }]);
                    }
                }
                true
            },
        }
    }

    /// Removes every entry. The counts of hits and misses stay.
    pub fn clear(&mut self)
        ensures
            final(self).wf(),
            final(self)@.entries.len() == 0,
            final(self)@.max_items == old(self)@.max_items,
            final(self)@.max_bytes == old(self)@.max_bytes,
            final(self)@.hits == old(self)@.hits,
            final(self)@.misses == old(self)@.misses,
    {
        self.entries.clear();
        self.bytes = 0;
    }

    /// Stores `value` under `key` as the most recently used entry (see
    /// [`inserted`]).
    pub fn put(&mut self, key: u64, value: V)
        requires
            old(self).wf(),
        ensures
            final(self).wf(),
            final(self)@.entries == inserted(
                old(self)@.entries,
                key,
                value@,
                V::spec_byte_size(value@),
                old(self)@.max_items,
                old(self)@.max_bytes,
            ),
            final(self)@.max_items == old(self)@.max_items,
            final(self)@.max_bytes == old(self)@.max_bytes,
            final(self)@.hits == old(self)@.hits,
            final(self)@.misses == old(self)@.misses,
    {
        let size: u64 = value.byte_size();
        self.remove(key);
        if self.max_items == 0 || size > self.max_bytes {
            return ;
        }
        let ghost rest = self@.entries;
        let ghost max_items = self@.max_items;
        let ghost max_bytes = self@.max_bytes;
        while self.entries.len() >= self.max_items || size > self.max_bytes - self.bytes
            invariant
                self.wf(),
                self@.max_items == max_items,
                self@.max_bytes == max_bytes,
                self@.hits == old(self)@.hits,
                self@.misses == old(self)@.misses,
                max_items > 0,
                size <= max_bytes,
                !has_key(self@.entries, key),
                evicted_for(self@.entries, size, max_items, max_bytes) == evicted_for(
                    rest,
                    size,
                    max_items,
                    max_bytes,
                ),
            decreases self.entries@.len(),
        {
            let ghost before = self@.entries;
            assert(before.len() > 0);
            let e = self.entries.remove(0);
            proof {
                lemma_total_remove(before, 0);
            }
            self.bytes = self.bytes - e.size;
            proof {
                let after = self@.entries;
                assert(after =~= before.remove(0));
                assert(before.remove(0) =~= before.drop_first());
                lemma_remove_keeps_distinct(before, 0);
                assert forall|a: int| 0 <= a < after.len() implies (#[trigger] after[a]).size
                    == V::spec_byte_size(after[a].value) by {
                    assert(after[a] == before[a + 1]);
                }
                assert(!has_room(before, size, max_items, max_bytes));
            }
        }
        let ghost left = self@.entries;
        proof {
            assert(has_room(left, size, max_items, max_bytes));
            lemma_evicted_for(left, size, max_items, max_bytes);
            lemma_total_push(left, EntryView { key, value: value@, size });
            lemma_push_keeps_distinct(left, EntryView { key, value: value@, size });
        }
        self.entries.push(CacheEntry { key, value, size });
        self.bytes = self.bytes + size;
        proof {
            let after = self@.entries;
            assert(after =~= left.push(EntryView { key, value: value@, size }));
            assert forall|a: int| 0 <= a < after.len() implies (#[trigger] after[a]).size
                == V::spec_byte_size(after[a].value) by {
                if a < left.len() {
                    assert(after[a] == left[a]);
                }
            }
        }
    }
}

} // verus!
