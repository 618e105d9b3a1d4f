use store::cache::LruCache;
use store::types::{Block, SidecarList};

fn bytes(n: usize, fill: u8) -> SidecarList {
    SidecarList { bytes: vec![fill; n] }
}

#[test]
fn cache_starts_empty() {
    let c: LruCache<SidecarList> = LruCache::new(3, 100);
    assert_eq!(c.len(), 0);
    assert_eq!(c.size_bytes(), 0);
    assert_eq!(c.max_items(), 3);
    assert_eq!(c.max_bytes(), 100);
    assert_eq!(c.hits(), 0);
    assert_eq!(c.misses(), 0);
    assert_eq!(c.lru_key(), None);
}

#[test]
fn cache_get_returns_what_was_put() {
    let mut c: LruCache<SidecarList> = LruCache::new(3, 100);
    c.put(7, bytes(4, 1));
    assert_eq!(c.get(7), Some(bytes(4, 1)));
    assert_eq!(c.get(8), None);
    assert_eq!(c.hits(), 1);
    assert_eq!(c.misses(), 1);
    assert!(c.contains(7));
    assert!(!c.contains(8));
}

#[test]
fn cache_evicts_least_recently_used_when_full() {
    let mut c: LruCache<SidecarList> = LruCache::new(3, 1000);
    c.put(1, bytes(1, 1));
    c.put(2, bytes(1, 2));
    c.put(3, bytes(1, 3));
    assert_eq!(c.lru_key(), Some(1));
    c.put(4, bytes(1, 4));
    assert_eq!(c.len(), 3);
    assert!(!c.contains(1));
    assert!(c.contains(2));
    assert!(c.contains(3));
    assert!(c.contains(4));
    assert_eq!(c.lru_key(), Some(2));
}

#[test]
fn cache_get_makes_an_entry_recent() {
    let mut c: LruCache<SidecarList> = LruCache::new(3, 1000);
    c.put(1, bytes(1, 1));
    c.put(2, bytes(1, 2));
    c.put(3, bytes(1, 3));
    assert!(c.get(1).is_some());
    c.put(4, bytes(1, 4));
    assert!(c.contains(1));
    assert!(!c.contains(2));
    assert_eq!(c.lru_key(), Some(3));
}

#[test]
fn cache_contains_does_not_change_the_order() {
    let mut c: LruCache<SidecarList> = LruCache::new(2, 1000);
    c.put(1, bytes(1, 1));
    c.put(2, bytes(1, 2));
    assert!(c.contains(1));
    c.put(3, bytes(1, 3));
    assert!(!c.contains(1));
}

#[test]
fn cache_put_of_present_key_replaces_and_makes_recent() {
    let mut c: LruCache<SidecarList> = LruCache::new(2, 1000);
    c.put(1, bytes(3, 1));
    c.put(2, bytes(3, 2));
    c.put(1, bytes(5, 9));
    assert_eq!(c.len(), 2);
    assert_eq!(c.size_bytes(), 8);
    assert_eq!(c.lru_key(), Some(2));
    assert_eq!(c.get(1), Some(bytes(5, 9)));
}

#[test]
fn cache_byte_budget_evicts_until_the_entry_fits() {
    let mut c: LruCache<SidecarList> = LruCache::new(10, 10);
    c.put(1, bytes(4, 1));
    c.put(2, bytes(4, 2));
    assert_eq!(c.size_bytes(), 8);
    c.put(3, bytes(7, 3));
    // both earlier entries had to leave for seven bytes to fit into ten
    assert_eq!(c.len(), 1);
    assert_eq!(c.size_bytes(), 7);
    assert!(c.contains(3));
    c.put(4, bytes(3, 4));
    assert_eq!(c.len(), 2);
    assert_eq!(c.size_bytes(), 10);
}

#[test]
fn cache_byte_budget_evicts_no_more_than_needed() {
    let mut c: LruCache<SidecarList> = LruCache::new(10, 10);
    c.put(1, bytes(4, 1));
    c.put(2, bytes(4, 2));
    c.put(3, bytes(5, 3));
    assert!(!c.contains(1));
    assert!(c.contains(2));
    assert!(c.contains(3));
    assert_eq!(c.size_bytes(), 9);
}

#[test]
fn cache_size_is_the_sum_of_entry_sizes() {
    let mut c: LruCache<SidecarList> = LruCache::new(4, 50);
    let sizes = [3usize, 11, 7, 20, 9, 1, 30, 2];
    for (k, n) in sizes.iter().enumerate() {
        c.put(k as u64, bytes(*n, k as u8));
        let mut sum = 0u64;
        for j in 0..=k {
            if c.contains(j as u64) {
                sum += sizes[j] as u64;
            }
        }
        assert_eq!(c.size_bytes(), sum);
        assert!(c.size_bytes() <= 50);
        assert!(c.len() <= 4);
    }
}

#[test]
fn cache_does_not_take_a_value_beyond_the_budget() {
    let mut c: LruCache<SidecarList> = LruCache::new(4, 10);
    c.put(1, bytes(4, 1));
    c.put(2, bytes(11, 2));
    assert!(!c.contains(2));
    assert!(c.contains(1));
    assert_eq!(c.size_bytes(), 4);
    // an earlier entry of the key leaves all the same
    c.put(1, bytes(11, 1));
    assert!(!c.contains(1));
    assert_eq!(c.len(), 0);
}

#[test]
fn cache_for_no_items_holds_nothing() {
    let mut c: LruCache<SidecarList> = LruCache::new(0, 10);
    c.put(1, bytes(1, 1));
    assert_eq!(c.len(), 0);
    assert_eq!(c.get(1), None);
}

#[test]
fn cache_remove_and_clear() {
    let mut c: LruCache<SidecarList> = LruCache::new(4, 100);
    c.put(1, bytes(4, 1));
    c.put(2, bytes(6, 2));
    assert!(c.remove(1));
    assert!(!c.remove(1));
    assert_eq!(c.size_bytes(), 6);
    assert_eq!(c.len(), 1);
    assert!(c.get(2).is_some());
    c.clear();
    assert_eq!(c.len(), 0);
    assert_eq!(c.size_bytes(), 0);
    assert_eq!(c.hits(), 1);
}

#[test]
fn cache_accounts_blocks_with_their_stored_size() {
    let mut c: LruCache<Block> = LruCache::new(4, 100);
    c.put(5, Block { slot: 1, root: 5, parent_root: 4, payload: vec![0; 10] });
    assert_eq!(c.size_bytes(), 34);
}
