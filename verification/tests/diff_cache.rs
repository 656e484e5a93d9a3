use gitkay::diff_cache::DiffCache;

#[test]
fn remove_moves_value_out_and_subtracts() {
    let mut c: DiffCache<u32, &str> = DiffCache::new(100);
    c.insert(1, "a", 10);
    assert_eq!(c.remove(&1), Some("a"));
    assert_eq!(c.remove(&1), None); // gone after the move
}

#[test]
fn evicts_lru_when_over_budget() {
    let mut c: DiffCache<u32, u32> = DiffCache::new(30);
    c.insert(1, 1, 20);
    c.insert(2, 2, 20); // total 40 > 30 ⇒ evict key 1 (older)
    assert_eq!(c.remove(&1), None);
    assert_eq!(c.remove(&2), Some(2));
}

#[test]
fn keeps_single_entry_larger_than_budget() {
    let mut c: DiffCache<u32, u32> = DiffCache::new(30);
    c.insert(1, 1, 100); // alone and over budget, but len()==1 ⇒ kept
    assert_eq!(c.remove(&1), Some(1));
}

#[test]
fn reinsert_updates_total() {
    let mut c: DiffCache<u32, u32> = DiffCache::new(50);
    c.insert(1, 1, 40);
    c.insert(1, 11, 10); // overwrite: total now 10, not 50
    c.insert(2, 2, 40); // total 50 ⇒ fits, nothing evicted
    assert_eq!(c.remove(&1), Some(11));
    assert_eq!(c.remove(&2), Some(2));
}

#[test]
fn contains_peeks_without_touching_lru() {
    let mut c: DiffCache<u32, u32> = DiffCache::new(30);
    c.insert(1, 1, 15);
    c.insert(2, 2, 15); // total 30, key 1 is LRU
    assert!(c.contains(&1));
    assert!(!c.contains(&3));
    // contains(&1) must NOT refresh recency: inserting a third entry over budget
    // must still evict key 1 (the LRU). If contains() bumped it, key 2 would go.
    c.insert(3, 3, 15); // total 45 > 30 → evict LRU
    assert!(!c.contains(&1), "key 1 was LRU; contains() must not have refreshed it");
    assert!(c.contains(&2));
    assert!(c.contains(&3));
}

#[test]
fn reinsert_refreshes_recency() {
    let mut c: DiffCache<u32, u32> = DiffCache::new(30);
    c.insert(1, 1, 15);
    c.insert(2, 2, 15); // total 30, both fit
    c.remove(&1); // revisit key 1...
    c.insert(1, 1, 15); // ...and leave again ⇒ key 1 is now MRU
    c.insert(3, 3, 15); // total 45 > 30 ⇒ evict LRU = key 2
    assert_eq!(c.remove(&2), None);
    assert_eq!(c.remove(&1), Some(1));
    assert_eq!(c.remove(&3), Some(3));
}

#[test]
fn the_oldest_go_until_the_budget_is_kept() {
    let mut c: DiffCache<u32, u32> = DiffCache::new(100);
    for k in 0..5 {
        c.insert(k, k, 20);
    }
    c.insert(9, 9, 45); // 145: three of the oldest have to go
    assert!(!c.contains(&0));
    assert!(!c.contains(&1));
    assert!(!c.contains(&2));
    assert!(c.contains(&3));
    assert!(c.contains(&4));
    assert!(c.contains(&9));
}

#[test]
fn an_entry_over_the_budget_drives_all_others_out() {
    let mut c: DiffCache<u32, u32> = DiffCache::new(10);
    c.insert(1, 1, 5);
    c.insert(2, 2, 5);
    c.insert(3, 3, 11);
    assert!(!c.contains(&1));
    assert!(!c.contains(&2));
    assert_eq!(c.remove(&3), Some(3));
}
