use ephemeral_store::store::EphemeralStore;

#[test]
fn ttl_entry_visible_before_expiry_absent_after() {
    let mut store: EphemeralStore<Vec<u8>> = EphemeralStore::new();
    store.put("k", vec![1u8, 2, 3], 100, 10);
    assert_eq!(store.get("k", 100), Some(&vec![1u8, 2, 3]));
    assert_eq!(store.get("k", 105), Some(&vec![1u8, 2, 3]));
    assert_eq!(store.get("k", 109), Some(&vec![1u8, 2, 3]));
    assert_eq!(store.get("k", 110), None);
    assert_eq!(store.get("k", 111), None);
}

#[test]
fn expired_entry_is_evicted_on_lookup() {
    let mut store: EphemeralStore<u64> = EphemeralStore::new();
    store.put("k", 7, 0, 5);
    assert_eq!(store.keys().len(), 1);
    assert_eq!(store.get("k", 5), None);
    assert_eq!(store.keys().len(), 0);
}

#[test]
fn put_overwrites_value_and_expiry() {
    let mut store: EphemeralStore<u64> = EphemeralStore::new();
    store.put("k", 1, 0, 5);
    store.put("k", 2, 0, 100);
    assert_eq!(store.get("k", 50), Some(&2));
    assert_eq!(store.keys().len(), 1);
}

#[test]
fn delete_is_idempotent() {
    let mut store: EphemeralStore<u64> = EphemeralStore::new();
    store.put("k", 1, 0, 100);
    store.delete("k");
    assert_eq!(store.get("k", 1), None);
    store.delete("k");
    assert_eq!(store.get("k", 1), None);
}

#[test]
fn delete_by_prefix_removes_only_that_family() {
    let mut store: EphemeralStore<u64> = EphemeralStore::new();
    store.put("user:42:profile", 1, 0, 100);
    store.put("user:42:links", 2, 0, 100);
    store.put("user:43:profile", 3, 0, 100);
    store.put("link:9", 4, 0, 100);
    store.delete_by_prefix("user:42:");
    assert_eq!(store.get("user:42:profile", 1), None);
    assert_eq!(store.get("user:42:links", 1), None);
    assert_eq!(store.get("user:43:profile", 1), Some(&3));
    assert_eq!(store.get("link:9", 1), Some(&4));
}

#[test]
fn keys_by_prefix_snapshot() {
    let mut store: EphemeralStore<u64> = EphemeralStore::new();
    store.put("user:42:profile", 1, 0, 100);
    store.put("user:42:links", 2, 0, 100);
    store.put("user:43:profile", 3, 0, 100);
    let mut keys = store.keys_by_prefix("user:42:");
    keys.sort();
    assert_eq!(keys, vec!["user:42:links".to_string(), "user:42:profile".to_string()]);
}

#[test]
fn sweep_removes_exactly_the_expired() {
    let mut store: EphemeralStore<u64> = EphemeralStore::new();
    store.put("a", 1, 0, 10);
    store.put("b", 2, 0, 30);
    store.put("c", 3, 0, 50);
    store.sweep(30);
    let mut keys = store.keys();
    keys.sort();
    assert_eq!(keys, vec!["c".to_string()]);
    assert_eq!(store.get("c", 30), Some(&3));
}

#[test]
fn take_removes_and_returns_the_live_entry() {
    let mut store: EphemeralStore<u64> = EphemeralStore::new();
    store.put("k", 9, 0, 10);
    assert_eq!(store.take("k", 5), Some((9, 10)));
    assert_eq!(store.get("k", 5), None);
    assert_eq!(store.take("k", 5), None);
}

#[test]
fn get_or_compute_stores_only_on_success() {
    let mut store: EphemeralStore<u64> = EphemeralStore::new();
    let r = store.get_or_compute("k", 0, 10, || Err::<u64, String>("down".to_string()));
    assert_eq!(r, Err("down".to_string()));
    assert_eq!(store.get("k", 0), None);
    let r = store.get_or_compute("k", 0, 10, || Ok::<u64, String>(5));
    assert_eq!(r, Ok(&5));
    // the stored value answers the next call; its producer is not consulted
    let r = store.get_or_compute("k", 9, 10, || Ok::<u64, String>(6));
    assert_eq!(r, Ok(&5));
    // past the deadline the producer runs again
    let r = store.get_or_compute("k", 10, 10, || Ok::<u64, String>(6));
    assert_eq!(r, Ok(&6));
}

#[test]
fn clear_empties_the_store() {
    let mut store: EphemeralStore<u64> = EphemeralStore::new();
    store.put("a", 1, 0, 100);
    store.put("b", 2, 0, 100);
    store.clear();
    assert_eq!(store.keys().len(), 0);
    assert_eq!(store.get("a", 1), None);
}

#[test]
fn entries_work_at_the_top_of_the_clock() {
    let mut store: EphemeralStore<u64> = EphemeralStore::new();
    store.put("k", 1, u64::MAX - 10, 10);
    assert_eq!(store.get("k", u64::MAX - 1), Some(&1));
    assert_eq!(store.get("k", u64::MAX), None);
}

#[test]
fn contains_live_and_read_ignore_nothing() {
    let mut store: EphemeralStore<u64> = EphemeralStore::new();
    store.put("k", 1, 0, 10);
    assert!(store.contains_live("k", 9));
    assert!(!store.contains_live("k", 10));
    // read sees the entry even past its expiry: it evicts nothing
    let read = store.read("k");
    assert_eq!(read, Some((&1, 10)));
}
