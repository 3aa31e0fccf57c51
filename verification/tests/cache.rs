use ephemeral_store::cache::create_cache_key;
use ephemeral_store::cache::create_link_cache_key;
use ephemeral_store::cache::create_user_cache_key;
use ephemeral_store::cache::Cache;

#[test]
fn set_then_get_returns_the_bytes() {
    let mut cache = Cache::new(300);
    cache.set("user:1:profile", vec![5u8, 6, 7], 1000);
    assert_eq!(cache.get("user:1:profile", 1000), Some(vec![5u8, 6, 7]));
    assert_eq!(cache.get("user:1:profile", 1299), Some(vec![5u8, 6, 7]));
}

#[test]
fn get_after_ttl_elapsed_is_absent() {
    let mut cache = Cache::new(300);
    cache.set("k", vec![1u8], 1000);
    assert_eq!(cache.get("k", 1300), None);
    assert_eq!(cache.get("k", 2000), None);
}

#[test]
fn get_or_insert_runs_the_producer_at_most_once() {
    let mut cache = Cache::new(300);
    let mut calls: u32 = 0;
    let first = cache.get_or_insert("k", 1000, || {
        calls += 1;
        Ok::<Vec<u8>, String>(vec![9u8, 8])
    });
    assert_eq!(first, Ok(vec![9u8, 8]));
    let second = cache.get_or_insert("k", 1001, || {
        calls += 1;
        Ok::<Vec<u8>, String>(vec![0u8])
    });
    assert_eq!(second, Ok(vec![9u8, 8]));
    assert_eq!(calls, 1);
}

#[test]
fn get_or_insert_error_writes_nothing() {
    let mut cache = Cache::new(300);
    let r = cache.get_or_insert("k", 1000, || Err::<Vec<u8>, String>("boom".to_string()));
    assert_eq!(r, Err("boom".to_string()));
    assert_eq!(cache.get("k", 1000), None);
}

#[test]
fn get_or_insert_recomputes_after_expiry() {
    let mut cache = Cache::new(10);
    let r1 = cache.get_or_insert("k", 0, || Ok::<Vec<u8>, String>(vec![1u8]));
    assert_eq!(r1, Ok(vec![1u8]));
    let r2 = cache.get_or_insert("k", 10, || Ok::<Vec<u8>, String>(vec![2u8]));
    assert_eq!(r2, Ok(vec![2u8]));
    assert_eq!(cache.get("k", 11), Some(vec![2u8]));
}

#[test]
fn invalidate_by_prefix_spares_other_users() {
    let mut cache = Cache::new(300);
    cache.set("user:42:profile", vec![1u8], 0);
    cache.set("user:42:links", vec![2u8], 0);
    cache.set("user:43:profile", vec![3u8], 0);
    cache.invalidate_by_prefix("user:42:");
    assert_eq!(cache.get("user:42:profile", 1), None);
    assert_eq!(cache.get("user:42:links", 1), None);
    assert_eq!(cache.get("user:43:profile", 1), Some(vec![3u8]));
}

#[test]
fn keys_by_prefix_lists_the_family() {
    let mut cache = Cache::new(300);
    cache.set("link:1", vec![1u8], 0);
    cache.set("link:2", vec![2u8], 0);
    cache.set("user:1:links", vec![3u8], 0);
    let mut keys = cache.get_keys_by_prefix("link:");
    keys.sort();
    assert_eq!(keys, vec!["link:1".to_string(), "link:2".to_string()]);
}

#[test]
fn clear_expired_sweeps_old_entries() {
    let mut cache = Cache::new(10);
    cache.set("a", vec![1u8], 0);
    cache.set("b", vec![2u8], 100);
    cache.clear_expired(50);
    assert_eq!(cache.get("a", 50), None);
    assert_eq!(cache.get("b", 105), Some(vec![2u8]));
}

#[test]
fn delete_removes_one_key() {
    let mut cache = Cache::new(300);
    cache.set("a", vec![1u8], 0);
    cache.set("b", vec![2u8], 0);
    cache.delete("a");
    assert_eq!(cache.get("a", 1), None);
    assert_eq!(cache.get("b", 1), Some(vec![2u8]));
}

#[test]
fn cache_key_joins_parts_with_colons() {
    assert_eq!(create_cache_key(&["a", "b", "c"]), "a:b:c");
    assert_eq!(create_cache_key(&["solo"]), "solo");
    assert_eq!(create_cache_key(&[]), "");
}

#[test]
fn user_and_link_cache_keys_follow_the_convention() {
    assert_eq!(
        create_user_cache_key("0b8489a3-31f0-4d42-9b16-9a522b785e77", "links"),
        "user:0b8489a3-31f0-4d42-9b16-9a522b785e77:links"
    );
    assert_eq!(create_link_cache_key("7"), "link:7");
}
