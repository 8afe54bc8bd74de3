use redis_rs::kv::{HMap, KVPair};
use std::collections::hash_map::DefaultHasher;
use std::hash::{Hash, Hasher};

fn hash_key(key: &str) -> usize {
    let mut h = DefaultHasher::new();
    key.hash(&mut h);
    h.finish() as usize
}

fn kv(key: &str, val: &str) -> KVPair {
    KVPair::new(key.to_string(), val.to_string())
}

fn eq_key(key: &str) -> impl Fn(&KVPair) -> bool + '_ {
    move |p| p.key == key
}

#[test]
fn hmap_hmap_lookup_empty() {
    let mut map: HMap<KVPair> = HMap::with_capacity(4);
    assert!(map.lookup(hash_key("foo"), eq_key("foo")).is_none());
}

#[test]
fn hmap_hmap_insert_and_lookup() {
    let mut map: HMap<KVPair> = HMap::with_capacity(4);
    let h = hash_key("city");
    map.insert(h, kv("city", "tokyo"));
    assert_eq!(
        map.lookup(h, eq_key("city")).map(|p| p.val.as_str()),
        Some("tokyo")
    );
}

#[test]
fn hmap_hmap_remove_returns_value() {
    let mut map: HMap<KVPair> = HMap::with_capacity(4);
    let h = hash_key("lang");
    map.insert(h, kv("lang", "rust"));
    assert_eq!(
        map.remove(h, eq_key("lang")).map(|p| p.val),
        Some("rust".to_string())
    );
}

#[test]
fn hmap_hmap_remove_missing_returns_none() {
    let mut map: HMap<KVPair> = HMap::with_capacity(4);
    assert!(map.remove(hash_key("ghost"), eq_key("ghost")).is_none());
}

#[test]
fn hmap_hmap_all_items_survive_rehash() {
    // capacity=4, MAX_LOAD_FACTOR=8: rehash triggers at size > 32
    let mut map: HMap<KVPair> = HMap::with_capacity(4);
    for i in 0..40usize {
        let key = format!("key{i}");
        map.insert(hash_key(&key), kv(&key, &i.to_string()));
    }
    for i in 0..40usize {
        let key = format!("key{i}");
        assert!(
            map.lookup(hash_key(&key), eq_key(&key)).is_some(),
            "key{i} missing after rehash"
        );
    }
}

#[test]
fn hmap_hmap_lookup_spans_older_and_newer() {
    // capacity=16, MAX_LOAD_FACTOR=8: rehash triggers at size > 128.
    // After the 129th insert, 129 items move to older, rehash migrates 128 of them,
    // leaving 1 in older. All 129 must still be findable.
    let mut map: HMap<KVPair> = HMap::with_capacity(16);
    for i in 0..129usize {
        let key = format!("k{i}");
        map.insert(hash_key(&key), kv(&key, &i.to_string()));
    }
    for i in 0..129usize {
        let key = format!("k{i}");
        assert!(
            map.lookup(hash_key(&key), eq_key(&key)).is_some(),
            "k{i} not found while straddling older and newer"
        );
    }
}

#[test]
fn hmap_hmap_remove_spans_older_and_newer() {
    let mut map: HMap<KVPair> = HMap::with_capacity(16);
    for i in 0..129usize {
        let key = format!("k{i}");
        map.insert(hash_key(&key), kv(&key, &i.to_string()));
    }
    for i in 0..129usize {
        let key = format!("k{i}");
        assert!(
            map.remove(hash_key(&key), eq_key(&key)).is_some(),
            "k{i} not removable while straddling older and newer"
        );
    }
    for i in 0..129usize {
        let key = format!("k{i}");
        assert!(
            map.lookup(hash_key(&key), eq_key(&key)).is_none(),
            "k{i} still present after remove"
        );
    }
}

#[test]
fn hmap_hmap_no_duplicates_after_migration() {
    // Each key should be removable exactly once after migration completes
    let mut map: HMap<KVPair> = HMap::with_capacity(4);
    for i in 0..40usize {
        let key = format!("item{i}");
        map.insert(hash_key(&key), kv(&key, &i.to_string()));
    }
    for i in 0..40usize {
        let key = format!("item{i}");
        let h = hash_key(&key);
        assert!(map.remove(h, eq_key(&key)).is_some(), "item{i} missing");
        assert!(map.remove(h, eq_key(&key)).is_none(), "item{i} found twice");
    }
}
