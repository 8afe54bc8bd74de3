use redis_rs::kv::{HMap, HTab, KVPair};
use std::collections::hash_map::DefaultHasher;
use std::hash::{Hash, Hasher};

fn hash_key(key: &str) -> usize {
    let mut h = DefaultHasher::new();
    key.hash(&mut h);
    h.finish() as usize
}

fn kv(key: &str, val: &str) -> KVPair {
    KVPair::new(key.to_string(), val.to_string())
}

fn eq_key(key: &str) -> impl Fn(&KVPair) -> bool + '_ {
    move |p| p.key == key
}

#[test]
fn kv_lookup_empty_table() {
    let mut tab: HTab<KVPair> = HTab::with_capacity(8);
    assert!(tab.lookup(hash_key("foo"), eq_key("foo")).is_none());
}

#[test]
fn kv_insert_and_lookup() {
    let mut tab: HTab<KVPair> = HTab::with_capacity(8);
    let h = hash_key("name");
    tab.insert(h, kv("name", "redis"));
    assert_eq!(
        tab.lookup(h, eq_key("name")).map(|p| p.val.as_str()),
        Some("redis")
    );
}

#[test]
fn kv_lookup_wrong_key_same_hcode() {
    // Same hcode, eq returns false: a true hash collision
    let mut tab: HTab<KVPair> = HTab::with_capacity(8);
    tab.insert(42, kv("foo", "bar"));
    assert!(tab.lookup(42, eq_key("baz")).is_none());
}

#[test]
fn kv_remove_returns_value() {
    let mut tab: HTab<KVPair> = HTab::with_capacity(8);
    let h = hash_key("host");
    tab.insert(h, kv("host", "localhost"));
    let removed = tab.remove(h, eq_key("host"));
    assert_eq!(removed.map(|p| p.val), Some("localhost".to_string()));
}

#[test]
fn kv_remove_missing_returns_none() {
    let mut tab: HTab<KVPair> = HTab::with_capacity(8);
    assert!(tab.remove(hash_key("ghost"), eq_key("ghost")).is_none());
}

#[test]
fn kv_remove_makes_key_unreachable() {
    let mut tab: HTab<KVPair> = HTab::with_capacity(8);
    let h = hash_key("port");
    tab.insert(h, kv("port", "6379"));
    tab.remove(h, eq_key("port"));
    assert!(tab.lookup(h, eq_key("port")).is_none());
}

#[test]
fn kv_collision_chain_all_reachable() {
    // hcodes 0, 8, 16 all map to slot 0 with mask=7
    let mut tab: HTab<KVPair> = HTab::with_capacity(8);
    tab.insert(0, kv("a", "1"));
    tab.insert(8, kv("b", "2"));
    tab.insert(16, kv("c", "3"));
    assert!(tab.lookup(0, eq_key("a")).is_some());
    assert!(tab.lookup(8, eq_key("b")).is_some());
    assert!(tab.lookup(16, eq_key("c")).is_some());
}

#[test]
fn kv_remove_head_of_chain() {
    let mut tab: HTab<KVPair> = HTab::with_capacity(8);
    tab.insert(0, kv("a", "1"));
    tab.insert(8, kv("b", "2")); // prepended, so b is the head
    tab.remove(8, eq_key("b"));
    assert!(tab.lookup(8, eq_key("b")).is_none());
    assert!(tab.lookup(0, eq_key("a")).is_some());
}

#[test]
fn kv_remove_middle_of_chain() {
    let mut tab: HTab<KVPair> = HTab::with_capacity(8);
    tab.insert(0, kv("a", "1"));
    tab.insert(8, kv("b", "2"));
    tab.insert(16, kv("c", "3"));
    tab.remove(8, eq_key("b"));
    assert!(tab.lookup(0, eq_key("a")).is_some());
    assert!(tab.lookup(8, eq_key("b")).is_none());
    assert!(tab.lookup(16, eq_key("c")).is_some());
}

#[test]
fn kv_multiple_keys_same_hcode() {
    // True hash collision: same hcode, eq distinguishes them
    let mut tab: HTab<KVPair> = HTab::with_capacity(8);
    tab.insert(99, kv("x", "val_x"));
    tab.insert(99, kv("y", "val_y"));
    assert_eq!(
        tab.lookup(99, eq_key("x")).map(|p| p.val.as_str()),
        Some("val_x")
    );
    assert_eq!(
        tab.lookup(99, eq_key("y")).map(|p| p.val.as_str()),
        Some("val_y")
    );
}

#[test]
fn kv_hmap_lookup_empty() {
    let mut map: HMap<KVPair> = HMap::with_capacity(4);
    assert!(map.lookup(hash_key("foo"), eq_key("foo")).is_none());
}

#[test]
fn kv_hmap_insert_and_lookup() {
    let mut map: HMap<KVPair> = HMap::with_capacity(4);
    let h = hash_key("city");
    map.insert(h, kv("city", "tokyo"));
    assert_eq!(
        map.lookup(h, eq_key("city")).map(|p| p.val.as_str()),
        Some("tokyo")
    );
}

#[test]
fn kv_hmap_remove_returns_value() {
    let mut map: HMap<KVPair> = HMap::with_capacity(4);
    let h = hash_key("lang");
    map.insert(h, kv("lang", "rust"));
    assert_eq!(
        map.remove(h, eq_key("lang")).map(|p| p.val),
        Some("rust".to_string())
    );
}

#[test]
fn kv_hmap_remove_missing_returns_none() {
    let mut map: HMap<KVPair> = HMap::with_capacity(4);
    assert!(map.remove(hash_key("ghost"), eq_key("ghost")).is_none());
}

#[test]
fn kv_hmap_all_items_survive_rehash() {
    // capacity=4, MAX_LOAD_FACTOR=8: rehash triggers at size > 32
    let mut map: HMap<KVPair> = HMap::with_capacity(4);
    for i in 0..40usize {
        let key = format!("key{i}");
        map.insert(hash_key(&key), kv(&key, &i.to_string()));
    }
    for i in 0..40usize {
        let key = format!("key{i}");
        assert!(
            map.lookup(hash_key(&key), eq_key(&key)).is_some(),
            "key{i} missing after rehash"
        );
    }
}

#[test]
fn kv_hmap_lookup_spans_older_and_newer() {
    // capacity=16, MAX_LOAD_FACTOR=8: rehash triggers at size > 128.
    // After the 129th insert, 129 items move to older, rehash migrates 128 of them,
    // leaving 1 in older. All 129 must still be findable.
    let mut map: HMap<KVPair> = HMap::with_capacity(16);
    for i in 0..129usize {
        let key = format!("k{i}");
        map.insert(hash_key(&key), kv(&key, &i.to_string()));
    }
    for i in 0..129usize {
        let key = format!("k{i}");
        assert!(
            map.lookup(hash_key(&key), eq_key(&key)).is_some(),
            "k{i} not found while straddling older and newer"
        );
    }
}

#[test]
fn kv_hmap_remove_spans_older_and_newer() {
    let mut map: HMap<KVPair> = HMap::with_capacity(16);
    for i in 0..129usize {
        let key = format!("k{i}");
        map.insert(hash_key(&key), kv(&key, &i.to_string()));
    }
    for i in 0..129usize {
        let key = format!("k{i}");
        assert!(
            map.remove(hash_key(&key), eq_key(&key)).is_some(),
            "k{i} not removable while straddling older and newer"
        );
    }
    for i in 0..129usize {
        let key = format!("k{i}");
        assert!(
            map.lookup(hash_key(&key), eq_key(&key)).is_none(),
            "k{i} still present after remove"
        );
    }
}

#[test]
fn kv_hmap_no_duplicates_after_migration() {
    // Each key should be removable exactly once after migration completes
    let mut map: HMap<KVPair> = HMap::with_capacity(4);
    for i in 0..40usize {
        let key = format!("item{i}");
        map.insert(hash_key(&key), kv(&key, &i.to_string()));
    }
    for i in 0..40usize {
        let key = format!("item{i}");
        let h = hash_key(&key);
        assert!(map.remove(h, eq_key(&key)).is_some(), "item{i} missing");
        assert!(map.remove(h, eq_key(&key)).is_none(), "item{i} found twice");
    }
}
