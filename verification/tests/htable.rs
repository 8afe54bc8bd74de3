use redis_rs::kv::{HTab, KVPair};
use std::collections::hash_map::DefaultHasher;
use std::hash::{Hash, Hasher};

fn hash_key(key: &str) -> usize {
    let mut h = DefaultHasher::new();
    key.hash(&mut h);
    h.finish() as usize
}

fn kv(key: &str, val: &str) -> KVPair {
    KVPair::new(key.to_string(), val.to_string())
}

fn eq_key(key: &str) -> impl Fn(&KVPair) -> bool + '_ {
    move |p| p.key == key
}

#[test]
fn htable_lookup_empty_table() {
    let mut tab: HTab<KVPair> = HTab::with_capacity(8);
    assert!(tab.lookup(hash_key("foo"), eq_key("foo")).is_none());
}

#[test]
fn htable_insert_and_lookup() {
    let mut tab: HTab<KVPair> = HTab::with_capacity(8);
    let h = hash_key("name");
    tab.insert(h, kv("name", "redis"));
    assert_eq!(
        tab.lookup(h, eq_key("name")).map(|p| p.val.as_str()),
        Some("redis")
    );
}

#[test]
fn htable_lookup_wrong_key_same_hcode() {
    // Same hcode, eq returns false: a true hash collision
    let mut tab: HTab<KVPair> = HTab::with_capacity(8);
    tab.insert(42, kv("foo", "bar"));
    assert!(tab.lookup(42, eq_key("baz")).is_none());
}

#[test]
fn htable_remove_returns_value() {
    let mut tab: HTab<KVPair> = HTab::with_capacity(8);
    let h = hash_key("host");
    tab.insert(h, kv("host", "localhost"));
    let removed = tab.remove(h, eq_key("host"));
    assert_eq!(removed.map(|p| p.val), Some("localhost".to_string()));
}

#[test]
fn htable_remove_missing_returns_none() {
    let mut tab: HTab<KVPair> = HTab::with_capacity(8);
    assert!(tab.remove(hash_key("ghost"), eq_key("ghost")).is_none());
}

#[test]
fn htable_remove_makes_key_unreachable() {
    let mut tab: HTab<KVPair> = HTab::with_capacity(8);
    let h = hash_key("port");
    tab.insert(h, kv("port", "6379"));
    tab.remove(h, eq_key("port"));
    assert!(tab.lookup(h, eq_key("port")).is_none());
}

#[test]
fn htable_collision_chain_all_reachable() {
    // hcodes 0, 8, 16 all map to slot 0 with mask=7
    let mut tab: HTab<KVPair> = HTab::with_capacity(8);
    tab.insert(0, kv("a", "1"));
    tab.insert(8, kv("b", "2"));
    tab.insert(16, kv("c", "3"));
    assert!(tab.lookup(0, eq_key("a")).is_some());
    assert!(tab.lookup(8, eq_key("b")).is_some());
    assert!(tab.lookup(16, eq_key("c")).is_some());
}

#[test]
fn htable_remove_head_of_chain() {
    let mut tab: HTab<KVPair> = HTab::with_capacity(8);
    tab.insert(0, kv("a", "1"));
    tab.insert(8, kv("b", "2")); // prepended, so b is the head
    tab.remove(8, eq_key("b"));
    assert!(tab.lookup(8, eq_key("b")).is_none());
    assert!(tab.lookup(0, eq_key("a")).is_some());
}

#[test]
fn htable_remove_middle_of_chain() {
    let mut tab: HTab<KVPair> = HTab::with_capacity(8);
    tab.insert(0, kv("a", "1"));
    tab.insert(8, kv("b", "2"));
    tab.insert(16, kv("c", "3"));
    tab.remove(8, eq_key("b"));
    assert!(tab.lookup(0, eq_key("a")).is_some());
    assert!(tab.lookup(8, eq_key("b")).is_none());
    assert!(tab.lookup(16, eq_key("c")).is_some());
}

#[test]
fn htable_multiple_keys_same_hcode() {
    // True hash collision: same hcode, eq distinguishes them
    let mut tab: HTab<KVPair> = HTab::with_capacity(8);
    tab.insert(99, kv("x", "val_x"));
    tab.insert(99, kv("y", "val_y"));
    assert_eq!(
        tab.lookup(99, eq_key("x")).map(|p| p.val.as_str()),
        Some("val_x")
    );
    assert_eq!(
        tab.lookup(99, eq_key("y")).map(|p| p.val.as_str()),
        Some("val_y")
    );
}
