use redis_rs::kv::{HMap, HTab, KVPair};
use std::collections::hash_map::DefaultHasher;
use std::hash::{Hash, Hasher};

fn kv(key: &str, val: &str) -> KVPair {
    KVPair::new(key.to_string(), val.to_string())
}

fn eq_key(key: &str) -> impl Fn(&KVPair) -> bool + '_ {
    move |p| p.key == key
}

fn hash_of<H: Hash>(x: &H) -> u64 {
    let mut h = DefaultHasher::new();
    x.hash(&mut h);
    h.finish()
}

#[test]
fn pair_hashes_as_its_key() {
    let p = kv("user", "alice");
    assert_eq!(hash_of(&p), hash_of(&"user".to_string()));
    assert_eq!(hash_of(&kv("user", "bob")), hash_of(&p));
    assert_ne!(hash_of(&kv("other", "alice")), hash_of(&p));
}

#[test]
fn table_lookup_finds_the_newest_match() {
    let mut tab: HTab<KVPair> = HTab::with_capacity(4);
    tab.insert(7, kv("k", "old"));
    tab.insert(7, kv("k", "new"));
    assert_eq!(tab.lookup(7, eq_key("k")).map(|p| p.val.clone()), Some("new".to_string()));
    assert_eq!(tab.remove(7, eq_key("k")).map(|p| p.val), Some("new".to_string()));
    assert_eq!(tab.lookup(7, eq_key("k")).map(|p| p.val.clone()), Some("old".to_string()));
    assert_eq!(tab.remove(7, eq_key("k")).map(|p| p.val), Some("old".to_string()));
    assert!(tab.lookup(7, eq_key("k")).is_none());
}

#[test]
fn map_lookup_finds_the_newest_match() {
    let mut map: HMap<KVPair> = HMap::with_capacity(2);
    map.insert(3, kv("a", "1"));
    map.insert(3, kv("a", "2"));
    assert_eq!(map.lookup(3, eq_key("a")).map(|p| p.val.clone()), Some("2".to_string()));
}

#[test]
fn lookup_needs_the_same_hash() {
    let mut map: HMap<KVPair> = HMap::with_capacity(2);
    map.insert(3, kv("a", "1"));
    assert!(map.lookup(4, eq_key("a")).is_none());
    assert!(map.remove(4, eq_key("a")).is_none());
    assert!(map.lookup(3, eq_key("a")).is_some());
}

#[test]
fn table_lookup_mut_changes_the_stored_value() {
    let mut tab: HTab<KVPair> = HTab::with_capacity(2);
    tab.insert(1, kv("x", "before"));
    if let Some(p) = tab.lookup_mut(1, eq_key("x")) {
        p.val = "after".to_string();
    }
    assert_eq!(tab.lookup(1, eq_key("x")).map(|p| p.val.clone()), Some("after".to_string()));
    assert!(tab.lookup_mut(1, eq_key("y")).is_none());
}

#[test]
fn map_lookup_mut_changes_the_stored_value_across_rehash() {
    let mut map: HMap<KVPair> = HMap::with_capacity(1);
    for i in 0..200u64 {
        map.insert(i as usize, kv(&format!("k{i}"), "v"));
    }
    for i in 0..200u64 {
        let key = format!("k{i}");
        let p = map.lookup_mut(i as usize, eq_key(&key)).expect("stored");
        p.val = format!("w{i}");
    }
    for i in 0..200u64 {
        let key = format!("k{i}");
        assert_eq!(
            map.lookup(i as usize, eq_key(&key)).map(|p| p.val.clone()),
            Some(format!("w{i}"))
        );
    }
}

#[test]
fn remove_takes_out_one_match_only() {
    let mut map: HMap<KVPair> = HMap::with_capacity(4);
    map.insert(9, kv("dup", "first"));
    map.insert(9, kv("dup", "second"));
    map.insert(9, kv("other", "x"));
    assert_eq!(map.remove(9, eq_key("dup")).map(|p| p.val), Some("second".to_string()));
    assert_eq!(map.lookup(9, eq_key("dup")).map(|p| p.val.clone()), Some("first".to_string()));
    assert_eq!(map.lookup(9, eq_key("other")).map(|p| p.val.clone()), Some("x".to_string()));
}

#[test]
fn values_survive_many_rehashes() {
    let mut map: HMap<KVPair> = HMap::with_capacity(1);
    for i in 0..3000u64 {
        let key = format!("key{i}");
        map.insert(hash_of(&key) as usize, kv(&key, &i.to_string()));
    }
    for i in 0..3000u64 {
        let key = format!("key{i}");
        assert_eq!(
            map.lookup(hash_of(&key) as usize, eq_key(&key)).map(|p| p.val.clone()),
            Some(i.to_string())
        );
    }
    for i in (0..3000u64).step_by(2) {
        let key = format!("key{i}");
        assert!(map.remove(hash_of(&key) as usize, eq_key(&key)).is_some());
    }
    for i in 0..3000u64 {
        let key = format!("key{i}");
        assert_eq!(map.lookup(hash_of(&key) as usize, eq_key(&key)).is_some(), i % 2 == 1);
    }
}

#[test]
fn moved_values_reverse_their_order() {
    // One slot: the ninth value (9 > 1 * 8) moves the whole table over, each
    // value in turn to the head of the new chain, so the oldest ends up first.
    let mut map: HMap<KVPair> = HMap::with_capacity(1);
    for i in 0..8 {
        map.insert(5, kv("dup", &i.to_string()));
    }
    assert_eq!(map.lookup(5, eq_key("dup")).map(|p| p.val.clone()), Some("7".to_string()));
    map.insert(5, kv("dup", "8"));
    assert_eq!(map.lookup(5, eq_key("dup")).map(|p| p.val.clone()), Some("0".to_string()));
}
