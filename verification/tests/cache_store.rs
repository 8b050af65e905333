use entity_cache::cache::CacheStore;
use entity_cache::text::{str_contains_ci, str_has_prefix, u128_to_dec};
use entity_cache::config::{entity_cache_key, generate_cache_key, generate_query_key, generate_query_prefix};
use entity_cache::entity::Record;

fn key(s: &str) -> String {
    String::from(s)
}

fn bytes(s: &str) -> Vec<u8> {
    s.as_bytes().to_vec()
}

#[test]
fn get_returns_value_until_ttl_elapses() {
    let mut store = CacheStore::new();
    let k = key("user:1");
    store.set(&k, bytes("alice"), Some(10), Vec::new(), 100).unwrap();
    // before the expiry instant the value is served
    assert_eq!(store.get(&k, 100), Some(bytes("alice")));
    assert_eq!(store.get(&k, 109), Some(bytes("alice")));
    // from the expiry instant on the entry is absent, and evicted
    assert_eq!(store.get(&k, 110), None);
    assert_eq!(store.len(), 0);
    assert_eq!(store.get(&k, 100), None);
}

#[test]
fn entry_without_ttl_never_expires() {
    let mut store = CacheStore::new();
    let k = key("user:2");
    store.set(&k, bytes("bob"), None, Vec::new(), 0).unwrap();
    assert_eq!(store.get(&k, u64::MAX), Some(bytes("bob")));
}

#[test]
fn set_overwrites_unconditionally() {
    let mut store = CacheStore::new();
    let k = key("user:3");
    store.set(&k, bytes("v1"), Some(5), vec![key("t1")], 0).unwrap();
    store.set(&k, bytes("v2"), Some(50), Vec::new(), 0).unwrap();
    assert_eq!(store.get(&k, 10), Some(bytes("v2")));
    // tags were replaced, not merged
    assert_eq!(store.scan_tag(&key("t1")).len(), 0);
}

#[test]
fn delete_absent_key_returns_false() {
    let mut store = CacheStore::new();
    assert!(!store.delete(&key("missing")));
    store.set(&key("user:4"), bytes("x"), None, Vec::new(), 0).unwrap();
    assert!(store.delete(&key("user:4")));
    // idempotent: the second delete is a clean false, not an error
    assert!(!store.delete(&key("user:4")));
}

#[test]
fn delete_prefix_clears_exactly_the_namespace() {
    let mut store = CacheStore::new();
    store.set(&key("user:1"), bytes("a"), None, Vec::new(), 0).unwrap();
    store.set(&key("user:2"), bytes("b"), None, Vec::new(), 0).unwrap();
    store.set(&key("order:1"), bytes("c"), None, Vec::new(), 0).unwrap();
    let removed = store.delete_prefix(&key("user:"));
    assert_eq!(removed, 2);
    assert_eq!(store.get(&key("user:1"), 0), None);
    assert_eq!(store.get(&key("user:2"), 0), None);
    assert_eq!(store.get(&key("order:1"), 0), Some(bytes("c")));
}

#[test]
fn tagged_eviction_removes_exactly_tagged_keys() {
    let mut store = CacheStore::new();
    // overlapping and disjoint tag sets
    store.set(&key("a"), bytes("1"), None, vec![key("red"), key("blue")], 0).unwrap();
    store.set(&key("b"), bytes("2"), None, vec![key("blue")], 0).unwrap();
    store.set(&key("c"), bytes("3"), None, vec![key("green")], 0).unwrap();
    store.set(&key("d"), bytes("4"), None, Vec::new(), 0).unwrap();
    let removed = store.delete_tag(&key("blue"));
    assert_eq!(removed, 2);
    assert_eq!(store.get(&key("a"), 0), None);
    assert_eq!(store.get(&key("b"), 0), None);
    assert_eq!(store.get(&key("c"), 0), Some(bytes("3")));
    assert_eq!(store.get(&key("d"), 0), Some(bytes("4")));
}

#[test]
fn scan_tag_lists_tag_carriers_in_order() {
    let mut store = CacheStore::new();
    store.set(&key("a"), bytes("1"), None, vec![key("hot")], 0).unwrap();
    store.set(&key("b"), bytes("2"), None, Vec::new(), 0).unwrap();
    store.set(&key("c"), bytes("3"), None, vec![key("hot")], 0).unwrap();
    let keys = store.scan_tag(&key("hot"));
    assert_eq!(keys, vec![key("a"), key("c")]);
}

#[test]
fn sweep_expired_removes_only_expired_entries() {
    let mut store = CacheStore::new();
    store.set(&key("a"), bytes("1"), Some(10), Vec::new(), 0).unwrap();
    store.set(&key("b"), bytes("2"), Some(100), Vec::new(), 0).unwrap();
    store.set(&key("c"), bytes("3"), None, Vec::new(), 0).unwrap();
    let removed = store.sweep_expired(50);
    assert_eq!(removed, 1);
    assert_eq!(store.len(), 2);
    assert!(store.peek(&key("b"), 50));
    assert!(store.peek(&key("c"), 50));
}

#[test]
fn value_bytes_sums_stored_sizes() {
    let mut store = CacheStore::new();
    store.set(&key("a"), vec![0u8; 10], None, Vec::new(), 0).unwrap();
    store.set(&key("b"), vec![0u8; 32], None, Vec::new(), 0).unwrap();
    assert_eq!(store.value_bytes(), 42);
}

#[test]
fn decimal_rendering_is_exact() {
    assert_eq!(u128_to_dec(0), "0");
    assert_eq!(u128_to_dec(7), "7");
    assert_eq!(u128_to_dec(12345), "12345");
    assert_eq!(u128_to_dec(u128::MAX), "340282366920938463463374607431768211455");
}

#[test]
fn cache_keys_are_namespaced() {
    assert_eq!(generate_cache_key(&key("user"), 42), "user:42");
    assert_eq!(generate_query_prefix(&key("user")), "user:query:");
    assert_eq!(generate_query_key(&key("user"), 99), "user:query:99");
}

#[test]
fn entity_interface_names_its_own_slot() {
    let r = Record { id: 42, created_at: 7, fields: Vec::new() };
    assert_eq!(entity_cache_key(&key("user"), &r), "user:42");
}

#[test]
fn prefix_test_is_exact() {
    assert!(str_has_prefix("user:42", "user:"));
    assert!(!str_has_prefix("user", "user:"));
    assert!(str_has_prefix("anything", ""));
    assert!(!str_has_prefix("order:42", "user:"));
}

#[test]
fn substring_search_is_case_insensitive() {
    assert!(str_contains_ci("Alice Smith", "alice"));
    assert!(str_contains_ci("alice", "ALICE"));
    assert!(str_contains_ci("xyzAbCdef", "abcd"));
    assert!(!str_contains_ci("bob", "alice"));
    assert!(str_contains_ci("anything", ""));
    assert!(!str_contains_ci("", "a"));
}
