use entity_cache::cache::CacheStore;
use entity_cache::config::{CacheConfig, CacheInvalidationStrategy, generate_cache_key};
use entity_cache::errors::CoreError;
use entity_cache::invalidation::{
    InvalidationEngine, invalidate_cache, invalidate_multiple_cache,
};

fn key(s: &str) -> String {
    String::from(s)
}

fn bytes(s: &str) -> Vec<u8> {
    s.as_bytes().to_vec()
}

fn config(prefix: &str, strategy: CacheInvalidationStrategy) -> CacheConfig {
    CacheConfig {
        default_ttl: 300,
        invalidation_strategy: strategy,
        key_prefix: key(prefix),
        cache_queries: true,
        query_cache_ttl: 60,
    }
}

#[test]
fn cascade_cycle_terminates_and_evicts_each_type_once() {
    let mut engine = InvalidationEngine::new();
    engine.register(config("a", CacheInvalidationStrategy::Cascade(vec![key("b")]))).unwrap();
    engine.register(config("b", CacheInvalidationStrategy::Cascade(vec![key("a")]))).unwrap();

    let mut store = CacheStore::new();
    store.set(&key("a:7"), bytes("va"), None, Vec::new(), 0).unwrap();
    store.set(&key("b:7"), bytes("vb"), None, Vec::new(), 0).unwrap();
    store.set(&key("c:7"), bytes("vc"), None, Vec::new(), 0).unwrap();

    let walked = engine.cascade_invalidate(&mut store, &key("a"), 7);
    // the cycle a -> b -> a is walked exactly once per type
    assert_eq!(walked, vec![key("a"), key("b")]);
    assert!(!store.peek(&key("a:7"), 0));
    assert!(!store.peek(&key("b:7"), 0));
    // an unrelated type's entry is untouched
    assert!(store.peek(&key("c:7"), 0));
}

#[test]
fn cascade_clears_query_namespaces_of_walked_types() {
    let mut engine = InvalidationEngine::new();
    engine.register(config("a", CacheInvalidationStrategy::Cascade(vec![key("b")]))).unwrap();
    engine.register(config("b", CacheInvalidationStrategy::Manual)).unwrap();

    let mut store = CacheStore::new();
    store.set(&key("a:query:123"), bytes("qa"), None, Vec::new(), 0).unwrap();
    store.set(&key("b:query:456"), bytes("qb"), None, Vec::new(), 0).unwrap();

    let walked = engine.cascade_invalidate(&mut store, &key("a"), 7);
    assert_eq!(walked, vec![key("a"), key("b")]);
    assert!(!store.peek(&key("a:query:123"), 0));
    assert!(!store.peek(&key("b:query:456"), 0));
}

#[test]
fn immediate_strategy_evicts_entity_and_query_cache() {
    let engine = InvalidationEngine::new();
    let cfg = config("user", CacheInvalidationStrategy::Immediate);
    let mut store = CacheStore::new();
    store.set(&key("user:5"), bytes("old"), None, Vec::new(), 0).unwrap();
    store.set(&key("user:query:42"), bytes("page"), None, Vec::new(), 0).unwrap();
    store.set(&key("user:6"), bytes("other"), None, Vec::new(), 0).unwrap();

    let walked = engine.smart_invalidate(&mut store, &cfg, 5, None, 0);
    assert_eq!(walked, vec![key("user")]);
    assert!(!store.peek(&key("user:5"), 0));
    assert!(!store.peek(&key("user:query:42"), 0));
    assert!(store.peek(&key("user:6"), 0));
}

#[test]
fn ttl_strategy_repopulates_with_fresh_ttl() {
    let engine = InvalidationEngine::new();
    let cfg = config("user", CacheInvalidationStrategy::TimeToLive(50));
    let mut store = CacheStore::new();
    store.set(&key("user:5"), bytes("old"), Some(10), Vec::new(), 0).unwrap();

    let fresh = bytes("new");
    let walked = engine.smart_invalidate(&mut store, &cfg, 5, Some(&fresh), 100);
    assert!(walked.is_empty());
    // the new value lives under the strategy's TTL from the trigger instant
    assert_eq!(store.get(&key("user:5"), 149), Some(bytes("new")));
    assert_eq!(store.get(&key("user:5"), 150), None);
}

#[test]
fn manual_strategy_takes_no_action() {
    let engine = InvalidationEngine::new();
    let cfg = config("user", CacheInvalidationStrategy::Manual);
    let mut store = CacheStore::new();
    store.set(&key("user:5"), bytes("kept"), None, Vec::new(), 0).unwrap();
    let fresh = bytes("ignored");
    let walked = engine.smart_invalidate(&mut store, &cfg, 5, Some(&fresh), 0);
    assert!(walked.is_empty());
    assert_eq!(store.get(&key("user:5"), 0), Some(bytes("kept")));
}

#[test]
fn tagged_strategy_evicts_by_label() {
    let engine = InvalidationEngine::new();
    let cfg = config(
        "user",
        CacheInvalidationStrategy::Tagged(vec![key("team:9")]),
    );
    let mut store = CacheStore::new();
    store.set(&key("user:1"), bytes("a"), None, vec![key("team:9")], 0).unwrap();
    store.set(&key("user:2"), bytes("b"), None, vec![key("team:9"), key("vip")], 0).unwrap();
    store.set(&key("user:3"), bytes("c"), None, vec![key("vip")], 0).unwrap();

    engine.smart_invalidate(&mut store, &cfg, 1, None, 0);
    assert!(!store.peek(&key("user:1"), 0));
    assert!(!store.peek(&key("user:2"), 0));
    assert!(store.peek(&key("user:3"), 0));
}

#[test]
fn registry_refuses_duplicate_namespace() {
    let mut engine = InvalidationEngine::new();
    engine.register(config("user", CacheInvalidationStrategy::Immediate)).unwrap();
    let err = engine.register(config("user", CacheInvalidationStrategy::Manual));
    assert_eq!(err, Err(CoreError::ValidationError));
}

#[test]
fn invalidate_multiple_reports_presence_per_id() {
    let mut store = CacheStore::new();
    store.set(&generate_cache_key(&key("user"), 1), bytes("a"), None, Vec::new(), 0).unwrap();
    store.set(&generate_cache_key(&key("user"), 3), bytes("c"), None, Vec::new(), 0).unwrap();
    // id 1 repeats: the second eviction finds nothing
    let results = invalidate_multiple_cache(&mut store, &key("user"), &vec![1, 2, 3, 1]);
    assert_eq!(results, vec![true, false, true, false]);
    assert_eq!(store.len(), 0);
}

#[test]
fn single_invalidation_reports_presence() {
    let mut store = CacheStore::new();
    store.set(&generate_cache_key(&key("user"), 8), bytes("x"), None, Vec::new(), 0).unwrap();
    assert!(invalidate_cache(&mut store, &key("user"), 8));
    assert!(!invalidate_cache(&mut store, &key("user"), 8));
}

#[test]
fn cascade_depth_bound_cuts_off_long_chains() {
    let mut engine = InvalidationEngine::new();
    // a chain of ten types, each cascading into the next
    let names = ["t0", "t1", "t2", "t3", "t4", "t5", "t6", "t7", "t8", "t9"];
    for i in 0..names.len() {
        let deps = if i + 1 < names.len() {
            vec![key(names[i + 1])]
        } else {
            Vec::new()
        };
        engine.register(config(names[i], CacheInvalidationStrategy::Cascade(deps))).unwrap();
    }
    let mut store = CacheStore::new();
    let walked = engine.cascade_invalidate(&mut store, &key("t0"), 1);
    // the walk stops at the configured depth bound of eight
    assert_eq!(walked.len(), 8);
    assert_eq!(walked[0], key("t0"));
    assert_eq!(walked[7], key("t7"));
}
