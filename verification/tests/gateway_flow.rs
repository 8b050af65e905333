use entity_cache::config::{CacheConfig, CacheInvalidationStrategy};
use entity_cache::crud::{
    MutationKind, SaveAction, assign_id, exists_from_lookup, plan_save, plan_upsert,
    prepare_create, prepare_update,
};
use entity_cache::errors::CoreError;
use entity_cache::gateway::{EntityGateway, query_hash};
use entity_cache::query::{PaginationParams, QueryFilters, SortOrder};

fn key(s: &str) -> String {
    String::from(s)
}

fn bytes(s: &str) -> Vec<u8> {
    s.as_bytes().to_vec()
}

fn config(prefix: &str, strategy: CacheInvalidationStrategy) -> CacheConfig {
    CacheConfig {
        default_ttl: 300,
        invalidation_strategy: strategy,
        key_prefix: key(prefix),
        cache_queries: true,
        query_cache_ttl: 60,
    }
}

#[test]
fn read_path_counts_hits_and_misses() {
    let mut gw = EntityGateway::new();
    let cfg = config("user", CacheInvalidationStrategy::Immediate);
    assert_eq!(gw.get_from_cache(&key("user"), 1, 0), None);
    gw.store_in_cache(&cfg, 1, bytes("alice"), 0).unwrap();
    assert_eq!(gw.get_from_cache(&key("user"), 1, 10), Some(bytes("alice")));
    let stats = gw.cache_stats();
    assert_eq!(stats.hits, 1);
    assert_eq!(stats.misses, 1);
    assert_eq!(stats.total_keys, 1);
    assert_eq!(stats.total_size_bytes, 5);
}

#[test]
fn read_through_entry_expires_with_default_ttl() {
    let mut gw = EntityGateway::new();
    let cfg = config("user", CacheInvalidationStrategy::Immediate);
    gw.store_in_cache(&cfg, 1, bytes("v"), 1000).unwrap();
    assert!(gw.exists_in_cache(&key("user"), 1, 1299));
    assert!(!gw.exists_in_cache(&key("user"), 1, 1300));
}

#[test]
fn stampede_guard_admits_one_populator() {
    let mut gw = EntityGateway::new();
    let cfg = config("user", CacheInvalidationStrategy::Immediate);
    // several callers race for the same absent key: one wins
    assert!(gw.begin_populate(&key("user"), 9));
    assert!(!gw.begin_populate(&key("user"), 9));
    assert!(!gw.begin_populate(&key("user"), 9));
    // a different key is fenced independently
    assert!(gw.begin_populate(&key("user"), 10));
    // the winner publishes the fallback's result; everyone reads it
    gw.finish_populate(&cfg, 9, bytes("computed-once"), 0).unwrap();
    assert_eq!(gw.get_from_cache(&key("user"), 9, 1), Some(bytes("computed-once")));
    assert_eq!(gw.get_from_cache(&key("user"), 9, 2), Some(bytes("computed-once")));
    // the fence is released, a later population may start again
    assert!(gw.begin_populate(&key("user"), 9));
}

#[test]
fn abandoned_population_releases_the_fence() {
    let mut gw = EntityGateway::new();
    assert!(gw.begin_populate(&key("user"), 5));
    gw.abandon_populate(&key("user"), 5);
    assert!(gw.begin_populate(&key("user"), 5));
    // nothing was written
    assert_eq!(gw.get_from_cache(&key("user"), 5, 0), None);
}

#[test]
fn update_cache_only_refreshes_present_entries() {
    let mut gw = EntityGateway::new();
    let cfg = config("user", CacheInvalidationStrategy::Immediate);
    // absent: nothing is written
    gw.update_cache(&cfg, 3, bytes("x"), 0).unwrap();
    assert!(!gw.exists_in_cache(&key("user"), 3, 0));
    // present: refreshed
    gw.store_in_cache(&cfg, 3, bytes("old"), 0).unwrap();
    gw.update_cache(&cfg, 3, bytes("new"), 10).unwrap();
    assert_eq!(gw.get_from_cache(&key("user"), 3, 20), Some(bytes("new")));
}

#[test]
fn mutation_with_immediate_strategy_refills_and_clears_queries() {
    let mut gw = EntityGateway::new();
    let cfg = config("user", CacheInvalidationStrategy::Immediate);
    gw.store_in_cache(&cfg, 1, bytes("old"), 0).unwrap();
    gw.store_query_result(&cfg, 77, bytes("page-one"), 0).unwrap();

    let walked = gw.after_mutation(&cfg, 1, MutationKind::Update, Some(bytes("new")), 10);
    assert_eq!(walked, vec![key("user")]);
    assert_eq!(gw.get_from_cache(&key("user"), 1, 11), Some(bytes("new")));
    // the derived query cache was cleared by the trigger
    assert_eq!(gw.query_cached(&cfg, 77, 11), None);
}

#[test]
fn delete_mutation_leaves_the_key_absent() {
    let mut gw = EntityGateway::new();
    let cfg = config("user", CacheInvalidationStrategy::TimeToLive(100));
    gw.store_in_cache(&cfg, 2, bytes("v"), 0).unwrap();
    gw.after_mutation(&cfg, 2, MutationKind::Delete, None, 5);
    assert!(!gw.exists_in_cache(&key("user"), 2, 5));
}

#[test]
fn manual_strategy_mutation_changes_nothing() {
    let mut gw = EntityGateway::new();
    let cfg = config("user", CacheInvalidationStrategy::Manual);
    gw.store_in_cache(&cfg, 2, bytes("stale"), 0).unwrap();
    let walked = gw.after_mutation(&cfg, 2, MutationKind::Delete, None, 5);
    assert!(walked.is_empty());
    assert_eq!(gw.get_from_cache(&key("user"), 2, 5), Some(bytes("stale")));
}

#[test]
fn query_cache_round_trip_and_opt_out() {
    let mut gw = EntityGateway::new();
    let caching = config("user", CacheInvalidationStrategy::Immediate);
    let h = 12345u64;
    assert_eq!(gw.query_cached(&caching, h, 0), None);
    gw.store_query_result(&caching, h, bytes("result"), 0).unwrap();
    assert_eq!(gw.query_cached(&caching, h, 10), Some(bytes("result")));
    // the query cache expires on its own shorter TTL
    assert_eq!(gw.query_cached(&caching, h, 60), None);

    let mut no_caching = config("order", CacheInvalidationStrategy::Immediate);
    no_caching.cache_queries = false;
    gw.store_query_result(&no_caching, h, bytes("result"), 0).unwrap();
    assert_eq!(gw.query_cached(&no_caching, h, 0), None);
}

#[test]
fn query_hash_is_deterministic() {
    let build = || {
        let mut f = QueryFilters::default();
        f.search_query = Some(key("alice"));
        f.search_fields = vec![key("name")];
        f.include_ids = Some(vec![1, 2, 3]);
        f
    };
    let params = PaginationParams { page: 2, per_page: 10, max_per_page: 100 };
    let h1 = query_hash(&build(), Some(SortOrder::Asc), &params);
    let h2 = query_hash(&build(), Some(SortOrder::Asc), &params);
    assert_eq!(h1, h2);
    // a changed parameter names a different slot
    let other = PaginationParams { page: 3, per_page: 10, max_per_page: 100 };
    let h3 = query_hash(&build(), Some(SortOrder::Asc), &other);
    assert_ne!(h1, h3);
    let h4 = query_hash(&build(), Some(SortOrder::Desc), &params);
    assert_ne!(h1, h4);
}

#[test]
fn registering_a_namespace_twice_is_refused() {
    let mut gw = EntityGateway::new();
    gw.register_type(config("user", CacheInvalidationStrategy::Immediate)).unwrap();
    let r = gw.register_type(config("user", CacheInvalidationStrategy::Manual));
    assert_eq!(r, Err(CoreError::ValidationError));
    assert!(gw.config_for(&key("user")).is_some());
    assert!(gw.config_for(&key("order")).is_none());
}

#[test]
fn create_assigns_fresh_ids_only_for_nil() {
    assert_eq!(assign_id(42), 42);
    // the generated replacement for the nil id is never nil
    assert_ne!(assign_id(0), 0);
    assert_eq!(prepare_create(7, true), Ok(7));
    assert_eq!(prepare_create(7, false), Err(CoreError::ValidationError));
    let fresh = prepare_create(0, true).unwrap();
    assert_ne!(fresh, 0);
}

#[test]
fn update_gates_on_presence_then_validity() {
    assert_eq!(prepare_update(false, true), Err(CoreError::NotFound));
    assert_eq!(prepare_update(false, false), Err(CoreError::NotFound));
    assert_eq!(prepare_update(true, false), Err(CoreError::ValidationError));
    assert_eq!(prepare_update(true, true), Ok(()));
}

#[test]
fn save_and_upsert_decisions() {
    assert_eq!(plan_save(0, false), SaveAction::Insert);
    assert_eq!(plan_save(0, true), SaveAction::Insert);
    assert_eq!(plan_save(5, false), SaveAction::Insert);
    assert_eq!(plan_save(5, true), SaveAction::Update);
    assert_eq!(plan_upsert(true), MutationKind::Update);
    assert_eq!(plan_upsert(false), MutationKind::Create);
    assert!(exists_from_lookup(true));
    assert!(!exists_from_lookup(false));
}

#[test]
fn warm_up_populates_only_missing_entries() {
    let mut gw = EntityGateway::new();
    let cfg = config("user", CacheInvalidationStrategy::Immediate);
    gw.store_in_cache(&cfg, 1, bytes("live"), 0).unwrap();
    let fetched = vec![(1u128, bytes("fetched-1")), (2u128, bytes("fetched-2"))];
    gw.warm_up_cache(&cfg, &fetched, 10);
    // the live entry was not overwritten, the missing one was filled
    assert_eq!(gw.get_from_cache(&key("user"), 1, 20), Some(bytes("live")));
    assert_eq!(gw.get_from_cache(&key("user"), 2, 20), Some(bytes("fetched-2")));
}

#[test]
fn clear_all_empties_one_namespace() {
    let mut gw = EntityGateway::new();
    let users = config("user", CacheInvalidationStrategy::Immediate);
    let orders = config("order", CacheInvalidationStrategy::Immediate);
    gw.store_in_cache(&users, 1, bytes("a"), 0).unwrap();
    gw.store_in_cache(&users, 2, bytes("b"), 0).unwrap();
    gw.store_query_result(&users, 5, bytes("q"), 0).unwrap();
    gw.store_in_cache(&orders, 1, bytes("c"), 0).unwrap();
    let removed = gw.cache_clear_all(&key("user"));
    assert_eq!(removed, 3);
    assert!(!gw.exists_in_cache(&key("user"), 1, 0));
    assert!(!gw.exists_in_cache(&key("user"), 2, 0));
    assert!(gw.exists_in_cache(&key("order"), 1, 0));
}

#[test]
fn error_taxonomy_classification() {
    assert!(CoreError::CacheUnavailable.read_degrades());
    assert!(!CoreError::StoreFailure.read_degrades());
    assert!(!CoreError::CacheUnavailable.blocks_mutation());
    assert!(!CoreError::InvalidationFailure.blocks_mutation());
    assert!(CoreError::ValidationError.blocks_mutation());
    assert!(CoreError::StoreFailure.blocks_mutation());
    assert!(CoreError::SerializationError.blocks_mutation());
    assert!(CoreError::NotImplemented.blocks_mutation());
    let variants = [
        CoreError::CacheUnavailable,
        CoreError::SerializationError,
        CoreError::NotFound,
        CoreError::ValidationError,
        CoreError::StoreFailure,
        CoreError::InvalidationFailure,
        CoreError::NotImplemented,
    ];
    for v in variants.iter() {
        assert!(!v.message().is_empty());
    }
}
