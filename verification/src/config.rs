//! Per-entity-type cache configuration: the invalidation strategy, TTLs,
//! and the explicit key namespace, together with cache-key construction.
//!
//! Keys are built from an explicit, caller-chosen prefix — never derived
//! from a runtime type name — as `{prefix}:{id}` for entities and
//! `{prefix}:query:{hash}` for cached query results.

use vstd::prelude::*;
use vstd::string::*;
use crate::text;

verus! {

/// How cached entries of one entity type are invalidated on mutation.
pub enum CacheInvalidationStrategy {
    /// Evict the entity's own key synchronously before the mutation
    /// returns.
    Immediate,
    /// Do not evict: re-populate with this fresh TTL; staleness until
    /// expiry is accepted.
    TimeToLive(u64),
    /// No automatic action; the caller invalidates explicitly.
    Manual,
    /// Evict every key carrying any of these tags.
    Tagged(Vec<String>),
    /// Evict the entity's own key, then propagate to these dependent
    /// entity types under the same id.
    Cascade(Vec<String>),
}

/// The cache policy of one entity type. Immutable after construction; one
/// instance per entity type.
pub struct CacheConfig {
    /// Lifetime given to entity entries written on the read path.
    pub default_ttl: u64,
    /// What happens to cached entries when an entity is mutated.
    pub invalidation_strategy: CacheInvalidationStrategy,
    /// The explicit key namespace of this entity type.
    pub key_prefix: String,
    /// Whether query results are cached at all for this type.
    pub cache_queries: bool,
    /// Lifetime given to cached query results; shorter than `default_ttl`
    /// in typical use.
    pub query_cache_ttl: u64,
}

impl Default for CacheConfig {
    /// A conservative default: five-minute entry TTL, TTL-based
    /// invalidation, one-minute query cache, namespace `default`.
    fn default() -> (r: Self)
        ensures
            r.default_ttl == 300,
            r.invalidation_strategy == CacheInvalidationStrategy::TimeToLive(300),
            r.key_prefix@ == "default"@,
            r.cache_queries == true,
            r.query_cache_ttl == 60,
    {
        CacheConfig {
            default_ttl: 300,
            invalidation_strategy: CacheInvalidationStrategy::TimeToLive(300),
            key_prefix: "default".to_owned(),
            cache_queries: true,
            query_cache_ttl: 60,
        }
    }
}

impl CacheConfig {
    /// The namespace under which this type's keys live.
    pub fn cache_namespace(&self) -> (r: &String)
        ensures
            r@ == self.key_prefix@,
    {
        &self.key_prefix
    }
}

/// The cache key of entity `id` in namespace `prefix`.
pub open spec fn spec_entity_key(prefix: Seq<char>, id: u128) -> Seq<char> {
    prefix + ":"@ + text::dec_seq(id as int)
}

/// The namespace under which query results of `prefix` are cached.
pub open spec fn spec_query_prefix(prefix: Seq<char>) -> Seq<char> {
    prefix + ":query:"@
}

/// The cache key of a query result with parameter hash `hash`.
pub open spec fn spec_query_key(prefix: Seq<char>, hash: u64) -> Seq<char> {
    spec_query_prefix(prefix) + text::dec_seq(hash as int)
}

/// Builds `{prefix}:{id}`, the cache key of one entity.
pub fn generate_cache_key(prefix: &String, id: u128) -> (r: String)
    ensures
        r@ == spec_entity_key(prefix@, id),
{
    let mut s = prefix.clone();
    s.append(":");
    let digits = text::u128_to_dec(id);
    s.append(digits.as_str());
    proof {
        assert(s@ == prefix@ + ":"@ + text::dec_seq(id as int));
    }
    s
}

/// Builds the cache key of one entity through its capability interface:
/// any `IEntity` implementor names its own slot in the namespace.
pub fn entity_cache_key<E: crate::entity::IEntity>(prefix: &String, e: &E) -> (r: String)
    ensures
        r@ == spec_entity_key(prefix@, e.spec_id()),
{
    generate_cache_key(prefix, e.entity_id())
}

/// Builds `{prefix}:query:`, the namespace of cached query results.
pub fn generate_query_prefix(prefix: &String) -> (r: String)
    ensures
        r@ == spec_query_prefix(prefix@),
{
    let mut s = prefix.clone();
    s.append(":query:");
    s
}

/// Builds `{prefix}:query:{hash}`, the cache key of one query result.
pub fn generate_query_key(prefix: &String, hash: u64) -> (r: String)
    ensures
        r@ == spec_query_key(prefix@, hash),
{
    let mut s = prefix.clone();
    s.append(":query:");
    let digits = text::u128_to_dec(hash as u128);
    s.append(digits.as_str());
    proof {
        assert(s@ == (prefix@ + ":query:"@) + text::dec_seq(hash as int));
    }
    s
}

} // verus!
