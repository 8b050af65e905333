//! The entity gateway: the cache-aside read path, the stampede guard for
//! concurrent population, write-path invalidation with re-population, the
//! query-result cache keyed by a deterministic parameter hash, and the
//! hit/miss statistics.
//!
//! Persistence and the serialization codec are external collaborators.
//! The surrounding application performs their calls and hands the plain
//! results — encoded bytes, candidate records — to the functions here,
//! which make every decision about the cache.
//!
//! The read path is: `get_from_cache`; on a miss the application asks
//! persistence and, when it found the entity, hands the encoded bytes to
//! `store_in_cache`. For an expensive fallback, `begin_populate` /
//! `finish_populate` (or `abandon_populate` on failure) fence the
//! population so that one key is populated by at most one caller at a
//! time.

use vstd::prelude::*;
use vstd::seq_lib::*;
use vstd::string::StrSliceExecFns;
use crate::cache::{CacheStore, EntryModel, spec_expiry, size_sum};
use crate::config::{
    CacheConfig, generate_cache_key, generate_query_key, spec_entity_key, spec_query_key,
};
use crate::errors::CoreError;
use crate::invalidation::{InvalidationEngine, contains_string};
use crate::query::{PaginationParams, QueryFilters, SortOrder, min_int};
use crate::entity::FieldValue;
use crate::crud::MutationKind;

verus! {

/// One step of the 64-bit FNV-1a fold.
pub open spec fn fnv_step(h: u64, b: u64) -> u64 {
    vstd::wrapping::u64_specs::wrapping_mul(h ^ b, 0x100000001b3u64)
}

/// The FNV-1a offset basis.
pub const FNV_OFFSET: u64 = 0xcbf29ce484222325;

/// The fold over a character sequence, front to back.
pub open spec fn spec_hash_chars(h: u64, s: Seq<char>) -> u64
    decreases s.len(),
{
    if s.len() == 0 {
        h
    } else {
        fnv_step(spec_hash_chars(h, s.drop_last()), s.last() as u64)
    }
}

/// A string folded into the hash: its length first, then its characters,
/// so that neighbouring strings cannot run into each other.
pub open spec fn spec_hash_str(h: u64, s: Seq<char>) -> u64 {
    spec_hash_chars(fnv_step(h, s.len() as u64), s)
}

/// A signed integer folded in without truncation: a sign tag, then the
/// magnitude.
pub open spec fn spec_hash_i64(h: u64, x: i64) -> u64 {
    if x >= 0 {
        fnv_step(fnv_step(h, 1), x as u64)
    } else {
        fnv_step(fnv_step(h, 2), (-(x as int)) as u64)
    }
}

/// Folds a signed integer into the hash.
pub fn hash_i64(h: u64, x: i64) -> (r: u64)
    ensures
        r == spec_hash_i64(h, x),
{
    if x >= 0 {
        hash_step(hash_step(h, 1), x as u64)
    } else {
        let mag = -(x as i128);
        hash_step(hash_step(h, 2), mag as u64)
    }
}

/// A 128-bit integer folded in as two 64-bit halves.
pub open spec fn spec_hash_u128(h: u64, x: u128) -> u64 {
    fnv_step(fnv_step(h, (x >> 64) as u64), (x & 0xffff_ffff_ffff_ffff) as u64)
}

/// One executable FNV-1a step.
pub fn hash_step(h: u64, b: u64) -> (r: u64)
    ensures
        r == fnv_step(h, b),
{
    (h ^ b).wrapping_mul(0x100000001b3u64)
}

/// Folds a string into the hash.
#[verifier::loop_isolation(false)]
pub fn hash_str(h: u64, s: &String) -> (r: u64)
    ensures
        r == spec_hash_str(h, s@),
{
    let n = s.as_str().unicode_len();
    let mut acc = hash_step(h, n as u64);
    let ghost h0 = acc;
    let mut i: usize = 0;
    while i < n
        invariant
            n == s@.len(),
            i <= n,
            acc == spec_hash_chars(h0, s@.subrange(0, i as int)),
        decreases n - i,
    {
        let c = s.as_str().get_char(i);
        acc = hash_step(acc, c as u64);
        proof {
            assert(s@.subrange(0, i + 1).drop_last() =~= s@.subrange(0, i as int));
            assert(s@.subrange(0, i + 1).last() == s@[i as int]);
        }
        i += 1;
    }
    proof {
        assert(s@.subrange(0, s@.len() as int) =~= s@);
    }
    acc
}

/// Folds a 128-bit integer into the hash.
pub fn hash_u128(h: u64, x: u128) -> (r: u64)
    ensures
        r == spec_hash_u128(h, x),
{
    let hi = (x >> 64) as u64;
    let lo = (x & 0xffff_ffff_ffff_ffff) as u64;
    hash_step(hash_step(h, hi), lo)
}

/// A field value folded in: a variant tag, then the payload.
pub open spec fn spec_hash_value(h: u64, v: FieldValue) -> u64 {
    match v {
        FieldValue::Null => fnv_step(h, 0),
        FieldValue::Boolean(b) => fnv_step(fnv_step(h, 1), if b {
            1
        } else {
            0
        }),
        FieldValue::Integer(x) => spec_hash_i64(fnv_step(h, 2), x),
        FieldValue::Text(s) => spec_hash_str(fnv_step(h, 3), s@),
    }
}

/// Folds a field value into the hash.
pub fn hash_value(h: u64, v: &FieldValue) -> (r: u64)
    ensures
        r == spec_hash_value(h, *v),
{
    match v {
        FieldValue::Null => hash_step(h, 0),
        FieldValue::Boolean(b) => hash_step(hash_step(h, 1), if *b {
            1
        } else {
            0
        }),
        FieldValue::Integer(x) => hash_i64(hash_step(h, 2), *x),
        FieldValue::Text(s) => hash_str(hash_step(h, 3), s),
    }
}

/// The field filters folded in, front to back, each as name then value.
pub open spec fn spec_hash_pairs(h: u64, ps: Seq<(String, FieldValue)>) -> u64
    decreases ps.len(),
{
    if ps.len() == 0 {
        h
    } else {
        spec_hash_value(
            spec_hash_str(spec_hash_pairs(h, ps.drop_last()), ps.last().0@),
            ps.last().1,
        )
    }
}

/// Folds the field filters into the hash.
#[verifier::loop_isolation(false)]
pub fn hash_pairs(h: u64, ps: &Vec<(String, FieldValue)>) -> (r: u64)
    ensures
        r == spec_hash_pairs(h, ps@),
{
    let mut acc = h;
    let mut i: usize = 0;
    while i < ps.len()
        invariant
            i <= ps@.len(),
            acc == spec_hash_pairs(h, ps@.subrange(0, i as int)),
        decreases ps@.len() - i,
    {
        acc = hash_str(acc, &ps[i].0);
        acc = hash_value(acc, &ps[i].1);
        proof {
            assert(ps@.subrange(0, i + 1).drop_last() =~= ps@.subrange(0, i as int));
            assert(ps@.subrange(0, i + 1).last() == ps@[i as int]);
        }
        i += 1;
    }
    proof {
        assert(ps@.subrange(0, ps@.len() as int) =~= ps@);
    }
    acc
}

/// A list of strings folded in, front to back.
pub open spec fn spec_hash_strs(h: u64, ss: Seq<Seq<char>>) -> u64
    decreases ss.len(),
{
    if ss.len() == 0 {
        h
    } else {
        spec_hash_str(spec_hash_strs(h, ss.drop_last()), ss.last())
    }
}

/// Folds a list of strings into the hash.
#[verifier::loop_isolation(false)]
pub fn hash_strs(h: u64, ss: &Vec<String>) -> (r: u64)
    ensures
        r == spec_hash_strs(h, ss.deep_view()),
{
    let mut acc = h;
    let mut i: usize = 0;
    while i < ss.len()
        invariant
            i <= ss@.len(),
            acc == spec_hash_strs(h, ss.deep_view().subrange(0, i as int)),
        decreases ss@.len() - i,
    {
        acc = hash_str(acc, &ss[i]);
        proof {
            assert(ss.deep_view().subrange(0, i + 1).drop_last()
                =~= ss.deep_view().subrange(0, i as int));
            assert(ss.deep_view().subrange(0, i + 1).last() == ss.deep_view()[i as int]);
            assert(ss.deep_view()[i as int] == ss@[i as int]@);
        }
        i += 1;
    }
    proof {
        assert(ss.deep_view().subrange(0, ss.deep_view().len() as int) =~= ss.deep_view());
    }
    acc
}

/// A list of ids folded in, front to back.
pub open spec fn spec_hash_ids(h: u64, ids: Seq<u128>) -> u64
    decreases ids.len(),
{
    if ids.len() == 0 {
        h
    } else {
        spec_hash_u128(spec_hash_ids(h, ids.drop_last()), ids.last())
    }
}

/// Folds a list of ids into the hash.
#[verifier::loop_isolation(false)]
pub fn hash_ids(h: u64, ids: &Vec<u128>) -> (r: u64)
    ensures
        r == spec_hash_ids(h, ids@),
{
    let mut acc = h;
    let mut i: usize = 0;
    while i < ids.len()
        invariant
            i <= ids@.len(),
            acc == spec_hash_ids(h, ids@.subrange(0, i as int)),
        decreases ids@.len() - i,
    {
        acc = hash_u128(acc, ids[i]);
        proof {
            assert(ids@.subrange(0, i + 1).drop_last() =~= ids@.subrange(0, i as int));
            assert(ids@.subrange(0, i + 1).last() == ids@[i as int]);
        }
        i += 1;
    }
    proof {
        assert(ids@.subrange(0, ids@.len() as int) =~= ids@);
    }
    acc
}

/// An optional component folded in: a presence tag, then the payload.
pub open spec fn spec_hash_opt_ids(h: u64, ids: Option<Seq<u128>>) -> u64 {
    match ids {
        None => fnv_step(h, 0),
        Some(v) => spec_hash_ids(fnv_step(h, 1), v),
    }
}

/// The deterministic hash of one query's normalized parameters: the same
/// filters, sort and pagination always name the same query-cache slot.
pub open spec fn spec_query_hash(
    f: QueryFilters,
    sort: Option<SortOrder>,
    p: PaginationParams,
) -> u64 {
    let h0 = FNV_OFFSET as u64;
    let h1 = spec_hash_pairs(h0, f.field_filters@);
    let h2 = match f.search_query {
        None => fnv_step(h1, 0),
        Some(q) => spec_hash_str(fnv_step(h1, 1), q@),
    };
    let h3 = spec_hash_strs(h2, f.search_fields.deep_view());
    let h4 = match f.date_range {
        None => fnv_step(h3, 0),
        Some(d) => {
            let ha = match d.start {
                None => fnv_step(fnv_step(h3, 1), 0),
                Some(s) => spec_hash_i64(fnv_step(fnv_step(h3, 1), 1), s),
            };
            match d.end {
                None => fnv_step(ha, 0),
                Some(e) => spec_hash_i64(fnv_step(ha, 1), e),
            }
        },
    };
    let h5 = spec_hash_opt_ids(h4, match f.include_ids {
        None => None,
        Some(v) => Some(v@),
    });
    let h6 = spec_hash_opt_ids(h5, match f.exclude_ids {
        None => None,
        Some(v) => Some(v@),
    });
    let h7 = match sort {
        None => fnv_step(h6, 0),
        Some(SortOrder::Asc) => fnv_step(h6, 1),
        Some(SortOrder::Desc) => fnv_step(h6, 2),
    };
    fnv_step(fnv_step(fnv_step(h7, p.page as u64), p.per_page as u64), p.max_per_page as u64)
}

/// Computes the deterministic query-parameter hash that names a
/// query-cache slot.
pub fn query_hash(f: &QueryFilters, sort: Option<SortOrder>, p: &PaginationParams) -> (r: u64)
    ensures
        r == spec_query_hash(*f, sort, *p),
{
    let h0 = FNV_OFFSET;
    let h1 = hash_pairs(h0, &f.field_filters);
    let h2 = match &f.search_query {
        None => hash_step(h1, 0),
        Some(q) => hash_str(hash_step(h1, 1), q),
    };
    let h3 = hash_strs(h2, &f.search_fields);
    let h4 = match &f.date_range {
        None => hash_step(h3, 0),
        Some(d) => {
            let ha = match d.start {
                None => hash_step(hash_step(h3, 1), 0),
                Some(s) => hash_i64(hash_step(hash_step(h3, 1), 1), s),
            };
            match d.end {
                None => hash_step(ha, 0),
                Some(e) => hash_i64(hash_step(ha, 1), e),
            }
        },
    };
    let h5 = match &f.include_ids {
        None => hash_step(h4, 0),
        Some(v) => hash_ids(hash_step(h4, 1), v),
    };
    let h6 = match &f.exclude_ids {
        None => hash_step(h5, 0),
        Some(v) => hash_ids(hash_step(h5, 1), v),
    };
    let h7 = match sort {
        None => hash_step(h6, 0),
        Some(SortOrder::Asc) => hash_step(h6, 1),
        Some(SortOrder::Desc) => hash_step(h6, 2),
    };
    hash_step(hash_step(hash_step(h7, p.page as u64), p.per_page as u64), p.max_per_page as u64)
}

/// The derived cache statistics: counts the gateway maintains and sizes
/// recomputed from the store on demand.
pub struct CacheStats {
    /// How many entries the store holds, expired ones included.
    pub total_keys: u64,
    /// Reads answered from the cache since the gateway was built.
    pub hits: u64,
    /// Reads the cache could not answer since the gateway was built.
    pub misses: u64,
    /// The summed byte size of the stored values, saturated.
    pub total_size_bytes: u64,
}

/// A counter bumped by one, held at the ceiling instead of wrapping.
pub open spec fn spec_bump(c: u64) -> u64 {
    if c < u64::MAX {
        (c + 1) as u64
    } else {
        c
    }
}

fn bump(c: u64) -> (r: u64)
    ensures
        r == spec_bump(c),
{
    if c < u64::MAX {
        c + 1
    } else {
        c
    }
}

/// The gateway: one cache store, the per-type configuration registry with
/// its invalidation strategies, monotonic hit/miss counters, and the
/// in-flight markers of the stampede guard.
pub struct EntityGateway {
    /// The key/value cache behind every operation.
    pub store: CacheStore,
    /// The per-type configurations and their invalidation strategies.
    pub engine: InvalidationEngine,
    /// Reads answered from the cache.
    pub hits: u64,
    /// Reads the cache could not answer.
    pub misses: u64,
    /// The keys whose population is currently fenced.
    pub in_flight: Vec<String>,
}

impl EntityGateway {
    /// Well-formedness of all parts; the in-flight markers are unique.
    pub open spec fn wf(self) -> bool {
        &&& self.store.wf()
        &&& self.engine.wf()
        &&& self.in_flight.deep_view().no_duplicates()
    }

    /// Whether a population of `k` is currently in flight.
    pub open spec fn spec_in_flight(self, k: Seq<char>) -> bool {
        self.in_flight.deep_view().contains(k)
    }

    /// A gateway over an empty cache, with no types registered, zeroed
    /// counters and no population in flight.
    pub fn new() -> (r: EntityGateway)
        ensures
            r.wf(),
            forall|k: Seq<char>| r.store.lookup(k) is None,
            forall|p: Seq<char>| r.engine.spec_config(p) is None,
            r.hits == 0 && r.misses == 0,
            forall|k: Seq<char>| !r.spec_in_flight(k),
    {
        let r = EntityGateway {
            store: CacheStore::new(),
            engine: InvalidationEngine::new(),
            hits: 0,
            misses: 0,
            in_flight: Vec::new(),
        };
        proof {
            assert(r.in_flight.deep_view() =~= Seq::<Seq<char>>::empty());
        }
        r
    }

    /// Registers one entity type's configuration; refused when its
    /// namespace is already taken.
    pub fn register_type(&mut self, config: CacheConfig) -> (r: Result<(), CoreError>)
        requires
            old(self).wf(),
        ensures
            final(self).wf(),
            final(self).store == old(self).store,
            final(self).hits == old(self).hits && final(self).misses == old(self).misses,
            final(self).in_flight == old(self).in_flight,
            r is Ok <==> old(self).engine.spec_config(config.key_prefix@) is None,
            r is Ok ==> final(self).engine.spec_config(config.key_prefix@) == Some(config)
                && (forall|p: Seq<char>| p != config.key_prefix@
                    ==> final(self).engine.spec_config(p) == old(self).engine.spec_config(p)),
            r is Err ==> final(self).engine == old(self).engine
                && r == Err::<(), CoreError>(CoreError::ValidationError),
    {
        self.engine.register(config)
    }

    /// The configured policy of namespace `prefix`, if registered.
    pub fn config_for(&self, prefix: &String) -> (r: Option<&CacheConfig>)
        ensures
            match r {
                Some(c) => self.engine.spec_config(prefix@) == Some(*c),
                None => self.engine.spec_config(prefix@) is None,
            },
    {
        self.engine.config_for(prefix)
    }

    /// The cache-side read of entity `id`: its cached bytes, unless the
    /// key is absent or expired — a hit bumps the hit counter, everything
    /// else the miss counter. On a miss the caller continues to
    /// persistence and, if the entity exists, hands the bytes to
    /// `store_in_cache`.
    pub fn get_from_cache(&mut self, prefix: &String, id: u128, now: u64) -> (r: Option<Vec<u8>>)
        requires
            old(self).wf(),
        ensures
            final(self).wf(),
            final(self).engine == old(self).engine,
            final(self).in_flight == old(self).in_flight,
            (r is Some) == (old(self).store.live_lookup(spec_entity_key(prefix@, id), now)
                is Some),
            r matches Some(v) ==> old(self).store.live_lookup(spec_entity_key(prefix@, id), now)
                == Some(v@),
            forall|k: Seq<char>| #![auto] final(self).store.lookup(k) == if k
                == spec_entity_key(prefix@, id) && old(self).store.lookup(k) is Some
                && crate::cache::expired(old(self).store.lookup(k)->Some_0, now) {
                None::<EntryModel>
            } else {
                old(self).store.lookup(k)
            },
            r is Some ==> final(self).hits == spec_bump(old(self).hits)
                && final(self).misses == old(self).misses,
            r is None ==> final(self).misses == spec_bump(old(self).misses)
                && final(self).hits == old(self).hits,
    {
        let key = generate_cache_key(prefix, id);
        let got = self.store.get(&key, now);
        match &got {
            Some(_) => {
                self.hits = bump(self.hits);
            },
            None => {
                self.misses = bump(self.misses);
            },
        }
        got
    }

    /// Whether entity `id` currently has an unexpired cache entry; reads
    /// nothing and counts nothing.
    pub fn exists_in_cache(&self, prefix: &String, id: u128, now: u64) -> (r: bool)
        ensures
            r == (self.store.live_lookup(spec_entity_key(prefix@, id), now) is Some),
    {
        let key = generate_cache_key(prefix, id);
        self.store.peek(&key, now)
    }

    /// Writes entity `id`'s encoded bytes into the cache under the type's
    /// default TTL, with no tags.
    pub fn store_in_cache(&mut self, config: &CacheConfig, id: u128, value: Vec<u8>, now: u64)
        -> (r: Result<(), CoreError>)
        requires
            old(self).wf(),
        ensures
            final(self).wf(),
            final(self).engine == old(self).engine,
            final(self).in_flight == old(self).in_flight,
            final(self).hits == old(self).hits && final(self).misses == old(self).misses,
            r is Ok,
            final(self).store.lookup(spec_entity_key(config.key_prefix@, id))
                == Some(EntryModel {
                value: value@,
                expires_at: spec_expiry(Some(config.default_ttl), now),
                tags: Seq::<Seq<char>>::empty(),
            }),
            forall|k: Seq<char>| #![auto] k != spec_entity_key(config.key_prefix@, id)
                ==> final(self).store.lookup(k) == old(self).store.lookup(k),
    {
        let key = generate_cache_key(&config.key_prefix, id);
        let no_tags: Vec<String> = Vec::new();
        proof {
            assert(no_tags.deep_view() =~= Seq::<Seq<char>>::empty());
        }
        self.store.set(&key, value, Some(config.default_ttl), no_tags, now)
    }

    /// Writes entity `id`'s encoded bytes with tag labels, so that
    /// tag-based invalidation can find the entry later.
    pub fn store_in_cache_tagged(
        &mut self,
        config: &CacheConfig,
        id: u128,
        value: Vec<u8>,
        tags: Vec<String>,
        now: u64,
    ) -> (r: Result<(), CoreError>)
        requires
            old(self).wf(),
        ensures
            final(self).wf(),
            final(self).engine == old(self).engine,
            final(self).in_flight == old(self).in_flight,
            final(self).hits == old(self).hits && final(self).misses == old(self).misses,
            r is Ok,
            final(self).store.lookup(spec_entity_key(config.key_prefix@, id))
                == Some(EntryModel {
                value: value@,
                expires_at: spec_expiry(Some(config.default_ttl), now),
                tags: tags.deep_view(),
            }),
            forall|k: Seq<char>| #![auto] k != spec_entity_key(config.key_prefix@, id)
                ==> final(self).store.lookup(k) == old(self).store.lookup(k),
    {
        let key = generate_cache_key(&config.key_prefix, id);
        self.store.set(&key, value, Some(config.default_ttl), tags, now)
    }

    /// Overwrites entity `id`'s cache entry with fresh bytes and a fresh
    /// TTL, but only if the entity is currently cached; an absent or
    /// expired key stays as it is.
    pub fn update_cache(&mut self, config: &CacheConfig, id: u128, value: Vec<u8>, now: u64)
        -> (r: Result<(), CoreError>)
        requires
            old(self).wf(),
        ensures
            final(self).wf(),
            final(self).engine == old(self).engine,
            final(self).in_flight == old(self).in_flight,
            final(self).hits == old(self).hits && final(self).misses == old(self).misses,
            r is Ok,
            old(self).store.live_lookup(spec_entity_key(config.key_prefix@, id), now) is Some
                ==> final(self).store.lookup(spec_entity_key(config.key_prefix@, id))
                    == Some(EntryModel {
                    value: value@,
                    expires_at: spec_expiry(Some(config.default_ttl), now),
                    tags: Seq::<Seq<char>>::empty(),
                }),
            old(self).store.live_lookup(spec_entity_key(config.key_prefix@, id), now) is None
                ==> final(self).store == old(self).store,
            forall|k: Seq<char>| #![auto] k != spec_entity_key(config.key_prefix@, id)
                ==> final(self).store.lookup(k) == old(self).store.lookup(k),
    {
        let key = generate_cache_key(&config.key_prefix, id);
        if self.store.peek(&key, now) {
            let no_tags: Vec<String> = Vec::new();
            proof {
                assert(no_tags.deep_view() =~= Seq::<Seq<char>>::empty());
            }
            let r = self.store.set(&key, value, Some(config.default_ttl), no_tags, now);
            r
        } else {
            Ok(())
        }
    }

    /// Evicts entity `id`'s cache entry; true iff one was present.
    pub fn invalidate_cache(&mut self, prefix: &String, id: u128) -> (r: bool)
        requires
            old(self).wf(),
        ensures
            final(self).wf(),
            final(self).engine == old(self).engine,
            final(self).in_flight == old(self).in_flight,
            final(self).hits == old(self).hits && final(self).misses == old(self).misses,
            r == (old(self).store.lookup(spec_entity_key(prefix@, id)) is Some),
            final(self).store.lookup(spec_entity_key(prefix@, id)) is None,
            forall|k: Seq<char>| #![auto] k != spec_entity_key(prefix@, id)
                ==> final(self).store.lookup(k) == old(self).store.lookup(k),
    {
        crate::invalidation::invalidate_cache(&mut self.store, prefix, id)
    }
}

impl EntityGateway {
    /// Drops the in-flight marker of `key`, if any.
    #[verifier::loop_isolation(false)]
    fn clear_marker(&mut self, key: &String)
        requires
            old(self).wf(),
        ensures
            final(self).wf(),
            final(self).store == old(self).store,
            final(self).engine == old(self).engine,
            final(self).hits == old(self).hits && final(self).misses == old(self).misses,
            !final(self).spec_in_flight(key@),
            forall|k: Seq<char>| k != key@
                ==> final(self).spec_in_flight(k) == old(self).spec_in_flight(k),
    {
        let ghost pre = self.in_flight.deep_view();
        let mut i: usize = 0;
        while i < self.in_flight.len()
            invariant
                i <= pre.len(),
                self.wf(),
                pre == self.in_flight.deep_view(),
                pre == old(self).in_flight.deep_view(),
                self.store == old(self).store,
                self.engine == old(self).engine,
                self.hits == old(self).hits,
                self.misses == old(self).misses,
                forall|j: int| 0 <= j < i ==> pre[j] != key@,
            decreases pre.len() - i,
        {
            if self.in_flight[i].eq(key) {
                proof {
                    assert(pre[i as int] == key@);
                }
                self.in_flight.remove(i);
                proof {
                    let post = self.in_flight.deep_view();
                    assert(post =~= pre.remove(i as int));
                    // no other index holds the key, so it is gone
                    assert forall|j: int| 0 <= j < post.len() implies post[j] != key@ by {
                        let j0 = if j < i { j } else { j + 1 };
                        assert(post[j] == pre[j0]);
                        if j0 != i && pre[j0] == key@ {
                            assert(pre[i as int] == pre[j0]);
                        }
                    }
                    // membership of every other string is preserved
                    assert forall|k: Seq<char>| k != key@
                        implies post.contains(k) == pre.contains(k) by {
                        if pre.contains(k) {
                            let a = choose|a: int| 0 <= a < pre.len() && pre[a] == k;
                            let a2 = if a < i { a } else { a - 1 };
                            assert(post[a2] == k);
                        }
                        if post.contains(k) {
                            let a = choose|a: int| 0 <= a < post.len() && post[a] == k;
                            let a2 = if a < i { a } else { a + 1 };
                            assert(pre[a2] == k);
                        }
                    }
                    assert(post.no_duplicates()) by {
                        assert forall|a: int, b: int| 0 <= a < b < post.len()
                            implies post[a] != post[b] by {
                            let a0 = if a < i { a } else { a + 1 };
                            let b0 = if b < i { b } else { b + 1 };
                            assert(post[a] == pre[a0] && post[b] == pre[b0]);
                        }
                    }
                }
                return;
            }
            proof {
                assert(pre[i as int] == self.in_flight@[i as int]@);
            }
            i += 1;
        }
    }

    /// Claims the population of entity `id`'s key. True means the caller
    /// is the one populator and must end with `finish_populate` or
    /// `abandon_populate`; false means another population is already in
    /// flight and the caller waits for the populated entry instead. Once
    /// a caller has won, no further caller can win until the first one
    /// finishes: that is the stampede guard.
    pub fn begin_populate(&mut self, prefix: &String, id: u128) -> (r: bool)
        requires
            old(self).wf(),
        ensures
            final(self).wf(),
            final(self).store == old(self).store,
            final(self).engine == old(self).engine,
            final(self).hits == old(self).hits && final(self).misses == old(self).misses,
            r == !old(self).spec_in_flight(spec_entity_key(prefix@, id)),
            final(self).spec_in_flight(spec_entity_key(prefix@, id)),
            forall|k: Seq<char>| k != spec_entity_key(prefix@, id)
                ==> final(self).spec_in_flight(k) == old(self).spec_in_flight(k),
            !r ==> *final(self) == *old(self),
    {
        let key = generate_cache_key(prefix, id);
        if contains_string(&self.in_flight, &key) {
            false
        } else {
            let ghost pre = self.in_flight.deep_view();
            self.in_flight.push(key);
            proof {
                let post = self.in_flight.deep_view();
                assert(post =~= pre.push(spec_entity_key(prefix@, id)));
                assert(post[post.len() - 1] == spec_entity_key(prefix@, id));
                assert forall|k: Seq<char>| k != spec_entity_key(prefix@, id)
                    implies post.contains(k) == pre.contains(k) by {
                    if pre.contains(k) {
                        let a = choose|a: int| 0 <= a < pre.len() && pre[a] == k;
                        assert(post[a] == k);
                    }
                    if post.contains(k) {
                        let a = choose|a: int| 0 <= a < post.len() && post[a] == k;
                        assert(pre[a] == k);
                    }
                }
                assert(post.no_duplicates()) by {
                    assert forall|a: int, b: int| 0 <= a < b < post.len()
                        implies post[a] != post[b] by {
                        if b == post.len() - 1 {
                            if pre[a] == spec_entity_key(prefix@, id) {
                                assert(pre.contains(pre[a]));
                            }
                        }
                    }
                }
            }
            true
        }
    }

    /// Ends a won population: writes the fetched bytes under the type's
    /// default TTL and releases the key's fence, so that later readers
    /// see the populated entry.
    pub fn finish_populate(&mut self, config: &CacheConfig, id: u128, value: Vec<u8>, now: u64)
        -> (r: Result<(), CoreError>)
        requires
            old(self).wf(),
        ensures
            final(self).wf(),
            final(self).engine == old(self).engine,
            final(self).hits == old(self).hits && final(self).misses == old(self).misses,
            r is Ok,
            !final(self).spec_in_flight(spec_entity_key(config.key_prefix@, id)),
            forall|k: Seq<char>| k != spec_entity_key(config.key_prefix@, id)
                ==> final(self).spec_in_flight(k) == old(self).spec_in_flight(k),
            final(self).store.lookup(spec_entity_key(config.key_prefix@, id))
                == Some(EntryModel {
                value: value@,
                expires_at: spec_expiry(Some(config.default_ttl), now),
                tags: Seq::<Seq<char>>::empty(),
            }),
            forall|k: Seq<char>| #![auto] k != spec_entity_key(config.key_prefix@, id)
                ==> final(self).store.lookup(k) == old(self).store.lookup(k),
    {
        let key = generate_cache_key(&config.key_prefix, id);
        self.clear_marker(&key);
        let no_tags: Vec<String> = Vec::new();
        proof {
            assert(no_tags.deep_view() =~= Seq::<Seq<char>>::empty());
        }
        self.store.set(&key, value, Some(config.default_ttl), no_tags, now)
    }

    /// Ends a failed population: releases the key's fence without writing
    /// anything, so the next caller may try again.
    pub fn abandon_populate(&mut self, prefix: &String, id: u128)
        requires
            old(self).wf(),
        ensures
            final(self).wf(),
            final(self).store == old(self).store,
            final(self).engine == old(self).engine,
            final(self).hits == old(self).hits && final(self).misses == old(self).misses,
            !final(self).spec_in_flight(spec_entity_key(prefix@, id)),
            forall|k: Seq<char>| k != spec_entity_key(prefix@, id)
                ==> final(self).spec_in_flight(k) == old(self).spec_in_flight(k),
    {
        let key = generate_cache_key(prefix, id);
        self.clear_marker(&key);
    }

    /// The statistics of this gateway: entry count and summed value bytes
    /// recomputed from the store, hit and miss counters as accumulated by
    /// the read path.
    pub fn cache_stats(&self) -> (r: CacheStats)
        ensures
            r.total_keys == self.store.spec_len(),
            r.hits == self.hits,
            r.misses == self.misses,
            r.total_size_bytes as int == min_int(size_sum(self.store.entries@), u64::MAX as int),
    {
        let bytes = self.store.value_bytes();
        let total_size_bytes: u64 = if bytes > 0xffff_ffff_ffff_ffffu128 {
            u64::MAX
        } else {
            bytes as u64
        };
        CacheStats {
            total_keys: self.store.len() as u64,
            hits: self.hits,
            misses: self.misses,
            total_size_bytes,
        }
    }

    /// The cache-side read of a query result, by the deterministic hash
    /// of its parameters. A type whose configuration disables query
    /// caching always misses, without touching the store or counters.
    pub fn query_cached(&mut self, config: &CacheConfig, qhash: u64, now: u64)
        -> (r: Option<Vec<u8>>)
        requires
            old(self).wf(),
        ensures
            final(self).wf(),
            final(self).engine == old(self).engine,
            final(self).in_flight == old(self).in_flight,
            !config.cache_queries ==> r is None && *final(self) == *old(self),
            config.cache_queries ==> {
                &&& (r is Some) == (old(self).store.live_lookup(
                    spec_query_key(config.key_prefix@, qhash),
                    now,
                ) is Some)
                &&& (r matches Some(v) ==> old(self).store.live_lookup(
                    spec_query_key(config.key_prefix@, qhash),
                    now,
                ) == Some(v@))
                &&& (forall|k: Seq<char>| #![auto] final(self).store.lookup(k) == if k
                    == spec_query_key(config.key_prefix@, qhash)
                    && old(self).store.lookup(k) is Some
                    && crate::cache::expired(old(self).store.lookup(k)->Some_0, now) {
                    None::<EntryModel>
                } else {
                    old(self).store.lookup(k)
                })
                &&& (r is Some ==> final(self).hits == spec_bump(old(self).hits)
                    && final(self).misses == old(self).misses)
                &&& (r is None ==> final(self).misses == spec_bump(old(self).misses)
                    && final(self).hits == old(self).hits)
            },
    {
        if !config.cache_queries {
            return None;
        }
        let key = generate_query_key(&config.key_prefix, qhash);
        let got = self.store.get(&key, now);
        match &got {
            Some(_) => {
                self.hits = bump(self.hits);
            },
            None => {
                self.misses = bump(self.misses);
            },
        }
        got
    }

    /// Caches an encoded query result under the query-cache TTL — unless
    /// the type's configuration disables query caching, in which case
    /// nothing happens.
    pub fn store_query_result(&mut self, config: &CacheConfig, qhash: u64, encoded: Vec<u8>, now: u64)
        -> (r: Result<(), CoreError>)
        requires
            old(self).wf(),
        ensures
            final(self).wf(),
            final(self).engine == old(self).engine,
            final(self).in_flight == old(self).in_flight,
            final(self).hits == old(self).hits && final(self).misses == old(self).misses,
            r is Ok,
            !config.cache_queries ==> *final(self) == *old(self),
            config.cache_queries ==> final(self).store.lookup(
                spec_query_key(config.key_prefix@, qhash),
            ) == Some(EntryModel {
                value: encoded@,
                expires_at: spec_expiry(Some(config.query_cache_ttl), now),
                tags: Seq::<Seq<char>>::empty(),
            }),
            forall|k: Seq<char>| #![auto] k != spec_query_key(config.key_prefix@, qhash)
                ==> final(self).store.lookup(k) == old(self).store.lookup(k),
    {
        if !config.cache_queries {
            return Ok(());
        }
        let key = generate_query_key(&config.key_prefix, qhash);
        let no_tags: Vec<String> = Vec::new();
        proof {
            assert(no_tags.deep_view() =~= Seq::<Seq<char>>::empty());
        }
        self.store.set(&key, encoded, Some(config.query_cache_ttl), no_tags, now)
    }
}

impl EntityGateway {
    /// Clears every cache entry of one namespace — entity entries and
    /// query results alike. Returns how many entries were removed.
    pub fn cache_clear_all(&mut self, prefix: &String) -> (r: usize)
        requires
            old(self).wf(),
        ensures
            final(self).wf(),
            final(self).engine == old(self).engine,
            final(self).hits == old(self).hits && final(self).misses == old(self).misses,
            final(self).in_flight == old(self).in_flight,
            r == old(self).store.spec_len() - final(self).store.spec_len(),
            forall|k: Seq<char>| #![auto] final(self).store.lookup(k)
                == if crate::text::has_prefix(k, prefix@ + ":"@) {
                None::<EntryModel>
            } else {
                old(self).store.lookup(k)
            },
    {
        let mut p = prefix.clone();
        p.append(":");
        self.store.delete_prefix(&p)
    }

    /// Warms the cache from pre-fetched entities: each absent or expired
    /// id is populated with its encoded bytes under the default TTL;
    /// entries that are still live are left untouched.
    #[verifier::loop_isolation(false)]
    pub fn warm_up_cache(&mut self, config: &CacheConfig, entries: &Vec<(u128, Vec<u8>)>, now: u64)
        requires
            old(self).wf(),
        ensures
            final(self).wf(),
            final(self).engine == old(self).engine,
            final(self).hits == old(self).hits && final(self).misses == old(self).misses,
            final(self).in_flight == old(self).in_flight,
            // every warmed id has an entry afterwards
            forall|i: int| #![auto] 0 <= i < entries@.len() ==> final(self).store.lookup(
                spec_entity_key(config.key_prefix@, entries@[i].0),
            ) is Some,
            // a live entry is never overwritten by warm-up
            forall|k: Seq<char>| old(self).store.live_lookup(k, now) is Some
                ==> #[trigger] final(self).store.lookup(k) == old(self).store.lookup(k),
            // keys outside the warmed set are untouched
            forall|k: Seq<char>|
                !crate::invalidation::entity_key_of_any(
                    config.key_prefix@,
                    entries@.map_values(|p: (u128, Vec<u8>)| p.0),
                    k,
                ) ==> #[trigger] final(self).store.lookup(k) == old(self).store.lookup(k),
    {
        let ghost s0 = self.store;
        let ghost cp = config.key_prefix@;
        let ghost ids = entries@.map_values(|p: (u128, Vec<u8>)| p.0);
        let mut j: usize = 0;
        proof {
            assert(ids.subrange(0, 0) =~= Seq::<u128>::empty());
        }
        while j < entries.len()
            invariant
                j <= entries@.len(),
                self.wf(),
                self.engine == old(self).engine,
                self.hits == old(self).hits && self.misses == old(self).misses,
                self.in_flight == old(self).in_flight,
                s0 == old(self).store,
                ids == entries@.map_values(|p: (u128, Vec<u8>)| p.0),
                forall|i: int| #![auto] 0 <= i < j ==> self.store.lookup(
                    spec_entity_key(cp, entries@[i].0),
                ) is Some,
                forall|k: Seq<char>| s0.live_lookup(k, now) is Some
                    ==> #[trigger] self.store.lookup(k) == s0.lookup(k),
                forall|k: Seq<char>|
                    !crate::invalidation::entity_key_of_any(cp, ids.subrange(0, j as int), k)
                        ==> #[trigger] self.store.lookup(k) == s0.lookup(k),
            decreases entries@.len() - j,
        {
            let ghost spre = self.store;
            let key = generate_cache_key(&config.key_prefix, entries[j].0);
            if !self.store.peek(&key, now) {
                proof {
                    if s0.live_lookup(key@, now) is Some {
                        assert(spre.lookup(key@) == s0.lookup(key@));
                        assert(spre.live_lookup(key@, now) == s0.live_lookup(key@, now));
                        assert(false);
                    }
                }
                let v = crate::cache::clone_bytes(&entries[j].1);
                let no_tags: Vec<String> = Vec::new();
                proof {
                    assert(no_tags.deep_view() =~= Seq::<Seq<char>>::empty());
                }
                let _ok = self.store.set(&key, v, Some(config.default_ttl), no_tags, now);
            }
            proof {
                assert(ids[j as int] == entries@[j as int].0);
                assert(key@ == spec_entity_key(cp, ids[j as int]));
                assert forall|k: Seq<char>|
                    !crate::invalidation::entity_key_of_any(cp, ids.subrange(0, j + 1), k)
                    implies #[trigger] self.store.lookup(k) == s0.lookup(k) by {
                    assert(ids.subrange(0, j + 1)[j as int] == ids[j as int]);
                    if k == key@ {
                        assert(crate::invalidation::entity_key_of_any(
                            cp,
                            ids.subrange(0, j + 1),
                            k,
                        ));
                    }
                    assert(!crate::invalidation::entity_key_of_any(
                        cp,
                        ids.subrange(0, j as int),
                        k,
                    )) by {
                        if crate::invalidation::entity_key_of_any(
                            cp,
                            ids.subrange(0, j as int),
                            k,
                        ) {
                            let a = choose|a: int| 0 <= a < j
                                && k == spec_entity_key(cp, ids.subrange(0, j as int)[a]);
                            assert(ids.subrange(0, j + 1)[a] == ids.subrange(0, j as int)[a]);
                            assert(crate::invalidation::entity_key_of_any(
                                cp,
                                ids.subrange(0, j + 1),
                                k,
                            ));
                        }
                    }
                }
            }
            j += 1;
        }
        proof {
            assert(ids.subrange(0, ids.len() as int) =~= ids);
            assert(ids.len() == entries@.len());
        }
    }
}

/// A freshly (re-)populated entry: the new bytes, a TTL from `now`, and
/// no tags.
pub open spec fn refreshed_entry(value: Seq<u8>, ttl: u64, now: u64) -> EntryModel {
    EntryModel {
        value,
        expires_at: spec_expiry(Some(ttl), now),
        tags: Seq::<Seq<char>>::empty(),
    }
}

impl EntityGateway {
    /// The write path, run after a persistence mutation has committed
    /// (persistence is the source of truth and always goes first). The
    /// type's invalidation strategy runs, and then: an update- or
    /// create-class mutation re-fills the entity's key with its new
    /// encoded state under `Immediate` and `Cascade` (evict-then-refill;
    /// `TimeToLive` re-populates through the strategy itself; `Tagged`
    /// only evicts); a delete-class mutation leaves the key absent under
    /// every strategy but `Manual`, which takes no automatic action at
    /// all. Returns the namespaces a cascade walked, the own namespace
    /// for `Immediate`, and nothing otherwise.
    pub fn after_mutation(
        &mut self,
        config: &CacheConfig,
        id: u128,
        kind: MutationKind,
        new_value: Option<Vec<u8>>,
        now: u64,
    ) -> (r: Vec<String>)
        requires
            old(self).wf(),
        ensures
            final(self).wf(),
            final(self).engine == old(self).engine,
            final(self).hits == old(self).hits && final(self).misses == old(self).misses,
            final(self).in_flight == old(self).in_flight,
            config.invalidation_strategy is Manual ==> final(self).store == old(self).store
                && r@.len() == 0,
            config.invalidation_strategy is Immediate ==> {
                &&& (kind is Delete || new_value is None)
                    ==> final(self).store.lookup(spec_entity_key(config.key_prefix@, id)) is None
                &&& !(kind is Delete) ==> (new_value matches Some(v)
                    ==> final(self).store.lookup(spec_entity_key(config.key_prefix@, id))
                        == Some(refreshed_entry(v@, config.default_ttl, now)))
                &&& forall|k: Seq<char>| #![auto]
                    crate::text::has_prefix(
                        k,
                        crate::config::spec_query_prefix(config.key_prefix@),
                    ) && k != spec_entity_key(config.key_prefix@, id)
                        ==> final(self).store.lookup(k) is None
                &&& forall|k: Seq<char>|
                    !crate::invalidation::owned_key(config.key_prefix@, id, k)
                        ==> #[trigger] final(self).store.lookup(k) == old(self).store.lookup(k)
                &&& r.deep_view() == seq![config.key_prefix@]
            },
            forall|ttl: u64| config.invalidation_strategy
                == crate::config::CacheInvalidationStrategy::TimeToLive(ttl) ==> {
                &&& r@.len() == 0
                &&& kind is Delete ==> final(self).store.lookup(
                    spec_entity_key(config.key_prefix@, id),
                ) is None && (forall|k: Seq<char>| #![auto]
                    k != spec_entity_key(config.key_prefix@, id)
                        ==> final(self).store.lookup(k) == old(self).store.lookup(k))
                &&& !(kind is Delete) ==> (new_value matches Some(v)
                    ==> final(self).store.lookup(spec_entity_key(config.key_prefix@, id))
                        == Some(refreshed_entry(v@, ttl, now)) && (forall|k: Seq<char>| #![auto]
                        k != spec_entity_key(config.key_prefix@, id)
                            ==> final(self).store.lookup(k) == old(self).store.lookup(k)))
                &&& (!(kind is Delete) && new_value is None)
                    ==> final(self).store == old(self).store
            },
            config.invalidation_strategy matches crate::config::CacheInvalidationStrategy::Tagged(
                tags,
            ) ==> {
                &&& r@.len() == 0
                &&& !(kind is Delete) ==> (forall|k: Seq<char>| #[trigger]
                    final(self).store.lookup(k) == if old(self).store.lookup(k) is Some
                        && crate::invalidation::tags_hit(
                        old(self).store.lookup(k)->Some_0.tags,
                        tags.deep_view(),
                    ) {
                        None::<EntryModel>
                    } else {
                        old(self).store.lookup(k)
                    })
                &&& kind is Delete ==> final(self).store.lookup(
                    spec_entity_key(config.key_prefix@, id),
                ) is None && (forall|k: Seq<char>| #![auto]
                    k != spec_entity_key(config.key_prefix@, id)
                        ==> final(self).store.lookup(k) == if old(self).store.lookup(k) is Some
                            && crate::invalidation::tags_hit(
                            old(self).store.lookup(k)->Some_0.tags,
                            tags.deep_view(),
                        ) {
                            None::<EntryModel>
                        } else {
                            old(self).store.lookup(k)
                        })
            },
            config.invalidation_strategy is Cascade ==> {
                &&& r.deep_view().len() >= 1
                &&& r.deep_view()[0] == config.key_prefix@
                &&& r.deep_view().no_duplicates()
                &&& forall|d: Seq<char>| #[trigger] crate::invalidation::cascade_deps_of(
                    old(self).engine.spec_config(config.key_prefix@),
                ).contains(d) ==> r.deep_view().contains(d)
                &&& (kind is Delete || new_value is None)
                    ==> final(self).store.lookup(spec_entity_key(config.key_prefix@, id)) is None
                &&& !(kind is Delete) ==> (new_value matches Some(v)
                    ==> final(self).store.lookup(spec_entity_key(config.key_prefix@, id))
                        == Some(refreshed_entry(v@, config.default_ttl, now)))
                &&& forall|p: Seq<char>| #[trigger] r.deep_view().contains(p)
                    && spec_entity_key(p, id) != spec_entity_key(config.key_prefix@, id)
                    ==> final(self).store.lookup(spec_entity_key(p, id)) is None
                &&& forall|p: Seq<char>, k: Seq<char>|
                    #![trigger r.deep_view().contains(p), final(self).store.lookup(k)]
                    r.deep_view().contains(p)
                        && crate::text::has_prefix(k, crate::config::spec_query_prefix(p))
                        && k != spec_entity_key(config.key_prefix@, id)
                        ==> final(self).store.lookup(k) is None
                &&& forall|k: Seq<char>|
                    !crate::invalidation::owned_by_any(r.deep_view(), id, k)
                        ==> #[trigger] final(self).store.lookup(k) == old(self).store.lookup(k)
            },
    {
        let is_delete = match kind {
            MutationKind::Delete => true,
            _ => false,
        };
        let ev: Option<&Vec<u8>> = if is_delete {
            None
        } else {
            match &new_value {
                Some(v) => Some(v),
                None => None,
            }
        };
        let r = self.engine.smart_invalidate(&mut self.store, config, id, ev, now);
        let ghost smid = self.store;
        let is_manual = match &config.invalidation_strategy {
            crate::config::CacheInvalidationStrategy::Manual => true,
            _ => false,
        };
        let refill = match &config.invalidation_strategy {
            crate::config::CacheInvalidationStrategy::Immediate => true,
            crate::config::CacheInvalidationStrategy::Cascade(_) => true,
            _ => false,
        };
        proof {
            if config.invalidation_strategy is Cascade {
                assert(crate::invalidation::owned_key(
                    config.key_prefix@,
                    id,
                    spec_entity_key(config.key_prefix@, id),
                ));
                assert(r.deep_view()[0] == config.key_prefix@);
                assert(crate::invalidation::owned_by_any(
                    r.deep_view(),
                    id,
                    spec_entity_key(config.key_prefix@, id),
                ));
            }
        }
        if is_delete {
            if !is_manual {
                let key = generate_cache_key(&config.key_prefix, id);
                self.store.delete(&key);
            }
        } else {
            if refill {
                match new_value {
                    Some(v) => {
                        let key = generate_cache_key(&config.key_prefix, id);
                        let no_tags: Vec<String> = Vec::new();
                        proof {
                            assert(no_tags.deep_view() =~= Seq::<Seq<char>>::empty());
                        }
                        let _ok = self.store.set(
                            &key,
                            v,
                            Some(config.default_ttl),
                            no_tags,
                            now,
                        );
                    },
                    None => {},
                }
            }
        }
        proof {
            if config.invalidation_strategy is Cascade {
                let ekey = spec_entity_key(config.key_prefix@, id);
                assert(r.deep_view().contains(config.key_prefix@)) by {
                    assert(r.deep_view()[0] == config.key_prefix@);
                }
                assert(smid.lookup(ekey) is None);
                assert forall|p: Seq<char>| #[trigger] r.deep_view().contains(p)
                    && spec_entity_key(p, id) != ekey
                    implies self.store.lookup(spec_entity_key(p, id)) is None by {
                    assert(smid.lookup(spec_entity_key(p, id)) is None);
                }
                assert forall|p: Seq<char>, k: Seq<char>|
                    #![trigger r.deep_view().contains(p), self.store.lookup(k)]
                    r.deep_view().contains(p)
                        && crate::text::has_prefix(k, crate::config::spec_query_prefix(p))
                        && k != ekey
                    implies self.store.lookup(k) is None by {
                    assert(smid.lookup(k) is None);
                }
            }
        }
        r
    }
}

} // verus!
