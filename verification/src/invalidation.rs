//! The invalidation engine: given a mutated entity and its type's
//! configuration, decide which cache keys are evicted, and apply it.
//!
//! Strategies: immediate eviction, TTL re-population, manual (no action),
//! tag-based eviction, and cascade eviction that propagates to dependent
//! entity types under the same id, guarded against cycles by a visited set
//! and a maximum recursion depth.
//!
//! Query-result caches are derived data: every immediate or cascading
//! trigger also clears the type's whole `{prefix}:query:` namespace.

use vstd::prelude::*;
use vstd::seq_lib::*;
use crate::cache::{CacheStore, EntryModel};
use crate::config::{
    CacheConfig, CacheInvalidationStrategy, generate_cache_key, generate_query_prefix,
    spec_entity_key, spec_query_prefix,
};
use crate::errors::CoreError;
use crate::text;

verus! {

/// The recursion bound of cascade invalidation: deeper dependency chains
/// are cut off rather than followed, so a misconfigured graph can never
/// propagate unboundedly.
pub const MAX_CASCADE_DEPTH: usize = 8;

/// Whether key `k` belongs to entity `id` of the type with namespace `p`:
/// either the entity's own key or a cached query result of that type.
pub open spec fn owned_key(p: Seq<char>, id: u128, k: Seq<char>) -> bool {
    k == spec_entity_key(p, id) || text::has_prefix(k, spec_query_prefix(p))
}

/// Whether key `k` belongs to entity `id` of any of the types in `ps`.
pub open spec fn owned_by_any(ps: Seq<Seq<char>>, id: u128, k: Seq<char>) -> bool {
    exists|a: int| 0 <= a < ps.len() && owned_key(ps[a], id, k)
}

/// The dependent namespaces a configuration cascades into; empty for
/// every other strategy and for an unregistered type.
pub open spec fn cascade_deps_of(c: Option<CacheConfig>) -> Seq<Seq<char>> {
    match c {
        Some(cfg) => match cfg.invalidation_strategy {
            CacheInvalidationStrategy::Cascade(deps) => deps.deep_view(),
            _ => Seq::empty(),
        },
        None => Seq::empty(),
    }
}

/// Containment survives extension at the back.
proof fn lemma_contains_extend(pre: Seq<Seq<char>>, post: Seq<Seq<char>>, x: Seq<char>)
    requires
        post.len() >= pre.len(),
        post.subrange(0, pre.len() as int) == pre,
        pre.contains(x),
    ensures
        post.contains(x),
{
    let a = choose|a: int| 0 <= a < pre.len() && pre[a] == x;
    assert(post[a] == pre[a]);
}

/// First-match lookup of a type's configuration by its namespace.
pub open spec fn find_config(s: Seq<CacheConfig>, p: Seq<char>) -> Option<CacheConfig>
    decreases s.len(),
{
    if s.len() == 0 {
        None
    } else if s[0].key_prefix@ == p {
        Some(s[0])
    } else {
        find_config(s.subrange(1, s.len() as int), p)
    }
}

proof fn lemma_find_config_present(s: Seq<CacheConfig>, p: Seq<char>, i: int)
    requires
        0 <= i < s.len(),
        s[i].key_prefix@ == p,
        forall|j: int| 0 <= j < i ==> s[j].key_prefix@ != p,
    ensures
        find_config(s, p) == Some(s[i]),
    decreases s.len(),
{
    if i > 0 {
        lemma_find_config_present(s.subrange(1, s.len() as int), p, i - 1);
    }
}

proof fn lemma_find_config_absent(s: Seq<CacheConfig>, p: Seq<char>)
    requires
        forall|j: int| 0 <= j < s.len() ==> s[j].key_prefix@ != p,
    ensures
        find_config(s, p) is None,
    decreases s.len(),
{
    if s.len() > 0 {
        lemma_find_config_absent(s.subrange(1, s.len() as int), p);
    }
}

/// Whether `v` holds a string reading `s`.
#[verifier::loop_isolation(false)]
pub fn contains_string(v: &Vec<String>, s: &String) -> (r: bool)
    ensures
        r == v.deep_view().contains(s@),
{
    let mut i: usize = 0;
    while i < v.len()
        invariant
            i <= v@.len(),
            forall|j: int| 0 <= j < i ==> v.deep_view()[j] != s@,
        decreases v@.len() - i,
    {
        if v[i].eq(s) {
            proof {
                assert(v.deep_view()[i as int] == s@);
            }
            return true;
        }
        proof {
            assert(v.deep_view()[i as int] == v@[i as int]@);
        }
        i += 1;
    }
    false
}

/// The per-type registry of cache configurations, and the strategies'
/// execution against a store.
pub struct InvalidationEngine {
    /// One configuration per entity type, keyed by its namespace.
    pub configs: Vec<CacheConfig>,
}

impl InvalidationEngine {
    /// Well-formedness: one configuration per namespace.
    pub open spec fn wf(self) -> bool {
        forall|i: int, j: int| 0 <= i < j < self.configs@.len()
            ==> self.configs@[i].key_prefix@ != self.configs@[j].key_prefix@
    }

    /// The configuration registered for namespace `p`, if any.
    pub open spec fn spec_config(self, p: Seq<char>) -> Option<CacheConfig> {
        find_config(self.configs@, p)
    }

    /// An engine that knows no entity type yet.
    pub fn new() -> (r: InvalidationEngine)
        ensures
            r.wf(),
            forall|p: Seq<char>| r.spec_config(p) is None,
    {
        let r = InvalidationEngine { configs: Vec::new() };
        proof {
            assert forall|p: Seq<char>| r.spec_config(p) is None by {
                lemma_find_config_absent(r.configs@, p);
            }
        }
        r
    }

    /// Registers a type's configuration. Refused when the namespace is
    /// already taken: configurations are immutable once registered.
    #[verifier::loop_isolation(false)]
    pub fn register(&mut self, config: CacheConfig) -> (r: Result<(), CoreError>)
        requires
            old(self).wf(),
        ensures
            final(self).wf(),
            r is Ok <==> old(self).spec_config(config.key_prefix@) is None,
            r is Ok ==> final(self).spec_config(config.key_prefix@) == Some(config)
                && (forall|p: Seq<char>| p != config.key_prefix@
                    ==> final(self).spec_config(p) == old(self).spec_config(p)),
            r is Err ==> *final(self) == *old(self) && r == Err::<(), CoreError>(
                CoreError::ValidationError,
            ),
    {
        let ghost pre = self.configs@;
        let ghost cp = config.key_prefix@;
        let mut i: usize = 0;
        while i < self.configs.len()
            invariant
                i <= pre.len(),
                pre == self.configs@,
                forall|j: int| 0 <= j < i ==> pre[j].key_prefix@ != cp,
            decreases pre.len() - i,
        {
            if self.configs[i].key_prefix.eq(&config.key_prefix) {
                proof {
                    lemma_find_config_present(pre, cp, i as int);
                }
                return Err(CoreError::ValidationError);
            }
            i += 1;
        }
        proof {
            lemma_find_config_absent(pre, cp);
        }
        self.configs.push(config);
        proof {
            assert forall|p: Seq<char>| #![auto] find_config(self.configs@, p) == if p == cp {
                Some(config)
            } else {
                find_config(pre, p)
            } by {
                lemma_find_config_push(pre, config, p);
            }
            assert forall|a: int, b: int| 0 <= a < b < self.configs@.len()
                implies self.configs@[a].key_prefix@ != self.configs@[b].key_prefix@ by {
                if b == self.configs@.len() - 1 {
                    assert(pre[a].key_prefix@ != cp);
                }
            }
        }
        Ok(())
    }

    /// The configuration registered for `prefix`, if any.
    #[verifier::loop_isolation(false)]
    pub fn config_for(&self, prefix: &String) -> (r: Option<&CacheConfig>)
        ensures
            match r {
                Some(c) => self.spec_config(prefix@) == Some(*c),
                None => self.spec_config(prefix@) is None,
            },
    {
        let mut i: usize = 0;
        while i < self.configs.len()
            invariant
                i <= self.configs@.len(),
                forall|j: int| 0 <= j < i ==> self.configs@[j].key_prefix@ != prefix@,
            decreases self.configs@.len() - i,
        {
            if self.configs[i].key_prefix.eq(prefix) {
                proof {
                    lemma_find_config_present(self.configs@, prefix@, i as int);
                }
                return Some(&self.configs[i]);
            }
            i += 1;
        }
        proof {
            lemma_find_config_absent(self.configs@, prefix@);
        }
        None
    }
}

impl InvalidationEngine {
    /// One step of cascade invalidation: evicts `prefix`'s entry for `id`
    /// and its query-result namespace, then recurses into the dependents
    /// its configuration lists — unless `prefix` was already handled or
    /// the depth budget is spent.
    ///
    /// `visited` accumulates the namespaces handled so far; each is
    /// handled at most once, which is what makes a dependency cycle safe.
    #[verifier::loop_isolation(false)]
    fn cascade_step(
        &self,
        store: &mut CacheStore,
        prefix: &String,
        id: u128,
        visited: &mut Vec<String>,
        depth: usize,
    )
        requires
            old(store).wf(),
            depth <= MAX_CASCADE_DEPTH,
        ensures
            final(store).wf(),
            final(visited).deep_view().len() >= old(visited).deep_view().len(),
            final(visited).deep_view().subrange(0, old(visited).deep_view().len() as int)
                == old(visited).deep_view(),
            // a repeated type or an exhausted depth budget changes nothing
            (depth == MAX_CASCADE_DEPTH || old(visited).deep_view().contains(prefix@))
                ==> *final(visited) == *old(visited) && *final(store) == *old(store),
            // otherwise this type itself is handled first
            (depth < MAX_CASCADE_DEPTH && !old(visited).deep_view().contains(prefix@))
                ==> step_newly_of(old(visited).deep_view(), final(visited).deep_view()).len() > 0
                    && step_newly_of(old(visited).deep_view(), final(visited).deep_view())[0] == prefix@,
            // each type is handled at most once
            step_newly_of(old(visited).deep_view(), final(visited).deep_view()).no_duplicates(),
            forall|p: Seq<char>| #[trigger] step_newly_of(old(visited).deep_view(), final(visited).deep_view()).contains(p)
                ==> !old(visited).deep_view().contains(p),
            // every handled type loses its entry for `id` and its whole
            // query namespace
            forall|p: Seq<char>| #[trigger] step_newly_of(old(visited).deep_view(), final(visited).deep_view()).contains(p)
                ==> final(store).lookup(spec_entity_key(p, id)) is None,
            forall|p: Seq<char>, k: Seq<char>|
                #![trigger step_newly_of(old(visited).deep_view(), final(visited).deep_view()).contains(p), final(store).lookup(k)]
                step_newly_of(old(visited).deep_view(), final(visited).deep_view()).contains(p)
                    && text::has_prefix(k, spec_query_prefix(p))
                    ==> final(store).lookup(k) is None,
            // the store only loses keys
            forall|k: Seq<char>| #[trigger] final(store).lookup(k) is Some
                ==> final(store).lookup(k) == old(store).lookup(k),
            // keys of unhandled types are untouched
            forall|k: Seq<char>|
                !owned_by_any(step_newly_of(old(visited).deep_view(), final(visited).deep_view()), id, k)
                    ==> #[trigger] final(store).lookup(k) == old(store).lookup(k),
            // with depth budget to spare, every configured dependent is
            // handled too (here or earlier)
            forall|d: Seq<char>|
                depth + 1 < MAX_CASCADE_DEPTH && !old(visited).deep_view().contains(prefix@)
                    && #[trigger] cascade_deps_of(self.spec_config(prefix@)).contains(d)
                    ==> final(visited).deep_view().contains(d),
        decreases MAX_CASCADE_DEPTH - depth,
    {
        if depth == MAX_CASCADE_DEPTH {
            return;
        }
        if contains_string(visited, prefix) {
            return;
        }
        let ghost v0 = visited.deep_view();
        let ghost s0 = *store;
        visited.push(prefix.clone());
        proof {
            assert(visited.deep_view() =~= v0.push(prefix@));
        }
        let ekey = generate_cache_key(prefix, id);
        store.delete(&ekey);
        let qpre = generate_query_prefix(prefix);
        store.delete_prefix(&qpre);
        proof {
            lemma_newly_now(v0, visited.deep_view());
            assert(step_newly_of(v0, visited.deep_view()) =~= seq![prefix@]);
            let nw = step_newly_of(v0, visited.deep_view());
            assert forall|k: Seq<char>| !owned_by_any(nw, id, k)
                implies #[trigger] store.lookup(k) == s0.lookup(k) by {
                assert(nw[0] == prefix@);
                if owned_key(prefix@, id, k) {
                    assert(owned_by_any(nw, id, k));
                }
                assert(k != spec_entity_key(prefix@, id));
                assert(!text::has_prefix(k, spec_query_prefix(prefix@)));
            }
        }
        let cfg_opt = self.config_for(prefix);
        if let Some(cfg) = cfg_opt {
            if let CacheInvalidationStrategy::Cascade(deps) = &cfg.invalidation_strategy {
                let ghost s1 = *store;
                let mut j: usize = 0;
                while j < deps.len()
                    invariant
                        j <= deps@.len(),
                        store.wf(),
                        visited.deep_view().len() > v0.len(),
                        visited.deep_view().subrange(0, v0.len() as int) == v0,
                        visited.deep_view()[v0.len() as int] == prefix@,
                        step_newly_of(v0, visited.deep_view()).no_duplicates(),
                        forall|p: Seq<char>|
                            #[trigger] step_newly_of(v0, visited.deep_view()).contains(p)
                                ==> !v0.contains(p),
                        forall|p: Seq<char>|
                            #[trigger] step_newly_of(v0, visited.deep_view()).contains(p)
                                ==> store.lookup(spec_entity_key(p, id)) is None,
                        forall|p: Seq<char>, k: Seq<char>|
                            #![trigger step_newly_of(v0, visited.deep_view()).contains(p), store.lookup(k)]
                            step_newly_of(v0, visited.deep_view()).contains(p)
                                && text::has_prefix(k, spec_query_prefix(p))
                                ==> store.lookup(k) is None,
                        forall|k: Seq<char>| #[trigger] store.lookup(k) is Some
                            ==> store.lookup(k) == s0.lookup(k),
                        forall|k: Seq<char>|
                            !owned_by_any(step_newly_of(v0, visited.deep_view()), id, k)
                                ==> #[trigger] store.lookup(k) == s0.lookup(k),
                        forall|jj: int| depth + 1 < MAX_CASCADE_DEPTH && 0 <= jj < j
                            ==> visited.deep_view().contains(#[trigger] deps.deep_view()[jj]),
                    decreases deps@.len() - j,
                {
                    let ghost vm = visited.deep_view();
                    let ghost sm = *store;
                    self.cascade_step(store, &deps[j], id, visited, depth + 1);
                    proof {
                        lemma_step_compose(v0, vm, visited.deep_view(), s0, sm, *store, id);
                        let vn = visited.deep_view();
                        if depth + 1 < MAX_CASCADE_DEPTH {
                            assert forall|jj: int| 0 <= jj < j + 1
                                implies vn.contains(#[trigger] deps.deep_view()[jj]) by {
                                if jj < j {
                                    lemma_contains_extend(vm, vn, deps.deep_view()[jj]);
                                } else {
                                    assert(deps[j as int]@ == deps.deep_view()[jj]);
                                    if vm.contains(deps[j as int]@) {
                                        lemma_contains_extend(vm, vn, deps.deep_view()[jj]);
                                    } else {
                                        let nw = step_newly_of(vm, vn);
                                        assert(nw.len() > 0 && nw[0] == deps[j as int]@);
                                        assert(vn[vm.len() as int] == deps[j as int]@);
                                    }
                                }
                            }
                        }
                    }
                    j += 1;
                }
                proof {
                    if depth + 1 < MAX_CASCADE_DEPTH {
                        assert forall|d: Seq<char>|
                            #[trigger] cascade_deps_of(self.spec_config(prefix@)).contains(d)
                            implies visited.deep_view().contains(d) by {
                            let jj = choose|jj: int|
                                0 <= jj < deps.deep_view().len() && deps.deep_view()[jj] == d;
                            assert(visited.deep_view().contains(deps.deep_view()[jj]));
                        }
                    }
                }
            }
        }
    }
}

impl InvalidationEngine {
    /// Cascade invalidation for entity `id` of the type with namespace
    /// `prefix`: evicts that type's entry and query cache, then those of
    /// every dependent type its configuration names, transitively, under
    /// the same id. A visited set makes each type handled at most once, so
    /// a dependency cycle terminates and evicts each member exactly once;
    /// a depth bound cuts off runaway chains. Returns the namespaces
    /// handled, in order.
    pub fn cascade_invalidate(&self, store: &mut CacheStore, prefix: &String, id: u128)
        -> (r: Vec<String>)
        requires
            old(store).wf(),
        ensures
            final(store).wf(),
            r.deep_view().len() >= 1,
            r.deep_view()[0] == prefix@,
            r.deep_view().no_duplicates(),
            forall|p: Seq<char>| #[trigger] r.deep_view().contains(p)
                ==> final(store).lookup(spec_entity_key(p, id)) is None,
            forall|p: Seq<char>, k: Seq<char>|
                #![trigger r.deep_view().contains(p), final(store).lookup(k)]
                r.deep_view().contains(p) && text::has_prefix(k, spec_query_prefix(p))
                    ==> final(store).lookup(k) is None,
            forall|k: Seq<char>| #[trigger] final(store).lookup(k) is Some
                ==> final(store).lookup(k) == old(store).lookup(k),
            forall|k: Seq<char>| !owned_by_any(r.deep_view(), id, k)
                ==> #[trigger] final(store).lookup(k) == old(store).lookup(k),
            forall|d: Seq<char>| #[trigger] cascade_deps_of(self.spec_config(prefix@)).contains(d)
                ==> r.deep_view().contains(d),
    {
        let mut visited: Vec<String> = Vec::new();
        proof {
            assert(visited.deep_view() =~= Seq::<Seq<char>>::empty());
            assert(!visited.deep_view().contains(prefix@));
        }
        self.cascade_step(store, prefix, id, &mut visited, 0);
        proof {
            assert(step_newly_of(Seq::<Seq<char>>::empty(), visited.deep_view())
                =~= visited.deep_view());
        }
        visited
    }
}

/// Whether the entry tags `entry_tags` share a label with `strat_tags`.
pub open spec fn tags_hit(entry_tags: Seq<Seq<char>>, strat_tags: Seq<Seq<char>>) -> bool {
    exists|i: int| 0 <= i < strat_tags.len() && entry_tags.contains(strat_tags[i])
}

impl InvalidationEngine {
    /// Applies `config`'s invalidation strategy to the store after entity
    /// `id` was mutated. `new_value` is the entity's encoded state after
    /// the mutation, absent for a deletion. Returns the namespaces whose
    /// entries were cascaded over (the own namespace for `Immediate`,
    /// empty for the strategies that evict by other means or not at all).
    ///
    /// - `Immediate` evicts the entity's key and clears the type's query
    ///   cache before returning.
    /// - `TimeToLive` evicts nothing: it re-populates the key with a fresh
    ///   TTL when a new value is at hand.
    /// - `Manual` does nothing.
    /// - `Tagged` evicts exactly the entries carrying any of its tags.
    /// - `Cascade` behaves as `cascade_invalidate`.
    #[verifier::loop_isolation(false)]
    pub fn smart_invalidate(
        &self,
        store: &mut CacheStore,
        config: &CacheConfig,
        id: u128,
        new_value: Option<&Vec<u8>>,
        now: u64,
    ) -> (r: Vec<String>)
        requires
            old(store).wf(),
        ensures
            final(store).wf(),
            config.invalidation_strategy is Manual ==> *final(store) == *old(store)
                && r@.len() == 0,
            config.invalidation_strategy is Immediate ==> {
                &&& final(store).lookup(spec_entity_key(config.key_prefix@, id)) is None
                &&& forall|k: Seq<char>| #![auto]
                    text::has_prefix(k, spec_query_prefix(config.key_prefix@))
                        ==> final(store).lookup(k) is None
                &&& forall|k: Seq<char>| !owned_key(config.key_prefix@, id, k)
                    ==> #[trigger] final(store).lookup(k) == old(store).lookup(k)
                &&& r.deep_view() == seq![config.key_prefix@]
            },
            forall|ttl: u64| config.invalidation_strategy == CacheInvalidationStrategy::TimeToLive(
                ttl,
            ) ==> r@.len() == 0 && (match new_value {
                Some(v) => final(store).lookup(spec_entity_key(config.key_prefix@, id))
                    == Some(EntryModel {
                        value: v@,
                        expires_at: crate::cache::spec_expiry(Some(ttl), now),
                        tags: Seq::empty(),
                    })
                    && (forall|k: Seq<char>| #![auto] k != spec_entity_key(config.key_prefix@, id)
                        ==> final(store).lookup(k) == old(store).lookup(k)),
                None => *final(store) == *old(store),
            }),
            config.invalidation_strategy matches CacheInvalidationStrategy::Tagged(tags) ==> {
                &&& r@.len() == 0
                &&& forall|k: Seq<char>| #[trigger] final(store).lookup(k)
                    == if old(store).lookup(k) is Some && tags_hit(
                        old(store).lookup(k)->Some_0.tags,
                        tags.deep_view(),
                    ) {
                        None::<EntryModel>
                    } else {
                        old(store).lookup(k)
                    }
            },
            config.invalidation_strategy is Cascade ==> {
                &&& r.deep_view().len() >= 1
                &&& r.deep_view()[0] == config.key_prefix@
                &&& r.deep_view().no_duplicates()
                &&& forall|p: Seq<char>| #[trigger] r.deep_view().contains(p)
                    ==> final(store).lookup(spec_entity_key(p, id)) is None
                &&& forall|p: Seq<char>, k: Seq<char>|
                    #![trigger r.deep_view().contains(p), final(store).lookup(k)]
                    r.deep_view().contains(p) && text::has_prefix(k, spec_query_prefix(p))
                        ==> final(store).lookup(k) is None
                &&& forall|k: Seq<char>| #[trigger] final(store).lookup(k) is Some
                    ==> final(store).lookup(k) == old(store).lookup(k)
                &&& forall|k: Seq<char>| !owned_by_any(r.deep_view(), id, k)
                    ==> #[trigger] final(store).lookup(k) == old(store).lookup(k)
                &&& forall|d: Seq<char>|
                    #[trigger] cascade_deps_of(self.spec_config(config.key_prefix@)).contains(d)
                        ==> r.deep_view().contains(d)
            },
    {
        match &config.invalidation_strategy {
            CacheInvalidationStrategy::Manual => Vec::new(),
            CacheInvalidationStrategy::Immediate => {
                let ekey = generate_cache_key(&config.key_prefix, id);
                store.delete(&ekey);
                let qpre = generate_query_prefix(&config.key_prefix);
                store.delete_prefix(&qpre);
                let mut out: Vec<String> = Vec::new();
                out.push(config.key_prefix.clone());
                proof {
                    assert(out.deep_view() =~= seq![config.key_prefix@]);
                }
                out
            },
            CacheInvalidationStrategy::TimeToLive(ttl) => {
                if let Some(v) = new_value {
                    let ekey = generate_cache_key(&config.key_prefix, id);
                    let fresh = crate::cache::clone_bytes(v);
                    let no_tags: Vec<String> = Vec::new();
                    proof {
                        assert(no_tags.deep_view() =~= Seq::<Seq<char>>::empty());
                    }
                    let _ok = store.set(&ekey, fresh, Some(*ttl), no_tags, now);
                }
                Vec::new()
            },
            CacheInvalidationStrategy::Tagged(tags) => {
                let ghost s0 = *store;
                let ghost tv = tags.deep_view();
                let mut j: usize = 0;
                proof {
                    assert(tv.subrange(0, 0) =~= Seq::<Seq<char>>::empty());
                }
                while j < tags.len()
                    invariant
                        j <= tv.len(),
                        store.wf(),
                        forall|k: Seq<char>| #[trigger] store.lookup(k)
                            == if s0.lookup(k) is Some && tags_hit(
                                s0.lookup(k)->Some_0.tags,
                                tv.subrange(0, j as int),
                            ) {
                                None::<EntryModel>
                            } else {
                                s0.lookup(k)
                            },
                    decreases tv.len() - j,
                {
                    let ghost mid = *store;
                    store.delete_tag(&tags[j]);
                    proof {
                        let done = tv.subrange(0, j as int);
                        let done1 = tv.subrange(0, j + 1);
                        assert(done1 =~= done.push(tv[j as int]));
                        assert(tags@[j as int]@ == tv[j as int]);
                        assert forall|k: Seq<char>| #[trigger] store.lookup(k)
                            == if s0.lookup(k) is Some && tags_hit(
                                s0.lookup(k)->Some_0.tags,
                                done1,
                            ) {
                                None::<EntryModel>
                            } else {
                                s0.lookup(k)
                            } by {
                            if s0.lookup(k) is Some {
                                let et = s0.lookup(k)->Some_0.tags;
                                if tags_hit(et, done) {
                                    assert(mid.lookup(k) is None);
                                    let a = choose|a: int|
                                        0 <= a < done.len() && et.contains(done[a]);
                                    assert(done1[a] == done[a]);
                                    assert(tags_hit(et, done1));
                                } else {
                                    assert(mid.lookup(k) == s0.lookup(k));
                                    if et.contains(tv[j as int]) {
                                        assert(done1[j as int] == tv[j as int]);
                                        assert(tags_hit(et, done1));
                                        assert(store.lookup(k) is None);
                                    } else {
                                        assert(!tags_hit(et, done1)) by {
                                            if tags_hit(et, done1) {
                                                let a = choose|a: int|
                                                    0 <= a < done1.len() && et.contains(done1[a]);
                                                if a < j {
                                                    assert(done[a] == done1[a]);
                                                    assert(tags_hit(et, done));
                                                } else {
                                                    assert(done1[a] == tv[j as int]);
                                                }
                                            }
                                        }
                                    }
                                }
                            } else {
                                assert(mid.lookup(k) is None);
                            }
                        }
                    }
                    j += 1;
                }
                proof {
                    assert(tv.subrange(0, tv.len() as int) =~= tv);
                }
                Vec::new()
            },
            CacheInvalidationStrategy::Cascade(_) => {
                self.cascade_invalidate(store, &config.key_prefix, id)
            },
        }
    }
}

/// Whether `k` is the entity key of any of `ids` in namespace `prefix`.
pub open spec fn entity_key_of_any(prefix: Seq<char>, ids: Seq<u128>, k: Seq<char>) -> bool {
    exists|i: int| 0 <= i < ids.len() && k == spec_entity_key(prefix, ids[i])
}

/// Evicts the cache entry of one entity. Returns whether an entry was
/// present.
pub fn invalidate_cache(store: &mut CacheStore, prefix: &String, id: u128) -> (r: bool)
    requires
        old(store).wf(),
    ensures
        final(store).wf(),
        r == (old(store).lookup(spec_entity_key(prefix@, id)) is Some),
        final(store).lookup(spec_entity_key(prefix@, id)) is None,
        forall|k: Seq<char>| #![auto] k != spec_entity_key(prefix@, id)
            ==> final(store).lookup(k) == old(store).lookup(k),
{
    let key = generate_cache_key(prefix, id);
    store.delete(&key)
}

/// Evicts the cache entries of several entities, one by one. The result
/// holds, per id, whether an entry was present when its turn came — a
/// repeated id reads `false` the second time.
#[verifier::loop_isolation(false)]
pub fn invalidate_multiple_cache(store: &mut CacheStore, prefix: &String, ids: &Vec<u128>)
    -> (r: Vec<bool>)
    requires
        old(store).wf(),
    ensures
        final(store).wf(),
        r@.len() == ids@.len(),
        forall|i: int| #![auto] 0 <= i < ids@.len() ==> r@[i] == (
            old(store).lookup(spec_entity_key(prefix@, ids@[i])) is Some
            && forall|j: int| 0 <= j < i
                ==> spec_entity_key(prefix@, ids@[j]) != spec_entity_key(prefix@, ids@[i])
        ),
        forall|i: int| #![auto] 0 <= i < ids@.len()
            ==> final(store).lookup(spec_entity_key(prefix@, ids@[i])) is None,
        forall|k: Seq<char>| !entity_key_of_any(prefix@, ids@, k)
            ==> #[trigger] final(store).lookup(k) == old(store).lookup(k),
{
    let ghost s0 = *store;
    let mut r: Vec<bool> = Vec::new();
    let mut i: usize = 0;
    while i < ids.len()
        invariant
            i <= ids@.len(),
            store.wf(),
            r@.len() == i,
            forall|a: int| #![auto] 0 <= a < i ==> r@[a] == (
                s0.lookup(spec_entity_key(prefix@, ids@[a])) is Some
                && forall|j: int| 0 <= j < a
                    ==> spec_entity_key(prefix@, ids@[j]) != spec_entity_key(prefix@, ids@[a])
            ),
            forall|k: Seq<char>| #[trigger] store.lookup(k) == if entity_key_of_any(
                prefix@,
                ids@.subrange(0, i as int),
                k,
            ) {
                None::<EntryModel>
            } else {
                s0.lookup(k)
            },
        decreases ids@.len() - i,
    {
        let ghost mid = *store;
        let key = generate_cache_key(prefix, ids[i]);
        let present = store.delete(&key);
        r.push(present);
        proof {
            let ghost done = ids@.subrange(0, i as int);
            let ghost done1 = ids@.subrange(0, i + 1);
            assert(done1[i as int] == ids@[i as int]);
            assert(key@ == spec_entity_key(prefix@, done1[i as int]));
            assert(entity_key_of_any(prefix@, done1, key@));
            assert forall|k: Seq<char>| #[trigger] store.lookup(k) == if entity_key_of_any(
                prefix@,
                done1,
                k,
            ) {
                None::<EntryModel>
            } else {
                s0.lookup(k)
            } by {
                if entity_key_of_any(prefix@, done1, k) {
                    let a = choose|a: int| 0 <= a < done1.len()
                        && k == spec_entity_key(prefix@, done1[a]);
                    if a < i {
                        assert(entity_key_of_any(prefix@, done, k));
                        assert(mid.lookup(k) is None);
                    } else {
                        assert(k == key@);
                    }
                } else {
                    assert(!entity_key_of_any(prefix@, done, k)) by {
                        if entity_key_of_any(prefix@, done, k) {
                            let a = choose|a: int| 0 <= a < done.len()
                                && k == spec_entity_key(prefix@, done[a]);
                            assert(k == spec_entity_key(prefix@, done1[a]));
                        }
                    }
                    assert(k != key@);
                }
            }
            assert(r@[i as int] == (
                s0.lookup(spec_entity_key(prefix@, ids@[i as int])) is Some
                && forall|j: int| 0 <= j < i
                    ==> spec_entity_key(prefix@, ids@[j]) != spec_entity_key(
                        prefix@,
                        ids@[i as int],
                    )
            )) by {
                if forall|j: int| 0 <= j < i
                    ==> spec_entity_key(prefix@, ids@[j]) != spec_entity_key(
                        prefix@,
                        ids@[i as int],
                    ) {
                    assert(!entity_key_of_any(prefix@, done, key@)) by {
                        if entity_key_of_any(prefix@, done, key@) {
                            let a = choose|a: int| 0 <= a < done.len()
                                && key@ == spec_entity_key(prefix@, done[a]);
                            assert(spec_entity_key(prefix@, ids@[a])
                                == spec_entity_key(prefix@, ids@[i as int]));
                        }
                    }
                    assert(mid.lookup(key@) == s0.lookup(key@));
                } else {
                    let j = choose|j: int| 0 <= j < i && spec_entity_key(prefix@, ids@[j])
                        == spec_entity_key(prefix@, ids@[i as int]);
                    assert(done[j] == ids@[j]);
                    assert(key@ == spec_entity_key(prefix@, done[j]));
                    assert(entity_key_of_any(prefix@, done, key@));
                    assert(mid.lookup(key@) is None);
                }
            }
        }
        i += 1;
    }
    proof {
        assert(ids@.subrange(0, ids@.len() as int) =~= ids@);
        assert forall|i: int| #![auto] 0 <= i < ids@.len()
            implies store.lookup(spec_entity_key(prefix@, ids@[i])) is None by {
            assert(entity_key_of_any(prefix@, ids@, spec_entity_key(prefix@, ids@[i])));
        }
    }
    r
}

/// The suffix `post` added after `pre`.
pub open spec fn step_newly_of(pre: Seq<Seq<char>>, post: Seq<Seq<char>>) -> Seq<Seq<char>> {
    post.subrange(pre.len() as int, post.len() as int)
}

proof fn lemma_newly_now(v0: Seq<Seq<char>>, v1: Seq<Seq<char>>)
    requires
        v1.len() == v0.len() + 1,
    ensures
        step_newly_of(v0, v1) =~= seq![v1[v0.len() as int]],
{
}

/// Composes the postcondition of one recursive cascade step with the
/// accumulated facts about the steps before it.
proof fn lemma_step_compose(
    v0: Seq<Seq<char>>,
    vm: Seq<Seq<char>>,
    vn: Seq<Seq<char>>,
    s0: CacheStore,
    sm: CacheStore,
    sn: CacheStore,
    id: u128,
)
    requires
        // the middle state extends the start
        vm.len() >= v0.len(),
        vm.subrange(0, v0.len() as int) == v0,
        step_newly_of(v0, vm).no_duplicates(),
        forall|p: Seq<char>| #[trigger] step_newly_of(v0, vm).contains(p) ==> !v0.contains(p),
        forall|p: Seq<char>| #[trigger] step_newly_of(v0, vm).contains(p)
            ==> sm.lookup(spec_entity_key(p, id)) is None,
        forall|p: Seq<char>, k: Seq<char>|
            #![trigger step_newly_of(v0, vm).contains(p), sm.lookup(k)]
            step_newly_of(v0, vm).contains(p) && text::has_prefix(k, spec_query_prefix(p))
                ==> sm.lookup(k) is None,
        forall|k: Seq<char>| #[trigger] sm.lookup(k) is Some ==> sm.lookup(k) == s0.lookup(k),
        forall|k: Seq<char>| !owned_by_any(step_newly_of(v0, vm), id, k)
            ==> #[trigger] sm.lookup(k) == s0.lookup(k),
        // the final state extends the middle one as one step promises
        vn.len() >= vm.len(),
        vn.subrange(0, vm.len() as int) == vm,
        step_newly_of(vm, vn).no_duplicates(),
        forall|p: Seq<char>| #[trigger] step_newly_of(vm, vn).contains(p) ==> !vm.contains(p),
        forall|p: Seq<char>| #[trigger] step_newly_of(vm, vn).contains(p)
            ==> sn.lookup(spec_entity_key(p, id)) is None,
        forall|p: Seq<char>, k: Seq<char>|
            #![trigger step_newly_of(vm, vn).contains(p), sn.lookup(k)]
            step_newly_of(vm, vn).contains(p) && text::has_prefix(k, spec_query_prefix(p))
                ==> sn.lookup(k) is None,
        forall|k: Seq<char>| #[trigger] sn.lookup(k) is Some ==> sn.lookup(k) == sm.lookup(k),
        forall|k: Seq<char>| !owned_by_any(step_newly_of(vm, vn), id, k)
            ==> #[trigger] sn.lookup(k) == sm.lookup(k),
    ensures
        vn.len() >= v0.len(),
        vn.subrange(0, v0.len() as int) == v0,
        step_newly_of(v0, vn).no_duplicates(),
        forall|p: Seq<char>| #[trigger] step_newly_of(v0, vn).contains(p) ==> !v0.contains(p),
        forall|p: Seq<char>| #[trigger] step_newly_of(v0, vn).contains(p)
            ==> sn.lookup(spec_entity_key(p, id)) is None,
        forall|p: Seq<char>, k: Seq<char>|
            #![trigger step_newly_of(v0, vn).contains(p), sn.lookup(k)]
            step_newly_of(v0, vn).contains(p) && text::has_prefix(k, spec_query_prefix(p))
                ==> sn.lookup(k) is None,
        forall|k: Seq<char>| #[trigger] sn.lookup(k) is Some ==> sn.lookup(k) == s0.lookup(k),
        forall|k: Seq<char>| !owned_by_any(step_newly_of(v0, vn), id, k)
            ==> #[trigger] sn.lookup(k) == s0.lookup(k),
{
    let n0 = step_newly_of(v0, vm);
    let n1 = step_newly_of(vm, vn);
    let nt = step_newly_of(v0, vn);
    assert(nt =~= n0 + n1);
    assert(vn.subrange(0, v0.len() as int) =~= v0);

    // membership in the concatenation splits
    assert forall|p: Seq<char>| #[trigger] nt.contains(p)
        implies n0.contains(p) || n1.contains(p) by {
        let a = choose|a: int| 0 <= a < nt.len() && nt[a] == p;
        if a < n0.len() {
            assert(n0[a] == p);
        } else {
            assert(n1[a - n0.len()] == p);
        }
    }
    // a middle-visited namespace is in v0 or among the first step's news
    assert forall|p: Seq<char>| #[trigger] vm.contains(p)
        implies v0.contains(p) || n0.contains(p) by {
        let a = choose|a: int| 0 <= a < vm.len() && vm[a] == p;
        if a < v0.len() {
            assert(v0[a] == p);
        } else {
            assert(n0[a - v0.len()] == p);
        }
    }
    assert forall|p: Seq<char>| #[trigger] n0.contains(p) implies vm.contains(p) by {
        let a = choose|a: int| 0 <= a < n0.len() && n0[a] == p;
        assert(vm[v0.len() + a] == p);
    }

    assert(nt.no_duplicates()) by {
        assert forall|a: int, b: int| 0 <= a < b < nt.len() implies nt[a] != nt[b] by {
            if b < n0.len() {
                assert(n0[a] == nt[a] && n0[b] == nt[b]);
            } else if a >= n0.len() {
                assert(n1[a - n0.len()] == nt[a] && n1[b - n0.len()] == nt[b]);
            } else {
                assert(n0[a] == nt[a] && n1[b - n0.len()] == nt[b]);
                assert(n0.contains(nt[a]));
                assert(n1.contains(nt[b]));
                if nt[a] == nt[b] {
                    assert(vm.contains(nt[a]));
                    assert(!vm.contains(nt[b]));
                }
            }
        }
    }

    assert forall|p: Seq<char>| #[trigger] nt.contains(p) implies !v0.contains(p) by {
        if n1.contains(p) && v0.contains(p) {
            let a = choose|a: int| 0 <= a < v0.len() && v0[a] == p;
            assert(vm[a] == p);
            assert(vm.contains(p));
        }
    }

    // eviction facts survive the second step because keys are only lost
    assert forall|p: Seq<char>| #[trigger] nt.contains(p)
        implies sn.lookup(spec_entity_key(p, id)) is None by {
        if n0.contains(p) {
            assert(sm.lookup(spec_entity_key(p, id)) is None);
            if sn.lookup(spec_entity_key(p, id)) is Some {
                assert(sn.lookup(spec_entity_key(p, id)) == sm.lookup(spec_entity_key(p, id)));
            }
        }
    }
    assert forall|p: Seq<char>, k: Seq<char>|
        #![trigger nt.contains(p), sn.lookup(k)]
        nt.contains(p) && text::has_prefix(k, spec_query_prefix(p))
        implies sn.lookup(k) is None by {
        assert(nt.contains(p));
        if n0.contains(p) {
            assert(sm.lookup(k) is None);
            if sn.lookup(k) is Some {
                assert(sn.lookup(k) == sm.lookup(k));
            }
        } else {
            assert(n1.contains(p));
        }
    }

    assert forall|k: Seq<char>| !owned_by_any(nt, id, k)
        implies #[trigger] sn.lookup(k) == s0.lookup(k) by {
        assert forall|a: int| 0 <= a < n0.len() implies !owned_key(n0[a], id, k) by {
            assert(nt[a] == n0[a]);
            if owned_key(nt[a], id, k) {
                assert(owned_by_any(nt, id, k));
            }
        }
        assert forall|a: int| 0 <= a < n1.len() implies !owned_key(n1[a], id, k) by {
            assert(nt[n0.len() + a] == n1[a]);
            if owned_key(nt[n0.len() + a], id, k) {
                assert(owned_by_any(nt, id, k));
            }
        }
        assert(!owned_by_any(n0, id, k));
        assert(!owned_by_any(n1, id, k));
    }
}

proof fn lemma_find_config_push(s: Seq<CacheConfig>, c: CacheConfig, p: Seq<char>)
    requires
        find_config(s, c.key_prefix@) is None,
    ensures
        find_config(s.push(c), p) == if p == c.key_prefix@ {
            Some(c)
        } else {
            find_config(s, p)
        },
    decreases s.len(),
{
    if s.len() == 0 {
        assert(s.push(c).subrange(1, s.push(c).len() as int) =~= s);
    } else {
        assert(s.push(c).subrange(1, s.push(c).len() as int)
            =~= s.subrange(1, s.len() as int).push(c));
        lemma_find_config_push(s.subrange(1, s.len() as int), c, p);
    }
}

} // verus!
