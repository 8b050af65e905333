//! The key/value cache store: string keys, opaque byte values, per-key TTL,
//! tag labels, and bulk operations by key prefix and by tag.
//!
//! The store is modelled as a partial map from key (a character sequence) to
//! an entry model; `lookup` is that map. Every operation's contract says how
//! it changes `lookup` at every key. Time is an explicit argument: callers
//! pass the current instant, and an entry whose expiry has passed is treated
//! as absent and physically removed when a read meets it (lazy expiry).

use vstd::prelude::*;
use vstd::seq_lib::*;
use crate::text;

verus! {

/// What the store remembers under one key.
pub struct CacheEntry {
    /// The full, namespaced key.
    pub key: String,
    /// The opaque encoded value.
    pub value: Vec<u8>,
    /// Absolute expiry instant; `None` means the entry never expires.
    pub expires_at: Option<u64>,
    /// Labels for tag-based bulk invalidation.
    pub tags: Vec<String>,
}

/// The mathematical content of one entry.
pub ghost struct EntryModel {
    pub value: Seq<u8>,
    pub expires_at: Option<u64>,
    pub tags: Seq<Seq<char>>,
}

impl CacheEntry {
    /// The entry's mathematical content.
    pub open spec fn model(self) -> EntryModel {
        EntryModel {
            value: self.value@,
            expires_at: self.expires_at,
            tags: self.tags.deep_view(),
        }
    }
}

/// An entry is expired at `now` when it has an expiry that has passed.
pub open spec fn expired(m: EntryModel, now: u64) -> bool {
    match m.expires_at {
        Some(e) => e <= now,
        None => false,
    }
}

/// First-match lookup over a sequence of entries. With unique keys this is
/// the map the store denotes.
pub open spec fn lookup_seq(s: Seq<CacheEntry>, k: Seq<char>) -> Option<EntryModel>
    decreases s.len(),
{
    if s.len() == 0 {
        None
    } else if s[0].key@ == k {
        Some(s[0].model())
    } else {
        lookup_seq(s.subrange(1, s.len() as int), k)
    }
}

/// No two entries share a key.
pub open spec fn unique_keys(s: Seq<CacheEntry>) -> bool {
    forall|i: int, j: int| 0 <= i < j < s.len() ==> s[i].key@ != s[j].key@
}

/// If no entry carries key `k`, lookup misses.
pub proof fn lemma_lookup_absent(s: Seq<CacheEntry>, k: Seq<char>)
    requires
        forall|i: int| 0 <= i < s.len() ==> s[i].key@ != k,
    ensures
        lookup_seq(s, k) is None,
    decreases s.len(),
{
    if s.len() > 0 {
        lemma_lookup_absent(s.subrange(1, s.len() as int), k);
    }
}

/// If some entry carries key `k`, lookup hits.
pub proof fn lemma_lookup_found(s: Seq<CacheEntry>, k: Seq<char>)
    requires
        exists|i: int| 0 <= i < s.len() && s[i].key@ == k,
    ensures
        lookup_seq(s, k) is Some,
    decreases s.len(),
{
    if s[0].key@ != k {
        let i = choose|i: int| 0 <= i < s.len() && s[i].key@ == k;
        assert(s.subrange(1, s.len() as int)[i - 1].key@ == k);
        lemma_lookup_found(s.subrange(1, s.len() as int), k);
    }
}

/// If entry `i` carries key `k` and no earlier entry does, lookup finds it.
pub proof fn lemma_lookup_present(s: Seq<CacheEntry>, k: Seq<char>, i: int)
    requires
        0 <= i < s.len(),
        s[i].key@ == k,
        forall|j: int| 0 <= j < i ==> s[j].key@ != k,
    ensures
        lookup_seq(s, k) == Some(s[i].model()),
    decreases s.len(),
{
    if i > 0 {
        lemma_lookup_present(s.subrange(1, s.len() as int), k, i - 1);
    }
}

/// Appending an entry only fills keys that missed before.
pub proof fn lemma_lookup_push(s: Seq<CacheEntry>, e: CacheEntry, k: Seq<char>)
    ensures
        lookup_seq(s.push(e), k) == if lookup_seq(s, k) is Some {
            lookup_seq(s, k)
        } else if e.key@ == k {
            Some(e.model())
        } else {
            None
        },
    decreases s.len(),
{
    if s.len() == 0 {
        assert(s.push(e).subrange(1, s.push(e).len() as int) =~= s);
    } else {
        assert(s.push(e).subrange(1, s.push(e).len() as int)
            =~= s.subrange(1, s.len() as int).push(e));
        lemma_lookup_push(s.subrange(1, s.len() as int), e, k);
    }
}

/// Removing the entry at `i` empties its key (under unique keys) and leaves
/// every other key unchanged.
pub proof fn lemma_lookup_remove(s: Seq<CacheEntry>, i: int, k: Seq<char>)
    requires
        0 <= i < s.len(),
        unique_keys(s),
    ensures
        s[i].key@ != k ==> lookup_seq(s.remove(i), k) == lookup_seq(s, k),
        s[i].key@ == k ==> lookup_seq(s.remove(i), k) is None,
    decreases s.len(),
{
    let r = s.remove(i);
    if s[i].key@ == k {
        assert(forall|j: int| 0 <= j < r.len() ==> r[j].key@ != k);
        lemma_lookup_absent(r, k);
    } else {
        if i == 0 {
            assert(r =~= s.subrange(1, s.len() as int));
        } else if s[0].key@ == k {
            assert(r[0] == s[0]);
        } else {
            assert(r[0] == s[0]);
            assert(r.subrange(1, r.len() as int) =~= s.subrange(1, s.len() as int).remove(i - 1));
            assert(unique_keys(s.subrange(1, s.len() as int)));
            lemma_lookup_remove(s.subrange(1, s.len() as int), i - 1, k);
        }
    }
}

/// Removing one entry keeps the remaining keys unique.
pub proof fn lemma_remove_unique(s: Seq<CacheEntry>, i: int)
    requires
        0 <= i < s.len(),
        unique_keys(s),
    ensures
        unique_keys(s.remove(i)),
{
    let r = s.remove(i);
    assert forall|a: int, b: int| 0 <= a < b < r.len() implies r[a].key@ != r[b].key@ by {
        let a0 = if a < i { a } else { a + 1 };
        let b0 = if b < i { b } else { b + 1 };
        assert(r[a] == s[a0] && r[b] == s[b0]);
    }
}

/// Lookup through a filter: a key whose entries are all kept looks up as
/// before; a key whose entries are all dropped misses.
pub proof fn lemma_lookup_filter(s: Seq<CacheEntry>, pred: spec_fn(CacheEntry) -> bool, k: Seq<char>)
    ensures
        (forall|i: int| 0 <= i < s.len() && s[i].key@ == k ==> pred(s[i]))
            ==> lookup_seq(s.filter(pred), k) == lookup_seq(s, k),
        (forall|i: int| 0 <= i < s.len() && s[i].key@ == k ==> !pred(s[i]))
            ==> lookup_seq(s.filter(pred), k) is None,
    decreases s.len(),
{
    broadcast use Seq::lemma_filter_len;

    if s.len() == 0 {
        assert(s.filter(pred) =~= Seq::<CacheEntry>::empty());
    } else {
        let rest = s.subrange(1, s.len() as int);
        assert(s =~= seq![s[0]] + rest);
        rest.lemma_filter_prepend(s[0], pred);
        lemma_lookup_filter(rest, pred, k);
        if pred(s[0]) {
            assert(s.filter(pred) =~= seq![s[0]] + rest.filter(pred));
            assert((seq![s[0]] + rest.filter(pred)).subrange(
                1,
                (seq![s[0]] + rest.filter(pred)).len() as int,
            ) =~= rest.filter(pred));
        } else {
            assert(s.filter(pred) =~= rest.filter(pred));
        }
    }
}

/// Every element of a filtered sequence stands somewhere in the original.
pub proof fn lemma_filter_element_of(s: Seq<CacheEntry>, pred: spec_fn(CacheEntry) -> bool, i: int)
    requires
        0 <= i < s.filter(pred).len(),
    ensures
        exists|j: int| 0 <= j < s.len() && s[j] == s.filter(pred)[i],
    decreases s.len(),
{
    reveal(Seq::filter);
    if s.len() > 0 {
        let sub = s.drop_last().filter(pred);
        if pred(s.last()) && i == sub.len() {
            assert(s[s.len() - 1] == s.filter(pred)[i]);
        } else {
            lemma_filter_element_of(s.drop_last(), pred, i);
            let j = choose|j: int| 0 <= j < s.drop_last().len() && s.drop_last()[j] == sub[i];
            assert(s[j] == s.filter(pred)[i]);
        }
    }
}

/// Filtering keeps key uniqueness.
pub proof fn lemma_filter_unique(s: Seq<CacheEntry>, pred: spec_fn(CacheEntry) -> bool)
    requires
        unique_keys(s),
    ensures
        unique_keys(s.filter(pred)),
    decreases s.len(),
{
    broadcast use Seq::lemma_filter_len;

    if s.len() == 0 {
        assert(s.filter(pred) =~= Seq::<CacheEntry>::empty());
    } else {
        let rest = s.subrange(1, s.len() as int);
        assert(s =~= seq![s[0]] + rest);
        rest.lemma_filter_prepend(s[0], pred);
        assert(unique_keys(rest));
        lemma_filter_unique(rest, pred);
        if pred(s[0]) {
            let f = s.filter(pred);
            assert(f =~= seq![s[0]] + rest.filter(pred));
            assert forall|a: int, b: int| 0 <= a < b < f.len() implies f[a].key@ != f[b].key@ by {
                if a == 0 {
                    lemma_filter_element_of(rest, pred, b - 1);
                    let j = choose|j: int|
                        0 <= j < rest.len() && rest[j] == rest.filter(pred)[b - 1];
                    assert(s[0].key@ != s[j + 1].key@);
                } else {
                    assert(f[a] == rest.filter(pred)[a - 1]);
                    assert(f[b] == rest.filter(pred)[b - 1]);
                }
            }
        } else {
            assert(s.filter(pred) =~= rest.filter(pred));
        }
    }
}

/// The sum of the stored value sizes.
pub open spec fn size_sum(s: Seq<CacheEntry>) -> int
    decreases s.len(),
{
    if s.len() == 0 {
        0
    } else {
        size_sum(s.drop_last()) + s.last().value@.len()
    }
}

/// `now + ttl`, saturating at the largest instant (which in practice never
/// arrives: the entry then simply never expires).
pub open spec fn spec_expiry(ttl: Option<u64>, now: u64) -> Option<u64> {
    match ttl {
        Some(t) => Some(if now + t > u64::MAX { u64::MAX } else { (now + t) as u64 }),
        None => None,
    }
}

/// Saturating addition on `u64`.
pub fn saturating_add_u64(a: u64, b: u64) -> (r: u64)
    ensures
        r == if a + b > u64::MAX { u64::MAX } else { (a + b) as u64 },
{
    if a <= u64::MAX - b {
        a + b
    } else {
        u64::MAX
    }
}

/// An exact copy of a byte vector.
pub fn clone_bytes(v: &Vec<u8>) -> (r: Vec<u8>)
    ensures
        r@ == v@,
{
    let mut r: Vec<u8> = Vec::new();
    let mut i: usize = 0;
    while i < v.len()
        invariant
            i <= v@.len(),
            r@ =~= v@.subrange(0, i as int),
        decreases v@.len() - i,
    {
        r.push(v[i]);
        proof {
            assert(r@ =~= v@.subrange(0, i + 1));
        }
        i += 1;
    }
    proof {
        assert(v@.subrange(0, v@.len() as int) =~= v@);
    }
    r
}

/// The key/value store. Keys are unique; all operations keep that so.
pub struct CacheStore {
    /// The live entries, no two under the same key.
    pub entries: Vec<CacheEntry>,
}

impl CacheStore {
    /// Well-formedness: no duplicate keys.
    pub open spec fn wf(self) -> bool {
        unique_keys(self.entries@)
    }

    /// The map the store denotes: the entry model under each key.
    pub open spec fn lookup(self, k: Seq<char>) -> Option<EntryModel> {
        lookup_seq(self.entries@, k)
    }

    /// What a read at instant `now` yields: the value, unless the key is
    /// absent or its entry has expired.
    pub open spec fn live_lookup(self, k: Seq<char>, now: u64) -> Option<Seq<u8>> {
        match self.lookup(k) {
            Some(m) => if expired(m, now) {
                None
            } else {
                Some(m.value)
            },
            None => None,
        }
    }

    /// The number of live entries.
    pub open spec fn spec_len(self) -> nat {
        self.entries@.len()
    }

    /// An empty store.
    pub fn new() -> (r: CacheStore)
        ensures
            r.wf(),
            r.spec_len() == 0,
            forall|k: Seq<char>| r.lookup(k) is None,
    {
        let r = CacheStore { entries: Vec::new() };
        proof {
            assert forall|k: Seq<char>| r.lookup(k) is None by {
                lemma_lookup_absent(r.entries@, k);
            }
        }
        r
    }

    /// The number of entries currently held, expired ones included.
    pub fn len(&self) -> (r: usize)
        ensures
            r == self.spec_len(),
    {
        self.entries.len()
    }

    /// The summed byte size of all stored values.
    pub fn value_bytes(&self) -> (r: u128)
        ensures
            r == size_sum(self.entries@),
    {
        let mut acc: u128 = 0;
        let mut i: usize = 0;
        while i < self.entries.len()
            invariant
                i <= self.entries@.len(),
                acc == size_sum(self.entries@.subrange(0, i as int)),
                acc <= i * 0xffff_ffff_ffff_ffffu128,
            decreases self.entries@.len() - i,
        {
            let l = self.entries[i].value.len();
            proof {
                assert(self.entries@.subrange(0, i + 1).drop_last()
                    =~= self.entries@.subrange(0, i as int));
                assert(acc + l <= i * 0xffff_ffff_ffff_ffffu128 + 0xffff_ffff_ffff_ffffu128);
                assert((i + 1) * 0xffff_ffff_ffff_ffffu128
                    == i * 0xffff_ffff_ffff_ffffu128 + 0xffff_ffff_ffff_ffffu128)
                    by (nonlinear_arith);
                assert((i + 1) * 0xffff_ffff_ffff_ffffu128 < u128::MAX) by (nonlinear_arith)
                    requires i + 1 <= 0xffff_ffff_ffff_ffffu128;
            }
            acc = acc + (l as u128);
            i += 1;
        }
        proof {
            assert(self.entries@.subrange(0, self.entries@.len() as int) =~= self.entries@);
        }
        acc
    }

    /// The index of the entry carrying `key`, if any.
    fn find_index(&self, key: &String) -> (r: Option<usize>)
        ensures
            match r {
                Some(i) => i < self.entries@.len() && self.entries@[i as int].key@ == key@
                    && forall|j: int| 0 <= j < i ==> self.entries@[j].key@ != key@,
                None => forall|j: int|
                    0 <= j < self.entries@.len() ==> self.entries@[j].key@ != key@,
            },
    {
        let mut i: usize = 0;
        while i < self.entries.len()
            invariant
                i <= self.entries@.len(),
                forall|j: int| 0 <= j < i ==> self.entries@[j].key@ != key@,
            decreases self.entries@.len() - i,
        {
            if self.entries[i].key.eq(key) {
                return Some(i);
            }
            i += 1;
        }
        None
    }

    /// Whether `key` currently holds an unexpired value, without counting
    /// as a read: no eviction and no statistics.
    pub fn peek(&self, key: &String, now: u64) -> (r: bool)
        ensures
            r == (self.live_lookup(key@, now) is Some),
    {
        match self.find_index(key) {
            Some(i) => {
                proof {
                    lemma_lookup_present(self.entries@, key@, i as int);
                }
                let e = &self.entries[i];
                match e.expires_at {
                    Some(exp) => exp > now,
                    None => true,
                }
            },
            None => {
                proof {
                    lemma_lookup_absent(self.entries@, key@);
                }
                false
            },
        }
    }

    /// Reads `key` at instant `now`. Returns the stored value unless the
    /// key is absent or expired; an expired entry is removed on the way
    /// (lazy expiry), so a read never returns stale data.
    pub fn get(&mut self, key: &String, now: u64) -> (r: Option<Vec<u8>>)
        requires
            old(self).wf(),
        ensures
            final(self).wf(),
            match r {
                Some(v) => old(self).live_lookup(key@, now) == Some(v@),
                None => old(self).live_lookup(key@, now) is None,
            },
            // Only an expired entry under `key` is removed; nothing else moves.
            forall|k: Seq<char>| #![auto] final(self).lookup(k) == if k == key@
                && old(self).lookup(k) is Some && expired(old(self).lookup(k)->Some_0, now) {
                None::<EntryModel>
            } else {
                old(self).lookup(k)
            },
    {
        let idx = self.find_index(key);
        match idx {
            Some(i) => {
                proof {
                    lemma_lookup_present(self.entries@, key@, i as int);
                }
                let is_expired = match self.entries[i].expires_at {
                    Some(exp) => exp <= now,
                    None => false,
                };
                if is_expired {
                    self.entries.remove(i);
                    proof {
                        let pre = old(self).entries@;
                        lemma_remove_unique(pre, i as int);
                        assert forall|k: Seq<char>| #![auto] lookup_seq(self.entries@, k)
                            == if k == key@ {
                                None::<EntryModel>
                            } else {
                                lookup_seq(pre, k)
                            } by {
                            lemma_lookup_remove(pre, i as int, k);
                        }
                    }
                    None
                } else {
                    let v = clone_bytes(&self.entries[i].value);
                    Some(v)
                }
            },
            None => {
                proof {
                    lemma_lookup_absent(self.entries@, key@);
                }
                None
            },
        }
    }

    /// Appends an entry whose key is known to be absent.
    fn push_entry(&mut self, entry: CacheEntry)
        requires
            old(self).wf(),
            forall|j: int| #![auto] 0 <= j < old(self).entries@.len()
                ==> old(self).entries@[j].key@ != entry.key@,
        ensures
            final(self).wf(),
            final(self).lookup(entry.key@) == Some(entry.model()),
            forall|k: Seq<char>| #![auto] k != entry.key@
                ==> final(self).lookup(k) == old(self).lookup(k),
    {
        let ghost pre = self.entries@;
        let ghost em = entry.model();
        let ghost ekey = entry.key@;
        self.entries.push(entry);
        proof {
            lemma_lookup_absent(pre, ekey);
            assert forall|k: Seq<char>| #![auto] lookup_seq(self.entries@, k) == if k == ekey {
                Some(em)
            } else {
                lookup_seq(pre, k)
            } by {
                lemma_lookup_push(pre, self.entries@.last(), k);
                if k != ekey && lookup_seq(pre, k) is None {
                    assert(lookup_seq(self.entries@, k) is None);
                }
            }
            assert forall|a: int, b: int| 0 <= a < b < self.entries@.len()
                implies self.entries@[a].key@ != self.entries@[b].key@ by {
                if b == self.entries@.len() - 1 {
                    assert(pre[a].key@ != ekey);
                }
            }
        }
    }

    /// Writes `value` under `key`, replacing whatever was there; the entry
    /// expires `ttl` after `now` (saturating), or never when `ttl` is
    /// `None`. The tags replace any earlier ones: nothing is merged.
    pub fn set(&mut self, key: &String, value: Vec<u8>, ttl: Option<u64>, tags: Vec<String>, now: u64)
        -> (r: Result<(), crate::errors::CoreError>)
        requires
            old(self).wf(),
        ensures
            final(self).wf(),
            r is Ok,
            final(self).lookup(key@) == Some(EntryModel {
                value: value@,
                expires_at: spec_expiry(ttl, now),
                tags: tags.deep_view(),
            }),
            forall|k: Seq<char>| #![auto] k != key@
                ==> final(self).lookup(k) == old(self).lookup(k),
    {
        let expires_at = match ttl {
            Some(t) => Some(saturating_add_u64(now, t)),
            None => None,
        };
        let entry = CacheEntry { key: key.clone(), value, expires_at, tags };
        let idx = self.find_index(key);
        let ghost pre = self.entries@;
        if let Some(i) = idx {
            self.entries.remove(i);
            proof {
                lemma_remove_unique(pre, i as int);
                assert forall|j: int| #![auto] 0 <= j < self.entries@.len()
                    implies self.entries@[j].key@ != key@ by {
                    let j0 = if j < i { j } else { j + 1 };
                    assert(self.entries@[j] == pre[j0]);
                }
                assert forall|k: Seq<char>| #![auto] k != key@
                    implies lookup_seq(self.entries@, k) == lookup_seq(pre, k) by {
                    lemma_lookup_remove(pre, i as int, k);
                }
            }
            self.push_entry(entry);
        } else {
            self.push_entry(entry);
        }
        Ok(())
    }

    /// Removes `key`. Returns whether a key was present — expired or not —
    /// and never errors, also when the key is absent.
    pub fn delete(&mut self, key: &String) -> (r: bool)
        requires
            old(self).wf(),
        ensures
            final(self).wf(),
            r == (old(self).lookup(key@) is Some),
            final(self).lookup(key@) is None,
            forall|k: Seq<char>| #![auto] k != key@
                ==> final(self).lookup(k) == old(self).lookup(k),
    {
        let idx = self.find_index(key);
        match idx {
            Some(i) => {
                proof {
                    lemma_lookup_present(self.entries@, key@, i as int);
                }
                self.entries.remove(i);
                proof {
                    let pre = old(self).entries@;
                    lemma_remove_unique(pre, i as int);
                    assert forall|k: Seq<char>| #![auto] lookup_seq(self.entries@, k)
                        == if k == key@ {
                            None::<EntryModel>
                        } else {
                            lookup_seq(pre, k)
                        } by {
                        lemma_lookup_remove(pre, i as int, k);
                    }
                }
                true
            },
            None => {
                proof {
                    lemma_lookup_absent(self.entries@, key@);
                }
                false
            },
        }
    }

    /// Removes every entry whose key begins with `prefix`; used to clear a
    /// whole namespace, such as all cached query results of one entity
    /// type. Returns how many entries were removed.
    #[verifier::loop_isolation(false)]
    pub fn delete_prefix(&mut self, prefix: &String) -> (r: usize)
        requires
            old(self).wf(),
        ensures
            final(self).wf(),
            r == old(self).spec_len() - final(self).spec_len(),
            forall|k: Seq<char>| #![auto] final(self).lookup(k) == if text::has_prefix(k, prefix@) {
                None::<EntryModel>
            } else {
                old(self).lookup(k)
            },
    {
        broadcast use Seq::lemma_filter_len, Seq::lemma_filter_push;

        let ghost pred = |e: CacheEntry| !text::has_prefix(e.key@, prefix@);
        let ghost orig = self.entries@;
        let before = self.entries.len();
        let mut old_v: Vec<CacheEntry> = Vec::new();
        core::mem::swap(&mut self.entries, &mut old_v);
        proof {
            orig.subrange(0, 0).lemma_filter_len(pred);
            assert(self.entries@ =~= orig.subrange(0, 0).filter(pred));
            assert(old_v@ =~= orig.subrange(0, orig.len() as int));
        }
        while old_v.len() > 0
            invariant
                old_v@.len() <= orig.len(),
                old_v@ == orig.subrange(orig.len() - old_v@.len(), orig.len() as int),
                self.entries@ == orig.subrange(0, orig.len() - old_v@.len()).filter(pred),
            decreases old_v@.len(),
        {
            let ghost k = orig.len() - old_v@.len();
            let e = old_v.remove(0);
            proof {
                assert(old_v@ =~= orig.subrange(k + 1, orig.len() as int));
                assert(e == orig[k]);
                assert(orig.subrange(0, k + 1) =~= orig.subrange(0, k).push(orig[k]));
                orig.subrange(0, k).lemma_filter_push(orig[k], pred);
                assert(orig.subrange(0, k).push(orig[k]).filter(pred) == if pred(orig[k]) {
                    orig.subrange(0, k).filter(pred).push(orig[k])
                } else {
                    orig.subrange(0, k).filter(pred)
                });
            }
            if !text::str_has_prefix(e.key.as_str(), prefix.as_str()) {
                self.entries.push(e);
            }
            proof {
                assert(self.entries@ == orig.subrange(0, k + 1).filter(pred));
            }
        }
        proof {
            assert(orig.subrange(0, orig.len() as int) =~= orig);
            assert(self.entries@ == orig.filter(pred));
            lemma_filter_unique(orig, pred);
            assert forall|k: Seq<char>| #![auto] lookup_seq(self.entries@, k)
                == if text::has_prefix(k, prefix@) {
                    None::<EntryModel>
                } else {
                    lookup_seq(orig, k)
                } by {
                lemma_lookup_filter(orig, pred, k);
            }
        }
        let after = self.entries.len();
        before - after
    }

    /// Removes every entry that carries `tag`; the heart of tagged
    /// invalidation. Returns how many entries were removed.
    #[verifier::loop_isolation(false)]
    pub fn delete_tag(&mut self, tag: &String) -> (r: usize)
        requires
            old(self).wf(),
        ensures
            final(self).wf(),
            r == old(self).spec_len() - final(self).spec_len(),
            forall|k: Seq<char>| #![auto] final(self).lookup(k) == if old(self).lookup(k) is Some
                && old(self).lookup(k)->Some_0.tags.contains(tag@) {
                None::<EntryModel>
            } else {
                old(self).lookup(k)
            },
    {
        broadcast use Seq::lemma_filter_len, Seq::lemma_filter_push;

        let ghost pred = |e: CacheEntry| !e.model().tags.contains(tag@);
        let ghost orig = self.entries@;
        let before = self.entries.len();
        let mut old_v: Vec<CacheEntry> = Vec::new();
        core::mem::swap(&mut self.entries, &mut old_v);
        proof {
            orig.subrange(0, 0).lemma_filter_len(pred);
            assert(self.entries@ =~= orig.subrange(0, 0).filter(pred));
            assert(old_v@ =~= orig.subrange(0, orig.len() as int));
        }
        while old_v.len() > 0
            invariant
                old_v@.len() <= orig.len(),
                old_v@ == orig.subrange(orig.len() - old_v@.len(), orig.len() as int),
                self.entries@ == orig.subrange(0, orig.len() - old_v@.len()).filter(pred),
            decreases old_v@.len(),
        {
            let ghost k = orig.len() - old_v@.len();
            let e = old_v.remove(0);
            proof {
                assert(old_v@ =~= orig.subrange(k + 1, orig.len() as int));
                assert(e == orig[k]);
                assert(orig.subrange(0, k + 1) =~= orig.subrange(0, k).push(orig[k]));
                orig.subrange(0, k).lemma_filter_push(orig[k], pred);
                assert(orig.subrange(0, k).push(orig[k]).filter(pred) == if pred(orig[k]) {
                    orig.subrange(0, k).filter(pred).push(orig[k])
                } else {
                    orig.subrange(0, k).filter(pred)
                });
            }
            if !entry_has_tag(&e, tag) {
                self.entries.push(e);
            }
            proof {
                assert(self.entries@ == orig.subrange(0, k + 1).filter(pred));
            }
        }
        proof {
            assert(orig.subrange(0, orig.len() as int) =~= orig);
            assert(self.entries@ == orig.filter(pred));
            lemma_filter_unique(orig, pred);
            assert forall|k: Seq<char>| #![auto] lookup_seq(self.entries@, k)
                == if lookup_seq(orig, k) is Some
                    && lookup_seq(orig, k)->Some_0.tags.contains(tag@) {
                    None::<EntryModel>
                } else {
                    lookup_seq(orig, k)
                } by {
                lemma_lookup_filter(orig, pred, k);
                if lookup_seq(orig, k) is Some {
                    lemma_lookup_some_entry(orig, k);
                    let i = choose|i: int| 0 <= i < orig.len() && orig[i].key@ == k
                        && orig[i].model() == lookup_seq(orig, k)->Some_0;
                    assert(forall|j: int| 0 <= j < orig.len() && orig[j].key@ == k
                        ==> orig[j] == orig[i]);
                } else {
                    assert forall|j: int| 0 <= j < orig.len() implies orig[j].key@ != k by {
                        if orig[j].key@ == k {
                            lemma_lookup_found(orig, k);
                        }
                    }
                }
            }
        }
        let after = self.entries.len();
        before - after
    }

    /// Removes every entry whose expiry has passed at `now`: the optional
    /// background sweep behind lazy expiry. Returns how many were removed.
    #[verifier::loop_isolation(false)]
    pub fn sweep_expired(&mut self, now: u64) -> (r: usize)
        requires
            old(self).wf(),
        ensures
            final(self).wf(),
            r == old(self).spec_len() - final(self).spec_len(),
            forall|k: Seq<char>| #![auto] final(self).lookup(k) == if old(self).lookup(k) is Some
                && expired(old(self).lookup(k)->Some_0, now) {
                None::<EntryModel>
            } else {
                old(self).lookup(k)
            },
    {
        broadcast use Seq::lemma_filter_len, Seq::lemma_filter_push;

        let ghost pred = |e: CacheEntry| !expired(e.model(), now);
        let ghost orig = self.entries@;
        let before = self.entries.len();
        let mut old_v: Vec<CacheEntry> = Vec::new();
        core::mem::swap(&mut self.entries, &mut old_v);
        proof {
            orig.subrange(0, 0).lemma_filter_len(pred);
            assert(self.entries@ =~= orig.subrange(0, 0).filter(pred));
            assert(old_v@ =~= orig.subrange(0, orig.len() as int));
        }
        while old_v.len() > 0
            invariant
                old_v@.len() <= orig.len(),
                old_v@ == orig.subrange(orig.len() - old_v@.len(), orig.len() as int),
                self.entries@ == orig.subrange(0, orig.len() - old_v@.len()).filter(pred),
            decreases old_v@.len(),
        {
            let ghost k = orig.len() - old_v@.len();
            let e = old_v.remove(0);
            proof {
                assert(old_v@ =~= orig.subrange(k + 1, orig.len() as int));
                assert(e == orig[k]);
                assert(orig.subrange(0, k + 1) =~= orig.subrange(0, k).push(orig[k]));
                orig.subrange(0, k).lemma_filter_push(orig[k], pred);
                assert(orig.subrange(0, k).push(orig[k]).filter(pred) == if pred(orig[k]) {
                    orig.subrange(0, k).filter(pred).push(orig[k])
                } else {
                    orig.subrange(0, k).filter(pred)
                });
            }
            let keep = match e.expires_at {
                Some(exp) => exp > now,
                None => true,
            };
            if keep {
                self.entries.push(e);
            }
            proof {
                assert(self.entries@ == orig.subrange(0, k + 1).filter(pred));
            }
        }
        proof {
            assert(orig.subrange(0, orig.len() as int) =~= orig);
            assert(self.entries@ == orig.filter(pred));
            lemma_filter_unique(orig, pred);
            assert forall|k: Seq<char>| #![auto] lookup_seq(self.entries@, k)
                == if lookup_seq(orig, k) is Some && expired(lookup_seq(orig, k)->Some_0, now) {
                    None::<EntryModel>
                } else {
                    lookup_seq(orig, k)
                } by {
                lemma_lookup_filter(orig, pred, k);
                if lookup_seq(orig, k) is Some {
                    lemma_lookup_some_entry(orig, k);
                    let i = choose|i: int| 0 <= i < orig.len() && orig[i].key@ == k
                        && orig[i].model() == lookup_seq(orig, k)->Some_0;
                    assert(forall|j: int| 0 <= j < orig.len() && orig[j].key@ == k
                        ==> orig[j] == orig[i]);
                } else {
                    assert forall|j: int| 0 <= j < orig.len() implies orig[j].key@ != k by {
                        if orig[j].key@ == k {
                            lemma_lookup_found(orig, k);
                        }
                    }
                }
            }
        }
        let after = self.entries.len();
        before - after
    }

    /// The keys of all entries carrying `tag`, in store order: the tag
    /// reverse index consulted at invalidation time.
    #[verifier::loop_isolation(false)]
    pub fn scan_tag(&self, tag: &String) -> (r: Vec<String>)
        ensures
            r.deep_view() == self.entries@.filter(
                |e: CacheEntry| e.model().tags.contains(tag@),
            ).map_values(|e: CacheEntry| e.key@),
    {
        broadcast use Seq::lemma_filter_push, Seq::lemma_push_map_commute;

        let ghost pred = |e: CacheEntry| e.model().tags.contains(tag@);
        let ghost keyof = |e: CacheEntry| e.key@;
        let mut r: Vec<String> = Vec::new();
        let mut i: usize = 0;
        proof {
            self.entries@.subrange(0, 0).lemma_filter_len(pred);
            assert(r.deep_view() =~= self.entries@.subrange(0, 0).filter(pred).map_values(keyof));
        }
        while i < self.entries.len()
            invariant
                i <= self.entries@.len(),
                r.deep_view() == self.entries@.subrange(0, i as int).filter(pred).map_values(keyof),
            decreases self.entries@.len() - i,
        {
            let ghost prefix = self.entries@.subrange(0, i as int);
            let ghost e_i = self.entries@[i as int];
            proof {
                assert(self.entries@.subrange(0, i + 1) =~= prefix.push(e_i));
                prefix.lemma_filter_push(e_i, pred);
                assert(prefix.push(e_i).filter(pred) == if pred(e_i) {
                    prefix.filter(pred).push(e_i)
                } else {
                    prefix.filter(pred)
                });
            }
            if entry_has_tag(&self.entries[i], tag) {
                let ghost rpre = r.deep_view();
                r.push(self.entries[i].key.clone());
                proof {
                    assert(r.deep_view() =~= rpre.push(e_i.key@));
                    assert(prefix.filter(pred).push(e_i).map_values(keyof)
                        == prefix.filter(pred).map_values(keyof).push(keyof(e_i)));
                    assert(r.deep_view()
                        == self.entries@.subrange(0, i + 1).filter(pred).map_values(keyof));
                }
            } else {
                proof {
                    assert(r.deep_view()
                        == self.entries@.subrange(0, i + 1).filter(pred).map_values(keyof));
                }
            }
            i += 1;
        }
        proof {
            assert(self.entries@.subrange(0, self.entries@.len() as int) =~= self.entries@);
        }
        r
    }
}

/// A value written with a TTL stays readable exactly until its expiry: a
/// read strictly before the expiry instant yields the value, a read at or
/// after it yields absence — never a stale value.
pub proof fn lemma_live_until_expiry(
    s: CacheStore,
    k: Seq<char>,
    v: Seq<u8>,
    e: u64,
    tags: Seq<Seq<char>>,
    t: u64,
)
    requires
        s.lookup(k) == Some(EntryModel { value: v, expires_at: Some(e), tags }),
    ensures
        s.live_lookup(k, t) == if t < e {
            Some(v)
        } else {
            None::<Seq<u8>>
        },
{
}

/// A value written without a TTL never expires: it stays readable at
/// every instant.
pub proof fn lemma_live_without_expiry(s: CacheStore, k: Seq<char>, v: Seq<u8>, tags: Seq<Seq<char>>, t: u64)
    requires
        s.lookup(k) == Some(EntryModel { value: v, expires_at: None, tags }),
    ensures
        s.live_lookup(k, t) == Some(v),
{
}

/// If lookup hits, some entry carries the key and, under unique keys, its
/// model is the looked-up one.
pub proof fn lemma_lookup_some_entry(s: Seq<CacheEntry>, k: Seq<char>)
    requires
        lookup_seq(s, k) is Some,
    ensures
        exists|i: int| 0 <= i < s.len() && s[i].key@ == k
            && s[i].model() == lookup_seq(s, k)->Some_0,
    decreases s.len(),
{
    if s.len() > 0 {
        if s[0].key@ == k {
        } else {
            lemma_lookup_some_entry(s.subrange(1, s.len() as int), k);
            let i = choose|i: int| 0 <= i < s.subrange(1, s.len() as int).len()
                && s.subrange(1, s.len() as int)[i].key@ == k
                && s.subrange(1, s.len() as int)[i].model() == lookup_seq(s, k)->Some_0;
            assert(s[i + 1].key@ == k && s[i + 1].model() == lookup_seq(s, k)->Some_0);
        }
    }
}

/// Whether the entry carries `tag`.
pub fn entry_has_tag(e: &CacheEntry, tag: &String) -> (r: bool)
    ensures
        r == e.model().tags.contains(tag@),
{
    let mut i: usize = 0;
    while i < e.tags.len()
        invariant
            i <= e.tags@.len(),
            forall|j: int| 0 <= j < i ==> e.tags@[j]@ != tag@,
        decreases e.tags@.len() - i,
    {
        if e.tags[i].eq(tag) {
            proof {
                assert(e.model().tags[i as int] == tag@);
            }
            return true;
        }
        i += 1;
    }
    proof {
        assert forall|j: int| 0 <= j < e.model().tags.len()
            implies e.model().tags[j] != tag@ by {
            assert(e.model().tags[j] == e.tags@[j]@);
        }
    }
    false
}

} // verus!
