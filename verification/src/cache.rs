//! The recall cache: query embeddings and recall results, each in a
//! least-recently-used cache, with per-namespace generations that retire
//! cached results when a namespace changes.
use vstd::prelude::*;
use lru::LruCache;
use std::hash::Hash;
use std::hash::Hasher;
use std::num::NonZeroUsize;
use rustc_hash::FxHasher;
use crate::config::CacheConfig;
use crate::memory::Memory;
use crate::requests::CacheStats;
use crate::staleness::FreshnessLabel;
use crate::groups::{distinct_keys, pairs_to_map, lemma_pairs_to_map_index};
use crate::text::str_eq;

verus! {

#[verifier::external_type_specification]
#[verifier::external_body]
#[verifier::reject_recursive_types(K)]
#[verifier::reject_recursive_types(V)]
#[verifier::reject_recursive_types(S)]
pub struct ExLruCache<K, V, S>(LruCache<K, V, S>);

#[verifier::external_type_specification]
#[verifier::external_body]
pub struct ExDefaultHasher(lru::DefaultHasher);

/// How a recall scored one result; scores are bits of `f32` values, the
/// recency boost and staleness bits of `f64` values.
#[derive(Clone, Copy, Debug)]
pub struct ScoringBreakdown {
    pub rrf_rank: u32,
    pub rrf_score: u32,
    pub rerank_score: u32,
    pub recency_boost: u64,
    pub boosted_score: u32,
    pub staleness: u64,
    pub staleness_label: FreshnessLabel,
    pub final_rank: u32,
}

/// One recalled memory; the relevance score holds the bits of an `f32`, the
/// staleness score those of an `f64`.
pub struct RecallResult {
    pub memory: Memory,
    pub relevance_score: u32,
    pub staleness_score: u64,
    pub freshness_label: FreshnessLabel,
    pub scoring: Option<ScoringBreakdown>,
}

/// Recall results as cached, with the generation of their namespace at the
/// time they were stored.
pub struct CachedResults {
    pub generation: u64,
    pub results: Vec<RecallResult>,
}

/// Entries of the embedding cache, most recently used first: key and the
/// embedding's `f32` bits.
pub uninterp spec fn embedding_entries(c: LruCache<u64, Vec<u32>>) -> Seq<(u64, Seq<u32>)>;

/// The capacity the embedding cache was made with.
pub uninterp spec fn embedding_capacity(c: LruCache<u64, Vec<u32>>) -> nat;

/// Entries of the result cache, most recently used first.
pub uninterp spec fn result_entries(c: LruCache<u64, CachedResults>) -> Seq<(u64, CachedResults)>;

/// The capacity the result cache was made with.
pub uninterp spec fn result_capacity(c: LruCache<u64, CachedResults>) -> nat;

/// The value of the first entry keyed `k`.
pub open spec fn lru_lookup<V>(es: Seq<(u64, V)>, k: u64) -> Option<V>
    decreases es.len(),
{
    if es.len() == 0 {
        None
    } else if es[0].0 == k {
        Some(es[0].1)
    } else {
        lru_lookup(es.drop_first(), k)
    }
}

/// The entries without those keyed `k`.
pub open spec fn lru_without<V>(es: Seq<(u64, V)>, k: u64) -> Seq<(u64, V)>
    decreases es.len(),
{
    if es.len() == 0 {
        es
    } else if es[0].0 == k {
        lru_without(es.drop_first(), k)
    } else {
        seq![es[0]] + lru_without(es.drop_first(), k)
    }
}

/// `LruCache::put`: a present key gets the new value and moves to the
/// front; an absent key goes to the front, and when the cache is full the
/// least recently used entry leaves.
pub open spec fn lru_put<V>(es: Seq<(u64, V)>, cap: nat, k: u64, v: V) -> Seq<(u64, V)> {
    if lru_lookup(es, k) is Some {
        seq![(k, v)] + lru_without(es, k)
    } else if es.len() == cap {
        seq![(k, v)] + es.drop_last()
    } else {
        seq![(k, v)] + es
    }
}

/// `LruCache::new` for the embedding cache. The contract claims that the
/// new cache is empty and has capacity `cap`; the call panics on zero, which
/// `requires` rules out.
#[verifier::external_body]
fn new_embedding_lru(cap: usize) -> (c: LruCache<u64, Vec<u32>>)
    requires
        cap > 0,
    ensures
        embedding_entries(c) == Seq::<(u64, Seq<u32>)>::empty(),
        embedding_capacity(c) == cap,
{
    LruCache::new(NonZeroUsize::new(cap).expect("capacity > 0"))
}

/// `LruCache::new` for the result cache. The contract claims that the new
/// cache is empty and has capacity `cap`; the call panics on zero, which
/// `requires` rules out.
#[verifier::external_body]
fn new_result_lru(cap: usize) -> (c: LruCache<u64, CachedResults>)
    requires
        cap > 0,
    ensures
        result_entries(c) == Seq::<(u64, CachedResults)>::empty(),
        result_capacity(c) == cap,
{
    LruCache::new(NonZeroUsize::new(cap).expect("capacity > 0"))
}

/// `LruCache::peek` on the embedding cache. The contract claims that it
/// returns the value stored under `k`, if any; peeking leaves the entries
/// and their order as they are.
#[verifier::external_body]
fn peek_embedding(c: &LruCache<u64, Vec<u32>>, k: u64) -> (r: Option<&Vec<u32>>)
    ensures
        match lru_lookup(embedding_entries(*c), k) {
            Some(v) => r is Some && r->0@ == v,
            None => r is None,
        },
{
    c.peek(&k)
}

/// `LruCache::peek` on the result cache. The contract claims that it
/// returns the value stored under `k`, if any; peeking leaves the entries
/// and their order as they are.
#[verifier::external_body]
fn peek_results(c: &LruCache<u64, CachedResults>, k: u64) -> (r: Option<&CachedResults>)
    ensures
        match lru_lookup(result_entries(*c), k) {
            Some(v) => r == Some(&v),
            None => r is None,
        },
{
    c.peek(&k)
}

/// `LruCache::put` on the embedding cache. The contract claims what
/// `lru_put` states, as the crate's `capturing_put` does it; the capacity
/// stays. The value it returns is not used.
#[verifier::external_body]
fn put_embedding_lru(c: &mut LruCache<u64, Vec<u32>>, k: u64, v: Vec<u32>)
    ensures
        embedding_entries(*final(c)) == lru_put(embedding_entries(*old(c)), embedding_capacity(*old(c)), k, v@),
        embedding_capacity(*final(c)) == embedding_capacity(*old(c)),
{
    c.put(k, v);
}

/// `LruCache::put` on the result cache. The contract claims what `lru_put`
/// states, as the crate's `capturing_put` does it; the capacity stays. The
/// value it returns is not used.
#[verifier::external_body]
fn put_results_lru(c: &mut LruCache<u64, CachedResults>, k: u64, v: CachedResults)
    ensures
        result_entries(*final(c)) == lru_put(result_entries(*old(c)), result_capacity(*old(c)), k, v),
        result_capacity(*final(c)) == result_capacity(*old(c)),
{
    c.put(k, v);
}

/// `LruCache::len` on the embedding cache: the number of entries.
#[verifier::external_body]
fn embedding_lru_len(c: &LruCache<u64, Vec<u32>>) -> (r: usize)
    ensures
        r == embedding_entries(*c).len(),
{
    c.len()
}

/// `LruCache::len` on the result cache: the number of entries.
#[verifier::external_body]
fn result_lru_len(c: &LruCache<u64, CachedResults>) -> (r: usize)
    ensures
        r == result_entries(*c).len(),
{
    c.len()
}

/// Bits of the `u64` that `FxHasher` makes of a string with characters `s`
/// (hashed as `str` hashes itself). It depends on the characters alone, for
/// the pointer width the crate is built for.
pub uninterp spec fn query_hash(s: Seq<char>) -> u64;

/// `s.hash(&mut FxHasher::default())` then `finish()`, as the cache keys
/// queries. The contract claims that the result is the one named
/// `query_hash` for these characters; what that number is, is not stated.
#[verifier::external_body]
fn hash_query(s: &str) -> (r: u64)
    ensures
        r == query_hash(s@),
{
    let mut hasher = FxHasher::default();
    s.hash(&mut hasher);
    hasher.finish()
}

/// Bits of the `u64` that `FxHasher` makes of the parts of a result cache
/// key, hashed in this order: each embedding value's bits as `u32`, the type
/// filter, the entity filter, the namespace, the limit, the two inclusion
/// flags, the time range hash, the point in time (seconds, nanoseconds) and
/// the explain flag. It depends on these
/// values alone, for the pointer width the crate is built for.
pub uninterp spec fn result_key_hash(
    embedding: Seq<u32>,
    types: Option<Seq<Seq<char>>>,
    entities: Option<Seq<Seq<char>>>,
    namespace: Seq<char>,
    limit: usize,
    include_stale: Option<bool>,
    include_invalidated: Option<bool>,
    time_range_hash: Option<u64>,
    as_of: Option<(i64, u32)>,
    explain: bool,
) -> u64;

/// The parts of a recall that its cached results depend on.
pub struct ResultCacheKeyInput<'a> {
    /// Bits of the query embedding's `f32` values.
    pub embedding: &'a Vec<u32>,
    pub types: Option<&'a Vec<String>>,
    pub entities: Option<&'a Vec<String>>,
    pub namespace: &'a str,
    pub limit: usize,
    pub include_stale: Option<bool>,
    pub include_invalidated: Option<bool>,
    pub time_range_hash: Option<u64>,
    /// The instant of a point-in-time recall: seconds and nanoseconds.
    pub as_of: Option<(i64, u32)>,
    pub explain: bool,
}

/// Optional list of strings, by characters.
pub open spec fn opt_strings(o: Option<&Vec<String>>) -> Option<Seq<Seq<char>>> {
    match o {
        Some(v) => Some(v.deep_view()),
        None => None,
    }
}

/// The `FxHasher` hash of a key's parts, as `result_key_hash` names it. The
/// contract claims only that naming; the number itself is not stated.
#[verifier::external_body]
fn hash_result_key(input: &ResultCacheKeyInput) -> (r: u64)
    ensures
        r == result_key_hash(
            input.embedding@,
            opt_strings(input.types),
            opt_strings(input.entities),
            input.namespace@,
            input.limit,
            input.include_stale,
            input.include_invalidated,
            input.time_range_hash,
            input.as_of,
            input.explain,
        ),
{
    let mut hasher = FxHasher::default();
    for v in input.embedding.iter() {
        v.hash(&mut hasher);
    }
    input.types.hash(&mut hasher);
    input.entities.hash(&mut hasher);
    input.namespace.hash(&mut hasher);
    input.limit.hash(&mut hasher);
    input.include_stale.hash(&mut hasher);
    input.include_invalidated.hash(&mut hasher);
    input.time_range_hash.hash(&mut hasher);
    input.as_of.hash(&mut hasher);
    input.explain.hash(&mut hasher);
    hasher.finish()
}

/// The key under which a recall's results are cached.
#[derive(Clone, Copy, Debug)]
pub struct ResultCacheKey {
    pub hash: u64,
}

impl ResultCacheKey {
    /// The key of a recall with these parts.
    pub fn new(input: &ResultCacheKeyInput) -> (k: Self)
        ensures
            k.hash == result_key_hash(
                input.embedding@,
                opt_strings(input.types),
                opt_strings(input.entities),
                input.namespace@,
                input.limit,
                input.include_stale,
                input.include_invalidated,
                input.time_range_hash,
                input.as_of,
                input.explain,
            ),
    {
        ResultCacheKey { hash: hash_result_key(input) }
    }
}

fn copy_bits(v: &Vec<u32>) -> (r: Vec<u32>)
    ensures
        r@ == v@,
{
    let mut r: Vec<u32> = Vec::new();
    let mut i: usize = 0;
    while i < v.len()
        invariant
            i <= v.len(),
            r@ == v@.take(i as int),
        decreases v.len() - i,
    {
        r.push(v[i]);
        assert(r@ =~= v@.take(i + 1));
        i = i + 1;
    }
    assert(v@.take(v.len() as int) =~= v@);
    r
}

/// The generation of namespace `ns`: 0 until its first change.
pub open spec fn generation_of(gens: Map<Seq<char>, u64>, ns: Seq<char>) -> u64 {
    if gens.dom().contains(ns) {
        gens[ns]
    } else {
        0
    }
}

/// `LruCache::cap` on the embedding cache: the capacity it was made with.
#[verifier::external_body]
fn embedding_lru_cap(c: &LruCache<u64, Vec<u32>>) -> (r: usize)
    ensures
        r == embedding_capacity(*c),
{
    c.cap().get()
}

/// `LruCache::cap` on the result cache: the capacity it was made with.
#[verifier::external_body]
fn result_lru_cap(c: &LruCache<u64, CachedResults>) -> (r: usize)
    ensures
        r == result_capacity(*c),
{
    c.cap().get()
}

spec fn gen_pairs(v: Seq<(String, u64)>) -> Seq<(Seq<char>, u64)> {
    v.map_values(|e: (String, u64)| (e.0@, e.1))
}

/// The generation of each namespace that has changed, one entry per
/// namespace.
struct Generations {
    pairs: Vec<(String, u64)>,
}

impl Generations {
    closed spec fn view(&self) -> Map<Seq<char>, u64> {
        pairs_to_map(gen_pairs(self.pairs@))
    }

    #[verifier::type_invariant]
    closed spec fn one_per_namespace(&self) -> bool {
        distinct_keys(gen_pairs(self.pairs@))
    }

    fn new() -> (g: Self)
        ensures
            g.view() == Map::<Seq<char>, u64>::empty(),
    {
        let g = Generations { pairs: Vec::new() };
        assert(g.view() =~= Map::<Seq<char>, u64>::empty());
        g
    }

    fn find(pairs: &Vec<(String, u64)>, namespace: &str) -> (r: Option<usize>)
        ensures
            match r {
                Some(i) => i < pairs@.len() && pairs@[i as int].0@ == namespace@,
                None => forall|i: int| 0 <= i < pairs@.len() ==> pairs@[i].0@ != namespace@,
            },
    {
        let mut i: usize = 0;
        while i < pairs.len()
            invariant
                i <= pairs@.len(),
                forall|j: int| 0 <= j < i ==> pairs@[j].0@ != namespace@,
            decreases pairs.len() - i,
        {
            if str_eq(pairs[i].0.as_str(), namespace) {
                return Some(i);
            }
            i = i + 1;
        }
        None
    }

    fn get(&self, namespace: &str) -> (r: u64)
        ensures
            r == generation_of(self.view(), namespace@),
    {
        proof {
            use_type_invariant(self);
        }
        match Self::find(&self.pairs, namespace) {
            Some(i) => {
                proof {
                    lemma_pairs_to_map_index(gen_pairs(self.pairs@), i as int);
                }
                self.pairs[i].1
            },
            None => {
                proof {
                    if self.view().dom().contains(namespace@) {
                        let j = choose|j: int| 0 <= j < gen_pairs(self.pairs@).len() && gen_pairs(self.pairs@)[j].0 == namespace@;
                        assert(self.pairs@[j].0@ == namespace@);
                    }
                }
                0
            },
        }
    }

    fn bump(&mut self, namespace: &str)
        requires
            generation_of(old(self).view(), namespace@) < u64::MAX,
        ensures
            final(self).view() == old(self).view().insert(
                namespace@,
                (generation_of(old(self).view(), namespace@) + 1) as u64,
            ),
    {
        proof {
            use_type_invariant(&*self);
        }
        let g = self.get(namespace);
        let ghost old_pairs = gen_pairs(self.pairs@);
        let ghost old_view = self.view();
        let mut pairs: Vec<(String, u64)> = Vec::new();
        std::mem::swap(&mut pairs, &mut self.pairs);
        assert(gen_pairs(pairs@) == old_pairs);
        match Self::find(&pairs, namespace) {
            Some(i) => {
                let name = pairs[i].0.clone();
                pairs.set(i, (name, g + 1));
                proof {
                    let np = gen_pairs(pairs@);
                    assert(old_pairs[i as int].0 == namespace@);
                    assert(np =~= old_pairs.update(i as int, (namespace@, (g + 1) as u64)));
                    assert forall|a: int, b: int| 0 <= a < np.len() && 0 <= b < np.len() && a != b implies np[a].0 != np[b].0 by {
                        assert(old_pairs[a].0 != old_pairs[b].0);
                    }
                    assert(distinct_keys(np));
                    assert forall|k: Seq<char>| #[trigger] pairs_to_map(np).dom().contains(k) <==> old_view.insert(namespace@, (g + 1) as u64).dom().contains(k) by {
                        if pairs_to_map(old_pairs).dom().contains(k) {
                            let j = choose|j: int| 0 <= j < old_pairs.len() && old_pairs[j].0 == k;
                            assert(np[j].0 == k);
                        }
                        if pairs_to_map(np).dom().contains(k) {
                            let j = choose|j: int| 0 <= j < np.len() && np[j].0 == k;
                            assert(old_pairs[j].0 == k);
                        }
                    }
                    assert forall|k: Seq<char>| #[trigger] pairs_to_map(np).dom().contains(k) implies pairs_to_map(np)[k] == old_view.insert(namespace@, (g + 1) as u64)[k] by {
                        let j = choose|j: int| 0 <= j < np.len() && np[j].0 == k;
                        lemma_pairs_to_map_index(np, j);
                        if k != namespace@ {
                            lemma_pairs_to_map_index(old_pairs, j);
                        }
                    }
                    assert(pairs_to_map(np) =~= old_view.insert(namespace@, (g + 1) as u64));
                }
            },
            None => {
                pairs.push((String::from_str(namespace), 1));
                proof {
                    let np = gen_pairs(pairs@);
                    assert(np =~= old_pairs.push((namespace@, 1u64)));
                    assert(g == 0);
                    assert forall|a: int, b: int| 0 <= a < np.len() && 0 <= b < np.len() && a != b implies np[a].0 != np[b].0 by {
                        if a < old_pairs.len() && b < old_pairs.len() {
                            assert(old_pairs[a].0 != old_pairs[b].0);
                        } else if a < old_pairs.len() {
                            assert(old_pairs[a].0 != namespace@);
                        } else if b < old_pairs.len() {
                            assert(old_pairs[b].0 != namespace@);
                        }
                    }
                    assert(distinct_keys(np));
                    assert forall|k: Seq<char>| #[trigger] pairs_to_map(np).dom().contains(k) <==> old_view.insert(namespace@, 1u64).dom().contains(k) by {
                        if pairs_to_map(old_pairs).dom().contains(k) {
                            let j = choose|j: int| 0 <= j < old_pairs.len() && old_pairs[j].0 == k;
                            assert(np[j].0 == k);
                        }
                        if k == namespace@ {
                            assert(np[old_pairs.len() as int].0 == k);
                        }
                        if pairs_to_map(np).dom().contains(k) && k != namespace@ {
                            let j = choose|j: int| 0 <= j < np.len() && np[j].0 == k;
                            assert(old_pairs[j].0 == k);
                        }
                    }
                    assert forall|k: Seq<char>| #[trigger] pairs_to_map(np).dom().contains(k) implies pairs_to_map(np)[k] == old_view.insert(namespace@, 1u64)[k] by {
                        let j = choose|j: int| 0 <= j < np.len() && np[j].0 == k;
                        lemma_pairs_to_map_index(np, j);
                        if k != namespace@ {
                            lemma_pairs_to_map_index(old_pairs, j);
                        }
                    }
                    assert(pairs_to_map(np) =~= old_view.insert(namespace@, 1u64));
                }
            },
        }
        self.pairs = pairs;
    }
}

/// Embeddings of recent queries and results of recent recalls.
pub struct RecallCache {
    embeddings: LruCache<u64, Vec<u32>>,
    results: LruCache<u64, CachedResults>,
    generations: Generations,
    embedding_hits: u64,
    embedding_misses: u64,
    result_hits: u64,
    result_misses: u64,
}

impl RecallCache {
    /// Cached embeddings, most recently used first.
    pub closed spec fn embedding_view(&self) -> Seq<(u64, Seq<u32>)> {
        embedding_entries(self.embeddings)
    }

    /// Cached results, most recently used first.
    pub closed spec fn result_view(&self) -> Seq<(u64, CachedResults)> {
        result_entries(self.results)
    }

    /// Generation of each namespace that has changed.
    pub closed spec fn generation_view(&self) -> Map<Seq<char>, u64> {
        self.generations.view()
    }

    pub closed spec fn embedding_capacity_view(&self) -> nat {
        embedding_capacity(self.embeddings)
    }

    pub closed spec fn result_capacity_view(&self) -> nat {
        result_capacity(self.results)
    }

    /// Hit and miss counts: embedding hits, embedding misses, result hits,
    /// result misses.
    pub closed spec fn counters(&self) -> (u64, u64, u64, u64) {
        (self.embedding_hits, self.embedding_misses, self.result_hits, self.result_misses)
    }

    /// An empty cache with the configured capacities.
    pub fn new(config: &CacheConfig) -> (c: Self)
        requires
            config.embedding_capacity > 0,
            config.result_capacity > 0,
        ensures
            c.embedding_view() == Seq::<(u64, Seq<u32>)>::empty(),
            c.result_view() == Seq::<(u64, CachedResults)>::empty(),
            c.generation_view() == Map::<Seq<char>, u64>::empty(),
            c.embedding_capacity_view() == config.embedding_capacity,
            c.result_capacity_view() == config.result_capacity,
            c.counters() == (0u64, 0u64, 0u64, 0u64),
    {
        RecallCache {
            embeddings: new_embedding_lru(config.embedding_capacity),
            results: new_result_lru(config.result_capacity),
            generations: Generations::new(),
            embedding_hits: 0,
            embedding_misses: 0,
            result_hits: 0,
            result_misses: 0,
        }
    }

    /// The generation of `namespace`.
    pub fn generation(&self, namespace: &str) -> (r: u64)
        ensures
            r == generation_of(self.generation_view(), namespace@),
    {
        self.generations.get(namespace)
    }

    /// Moves `namespace` to its next generation, which retires the results
    /// cached for it.
    pub fn bump_generation(&mut self, namespace: &str)
        requires
            generation_of(old(self).generation_view(), namespace@) < u64::MAX,
        ensures
            final(self).generation_view() == old(self).generation_view().insert(
                namespace@,
                (generation_of(old(self).generation_view(), namespace@) + 1) as u64,
            ),
            final(self).embedding_view() == old(self).embedding_view(),
            final(self).result_view() == old(self).result_view(),
            final(self).embedding_capacity_view() == old(self).embedding_capacity_view(),
            final(self).result_capacity_view() == old(self).result_capacity_view(),
            final(self).counters() == old(self).counters(),
    {
        self.generations.bump(namespace);
    }
    /// The cached embedding of `query`, if any; counts a hit or a miss.
    pub fn get_embedding(&mut self, query: &str) -> (r: Option<Vec<u32>>)
        ensures
            match lru_lookup(old(self).embedding_view(), query_hash(query@)) {
                Some(e) => r is Some && r->0@ == e && final(self).counters() == (
                    old(self).counters().0.wrapping_add(1),
                    old(self).counters().1,
                    old(self).counters().2,
                    old(self).counters().3,
                ),
                None => r is None && final(self).counters() == (
                    old(self).counters().0,
                    old(self).counters().1.wrapping_add(1),
                    old(self).counters().2,
                    old(self).counters().3,
                ),
            },
            final(self).embedding_view() == old(self).embedding_view(),
            final(self).result_view() == old(self).result_view(),
            final(self).generation_view() == old(self).generation_view(),
            final(self).embedding_capacity_view() == old(self).embedding_capacity_view(),
            final(self).result_capacity_view() == old(self).result_capacity_view(),
    {
        let key = hash_query(query);
        let found: Option<Vec<u32>> = match peek_embedding(&self.embeddings, key) {
            Some(v) => Some(copy_bits(v)),
            None => None,
        };
        if found.is_some() {
            self.embedding_hits = self.embedding_hits.wrapping_add(1);
        } else {
            self.embedding_misses = self.embedding_misses.wrapping_add(1);
        }
        found
    }

    /// Caches the embedding of `query`.
    pub fn put_embedding(&mut self, query: &str, embedding: Vec<u32>)
        ensures
            final(self).embedding_view() == lru_put(
                old(self).embedding_view(),
                old(self).embedding_capacity_view(),
                query_hash(query@),
                embedding@,
            ),
            final(self).result_view() == old(self).result_view(),
            final(self).generation_view() == old(self).generation_view(),
            final(self).embedding_capacity_view() == old(self).embedding_capacity_view(),
            final(self).result_capacity_view() == old(self).result_capacity_view(),
            final(self).counters() == old(self).counters(),
    {
        let key = hash_query(query);
        put_embedding_lru(&mut self.embeddings, key, embedding);
    }

    /// The results cached under `key`, if they were stored in the current
    /// generation of `namespace`; counts a hit or a miss.
    pub fn get_results(&mut self, key: &ResultCacheKey, namespace: &str) -> (r: Option<&Vec<RecallResult>>)
        ensures
            match lru_lookup(old(self).result_view(), key.hash) {
                Some(c) => if c.generation == generation_of(old(self).generation_view(), namespace@) {
                    r == Some(&c.results) && final(self).counters() == (
                        old(self).counters().0,
                        old(self).counters().1,
                        old(self).counters().2.wrapping_add(1),
                        old(self).counters().3,
                    )
                } else {
                    r is None && final(self).counters() == (
                        old(self).counters().0,
                        old(self).counters().1,
                        old(self).counters().2,
                        old(self).counters().3.wrapping_add(1),
                    )
                },
                None => r is None && final(self).counters() == (
                    old(self).counters().0,
                    old(self).counters().1,
                    old(self).counters().2,
                    old(self).counters().3.wrapping_add(1),
                ),
            },
            final(self).embedding_view() == old(self).embedding_view(),
            final(self).result_view() == old(self).result_view(),
            final(self).generation_view() == old(self).generation_view(),
            final(self).embedding_capacity_view() == old(self).embedding_capacity_view(),
            final(self).result_capacity_view() == old(self).result_capacity_view(),
    {
        let current = self.generation(namespace);
        let hit = match peek_results(&self.results, key.hash) {
            Some(e) => e.generation == current,
            None => false,
        };
        if hit {
            self.result_hits = self.result_hits.wrapping_add(1);
        } else {
            self.result_misses = self.result_misses.wrapping_add(1);
        }
        if hit {
            match peek_results(&self.results, key.hash) {
                Some(e) => Some(&e.results),
                None => None,
            }
        } else {
            None
        }
    }

    /// Caches `results` under `key`, stamped with the current generation of
    /// `namespace`.
    pub fn put_results(&mut self, key: &ResultCacheKey, results: Vec<RecallResult>, namespace: &str)
        ensures
            final(self).result_view() == lru_put(
                old(self).result_view(),
                old(self).result_capacity_view(),
                key.hash,
                CachedResults { generation: generation_of(old(self).generation_view(), namespace@), results },
            ),
            final(self).embedding_view() == old(self).embedding_view(),
            final(self).generation_view() == old(self).generation_view(),
            final(self).embedding_capacity_view() == old(self).embedding_capacity_view(),
            final(self).result_capacity_view() == old(self).result_capacity_view(),
            final(self).counters() == old(self).counters(),
    {
        let current = self.generation(namespace);
        put_results_lru(&mut self.results, key.hash, CachedResults { generation: current, results });
    }

    /// Hit and miss counts, capacities and sizes of both caches.
    pub fn cache_stats(&self) -> (r: CacheStats)
        ensures
            r.embedding_hits == self.counters().0,
            r.embedding_misses == self.counters().1,
            r.result_hits == self.counters().2,
            r.result_misses == self.counters().3,
            r.embedding_capacity == self.embedding_capacity_view(),
            r.embedding_len == self.embedding_view().len(),
            r.result_capacity == self.result_capacity_view(),
            r.result_len == self.result_view().len(),
    {
        CacheStats {
            embedding_hits: self.embedding_hits,
            embedding_misses: self.embedding_misses,
            result_hits: self.result_hits,
            result_misses: self.result_misses,
            embedding_capacity: embedding_lru_cap(&self.embeddings),
            embedding_len: embedding_lru_len(&self.embeddings),
            result_capacity: result_lru_cap(&self.results),
            result_len: result_lru_len(&self.results),
        }
    }
}

proof fn lemma_lookup_front<V>(k: u64, v: V, rest: Seq<(u64, V)>, j: u64)
    ensures
        lru_lookup(seq![(k, v)] + rest, j) == if j == k {
            Some(v)
        } else {
            lru_lookup(rest, j)
        },
{
    assert((seq![(k, v)] + rest).drop_first() =~= rest);
}

proof fn lemma_without<V>(es: Seq<(u64, V)>, k: u64, j: u64)
    ensures
        lru_lookup(lru_without(es, k), j) == if j == k {
            None
        } else {
            lru_lookup(es, j)
        },
        lru_without(es, k).len() <= es.len(),
        lru_lookup(es, k) is Some ==> lru_without(es, k).len() < es.len(),
    decreases es.len(),
{
    if es.len() > 0 {
        lemma_without(es.drop_first(), k, j);
        if es[0].0 != k {
            lemma_lookup_front(es[0].0, es[0].1, lru_without(es.drop_first(), k), j);
            assert(seq![es[0]] =~= seq![(es[0].0, es[0].1)]);
        }
    }
}

/// A read after a write gives back what was written: looking up the key
/// just put finds the value just put.
pub proof fn lemma_lru_read_after_write<V>(es: Seq<(u64, V)>, cap: nat, k: u64, v: V)
    ensures
        lru_lookup(lru_put(es, cap, k, v), k) == Some(v),
{
    lemma_lookup_front(k, v, lru_without(es, k), k);
    lemma_lookup_front(k, v, es.drop_last(), k);
    lemma_lookup_front(k, v, es, k);
}

/// A put never takes a cache past its capacity.
pub proof fn lemma_lru_bounded<V>(es: Seq<(u64, V)>, cap: nat, k: u64, v: V)
    requires
        es.len() <= cap,
        cap > 0,
    ensures
        lru_put(es, cap, k, v).len() <= cap,
{
    lemma_without(es, k, k);
}

/// A put evicts nothing unless the cache is full and the key is new: every
/// other key keeps its value.
pub proof fn lemma_lru_keeps_others<V>(es: Seq<(u64, V)>, cap: nat, k: u64, v: V, j: u64)
    requires
        j != k,
        es.len() < cap || lru_lookup(es, k) is Some,
    ensures
        lru_lookup(lru_put(es, cap, k, v), j) == lru_lookup(es, j),
{
    lemma_without(es, k, j);
    lemma_lookup_front(k, v, lru_without(es, k), j);
    lemma_lookup_front(k, v, es, j);
}

/// Moving a namespace to its next generation retires what was cached under
/// its current one: a result stamped with the old generation no longer
/// matches.
pub proof fn lemma_bump_retires(gens: Map<Seq<char>, u64>, ns: Seq<char>, stamped: u64)
    requires
        stamped == generation_of(gens, ns),
        generation_of(gens, ns) < u64::MAX,
    ensures
        stamped != generation_of(gens.insert(ns, (generation_of(gens, ns) + 1) as u64), ns),
{
}

} // verus!
