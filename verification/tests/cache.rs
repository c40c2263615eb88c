use ferrex::cache::{RecallCache, ResultCacheKey, ResultCacheKeyInput};
use ferrex::config::CacheConfig;

fn make_cache() -> RecallCache {
    RecallCache::new(&CacheConfig { embedding_capacity: 4, result_capacity: 4 })
}

fn bits(v: &[f32]) -> Vec<u32> {
    v.iter().map(|x| x.to_bits()).collect()
}

fn key(embedding: &Vec<u32>, ns: &str) -> ResultCacheKey {
    ResultCacheKey::new(&ResultCacheKeyInput {
        embedding,
        types: None,
        entities: None,
        namespace: ns,
        limit: 10,
        include_stale: None,
        include_invalidated: None,
        time_range_hash: None,
        as_of: None,
        explain: false,
    })
}

#[test]
fn cache_test_embedding_cache_hit() {
    let mut cache = make_cache();
    let embedding = bits(&[0.1, 0.2, 0.3]);
    cache.put_embedding("hello world", embedding.clone());
    let cached = cache.get_embedding("hello world");
    assert_eq!(cached, Some(embedding));
}

#[test]
fn cache_test_embedding_cache_miss() {
    let mut cache = make_cache();
    assert_eq!(cache.get_embedding("not stored"), None);
}

#[test]
fn cache_test_result_cache_hit() {
    let mut cache = make_cache();
    let ns = "test-ns";
    let embedding = bits(&[0.1, 0.2]);
    let k = key(&embedding, ns);
    cache.put_results(&k, vec![], ns);
    assert_eq!(cache.generation(ns), 0);
    assert!(cache.get_results(&k, ns).is_some());
}

#[test]
fn cache_test_result_cache_invalidated_on_write() {
    let mut cache = make_cache();
    let ns = "test-ns";
    let embedding = bits(&[0.1, 0.2]);
    let k = key(&embedding, ns);
    cache.put_results(&k, vec![], ns);
    cache.bump_generation(ns);
    assert!(cache.get_results(&k, ns).is_none(), "should miss after generation bump");
}

#[test]
fn cache_test_embedding_cache_eviction() {
    let mut cache = make_cache();
    for i in 0..5 {
        cache.put_embedding(&format!("query {i}"), bits(&[i as f32]));
    }
    assert!(cache.get_embedding("query 0").is_none());
    assert!(cache.get_embedding("query 4").is_some());
}

#[test]
fn other_namespaces_keep_their_generation() {
    let mut cache = make_cache();
    let embedding = bits(&[0.5]);
    let k = key(&embedding, "b");
    cache.put_results(&k, vec![], "b");
    cache.bump_generation("a");
    cache.bump_generation("a");
    assert_eq!(cache.generation("a"), 2);
    assert_eq!(cache.generation("b"), 0);
    assert!(cache.get_results(&k, "b").is_some());
}

#[test]
fn stats_count_hits_and_misses() {
    let mut cache = make_cache();
    cache.put_embedding("q", bits(&[1.0]));
    let _ = cache.get_embedding("q");
    let _ = cache.get_embedding("r");
    let emb = bits(&[1.0]);
    let k = key(&emb, "ns");
    let _ = cache.get_results(&k, "ns");
    let s = cache.cache_stats();
    assert_eq!((s.embedding_hits, s.embedding_misses, s.result_hits, s.result_misses), (1, 1, 0, 1));
    assert_eq!((s.embedding_capacity, s.embedding_len, s.result_capacity, s.result_len), (4, 1, 4, 0));
}

#[test]
fn keys_depend_on_every_part() {
    let e1 = bits(&[0.1, 0.2]);
    let e2 = bits(&[0.1, 0.3]);
    assert_eq!(key(&e1, "ns").hash, key(&e1, "ns").hash);
    assert_ne!(key(&e1, "ns").hash, key(&e2, "ns").hash);
    assert_ne!(key(&e1, "ns").hash, key(&e1, "other").hash);
}

#[test]
fn a_point_in_time_recall_has_its_own_cache_key() {
    let e = bits(&[0.1, 0.2]);
    let at = |as_of: Option<(i64, u32)>| {
        ResultCacheKey::new(&ResultCacheKeyInput {
            embedding: &e,
            types: None,
            entities: None,
            namespace: "ns",
            limit: 10,
            include_stale: None,
            include_invalidated: None,
            time_range_hash: None,
            as_of,
            explain: false,
        })
        .hash
    };
    assert_eq!(at(Some((5, 0))), at(Some((5, 0))));
    assert_ne!(at(None), at(Some((5, 0))));
    assert_ne!(at(Some((5, 0))), at(Some((6, 0))));
}
