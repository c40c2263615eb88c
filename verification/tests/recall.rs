use ferrex::cache::{RecallResult, ScoringBreakdown};
use ferrex::kinds::MemoryType;
use ferrex::memory::Memory;
use ferrex::recall::reranked_result;
use ferrex::recall::{
    build_recall_filter, finalize_recall, relevance_order, time_range_hash, FilterCondition, RecallRequest,
    TimeRange, Timestamp,
};
use ferrex::staleness::FreshnessLabel;

fn request() -> RecallRequest {
    RecallRequest {
        query: "q".into(),
        types: None,
        entities: None,
        namespace: None,
        limit: None,
        include_stale: None,
        include_invalidated: None,
        time_range: None,
        as_of: None,
        validate_ids: None,
        explain: false,
    }
}

fn mem(id: &str) -> Memory {
    Memory {
        id: id.into(),
        namespace: "default".into(),
        memory_type: MemoryType::Episodic,
        content: Some(id.into()),
        subject: None,
        predicate: None,
        object: None,
        confidence: 1.0f64.to_bits(),
        source: None,
        context: None,
        entities: vec![],
        created_at: 0,
        updated_at: 0,
        t_valid: None,
        t_invalid: None,
        last_accessed: 0,
        last_validated: None,
        access_count: 0,
        normalized_predicate: None,
    }
}

fn result(id: &str, score: f32, label: FreshnessLabel, explain: bool) -> RecallResult {
    RecallResult {
        memory: mem(id),
        relevance_score: score.to_bits(),
        staleness_score: 0.1f64.to_bits(),
        freshness_label: label,
        scoring: if explain {
            Some(ScoringBreakdown {
                rrf_rank: 0,
                rrf_score: 0.0f32.to_bits(),
                rerank_score: score.to_bits(),
                recency_boost: 1.0f64.to_bits(),
                boosted_score: score.to_bits(),
                staleness: 0.1f64.to_bits(),
                staleness_label: label,
                final_rank: 0,
            })
        } else {
            None
        },
    }
}

#[test]
fn filter_restricts_to_memory_points() {
    let f = build_recall_filter(&request());
    assert_eq!(f.must.len(), 1);
    assert!(matches!(&f.must[0], FilterCondition::Keyword { field, value } if field == "point_type" && value == "memory"));
    assert!(f.should.is_empty());
}

#[test]
fn filter_adds_types_time_bounds_and_entities() {
    let mut req = request();
    req.types = Some(vec![MemoryType::Semantic, MemoryType::Procedural]);
    req.time_range = Some(TimeRange {
        start: Some(Timestamp { seconds: 100, nanos: 5 }),
        end: Some(Timestamp { seconds: 200, nanos: 0 }),
    });
    req.entities = Some(vec!["tokio".into(), "serde".into()]);
    let f = build_recall_filter(&req);
    assert_eq!(f.must.len(), 4);
    assert!(matches!(&f.must[1], FilterCondition::AnyKeyword { field, values }
        if field == "memory_type" && values == &vec!["semantic".to_string(), "procedural".to_string()]));
    assert!(matches!(f.must[2], FilterCondition::CreatedFrom { seconds: 100, nanos: 5 }));
    assert!(matches!(f.must[3], FilterCondition::CreatedUntil { seconds: 200, nanos: 0 }));
    assert_eq!(f.should.len(), 2);
    assert!(matches!(&f.should[1], FilterCondition::Keyword { field, value } if field == "entities" && value == "serde"));
}

#[test]
fn empty_entity_list_adds_no_should_conditions() {
    let mut req = request();
    req.entities = Some(vec![]);
    assert!(build_recall_filter(&req).should.is_empty());
}

#[test]
fn time_range_hash_depends_on_the_seconds() {
    let a = TimeRange { start: Some(Timestamp { seconds: 1, nanos: 0 }), end: None };
    let b = TimeRange { start: Some(Timestamp { seconds: 1, nanos: 999 }), end: None };
    let c = TimeRange { start: None, end: Some(Timestamp { seconds: 1, nanos: 0 }) };
    assert_eq!(time_range_hash(&a), time_range_hash(&b));
    assert_ne!(time_range_hash(&a), time_range_hash(&c));
}

#[test]
fn relevance_order_is_a_stable_descending_sort() {
    let rs = vec![
        result("a", 0.2, FreshnessLabel::Fresh, false),
        result("b", 0.9, FreshnessLabel::Fresh, false),
        result("c", 0.5, FreshnessLabel::Fresh, false),
        result("d", 0.9, FreshnessLabel::Fresh, false),
        result("e", -0.1, FreshnessLabel::Fresh, false),
    ];
    assert_eq!(relevance_order(&rs), vec![1, 3, 2, 0, 4]);
}

#[test]
fn finalize_sorts_cuts_drops_stale_and_ranks() {
    let rs = vec![
        result("a", 0.2, FreshnessLabel::Fresh, true),
        result("b", 0.9, FreshnessLabel::Stale, true),
        result("c", 0.5, FreshnessLabel::Aging, true),
        result("d", 0.7, FreshnessLabel::Fresh, true),
    ];
    let out = finalize_recall(rs, 3, Some(false), true);
    let ids: Vec<&str> = out.iter().map(|r| r.memory.id.as_str()).collect();
    assert_eq!(ids, vec!["d", "c"]);
    let ranks: Vec<u32> = out.iter().map(|r| r.scoring.unwrap().final_rank).collect();
    assert_eq!(ranks, vec![1, 2]);
}

#[test]
fn finalize_keeps_stale_results_only_when_asked() {
    let rs = vec![result("a", 0.2, FreshnessLabel::Stale, false), result("b", 0.9, FreshnessLabel::Fresh, false)];
    let out = finalize_recall(rs, 10, Some(true), false);
    let ids: Vec<&str> = out.iter().map(|r| r.memory.id.as_str()).collect();
    assert_eq!(ids, vec!["b", "a"]);
    assert!(out.iter().all(|r| r.scoring.is_none()));
}

#[test]
fn finalize_drops_stale_results_by_default() {
    let rs = vec![result("a", 0.2, FreshnessLabel::Stale, false), result("b", 0.9, FreshnessLabel::Fresh, false)];
    let out = finalize_recall(rs, 10, None, false);
    let ids: Vec<&str> = out.iter().map(|r| r.memory.id.as_str()).collect();
    assert_eq!(ids, vec!["b"]);
}

#[test]
fn a_breakdown_only_when_explained_and_agreeing_with_the_scores() {
    let r = reranked_result(mem("a"), 0.8f32.to_bits(), 1.25f64.to_bits(), 1.0f32.to_bits(), 0.3f64.to_bits(), FreshnessLabel::Aging, true);
    let s: ScoringBreakdown = r.scoring.unwrap();
    assert_eq!(s.boosted_score, r.relevance_score);
    assert_eq!(s.staleness, r.staleness_score);
    assert_eq!(s.rerank_score, 0.8f32.to_bits());
    assert_eq!(f64::from_bits(s.recency_boost), 1.25);
    assert_eq!(s.final_rank, 0);
    let plain = reranked_result(mem("b"), 0, 0, 0, 0, FreshnessLabel::Fresh, false);
    assert!(plain.scoring.is_none());
    assert_eq!(plain.memory.id, "b");
    let out = finalize_recall(vec![r], 10, None, true);
    assert_eq!(out[0].scoring.unwrap().final_rank, 1);
}
