use ferrex::config::{DedupConfig, DEFAULT_DUPLICATE_THRESHOLD};
use ferrex::groups::PredicateGroups;
use ferrex::kinds::MemoryType;
use ferrex::pipeline::{
    build_memory, build_searchable_text, dedup_check, detect_memory_type, normalize_request_predicate, validate,
    CoreError, StoreRequest, MAX_CONTENT_LENGTH,
};
use ferrex::pipeline::{pre_write_check, PreWriteCheck};
use ferrex::predicate::PredicateNormalizer;

fn blank() -> StoreRequest {
    StoreRequest {
        content: None,
        memory_type: None,
        subject: None,
        predicate: None,
        object: None,
        confidence: None,
        source: None,
        context: None,
        entities: vec![],
        namespace: None,
        supersedes: None,
    }
}

fn req_episodic(content: Option<&str>) -> StoreRequest {
    StoreRequest { content: content.map(str::to_string), memory_type: Some(MemoryType::Episodic), ..blank() }
}

fn req_semantic(subject: &str, predicate: &str, object: &str) -> StoreRequest {
    StoreRequest {
        memory_type: Some(MemoryType::Semantic),
        subject: Some(subject.into()),
        predicate: Some(predicate.into()),
        object: Some(object.into()),
        ..blank()
    }
}

#[test]
fn test_episodic_missing_content_fails() {
    assert!(matches!(validate(&req_episodic(None), MemoryType::Episodic), Err(CoreError::Validation(_))));
}

#[test]
fn test_episodic_oversize_content_fails() {
    let big = "x".repeat(MAX_CONTENT_LENGTH + 1);
    assert!(matches!(validate(&req_episodic(Some(&big)), MemoryType::Episodic), Err(CoreError::Validation(_))));
}

#[test]
fn test_semantic_happy() {
    validate(&req_semantic("a", "b", "c"), MemoryType::Semantic).unwrap();
}

#[test]
fn test_semantic_missing_field_fails() {
    let mut req = req_semantic("a", "b", "c");
    req.object = Some(String::new());
    assert!(matches!(validate(&req, MemoryType::Semantic), Err(CoreError::Validation(_))));
}

#[test]
fn test_invalid_supersedes_uuid_fails() {
    let mut req = req_episodic(Some("hi"));
    req.supersedes = Some("not-a-uuid".into());
    assert!(matches!(validate(&req, MemoryType::Episodic), Err(CoreError::Validation(_))));
}

#[test]
fn content_at_the_limit_is_accepted() {
    let exact = "x".repeat(MAX_CONTENT_LENGTH);
    validate(&req_episodic(Some(&exact)), MemoryType::Episodic).unwrap();
}

#[test]
fn store_test_auto_detect_semantic() {
    let req = StoreRequest {
        subject: Some("api-server".into()),
        predicate: Some("uses".into()),
        object: Some("tokio 1.38".into()),
        ..blank()
    };
    assert_eq!(detect_memory_type(&req), MemoryType::Semantic);
}

#[test]
fn store_test_auto_detect_episodic() {
    let req = StoreRequest { content: Some("something happened".into()), ..blank() };
    assert_eq!(detect_memory_type(&req), MemoryType::Episodic);
}

#[test]
fn store_test_auto_detect_explicit_procedural() {
    let req = StoreRequest {
        content: Some("step 1: do this".into()),
        memory_type: Some(MemoryType::Procedural),
        ..blank()
    };
    assert_eq!(detect_memory_type(&req), MemoryType::Procedural);
}

#[test]
fn store_test_semantic_triple_missing_predicate_detects_as_episodic() {
    let req = StoreRequest { subject: Some("foo".into()), object: Some("bar".into()), ..blank() };
    assert_eq!(detect_memory_type(&req), MemoryType::Episodic);
}

#[test]
fn lib_test_auto_detect_semantic() {
    let req = StoreRequest {
        subject: Some("api-server".into()),
        predicate: Some("uses".into()),
        object: Some("tokio 1.38".into()),
        ..blank()
    };
    assert_eq!(detect_memory_type(&req), MemoryType::Semantic);
}

#[test]
fn lib_test_auto_detect_episodic() {
    let req = StoreRequest { content: Some("something happened".into()), ..blank() };
    assert_eq!(detect_memory_type(&req), MemoryType::Episodic);
}

#[test]
fn lib_test_auto_detect_explicit_procedural() {
    let req = StoreRequest {
        content: Some("step 1: do this".into()),
        memory_type: Some(MemoryType::Procedural),
        ..blank()
    };
    assert_eq!(detect_memory_type(&req), MemoryType::Procedural);
}

#[test]
fn lib_test_semantic_triple_missing_predicate_detects_as_episodic() {
    let req = StoreRequest { subject: Some("foo".into()), object: Some("bar".into()), ..blank() };
    assert_eq!(detect_memory_type(&req), MemoryType::Episodic);
}

#[test]
fn test_normalizes_semantic_predicate() {
    let mut groups = PredicateGroups::new();
    groups.insert("depends_on".into(), vec!["uses".into()]);
    let norm = PredicateNormalizer::new(groups);
    let req = StoreRequest { content: None, ..req_semantic("a", "uses", "b") };
    let n = normalize_request_predicate(MemoryType::Semantic, &req, &norm).unwrap();
    assert_eq!(n.as_deref(), Some("depends_on"));
}

#[test]
fn test_skips_non_semantic() {
    let norm = PredicateNormalizer::new(PredicateGroups::new());
    let req = req_episodic(Some("ev"));
    let n = normalize_request_predicate(MemoryType::Episodic, &req, &norm).unwrap();
    assert!(n.is_none());
}

#[test]
fn semantic_without_predicate_cannot_be_normalized() {
    let norm = PredicateNormalizer::new(PredicateGroups::new());
    let mut req = req_semantic("a", "b", "c");
    req.predicate = None;
    match normalize_request_predicate(MemoryType::Semantic, &req, &norm) {
        Err(CoreError::Validation(m)) => assert_eq!(m, "semantic predicate missing"),
        other => panic!("unexpected {other:?}"),
    }
}

#[test]
fn searchable_text_of_a_triple_joins_its_parts() {
    let req = req_semantic("api", "uses", "tokio");
    assert_eq!(build_searchable_text(&req, MemoryType::Semantic), "api uses tokio");
    let ep = req_episodic(Some("hello"));
    assert_eq!(build_searchable_text(&ep, MemoryType::Episodic), "hello");
}

#[test]
fn dedup_rejects_at_or_above_the_threshold() {
    let cfg = DedupConfig::default();
    assert_eq!(cfg.threshold, DEFAULT_DUPLICATE_THRESHOLD);
    let at = 0.95f32.to_bits();
    let below = 0.94f32.to_bits();
    match dedup_check(MemoryType::Episodic, Some(("m1".to_string(), at)), &cfg) {
        Err(CoreError::Duplicate { existing_id, similarity }) => {
            assert_eq!(existing_id, "m1");
            assert_eq!(similarity, at);
        }
        other => panic!("unexpected {other:?}"),
    }
    assert!(dedup_check(MemoryType::Episodic, Some(("m1".to_string(), below)), &cfg).is_ok());
    assert!(dedup_check(MemoryType::Episodic, None, &cfg).is_ok());
    assert!(dedup_check(MemoryType::Semantic, Some(("m1".to_string(), at)), &cfg).is_ok());
}

#[test]
fn built_memory_carries_the_request() {
    let mut req = req_semantic("  API-Server ", "uses", "tokio");
    req.confidence = Some(1.5f64.to_bits());
    req.source = Some("chat".into());
    let context: serde_json::Value = serde_json::from_str(r#"{"ticket": 7, "tags": ["a"]}"#).unwrap();
    req.context = Some(context.clone());
    let m = build_memory(
        "id-1".into(),
        "default".into(),
        MemoryType::Semantic,
        &req,
        vec!["tokio".into()],
        Some("depends_on".into()),
        42,
    );
    assert_eq!(m.id, "id-1");
    assert_eq!(m.subject.as_deref(), Some("api-server"));
    assert_eq!(m.confidence, 1.0f64.to_bits());
    assert_eq!(m.entities, vec!["tokio".to_string()]);
    assert_eq!(m.created_at, 42);
    assert_eq!(m.last_accessed, 42);
    assert_eq!(m.access_count, 0);
    assert!(m.t_invalid.is_none());
    assert_eq!(m.normalized_predicate.as_deref(), Some("depends_on"));
    assert_eq!(m.source.as_deref(), Some("chat"));
    assert_eq!(m.context, Some(context));

    let mut low = req_episodic(Some("x"));
    low.confidence = Some((-0.5f64).to_bits());
    let m = build_memory("id-2".into(), "ns".into(), MemoryType::Episodic, &low, vec![], None, 0);
    assert_eq!(m.confidence, 0.0f64.to_bits());
    let none = req_episodic(Some("x"));
    let m = build_memory("id-3".into(), "ns".into(), MemoryType::Episodic, &none, vec![], None, 0);
    assert_eq!(m.confidence, 1.0f64.to_bits());
    let mut mid = req_episodic(Some("x"));
    mid.confidence = Some(0.25f64.to_bits());
    let m = build_memory("id-4".into(), "ns".into(), MemoryType::Episodic, &mid, vec![], None, 0);
    assert_eq!(f64::from_bits(m.confidence), 0.25);
}

#[test]
fn supersedes_skip_the_pre_write_checks() {
    assert_eq!(pre_write_check(MemoryType::Semantic, true), PreWriteCheck::Skip);
    assert_eq!(pre_write_check(MemoryType::Episodic, true), PreWriteCheck::Skip);
    assert_eq!(pre_write_check(MemoryType::Semantic, false), PreWriteCheck::Conflict);
    assert_eq!(pre_write_check(MemoryType::Episodic, false), PreWriteCheck::Dedup);
    assert_eq!(pre_write_check(MemoryType::Procedural, false), PreWriteCheck::Dedup);
}
