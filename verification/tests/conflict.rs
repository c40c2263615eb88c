use ferrex::config::ConflictConfig;
use ferrex::conflict::{classify, resolve_conflict, Classification};
use ferrex::kinds::MemoryType;
use ferrex::memory::Memory;
use ferrex::pipeline::CoreError;

fn mem(id: &str, object: &str) -> Memory {
    Memory {
        id: id.into(),
        namespace: "default".into(),
        memory_type: MemoryType::Semantic,
        content: None,
        subject: Some("api".into()),
        predicate: Some("uses".into()),
        object: Some(object.into()),
        confidence: 1.0f64.to_bits(),
        source: None,
        context: None,
        entities: vec![],
        created_at: 0,
        updated_at: 0,
        t_valid: None,
        t_invalid: None,
        last_accessed: 0,
        last_validated: None,
        access_count: 0,
        normalized_predicate: Some("depends_on".into()),
    }
}

#[test]
fn test_classify_no_conflict() {
    let c = ConflictConfig::default();
    assert!(matches!(classify("x", &[], &c), Classification::NoConflict));
}

#[test]
fn test_classify_duplicate_exact() {
    let c = ConflictConfig::default();
    let outcome = classify("tokio 1.38", &[mem("e-1", "tokio 1.38")], &c);
    assert!(
        matches!(outcome, Classification::Duplicate(ref id, s) if id == "e-1" && f32::from_bits(s) == 1.0)
    );
}

#[test]
fn test_classify_duplicate_case_insensitive() {
    let c = ConflictConfig::default();
    let outcome = classify("  Tokio 1.38 ", &[mem("e-1", "tokio 1.38")], &c);
    assert!(matches!(outcome, Classification::Duplicate(_, _)));
}

#[test]
fn test_classify_update_far() {
    let c = ConflictConfig::default();
    let outcome = classify("postgres", &[mem("e-1", "tokio 1.38")], &c);
    assert!(matches!(outcome, Classification::Update(_)));
}

#[test]
fn test_classify_ambiguous() {
    let c = ConflictConfig::default();
    let outcome = classify("tokio 1.38 with patches", &[mem("e-1", "tokio 1.38")], &c);
    assert!(matches!(outcome, Classification::Ambiguous { .. }));
}

#[test]
fn test_classify_multi_match() {
    let c = ConflictConfig::default();
    let existing = vec![mem("e-1", "foo"), mem("e-2", "bar")];
    let outcome = classify("baz", &existing, &c);
    assert!(matches!(outcome, Classification::MultiMatch(ref ids) if ids.len() == 2));
}

#[test]
fn ambiguous_ratio_is_the_narrowed_jaro_winkler() {
    let c = ConflictConfig::default();
    let expected = strsim::jaro_winkler("tokio 1.38 with patches", "tokio 1.38") as f32;
    match classify("tokio 1.38 with patches", &[mem("e-1", "tokio 1.38")], &c) {
        Classification::Ambiguous { existing_id, ratio } => {
            assert_eq!(existing_id, "e-1");
            assert_eq!(f32::from_bits(ratio), expected);
        }
        _ => panic!("expected an ambiguous classification"),
    }
}

#[test]
fn resolve_conflict_maps_each_classification() {
    assert!(matches!(resolve_conflict(Classification::NoConflict), Ok(None)));
    assert!(matches!(
        resolve_conflict(Classification::Update("u-1".into())),
        Ok(Some(ref id)) if id == "u-1"
    ));
    assert!(matches!(
        resolve_conflict(Classification::Duplicate("d-1".into(), 1.0f32.to_bits())),
        Err(CoreError::Duplicate { ref existing_id, .. }) if existing_id == "d-1"
    ));
    assert!(matches!(
        resolve_conflict(Classification::Ambiguous { existing_id: "a-1".into(), ratio: 0.7f32.to_bits() }),
        Err(CoreError::ConflictAmbiguous { ref existing_id, .. }) if existing_id == "a-1"
    ));
    assert!(matches!(
        resolve_conflict(Classification::MultiMatch(vec!["m-1".into(), "m-2".into()])),
        Err(CoreError::MultiMatchConflict { ref existing_ids }) if existing_ids.len() == 2
    ));
}
