use ferrex::entity::{
    best_fuzzy_match, embedding_match, entity_lookup_name, find_entity_by_point_id, EmbeddingMatch,
    FUZZY_MATCH_THRESHOLD,
};
use ferrex::memory::Entity;
use ferrex::pipeline::CoreError;

fn entity(id: &str, name: &str, aliases: &[&str]) -> Entity {
    Entity {
        id: id.into(),
        name: name.into(),
        aliases: aliases.iter().map(|a| a.to_string()).collect(),
        entity_type: None,
        created_at: 0,
        updated_at: 0,
    }
}

#[test]
fn lookup_name_normalizes_separators_and_case() {
    assert_eq!(entity_lookup_name("  Rust-Lang  ").unwrap(), "rust lang");
    assert_eq!(entity_lookup_name("tokio-runtime").unwrap(), "tokio runtime");
    assert_eq!(entity_lookup_name("brand-new-entity").unwrap(), "brand new entity");
    assert_eq!(entity_lookup_name("a_b/c   d").unwrap(), "a b c d");
}

#[test]
fn lookup_name_refuses_empty_names() {
    match entity_lookup_name(" -_/ ") {
        Err(CoreError::Validation(m)) => assert_eq!(m, "empty entity name"),
        other => panic!("unexpected {other:?}"),
    }
}

#[test]
fn fuzzy_match_finds_close_names() {
    let es = vec![entity("1", "serde json", &[]), entity("2", "tokio", &["tokio runtime"])];
    let (i, s) = best_fuzzy_match("serdejson", &es, FUZZY_MATCH_THRESHOLD).unwrap();
    assert_eq!(i, 0);
    assert_eq!(f64::from_bits(s), strsim::jaro_winkler("serde json", "serdejson"));
    let (j, _) = best_fuzzy_match("tokio runtim", &es, FUZZY_MATCH_THRESHOLD).unwrap();
    assert_eq!(j, 1);
    assert!(best_fuzzy_match("completely different", &es, FUZZY_MATCH_THRESHOLD).is_none());
}

#[test]
fn fuzzy_match_ties_go_to_the_last_candidate() {
    let es = vec![entity("1", "alpha", &[]), entity("2", "alpha", &[])];
    let (i, s) = best_fuzzy_match("alpha", &es, FUZZY_MATCH_THRESHOLD).unwrap();
    assert_eq!(i, 1);
    assert_eq!(f64::from_bits(s), 1.0);
}

#[test]
fn point_ids_find_entities() {
    let es = vec![entity("a", "x", &[]), entity("b", "y", &[]), entity("b", "z", &[])];
    assert_eq!(find_entity_by_point_id(&es, "b"), Some(1));
    assert_eq!(find_entity_by_point_id(&es, "c"), None);
}

#[test]
fn embedding_match_needs_a_high_score_and_a_known_point() {
    let es = vec![entity("p1", "x", &[])];
    assert_eq!(embedding_match(Some(("p1".into(), 0.95f32.to_bits())), &es), EmbeddingMatch::Existing(0));
    assert_eq!(embedding_match(Some(("p1".into(), 0.92f32.to_bits())), &es), EmbeddingMatch::Create);
    assert_eq!(embedding_match(Some(("p1".into(), 0.85f32.to_bits())), &es), EmbeddingMatch::Create);
    assert_eq!(embedding_match(Some(("p9".into(), 0.99f32.to_bits())), &es), EmbeddingMatch::Create);
    assert_eq!(embedding_match(None, &es), EmbeddingMatch::Create);
}
