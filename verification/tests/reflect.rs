use ferrex::kinds::MemoryType;
use ferrex::memory::{Entity, Memory};
use ferrex::reflect::{build_entity_alias_map, detect_contradictions};
use ferrex::groups::PredicateGroups;
use ferrex::requests::ContradictionMatchType;

fn entity(name: &str, aliases: &[&str]) -> Entity {
    Entity {
        id: format!("id-{name}"),
        name: name.into(),
        aliases: aliases.iter().map(|a| a.to_string()).collect(),
        entity_type: None,
        created_at: 0,
        updated_at: 0,
    }
}

fn fact(id: &str, subject: &str, predicate: &str, object: &str) -> Memory {
    Memory {
        id: id.into(),
        namespace: "default".into(),
        memory_type: MemoryType::Semantic,
        content: None,
        subject: Some(subject.into()),
        predicate: Some(predicate.into()),
        object: Some(object.into()),
        confidence: 1.0f64.to_bits(),
        source: None,
        context: None,
        entities: vec![],
        created_at: 0,
        updated_at: 0,
        t_valid: None,
        t_invalid: None,
        last_accessed: 0,
        last_validated: None,
        access_count: 0,
        normalized_predicate: None,
    }
}

#[test]
fn alias_map_links_every_name_to_the_others() {
    let map = build_entity_alias_map(&[entity("Rust", &["rust-lang", "RustLang"]), entity("Tokio", &[])]);
    assert_eq!(map.get("rust").unwrap(), &vec!["rust-lang".to_string(), "rustlang".to_string()]);
    assert_eq!(map.get("rust-lang").unwrap(), &vec!["rust".to_string(), "rustlang".to_string()]);
    assert_eq!(map.get("tokio").unwrap(), &Vec::<String>::new());
    assert!(map.get("Rust").is_none());
}

#[test]
fn alias_map_merges_entities_sharing_a_name() {
    let map = build_entity_alias_map(&[entity("a", &["b"]), entity("c", &["b", "a"])]);
    assert_eq!(map.get("b").unwrap(), &vec!["a".to_string(), "c".to_string()]);
    assert_eq!(map.get("a").unwrap(), &vec!["b".to_string(), "c".to_string()]);
}

#[test]
fn exact_predicate_contradiction() {
    let facts = vec![fact("1", "API", "uses", "tokio"), fact("2", "api", "USES", "async-std"), fact("3", "api", "uses", "tokio")];
    let found = detect_contradictions(&facts, &PredicateGroups::new());
    assert_eq!(found.len(), 2);
    assert_eq!((found[0].a, found[0].b), (0, 1));
    assert_eq!(found[0].match_type, ContradictionMatchType::ExactPredicate);
    assert_eq!(f64::from_bits(found[0].similarity), 1.0);
    assert_eq!((found[1].a, found[1].b), (1, 2));
}

#[test]
fn fuzzy_predicate_contradiction() {
    let facts = vec![fact("1", "svc", "depends_on", "redis"), fact("2", "svc", "depend_on", "memcached")];
    let found = detect_contradictions(&facts, &PredicateGroups::new());
    assert_eq!(found.len(), 1);
    assert_eq!(found[0].match_type, ContradictionMatchType::FuzzyPredicate);
    let sim = f64::from_bits(found[0].similarity);
    assert_eq!(sim, strsim::jaro_winkler("depends_on", "depend_on"));
    assert!(sim > 0.75);
}

#[test]
fn alias_subject_contradiction() {
    let facts = vec![fact("1", "rust", "version", "1.80"), fact("2", "rust-lang", "version", "1.79")];
    let aliases = build_entity_alias_map(&[entity("rust", &["rust-lang"])]);
    let found = detect_contradictions(&facts, &aliases);
    assert_eq!(found.len(), 2);
    assert!(found.iter().all(|c| c.match_type == ContradictionMatchType::SimilarSubject));
    assert_eq!((found[0].a, found[0].b), (0, 1));
    assert_eq!((found[1].a, found[1].b), (1, 0));
    assert!(detect_contradictions(&facts, &PredicateGroups::new()).is_empty());
}

#[test]
fn agreeing_facts_do_not_contradict() {
    let facts = vec![fact("1", "a", "is", "x"), fact("2", "a", "is", "x"), fact("3", "b", "likes", "y")];
    assert!(detect_contradictions(&facts, &PredicateGroups::new()).is_empty());
}
