use ferrex::config::{NamespacePredicatesConfig, PredicatesConfig};
use ferrex::groups::PredicateGroups;
use ferrex::kinds::MemoryType;
use ferrex::memory::Memory;
use ferrex::pipeline::memory_search_text;
use ferrex::predicate::Normalizers;
use ferrex::recall::{collection_name, namespace_of_collection};

fn fact(memory_type: MemoryType) -> Memory {
    Memory {
        id: "m".into(),
        namespace: "default".into(),
        memory_type,
        content: Some("notes".into()),
        subject: Some("api".into()),
        predicate: Some("uses".into()),
        object: Some("tokio".into()),
        confidence: 1.0f64.to_bits(),
        source: None,
        context: None,
        entities: vec![],
        created_at: 0,
        updated_at: 0,
        t_valid: None,
        t_invalid: None,
        last_accessed: 0,
        last_validated: None,
        access_count: 0,
        normalized_predicate: None,
    }
}

#[test]
fn collections_are_prefixed_by_the_crate_name() {
    assert_eq!(collection_name("default"), "ferrex_default");
    assert_eq!(collection_name(""), "ferrex_");
}

#[test]
fn collection_names_give_back_their_namespace() {
    assert_eq!(namespace_of_collection(&collection_name("legal")), Some("legal".to_string()));
    assert_eq!(namespace_of_collection("ferrex_"), Some(String::new()));
    assert_eq!(namespace_of_collection("other_legal"), None);
    assert_eq!(namespace_of_collection("ferrex"), None);
}

#[test]
fn a_semantic_memory_is_searched_by_its_triple() {
    assert_eq!(memory_search_text(&fact(MemoryType::Semantic)), "api uses tokio");
    assert_eq!(memory_search_text(&fact(MemoryType::Episodic)), "notes");
    let mut bare = fact(MemoryType::Procedural);
    bare.content = None;
    assert_eq!(memory_search_text(&bare), "");
}

#[test]
fn each_namespace_normalizes_with_its_own_groups() {
    let mut global = PredicateGroups::new();
    global.insert("depends_on".into(), vec!["uses".into()]);
    let mut legal = PredicateGroups::new();
    legal.insert("depends_on".into(), vec!["rests-on".into()]);
    let config = PredicatesConfig {
        groups: global,
        namespaces: vec![("legal".to_string(), NamespacePredicatesConfig { groups: legal })],
    };
    let normalizers = Normalizers::build(&config);
    assert_eq!(normalizers.for_namespace("default").normalize("uses"), "depends_on");
    assert_eq!(normalizers.for_namespace("legal").normalize("rests-on"), "depends_on");
    assert_eq!(normalizers.for_namespace("legal").normalize("uses"), "uses");
}
