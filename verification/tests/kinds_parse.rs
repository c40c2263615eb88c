use ferrex::kinds::{check_embedding_model, parse_memory_types, MemoryType, ModelCheck};

#[test]
fn memory_type_lists_parse_or_report_the_first_unknown() {
    let ok = parse_memory_types(&vec!["episodic".into(), "SEMANTIC".into()]).unwrap();
    assert_eq!(ok, vec![MemoryType::Episodic, MemoryType::Semantic]);
    assert_eq!(parse_memory_types(&vec![]).unwrap(), Vec::<MemoryType>::new());
    let err = parse_memory_types(&vec!["episodic".into(), "dream".into(), "wish".into()]).unwrap_err();
    assert_eq!(err, "unknown memory type: dream");
}

#[test]
fn embedding_model_must_not_change() {
    assert_eq!(check_embedding_model(None, "m"), Ok(ModelCheck::Record));
    assert_eq!(check_embedding_model(Some("m"), "m"), Ok(ModelCheck::Matches));
    assert_eq!(
        check_embedding_model(Some("a"), "b"),
        Err("embedding model mismatch: stored=a, current=b. Changing models would corrupt vector similarity. Use the same model or start with a fresh database.".to_string())
    );
}
