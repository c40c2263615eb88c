use ferrex::kinds::{ConnectionSource, MemoryType, ModelTier, PendingOpKind};

#[test]
fn test_model_tier_parse() {
    assert!(matches!("small".parse::<ModelTier>(), Ok(ModelTier::Small)));
    assert!(matches!("mid".parse::<ModelTier>(), Ok(ModelTier::Mid)));
    assert!(matches!("best".parse::<ModelTier>(), Ok(ModelTier::Best)));
    assert!("unknown".parse::<ModelTier>().is_err());
}

#[test]
fn model_tier_parse_ignores_case_and_reports_unknown() {
    assert!(matches!(ModelTier::parse("BeSt"), Ok(ModelTier::Best)));
    assert_eq!(
        ModelTier::parse("huge").unwrap_err(),
        "unknown model tier: huge (expected: small, mid, best)"
    );
}

#[test]
fn model_tier_dimensions_and_names() {
    assert_eq!(ModelTier::Small.dimension(), 384);
    assert_eq!(ModelTier::Mid.dimension(), 384);
    assert_eq!(ModelTier::Best.dimension(), 768);
    assert_eq!(ModelTier::Small.model_name(), "all-MiniLM-L6-v2");
    assert_eq!(ModelTier::Mid.model_name(), "bge-small-en-v1.5");
    assert_eq!(ModelTier::Best.model_name(), "bge-base-en-v1.5");
    assert!(matches!(ModelTier::default(), ModelTier::Best));
}

#[test]
fn memory_type_round_trip() {
    for t in [MemoryType::Episodic, MemoryType::Semantic, MemoryType::Procedural] {
        assert_eq!(MemoryType::parse(t.as_str()).unwrap(), t);
    }
    assert_eq!(MemoryType::parse("SEMANTIC").unwrap(), MemoryType::Semantic);
    assert_eq!(
        MemoryType::parse("dream").unwrap_err(),
        "unknown memory type: dream"
    );
}

#[test]
fn pending_op_kind_round_trip() {
    for k in [PendingOpKind::Store, PendingOpKind::Forget, PendingOpKind::Supersede] {
        assert_eq!(PendingOpKind::parse(k.as_str()), Some(k));
    }
    assert_eq!(PendingOpKind::parse("Store"), None);
    assert_eq!(PendingOpKind::parse("delete"), None);
}

#[test]
fn connection_source_is_memory() {
    assert!(ConnectionSource::SharedMemory { uri: "file:memdb?mode=memory".into() }.is_memory());
    assert!(!ConnectionSource::File("/tmp/ferrex.db".into()).is_memory());
}
