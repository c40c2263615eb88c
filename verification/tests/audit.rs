use ferrex::config::{NamespacePredicatesConfig, PredicatesConfig};
use ferrex::groups::PredicateGroups;
use ferrex::kinds::MemoryType;
use ferrex::memory::Memory;
use ferrex::predicate::Normalizers;
use ferrex::audit::{audit_namespaces, audit_report, ids_missing_from, tag_id, untag};
use ferrex::pipeline::CoreError;

fn strings(v: &[&str]) -> Vec<String> {
    v.iter().map(|s| s.to_string()).collect()
}

#[test]
fn namespaces_are_merged_sorted_and_distinct() {
    let r = audit_namespaces(&strings(&["b", "a"]), &strings(&["c", "a"]), &"default".to_string());
    assert_eq!(r, strings(&["a", "b", "c", "default"]));
}

#[test]
fn missing_ids_keep_first_occurrence_order() {
    let r = ids_missing_from(&strings(&["x", "y", "x", "z"]), &strings(&["y"]));
    assert_eq!(r, strings(&["x", "z"]));
}

#[test]
fn untag_undoes_tag() {
    let t = tag_id("legal", "1234");
    assert_eq!(t, "legal:1234");
    assert_eq!(untag(&t), Some(("legal".to_string(), "1234".to_string())));
    assert_eq!(untag("a:b:c"), Some(("a".to_string(), "b:c".to_string())));
    assert_eq!(untag("plain"), None);
}

#[test]
fn audit_refuses_large_fixes() {
    let tagged = strings(&["n:1", "n:2", "n:3"]);
    match audit_report(true, 2, vec![], &tagged) {
        Err(CoreError::Validation(m)) => assert_eq!(m, "audit refuses to auto-fix 3 qdrant-only ids (limit 2)"),
        other => panic!("unexpected {:?}", other.is_ok()),
    }
    let r = audit_report(true, 3, strings(&["s"]), &tagged).ok().unwrap();
    assert_eq!(r.fixed, strings(&["1", "2", "3"]));
    assert!(r.qdrant_only.is_empty());
    let r = audit_report(false, 0, strings(&["s"]), &tagged).ok().unwrap();
    assert_eq!(r.qdrant_only, strings(&["1", "2", "3"]));
    assert_eq!(r.sqlite_only, strings(&["s"]));
}

#[test]
fn deletes_group_by_namespace_in_first_occurrence_order() {
    let u1 = "0190c7a4-8e1f-7c3a-9b2d-4f6e8a1c3b5d";
    let u2 = "0190c7a4-8e1f-7c3a-9b2d-4f6e8a1c3b5e";
    let tagged = vec![
        format!("b:{u1}"),
        "a:not-a-uuid".to_string(),
        format!("a:{u2}"),
        "untagged".to_string(),
        format!("b:{u2}"),
    ];
    let groups = ferrex::audit::group_deletes(&tagged);
    let v1 = uuid::Uuid::parse_str(u1).unwrap().as_u128();
    let v2 = uuid::Uuid::parse_str(u2).unwrap().as_u128();
    assert_eq!(groups, vec![("b".to_string(), vec![v1, v2]), ("a".to_string(), vec![v2])]);
}

#[test]
fn backfill_fills_every_row_with_a_predicate() {
    let mut global = PredicateGroups::new();
    global.insert("depends_on".into(), vec!["uses".into()]);
    let mut legal = PredicateGroups::new();
    legal.insert("cites".into(), vec!["references".into()]);
    let config = PredicatesConfig {
        groups: global,
        namespaces: vec![("legal".to_string(), NamespacePredicatesConfig { groups: legal })],
    };
    let normalizers = Normalizers::build(&config);
    let row = |id: &str, ns: &str, p: Option<&str>| Memory {
        id: id.into(),
        namespace: ns.into(),
        memory_type: MemoryType::Semantic,
        content: None,
        subject: Some("s".into()),
        predicate: p.map(|x| x.to_string()),
        object: Some("o".into()),
        confidence: 1.0f64.to_bits(),
        source: None,
        context: None,
        entities: vec![],
        created_at: 0,
        updated_at: 0,
        t_valid: None,
        t_invalid: None,
        last_accessed: 0,
        last_validated: None,
        access_count: 0,
        normalized_predicate: None,
    };
    let rows = vec![
        row("1", "default", Some("uses")),
        row("2", "default", Some("depends_on")),
        row("3", "legal", Some("references")),
        row("4", "default", None),
        row("5", "legal", Some("Uses")),
    ];
    let (updates, report) = ferrex::audit::plan_backfill(&rows, &normalizers);
    assert_eq!(report.scanned, 5);
    assert_eq!(report.updated, 4);
    assert_eq!(
        updates,
        vec![
            (0, "depends_on".to_string()),
            (1, "depends_on".to_string()),
            (2, "cites".to_string()),
            (4, "depends_on".to_string()),
        ]
    );
}
