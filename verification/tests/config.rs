use ferrex::config::{
    resolve, resolve_namespace_groups, FileConfig, NamespaceFile, PredicatesFile, DEFAULT_READER_POOL_SIZE,
};
use ferrex::groups::PredicateGroups;

fn groups(entries: &[(&str, &[&str])]) -> PredicateGroups {
    let mut g = PredicateGroups::new();
    for (k, ms) in entries {
        g.insert(k.to_string(), ms.iter().map(|m| m.to_string()).collect());
    }
    g
}

#[test]
fn test_resolve_defaults() {
    let cfg = resolve(FileConfig::default());
    assert!((f32::from_bits(cfg.deduplication.threshold) - 0.95).abs() < f32::EPSILON);
    assert!((f32::from_bits(cfg.conflict.object_fuzzy_duplicate) - 0.95).abs() < f32::EPSILON);
    assert!((f32::from_bits(cfg.conflict.object_fuzzy_update) - 0.50).abs() < f32::EPSILON);
    assert_eq!(cfg.reader_pool_size, DEFAULT_READER_POOL_SIZE);
    assert_eq!(cfg.reconciliation.audit_fix_limit, 1000);
}

#[test]
fn test_namespace_merge_replaces_and_adds() {
    // [predicates.groups] depends_on = ["uses", "requires"], has_version = ["version"]
    // [namespaces.legal.predicates.groups] cites = ["references"], depends_on = ["rests-on"]
    let file = FileConfig {
        predicates: PredicatesFile { groups: groups(&[("depends_on", &["uses", "requires"]), ("has_version", &["version"])]) },
        namespaces: vec![(
            "legal".to_string(),
            NamespaceFile {
                predicates: PredicatesFile { groups: groups(&[("cites", &["references"]), ("depends_on", &["rests-on"])]) },
            },
        )],
        ..FileConfig::default()
    };
    let cfg = resolve(file);
    let legal = resolve_namespace_groups(&cfg.predicates, "legal");
    assert_eq!(legal.get("cites").unwrap(), &vec!["references".to_string()]);
    assert_eq!(legal.get("depends_on").unwrap(), &vec!["rests-on".to_string()]);
    assert!(legal.get("has_version").is_some());
}

#[test]
fn test_namespace_empty_group_suppresses_global() {
    // [predicates.groups] depends_on = ["uses"], runs_on = ["deployed-to"]
    // [namespaces.art.predicates.groups] runs_on = []
    let file = FileConfig {
        predicates: PredicatesFile { groups: groups(&[("depends_on", &["uses"]), ("runs_on", &["deployed-to"])]) },
        namespaces: vec![("art".to_string(), NamespaceFile { predicates: PredicatesFile { groups: groups(&[("runs_on", &[])]) } })],
        ..FileConfig::default()
    };
    let cfg = resolve(file);
    let art = resolve_namespace_groups(&cfg.predicates, "art");
    assert!(art.get("depends_on").is_some());
    assert!(art.get("runs_on").is_none());
}

#[test]
fn namespace_without_overrides_gets_the_global_groups() {
    let file = FileConfig {
        predicates: PredicatesFile { groups: groups(&[("depends_on", &["uses"])]) },
        ..FileConfig::default()
    };
    let cfg = resolve(file);
    let other = resolve_namespace_groups(&cfg.predicates, "elsewhere");
    assert_eq!(other.get("depends_on").unwrap(), &vec!["uses".to_string()]);
}
