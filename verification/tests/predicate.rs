use ferrex::groups::PredicateGroups;
use ferrex::predicate::PredicateNormalizer;

fn sample_groups() -> PredicateGroups {
    let mut m = PredicateGroups::new();
    m.insert(
        "depends_on".into(),
        vec!["uses".into(), "depends-on".into(), "requires".into()],
    );
    m.insert(
        "has_version".into(),
        vec!["version".into(), "pinned-to".into()],
    );
    m
}

#[test]
fn test_text_normalize() {
    assert_eq!(PredicateNormalizer::text_normalize("  Uses  "), "uses");
    assert_eq!(
        PredicateNormalizer::text_normalize("depends-on"),
        "depends on"
    );
    assert_eq!(
        PredicateNormalizer::text_normalize("HAS_version"),
        "has version"
    );
}

#[test]
fn test_exact_group_member_match() {
    let n = PredicateNormalizer::new(sample_groups());
    assert_eq!(n.normalize("uses"), "depends_on");
    assert_eq!(n.normalize("REQUIRES"), "depends_on");
    assert_eq!(n.normalize("depends-on"), "depends_on");
}

#[test]
fn test_group_key_match() {
    let n = PredicateNormalizer::new(sample_groups());
    assert_eq!(n.normalize("depends_on"), "depends_on");
    assert_eq!(n.normalize("has version"), "has_version");
}

#[test]
fn test_fuzzy_fallback() {
    let n = PredicateNormalizer::new(sample_groups());
    assert_eq!(n.normalize("requies"), "depends_on");
}

#[test]
fn test_passthrough_unknown() {
    let n = PredicateNormalizer::new(sample_groups());
    assert_eq!(n.normalize("totally-unrelated"), "totally unrelated");
}

#[test]
fn test_empty_input() {
    let n = PredicateNormalizer::new(sample_groups());
    assert_eq!(n.normalize(""), "");
    assert_eq!(n.normalize("   "), "");
}
