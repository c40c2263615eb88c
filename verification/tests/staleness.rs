use ferrex::kinds::MemoryType;
use ferrex::memory::Memory;
use ferrex::staleness::{
    build_stale_reason, count_stale, eviction_priority, freshness_label, plan_stale, stale_cutoff, tally_staleness,
    threshold_for_type, FreshnessLabel, StaleScore, StalenessConfig, EPISODIC_STALE_THRESHOLD,
};

const DAY: i64 = 86_400_000_000;

fn score(t: MemoryType, access_count: u64, s: f64) -> StaleScore {
    StaleScore { memory_type: t, access_count, created_at: 0, score: s.to_bits() }
}

#[test]
fn test_freshness_label_fresh() {
    assert_eq!(freshness_label(0.2f64.to_bits(), 0.7f64.to_bits()), FreshnessLabel::Fresh);
}

#[test]
fn test_freshness_label_aging() {
    assert_eq!(freshness_label(0.5f64.to_bits(), 0.7f64.to_bits()), FreshnessLabel::Aging);
}

#[test]
fn test_freshness_label_stale() {
    assert_eq!(freshness_label(0.8f64.to_bits(), 0.7f64.to_bits()), FreshnessLabel::Stale);
}

#[test]
fn freshness_label_agrees_with_float_comparisons() {
    let samples = [0.0, 0.1, 0.2, 0.34, 0.35, 0.36, 0.5, 0.69, 0.7, 0.71, 0.9, 1.0, f64::NAN, -0.0, 5e-324, 1e-310];
    for &th in &[0.7f64, 0.8, 0.9, 1e-308, 2.2250738585072014e-308, 4.9e-324, f64::INFINITY, f64::NAN] {
        for &s in &samples {
            let expected = if s < th * 0.5 {
                FreshnessLabel::Fresh
            } else if s < th {
                FreshnessLabel::Aging
            } else {
                FreshnessLabel::Stale
            };
            assert_eq!(freshness_label(s.to_bits(), th.to_bits()), expected, "score {s} threshold {th}");
        }
    }
}

#[test]
fn default_thresholds_and_half_lives() {
    let c = StalenessConfig::default();
    assert_eq!(threshold_for_type(&c, MemoryType::Episodic), 0.70f64.to_bits());
    assert_eq!(threshold_for_type(&c, MemoryType::Semantic), 0.80f64.to_bits());
    assert_eq!(threshold_for_type(&c, MemoryType::Procedural), 0.90f64.to_bits());
    assert_eq!(EPISODIC_STALE_THRESHOLD, 0.70f64.to_bits());
    assert_eq!(f64::from_bits(c.min_half_life_days()), 30.0);
    assert_eq!(f64::from_bits(c.weights.age), 0.40);
    assert_eq!(f64::from_bits(c.count_scale), 10.0);
}

#[test]
fn min_half_life_ignores_nan() {
    let mut c = StalenessConfig::default();
    c.episodic.half_life_days = f64::NAN.to_bits();
    assert_eq!(f64::from_bits(c.min_half_life_days()), 180.0);
}

#[test]
fn eviction_priority_orders_unused_episodic_first() {
    let mut m = sample_memory(MemoryType::Episodic, 0);
    assert_eq!(eviction_priority(&m), 0);
    m.access_count = 3;
    assert_eq!(eviction_priority(&m), 1);
    m.memory_type = MemoryType::Semantic;
    assert_eq!(eviction_priority(&m), 2);
}

#[test]
fn plan_stale_filters_sorts_and_ranks() {
    let c = StalenessConfig::default();
    let cs = vec![
        score(MemoryType::Semantic, 0, 0.95),   // 0: stale, priority 2
        score(MemoryType::Episodic, 5, 0.75),   // 1: stale, priority 1
        score(MemoryType::Episodic, 0, 0.71),   // 2: stale, priority 0
        score(MemoryType::Episodic, 0, 0.90),   // 3: stale, priority 0, higher score
        score(MemoryType::Procedural, 0, 0.5),  // 4: not stale
        score(MemoryType::Episodic, 0, 0.90),   // 5: ties with 3, comes after it
    ];
    let plan = plan_stale(&cs, &c, 20);
    let order: Vec<usize> = plan.iter().map(|e| e.index).collect();
    assert_eq!(order, vec![3, 5, 2, 1, 0]);
    let ranks: Vec<u32> = plan.iter().map(|e| e.eviction_rank).collect();
    assert_eq!(ranks, vec![1, 2, 3, 4, 5]);
    assert!(plan.iter().all(|e| e.freshness_label == FreshnessLabel::Stale));
    assert_eq!(plan[0].staleness_score, 0.90f64.to_bits());

    let top2 = plan_stale(&cs, &c, 2);
    assert_eq!(top2.iter().map(|e| e.index).collect::<Vec<_>>(), vec![3, 5]);
    assert_eq!(count_stale(&cs, &c), 5);
    assert!(plan_stale(&cs, &c, 0).is_empty());
}

#[test]
fn tally_counts_labels_and_types() {
    let c = StalenessConfig::default();
    let mut cs = vec![
        score(MemoryType::Episodic, 2, 0.1),
        score(MemoryType::Semantic, 1, 0.85),
        score(MemoryType::Episodic, 4, 0.75),
        score(MemoryType::Episodic, 0, 0.5),
    ];
    cs[0].created_at = 10;
    cs[2].created_at = 5;
    cs[3].created_at = 30;
    let (dist, types) = tally_staleness(&cs, &c);
    assert_eq!((dist.fresh, dist.aging, dist.stale), (1, 1, 2));
    assert_eq!(types.len(), 2);
    assert_eq!(types[0].memory_type, MemoryType::Episodic);
    assert_eq!(types[0].count, 3);
    assert_eq!(types[0].stale_count, 1);
    assert_eq!(types[0].access_total, 6);
    assert_eq!((types[0].oldest, types[0].newest), (5, 30));
    assert_eq!(types[1].memory_type, MemoryType::Semantic);
    assert_eq!(types[1].count, 1);
    assert_eq!(types[1].stale_count, 1);
}

fn sample_memory(t: MemoryType, access_count: u64) -> Memory {
    Memory {
        id: "test-id".into(),
        namespace: "test".into(),
        memory_type: t,
        content: Some("test content".into()),
        subject: None,
        predicate: None,
        object: None,
        confidence: 1.0f64.to_bits(),
        source: None,
        context: None,
        entities: vec![],
        created_at: 0,
        updated_at: 0,
        t_valid: None,
        t_invalid: None,
        last_accessed: 0,
        last_validated: None,
        access_count,
        normalized_predicate: None,
    }
}

#[test]
fn stale_reason_reports_whole_days() {
    let now = 100 * DAY;
    let mut m = sample_memory(MemoryType::Episodic, 3);
    m.created_at = now - 90 * DAY - 5;
    m.last_accessed = now - 2 * DAY + 1;
    assert_eq!(
        build_stale_reason(&m, now),
        "created 90 days ago, last accessed 1 days ago, never validated, 3 accesses"
    );
    m.last_validated = Some(now - 7 * DAY);
    m.last_accessed = now + DAY;
    assert_eq!(
        build_stale_reason(&m, now),
        "created 90 days ago, last accessed -1 days ago, last validated 7 days ago, 3 accesses"
    );
}

#[test]
fn the_stale_cutoff_is_whole_days_back() {
    assert_eq!(stale_cutoff(100 * DAY, 15), 85 * DAY);
    assert_eq!(stale_cutoff(5, 0), 5);
    assert_eq!(stale_cutoff(0, 1), -DAY);
}
