use ferrex::kinds::MemoryType;
use ferrex::memory::Memory;
use ferrex::pipeline::CoreError;
use ferrex::recall::Timestamp;
use ferrex::requests::{
    build_taxonomy, candidate_pool_size, cap_scan, keep_memories, occurred_at, order_hits, parse_forget_ids,
    recall_limit, reflect_limit, reflect_summary, select_validated_ids, store_response, taxonomy_limit,
    ForgetTally, MAX_SCAN_MEMORIES,
};

fn mem(id: &str, t: MemoryType, invalid: bool) -> Memory {
    Memory {
        id: id.into(),
        namespace: "default".into(),
        memory_type: t,
        content: Some("c".into()),
        subject: None,
        predicate: None,
        object: None,
        confidence: 1.0f64.to_bits(),
        source: None,
        context: None,
        entities: vec![],
        created_at: 7,
        updated_at: 7,
        t_valid: None,
        t_invalid: if invalid { Some(9) } else { None },
        last_accessed: 7,
        last_validated: None,
        access_count: 0,
        normalized_predicate: None,
    }
}

const U1: &str = "0190c7a4-8e1f-7c3a-9b2d-4f6e8a1c3b5d";
const U2: &str = "0190c7a4-8e1f-7c3a-9b2d-4f6e8a1c3b5e";

#[test]
fn limits_default_and_cap() {
    assert_eq!(recall_limit(None), 10);
    assert_eq!(recall_limit(Some(5)), 5);
    assert_eq!(recall_limit(Some(1000)), 200);
    assert_eq!(candidate_pool_size(5, None), 40);
    assert_eq!(candidate_pool_size(50, None), 100);
    assert_eq!(candidate_pool_size(5, Some(false)), 40);
    assert_eq!(candidate_pool_size(5, Some(true)), 20);
    assert_eq!(candidate_pool_size(50, Some(true)), 50);
    assert_eq!(taxonomy_limit(None), 10);
    assert_eq!(taxonomy_limit(Some(500)), 100);
    assert_eq!(reflect_limit(None), 20);
    assert_eq!(reflect_limit(Some(3)), 3);
}

#[test]
fn hits_follow_search_order_and_skip_invalidated() {
    let hits = vec!["b".to_string(), "x".to_string(), "a".to_string(), "c".to_string()];
    let ms = vec![mem("a", MemoryType::Episodic, false), mem("b", MemoryType::Episodic, false), mem("c", MemoryType::Episodic, true)];
    assert_eq!(order_hits(&hits, &ms, None, None), vec![1, 0]);
    assert_eq!(order_hits(&hits, &ms, Some(true), None), vec![1, 0, 2]);
}

#[test]
fn a_recall_as_of_an_instant_keeps_what_was_valid_then() {
    let at = |micros: i64| Some(Timestamp { seconds: micros / 1_000_000, nanos: ((micros % 1_000_000) * 1000) as u32 });
    let hits = vec!["a".to_string(), "c".to_string()];
    let ms = vec![mem("a", MemoryType::Episodic, false), mem("c", MemoryType::Episodic, true)];
    // before anything was stored
    assert_eq!(order_hits(&hits, &ms, Some(true), at(6)), Vec::<usize>::new());
    // from creation on; the invalidated one only up to its end
    assert_eq!(order_hits(&hits, &ms, Some(true), at(7)), vec![0, 1]);
    // a memory superseded later was still valid at the instant
    assert_eq!(order_hits(&hits, &ms, None, at(8)), vec![0, 1]);
    assert_eq!(order_hits(&hits, &ms, None, at(9)), vec![0]);
    // invalidated ones asked for: the end of their window is not checked
    assert_eq!(order_hits(&hits, &ms, Some(true), at(20)), vec![0, 1]);
    // a year later still counts for a live memory
    assert_eq!(order_hits(&hits, &ms, None, at(31_536_000_000_000)), vec![0]);
    let mut later = mem("a", MemoryType::Episodic, false);
    later.t_valid = Some(100);
    assert_eq!(order_hits(&vec!["a".to_string()], &vec![later], None, at(50)), Vec::<usize>::new());
}

#[test]
fn validated_ids_are_the_uuids_asked_for() {
    let validate = vec![U1.to_string(), "not-a-uuid".to_string(), U2.to_string()];
    assert_eq!(select_validated_ids(&validate), vec![U1.to_string(), U2.to_string()]);
    assert_eq!(select_validated_ids(&vec![]), Vec::<String>::new());
}

#[test]
fn forget_ids_must_all_be_uuids() {
    let ok = parse_forget_ids(&vec![U1.to_string(), U2.to_string()]).unwrap();
    assert_eq!(ok.len(), 2);
    assert_eq!(ok[0], uuid::Uuid::parse_str(U1).unwrap().as_u128());
    match parse_forget_ids(&vec![U1.to_string(), "bad".to_string(), "worse".to_string()]) {
        Err(CoreError::Validation(m)) => assert_eq!(m, "invalid UUID: bad"),
        other => panic!("unexpected {other:?}"),
    }
}

#[test]
fn forget_tally_reports_both_lists() {
    let mut t = ForgetTally::new();
    assert_eq!(t.outcome(), "ok");
    t.record(&"a".to_string(), true);
    t.record(&"b".to_string(), false);
    t.record(&"c".to_string(), true);
    assert_eq!(t.outcome(), "2 deleted, 1 not found");
    let r = t.finish();
    assert_eq!(r.message, "deleted 2 memories");
    assert_eq!(r.deleted, vec!["a".to_string(), "c".to_string()]);
    assert_eq!(r.not_found, vec!["b".to_string()]);
}

#[test]
fn store_response_names_superseded_ids() {
    let r = store_response("n".into(), MemoryType::Semantic, Some("old".into()), vec!["x".into()]);
    assert_eq!(r.memory_type, "semantic");
    assert_eq!(r.superseded, vec!["old".to_string()]);
    let r = store_response("n".into(), MemoryType::Episodic, None, vec!["x".into(), "y".into()]);
    assert_eq!(r.superseded, vec!["x".to_string(), "y".to_string()]);
}

#[test]
fn taxonomy_totals_the_type_counts() {
    let t = build_taxonomy(
        "ns".into(),
        vec![(MemoryType::Episodic, 3), (MemoryType::Semantic, 4)],
        vec![("tokio".into(), 2)],
        vec![("uses".into(), 5)],
        None,
    );
    assert_eq!(t.total_memories, 7);
    assert_eq!(t.top_entities[0].name, "tokio");
    assert_eq!(t.top_predicates[0].count, 5);
}

#[test]
fn scans_are_capped() {
    let ids: Vec<String> = (0..MAX_SCAN_MEMORIES + 5).map(|i| i.to_string()).collect();
    let capped = cap_scan(ids);
    assert_eq!(capped.len(), MAX_SCAN_MEMORIES);
    assert_eq!(capped[0], "0");
    assert_eq!(cap_scan(vec!["a".into()]), vec!["a".to_string()]);
}

#[test]
fn reflect_summary_takes_the_larger_scan() {
    let s = reflect_summary(Some(3), Some(10), 2, 1);
    assert_eq!((s.total_scanned, s.stale_count, s.contradiction_count), (10, 2, 1));
    assert_eq!(reflect_summary(Some(30), Some(10), 0, 0).total_scanned, 30);
    assert_eq!(reflect_summary(None, None, 0, 0).total_scanned, 0);
}

#[test]
fn scans_keep_live_and_semantic_memories() {
    let ms = vec![
        mem("a", MemoryType::Semantic, false),
        mem("b", MemoryType::Episodic, false),
        mem("c", MemoryType::Semantic, true),
        mem("d", MemoryType::Semantic, false),
    ];
    let sem: Vec<String> = keep_memories(ms, true).into_iter().map(|m| m.id).collect();
    assert_eq!(sem, vec!["a".to_string(), "d".to_string()]);
    let ms = vec![mem("a", MemoryType::Semantic, false), mem("b", MemoryType::Episodic, false), mem("c", MemoryType::Semantic, true)];
    let live: Vec<String> = keep_memories(ms, false).into_iter().map(|m| m.id).collect();
    assert_eq!(live, vec!["a".to_string(), "b".to_string()]);
}

#[test]
fn occurred_at_prefers_the_validity_start() {
    let mut m = mem("a", MemoryType::Episodic, false);
    assert_eq!(occurred_at(&m), 7);
    m.t_valid = Some(3);
    assert_eq!(occurred_at(&m), 3);
}
