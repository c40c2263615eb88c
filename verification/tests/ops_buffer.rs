use ferrex::ops_buffer::{OpsBuffer, MAX_DETAIL_LEN, OPS_BUFFER_CAPACITY};

#[test]
fn keeps_the_newest_operations() {
    let mut b = OpsBuffer::new();
    for i in 0..(OPS_BUFFER_CAPACITY + 5) {
        b.record("store", &format!("op {i}"), i as u64, "ok", i as i64);
    }
    let all = b.recent(1000);
    assert_eq!(all.len(), OPS_BUFFER_CAPACITY);
    assert_eq!(all[0].detail, format!("op {}", OPS_BUFFER_CAPACITY + 4));
    assert_eq!(all[OPS_BUFFER_CAPACITY - 1].detail, "op 5");
    let two = b.recent(2);
    assert_eq!(two.len(), 2);
    assert_eq!(two[1].duration_ms, (OPS_BUFFER_CAPACITY + 3) as u64);
}

#[test]
fn long_details_are_cut_on_a_character_boundary() {
    let mut b = OpsBuffer::new();
    let ascii = "a".repeat(200);
    b.record("recall", &ascii, 1, "ok", 0);
    assert_eq!(b.recent(1)[0].detail.len(), MAX_DETAIL_LEN);
    let wide = "é".repeat(100);
    b.record("recall", &wide, 1, "ok", 0);
    let d = &b.recent(1)[0].detail;
    assert_eq!(d.len(), MAX_DETAIL_LEN);
    assert!(d.chars().all(|c| c == 'é'));
    let snow = format!("a{}", "☃".repeat(60));
    b.record("recall", &snow, 1, "ok", 0);
    let d = &b.recent(1)[0].detail;
    assert_eq!(d.len(), 118);
    assert_eq!(b.recent(1)[0].kind, "recall");
}
