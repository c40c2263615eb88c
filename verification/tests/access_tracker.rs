use ferrex::access_tracker::AccessTracker;

#[test]
fn drain_deduplicates() {
    let mut tracker = AccessTracker::new();
    tracker.record(&["a".into(), "b".into(), "a".into(), "c".into(), "b".into()]);
    let drained = tracker.drain();
    assert_eq!(drained, vec!["a", "b", "c"]);
}

#[test]
fn drain_empties_buffer() {
    let mut tracker = AccessTracker::new();
    tracker.record(&["x".into()]);
    let _ = tracker.drain();
    assert!(tracker.drain().is_empty());
}

#[test]
fn drain_if_full_at_threshold() {
    let mut tracker = AccessTracker::with_threshold(3);
    tracker.record(&["a".into(), "b".into()]);
    assert!(tracker.drain_if_full().is_none());
    tracker.record(&["c".into()]);
    assert!(tracker.drain_if_full().is_some());
}

#[test]
fn default_threshold_is_fifty() {
    let mut tracker = AccessTracker::new();
    let ids: Vec<String> = (0..49).map(|i| format!("id-{i}")).collect();
    tracker.record(&ids);
    assert!(tracker.drain_if_full().is_none());
    tracker.record(&["id-0".to_string()]);
    let drained = tracker.drain_if_full().expect("full at fifty");
    assert_eq!(drained.len(), 49);
    assert!(tracker.drain().is_empty());
}
