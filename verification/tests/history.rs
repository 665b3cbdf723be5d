use unison2d::history::TraceHistory;

#[test]
fn keeps_only_the_newest_frames() {
    let mut h: TraceHistory<&str> = TraceHistory::new(3);
    for (f, name) in [(1, "a"), (2, "b"), (3, "c"), (4, "d"), (5, "e")] {
        assert!(h.record(f, name));
    }
    assert_eq!(h.len(), 3);
    let kept: Vec<&str> = h.entries().iter().copied().collect();
    assert_eq!(kept, vec!["c", "d", "e"]);
    assert_eq!(h.get_frame(4), Some(&"d"));
    assert_eq!(h.get_frame(1), None);
}

#[test]
fn disabled_history_records_nothing() {
    let mut h: TraceHistory<u8> = TraceHistory::new(4);
    assert!(h.is_enabled());
    h.record(1, 10);
    h.disable();
    assert!(!h.is_enabled());
    assert!(!h.record(2, 20));
    assert_eq!(h.len(), 1);
    h.enable();
    assert!(h.record(3, 30));
    assert_eq!(h.len(), 2);
    h.clear();
    assert_eq!(h.len(), 0);
    assert!(h.is_enabled());
}

#[test]
fn zero_limit_keeps_the_newest_frame() {
    let mut h: TraceHistory<u8> = TraceHistory::new(0);
    h.record(7, 1);
    h.record(8, 2);
    assert_eq!(h.len(), 1);
    assert_eq!(h.get_frame(8), Some(&2));
}

#[test]
fn last_n_start_counts_older_frames() {
    let mut h: TraceHistory<u8> = TraceHistory::new(10);
    for f in 0..6 {
        h.record(f, f as u8);
    }
    assert_eq!(h.last_n_start(2), 4);
    assert_eq!(h.last_n_start(6), 0);
    assert_eq!(h.last_n_start(100), 0);
}

#[test]
fn get_frame_finds_the_oldest_match() {
    let mut h: TraceHistory<u8> = TraceHistory::new(5);
    h.record(1, 1);
    h.record(2, 2);
    h.record(1, 3);
    assert_eq!(h.get_frame(1), Some(&1));
}
