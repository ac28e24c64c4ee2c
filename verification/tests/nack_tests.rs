use phantom_core::nack::NackTracker;
use std::io::ErrorKind;

#[test]
fn test_no_gaps() {
    let mut tracker = NackTracker::new();
    for i in 0..10 {
        tracker.record_received(i);
    }
    assert!(tracker.get_missing().is_empty());
}

#[test]
fn test_single_gap() {
    let mut tracker = NackTracker::new();
    tracker.record_received(0);
    tracker.record_received(1);
    tracker.record_received(3);
    tracker.record_received(4);

    let missing = tracker.get_missing();
    assert_eq!(missing, vec![2]);
}

#[test]
fn test_multiple_gaps() {
    let mut tracker = NackTracker::new();
    tracker.record_received(0);
    tracker.record_received(3);
    tracker.record_received(5);

    let missing = tracker.get_missing();
    assert_eq!(missing, vec![1, 2, 4]);
}

#[test]
fn test_nack_packet_roundtrip() {
    let mut tracker = NackTracker::new();
    tracker.record_received(0);
    tracker.record_received(3);
    tracker.record_received(5);

    let nack_data = tracker.build_nack_packet();
    let parsed = NackTracker::parse_nack_packet(&nack_data).unwrap();
    assert_eq!(parsed, vec![1, 2, 4]);
}

#[test]
fn test_watermark_advances() {
    let mut tracker = NackTracker::new();
    tracker.record_received(0);
    tracker.record_received(2);
    tracker.record_received(3);
    assert_eq!(tracker.window().0, 1);
    tracker.record_received(1);
    assert_eq!(tracker.window().0, 4);
}

#[test]
fn nack_packet_bytes() {
    let mut tracker = NackTracker::new();
    tracker.record_received(0);
    tracker.record_received(2);
    let bytes = tracker.build_nack_packet();
    assert_eq!(bytes, vec![1, 0, 0, 0, 1, 0, 0, 0]);
    // Building again lists the same gap: it is still missing.
    assert_eq!(tracker.build_nack_packet(), vec![1, 0, 0, 0, 1, 0, 0, 0]);
    assert_eq!(tracker.missing_count(), 1);
    assert_eq!(tracker.window(), (1, 2));
}

#[test]
fn nack_parse_errors() {
    // The count itself is cut short.
    match NackTracker::parse_nack_packet(&[1, 0, 0]) {
        Err(e) => assert_eq!(e.kind(), ErrorKind::UnexpectedEof),
        other => panic!("unexpected {:?}", other),
    }
    // Two numbers announced, one present.
    match NackTracker::parse_nack_packet(&[2, 0, 0, 0, 7, 0, 0, 0]) {
        Err(e) => assert_eq!(e.kind(), ErrorKind::UnexpectedEof),
        other => panic!("unexpected {:?}", other),
    }
    // A huge count on a short packet fails without reading past the end.
    match NackTracker::parse_nack_packet(&[0xFF, 0xFF, 0xFF, 0xFF, 1, 0]) {
        Err(e) => assert_eq!(e.kind(), ErrorKind::UnexpectedEof),
        other => panic!("unexpected {:?}", other),
    }
    // Trailing bytes after the listed numbers are ignored.
    assert_eq!(
        NackTracker::parse_nack_packet(&[1, 0, 0, 0, 0x10, 0x20, 0, 0, 9]).unwrap(),
        vec![0x2010]
    );
    assert_eq!(NackTracker::parse_nack_packet(&[0, 0, 0, 0]).unwrap(), Vec::<u32>::new());
}

#[test]
fn gaps_are_bounded_by_max_gap() {
    let mut tracker = NackTracker::new();
    tracker.record_received(5000);
    let missing = tracker.get_missing();
    assert_eq!(missing.len(), 1025);
    assert_eq!(missing[0], 0);
    assert_eq!(missing[1024], 1024);
}

#[test]
fn duplicates_and_old_numbers() {
    let mut tracker = NackTracker::new();
    tracker.record_received(0);
    tracker.record_received(0);
    tracker.record_received(1);
    assert_eq!(tracker.window(), (2, 1));
    assert!(tracker.get_missing().is_empty());
    assert_eq!(tracker.missing_count(), 0);
}

#[test]
fn nack_due_needs_interval_and_gap() {
    let mut tracker = NackTracker::new();
    tracker.record_received(0);
    assert!(!tracker.nack_due(1_000_000));
    tracker.record_received(2);
    assert!(!tracker.nack_due(4_999));
    assert!(tracker.nack_due(5_000));
}

#[test]
fn watermark_overflow_is_detected() {
    let mut tracker = NackTracker::new();
    assert!(!tracker.record_would_overflow(0));
    tracker.record_received(0);
    assert!(!tracker.record_would_overflow(u32::MAX));
}

#[test]
fn default_tracker_is_new() {
    let t = NackTracker::default();
    assert_eq!(t.window(), (0, 0));
    assert_eq!(t.get_missing(), vec![0]);
    let s = phantom_core::sandbox::SessionState::default();
    assert_eq!(s.stats().instructions_executed, 0);
}

#[test]
fn no_nack_without_gap() {
    let mut t = NackTracker::new();
    t.record_received(0);
    assert!(!t.should_send_nack());
}
