use std::time::Duration;

use serial_mock_service::capture::{time_stamp, Capture};

#[test]
fn raw_ring_bounds_at_capacity() {
    let mut cap = Capture::new(4, 10);
    cap.append_raw(b"ABCDEF");
    assert_eq!(cap.raw_bytes(), b"CDEF");
}

#[test]
fn raw_clear_empties_buffer() {
    let mut cap = Capture::new(16, 10);
    cap.append_raw(b"hi");
    cap.clear_raw();
    assert_eq!(cap.raw_bytes(), b"");
}

#[test]
fn events_are_monotonically_ided() {
    let mut cap = Capture::new(64, 10);
    cap.push_event(b"a".to_vec(), None);
    cap.push_event(b"b".to_vec(), Some("s:0".into()));
    let events = cap.events_since(0);
    assert_eq!(events.len(), 2);
    assert_eq!(events[0].id, 1);
    assert_eq!(events[1].id, 2);
    assert_eq!(events[1].matched_rule.as_deref(), Some("s:0"));
}

#[test]
fn events_since_filters_by_id() {
    let mut cap = Capture::new(64, 10);
    for i in 0..5 {
        cap.push_event(vec![b'a' + i as u8], None);
    }
    let tail = cap.events_since(3);
    assert_eq!(tail.len(), 2);
    assert_eq!(tail[0].id, 4);
}

#[test]
fn event_log_drops_oldest_when_full_but_ids_keep_advancing() {
    let mut cap = Capture::new(64, 3);
    for i in 0..5 {
        cap.push_event(vec![b'a' + i as u8], None);
    }
    let events = cap.events_since(0);
    assert_eq!(events.len(), 3);
    assert_eq!(events[0].id, 3, "oldest should have been dropped");
    assert_eq!(events[2].id, 5);
}

#[test]
fn raw_ring_slides_over_chunks() {
    let mut cap = Capture::new(4, 10);
    cap.append_raw(b"AB");
    cap.append_raw(b"CDE");
    assert_eq!(cap.raw_bytes(), b"BCDE");
    assert_eq!(cap.events_since(0).len(), 0);
}

#[test]
fn a_bound_of_zero_keeps_nothing() {
    let mut cap = Capture::new(0, 10);
    cap.append_raw(b"AB");
    cap.append_raw(b"C");
    assert_eq!(cap.raw_bytes(), b"");

    let mut cap = Capture::new(64, 0);
    cap.push_event(b"a".to_vec(), None);
    cap.push_event(b"b".to_vec(), None);
    assert_eq!(cap.events_since(0).len(), 0);
    cap.append_raw(b"AB");
    assert_eq!(cap.raw_bytes(), b"AB");
}

#[test]
fn ids_go_on_after_clearing() {
    let mut cap = Capture::new(64, 10);
    cap.push_event_at(7, b"x".to_vec(), None);
    cap.clear_events();
    assert_eq!(cap.events_since(0).len(), 0);
    cap.push_event_at(9, b"y".to_vec(), Some("s:1".into()));
    let events = cap.events_since(0);
    assert_eq!(events.len(), 1);
    assert_eq!(events[0].id, 2);
    assert_eq!(events[0].ts_ms, 9);
    assert_eq!(events[0].data, b"y");
    assert!(cap.has_room());
}

#[test]
fn events_carry_the_time() {
    let mut cap = Capture::new(64, 10);
    cap.push_event(b"x".to_vec(), None);
    // some time after the year 2020
    assert!(cap.events_since(0)[0].ts_ms > 1_577_836_800_000);
}

#[test]
fn time_stamps_are_whole_milliseconds() {
    assert_eq!(time_stamp(None), 0);
    assert_eq!(time_stamp(Some(Duration::from_millis(1715692800123))), 1715692800123);
    assert_eq!(time_stamp(Some(Duration::from_nanos(1_999_999))), 1);
}

#[test]
fn polling_resumes_after_the_last_seen_id() {
    let mut cap = Capture::new(64, 4);
    for i in 0..6 {
        cap.push_event_at(i, vec![i as u8], None);
    }
    let seen = cap.events_since(0)[1].id;
    let rest = cap.events_since(seen);
    assert_eq!(rest.iter().map(|e| e.id).collect::<Vec<u64>>(), vec![5, 6]);
}
