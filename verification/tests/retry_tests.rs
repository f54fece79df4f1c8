use slotwatch::{BookingManager, LocationBookings, RetryController, RetryDecision, TimeSlot};

fn ids(names: &[&str]) -> Vec<Vec<u8>> {
    names.iter().map(|n| n.as_bytes().to_vec()).collect()
}

fn entry(name: &str) -> LocationBookings {
    LocationBookings {
        location: name.as_bytes().to_vec(),
        slots: vec![TimeSlot {
            availability: true,
            slot_number: None,
            start_time: b"1/1/2026 10:00".to_vec(),
        }],
        next_available_date: None,
    }
}

#[test]
fn fruitless_run_exhausts_after_exactly_max_retries() {
    let max_retries: u64 = 4;
    let mut controller = RetryController::new(ids(&["A", "B"]), max_retries);
    let empty: Vec<LocationBookings> = Vec::new();
    let mut attempts: u64 = 0;
    let mut notifications: u64 = 0;
    loop {
        assert_eq!(controller.next_batch().len(), 2);
        let decision = controller.record_attempt(&empty);
        attempts += 1;
        match decision {
            RetryDecision::Continue => {
                assert!(attempts < max_retries);
            }
            RetryDecision::Exhausted => {
                notifications += 1;
                break;
            }
            RetryDecision::Complete => panic!("an empty attempt can never complete the run"),
        }
    }
    assert_eq!(attempts, max_retries);
    assert_eq!(notifications, 1);
    assert_eq!(controller.missing_count(), 2);
    // Nothing was acquired, so no cache update is performed.
    assert!(!controller.should_publish());
}

#[test]
fn partial_success_stops_early_and_publishes_a_replace() {
    let max_retries: u64 = 5;
    let mut controller = RetryController::new(ids(&["A", "B"]), max_retries);

    let first = vec![entry("A")];
    let d1 = controller.record_attempt(&first);
    assert_eq!(d1, RetryDecision::Continue);
    assert_eq!(controller.next_batch(), ids(&["B"]));

    let second = vec![entry("B")];
    let d2 = controller.record_attempt(&second);
    assert_eq!(d2, RetryDecision::Complete);
    assert_eq!(controller.missing_count(), 0);

    assert!(controller.should_publish());
    let results = controller.results();
    assert_eq!(results.len(), 2);
    assert_eq!(results[0].location, b"A".to_vec());
    assert_eq!(results[1].location, b"B".to_vec());

    // Publishing is a full replace: a location from an earlier snapshot
    // that never came back is gone afterwards.
    let mut cache = BookingManager::new();
    cache.update_data(&vec![entry("C")]);
    cache.update_data(&results);
    assert!(cache.get_location_slots(&b"C".to_vec()).is_none());
    assert!(cache.get_location_slots(&b"A".to_vec()).is_some());
    assert!(cache.get_location_slots(&b"B".to_vec()).is_some());
}

#[test]
fn exhaustion_with_partial_results_still_publishes_them() {
    let max_retries: u64 = 2;
    let mut controller = RetryController::new(ids(&["A", "B", "C"]), max_retries);
    let d1 = controller.record_attempt(&vec![entry("A")]);
    assert_eq!(d1, RetryDecision::Continue);
    let d2 = controller.record_attempt(&vec![]);
    assert_eq!(d2, RetryDecision::Exhausted);
    assert_eq!(controller.missing_count(), 2);
    assert!(controller.should_publish());
    let results = controller.results();
    assert_eq!(results.len(), 1);
    assert_eq!(results[0].location, b"A".to_vec());
}

#[test]
fn results_not_asked_for_are_ignored() {
    let mut controller = RetryController::new(ids(&["A"]), 3);
    // An answer for a location that was never requested is dropped.
    let d = controller.record_attempt(&vec![entry("Z"), entry("A")]);
    assert_eq!(d, RetryDecision::Complete);
    let results = controller.results();
    assert_eq!(results.len(), 1);
    assert_eq!(results[0].location, b"A".to_vec());
}
