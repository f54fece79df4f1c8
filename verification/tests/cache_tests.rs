use slotwatch::{
    get_location_bookings, get_location_details, BookingManager, LocationBookings, TimeSlot,
};

fn slot(avail: bool, num: Option<u32>, start: &str) -> TimeSlot {
    TimeSlot { availability: avail, slot_number: num, start_time: start.as_bytes().to_vec() }
}

fn one_location() -> Vec<LocationBookings> {
    vec![LocationBookings {
        location: b"141".to_vec(),
        slots: vec![slot(true, Some(1), "18/09/2025 10:00"), slot(false, Some(2), "18/09/2025 11:00")],
        next_available_date: None,
    }]
}

#[test]
fn update_publishes_only_available_slots() {
    let mut cache = BookingManager::new();
    cache.update_data(&one_location());
    let slots = cache.get_location_slots(&b"141".to_vec()).expect("location is published");
    assert_eq!(slots.len(), 1);
    assert!(slots[0].availability);
    assert_eq!(slots[0].start_time, b"18/09/2025 10:00".to_vec());
}

#[test]
fn update_replaces_never_merges() {
    let mut cache = BookingManager::new();
    cache.update_data(&one_location());
    let replacement = vec![LocationBookings {
        location: b"Hornsby".to_vec(),
        slots: vec![slot(true, None, "20/09/2025 09:00")],
        next_available_date: None,
    }];
    cache.update_data(&replacement);
    assert!(cache.get_location_slots(&b"141".to_vec()).is_none());
    assert!(cache.get_location_slots(&b"Hornsby".to_vec()).is_some());
    let (data, _) = cache.get_data();
    assert_eq!(data.results.len(), 1);
}

#[test]
fn identical_cleaned_content_keeps_the_etag() {
    let mut cache = BookingManager::new();
    cache.update_data(&one_location());
    let (_, etag1) = cache.get_data();
    // A second update with the same cleaned content, at a later time.
    cache.update_data(&one_location());
    let (_, etag2) = cache.get_data();
    assert_eq!(etag1, etag2);
    // Re-stamping alone never changes the change token.
    cache.update_date();
    let (data, etag3) = cache.get_data();
    assert_eq!(etag1, etag3);
    assert!(data.last_updated.is_some());
}

#[test]
fn available_slots_are_flattened_in_order() {
    let mut cache = BookingManager::new();
    let results = vec![
        LocationBookings {
            location: b"A".to_vec(),
            slots: vec![slot(true, None, "1/1/2026 10:00"), slot(false, None, "1/1/2026 11:00")],
            next_available_date: None,
        },
        LocationBookings {
            location: b"B".to_vec(),
            slots: vec![slot(true, None, "2/1/2026 09:00")],
            next_available_date: None,
        },
    ];
    cache.update_data(&results);
    let available = cache.get_available_slots();
    assert_eq!(available.len(), 2);
    assert_eq!(available[0].0, b"A".to_vec());
    assert_eq!(available[0].1.start_time, b"1/1/2026 10:00".to_vec());
    assert_eq!(available[1].0, b"B".to_vec());
    assert_eq!(available[1].1.start_time, b"2/1/2026 09:00".to_vec());
}

#[test]
fn persist_then_load_reproduces_data_and_etag() {
    let mut cache = BookingManager::new();
    cache.update_data(&one_location());
    let (before, etag_before) = cache.get_data();
    let stored = cache.snapshot_bytes();

    let mut fresh = BookingManager::new();
    assert!(fresh.load_snapshot(&stored));
    let (after, etag_after) = fresh.get_data();
    assert_eq!(etag_before, etag_after);
    assert_eq!(before.results.len(), after.results.len());
    assert_eq!(before.results[0].location, after.results[0].location);
    assert_eq!(before.results[0].slots.len(), after.results[0].slots.len());
    assert_eq!(before.last_updated, after.last_updated);
}

#[test]
fn malformed_snapshot_leaves_the_cache_untouched() {
    let mut cache = BookingManager::new();
    cache.update_data(&one_location());
    let (_, etag) = cache.get_data();
    assert!(!cache.load_snapshot(&b"garbage".to_vec()));
    let (data, etag2) = cache.get_data();
    assert_eq!(etag, etag2);
    assert_eq!(data.results.len(), 1);
}

#[test]
fn second_start_is_a_no_op_and_stop_allows_a_restart() {
    let mut cache = BookingManager::new();
    assert!(cache.try_begin_background_updates());
    assert!(!cache.try_begin_background_updates());
    cache.stop_background_updates();
    assert!(cache.try_begin_background_updates());
}

#[test]
fn matching_etag_gets_the_unchanged_signal() {
    let mut cache = BookingManager::new();
    cache.update_data(&one_location());
    let (_, etag) = cache.get_data();
    assert!(get_location_bookings(&cache, etag).is_none());
    let resp = get_location_bookings(&cache, etag.wrapping_add(1)).expect("stale caller gets data");
    assert_eq!(resp.etag, etag);
    assert_eq!(resp.bookings.len(), 1);
    assert_eq!(resp.bookings[0].location, b"141".to_vec());
    let earliest = resp.bookings[0].earliest_slot.as_ref().expect("one slot is available");
    assert_eq!(earliest.start_time, b"18/09/2025 10:00".to_vec());
}

#[test]
fn location_details_follow_the_per_location_etag() {
    let mut cache = BookingManager::new();
    cache.update_data(&one_location());
    assert!(get_location_details(&cache, &b"nowhere".to_vec(), 0).is_err());
    let resp = get_location_details(&cache, &b"141".to_vec(), 0)
        .expect("location exists")
        .expect("etag 0 does not match");
    assert_eq!(resp.location, b"141".to_vec());
    assert_eq!(resp.slots.len(), 1);
    let unchanged = get_location_details(&cache, &b"141".to_vec(), resp.etag).expect("exists");
    assert!(unchanged.is_none());
}
