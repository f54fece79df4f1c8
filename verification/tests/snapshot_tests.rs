use slotwatch::{
    content_hash, parse_booking_data, render_booking_data, BookingData, LocationBookings,
    TimeSlot,
};

fn slot(avail: bool, num: Option<u32>, start: &str) -> TimeSlot {
    TimeSlot { availability: avail, slot_number: num, start_time: start.as_bytes().to_vec() }
}

fn sample_data() -> BookingData {
    BookingData {
        results: vec![
            LocationBookings {
                location: b"141".to_vec(),
                slots: vec![
                    slot(true, Some(5), "18/09/2025 10:15"),
                    slot(false, None, "19/09/2025 08:00"),
                ],
                next_available_date: Some(b"18/09/2025".to_vec()),
            },
            LocationBookings {
                location: b"Hornsby".to_vec(),
                slots: vec![],
                next_available_date: None,
            },
        ],
        last_updated: Some(b"2025-09-18T00:00:00+00:00".to_vec()),
    }
}

#[test]
fn render_shape_is_json() {
    let d = sample_data();
    let bytes = render_booking_data(&d);
    let text = String::from_utf8(bytes).unwrap();
    assert_eq!(
        text,
        "{\"results\":[{\"location\":\"141\",\"slots\":[{\"availability\":true,\"slot_number\":5,\"startTime\":\"18/09/2025 10:15\"},{\"availability\":false,\"slot_number\":null,\"startTime\":\"19/09/2025 08:00\"}],\"next_available_date\":\"18/09/2025\"},{\"location\":\"Hornsby\",\"slots\":[],\"next_available_date\":null}],\"last_updated\":\"2025-09-18T00:00:00+00:00\"}"
    );
}

#[test]
fn snapshot_round_trips() {
    let d = sample_data();
    let bytes = render_booking_data(&d);
    let back = parse_booking_data(&bytes).expect("a rendered snapshot must parse");
    assert_eq!(back.results.len(), 2);
    assert_eq!(back.results[0].location, b"141".to_vec());
    assert_eq!(back.results[0].slots.len(), 2);
    assert!(back.results[0].slots[0].availability);
    assert_eq!(back.results[0].slots[0].slot_number, Some(5));
    assert_eq!(back.results[0].slots[0].start_time, b"18/09/2025 10:15".to_vec());
    assert!(!back.results[0].slots[1].availability);
    assert_eq!(back.results[0].slots[1].slot_number, None);
    assert_eq!(back.results[1].location, b"Hornsby".to_vec());
    assert_eq!(back.results[1].slots.len(), 0);
    assert_eq!(back.results[1].next_available_date, None);
    assert_eq!(back.last_updated, Some(b"2025-09-18T00:00:00+00:00".to_vec()));
    // The hashes of the round-tripped value match too.
    assert_eq!(content_hash(&d.results), content_hash(&back.results));
}

#[test]
fn snapshot_round_trips_with_escapes() {
    let d = BookingData {
        results: vec![LocationBookings {
            location: b"a\"b\\c\nd".to_vec(),
            slots: vec![slot(true, None, "quote \" and backslash \\")],
            next_available_date: Some(vec![0u8, 31u8, 10u8]),
        }],
        last_updated: None,
    };
    let bytes = render_booking_data(&d);
    let back = parse_booking_data(&bytes).expect("escaped content must round trip");
    assert_eq!(back.results[0].location, b"a\"b\\c\nd".to_vec());
    assert_eq!(back.results[0].slots[0].start_time, b"quote \" and backslash \\".to_vec());
    assert_eq!(back.results[0].next_available_date, Some(vec![0u8, 31u8, 10u8]));
}

#[test]
fn empty_dataset_round_trips() {
    let d = BookingData { results: vec![], last_updated: None };
    let bytes = render_booking_data(&d);
    assert_eq!(String::from_utf8(bytes.clone()).unwrap(), "{\"results\":[],\"last_updated\":null}");
    let back = parse_booking_data(&bytes).unwrap();
    assert_eq!(back.results.len(), 0);
    assert_eq!(back.last_updated, None);
}

#[test]
fn malformed_snapshots_are_rejected() {
    assert!(parse_booking_data(&b"".to_vec()).is_none());
    assert!(parse_booking_data(&b"{}".to_vec()).is_none());
    assert!(parse_booking_data(&b"not json at all".to_vec()).is_none());
    assert!(parse_booking_data(&b"{\"results\":[],\"last_updated\":null".to_vec()).is_none());
    // Trailing bytes are rejected as well.
    assert!(parse_booking_data(&b"{\"results\":[],\"last_updated\":null}x".to_vec()).is_none());
}

#[test]
fn identical_content_hashes_identically() {
    let a = sample_data();
    let mut b = sample_data();
    assert_eq!(content_hash(&a.results), content_hash(&b.results));
    // The timestamp is not part of the content hash.
    b.last_updated = Some(b"2030-01-01T00:00:00+00:00".to_vec());
    assert_eq!(content_hash(&a.results), content_hash(&b.results));
}

#[test]
fn the_published_etag_is_the_dataset_hash() {
    let d = sample_data();
    assert_eq!(d.calculate_hash(), content_hash(&d.results));
    assert_eq!(d.results[0].calculate_hash(), d.results[0].calculate_hash());
    assert_ne!(d.results[0].calculate_hash(), d.results[1].calculate_hash());
    let mut cache = slotwatch::BookingManager::new();
    cache.update_data(&d.results);
    let (published, etag) = cache.get_data();
    assert_eq!(etag, published.calculate_hash());
}

#[test]
fn reordering_locations_changes_the_hash() {
    let a = sample_data();
    let mut b = sample_data();
    b.results.reverse();
    assert_ne!(content_hash(&a.results), content_hash(&b.results));
}

#[test]
fn changed_slot_changes_the_hash() {
    let a = sample_data();
    let mut b = sample_data();
    b.results[0].slots[0].start_time = b"18/09/2025 10:30".to_vec();
    assert_ne!(content_hash(&a.results), content_hash(&b.results));
}
