use slotwatch::{earliest_available, slot_chrono_le, slot_time_of, SlotTime, TimeSlot};

fn slot(avail: bool, start: &str) -> TimeSlot {
    TimeSlot { availability: avail, slot_number: None, start_time: start.as_bytes().to_vec() }
}

#[test]
fn start_times_parse_to_structured_values() {
    let t = slot_time_of(&b"18/09/2025 10:15".to_vec()).expect("well-formed time");
    assert_eq!(t, SlotTime { day: 18, month: 9, year: 2025, hour: 10, minute: 15 });
    assert!(slot_time_of(&b"18/09/2025".to_vec()).is_none());
    assert!(slot_time_of(&b"".to_vec()).is_none());
    assert!(slot_time_of(&b"18/09/2025 10:15 extra".to_vec()).is_none());
}

#[test]
fn ordering_is_chronological_not_lexicographic() {
    // Lexicographically "02/01/2026" < "28/12/2025", but chronologically
    // the December slot comes first.
    let december = slot(true, "28/12/2025 10:00");
    let january = slot(true, "02/01/2026 10:00");
    assert!(slot_chrono_le(&december, &january));
    assert!(!slot_chrono_le(&january, &december));
    // Across a month boundary within one year.
    let jan_31 = slot(true, "31/01/2026 10:00");
    let feb_1 = slot(true, "01/02/2026 09:00");
    assert!(slot_chrono_le(&jan_31, &feb_1));
    assert!(!slot_chrono_le(&feb_1, &jan_31));
    // Same day, ordered by time.
    let morning = slot(true, "01/02/2026 09:00");
    let evening = slot(true, "01/02/2026 18:30");
    assert!(slot_chrono_le(&morning, &evening));
}

#[test]
fn unparseable_times_sort_after_parseable_ones() {
    let good = slot(true, "01/02/2026 09:00");
    let bad = slot(true, "soon");
    assert!(slot_chrono_le(&good, &bad));
    assert!(!slot_chrono_le(&bad, &good));
}

#[test]
fn earliest_available_skips_blocked_and_later_slots() {
    let slots = vec![
        slot(false, "01/01/2026 08:00"),
        slot(true, "28/12/2026 10:00"),
        slot(true, "02/02/2026 10:00"),
    ];
    let earliest = earliest_available(&slots).expect("two slots are available");
    assert!(earliest.availability);
    assert_eq!(earliest.start_time, b"02/02/2026 10:00".to_vec());
}

#[test]
fn earliest_available_is_none_without_bookable_slots() {
    assert!(earliest_available(&Vec::new()).is_none());
    let blocked = vec![slot(false, "01/01/2026 08:00")];
    assert!(earliest_available(&blocked).is_none());
}
