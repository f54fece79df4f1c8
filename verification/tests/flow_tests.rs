use slotwatch::{extract_payload, FlowAction, FlowEvent, FlowMachine, TimeSlot};

fn ids(names: &[&str]) -> Vec<Vec<u8>> {
    names.iter().map(|n| n.as_bytes().to_vec()).collect()
}

fn captured(start: &str) -> FlowEvent {
    FlowEvent::Captured {
        date: Some(b"1/1/2026".to_vec()),
        slots: vec![TimeSlot {
            availability: true,
            slot_number: Some(1),
            start_time: start.as_bytes().to_vec(),
        }],
    }
}

#[test]
fn happy_path_captures_every_location() {
    let mut m = FlowMachine::new(ids(&["A", "B"]));
    assert_eq!(m.next_action(), FlowAction::Login);
    m.step(FlowEvent::Performed);
    assert_eq!(m.next_action(), FlowAction::SelectBookingType);
    m.step(FlowEvent::Performed);
    assert_eq!(m.next_action(), FlowAction::OpenLocation { index: 0 });
    m.step(FlowEvent::Performed);
    assert_eq!(m.next_action(), FlowAction::CaptureSlots { index: 0 });
    m.step(captured("1/1/2026 10:00"));
    assert_eq!(m.next_action(), FlowAction::OpenLocation { index: 1 });
    m.step(FlowEvent::Performed);
    m.step(captured("2/1/2026 11:00"));
    assert!(!m.is_active());
    let results = m.into_results();
    assert_eq!(results.len(), 2);
    assert_eq!(results[0].location, b"A".to_vec());
    assert_eq!(results[1].location, b"B".to_vec());
    assert_eq!(results[1].slots[0].start_time, b"2/1/2026 11:00".to_vec());
}

#[test]
fn one_failed_location_is_skipped_after_recovery() {
    let mut m = FlowMachine::new(ids(&["A", "B"]));
    m.step(FlowEvent::Performed);
    m.step(FlowEvent::Performed);
    // Selecting location A fails; recovery succeeds; the loop goes on
    // with B and A stays absent from the result.
    m.step(FlowEvent::Failed);
    assert_eq!(m.next_action(), FlowAction::Recover { index: 0 });
    m.step(FlowEvent::Recovered);
    assert_eq!(m.next_action(), FlowAction::OpenLocation { index: 1 });
    m.step(FlowEvent::Performed);
    m.step(captured("2/1/2026 11:00"));
    assert!(!m.is_active());
    let results = m.into_results();
    assert_eq!(results.len(), 1);
    assert_eq!(results[0].location, b"B".to_vec());
}

#[test]
fn failed_recovery_ends_the_session_with_partial_results() {
    let mut m = FlowMachine::new(ids(&["A", "B", "C"]));
    m.step(FlowEvent::Performed);
    m.step(FlowEvent::Performed);
    m.step(FlowEvent::Performed);
    m.step(captured("1/1/2026 10:00"));
    // B's capture fails and the recovery control is unavailable: the rest
    // of the session's locations are given up.
    m.step(FlowEvent::Performed);
    m.step(FlowEvent::Failed);
    m.step(FlowEvent::Unrecoverable);
    assert!(!m.is_active());
    let results = m.into_results();
    assert_eq!(results.len(), 1);
    assert_eq!(results[0].location, b"A".to_vec());
}

#[test]
fn login_failure_captures_nothing() {
    let mut m = FlowMachine::new(ids(&["A"]));
    m.step(FlowEvent::Failed);
    assert!(!m.is_active());
    assert_eq!(m.into_results().len(), 0);
}

#[test]
fn payload_with_expected_fields_is_extracted() {
    let text = "{\"ajaxresult\":{\"slots\":{\"nextAvailableDate\":\"18/09/2025\",\"listTimeSlot\":[{\"availability\":true,\"slot_number\":7,\"startTime\":\"18/09/2025 10:15\"}]}}}";
    let (date, slots) = extract_payload(&text.as_bytes().to_vec());
    assert_eq!(date, Some(b"18/09/2025".to_vec()));
    assert_eq!(slots.len(), 1);
    assert!(slots[0].availability);
    assert_eq!(slots[0].slot_number, Some(7));
    assert_eq!(slots[0].start_time, b"18/09/2025 10:15".to_vec());
}

#[test]
fn payload_without_expected_fields_yields_empty_slots() {
    let (date, slots) = extract_payload(&b"{\"something\":\"else\"}".to_vec());
    assert_eq!(date, None);
    assert_eq!(slots.len(), 0);
    let (date2, slots2) = extract_payload(&b"".to_vec());
    assert_eq!(date2, None);
    assert_eq!(slots2.len(), 0);
}

#[test]
fn payload_with_null_date_and_empty_list() {
    let text = "{\"ajaxresult\":{\"slots\":{\"nextAvailableDate\":null,\"listTimeSlot\":[]}}}";
    let (date, slots) = extract_payload(&text.as_bytes().to_vec());
    assert_eq!(date, None);
    assert_eq!(slots.len(), 0);
}
