use slotwatch::{
    env_ref, fnv1a_bytes, jitter_millis, jittered_delay, parse_proxy_list, truncate_body,
    Location, LocationManager,
};

#[test]
fn jitter_respects_the_window() {
    assert_eq!(jitter_millis(100, 100, 7), 100);
    assert_eq!(jitter_millis(200, 100, 7), 200);
    assert_eq!(jitter_millis(100, 200, 150), 150);
    assert_eq!(jitter_millis(100, 200, 5), 100);
    assert_eq!(jitter_millis(100, 200, 999), 100);
    for _ in 0..50 {
        let d = jittered_delay(60, 180);
        assert!((60..180).contains(&d));
    }
    assert_eq!(jittered_delay(500, 500), 500);
}

#[test]
fn content_hashing_matches_the_reference_values() {
    // FNV-1a with 64-bit offset basis and prime.
    assert_eq!(fnv1a_bytes(&Vec::new()), 14695981039346656037);
    assert_eq!(fnv1a_bytes(&b"a".to_vec()), 0xaf63dc4c8601ec8c);
    assert_eq!(fnv1a_bytes(&b"foobar".to_vec()), 0x85944171f73967e8);
}

#[test]
fn credential_indirection_is_recognized() {
    assert_eq!(env_ref(&b"${USERNAME}".to_vec()), Some(b"USERNAME".to_vec()));
    assert_eq!(env_ref(&b"${}".to_vec()), Some(Vec::new()));
    assert_eq!(env_ref(&b"${X}".to_vec()), Some(b"X".to_vec()));
    assert_eq!(env_ref(&b"plain-value".to_vec()), None);
    assert_eq!(env_ref(&b"${unclosed".to_vec()), None);
    assert_eq!(env_ref(&b"".to_vec()), None);
}

#[test]
fn proxy_lists_skip_empty_lines() {
    let file = b"one:8080\n\ntwo:8080\nthree:8080\n\n".to_vec();
    let proxies = parse_proxy_list(&file);
    assert_eq!(proxies, vec![b"one:8080".to_vec(), b"two:8080".to_vec(), b"three:8080".to_vec()]);
    assert!(parse_proxy_list(&b"".to_vec()).is_empty());
    assert_eq!(parse_proxy_list(&b"solo".to_vec()), vec![b"solo".to_vec()]);
}

#[test]
fn notification_bodies_are_truncated_safely() {
    let long = vec![65u8; 2000];
    let cut = truncate_body(&long, 1000);
    assert_eq!(cut.len(), 1000);
    let short = b"short".to_vec();
    assert_eq!(truncate_body(&short, 1000), short);
}

fn centre(id: u32, name: &str, lat: i64, lon: i64) -> Location {
    Location {
        id,
        name: name.as_bytes().to_vec(),
        latitude_udeg: lat,
        longitude_udeg: lon,
        passes: 10,
        failures: 5,
        pass_rate_ppm: 666_666,
    }
}

#[test]
fn a_location_at_the_observer_ranks_first_with_distance_zero() {
    let mut manager = LocationManager::new();
    let observer_lat = -33_868_820;
    let observer_lon = 151_209_295;
    assert!(manager.load(vec![
        centre(1, "Far", -30_000_000, 150_000_000),
        centre(2, "Here", observer_lat, observer_lon),
        centre(3, "Near", observer_lat + 1000, observer_lon - 1000),
    ]));
    let ranked = manager.get_by_distance(observer_lat, observer_lon);
    assert_eq!(ranked.len(), 3);
    assert_eq!(ranked[0].1, 0);
    assert_eq!(ranked[0].0.id, 2);
    assert!(ranked[0].1 <= ranked[1].1 && ranked[1].1 <= ranked[2].1);
    // Squared euclidean distance in microdegrees.
    assert_eq!(ranked[1].1, 1000 * 1000 + 1000 * 1000);
    assert_eq!(ranked[1].0.id, 3);
    assert_eq!(ranked[2].0.id, 1);
}

#[test]
fn locations_are_found_by_id() {
    let mut manager = LocationManager::new();
    assert!(manager.load(vec![centre(7, "A", 0, 0), centre(9, "B", 1000, 1000)]));
    assert_eq!(manager.get_by_id(9).expect("loaded").name, b"B".to_vec());
    assert!(manager.get_by_id(8).is_none());
    assert_eq!(manager.get_all().len(), 2);
}

#[test]
fn out_of_range_coordinates_are_rejected() {
    let mut manager = LocationManager::new();
    assert!(!manager.load(vec![centre(1, "Bad", 95_000_000, 0)]));
    assert_eq!(manager.get_all().len(), 0);
}
