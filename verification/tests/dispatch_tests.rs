use slotwatch::{
    merge_group_results, partition_groups, plan_groups, proxy_rotations, LocationBookings,
};

fn ids(names: &[&str]) -> Vec<Vec<u8>> {
    names.iter().map(|n| n.as_bytes().to_vec()).collect()
}

#[test]
fn round_robin_partition_strides_the_input() {
    let input = ids(&["a", "b", "c", "d", "e"]);
    let groups = partition_groups(&input, 2);
    assert_eq!(groups.len(), 2);
    assert_eq!(groups[0], ids(&["a", "c", "e"]));
    assert_eq!(groups[1], ids(&["b", "d"]));
}

#[test]
fn partition_with_more_groups_than_items() {
    let input = ids(&["a"]);
    let groups = partition_groups(&input, 3);
    assert_eq!(groups.len(), 3);
    assert_eq!(groups[0], ids(&["a"]));
    assert!(groups[1].is_empty());
    assert!(groups[2].is_empty());
}

#[test]
fn planned_groups_partition_the_input_exactly_once_each() {
    let input = ids(&["a", "b", "c", "d", "e", "f", "g"]);
    let parallelism = 3;
    let groups = plan_groups(input.clone(), parallelism);
    assert_eq!(groups.len(), parallelism);
    // Sizes differ by at most one.
    let sizes: Vec<usize> = groups.iter().map(|g| g.len()).collect();
    let min = sizes.iter().min().unwrap();
    let max = sizes.iter().max().unwrap();
    assert!(max - min <= 1);
    // The disjoint union is the input, exactly once each.
    let mut all: Vec<Vec<u8>> = groups.into_iter().flatten().collect();
    all.sort();
    let mut expected = input;
    expected.sort();
    assert_eq!(all, expected);
}

#[test]
fn proxy_rotations_cut_the_pool_in_order() {
    let pool = ids(&["p1", "p2", "p3", "p4", "p5"]);
    let rotations = proxy_rotations(&pool, 2);
    assert_eq!(rotations.len(), 3);
    assert_eq!(rotations[0], ids(&["p1", "p2"]));
    assert_eq!(rotations[1], ids(&["p3", "p4"]));
    assert_eq!(rotations[2], ids(&["p5"]));
    let none = proxy_rotations(&Vec::new(), 4);
    assert!(none.is_empty());
}

#[test]
fn merge_appends_the_group_results() {
    let mut cumulative: Vec<LocationBookings> = vec![LocationBookings {
        location: b"A".to_vec(),
        slots: vec![],
        next_available_date: None,
    }];
    let add = vec![LocationBookings {
        location: b"B".to_vec(),
        slots: vec![],
        next_available_date: None,
    }];
    merge_group_results(&mut cumulative, &add);
    assert_eq!(cumulative.len(), 2);
    assert_eq!(cumulative[0].location, b"A".to_vec());
    assert_eq!(cumulative[1].location, b"B".to_vec());
}
