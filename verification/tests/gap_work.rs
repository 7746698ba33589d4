use std::collections::BTreeMap;

use schemweave::gap_work::{
    global_gap_candidate_work_within_budget, large_gap_hot_access_work_with_limit,
    refined_large_gap_candidate_work_within_budget,
};

fn identity_lanes(count: u32) -> BTreeMap<u32, usize> {
    (0..count).map(|net| (net, net as usize)).collect()
}

fn unit_counts(count: u32) -> BTreeMap<u32, usize> {
    (0..count).map(|net| (net, 1)).collect()
}

#[test]
fn hot_access_work_charges_hot_and_cold_verticals() {
    let lanes = identity_lanes(40);
    let counts = unit_counts(40);
    // 3 hot verticals against 39 other lanes, 37 cold verticals against 3
    // hot nets, 2 repeats of 3 hot verticals, both directions.
    assert_eq!(
        large_gap_hot_access_work_with_limit(&lanes, &counts, &[0, 1, 2, 3, 4], 3),
        Some(2 * (39 * 3 + 3 * 37 + 2 * 3))
    );
    assert_eq!(
        large_gap_hot_access_work_with_limit(&lanes, &counts, &[0, 1, 2], 32),
        Some(468)
    );
    assert_eq!(
        large_gap_hot_access_work_with_limit(&BTreeMap::from([(1, 0), (2, 1)]), &BTreeMap::from([(1, usize::MAX)]), &[1, 2], 32),
        None
    );
    assert_eq!(
        large_gap_hot_access_work_with_limit(&BTreeMap::new(), &BTreeMap::new(), &[], 32),
        None
    );
}

#[test]
fn global_work_counts_only_eligible_gaps() {
    let lanes = vec![BTreeMap::from([(1, 0), (2, 1), (3, 2)]), BTreeMap::from([(5, 0)]), identity_lanes(40)];
    let counts = vec![
        BTreeMap::from([(1, 2), (2, 1), (3, 4), (9, 1)]),
        BTreeMap::from([(5, 3)]),
        unit_counts(40),
    ];
    let ranked = vec![vec![3, 1, 2], vec![5], vec![0, 1, 2]];
    assert!(global_gap_candidate_work_within_budget(&lanes, &counts, &ranked, false));
    assert!(global_gap_candidate_work_within_budget(&lanes, &counts, &ranked, true));

    let heavy = vec![BTreeMap::from([(1, 200_000)])];
    assert!(!global_gap_candidate_work_within_budget(&lanes[..1], &heavy, &ranked[..1], false));
    let light = vec![BTreeMap::from([(1, 125_000)])];
    assert!(global_gap_candidate_work_within_budget(&lanes[..1], &light, &ranked[..1], false));
}

#[test]
fn global_pair_budget_is_inclusive() {
    // 66 gaps of 32 nets charge 66 * 496 = 32_736 pairs; one more exceeds 32_768.
    let gaps = |count: usize| vec![identity_lanes(32); count];
    let counts = |count: usize| vec![BTreeMap::new(); count];
    let ranked = |count: usize| vec![Vec::new(); count];
    assert!(global_gap_candidate_work_within_budget(&gaps(66), &counts(66), &ranked(66), false));
    assert!(!global_gap_candidate_work_within_budget(&gaps(67), &counts(67), &ranked(67), false));
}

#[test]
fn refined_lane_work_admits_two_maximum_gaps() {
    let gaps = |count: usize| vec![identity_lanes(705); count];
    let counts = |count: usize| vec![BTreeMap::new(); count];
    let ranked = |count: usize| vec![Vec::new(); count];
    assert!(refined_large_gap_candidate_work_within_budget(&gaps(2), &counts(2), &ranked(2)));
    assert!(!refined_large_gap_candidate_work_within_budget(&gaps(3), &counts(3), &ranked(3)));
    let small = vec![identity_lanes(32); 10];
    assert!(refined_large_gap_candidate_work_within_budget(&small, &counts(10), &ranked(10)));
}
