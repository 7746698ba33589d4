use std::collections::BTreeMap;

use schemweave::gap_candidates::{crossing_aware_gap_lanes, same_lane_vectors, same_lanes};

fn strongly_ascending(left: u32, right: u32) -> usize {
    if left > right {
        500
    } else {
        100
    }
}

fn moderately_ascending(left: u32, right: u32) -> usize {
    if left > right {
        55
    } else {
        11
    }
}

fn weakly_ascending(left: u32, right: u32) -> usize {
    if left > right {
        5
    } else {
        1
    }
}

type Cost = fn(u32, u32) -> usize;

fn descending_gap() -> BTreeMap<u32, usize> {
    BTreeMap::from([(3, 0), (2, 1), (1, 2)])
}

fn unit_counts() -> BTreeMap<u32, usize> {
    BTreeMap::from([(1, 1), (2, 1), (3, 1)])
}

#[test]
fn gap_candidates_keep_a_global_order_with_enough_gain() {
    let costs: Vec<Cost> = vec![strongly_ascending];
    let candidates = crossing_aware_gap_lanes(
        &[descending_gap()],
        &costs,
        &[unit_counts()],
        &[vec![1, 2, 3]],
        0,
        true,
        false,
        false,
    );
    assert_eq!(candidates.baseline, vec![descending_gap()]);
    assert_eq!(candidates.global, Some(vec![BTreeMap::from([(1, 0), (2, 1), (3, 2)])]));
    assert_eq!(candidates.preserved_refined, None);
    assert_eq!(candidates.refined, None);
}

#[test]
fn gap_candidates_drop_a_global_order_with_too_little_gain() {
    let costs: Vec<Cost> = vec![weakly_ascending];
    let candidates = crossing_aware_gap_lanes(
        &[descending_gap()],
        &costs,
        &[unit_counts()],
        &[vec![1, 2, 3]],
        0,
        true,
        false,
        false,
    );
    assert_eq!(candidates.baseline, vec![descending_gap()]);
    assert_eq!(candidates.global, None);
}

#[test]
fn gap_candidates_sum_gains_over_gaps() {
    let one: Vec<Cost> = vec![moderately_ascending];
    let alone = crossing_aware_gap_lanes(&[descending_gap()], &one, &[unit_counts()], &[vec![1, 2, 3]], 0, true, false, false);
    assert_eq!(alone.global, None);
    let two: Vec<Cost> = vec![moderately_ascending, moderately_ascending];
    let together = crossing_aware_gap_lanes(
        &[descending_gap(), descending_gap()],
        &two,
        &[unit_counts(), unit_counts()],
        &[vec![1, 2, 3], vec![1, 2, 3]],
        0,
        true,
        false,
        false,
    );
    let ascending = BTreeMap::from([(1, 0), (2, 1), (3, 2)]);
    assert_eq!(together.global, Some(vec![ascending.clone(), ascending]));
}

#[test]
fn gap_candidates_without_global_candidates_keep_only_the_baseline() {
    let costs: Vec<Cost> = vec![moderately_ascending];
    let candidates = crossing_aware_gap_lanes(
        &[descending_gap()],
        &costs,
        &[unit_counts()],
        &[vec![1, 2, 3]],
        1,
        false,
        true,
        true,
    );
    assert_eq!(candidates.baseline, vec![BTreeMap::from([(2, 0), (1, 1), (3, 2)])]);
    assert_eq!(candidates.global, None);
    assert_eq!(candidates.preserved_refined, None);
    assert_eq!(candidates.refined, None);
}

#[test]
fn gap_candidates_of_small_gaps_add_no_refined_candidates() {
    let costs: Vec<Cost> = vec![strongly_ascending];
    let candidates = crossing_aware_gap_lanes(
        &[descending_gap()],
        &costs,
        &[unit_counts()],
        &[vec![1, 2, 3]],
        0,
        true,
        true,
        true,
    );
    assert_eq!(candidates.global, Some(vec![BTreeMap::from([(1, 0), (2, 1), (3, 2)])]));
    assert_eq!(candidates.preserved_refined, None);
    assert_eq!(candidates.refined, None);
}

#[test]
fn gap_candidates_over_the_access_budget_keep_only_the_baseline() {
    let costs: Vec<Cost> = vec![strongly_ascending];
    let heavy = BTreeMap::from([(1, 200_000), (2, 0), (3, 0)]);
    let candidates =
        crossing_aware_gap_lanes(&[descending_gap()], &costs, &[heavy], &[vec![1, 2, 3]], 0, true, false, false);
    assert_eq!(candidates.baseline, vec![descending_gap()]);
    assert_eq!(candidates.global, None);
}

#[test]
fn gap_candidates_cover_the_gaps_that_have_accesses() {
    let costs: Vec<Cost> = vec![strongly_ascending];
    let candidates = crossing_aware_gap_lanes(
        &[descending_gap(), descending_gap()],
        &costs,
        &[unit_counts()],
        &[vec![1, 2, 3]],
        0,
        true,
        false,
        false,
    );
    assert_eq!(candidates.baseline, vec![descending_gap()]);
    assert_eq!(candidates.global, Some(vec![BTreeMap::from([(1, 0), (2, 1), (3, 2)])]));
}

#[test]
fn lane_maps_compare_by_entries() {
    let a = BTreeMap::from([(1, 0), (2, 1)]);
    assert!(same_lanes(&a, &BTreeMap::from([(2, 1), (1, 0)])));
    assert!(!same_lanes(&a, &BTreeMap::from([(1, 1), (2, 0)])));
    assert!(!same_lanes(&a, &BTreeMap::from([(1, 0), (3, 1)])));
    assert!(!same_lanes(&a, &BTreeMap::from([(1, 0)])));
    assert!(same_lane_vectors(&vec![a.clone(), BTreeMap::new()], &vec![a.clone(), BTreeMap::new()]));
    assert!(!same_lane_vectors(&vec![a.clone()], &vec![a.clone(), a.clone()]));
    assert!(!same_lane_vectors(&vec![a.clone()], &vec![BTreeMap::new()]));
}
