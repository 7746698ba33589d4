use std::collections::BTreeMap;

use schemweave::gap_order::{
    gap_lane_order_candidate, gap_lane_order_cost, initial_large_gap_order, refine_gap_lane_order,
};

#[test]
fn initial_gap_order_sorts_by_lane_then_net() {
    let baseline = BTreeMap::from([(5, 2), (9, 0), (1, 1), (3, 1)]);
    assert_eq!(
        initial_large_gap_order(&baseline),
        vec![(9, 0), (1, 1), (3, 2), (5, 3)]
    );
    assert_eq!(initial_large_gap_order(&BTreeMap::new()), Vec::new());
}

#[test]
fn gap_order_candidate_numbers_nets_by_position() {
    assert_eq!(gap_lane_order_candidate(&[(4, 0), (2, 1)], 0), None);
    assert_eq!(
        gap_lane_order_candidate(&[(4, 7), (2, 3), (8, 0)], 5),
        Some((BTreeMap::from([(4, 0), (2, 1), (8, 2)]), 5))
    );
    assert_eq!(
        gap_lane_order_candidate(&[(4, 0), (2, 1), (4, 2)], 1),
        Some((BTreeMap::from([(4, 2), (2, 1)]), 1))
    );
}

fn table_cost(left: u32, right: u32) -> usize {
    // The cost of `left` lying below `right`: nets prefer ascending order, and
    // the pair (3, 1) is much worse than (1, 3).
    match (left, right) {
        (3, 1) => 10,
        (a, b) if a > b => 2,
        _ => 1,
    }
}

#[test]
fn refinement_sorts_by_adjacent_swaps_and_never_raises_the_cost() {
    let mut order = vec![3u32, 2, 1];
    let before = gap_lane_order_cost(&order, table_cost);
    assert_eq!(before, 2 + 10 + 2);
    refine_gap_lane_order(&mut order, 5, table_cost);
    assert_eq!(order, vec![1, 2, 3]);
    let after = gap_lane_order_cost(&order, table_cost);
    assert_eq!(after, 3);
    assert!(after < before);
}

#[test]
fn refinement_stops_after_the_allowed_rounds() {
    let mut order = vec![3u32, 2, 1];
    refine_gap_lane_order(&mut order, 1, table_cost);
    assert_eq!(order, vec![2, 1, 3]);
    let mut unchanged = vec![3u32, 2, 1];
    refine_gap_lane_order(&mut unchanged, 0, table_cost);
    assert_eq!(unchanged, vec![3, 2, 1]);
    let mut single = vec![7u32];
    refine_gap_lane_order(&mut single, 4, table_cost);
    assert_eq!(single, vec![7]);
}

#[test]
fn order_cost_saturates() {
    let order = vec![1u32, 2, 3];
    assert_eq!(gap_lane_order_cost(&order, |_, _| usize::MAX / 2), usize::MAX);
    assert_eq!(gap_lane_order_cost(&[], |_, _| 5), 0);
    assert_eq!(gap_lane_order_cost(&[4], |_, _| 5), 0);
    assert_eq!(gap_lane_order_cost(&[4, 5], |_, _| 5), 5);
}
