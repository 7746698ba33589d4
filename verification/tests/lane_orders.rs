use std::collections::{BTreeMap, BTreeSet};

use schemweave::gap_order::crossing_aware_gap_lane_indices_with_rounds;
use schemweave::global_order::{global_gap_lane_indices_with_rounds, global_gap_order_seed};
use schemweave::outer::crossing_aware_outer_lane_indices_with_rounds;

fn prefer_ascending(left: u32, right: u32) -> usize {
    if left > right {
        5
    } else {
        1
    }
}

fn prefer_descending(left: u32, right: u32) -> usize {
    if left < right {
        5
    } else {
        1
    }
}

fn modular_cost(left: u32, right: u32) -> usize {
    ((left * 7 + right * 3) % 11) as usize
}

#[test]
fn gap_lanes_start_from_the_current_order_and_refine() {
    let current = BTreeMap::from([(10, 2), (20, 0), (30, 1)]);
    assert_eq!(
        crossing_aware_gap_lane_indices_with_rounds(&current, prefer_ascending, 8),
        BTreeMap::from([(10, 0), (20, 1), (30, 2)])
    );
    assert_eq!(
        crossing_aware_gap_lane_indices_with_rounds(&current, prefer_ascending, 1),
        BTreeMap::from([(20, 0), (10, 1), (30, 2)])
    );
    assert_eq!(
        crossing_aware_gap_lane_indices_with_rounds(&BTreeMap::new(), prefer_ascending, 3),
        BTreeMap::new()
    );
}

#[test]
fn outer_lanes_start_in_net_order_and_refine() {
    let nets = BTreeSet::from([7, 3, 5]);
    assert_eq!(
        crossing_aware_outer_lane_indices_with_rounds(&nets, prefer_descending, 8),
        BTreeMap::from([(7, 0), (5, 1), (3, 2)])
    );
    assert_eq!(
        crossing_aware_outer_lane_indices_with_rounds(&nets, prefer_descending, 0),
        BTreeMap::from([(3, 0), (5, 1), (7, 2)])
    );
}

#[test]
fn tournament_seed_orders_by_score_then_lane_then_net() {
    let current = BTreeMap::from([(1, 0), (2, 1), (3, 2), (4, 3)]);
    assert_eq!(global_gap_order_seed(&current, modular_cost), Some(vec![3, 1, 4, 2]));
    assert_eq!(global_gap_order_seed(&BTreeMap::from([(1, 0)]), modular_cost), None);
    assert_eq!(
        global_gap_order_seed(&BTreeMap::from([(4, 0), (3, 1), (2, 2)]), prefer_ascending),
        Some(vec![2, 3, 4])
    );
    let too_many = (0..33u32).map(|net| (net, net as usize)).collect::<BTreeMap<_, _>>();
    assert_eq!(global_gap_order_seed(&too_many, modular_cost), None);
}

#[test]
fn tournament_scores_saturate() {
    let huge = |left: u32, _right: u32| if left == 1 { usize::MAX } else { 0 };
    assert_eq!(
        global_gap_order_seed(&BTreeMap::from([(1, 0), (2, 1), (3, 2)]), huge),
        Some(vec![2, 3, 1])
    );
}

#[test]
fn global_candidate_must_beat_the_baseline() {
    let identity = BTreeMap::from([(1, 0), (2, 1), (3, 2), (4, 3)]);
    assert_eq!(
        global_gap_lane_indices_with_rounds(&identity, modular_cost, 4, &identity, false, &[]),
        Some((BTreeMap::from([(3, 0), (1, 1), (4, 2), (2, 3)]), 2))
    );
    let reversed = BTreeMap::from([(1, 3), (2, 2), (3, 1), (4, 0)]);
    assert_eq!(
        global_gap_lane_indices_with_rounds(&reversed, modular_cost, 4, &reversed, false, &[]),
        Some((BTreeMap::from([(3, 0), (1, 1), (4, 2), (2, 3)]), 9))
    );
    let sorted = BTreeMap::from([(1, 0), (2, 1), (3, 2)]);
    assert_eq!(
        global_gap_lane_indices_with_rounds(&sorted, prefer_ascending, 4, &sorted, false, &[]),
        None
    );
    let unsorted = BTreeMap::from([(3, 0), (2, 1), (1, 2)]);
    assert_eq!(
        global_gap_lane_indices_with_rounds(&unsorted, prefer_ascending, 4, &unsorted, false, &[]),
        Some((BTreeMap::from([(1, 0), (2, 1), (3, 2)]), 12))
    );
    assert_eq!(
        global_gap_lane_indices_with_rounds(&BTreeMap::from([(5, 0)]), prefer_ascending, 4, &sorted, false, &[]),
        None
    );
}

#[test]
fn large_global_candidate_moves_hot_nets() {
    let large = (0..34u32).map(|net| (net, net as usize)).collect::<BTreeMap<_, _>>();
    let push_zero_out = |left: u32, right: u32| if left == 0 && right != 0 { 10 } else { 1 };
    let mut expected = (1..34u32).map(|net| (net, net as usize - 1)).collect::<BTreeMap<_, _>>();
    expected.insert(0, 33);
    assert_eq!(
        global_gap_lane_indices_with_rounds(&large, push_zero_out, 4, &large, true, &[0]),
        Some((expected, 330 - 33))
    );
    assert_eq!(
        global_gap_lane_indices_with_rounds(&large, push_zero_out, 4, &large, false, &[0]),
        None
    );
}
