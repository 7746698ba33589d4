use std::collections::BTreeMap;

use schemweave::lanes::move_nets_to_outer_lanes;

#[test]
fn batched_hot_net_move_preserves_lane_permutations_and_priority_order() {
    let current = vec![
        BTreeMap::from([(1, 1), (2, 0), (3, 2)]),
        BTreeMap::from([(1, 0), (2, 2), (3, 1)]),
        BTreeMap::from([(1, 2), (2, 1), (3, 0), (4, 3)]),
    ];

    let moved = move_nets_to_outer_lanes(&current, &[2, 1]).unwrap();

    assert_eq!(moved[0], BTreeMap::from([(1, 2), (2, 1), (3, 0)]));
    assert_eq!(moved[1], BTreeMap::from([(1, 2), (2, 1), (3, 0)]));
    assert_eq!(moved[2], BTreeMap::from([(1, 3), (2, 2), (3, 0), (4, 1)]));
    for (before, after) in current.iter().zip(&moved) {
        assert_eq!(
            before.keys().collect::<Vec<_>>(),
            after.keys().collect::<Vec<_>>()
        );
        let mut lanes = after.values().copied().collect::<Vec<_>>();
        lanes.sort_unstable();
        assert_eq!(lanes, (0..after.len()).collect::<Vec<_>>());
    }
    assert!(move_nets_to_outer_lanes(&moved, &[2, 1]).is_none());
    assert!(move_nets_to_outer_lanes(&current, &[]).is_none());
    assert_eq!(
        move_nets_to_outer_lanes(&current, &[2]).unwrap()[0],
        BTreeMap::from([(1, 0), (2, 2), (3, 1)])
    );
}

use std::collections::BTreeSet;

use schemweave::budget::{
    MAX_BATCHED_CROSSING_REPAIR_NETS, MIN_CROSSING_REPAIR_NET, MIN_CROSSING_REPAIR_TOTAL,
    repair_selection_adds_new_nets,
};
use schemweave::lanes::{lane_indices, select_crossing_repair_nets};

#[test]
fn repair_selector_honors_thresholds_ties_and_movable_runner_up() {
    assert!(repair_selection_adds_new_nets(2, 2));
    assert!(!repair_selection_adds_new_nets(4, 2));
    assert!(repair_selection_adds_new_nets(4, 3));

    let lanes = vec![BTreeMap::from([(1, 2), (2, 0), (3, 1)])];
    let counts = BTreeMap::from([
        (1, MIN_CROSSING_REPAIR_NET + 20),
        (2, MIN_CROSSING_REPAIR_NET),
        (3, MIN_CROSSING_REPAIR_NET),
    ]);

    assert_eq!(
        select_crossing_repair_nets(
            MIN_CROSSING_REPAIR_TOTAL,
            &counts,
            &lanes,
            MAX_BATCHED_CROSSING_REPAIR_NETS,
        ),
        vec![2, 3]
    );
    assert_eq!(
        select_crossing_repair_nets(
            MIN_CROSSING_REPAIR_TOTAL - 1,
            &counts,
            &lanes,
            MAX_BATCHED_CROSSING_REPAIR_NETS,
        ),
        Vec::<u32>::new()
    );
    assert_eq!(
        select_crossing_repair_nets(
            MIN_CROSSING_REPAIR_TOTAL,
            &BTreeMap::from([(2, MIN_CROSSING_REPAIR_NET - 1)]),
            &lanes,
            MAX_BATCHED_CROSSING_REPAIR_NETS,
        ),
        Vec::<u32>::new()
    );
}

#[test]
fn repair_selector_keeps_the_highest_counts_in_priority_order() {
    let lanes = vec![
        BTreeMap::from([(1, 0), (2, 1), (3, 2), (4, 3), (5, 4)]),
        BTreeMap::from([(5, 0), (6, 1)]),
    ];
    let counts = BTreeMap::from([
        (1, 70),
        (2, 90),
        (3, 90),
        (4, 200),
        (5, 300),
        (6, 400),
        (7, 500),
    ]);
    // Net 6 and net 7 are never movable: 6 is outermost in its only gap and 7
    // has no lane. Net 5 is outermost in the first gap but movable in the second.
    assert_eq!(
        select_crossing_repair_nets(1_000, &counts, &lanes, 3),
        vec![5, 4, 2]
    );
    assert_eq!(
        select_crossing_repair_nets(1_000, &counts, &lanes, 10),
        vec![5, 4, 2, 3, 1]
    );
    assert_eq!(
        select_crossing_repair_nets(1_000, &counts, &lanes, 0),
        Vec::<u32>::new()
    );
}

#[test]
fn single_net_move_rotates_only_the_selected_net_outward() {
    let current = vec![BTreeMap::from([(10, 0), (20, 1), (30, 2)])];
    let moved = move_nets_to_outer_lanes(&current, &[10]).unwrap();
    assert_eq!(moved[0], BTreeMap::from([(10, 2), (20, 0), (30, 1)]));
    // A net that is not in any gap leaves every lane unchanged.
    assert!(move_nets_to_outer_lanes(&current, &[99]).is_none());
}

#[test]
fn lane_indices_number_nets_in_increasing_order() {
    assert_eq!(
        lane_indices(&BTreeSet::from([30, 7, 12])),
        BTreeMap::from([(7, 0), (12, 1), (30, 2)])
    );
    assert_eq!(lane_indices(&BTreeSet::new()), BTreeMap::new());
}

#[test]
fn moving_the_same_nets_twice_changes_nothing() {
    let current = vec![
        BTreeMap::from([(10, 3), (11, 0), (12, 4), (13, 1), (14, 2)]),
        BTreeMap::from([(10, 0), (12, 1)]),
    ];
    let moved = move_nets_to_outer_lanes(&current, &[12, 13]).unwrap();
    assert_eq!(
        moved[0],
        BTreeMap::from([(10, 2), (11, 0), (12, 3), (13, 4), (14, 1)])
    );
    assert_eq!(moved[1], BTreeMap::from([(10, 0), (12, 1)]));
    assert!(move_nets_to_outer_lanes(&moved, &[12, 13]).is_none());
}
