use std::collections::BTreeMap;

use schemweave::budget::{
    MAX_CROSSING_REPAIR_LANE_MEMBERSHIPS, MAX_CROSSING_REPAIR_PATH_STATES, crossing_repair_within_budget,
};
use schemweave::budget::{
    MAX_CROSSING_REPAIR_EDGES, MAX_CROSSING_REPAIR_NODES, MAX_CROSSING_REPAIR_ROUTE_POINTS,
    MAX_EXPANDED_GAP_SPACING_EDGES, MAX_EXPANDED_GAP_SPACING_MAX_NODES,
    MAX_EXPANDED_GAP_SPACING_NODES, MAX_HORIZONTAL_PITCH_EDGES, MAX_HORIZONTAL_PITCH_NODES,
    MAX_HORIZONTAL_PITCH_OVERRIDES, MAX_HORIZONTAL_PITCH_PATH_POINTS,
    MAX_HORIZONTAL_PITCH_RANK_VISITS, MAX_HORIZONTAL_PITCH_TRACK_KEYS,
    MAX_HORIZONTAL_PITCH_TRACK_MEMBERSHIPS, MAX_NEGOTIATED_CORRIDOR_PATH_STATES,
    MAX_NEGOTIATED_CORRIDOR_RELATIONS, MAX_NEGOTIATED_CORRIDOR_RELAXATIONS,
    MAX_NEGOTIATED_CORRIDOR_SEGMENT_VISITS, MAX_PITCHED_GAP_SUBSET_CANDIDATES,
    MAX_PITCHED_GAP_SUBSET_ROUTE_POINT_VISITS, MAX_REGIONAL_FANOUT_ARM_RELATIONS,
    MAX_REGIONAL_FANOUT_ROUTE_POINTS, MAX_REGIONAL_FANOUT_SAFETY_VISITS,
    MAX_REGIONAL_FANOUT_SCORE_VISITS, candidate_route_points_within_budget,
    charge_horizontal_pitch_work, charge_negotiated_relations, charge_negotiated_work,
    charge_regional_relation, charge_regional_work, expanded_gap_spacing_enabled,
    horizontal_pitch_ordered_lookup_work, horizontal_pitch_retained_counts_within_bounds,
    horizontal_pitch_shape_counts_within_bounds, large_gap_hot_access_work_from_counts,
    pitched_gap_subset_work_is_bounded, regional_safety_work_within_budget,
    repair_selection_adds_new_nets, route_family_candidate_shape_within_budget,
    route_family_candidate_within_budget, sum_within_limit,
};
use schemweave::graph::EdgeGeometry;

#[derive(Debug, PartialEq)]
struct Point {
    x: f64,
    y: f64,
}

#[test]
fn horizontal_pitch_work_and_retained_state_caps_are_exact_and_fail_closed() {
    let mut visits = 0;
    assert_eq!(
        charge_horizontal_pitch_work(&mut visits, MAX_HORIZONTAL_PITCH_RANK_VISITS),
        Some(())
    );
    assert_eq!(visits, MAX_HORIZONTAL_PITCH_RANK_VISITS);
    assert_eq!(charge_horizontal_pitch_work(&mut visits, 1), None);
    assert_eq!(visits, MAX_HORIZONTAL_PITCH_RANK_VISITS + 1);

    assert!(horizontal_pitch_shape_counts_within_bounds(
        MAX_HORIZONTAL_PITCH_NODES,
        MAX_HORIZONTAL_PITCH_EDGES,
        MAX_HORIZONTAL_PITCH_PATH_POINTS,
    ));
    for counts in [
        (
            MAX_HORIZONTAL_PITCH_NODES + 1,
            MAX_HORIZONTAL_PITCH_EDGES,
            MAX_HORIZONTAL_PITCH_PATH_POINTS,
        ),
        (
            MAX_HORIZONTAL_PITCH_NODES,
            MAX_HORIZONTAL_PITCH_EDGES + 1,
            MAX_HORIZONTAL_PITCH_PATH_POINTS,
        ),
        (
            MAX_HORIZONTAL_PITCH_NODES,
            MAX_HORIZONTAL_PITCH_EDGES,
            MAX_HORIZONTAL_PITCH_PATH_POINTS + 1,
        ),
    ] {
        assert!(!horizontal_pitch_shape_counts_within_bounds(
            counts.0, counts.1, counts.2,
        ));
    }

    assert!(horizontal_pitch_retained_counts_within_bounds(
        MAX_HORIZONTAL_PITCH_TRACK_KEYS,
        MAX_HORIZONTAL_PITCH_TRACK_MEMBERSHIPS,
        MAX_HORIZONTAL_PITCH_OVERRIDES,
    ));
    for counts in [
        (
            MAX_HORIZONTAL_PITCH_TRACK_KEYS + 1,
            MAX_HORIZONTAL_PITCH_TRACK_MEMBERSHIPS,
            MAX_HORIZONTAL_PITCH_OVERRIDES,
        ),
        (
            MAX_HORIZONTAL_PITCH_TRACK_KEYS,
            MAX_HORIZONTAL_PITCH_TRACK_MEMBERSHIPS + 1,
            MAX_HORIZONTAL_PITCH_OVERRIDES,
        ),
        (
            MAX_HORIZONTAL_PITCH_TRACK_KEYS,
            MAX_HORIZONTAL_PITCH_TRACK_MEMBERSHIPS,
            MAX_HORIZONTAL_PITCH_OVERRIDES + 1,
        ),
    ] {
        assert!(!horizontal_pitch_retained_counts_within_bounds(
            counts.0, counts.1, counts.2,
        ));
    }
}

#[test]
fn pitched_gap_subset_work_gate_has_exact_candidate_and_route_point_boundaries() {
    assert!(pitched_gap_subset_work_is_bounded(
        MAX_PITCHED_GAP_SUBSET_CANDIDATES,
        MAX_PITCHED_GAP_SUBSET_ROUTE_POINT_VISITS / MAX_PITCHED_GAP_SUBSET_CANDIDATES,
    ));
    assert!(!pitched_gap_subset_work_is_bounded(
        MAX_PITCHED_GAP_SUBSET_CANDIDATES + 1,
        0,
    ));
    assert!(!pitched_gap_subset_work_is_bounded(
        MAX_PITCHED_GAP_SUBSET_CANDIDATES,
        MAX_PITCHED_GAP_SUBSET_ROUTE_POINT_VISITS / MAX_PITCHED_GAP_SUBSET_CANDIDATES + 1,
    ));
    assert!(!pitched_gap_subset_work_is_bounded(2, usize::MAX,));
}

#[test]
fn repair_work_sum_is_inclusive_and_overflow_safe() {
    assert!(sum_within_limit(
        &[MAX_CROSSING_REPAIR_ROUTE_POINTS],
        MAX_CROSSING_REPAIR_ROUTE_POINTS,
    ));
    assert!(!sum_within_limit(
        &[MAX_CROSSING_REPAIR_ROUTE_POINTS, 1],
        MAX_CROSSING_REPAIR_ROUTE_POINTS,
    ));
    assert!(!sum_within_limit(&[usize::MAX, 1], usize::MAX,));

    assert!(candidate_route_points_within_budget(&vec![
        None;
        MAX_CROSSING_REPAIR_EDGES
    ]));
    assert!(!candidate_route_points_within_budget(&vec![
        None;
        MAX_CROSSING_REPAIR_EDGES + 1
    ]));
    let exact_sparse_span = (MAX_CROSSING_REPAIR_ROUTE_POINTS - 8) / 2;
    assert!(candidate_route_points_within_budget(&[Some((
        0,
        exact_sparse_span,
    ))]));
    assert!(!candidate_route_points_within_budget(&[Some((
        0,
        exact_sparse_span + 1,
    ))]));
    assert!(!candidate_route_points_within_budget(&[Some((
        0,
        usize::MAX,
    ))]));
}

#[test]
fn expanded_gap_spacing_has_an_explicit_small_graph_budget() {
    assert!(!expanded_gap_spacing_enabled(false, false, 1, 1, true));
    assert!(expanded_gap_spacing_enabled(
        true,
        false,
        MAX_EXPANDED_GAP_SPACING_NODES,
        MAX_EXPANDED_GAP_SPACING_EDGES,
        true
    ));
    assert!(!expanded_gap_spacing_enabled(
        true,
        false,
        MAX_EXPANDED_GAP_SPACING_NODES + 1,
        1,
        true
    ));
    assert!(expanded_gap_spacing_enabled(
        true,
        true,
        MAX_EXPANDED_GAP_SPACING_MAX_NODES,
        MAX_EXPANDED_GAP_SPACING_EDGES,
        true
    ));
    assert!(!expanded_gap_spacing_enabled(
        true,
        true,
        MAX_EXPANDED_GAP_SPACING_MAX_NODES + 1,
        1,
        true
    ));
    assert!(!expanded_gap_spacing_enabled(
        true,
        true,
        1,
        MAX_EXPANDED_GAP_SPACING_EDGES + 1,
        true
    ));
    assert!(!expanded_gap_spacing_enabled(true, true, 1, 1, false));
}

#[test]
fn negotiated_corridor_work_and_admission_boundaries_are_exact() {
    let mut states = MAX_NEGOTIATED_CORRIDOR_PATH_STATES;
    assert_eq!(
        charge_negotiated_work(&mut states, MAX_NEGOTIATED_CORRIDOR_PATH_STATES),
        Some(()),
    );
    assert_eq!(charge_negotiated_work(&mut states, 1), None);

    let mut relaxations = MAX_NEGOTIATED_CORRIDOR_RELAXATIONS;
    assert_eq!(
        charge_negotiated_work(&mut relaxations, MAX_NEGOTIATED_CORRIDOR_RELAXATIONS),
        Some(()),
    );
    assert_eq!(charge_negotiated_work(&mut relaxations, 1), None);

    let mut visits = MAX_NEGOTIATED_CORRIDOR_SEGMENT_VISITS;
    assert_eq!(
        charge_negotiated_work(&mut visits, MAX_NEGOTIATED_CORRIDOR_SEGMENT_VISITS),
        Some(()),
    );
    assert_eq!(charge_negotiated_work(&mut visits, 1), None);

    let mut relations = MAX_NEGOTIATED_CORRIDOR_RELATIONS - 1;
    assert_eq!(charge_negotiated_relations(&mut relations, 1), Some(()));
    assert_eq!(charge_negotiated_relations(&mut relations, 1), None);
    let mut overflow = usize::MAX;
    assert_eq!(charge_negotiated_relations(&mut overflow, 1), None);
}

#[test]
fn regional_fanout_work_and_geometry_guards_are_exact() {
    assert!(sum_within_limit(
        &[MAX_REGIONAL_FANOUT_ROUTE_POINTS],
        MAX_REGIONAL_FANOUT_ROUTE_POINTS,
    ));
    assert!(!sum_within_limit(
        &[MAX_REGIONAL_FANOUT_ROUTE_POINTS, 1],
        MAX_REGIONAL_FANOUT_ROUTE_POINTS,
    ));

    let mut relations = MAX_REGIONAL_FANOUT_ARM_RELATIONS - 1;
    assert_eq!(charge_regional_relation(&mut relations), Some(()));
    assert_eq!(charge_regional_relation(&mut relations), None);

    let mut remaining = MAX_REGIONAL_FANOUT_SCORE_VISITS;
    assert_eq!(
        charge_regional_work(&mut remaining, MAX_REGIONAL_FANOUT_SCORE_VISITS),
        Some(()),
    );
    assert_eq!(remaining, 0);
    assert_eq!(charge_regional_work(&mut remaining, 1), None);

    assert!(regional_safety_work_within_budget(
        1,
        MAX_REGIONAL_FANOUT_SAFETY_VISITS,
        0,
    ));
    assert!(!regional_safety_work_within_budget(
        1,
        MAX_REGIONAL_FANOUT_SAFETY_VISITS,
        1,
    ));
    assert!(!regional_safety_work_within_budget(usize::MAX, 2, 2));
}

#[test]
fn large_gap_work_gate_enforces_lane_pair_access_and_overflow_boundaries() {
    assert!(
        large_gap_hot_access_work_from_counts(usize::MAX, 32, 2, 0).is_none(),
        "checked arithmetic must reject overflow"
    );
    assert_eq!(large_gap_hot_access_work_from_counts(33, 0, 0, 0), Some(0));
}

#[test]
fn large_gap_access_work_counts_every_directional_pair() {
    // 32 other lanes against 5 hot verticals, 3 hot nets against 7 non-hot
    // verticals, and 2 repeated hot-to-hot walks of 5 verticals, both ways.
    assert_eq!(
        large_gap_hot_access_work_from_counts(33, 3, 5, 7),
        Some(2 * (32 * 5 + 3 * 7 + 2 * 5))
    );
    assert_eq!(large_gap_hot_access_work_from_counts(0, 0, 0, 0), None);
    assert_eq!(large_gap_hot_access_work_from_counts(1, 1, 0, 0), Some(0));
    assert_eq!(
        large_gap_hot_access_work_from_counts(2, 0, usize::MAX / 2, 0),
        Some(usize::MAX / 2 * 2)
    );
    assert_eq!(
        large_gap_hot_access_work_from_counts(2, 0, usize::MAX / 2 + 1, 0),
        None
    );
}

#[test]
fn negotiated_work_charge_keeps_the_budget_on_failure() {
    let mut remaining = 5;
    assert_eq!(charge_negotiated_work(&mut remaining, 6), None);
    assert_eq!(remaining, 5);
    assert_eq!(charge_negotiated_work(&mut remaining, 2), Some(()));
    assert_eq!(remaining, 3);

    let mut relations = MAX_NEGOTIATED_CORRIDOR_RELATIONS - 3;
    assert_eq!(charge_negotiated_relations(&mut relations, 5), None);
    assert_eq!(relations, MAX_NEGOTIATED_CORRIDOR_RELATIONS + 2);
    let mut overflow = usize::MAX - 1;
    assert_eq!(charge_negotiated_relations(&mut overflow, 2), None);
    assert_eq!(overflow, usize::MAX - 1);

    let mut regional = usize::MAX;
    assert_eq!(charge_regional_relation(&mut regional), None);
    assert_eq!(regional, usize::MAX);

    let mut pitch = usize::MAX;
    assert_eq!(charge_horizontal_pitch_work(&mut pitch, 1), None);
    assert_eq!(pitch, usize::MAX);
}

#[test]
fn ordered_lookup_work_is_the_bit_length_of_the_next_count() {
    assert_eq!(horizontal_pitch_ordered_lookup_work(0), 1);
    assert_eq!(horizontal_pitch_ordered_lookup_work(1), 2);
    assert_eq!(horizontal_pitch_ordered_lookup_work(2), 2);
    assert_eq!(horizontal_pitch_ordered_lookup_work(3), 3);
    assert_eq!(horizontal_pitch_ordered_lookup_work(1023), 11);
    assert_eq!(
        horizontal_pitch_ordered_lookup_work(usize::MAX - 1),
        usize::BITS as usize
    );
    assert_eq!(
        horizontal_pitch_ordered_lookup_work(usize::MAX),
        usize::BITS as usize
    );
}

#[test]
fn batched_repair_adds_nets_only_beyond_the_first_batch() {
    assert!(repair_selection_adds_new_nets(1, 0));
    assert!(repair_selection_adds_new_nets(4, 3));
    assert!(!repair_selection_adds_new_nets(4, 2));
}

#[test]
fn route_family_budget_counts_nodes_edges_and_points() {
    let routes = vec![
        EdgeGeometry {
            id: 1,
            points: (0..MAX_CROSSING_REPAIR_ROUTE_POINTS - 1)
                .map(|index| Point {
                    x: index as f64,
                    y: 0.0,
                })
                .collect(),
        },
        EdgeGeometry {
            id: 2,
            points: vec![Point { x: 0.0, y: 1.0 }],
        },
    ];
    assert!(route_family_candidate_within_budget(
        MAX_CROSSING_REPAIR_NODES,
        MAX_CROSSING_REPAIR_EDGES,
        &routes
    ));
    assert!(!route_family_candidate_within_budget(
        MAX_CROSSING_REPAIR_NODES + 1,
        MAX_CROSSING_REPAIR_EDGES,
        &routes
    ));
    assert!(!route_family_candidate_within_budget(
        MAX_CROSSING_REPAIR_NODES,
        MAX_CROSSING_REPAIR_EDGES + 1,
        &routes
    ));
    let mut longer = routes;
    longer[1].points.push(Point { x: 1.0, y: 1.0 });
    assert!(!route_family_candidate_within_budget(1, 1, &longer));

    assert!(route_family_candidate_shape_within_budget(
        MAX_CROSSING_REPAIR_NODES,
        MAX_CROSSING_REPAIR_EDGES,
        &[None, Some((2, 5))]
    ));
    assert!(!route_family_candidate_shape_within_budget(
        MAX_CROSSING_REPAIR_NODES + 1,
        1,
        &[None]
    ));
    assert!(!route_family_candidate_shape_within_budget(
        1,
        1,
        &[Some((5, 2))]
    ));
}

#[test]
fn repair_budget_enforces_node_and_actual_path_state_boundaries() {
    let empty_routes = Vec::<EdgeGeometry<(f64, f64)>>::new();
    let empty_lanes = Vec::<BTreeMap<u32, usize>>::new();
    let empty_spans = Vec::<Option<(usize, usize)>>::new();
    let empty_free = Vec::<Vec<(f64, f64)>>::new();
    assert!(crossing_repair_within_budget(
        MAX_CROSSING_REPAIR_NODES,
        0,
        &empty_routes,
        &empty_lanes,
        &empty_spans,
        &empty_free,
    ));
    assert!(!crossing_repair_within_budget(
        MAX_CROSSING_REPAIR_NODES + 1,
        0,
        &empty_routes,
        &empty_lanes,
        &empty_spans,
        &empty_free,
    ));

    let spans = vec![Some((0, 2))];
    let mut free_by_rank = vec![
        Vec::new(),
        vec![(0.0, 1.0); MAX_CROSSING_REPAIR_PATH_STATES + 1],
        Vec::new(),
    ];
    assert!(!crossing_repair_within_budget(
        0,
        1,
        &empty_routes,
        &empty_lanes,
        &spans,
        &free_by_rank,
    ));
    free_by_rank[1].pop();
    assert!(crossing_repair_within_budget(
        0,
        1,
        &empty_routes,
        &empty_lanes,
        &spans,
        &free_by_rank,
    ));
}

#[test]
fn repair_budget_counts_lanes_points_and_every_spanned_rank() {
    let no_routes = Vec::<EdgeGeometry<u8>>::new();
    let no_free = Vec::<Vec<u8>>::new();
    let lanes = |members: usize| vec![(0..members as u32).map(|net| (net, 0usize)).collect::<BTreeMap<_, _>>()];
    assert!(crossing_repair_within_budget(0, 0, &no_routes, &lanes(MAX_CROSSING_REPAIR_LANE_MEMBERSHIPS), &[], &no_free));
    assert!(!crossing_repair_within_budget(0, 0, &no_routes, &lanes(MAX_CROSSING_REPAIR_LANE_MEMBERSHIPS + 1), &[], &no_free));
    let routes = |points: usize| vec![EdgeGeometry { id: 0, points: vec![0u8; points] }];
    assert!(crossing_repair_within_budget(0, 0, &routes(MAX_CROSSING_REPAIR_ROUTE_POINTS), &[], &[], &no_free));
    assert!(!crossing_repair_within_budget(0, 0, &routes(MAX_CROSSING_REPAIR_ROUTE_POINTS + 1), &[], &[], &no_free));
    assert!(!crossing_repair_within_budget(0, MAX_CROSSING_REPAIR_EDGES + 1, &no_routes, &[], &[], &no_free));

    // Ranks strictly between the ends of every sparse span count; outer
    // edges count nothing.
    let half = MAX_CROSSING_REPAIR_PATH_STATES / 2;
    let free = vec![vec![0u8; 7], vec![0u8; half], vec![0u8; half], vec![0u8; 7]];
    assert!(crossing_repair_within_budget(0, 0, &no_routes, &[], &[Some((0, 3)), None], &free));
    assert!(!crossing_repair_within_budget(0, 0, &no_routes, &[], &[Some((0, 3)), Some((1, 3))], &free));
    // Once the budget is spent, later spans are not read.
    assert!(!crossing_repair_within_budget(0, 0, &no_routes, &[], &[Some((0, 3)), Some((0, 3)), Some((9, 2))], &free));
}
