use std::collections::{BTreeMap, BTreeSet};

use schemweave::graph::{Edge, Endpoint, PortSide};
use schemweave::outer::{OuterLane, OuterSide};
use schemweave::plan::{
    IndexedGraph, RoutingPlan, fanout_edges_in_range, fanout_outer_channel_lane_indices,
    has_split_feedback_net, regional_fanout_edges, select_negotiated_corridor_nets, shared_endpoints,
    sparse_spans,
};
use schemweave::budget::{MAX_ORDINARY_FANOUT_EDGES, MIN_ORDINARY_FANOUT_EDGES};

struct FixtureNode {
    id: u32,
    side: Option<PortSide>,
}

fn index_graph(nodes: &[FixtureNode], edges: Vec<Edge>) -> IndexedGraph {
    IndexedGraph {
        rank_edges: edges.iter().map(|edge| edge.participates_in_ranking).collect(),
        edges,
        node_index: nodes
            .iter()
            .enumerate()
            .map(|(index, node)| (node.id, index))
            .collect(),
        ports: nodes
            .iter()
            .map(|node| match node.side {
                Some(side) => BTreeMap::from([(0, side)]),
                None => BTreeMap::new(),
            })
            .collect(),
    }
}

fn fanout_candidate_fixture(fanout_branches: u32, other_nets: u32) -> (IndexedGraph, Vec<usize>) {
    let mut nodes = Vec::new();
    let mut ranks = Vec::new();
    let mut add_node = |id: u32, rank: usize, side: Option<PortSide>| {
        nodes.push(FixtureNode { id, side });
        ranks.push(rank);
    };
    add_node(0, 0, Some(PortSide::East));
    for branch in 0..fanout_branches {
        add_node(1 + branch, 2, Some(PortSide::West));
    }
    let blocker = 1 + fanout_branches;
    add_node(blocker, 1, None);
    for branch in 0..other_nets {
        add_node(blocker + 1 + branch, 0, Some(PortSide::East));
    }
    for branch in 0..other_nets {
        add_node(blocker + 1 + other_nets + branch, 2, Some(PortSide::West));
    }

    let mut edges = (0..fanout_branches)
        .map(|branch| Edge {
            id: branch,
            source: Endpoint { node: 0, port: 0 },
            target: Endpoint {
                node: 1 + branch,
                port: 0,
            },
            net: 1,
            participates_in_ranking: true,
        })
        .collect::<Vec<_>>();
    edges.extend((0..other_nets).map(|branch| Edge {
        id: fanout_branches + branch,
        source: Endpoint {
            node: blocker + 1 + branch,
            port: 0,
        },
        target: Endpoint {
            node: blocker + 1 + other_nets + branch,
            port: 0,
        },
        net: 100 + branch,
        participates_in_ranking: true,
    }));

    (index_graph(&nodes, edges), ranks)
}

#[test]
fn fanout_channel_candidate_counts_only_outer_branches_and_is_total() {
    let (indexed, ranks) = fanout_candidate_fixture(512, 1);
    let plan = RoutingPlan::new(&indexed, &ranks);
    let outer_nets = BTreeSet::from([1, 100, 999]);

    assert!(
        fanout_outer_channel_lane_indices(&plan, &vec![Some((0, 2)); 513], &outer_nets)
            .is_none()
    );
    let mut mixed_spans = vec![Some((0, 2)); 513];
    mixed_spans[..511].fill(None);
    assert!(
        fanout_outer_channel_lane_indices(&plan, &mixed_spans, &outer_nets).is_none(),
        "electrical fanout does not substitute for the actual outer-branch threshold"
    );
    mixed_spans[511] = None;
    let lanes = fanout_outer_channel_lane_indices(&plan, &mixed_spans, &outer_nets)
        .expect("enough actual outer branches activate the candidate");
    assert_eq!(lanes, BTreeMap::from([(100, 0), (999, 1), (1, 2)]));
}

#[test]
fn fanout_channels_need_a_single_source_per_net() {
    let (mut indexed, ranks) = fanout_candidate_fixture(512, 1);
    // Move one branch of the big fanout to another source port.
    indexed.edges[7].source = Endpoint { node: 514, port: 0 };
    let plan = RoutingPlan::new(&indexed, &ranks);
    let outer_nets = BTreeSet::from([1, 100]);
    assert!(fanout_outer_channel_lane_indices(&plan, &vec![None; 513], &outer_nets).is_none());
}

fn feedback_plan() -> RoutingPlan {
    let nodes = [
        FixtureNode {
            id: 1,
            side: Some(PortSide::East),
        },
        FixtureNode {
            id: 2,
            side: Some(PortSide::West),
        },
        FixtureNode {
            id: 3,
            side: Some(PortSide::West),
        },
    ];
    let edges = vec![
        Edge {
            id: 10,
            source: Endpoint { node: 1, port: 0 },
            target: Endpoint { node: 2, port: 0 },
            net: 7,
            participates_in_ranking: true,
        },
        Edge {
            id: 11,
            source: Endpoint { node: 1, port: 0 },
            target: Endpoint { node: 3, port: 0 },
            net: 7,
            participates_in_ranking: false,
        },
    ];
    RoutingPlan::new(&index_graph(&nodes, edges), &[0, 1, 1])
}

fn lane(side: OuterSide, side_index: usize) -> OuterLane {
    OuterLane {
        side,
        side_index,
        channel_index: 0,
        channel_count: 1,
    }
}

#[test]
fn feedback_net_split_needs_both_sides() {
    let plan = feedback_plan();
    let split = BTreeMap::from([(10, lane(OuterSide::Top, 0)), (11, lane(OuterSide::Bottom, 0))]);
    let coherent = BTreeMap::from([(10, lane(OuterSide::Top, 0)), (11, lane(OuterSide::Top, 0))]);
    assert!(has_split_feedback_net(&plan, &[None, None], &split));
    assert!(!has_split_feedback_net(&plan, &[None, None], &coherent));
    // A sparse-routed edge is not an outer edge, so it cannot split its net.
    assert!(!has_split_feedback_net(&plan, &[None, Some((0, 1))], &split));
    // Only spans that exist are considered.
    assert!(!has_split_feedback_net(&plan, &[None], &split));
}

#[test]
fn shared_endpoints_are_touched_by_two_nets() {
    let edge = |id, source: (u32, u32), target: (u32, u32), net| Edge {
        id,
        source: Endpoint {
            node: source.0,
            port: source.1,
        },
        target: Endpoint {
            node: target.0,
            port: target.1,
        },
        net,
        participates_in_ranking: true,
    };
    let edges = [
        edge(1, (1, 0), (2, 0), 7),
        edge(2, (1, 0), (3, 0), 7),
        edge(3, (4, 0), (2, 0), 8),
        edge(4, (5, 1), (5, 1), 9),
    ];
    assert_eq!(shared_endpoints(&edges), BTreeSet::from([(2, 0)]));
    assert_eq!(shared_endpoints(&[]), BTreeSet::new());
}

#[test]
fn corridor_nets_are_sparse_fanouts_with_paths_ranked_by_crossings() {
    // Node 0 feeds nets 1 and 2, node 1 feeds net 3; node 2 and node 3 both
    // feed net 4, so net 4 has two sources.
    let nodes = (0..8)
        .map(|id| FixtureNode {
            id,
            side: Some(if id < 4 { PortSide::East } else { PortSide::West }),
        })
        .collect::<Vec<_>>();
    let edge = |id: u32, source: u32, target: u32, net: u32| Edge {
        id,
        source: Endpoint { node: source, port: 0 },
        target: Endpoint { node: target, port: 0 },
        net,
        participates_in_ranking: true,
    };
    let edges = vec![
        edge(0, 0, 4, 1),
        edge(1, 0, 5, 1),
        edge(2, 0, 6, 2),
        edge(3, 1, 7, 3),
        edge(4, 2, 4, 4),
        edge(5, 3, 5, 4),
    ];
    let graph = index_graph(&nodes, edges);
    let plan = RoutingPlan::new(&graph, &[0, 0, 0, 0, 1, 1, 1, 1]);
    let spans = vec![Some((0, 1)); 6];
    let paths = vec![Some(3), None, Some(2), Some(4), Some(1), Some(1)];
    let counts = BTreeMap::from([(1, 10), (2, 30), (3, 10), (4, 50), (9, 99)]);

    assert_eq!(select_negotiated_corridor_nets(&plan, &spans, &paths, &counts, 8), vec![2, 1, 3]);
    assert_eq!(select_negotiated_corridor_nets(&plan, &spans, &paths, &counts, 2), vec![2, 1]);
    assert_eq!(select_negotiated_corridor_nets(&plan, &spans, &paths, &counts, 0), Vec::<u32>::new());

    let mut unspanned = spans.clone();
    unspanned[1] = None;
    assert_eq!(select_negotiated_corridor_nets(&plan, &unspanned, &paths, &counts, 8), vec![2, 3]);

    let empty_paths = vec![Some(0), None, Some(2), None, None, None];
    assert_eq!(select_negotiated_corridor_nets(&plan, &spans, &empty_paths, &counts, 8), vec![2]);

    // Only the edges covered by all three inputs count.
    assert_eq!(select_negotiated_corridor_nets(&plan, &spans[..3], &paths, &counts, 8), vec![2, 1]);
}

/// The (x, width) of each node of `fanout_candidate_fixture`.
fn fanout_candidate_geometry(fanout_branches: u32, other_nets: u32) -> Vec<(f64, f64)> {
    let mut geometry = vec![(0.0, 20.0)];
    geometry.extend((0..fanout_branches).map(|_| (240.0, 20.0)));
    geometry.push((110.0, 20.0));
    geometry.extend((0..other_nets).map(|_| (0.0, 20.0)));
    geometry.extend((0..other_nets).map(|_| (240.0, 20.0)));
    geometry
}

/// For each node, whether it ends its rank on the right and whether it
/// starts its rank on the left.
fn rank_extremes(geometry: &[(f64, f64)], ranks: &[usize]) -> (Vec<bool>, Vec<bool>) {
    let rank_count = ranks.iter().max().map_or(0, |rank| rank + 1);
    let mut left = vec![f64::INFINITY; rank_count];
    let mut right = vec![f64::NEG_INFINITY; rank_count];
    for (&(x, width), &rank) in geometry.iter().zip(ranks) {
        left[rank] = left[rank].min(x);
        right[rank] = right[rank].max(x + width);
    }
    let ends = geometry
        .iter()
        .zip(ranks)
        .map(|(&(x, width), &rank)| x + width == right[rank])
        .collect();
    let starts = geometry
        .iter()
        .zip(ranks)
        .map(|(&(x, _), &rank)| x == left[rank])
        .collect();
    (ends, starts)
}

#[test]
fn regional_fanout_eligibility_has_exact_branch_boundaries() {
    for (branches, expected) in [(300, false), (301, true), (512, true), (513, false)] {
        let (indexed, ranks) = fanout_candidate_fixture(branches, 0);
        let geometry = fanout_candidate_geometry(branches, 0);
        let plan = RoutingPlan::new(&indexed, &ranks);
        let (ends, starts) = rank_extremes(&geometry, &ranks);
        assert_eq!(
            !regional_fanout_edges(&plan, &ends, &starts).is_empty(),
            expected,
            "unexpected eligibility at {branches} branches",
        );
    }

    let (indexed, ranks) = fanout_candidate_fixture(301, 1);
    let mut geometry = fanout_candidate_geometry(301, 1);
    let plan = RoutingPlan::new(&indexed, &ranks);
    let other_rank_zero_node = 303usize;
    geometry[other_rank_zero_node].1 += 20.0;
    let (ends, starts) = rank_extremes(&geometry, &ranks);
    assert!(
        regional_fanout_edges(&plan, &ends, &starts).is_empty(),
        "the source feeder must start beyond every node in its rank",
    );
}

#[test]
fn ordinary_fanout_eligibility_has_exact_branch_boundaries() {
    for (branches, expected) in [(2, false), (3, true), (20, true), (21, false)] {
        let (indexed, ranks) = fanout_candidate_fixture(branches, 0);
        let geometry = fanout_candidate_geometry(branches, 0);
        let plan = RoutingPlan::new(&indexed, &ranks);
        let (ends, starts) = rank_extremes(&geometry, &ranks);
        assert_eq!(
            !fanout_edges_in_range(
                &plan,
                &ends,
                &starts,
                MIN_ORDINARY_FANOUT_EDGES,
                MAX_ORDINARY_FANOUT_EDGES,
            )
            .is_empty(),
            expected,
            "unexpected ordinary eligibility at {branches} branches",
        );
    }
}

#[test]
fn fanouts_list_their_edges_by_net() {
    let (indexed, ranks) = fanout_candidate_fixture(4, 2);
    let geometry = fanout_candidate_geometry(4, 2);
    let plan = RoutingPlan::new(&indexed, &ranks);
    let (ends, starts) = rank_extremes(&geometry, &ranks);
    assert_eq!(
        fanout_edges_in_range(&plan, &ends, &starts, 1, 4),
        vec![(1, vec![0, 1, 2, 3]), (100, vec![4]), (101, vec![5])]
    );
    assert_eq!(
        fanout_edges_in_range(&plan, &ends, &starts, 2, 4),
        vec![(1, vec![0, 1, 2, 3])]
    );
    // A target that does not start its rank disqualifies the whole fanout.
    let mut starts_moved = starts.clone();
    starts_moved[2] = false;
    assert_eq!(
        fanout_edges_in_range(&plan, &ends, &starts_moved, 1, 4),
        vec![(100, vec![4]), (101, vec![5])]
    );
}

fn span_edge(id: u32, source: u32, target: u32, net: u32) -> Edge {
    Edge {
        id,
        source: Endpoint { node: source, port: 0 },
        target: Endpoint { node: target, port: 0 },
        net,
        participates_in_ranking: true,
    }
}

fn span_fixture(edges: Vec<Edge>) -> RoutingPlan {
    let nodes = [
        FixtureNode { id: 1, side: Some(PortSide::East) },
        FixtureNode { id: 2, side: Some(PortSide::West) },
        FixtureNode { id: 3, side: Some(PortSide::West) },
        FixtureNode { id: 4, side: Some(PortSide::East) },
        FixtureNode { id: 5, side: Some(PortSide::East) },
    ];
    let ranks = vec![0, 2, 1, 2, 1];
    RoutingPlan::new(&index_graph(&nodes, edges), &ranks)
}

#[test]
fn sparse_spans_take_east_to_west_edges_over_free_ranks() {
    let plan = span_fixture(vec![
        span_edge(0, 1, 2, 1),
        span_edge(1, 1, 4, 1),
        span_edge(2, 2, 1, 2),
        span_edge(3, 5, 2, 3),
        span_edge(4, 5, 3, 4),
    ]);
    assert_eq!(
        sparse_spans(&plan, &[true, true, true]),
        vec![Some((0, 2)), None, None, Some((1, 2)), None]
    );
    assert_eq!(
        sparse_spans(&plan, &[true, false, true]),
        vec![None, None, None, Some((1, 2)), None]
    );
}

#[test]
fn sparse_spans_leave_large_nets_outside() {
    let edges = (0..301).map(|id| span_edge(id, 1, 2, 9)).chain([span_edge(301, 1, 2, 8)]).collect();
    let plan = span_fixture(edges);
    let spans = sparse_spans(&plan, &[true, true, true]);
    assert_eq!(spans.len(), 302);
    assert!(spans[..301].iter().all(|span| span.is_none()));
    assert_eq!(spans[301], Some((0, 2)));
}
