use std::collections::BTreeMap;

use schemweave::budget::{MAX_BATCHED_OUTER_SIDE_REPAIRS, MIN_OUTER_SIDE_REPAIR_GAIN};
use schemweave::graph::{Edge, Endpoint, PortSide};
use schemweave::outer::{OuterLane, OuterSide};
use schemweave::outer_repair::select_outer_side_repairs;
use schemweave::plan::{IndexedGraph, RoutingPlan};

/// One edge per net `1..=nets` between its own two nodes, plus a second edge
/// of net 1; edge `e` has id `e`.
fn plan(nets: u32) -> RoutingPlan {
    let mut edges = (1..=nets)
        .map(|net| Edge {
            id: net,
            source: Endpoint { node: 2 * net, port: 0 },
            target: Endpoint { node: 2 * net + 1, port: 0 },
            net,
            participates_in_ranking: true,
        })
        .collect::<Vec<_>>();
    edges.push(Edge {
        id: nets + 1,
        source: Endpoint { node: 2, port: 0 },
        target: Endpoint { node: 3, port: 0 },
        net: 1,
        participates_in_ranking: true,
    });
    let node_ids = (2..2 * nets + 2).collect::<Vec<u32>>();
    let graph = IndexedGraph {
        rank_edges: edges.iter().map(|edge| edge.participates_in_ranking).collect(),
        edges,
        node_index: node_ids.iter().enumerate().map(|(index, &id)| (id, index)).collect(),
        ports: node_ids
            .iter()
            .map(|&id| BTreeMap::from([(0, if id % 2 == 0 { PortSide::East } else { PortSide::West })]))
            .collect(),
    };
    let ranks = node_ids.iter().map(|&id| (id % 2) as usize).collect::<Vec<_>>();
    RoutingPlan::new(&graph, &ranks)
}

fn lane(side: OuterSide) -> OuterLane {
    OuterLane { side, side_index: 0, channel_index: 0, channel_count: 1 }
}

fn lanes(sides: &[(u32, OuterSide)]) -> BTreeMap<u32, OuterLane> {
    sides.iter().map(|&(edge, side)| (edge, lane(side))).collect()
}

#[test]
fn side_repairs_rank_by_gain_then_net() {
    let plan = plan(4);
    let spans = vec![None; 5];
    let outer = lanes(&[
        (1, OuterSide::Bottom),
        (2, OuterSide::Bottom),
        (3, OuterSide::Bottom),
        (4, OuterSide::Top),
        (5, OuterSide::Bottom),
    ]);
    let current = BTreeMap::from([(1, 150), (2, 300), (3, 110), (4, 80)]);
    let top = BTreeMap::from([(1, 50), (2, 100), (3, 10), (4, 90)]);
    let bottom = BTreeMap::from([(1, 60), (2, 101), (3, 20), (4, 16)]);
    // Net 1: best above at 50 (gain 100); net 2: above at 100 (gain 200);
    // net 3: above at 10 (gain 100); net 4: below at 16 (gain 64). The tie
    // at 100 goes to the lower net.
    let selected = select_outer_side_repairs(&plan, &spans, &outer, &current, &top, &bottom);
    assert_eq!(MAX_BATCHED_OUTER_SIDE_REPAIRS, 2);
    assert_eq!(selected, vec![(2, OuterSide::Top), (1, OuterSide::Top)]);
}

#[test]
fn side_repairs_skip_nets_already_on_their_best_side() {
    let plan = plan(4);
    let spans = vec![None; 5];
    // Nets 2 and 3 already run above; net 1 runs above on one edge and
    // below on the other.
    let outer = lanes(&[
        (1, OuterSide::Top),
        (2, OuterSide::Top),
        (3, OuterSide::Top),
        (4, OuterSide::Top),
        (5, OuterSide::Bottom),
    ]);
    let current = BTreeMap::from([(1, 150), (2, 300), (3, 110), (4, 80)]);
    let top = BTreeMap::from([(1, 50), (2, 100), (3, 10), (4, 90)]);
    let bottom = BTreeMap::from([(1, 60), (2, 101), (3, 20), (4, 16)]);
    let selected = select_outer_side_repairs(&plan, &spans, &outer, &current, &top, &bottom);
    assert_eq!(selected, vec![(1, OuterSide::Top), (4, OuterSide::Bottom)]);
}

#[test]
fn side_repair_gain_gate_is_inclusive_and_side_ties_are_skipped() {
    let plan = plan(3);
    let spans = vec![None; 4];
    let outer = lanes(&[(1, OuterSide::Bottom), (2, OuterSide::Bottom), (3, OuterSide::Bottom), (4, OuterSide::Bottom)]);
    let current = BTreeMap::from([(1, MIN_OUTER_SIDE_REPAIR_GAIN + 10), (2, 73), (3, 500)]);
    let top = BTreeMap::from([(1, 10), (2, 10), (3, 7)]);
    let bottom = BTreeMap::from([(1, 11), (2, 11), (3, 7)]);
    // Net 1 gains exactly the least gain, net 2 one crossing less, and
    // net 3 cannot choose between two equal sides.
    let selected = select_outer_side_repairs(&plan, &spans, &outer, &current, &top, &bottom);
    assert_eq!(selected, vec![(1, OuterSide::Top)]);
}

#[test]
fn side_repairs_need_a_worse_current_side_and_an_outer_edge() {
    let plan = plan(3);
    let outer = lanes(&[(1, OuterSide::Top), (2, OuterSide::Top), (3, OuterSide::Top), (4, OuterSide::Top)]);
    // Net 1 would cross more below than it does now; net 2 has no counts
    // in `current`; net 3 is sparse-routed, so it has no outer edge.
    let spans = vec![None, None, Some((0, 1)), None];
    let current = BTreeMap::from([(1, 100), (3, 400)]);
    let top = BTreeMap::from([(1, 300), (2, 300), (3, 300)]);
    let bottom = BTreeMap::from([(1, 200), (2, 100), (3, 100)]);
    assert_eq!(select_outer_side_repairs(&plan, &spans, &outer, &current, &top, &bottom), vec![]);

    // Nothing is tried while no net crosses often enough, even with counts
    // missing from both sides.
    let quiet = BTreeMap::from([(1, MIN_OUTER_SIDE_REPAIR_GAIN - 1)]);
    let none = BTreeMap::new();
    assert_eq!(select_outer_side_repairs(&plan, &[None; 4], &BTreeMap::new(), &quiet, &none, &none), vec![]);
}
