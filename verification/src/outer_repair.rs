//! Outer side repair: nets whose outer routes would cross far less on the
//! other side of the layout move there, the best few at a time.
use vstd::prelude::*;
use std::collections::BTreeMap;
use std::collections::BTreeSet;
use crate::budget::{MAX_BATCHED_OUTER_SIDE_REPAIRS, MIN_OUTER_SIDE_REPAIR_GAIN};
use crate::graph::{EdgeId, NetId};
use crate::lanes::{rank_candidate, ranking_holds, repair_ranked_before};
use crate::ordered::{lists_map, lists_set, map_entries, set_keys};
use crate::outer::{OuterLane, OuterSide};
use crate::plan::{spanned_count, RouteEdge, RoutingPlan};

verus! {

broadcast use vstd::std_specs::btree::group_btree_axioms;

/// The crossings `counts` gives net `net`, zero when it gives none.
pub open spec fn count_of(counts: Map<NetId, usize>, net: NetId) -> usize {
    if counts.contains_key(net) {
        counts[net]
    } else {
        0
    }
}

/// The side that would serve net `net` best and the crossings its outer
/// routes would lose by moving there: none when both sides tie, when the
/// best side crosses more than the current routes, or when the gain is below
/// `MIN_OUTER_SIDE_REPAIR_GAIN`.
pub open spec fn side_repair(
    current: Map<NetId, usize>,
    top: Map<NetId, usize>,
    bottom: Map<NetId, usize>,
    net: NetId,
) -> Option<(usize, OuterSide)> {
    let now = count_of(current, net);
    let above = count_of(top, net);
    let below = count_of(bottom, net);
    if above == below {
        None
    } else {
        let best = if above < below {
            above
        } else {
            below
        };
        let side = if above < below {
            OuterSide::Top
        } else {
            OuterSide::Bottom
        };
        if now < best || now - best < MIN_OUTER_SIDE_REPAIR_GAIN {
            None
        } else {
            Some(((now - best) as usize, side))
        }
    }
}

/// Edge `i` is routed around the outside of the layout.
pub open spec fn outer_edge(edges: Seq<RouteEdge>, spans: Seq<Option<(usize, usize)>>, i: int) -> bool {
    0 <= i < spanned_count(edges, spans) && spans[i] is None
}

/// Among the first `upto` edges, an outer edge of net `net` runs on a side
/// other than `side`.
pub open spec fn arm_moves(
    edges: Seq<RouteEdge>,
    spans: Seq<Option<(usize, usize)>>,
    lanes: Map<EdgeId, OuterLane>,
    net: NetId,
    side: OuterSide,
    upto: int,
) -> bool {
    exists|i: int|
        0 <= i < upto && #[trigger] outer_edge(edges, spans, i) && edges[i].edge.net == net && lanes.contains_key(
            edges[i].edge.id,
        ) && lanes[edges[i].edge.id].side != side
}

/// Some net's current outer routes cross at least
/// `MIN_OUTER_SIDE_REPAIR_GAIN` times: only then is any move tried.
pub open spec fn repairs_worthwhile(current: Map<NetId, usize>) -> bool {
    exists|net: NetId| #[trigger] current.contains_key(net) && current[net] >= MIN_OUTER_SIDE_REPAIR_GAIN
}

/// Net `net` gains enough by moving to its best side, and some of its outer
/// edges are not there yet.
pub open spec fn side_repair_eligible(
    edges: Seq<RouteEdge>,
    spans: Seq<Option<(usize, usize)>>,
    lanes: Map<EdgeId, OuterLane>,
    current: Map<NetId, usize>,
    top: Map<NetId, usize>,
    bottom: Map<NetId, usize>,
    net: NetId,
) -> bool {
    side_repair(current, top, bottom, net) matches Some((_, side)) && arm_moves(
        edges,
        spans,
        lanes,
        net,
        side,
        spanned_count(edges, spans),
    )
}

/// The gain of every eligible net.
pub open spec fn side_repair_gains(
    edges: Seq<RouteEdge>,
    spans: Seq<Option<(usize, usize)>>,
    lanes: Map<EdgeId, OuterLane>,
    current: Map<NetId, usize>,
    top: Map<NetId, usize>,
    bottom: Map<NetId, usize>,
) -> Map<NetId, usize> {
    Map::new(
        |net: NetId| side_repair_eligible(edges, spans, lanes, current, top, bottom, net),
        |net: NetId| side_repair(current, top, bottom, net)->Some_0.0,
    )
}

/// The outer lanes that the scan for edges to move reads: those of the outer
/// edges of a net that gains enough, up to its first edge on the other side.
pub open spec fn lanes_cover_scan(
    edges: Seq<RouteEdge>,
    spans: Seq<Option<(usize, usize)>>,
    lanes: Map<EdgeId, OuterLane>,
    current: Map<NetId, usize>,
    top: Map<NetId, usize>,
    bottom: Map<NetId, usize>,
) -> bool {
    forall|i: int|
        #[trigger] outer_edge(edges, spans, i) ==> (side_repair(current, top, bottom, edges[i].edge.net) matches Some((_, side))
            ==> (!arm_moves(edges, spans, lanes, edges[i].edge.net, side, i) ==> lanes.contains_key(edges[i].edge.id)))
}

fn count_in(counts: &BTreeMap<NetId, usize>, net: NetId) -> (count: usize)
    ensures
        count == count_of(counts@, net),
{
    match counts.get(&net) {
        Some(count) => *count,
        None => 0,
    }
}

fn side_repair_of(
    current: &BTreeMap<NetId, usize>,
    top: &BTreeMap<NetId, usize>,
    bottom: &BTreeMap<NetId, usize>,
    net: NetId,
) -> (repair: Option<(usize, OuterSide)>)
    ensures
        repair == side_repair(current@, top@, bottom@, net),
{
    let now = count_in(current, net);
    let above = count_in(top, net);
    let below = count_in(bottom, net);
    if above == below {
        return None;
    }
    let (best, side) = if above < below {
        (above, OuterSide::Top)
    } else {
        (below, OuterSide::Bottom)
    };
    if now < best || now - best < MIN_OUTER_SIDE_REPAIR_GAIN {
        None
    } else {
        Some((now - best, side))
    }
}

/// Whether an outer edge of net `net` runs on a side other than `side`.
fn net_arm_moves(
    plan: &RoutingPlan,
    sparse_spans: &[Option<(usize, usize)>],
    outer_lanes: &BTreeMap<EdgeId, OuterLane>,
    net: NetId,
    side: OuterSide,
) -> (moves: bool)
    requires
        forall|i: int|
            #[trigger] outer_edge(plan.route_edges(), sparse_spans@, i) && plan.route_edges()[i].edge.net == net
                && !arm_moves(plan.route_edges(), sparse_spans@, outer_lanes@, net, side, i)
                ==> outer_lanes@.contains_key(plan.route_edges()[i].edge.id),
    ensures
        moves == arm_moves(
            plan.route_edges(),
            sparse_spans@,
            outer_lanes@,
            net,
            side,
            spanned_count(plan.route_edges(), sparse_spans@),
        ),
{
    let ghost edges = plan.route_edges();
    let ghost spans = sparse_spans@;
    let ghost lanes = outer_lanes@;
    let count = if plan.edge_count() <= sparse_spans.len() {
        plan.edge_count()
    } else {
        sparse_spans.len()
    };
    let mut index: usize = 0;
    while index < count
        invariant
            index <= count,
            count == spanned_count(edges, spans),
            edges == plan.route_edges(),
            spans == sparse_spans@,
            lanes == outer_lanes@,
            forall|i: int|
                #[trigger] outer_edge(edges, spans, i) && edges[i].edge.net == net && !arm_moves(edges, spans, lanes, net, side, i)
                    ==> lanes.contains_key(edges[i].edge.id),
            !arm_moves(edges, spans, lanes, net, side, index as int),
        decreases count - index,
    {
        let edge = plan.edge_at(index);
        if sparse_spans[index].is_none() && edge.edge.net == net {
            assert(outer_edge(edges, spans, index as int));
            let lane = match outer_lanes.get(&edge.edge.id) {
                Some(lane) => *lane,
                None => {
                    assert(false);
                    return false;
                },
            };
            if lane.side != side {
                assert(outer_edge(edges, spans, index as int));
                return true;
            }
        }
        proof {
            assert forall|i: int|
                0 <= i < index + 1 && #[trigger] outer_edge(edges, spans, i) && edges[i].edge.net == net && lanes.contains_key(
                    edges[i].edge.id,
                ) implies lanes[edges[i].edge.id].side == side by {
                if i < index {
                    assert(!arm_moves(edges, spans, lanes, net, side, index as int));
                }
            }
        }
        index = index + 1;
    }
    false
}

/// Picks the nets whose outer routes move to the other side of the layout:
/// nothing unless some net crosses at least `MIN_OUTER_SIDE_REPAIR_GAIN`
/// times now (`repairs_worthwhile`); otherwise, with the side that serves it
/// best, each of the eligible nets (see `side_repair_eligible`) with the
/// largest gains, at most `MAX_BATCHED_OUTER_SIDE_REPAIRS` of them, in
/// decreasing gain and then increasing net.
///
/// `current`, `top` and `bottom` give the crossings of the outer routes of
/// each net as they run and as they would run all above or all below the
/// layout; a net they leave out has none.
pub fn select_outer_side_repairs(
    plan: &RoutingPlan,
    sparse_spans: &[Option<(usize, usize)>],
    outer_lanes: &BTreeMap<EdgeId, OuterLane>,
    current: &BTreeMap<NetId, usize>,
    top: &BTreeMap<NetId, usize>,
    bottom: &BTreeMap<NetId, usize>,
) -> (selected: Vec<(NetId, OuterSide)>)
    requires
        repairs_worthwhile(current@) ==> lanes_cover_scan(
            plan.route_edges(),
            sparse_spans@,
            outer_lanes@,
            current@,
            top@,
            bottom@,
        ),
    ensures
        !repairs_worthwhile(current@) ==> selected@.len() == 0,
        repairs_worthwhile(current@) ==> {
            let edges = plan.route_edges();
            let gains = side_repair_gains(edges, sparse_spans@, outer_lanes@, current@, top@, bottom@);
            &&& selected@.len() <= MAX_BATCHED_OUTER_SIDE_REPAIRS
            &&& forall|k: int|
                0 <= k < selected@.len() ==> side_repair_eligible(
                    edges,
                    sparse_spans@,
                    outer_lanes@,
                    current@,
                    top@,
                    bottom@,
                    (#[trigger] selected@[k]).0,
                ) && side_repair(current@, top@, bottom@, selected@[k].0) == Some((gains[selected@[k].0], selected@[k].1))
            &&& forall|a: int, b: int|
                0 <= a < b < selected@.len() ==> repair_ranked_before(gains, (#[trigger] selected@[a]).0, (#[trigger] selected@[b]).0)
            &&& selected@.len() < MAX_BATCHED_OUTER_SIDE_REPAIRS ==> forall|net: NetId|
                #[trigger] gains.contains_key(net) ==> exists|k: int| 0 <= k < selected@.len() && selected@[k].0 == net
            &&& forall|net: NetId|
                #[trigger] gains.contains_key(net) && !(exists|k: int| 0 <= k < selected@.len() && selected@[k].0 == net)
                    ==> forall|k: int| 0 <= k < selected@.len() ==> repair_ranked_before(gains, (#[trigger] selected@[k]).0, net)
        },
{
    let ghost edges = plan.route_edges();
    let ghost spans = sparse_spans@;
    let ghost lanes = outer_lanes@;
    let entries = map_entries(current);
    let mut worthwhile = false;
    let mut k: usize = 0;
    while k < entries.len()
        invariant
            k <= entries@.len(),
            lists_map(entries@, current@),
            worthwhile ==> repairs_worthwhile(current@),
            !worthwhile ==> forall|t: int| 0 <= t < k ==> entries@[t].1 < MIN_OUTER_SIDE_REPAIR_GAIN,
        decreases entries@.len() - k,
    {
        if entries[k].1 >= MIN_OUTER_SIDE_REPAIR_GAIN {
            assert(current@.contains_key(entries@[k as int].0));
            worthwhile = true;
        }
        k = k + 1;
    }
    if !worthwhile {
        proof {
            if repairs_worthwhile(current@) {
                let net = choose|net: NetId| #[trigger] current@.contains_key(net) && current@[net] >= MIN_OUTER_SIDE_REPAIR_GAIN;
                let t = choose|t: int| 0 <= t < entries@.len() && entries@[t].0 == net;
            }
        }
        return Vec::new();
    }
    let count = if plan.edge_count() <= sparse_spans.len() {
        plan.edge_count()
    } else {
        sparse_spans.len()
    };
    let mut outer_nets: BTreeSet<NetId> = BTreeSet::new();
    let mut index: usize = 0;
    while index < count
        invariant
            index <= count,
            count == spanned_count(edges, spans),
            edges == plan.route_edges(),
            spans == sparse_spans@,
            forall|net: NetId| #[trigger] outer_nets@.contains(net) <==> exists|i: int|
                0 <= i < index && #[trigger] outer_edge(edges, spans, i) && edges[i].edge.net == net,
        decreases count - index,
    {
        let edge = plan.edge_at(index);
        if sparse_spans[index].is_none() {
            outer_nets.insert(edge.edge.net);
        }
        proof {
            assert forall|net: NetId| #[trigger] outer_nets@.contains(net) <==> exists|i: int|
                0 <= i < index + 1 && #[trigger] outer_edge(edges, spans, i) && edges[i].edge.net == net by {
                if outer_nets@.contains(net) && spans[index as int] is None && edges[index as int].edge.net == net {
                    assert(outer_edge(edges, spans, index as int));
                }
                if exists|i: int| 0 <= i < index + 1 && #[trigger] outer_edge(edges, spans, i) && edges[i].edge.net == net {
                    let i = choose|i: int| 0 <= i < index + 1 && #[trigger] outer_edge(edges, spans, i) && edges[i].edge.net == net;
                    if i < index {
                        assert(exists|i: int| 0 <= i < index && #[trigger] outer_edge(edges, spans, i) && edges[i].edge.net == net);
                    }
                }
            }
        }
        index = index + 1;
    }
    let nets = set_keys(&outer_nets);
    let ghost gains = side_repair_gains(edges, spans, lanes, current@, top@, bottom@);
    let mut ranked: Vec<(usize, NetId)> = Vec::new();
    let mut sides: BTreeMap<NetId, OuterSide> = BTreeMap::new();
    let ghost mut seen: Set<NetId> = Set::empty();
    let mut t: usize = 0;
    while t < nets.len()
        invariant
            t <= nets@.len(),
            repairs_worthwhile(current@),
            edges == plan.route_edges(),
            spans == sparse_spans@,
            lanes == outer_lanes@,
            gains == side_repair_gains(edges, spans, lanes, current@, top@, bottom@),
            lanes_cover_scan(edges, spans, lanes, current@, top@, bottom@),
            lists_set(nets@, outer_nets@),
            forall|net: NetId| #[trigger] outer_nets@.contains(net) <==> exists|i: int|
                0 <= i < spanned_count(edges, spans) && #[trigger] outer_edge(edges, spans, i) && edges[i].edge.net == net,
            ranking_holds(gains, ranked@, seen, MAX_BATCHED_OUTER_SIDE_REPAIRS),
            forall|n: NetId| #[trigger] seen.contains(n) <==> gains.contains_key(n) && exists|u: int|
                0 <= u < t && nets@[u] == n,
            forall|n: NetId| #[trigger] seen.contains(n) ==> sides@.contains_key(n) && side_repair(current@, top@, bottom@, n)
                == Some((gains[n], sides@[n])),
        decreases nets@.len() - t,
    {
        let net = nets[t];
        assert(!seen.contains(net)) by {
            if seen.contains(net) {
                let u = choose|u: int| 0 <= u < t && nets@[u] == net;
                assert(nets@[u] < nets@[t as int]);
            }
        }
        match side_repair_of(current, top, bottom, net) {
            Some((gain, side)) => {
                let moves = net_arm_moves(plan, sparse_spans, outer_lanes, net, side);
                if moves {
                    assert(gains.contains_key(net));
                    rank_candidate(&mut ranked, gain, net, MAX_BATCHED_OUTER_SIDE_REPAIRS, Ghost(gains), Ghost(seen));
                    sides.insert(net, side);
                    proof {
                        seen = seen.insert(net);
                    }
                } else {
                    assert(!gains.contains_key(net));
                }
            },
            None => {
                assert(!gains.contains_key(net));
            },
        }
        proof {
            assert forall|n: NetId| #[trigger] seen.contains(n) <==> gains.contains_key(n) && exists|u: int|
                0 <= u < t + 1 && nets@[u] == n by {
                if gains.contains_key(n) && exists|u: int| 0 <= u < t + 1 && nets@[u] == n {
                    let u = choose|u: int| 0 <= u < t + 1 && nets@[u] == n;
                    if u < t {
                        assert(exists|u: int| 0 <= u < t && nets@[u] == n);
                    }
                }
            }
        }
        t = t + 1;
    }
    proof {
        assert forall|n: NetId| #[trigger] gains.contains_key(n) implies seen.contains(n) by {
            let i = choose|i: int|
                0 <= i < spanned_count(edges, spans) && #[trigger] outer_edge(edges, spans, i) && edges[i].edge.net == n
                    && lanes.contains_key(edges[i].edge.id) && lanes[edges[i].edge.id].side != side_repair(
                    current@,
                    top@,
                    bottom@,
                    n,
                )->Some_0.1;
            assert(outer_nets@.contains(n));
            let u = choose|u: int| 0 <= u < nets@.len() && nets@[u] == n;
        }
    }
    let mut selected: Vec<(NetId, OuterSide)> = Vec::new();
    let mut k: usize = 0;
    while k < ranked.len()
        invariant
            k <= ranked@.len(),
            ranking_holds(gains, ranked@, seen, MAX_BATCHED_OUTER_SIDE_REPAIRS),
            forall|n: NetId| #[trigger] seen.contains(n) ==> sides@.contains_key(n) && side_repair(current@, top@, bottom@, n)
                == Some((gains[n], sides@[n])),
            selected@.len() == k,
            forall|j: int| 0 <= j < k ==> (#[trigger] selected@[j]).0 == ranked@[j].1 && side_repair(current@, top@, bottom@, selected@[j].0)
                == Some((gains[selected@[j].0], selected@[j].1)),
        decreases ranked@.len() - k,
    {
        let net = ranked[k].1;
        assert(ranked@[k as int].0 == gains[ranked@[k as int].1]);
        assert(seen.contains(ranked@[k as int].1));
        let side = match sides.get(&net) {
            Some(side) => *side,
            None => {
                assert(false);
                OuterSide::Top
            },
        };
        selected.push((net, side));
        k = k + 1;
    }
    proof {
        assert forall|j: int| 0 <= j < selected@.len() implies side_repair_eligible(
            edges,
            spans,
            lanes,
            current@,
            top@,
            bottom@,
            (#[trigger] selected@[j]).0,
        ) by {
            assert(ranked@[j].0 == gains[ranked@[j].1]);
            assert(seen.contains(ranked@[j].1));
        }
        assert forall|a: int, b: int| 0 <= a < b < selected@.len() implies repair_ranked_before(
            gains,
            (#[trigger] selected@[a]).0,
            (#[trigger] selected@[b]).0,
        ) by {
            assert(repair_ranked_before(gains, ranked@[a].1, ranked@[b].1));
        }
        assert forall|n: NetId| #[trigger] gains.contains_key(n) && !(exists|j: int| 0 <= j < selected@.len() && selected@[j].0 == n)
            implies forall|j: int| 0 <= j < selected@.len() ==> repair_ranked_before(gains, (#[trigger] selected@[j]).0, n) by {
            assert(seen.contains(n));
            if exists|j: int| 0 <= j < ranked@.len() && ranked@[j].1 == n {
                let j = choose|j: int| 0 <= j < ranked@.len() && ranked@[j].1 == n;
                assert(selected@[j].0 == n);
            }
            assert forall|j: int| 0 <= j < selected@.len() implies repair_ranked_before(gains, (#[trigger] selected@[j]).0, n) by {
                assert(repair_ranked_before(gains, ranked@[j].1, n));
            }
        }
        if selected@.len() < MAX_BATCHED_OUTER_SIDE_REPAIRS {
            assert forall|n: NetId| #[trigger] gains.contains_key(n) implies exists|j: int|
                0 <= j < selected@.len() && selected@[j].0 == n by {
                assert(seen.contains(n));
                let j = choose|j: int| 0 <= j < ranked@.len() && ranked@[j].1 == n;
                assert(selected@[j].0 == n);
            }
        }
    }
    selected
}

} // verus!
