//! The routing plan: per-graph facts that every candidate placement reuses.
use vstd::prelude::*;
use std::collections::BTreeMap;
use std::collections::BTreeSet;
use crate::graph::{Edge, Endpoint, EdgeId, NetId, NodeId, PortId, PortSide};
use crate::outer::{OuterLane, OuterSide};
use crate::budget::{
    MAX_REGIONAL_FANOUT_EDGES, MAX_SPARSE_NET_EDGES, MIN_FANOUT_AWARE_CHANNEL_EDGES, MIN_FANOUT_AWARE_OUTER_BRANCHES,
    MIN_REGIONAL_FANOUT_EDGES,
};
use crate::lanes::{rank_candidate, ranking_holds, repair_ranked_before};
use crate::ordered::{lemma_ids_ordered, lists_map, lists_set, map_entries, pair_before, set_keys, sort_pairs};

verus! {

broadcast use vstd::std_specs::btree::group_btree_axioms, vstd::laws_cmp::group_laws_cmp;

/// The validated graph, indexed for routing: edges with their ranking flags,
/// the position of each node, and the side of each port of each node.
pub struct IndexedGraph {
    pub edges: Vec<Edge>,
    pub rank_edges: Vec<bool>,
    pub node_index: BTreeMap<NodeId, usize>,
    pub ports: Vec<BTreeMap<PortId, PortSide>>,
}

/// An edge resolved against the indexed graph.
#[derive(Clone, Copy, Debug, PartialEq, Eq, Structural)]
pub struct RouteEdge {
    pub edge: Edge,
    pub participates_in_ranking: bool,
    pub source_index: usize,
    pub target_index: usize,
    pub source_side: PortSide,
    pub target_side: PortSide,
}

/// Key of an endpoint in the ordered maps and sets of this module.
pub open spec fn endpoint_key(endpoint: Endpoint) -> (NodeId, PortId) {
    (endpoint.node, endpoint.port)
}

/// Whether edge `edge` starts or ends at `endpoint`.
pub open spec fn edge_touches(edge: Edge, endpoint: (NodeId, PortId)) -> bool {
    endpoint_key(edge.source) == endpoint || endpoint_key(edge.target) == endpoint
}

/// An endpoint is shared when edges of two different nets meet at it.
pub open spec fn endpoint_is_shared(edges: Seq<Edge>, endpoint: (NodeId, PortId)) -> bool {
    exists|i: int, j: int|
        0 <= i < edges.len() && 0 <= j < edges.len() && #[trigger] edge_touches(edges[i], endpoint)
            && #[trigger] edge_touches(edges[j], endpoint) && edges[i].net != edges[j].net
}

/// The endpoint touches of the edges, in order: source then target of each edge.
pub open spec fn touches(edges: Seq<Edge>) -> Seq<((NodeId, PortId), NetId)>
    decreases edges.len(),
{
    if edges.len() == 0 {
        Seq::empty()
    } else {
        let edge = edges.last();
        touches(edges.drop_last()).push((endpoint_key(edge.source), edge.net)).push(
            (endpoint_key(edge.target), edge.net),
        )
    }
}

proof fn lemma_touches_step(edges: Seq<Edge>, i: int)
    requires
        0 <= i < edges.len(),
    ensures
        touches(edges.take(i + 1)) == touches(edges.take(i)).push(
            (endpoint_key(edges[i].source), edges[i].net),
        ).push((endpoint_key(edges[i].target), edges[i].net)),
{
    assert(edges.take(i + 1).drop_last() =~= edges.take(i));
}

proof fn lemma_touches_shape(edges: Seq<Edge>)
    ensures
        touches(edges).len() == 2 * edges.len(),
        forall|i: int|
            0 <= i < edges.len() ==> #[trigger] touches(edges)[2 * i] == (
                endpoint_key(edges[i].source),
                edges[i].net,
            ) && touches(edges)[2 * i + 1] == (endpoint_key(edges[i].target), edges[i].net),
    decreases edges.len(),
{
    if edges.len() > 0 {
        lemma_touches_shape(edges.drop_last());
        assert forall|i: int| 0 <= i < edges.len() implies #[trigger] touches(edges)[2 * i] == (
            endpoint_key(edges[i].source),
            edges[i].net,
        ) && touches(edges)[2 * i + 1] == (endpoint_key(edges[i].target), edges[i].net) by {
            if i < edges.len() - 1 {
                assert(edges.drop_last()[i] == edges[i]);
                assert(touches(edges.drop_last())[2 * i] == (endpoint_key(edges[i].source), edges[i].net));
            }
        }
    }
}

/// The endpoints where edges of different nets meet.
pub fn shared_endpoints(edges: &[Edge]) -> (shared: BTreeSet<(NodeId, PortId)>)
    ensures
        forall|endpoint: (NodeId, PortId)| #[trigger] shared@.contains(endpoint) <==> endpoint_is_shared(
            edges@,
            endpoint,
        ),
{
    let mut endpoint_nets: BTreeMap<(NodeId, PortId), NetId> = BTreeMap::new();
    let mut shared: BTreeSet<(NodeId, PortId)> = BTreeSet::new();
    let mut index: usize = 0;
    while index < edges.len()
        invariant
            index <= edges.len(),
            shared_state(touches(edges@.take(index as int)), endpoint_nets@, shared@),
        decreases edges.len() - index,
    {
        let edge = edges[index];
        proof {
            lemma_touches_step(edges@, index as int);
        }
        let ghost before = touches(edges@.take(index as int));
        record_touch(&mut endpoint_nets, &mut shared, (edge.source.node, edge.source.port), edge.net, Ghost(before));
        record_touch(&mut endpoint_nets, &mut shared, (edge.target.node, edge.target.port), edge.net, Ghost(before.push(((edge.source.node, edge.source.port), edge.net))));
        index = index + 1;
    }
    proof {
        assert(edges@.take(index as int) =~= edges@);
        lemma_touches_shape(edges@);
        let ts = touches(edges@);
        assert forall|endpoint: (NodeId, PortId)| #[trigger] shared@.contains(endpoint) <==> endpoint_is_shared(
            edges@,
            endpoint,
        ) by {
            if shared@.contains(endpoint) {
                let (a, b) = choose|a: int, b: int| 0 <= a < ts.len() && 0 <= b < ts.len() && ts[a].0 == endpoint && ts[b].0 == endpoint && ts[a].1 != ts[b].1;
                let i = a / 2;
                let j = b / 2;
                assert(ts[2 * i] == (endpoint_key(edges@[i].source), edges@[i].net));
                assert(ts[2 * j] == (endpoint_key(edges@[j].source), edges@[j].net));
                assert(edge_touches(edges@[i], endpoint) && edge_touches(edges@[j], endpoint));
            }
            if endpoint_is_shared(edges@, endpoint) {
                let (i, j) = choose|i: int, j: int|
                    0 <= i < edges@.len() && 0 <= j < edges@.len() && #[trigger] edge_touches(edges@[i], endpoint)
                        && #[trigger] edge_touches(edges@[j], endpoint) && edges@[i].net != edges@[j].net;
                assert(ts[2 * i] == (endpoint_key(edges@[i].source), edges@[i].net));
                assert(ts[2 * j] == (endpoint_key(edges@[j].source), edges@[j].net));
                let a = if endpoint_key(edges@[i].source) == endpoint { 2 * i } else { 2 * i + 1 };
                let b = if endpoint_key(edges@[j].source) == endpoint { 2 * j } else { 2 * j + 1 };
                assert(ts[a].0 == endpoint && ts[b].0 == endpoint && ts[a].1 != ts[b].1);
            }
        }
    }
    shared
}

/// The scan state after the given touches: the first net seen at each
/// endpoint, and the endpoints touched by two different nets.
spec fn shared_state(
    ts: Seq<((NodeId, PortId), NetId)>,
    first_nets: Map<(NodeId, PortId), NetId>,
    shared: Set<(NodeId, PortId)>,
) -> bool {
    &&& forall|endpoint: (NodeId, PortId)| #[trigger] first_nets.contains_key(endpoint) <==> exists|a: int|
        0 <= a < ts.len() && ts[a].0 == endpoint
    &&& forall|endpoint: (NodeId, PortId)| #[trigger] first_nets.contains_key(endpoint) ==> exists|a: int|
        0 <= a < ts.len() && ts[a].0 == endpoint && ts[a].1 == first_nets[endpoint]
    &&& forall|endpoint: (NodeId, PortId)| #[trigger] shared.contains(endpoint) <==> exists|a: int, b: int|
        0 <= a < ts.len() && 0 <= b < ts.len() && ts[a].0 == endpoint && ts[b].0 == endpoint && ts[a].1 != ts[b].1
    &&& forall|endpoint: (NodeId, PortId)| #[trigger] first_nets.contains_key(endpoint) && !shared.contains(endpoint) ==> forall|a: int|
        0 <= a < ts.len() && ts[a].0 == endpoint ==> ts[a].1 == first_nets[endpoint]
}

fn record_touch(
    first_nets: &mut BTreeMap<(NodeId, PortId), NetId>,
    shared: &mut BTreeSet<(NodeId, PortId)>,
    endpoint: (NodeId, PortId),
    net: NetId,
    Ghost(ts): Ghost<Seq<((NodeId, PortId), NetId)>>,
)
    requires
        shared_state(ts, old(first_nets)@, old(shared)@),
    ensures
        shared_state(ts.push((endpoint, net)), final(first_nets)@, final(shared)@),
{
    let ghost next = ts.push((endpoint, net));
    let ghost last = ts.len() as int;
    match first_nets.get(&endpoint) {
        None => {
            assert(!old(first_nets)@.contains_key(endpoint));
            first_nets.insert(endpoint, net);
            assert forall|e: (NodeId, PortId)| #[trigger] shared@.contains(e) <==> exists|a: int, b: int|
                0 <= a < next.len() && 0 <= b < next.len() && next[a].0 == e && next[b].0 == e && next[a].1 != next[b].1 by {
                if exists|a: int, b: int| 0 <= a < next.len() && 0 <= b < next.len() && next[a].0 == e && next[b].0 == e && next[a].1 != next[b].1 {
                    let (a, b) = choose|a: int, b: int| 0 <= a < next.len() && 0 <= b < next.len() && next[a].0 == e && next[b].0 == e && next[a].1 != next[b].1;
                    if a == last || b == last {
                        let c = if a == last { b } else { a };
                        assert(c != last);
                        assert(ts[c] == next[c]);
                        assert(old(first_nets)@.contains_key(ts[c].0));
                        assert(false);
                    }
                    assert(ts[a] == next[a] && ts[b] == next[b]);
                    assert(old(shared)@.contains(e));
                }
                if shared@.contains(e) {
                    let (a, b) = choose|a: int, b: int| 0 <= a < ts.len() && 0 <= b < ts.len() && ts[a].0 == e && ts[b].0 == e && ts[a].1 != ts[b].1;
                    assert(next[a] == ts[a] && next[b] == ts[b]);
                }
            }
            assert forall|e: (NodeId, PortId)| #[trigger] first_nets@.contains_key(e) <==> exists|a: int|
                0 <= a < next.len() && next[a].0 == e by {
                if e == endpoint {
                    assert(next[last].0 == e);
                } else {
                    if exists|a: int| 0 <= a < next.len() && next[a].0 == e {
                        let a = choose|a: int| 0 <= a < next.len() && next[a].0 == e;
                        assert(ts[a] == next[a]);
                        assert(old(first_nets)@.contains_key(e));
                    }
                    if first_nets@.contains_key(e) {
                        assert(old(first_nets)@.contains_key(e));
                        let a = choose|a: int| 0 <= a < ts.len() && ts[a].0 == e;
                        assert(next[a] == ts[a]);
                    }
                }
            }
            assert forall|e: (NodeId, PortId)| #[trigger] first_nets@.contains_key(e) implies exists|a: int|
                0 <= a < next.len() && next[a].0 == e && next[a].1 == first_nets@[e] by {
                if e == endpoint {
                    assert(next[last].0 == e && next[last].1 == first_nets@[e]);
                } else {
                    assert(old(first_nets)@.contains_key(e));
                    let a = choose|a: int| 0 <= a < ts.len() && ts[a].0 == e && ts[a].1 == first_nets@[e];
                    assert(next[a] == ts[a]);
                }
            }
            assert forall|e: (NodeId, PortId)| #[trigger] first_nets@.contains_key(e) && !shared@.contains(e) implies forall|a: int|
                0 <= a < next.len() && next[a].0 == e ==> next[a].1 == first_nets@[e] by {
                assert forall|a: int| 0 <= a < next.len() && next[a].0 == e implies next[a].1 == first_nets@[e] by {
                    if a < last {
                        assert(ts[a] == next[a]);
                        if e == endpoint {
                            assert(old(first_nets)@.contains_key(ts[a].0));
                        } else {
                            assert(old(first_nets)@.contains_key(e));
                        }
                    }
                }
            }
        },
        Some(first) => {
            let first = *first;
            if first != net {
                shared.insert(endpoint);
            }
            let ghost a0 = choose|a: int| 0 <= a < ts.len() && ts[a].0 == endpoint && ts[a].1 == first;
            assert(next[a0] == ts[a0]);
            assert forall|e: (NodeId, PortId)| #[trigger] shared@.contains(e) <==> exists|a: int, b: int|
                0 <= a < next.len() && 0 <= b < next.len() && next[a].0 == e && next[b].0 == e && next[a].1 != next[b].1 by {
                if exists|a: int, b: int| 0 <= a < next.len() && 0 <= b < next.len() && next[a].0 == e && next[b].0 == e && next[a].1 != next[b].1 {
                    let (a, b) = choose|a: int, b: int| 0 <= a < next.len() && 0 <= b < next.len() && next[a].0 == e && next[b].0 == e && next[a].1 != next[b].1;
                    if a < last && b < last {
                        assert(ts[a] == next[a] && ts[b] == next[b]);
                    } else if e != endpoint || first == net {
                        if e == endpoint && !old(shared)@.contains(e) {
                            let c = if a == last { b } else { a };
                            assert(ts[c] == next[c]);
                        }
                    }
                }
                if old(shared)@.contains(e) {
                    let (a, b) = choose|a: int, b: int| 0 <= a < ts.len() && 0 <= b < ts.len() && ts[a].0 == e && ts[b].0 == e && ts[a].1 != ts[b].1;
                    assert(next[a] == ts[a] && next[b] == ts[b]);
                }
                if e == endpoint && first != net {
                    assert(next[a0].0 == e && next[last].0 == e && next[a0].1 != next[last].1);
                }
            }
            assert forall|e: (NodeId, PortId)| #[trigger] first_nets@.contains_key(e) <==> exists|a: int|
                0 <= a < next.len() && next[a].0 == e by {
                if exists|a: int| 0 <= a < next.len() && next[a].0 == e {
                    let a = choose|a: int| 0 <= a < next.len() && next[a].0 == e;
                    if a < last {
                        assert(ts[a] == next[a]);
                    }
                }
                if first_nets@.contains_key(e) {
                    let a = choose|a: int| 0 <= a < ts.len() && ts[a].0 == e;
                    assert(next[a] == ts[a]);
                }
            }
            assert forall|e: (NodeId, PortId)| #[trigger] first_nets@.contains_key(e) implies exists|a: int|
                0 <= a < next.len() && next[a].0 == e && next[a].1 == first_nets@[e] by {
                let a = choose|a: int| 0 <= a < ts.len() && ts[a].0 == e && ts[a].1 == first_nets@[e];
                assert(next[a] == ts[a]);
            }
            assert forall|e: (NodeId, PortId)| #[trigger] first_nets@.contains_key(e) && !shared@.contains(e) implies forall|a: int|
                0 <= a < next.len() && next[a].0 == e ==> next[a].1 == first_nets@[e] by {
                assert forall|a: int| 0 <= a < next.len() && next[a].0 == e implies next[a].1 == first_nets@[e] by {
                    if a < last {
                        assert(ts[a] == next[a]);
                    }
                }
            }
        },
    }
}

/// Number of the given edges in net `net`.
pub open spec fn net_edge_count(edges: Seq<RouteEdge>, net: NetId) -> nat
    decreases edges.len(),
{
    if edges.len() == 0 {
        0
    } else {
        net_edge_count(edges.drop_last(), net) + (if edges.last().edge.net == net {
            1nat
        } else {
            0nat
        })
    }
}

/// The node positions of the given rank, in increasing order.
pub open spec fn nodes_of_rank(ranks: Seq<usize>, rank: usize) -> Seq<usize>
    decreases ranks.len(),
{
    if ranks.len() == 0 {
        Seq::empty()
    } else {
        let rest = nodes_of_rank(ranks.drop_last(), rank);
        if ranks.last() == rank {
            rest.push((ranks.len() - 1) as usize)
        } else {
            rest
        }
    }
}

/// One more than the largest rank (one for no ranks).
pub open spec fn rank_count(ranks: Seq<usize>) -> int
    decreases ranks.len(),
{
    if ranks.len() == 0 {
        1
    } else {
        let rest = rank_count(ranks.drop_last());
        if ranks.last() + 1 > rest {
            ranks.last() + 1
        } else {
            rest
        }
    }
}

/// Edge `i` of the graph resolved against its node positions and port sides.
pub open spec fn resolved_edge(graph: &IndexedGraph, i: int) -> RouteEdge {
    let edge = graph.edges@[i];
    let source_index = graph.node_index@[edge.source.node];
    let target_index = graph.node_index@[edge.target.node];
    RouteEdge {
        edge,
        participates_in_ranking: graph.rank_edges@[i],
        source_index,
        target_index,
        source_side: graph.ports@[source_index as int]@[edge.source.port],
        target_side: graph.ports@[target_index as int]@[edge.target.port],
    }
}

/// Every edge's endpoints name indexed nodes and ports.
pub open spec fn graph_is_resolvable(graph: &IndexedGraph) -> bool {
    forall|i: int|
        0 <= i < graph.edges@.len() && i < graph.rank_edges@.len() ==> {
            let edge = #[trigger] graph.edges@[i];
            &&& graph.node_index@.contains_key(edge.source.node)
            &&& graph.node_index@.contains_key(edge.target.node)
            &&& graph.node_index@[edge.source.node] < graph.ports@.len()
            &&& graph.node_index@[edge.target.node] < graph.ports@.len()
            &&& graph.ports@[graph.node_index@[edge.source.node] as int]@.contains_key(edge.source.port)
            &&& graph.ports@[graph.node_index@[edge.target.node] as int]@.contains_key(edge.target.port)
        }
}

/// Per-graph routing facts shared by every candidate placement.
pub struct RoutingPlan {
    edges: Vec<RouteEdge>,
    net_edge_counts: BTreeMap<NetId, usize>,
    nodes_by_rank: Vec<Vec<usize>>,
    ranks: Vec<usize>,
    shared_endpoints: BTreeSet<(NodeId, PortId)>,
}

impl RoutingPlan {
    /// The resolved edges, in graph order.
    pub closed spec fn route_edges(&self) -> Seq<RouteEdge> {
        self.edges@
    }

    /// The number of edges of each net.
    pub closed spec fn net_edge_counts(&self) -> Map<NetId, usize> {
        self.net_edge_counts@
    }

    /// The node positions of each rank.
    pub closed spec fn nodes_by_rank(&self) -> Seq<Seq<usize>> {
        self.nodes_by_rank@.map_values(|nodes: Vec<usize>| nodes@)
    }

    /// The rank of each node position.
    pub closed spec fn ranks(&self) -> Seq<usize> {
        self.ranks@
    }

    /// The endpoints where edges of different nets meet.
    pub closed spec fn shared_endpoints(&self) -> Set<(NodeId, PortId)> {
        self.shared_endpoints@
    }

    /// The number of resolved edges.
    pub fn edge_count(&self) -> (count: usize)
        ensures
            count == self.route_edges().len(),
    {
        self.edges.len()
    }

    /// The resolved edge at position `index`.
    pub fn edge_at(&self, index: usize) -> (edge: RouteEdge)
        requires
            index < self.route_edges().len(),
        ensures
            edge == self.route_edges()[index as int],
    {
        self.edges[index]
    }

    /// The number of node positions that have a rank.
    pub fn node_count(&self) -> (count: usize)
        ensures
            count == self.ranks().len(),
    {
        self.ranks.len()
    }

    /// Whether every edge joins node positions below `count`.
    pub fn edges_within(&self, count: usize) -> (within: bool)
        ensures
            within == forall|i: int|
                0 <= i < self.route_edges().len() ==> (#[trigger] self.route_edges()[i]).source_index < count
                    && self.route_edges()[i].target_index < count,
    {
        let mut index: usize = 0;
        while index < self.edges.len()
            invariant
                index <= self.edges@.len(),
                forall|i: int|
                    0 <= i < index ==> (#[trigger] self.edges@[i]).source_index < count && self.edges@[i].target_index
                        < count,
            decreases self.edges@.len() - index,
        {
            let edge = self.edges[index];
            if edge.source_index >= count || edge.target_index >= count {
                return false;
            }
            index = index + 1;
        }
        true
    }

    /// Resolves the graph's edges and groups nodes by rank.
    pub fn new(graph: &IndexedGraph, ranks: &[usize]) -> (plan: Self)
        requires
            graph_is_resolvable(graph),
            forall|i: int| 0 <= i < ranks@.len() ==> ranks@[i] < usize::MAX,
        ensures
            plan.route_edges().len() == if graph.edges@.len() <= graph.rank_edges@.len() {
                graph.edges@.len()
            } else {
                graph.rank_edges@.len()
            },
            forall|i: int| 0 <= i < plan.route_edges().len() ==> #[trigger] plan.route_edges()[i] == resolved_edge(graph, i),
            forall|net: NetId| #[trigger] plan.net_edge_counts().contains_key(net) <==> net_edge_count(plan.route_edges(), net) > 0,
            forall|net: NetId| #[trigger] plan.net_edge_counts().contains_key(net) ==> plan.net_edge_counts()[net] == net_edge_count(plan.route_edges(), net),
            plan.nodes_by_rank().len() == rank_count(ranks@),
            forall|rank: int| 0 <= rank < plan.nodes_by_rank().len() ==> #[trigger] plan.nodes_by_rank()[rank] == nodes_of_rank(ranks@, rank as usize),
            plan.ranks() == ranks@,
            forall|endpoint: (NodeId, PortId)| #[trigger] plan.shared_endpoints().contains(endpoint) <==> endpoint_is_shared(
                plan.route_edges().map_values(|resolved: RouteEdge| resolved.edge),
                endpoint,
            ),
    {
        let count = if graph.edges.len() <= graph.rank_edges.len() {
            graph.edges.len()
        } else {
            graph.rank_edges.len()
        };
        let mut edges: Vec<RouteEdge> = Vec::new();
        let mut plain: Vec<Edge> = Vec::new();
        let mut net_edge_counts: BTreeMap<NetId, usize> = BTreeMap::new();
        let mut index: usize = 0;
        while index < count
            invariant
                index <= count,
                count <= graph.edges@.len(),
                count <= graph.rank_edges@.len(),
                graph_is_resolvable(graph),
                edges@.len() == index,
                forall|i: int| 0 <= i < index ==> #[trigger] edges@[i] == resolved_edge(graph, i),
                plain@ == edges@.map_values(|resolved: RouteEdge| resolved.edge),
                forall|net: NetId| #[trigger] net_edge_counts@.contains_key(net) <==> net_edge_count(edges@, net) > 0,
                forall|net: NetId| #[trigger] net_edge_counts@.contains_key(net) ==> net_edge_counts@[net] == net_edge_count(edges@, net),
                forall|net: NetId| net_edge_count(edges@, net) <= index,
            decreases count - index,
        {
            let edge = graph.edges[index];
            assert(graph.node_index@.contains_key(edge.source.node));
            let source_index = *graph.node_index.get(&edge.source.node).unwrap();
            let target_index = *graph.node_index.get(&edge.target.node).unwrap();
            let source_side = *graph.ports[source_index].get(&edge.source.port).unwrap();
            let target_side = *graph.ports[target_index].get(&edge.target.port).unwrap();
            let resolved = RouteEdge {
                edge,
                participates_in_ranking: graph.rank_edges[index],
                source_index,
                target_index,
                source_side,
                target_side,
            };
            let ghost before = edges@;
            edges.push(resolved);
            plain.push(edge);
            proof {
                assert(edges@.drop_last() =~= before);
                assert forall|net: NetId| net_edge_count(edges@, net) <= index + 1 by {
                    assert(net_edge_count(before, net) <= index);
                }
            }
            let current = match net_edge_counts.get(&edge.net) {
                Some(n) => *n,
                None => 0,
            };
            proof {
                assert(current == net_edge_count(before, edge.net));
            }
            net_edge_counts.insert(edge.net, current + 1);
            proof {
                assert(plain@ =~= edges@.map_values(|resolved: RouteEdge| resolved.edge));
            }
            index = index + 1;
        }
        let shared = shared_endpoints(&plain);
        let mut maximum: usize = 0;
        let mut position: usize = 0;
        while position < ranks.len()
            invariant
                position <= ranks@.len(),
                forall|i: int| 0 <= i < ranks@.len() ==> ranks@[i] < usize::MAX,
                maximum + 1 == rank_count(ranks@.take(position as int)),
                maximum < usize::MAX,
            decreases ranks@.len() - position,
        {
            assert(ranks@.take(position + 1).drop_last() =~= ranks@.take(position as int));
            if ranks[position] > maximum {
                maximum = ranks[position];
            }
            position = position + 1;
        }
        assert(ranks@.take(position as int) =~= ranks@);
        let mut nodes_by_rank: Vec<Vec<usize>> = Vec::new();
        let mut rank: usize = 0;
        while rank < maximum + 1
            invariant
                rank <= maximum + 1,
                maximum < usize::MAX,
                maximum + 1 == rank_count(ranks@),
                nodes_by_rank@.len() == rank,
                forall|r: int| 0 <= r < rank ==> (#[trigger] nodes_by_rank@[r])@ == Seq::<usize>::empty(),
            decreases maximum + 1 - rank,
        {
            nodes_by_rank.push(Vec::new());
            rank = rank + 1;
        }
        proof {
            lemma_rank_count_bounds(ranks@);
        }
        let mut node: usize = 0;
        while node < ranks.len()
            invariant
                node <= ranks@.len(),
                nodes_by_rank@.len() == rank_count(ranks@),
                rank_count(ranks@) <= usize::MAX,
                forall|i: int| 0 <= i < ranks@.len() ==> ranks@[i] < rank_count(ranks@),
                forall|r: int| 0 <= r < nodes_by_rank@.len() ==> (#[trigger] nodes_by_rank@[r])@ == nodes_of_rank(ranks@.take(node as int), r as usize),
            decreases ranks@.len() - node,
        {
            let node_rank = ranks[node];
            let ghost before = nodes_by_rank@;
            nodes_by_rank[node_rank].push(node);
            proof {
                assert(nodes_by_rank@[node_rank as int]@ == before[node_rank as int]@.push(node));
                assert(ranks@.take(node + 1).drop_last() =~= ranks@.take(node as int));
                assert forall|r: int| 0 <= r < nodes_by_rank@.len() implies (#[trigger] nodes_by_rank@[r])@ == nodes_of_rank(ranks@.take(node + 1), r as usize) by {
                    let t = ranks@.take(node + 1);
                    assert(t.last() == node_rank);
                    assert(t.len() - 1 == node);
                    assert(nodes_of_rank(t, r as usize) == if t.last() == r as usize {
                        nodes_of_rank(t.drop_last(), r as usize).push((t.len() - 1) as usize)
                    } else {
                        nodes_of_rank(t.drop_last(), r as usize)
                    });
                    if r != node_rank {
                        assert(nodes_by_rank@[r] == before[r]);
                    }
                }
            }
            node = node + 1;
        }
        assert(ranks@.take(node as int) =~= ranks@);
        let mut rank_copy: Vec<usize> = Vec::new();
        let mut k: usize = 0;
        while k < ranks.len()
            invariant
                k <= ranks@.len(),
                rank_copy@ == ranks@.take(k as int),
            decreases ranks@.len() - k,
        {
            rank_copy.push(ranks[k]);
            k = k + 1;
            assert(rank_copy@ =~= ranks@.take(k as int));
        }
        assert(rank_copy@ =~= ranks@);
        let plan = RoutingPlan {
            edges,
            net_edge_counts,
            nodes_by_rank,
            ranks: rank_copy,
            shared_endpoints: shared,
        };
        assert(plan.nodes_by_rank().len() == rank_count(ranks@));
        assert forall|r: int| 0 <= r < plan.nodes_by_rank().len() implies #[trigger] plan.nodes_by_rank()[r] == nodes_of_rank(ranks@, r as usize) by {
            assert(plan.nodes_by_rank()[r] == plan.nodes_by_rank@[r]@);
        }
        plan
    }
}

proof fn lemma_rank_count_bounds(ranks: Seq<usize>)
    ensures
        rank_count(ranks) >= 1,
        forall|i: int| 0 <= i < ranks.len() ==> ranks[i] < rank_count(ranks),
    decreases ranks.len(),
{
    if ranks.len() > 0 {
        lemma_rank_count_bounds(ranks.drop_last());
        assert forall|i: int| 0 <= i < ranks.len() implies ranks[i] < rank_count(ranks) by {
            if i < ranks.len() - 1 {
                assert(ranks.drop_last()[i] == ranks[i]);
            }
        }
    }
}

/// Number of edges routed with both the plan and a sparse span entry.
pub open spec fn spanned_count(edges: Seq<RouteEdge>, spans: Seq<Option<(usize, usize)>>) -> int {
    if edges.len() <= spans.len() {
        edges.len() as int
    } else {
        spans.len() as int
    }
}

/// Some edge of net `net` does not take part in ranking (a feedback edge).
pub open spec fn is_feedback_net(edges: Seq<RouteEdge>, net: NetId) -> bool {
    exists|i: int| 0 <= i < edges.len() && !(#[trigger] edges[i]).participates_in_ranking && edges[i].edge.net == net
}

/// Edge `i` of a feedback net is routed around the outside.
pub open spec fn outer_feedback_edge(edges: Seq<RouteEdge>, spans: Seq<Option<(usize, usize)>>, i: int) -> bool {
    0 <= i < spanned_count(edges, spans) && spans[i] is None && is_feedback_net(edges, edges[i].edge.net)
}

/// Among the first `k` edges, some feedback net has outer edges both above
/// and below the layout.
pub open spec fn feedback_split_within(
    edges: Seq<RouteEdge>,
    spans: Seq<Option<(usize, usize)>>,
    lanes: Map<EdgeId, OuterLane>,
    k: int,
) -> bool {
    exists|i: int, j: int|
        0 <= i < k && 0 <= j < k && #[trigger] outer_feedback_edge(edges, spans, i) && #[trigger] outer_feedback_edge(edges, spans, j)
            && edges[i].edge.net == edges[j].edge.net && lanes[edges[i].edge.id].side == OuterSide::Top
            && lanes[edges[j].edge.id].side == OuterSide::Bottom
}

/// The per-net side flags agree with the sides seen among the first `k` edges.
spec fn sides_track(
    edges: Seq<RouteEdge>,
    spans: Seq<Option<(usize, usize)>>,
    lanes: Map<EdgeId, OuterLane>,
    k: int,
    sides: Map<NetId, (bool, bool)>,
) -> bool {
    &&& forall|net: NetId| #[trigger] sides.contains_key(net) ==> sides[net] == (
        sides_seen(edges, spans, lanes, k, net, OuterSide::Top),
        sides_seen(edges, spans, lanes, k, net, OuterSide::Bottom),
    )
    &&& forall|net: NetId| !sides.contains_key(net) ==> !#[trigger] sides_seen(edges, spans, lanes, k, net, OuterSide::Top)
        && !sides_seen(edges, spans, lanes, k, net, OuterSide::Bottom)
}

/// Sides seen so far for one net's outer feedback edges.
spec fn sides_seen(
    edges: Seq<RouteEdge>,
    spans: Seq<Option<(usize, usize)>>,
    lanes: Map<EdgeId, OuterLane>,
    k: int,
    net: NetId,
    side: OuterSide,
) -> bool {
    exists|i: int| 0 <= i < k && #[trigger] outer_feedback_edge(edges, spans, i) && edges[i].edge.net == net && lanes[edges[i].edge.id].side == side
}

/// Whether a feedback net has outer edges on both sides of the layout.
/// The scan stops at the first such net, so only the outer feedback edges
/// before that point need an outer lane.
pub fn has_split_feedback_net(
    plan: &RoutingPlan,
    sparse_spans: &[Option<(usize, usize)>],
    outer_lanes: &BTreeMap<EdgeId, OuterLane>,
) -> (split: bool)
    requires
        forall|i: int|
            outer_feedback_edge(plan.route_edges(), sparse_spans@, i) && !feedback_split_within(
                plan.route_edges(),
                sparse_spans@,
                outer_lanes@,
                i,
            ) ==> outer_lanes@.contains_key(#[trigger] plan.route_edges()[i].edge.id),
    ensures
        split == feedback_split_within(
            plan.route_edges(),
            sparse_spans@,
            outer_lanes@,
            spanned_count(plan.route_edges(), sparse_spans@),
        ),
{
    let ghost edges = plan.edges@;
    let ghost spans = sparse_spans@;
    let ghost lanes = outer_lanes@;
    let mut feedback: BTreeSet<NetId> = BTreeSet::new();
    let mut index: usize = 0;
    while index < plan.edges.len()
        invariant
            index <= edges.len(),
            edges == plan.edges@,
            forall|net: NetId| #[trigger] feedback@.contains(net) <==> exists|i: int|
                0 <= i < index && !(#[trigger] edges[i]).participates_in_ranking && edges[i].edge.net == net,
        decreases edges.len() - index,
    {
        let resolved = plan.edges[index];
        if !resolved.participates_in_ranking {
            feedback.insert(resolved.edge.net);
        }
        proof {
            assert forall|net: NetId| #[trigger] feedback@.contains(net) <==> exists|i: int|
                0 <= i < index + 1 && !(#[trigger] edges[i]).participates_in_ranking && edges[i].edge.net == net by {
                if exists|i: int| 0 <= i < index + 1 && !(#[trigger] edges[i]).participates_in_ranking && edges[i].edge.net == net {
                    let i = choose|i: int| 0 <= i < index + 1 && !(#[trigger] edges[i]).participates_in_ranking && edges[i].edge.net == net;
                    if i < index {
                        assert(exists|i: int| 0 <= i < index && !(#[trigger] edges[i]).participates_in_ranking && edges[i].edge.net == net);
                    }
                }
            }
        }
        index = index + 1;
    }
    let count = if plan.edges.len() <= sparse_spans.len() {
        plan.edges.len()
    } else {
        sparse_spans.len()
    };
    assert(plan.route_edges() == edges);
    let mut sides: BTreeMap<NetId, (bool, bool)> = BTreeMap::new();
    let mut index: usize = 0;
    while index < count
        invariant
            index <= count,
            count == spanned_count(edges, spans),
            edges == plan.edges@,
            spans == sparse_spans@,
            lanes == outer_lanes@,
            forall|net: NetId| #[trigger] feedback@.contains(net) <==> is_feedback_net(edges, net),
            forall|i: int|
                outer_feedback_edge(edges, spans, i) && !feedback_split_within(edges, spans, lanes, i)
                    ==> lanes.contains_key(#[trigger] edges[i].edge.id),
            !feedback_split_within(edges, spans, lanes, index as int),
            forall|net: NetId| #[trigger] sides@.contains_key(net) ==> sides@[net] == (
                sides_seen(edges, spans, lanes, index as int, net, OuterSide::Top),
                sides_seen(edges, spans, lanes, index as int, net, OuterSide::Bottom),
            ),
            forall|net: NetId| !sides@.contains_key(net) ==> !#[trigger] sides_seen(edges, spans, lanes, index as int, net, OuterSide::Top)
                && !sides_seen(edges, spans, lanes, index as int, net, OuterSide::Bottom),
        decreases count - index,
    {
        let resolved = plan.edges[index];
        let net = resolved.edge.net;
        let ghost considered = outer_feedback_edge(edges, spans, index as int);
        if sparse_spans[index].is_none() && feedback.contains(&net) {
            assert(considered);
            assert(lanes.contains_key(edges[index as int].edge.id));
            let lane = *outer_lanes.get(&resolved.edge.id).unwrap();
            proof {
                lemma_sides_step(edges, spans, lanes, index as int);
            }
            let (mut top, mut bottom) = match sides.get(&net) {
                Some(seen) => *seen,
                None => (false, false),
            };
            assert(top == sides_seen(edges, spans, lanes, index as int, net, OuterSide::Top));
            assert(bottom == sides_seen(edges, spans, lanes, index as int, net, OuterSide::Bottom));
            let ghost old_sides = sides@;
            match lane.side {
                OuterSide::Top => {
                    top = true;
                },
                OuterSide::Bottom => {
                    bottom = true;
                },
            }
            sides.insert(net, (top, bottom));
            assert(top == sides_seen(edges, spans, lanes, index as int + 1, net, OuterSide::Top));
            assert(bottom == sides_seen(edges, spans, lanes, index as int + 1, net, OuterSide::Bottom));
            proof {
                assert forall|n: NetId| #[trigger] sides@.contains_key(n) implies sides@[n] == (
                    sides_seen(edges, spans, lanes, index as int + 1, n, OuterSide::Top),
                    sides_seen(edges, spans, lanes, index as int + 1, n, OuterSide::Bottom),
                ) by {
                    if n != net {
                        assert(old_sides.contains_key(n));
                        assert(sides_seen(edges, spans, lanes, index as int + 1, n, OuterSide::Top) == sides_seen(edges, spans, lanes, index as int, n, OuterSide::Top));
                        assert(sides_seen(edges, spans, lanes, index as int + 1, n, OuterSide::Bottom) == sides_seen(edges, spans, lanes, index as int, n, OuterSide::Bottom));
                    }
                }
                assert forall|n: NetId| !sides@.contains_key(n) implies !#[trigger] sides_seen(edges, spans, lanes, index as int + 1, n, OuterSide::Top)
                    && !sides_seen(edges, spans, lanes, index as int + 1, n, OuterSide::Bottom) by {
                    assert(!old_sides.contains_key(n));
                    assert(!sides_seen(edges, spans, lanes, index as int, n, OuterSide::Top));
                    assert(!sides_seen(edges, spans, lanes, index as int, n, OuterSide::Bottom));
                }
            }
            if top && bottom {
                proof {
                    let (a, b) = if lane.side == OuterSide::Top {
                        let j = choose|j: int| 0 <= j < index && #[trigger] outer_feedback_edge(edges, spans, j) && edges[j].edge.net == net && lanes[edges[j].edge.id].side == OuterSide::Bottom;
                        (index as int, j)
                    } else {
                        let j = choose|j: int| 0 <= j < index && #[trigger] outer_feedback_edge(edges, spans, j) && edges[j].edge.net == net && lanes[edges[j].edge.id].side == OuterSide::Top;
                        (j, index as int)
                    };
                    lemma_split_monotone(edges, spans, lanes, a, b, index as int + 1, count as int);
                }
                return true;
            }
            proof {
                assert(!feedback_split_within(edges, spans, lanes, index as int + 1)) by {
                    if feedback_split_within(edges, spans, lanes, index as int + 1) {
                        let (i, j) = choose|i: int, j: int|
                            0 <= i < index + 1 && 0 <= j < index + 1 && #[trigger] outer_feedback_edge(edges, spans, i) && #[trigger] outer_feedback_edge(edges, spans, j)
                                && edges[i].edge.net == edges[j].edge.net && lanes[edges[i].edge.id].side == OuterSide::Top
                                && lanes[edges[j].edge.id].side == OuterSide::Bottom;
                        if i < index && j < index {
                            assert(feedback_split_within(edges, spans, lanes, index as int));
                        } else if i == index {
                            assert(edges[j].edge.net == net);
                            assert(outer_feedback_edge(edges, spans, j) && edges[j].edge.net == net && lanes[edges[j].edge.id].side == OuterSide::Bottom);
                            assert(sides_seen(edges, spans, lanes, index as int + 1, net, OuterSide::Bottom));
                            assert(sides_seen(edges, spans, lanes, index as int + 1, net, OuterSide::Top));
                        } else {
                            assert(edges[i].edge.net == net);
                            assert(outer_feedback_edge(edges, spans, i) && edges[i].edge.net == net && lanes[edges[i].edge.id].side == OuterSide::Top);
                            assert(sides_seen(edges, spans, lanes, index as int + 1, net, OuterSide::Top));
                            assert(sides_seen(edges, spans, lanes, index as int + 1, net, OuterSide::Bottom));
                        }
                    }
                }
            }
        } else {
            assert(!considered);
            proof {
                lemma_sides_step(edges, spans, lanes, index as int);
                assert forall|n: NetId| !sides@.contains_key(n) implies !#[trigger] sides_seen(edges, spans, lanes, index as int + 1, n, OuterSide::Top)
                    && !sides_seen(edges, spans, lanes, index as int + 1, n, OuterSide::Bottom) by {
                    assert(!sides_seen(edges, spans, lanes, index as int, n, OuterSide::Top));
                    assert(!sides_seen(edges, spans, lanes, index as int, n, OuterSide::Bottom));
                }
                assert forall|n: NetId| #[trigger] sides@.contains_key(n) implies sides@[n] == (
                    sides_seen(edges, spans, lanes, index as int + 1, n, OuterSide::Top),
                    sides_seen(edges, spans, lanes, index as int + 1, n, OuterSide::Bottom),
                ) by {
                    assert(sides_seen(edges, spans, lanes, index as int + 1, n, OuterSide::Top) == sides_seen(edges, spans, lanes, index as int, n, OuterSide::Top));
                    assert(sides_seen(edges, spans, lanes, index as int + 1, n, OuterSide::Bottom) == sides_seen(edges, spans, lanes, index as int, n, OuterSide::Bottom));
                }
                assert(!feedback_split_within(edges, spans, lanes, index as int + 1)) by {
                    if feedback_split_within(edges, spans, lanes, index as int + 1) {
                        let (i, j) = choose|i: int, j: int|
                            0 <= i < index + 1 && 0 <= j < index + 1 && #[trigger] outer_feedback_edge(edges, spans, i) && #[trigger] outer_feedback_edge(edges, spans, j)
                                && edges[i].edge.net == edges[j].edge.net && lanes[edges[i].edge.id].side == OuterSide::Top
                                && lanes[edges[j].edge.id].side == OuterSide::Bottom;
                        assert(feedback_split_within(edges, spans, lanes, index as int));
                    }
                }
            }
        }
        index = index + 1;
    }
    false
}

/// Edge `i` is routed around the outside (it has no sparse span).
pub open spec fn outer_edge(edges: Seq<RouteEdge>, spans: Seq<Option<(usize, usize)>>, i: int) -> bool {
    0 <= i < spanned_count(edges, spans) && spans[i] is None
}

/// Number of outer edges of net `net` among the first `k` edges.
pub open spec fn outer_branch_count(
    edges: Seq<RouteEdge>,
    spans: Seq<Option<(usize, usize)>>,
    k: int,
    net: NetId,
) -> nat
    decreases k,
{
    if k <= 0 {
        0
    } else {
        outer_branch_count(edges, spans, k - 1, net) + (if outer_edge(edges, spans, k - 1)
            && edges[k - 1].edge.net == net {
            1nat
        } else {
            0nat
        })
    }
}

/// All outer edges of net `net` leave from one source endpoint.
pub open spec fn single_outer_source(
    edges: Seq<RouteEdge>,
    spans: Seq<Option<(usize, usize)>>,
    net: NetId,
) -> bool {
    forall|i: int, j: int|
        #[trigger] outer_edge(edges, spans, i) && #[trigger] outer_edge(edges, spans, j) && edges[i].edge.net == net
            && edges[j].edge.net == net ==> edges[i].edge.source == edges[j].edge.source
}

/// The channel ordering priority of a net: its number of outer branches when
/// it is a single-source fanout with at least `MIN_FANOUT_AWARE_CHANNEL_EDGES`
/// of them, zero otherwise.
pub open spec fn fanout_priority(
    edges: Seq<RouteEdge>,
    spans: Seq<Option<(usize, usize)>>,
    net: NetId,
) -> nat {
    let branches = outer_branch_count(edges, spans, spanned_count(edges, spans), net);
    if branches >= MIN_FANOUT_AWARE_CHANNEL_EDGES && single_outer_source(edges, spans, net) {
        branches
    } else {
        0
    }
}

/// Number of outer edges among the first `k` whose net has a positive
/// fanout priority: the outer branches of all qualifying fanouts.
pub open spec fn fanout_branch_total(
    edges: Seq<RouteEdge>,
    spans: Seq<Option<(usize, usize)>>,
    k: int,
) -> nat
    decreases k,
{
    if k <= 0 {
        0
    } else {
        fanout_branch_total(edges, spans, k - 1) + (if outer_edge(edges, spans, k - 1) && fanout_priority(
            edges,
            spans,
            edges[k - 1].edge.net,
        ) > 0 {
            1nat
        } else {
            0nat
        })
    }
}

/// Source of the first outer edge of net `net` among the first `k` edges.
spec fn first_outer_source(
    edges: Seq<RouteEdge>,
    spans: Seq<Option<(usize, usize)>>,
    k: int,
    net: NetId,
) -> Endpoint
    decreases k,
{
    if k <= 0 {
        edges[0].edge.source
    } else if outer_branch_count(edges, spans, k - 1, net) > 0 {
        first_outer_source(edges, spans, k - 1, net)
    } else {
        edges[k - 1].edge.source
    }
}

/// What the scan knows about one net after the first `k` edges.
spec fn fanout_record_holds(
    edges: Seq<RouteEdge>,
    spans: Seq<Option<(usize, usize)>>,
    k: int,
    net: NetId,
    record: (Endpoint, usize, bool),
) -> bool {
    &&& record.0 == first_outer_source(edges, spans, k, net)
    &&& record.1 == outer_branch_count(edges, spans, k, net)
    &&& record.2 == forall|i: int| 0 <= i < k && #[trigger] outer_edge(edges, spans, i) && edges[i].edge.net == net
        ==> edges[i].edge.source == record.0
}

proof fn lemma_first_outer_source(
    edges: Seq<RouteEdge>,
    spans: Seq<Option<(usize, usize)>>,
    k: int,
    net: NetId,
)
    requires
        0 <= k,
        outer_branch_count(edges, spans, k, net) > 0,
    ensures
        exists|i: int| 0 <= i < k && #[trigger] outer_edge(edges, spans, i) && edges[i].edge.net == net
            && edges[i].edge.source == first_outer_source(edges, spans, k, net),
    decreases k,
{
    if outer_branch_count(edges, spans, k - 1, net) > 0 {
        lemma_first_outer_source(edges, spans, k - 1, net);
    } else {
        assert(outer_edge(edges, spans, k - 1));
    }
}

proof fn lemma_branch_count_zero(
    edges: Seq<RouteEdge>,
    spans: Seq<Option<(usize, usize)>>,
    k: int,
    net: NetId,
    i: int,
)
    requires
        0 <= i < k,
        outer_edge(edges, spans, i),
        edges[i].edge.net == net,
    ensures
        outer_branch_count(edges, spans, k, net) > 0,
    decreases k,
{
    if i < k - 1 {
        lemma_branch_count_zero(edges, spans, k - 1, net, i);
    }
}

proof fn lemma_branch_count_bound(
    edges: Seq<RouteEdge>,
    spans: Seq<Option<(usize, usize)>>,
    k: int,
    net: NetId,
)
    requires
        0 <= k,
    ensures
        outer_branch_count(edges, spans, k, net) <= k,
        fanout_branch_total(edges, spans, k) <= k,
    decreases k,
{
    if k > 0 {
        lemma_branch_count_bound(edges, spans, k - 1, net);
    }
}

/// `lanes` numbers the outer nets in increasing (priority, net) order.
pub open spec fn ranks_by_priority(
    lanes: Map<NetId, usize>,
    nets: Set<NetId>,
    edges: Seq<RouteEdge>,
    spans: Seq<Option<(usize, usize)>>,
) -> bool {
    &&& lanes.dom() == nets
    &&& forall|net: NetId| #[trigger] nets.contains(net) ==> lanes[net] < nets.len()
    &&& forall|a: NetId, b: NetId|
        nets.contains(a) && nets.contains(b) ==> (pair_before(
            (fanout_priority(edges, spans, a) as usize, a),
            (fanout_priority(edges, spans, b) as usize, b),
        ) <==> #[trigger] lanes[a] < #[trigger] lanes[b])
}

/// Orders the outer channels by fanout when enough outer branches belong to
/// large single-source fanouts; `None` otherwise.
pub fn fanout_outer_channel_lane_indices(
    plan: &RoutingPlan,
    sparse_spans: &[Option<(usize, usize)>],
    outer_nets: &BTreeSet<NetId>,
) -> (lanes: Option<BTreeMap<NetId, usize>>)
    ensures
        lanes is Some <==> fanout_branch_total(
            plan.route_edges(),
            sparse_spans@,
            spanned_count(plan.route_edges(), sparse_spans@),
        ) >= MIN_FANOUT_AWARE_OUTER_BRANCHES,
        lanes matches Some(m) ==> ranks_by_priority(m@, outer_nets@, plan.route_edges(), sparse_spans@),
{
    let ghost edges = plan.edges@;
    let ghost spans = sparse_spans@;
    let count = if plan.edges.len() <= sparse_spans.len() {
        plan.edges.len()
    } else {
        sparse_spans.len()
    };
    let mut records: BTreeMap<NetId, (Endpoint, usize, bool)> = BTreeMap::new();
    let mut index: usize = 0;
    while index < count
        invariant
            index <= count,
            count == spanned_count(edges, spans),
            edges == plan.edges@,
            spans == sparse_spans@,
            forall|net: NetId| #[trigger] records@.contains_key(net) <==> outer_branch_count(edges, spans, index as int, net) > 0,
            forall|net: NetId| #[trigger] records@.contains_key(net) ==> fanout_record_holds(edges, spans, index as int, net, records@[net]),
        decreases count - index,
    {
        let ghost before = records@;
        if sparse_spans[index].is_none() {
            let resolved = plan.edges[index];
            let net = resolved.edge.net;
            proof {
                lemma_branch_count_bound(edges, spans, index as int, net);
            }
            match records.get(&net) {
                Some(record) => {
                    let (source, branches, eligible) = *record;
                    records.insert(net, (source, branches + 1, eligible && resolved.edge.source == source));
                },
                None => {
                    records.insert(net, (resolved.edge.source, 1, true));
                    proof {
                        assert forall|i: int| 0 <= i < index && #[trigger] outer_edge(edges, spans, i) implies edges[i].edge.net != net by {
                            if edges[i].edge.net == net {
                                lemma_branch_count_zero(edges, spans, index as int, net, i);
                            }
                        }
                    }
                },
            }
        }
        proof {
            assert forall|net: NetId| #[trigger] records@.contains_key(net) <==> outer_branch_count(edges, spans, index + 1, net) > 0 by {
                if !before.contains_key(net) {
                    assert(outer_branch_count(edges, spans, index as int, net) == 0);
                }
            }
            assert forall|net: NetId| #[trigger] records@.contains_key(net) implies fanout_record_holds(edges, spans, index + 1, net, records@[net]) by {
                let record = records@[net];
                let is_new = outer_edge(edges, spans, index as int) && edges[index as int].edge.net == net;
                if is_new && before.contains_key(net) {
                    assert(record.2 == forall|i: int| 0 <= i < index + 1 && #[trigger] outer_edge(edges, spans, i) && edges[i].edge.net == net
                        ==> edges[i].edge.source == record.0) by {
                        if !record.2 {
                            if before[net].2 {
                                assert(edges[index as int].edge.source != record.0);
                            } else {
                                let i = choose|i: int| !(0 <= i < index && #[trigger] outer_edge(edges, spans, i) && edges[i].edge.net == net
                                    ==> edges[i].edge.source == before[net].0);
                            }
                        }
                    }
                } else if is_new {
                    assert(record.2 == forall|i: int| 0 <= i < index + 1 && #[trigger] outer_edge(edges, spans, i) && edges[i].edge.net == net
                        ==> edges[i].edge.source == record.0) by {
                        assert(outer_branch_count(edges, spans, index as int, net) == 0);
                        assert forall|i: int| 0 <= i < index + 1 && #[trigger] outer_edge(edges, spans, i) && edges[i].edge.net == net
                            implies edges[i].edge.source == record.0 by {
                            if i < index {
                                lemma_branch_count_zero(edges, spans, index as int, net, i);
                            }
                        }
                    }
                } else {
                    assert(record == before[net]);
                    assert(record.2 == forall|i: int| 0 <= i < index + 1 && #[trigger] outer_edge(edges, spans, i) && edges[i].edge.net == net
                        ==> edges[i].edge.source == record.0) by {
                        if !record.2 {
                            let i = choose|i: int| !(0 <= i < index && #[trigger] outer_edge(edges, spans, i) && edges[i].edge.net == net
                                ==> edges[i].edge.source == record.0);
                        }
                    }
                }
            }
        }
        index = index + 1;
    }
    proof {
        assert forall|net: NetId| #[trigger] records@.contains_key(net) implies (records@[net].1 >= MIN_FANOUT_AWARE_CHANNEL_EDGES && records@[net].2)
            == (fanout_priority(edges, spans, net) > 0) && (fanout_priority(edges, spans, net) > 0 ==> fanout_priority(edges, spans, net) == records@[net].1) by {
            let record = records@[net];
            lemma_first_outer_source(edges, spans, count as int, net);
            if record.2 {
                assert forall|i: int, j: int|
                    #[trigger] outer_edge(edges, spans, i) && #[trigger] outer_edge(edges, spans, j) && edges[i].edge.net == net
                        && edges[j].edge.net == net implies edges[i].edge.source == edges[j].edge.source by {
                }
            } else {
                let i = choose|i: int| !(0 <= i < count && #[trigger] outer_edge(edges, spans, i) && edges[i].edge.net == net
                    ==> edges[i].edge.source == record.0);
                let j = choose|j: int| 0 <= j < count && #[trigger] outer_edge(edges, spans, j) && edges[j].edge.net == net
                    && edges[j].edge.source == first_outer_source(edges, spans, count as int, net);
                assert(!single_outer_source(edges, spans, net));
            }
        }
        assert forall|net: NetId| !records@.contains_key(net) implies fanout_priority(edges, spans, net) == 0 by {
        }
    }
    let mut total: usize = 0;
    let mut index: usize = 0;
    while index < count
        invariant
            index <= count,
            count == spanned_count(edges, spans),
            edges == plan.edges@,
            spans == sparse_spans@,
            total == fanout_branch_total(edges, spans, index as int),
            forall|net: NetId| #[trigger] records@.contains_key(net) ==> (records@[net].1 >= MIN_FANOUT_AWARE_CHANNEL_EDGES && records@[net].2)
                == (fanout_priority(edges, spans, net) > 0),
            forall|net: NetId| !records@.contains_key(net) ==> #[trigger] fanout_priority(edges, spans, net) == 0,
        decreases count - index,
    {
        proof {
            lemma_branch_count_bound(edges, spans, index as int, 0);
        }
        if sparse_spans[index].is_none() {
            let net = plan.edges[index].edge.net;
            match records.get(&net) {
                Some(record) => {
                    if record.1 >= MIN_FANOUT_AWARE_CHANNEL_EDGES && record.2 {
                        total = total + 1;
                    }
                },
                None => {},
            }
        }
        index = index + 1;
    }
    if total < MIN_FANOUT_AWARE_OUTER_BRANCHES {
        return None;
    }
    let keys = set_keys(outer_nets);
    let mut pairs: Vec<(usize, NetId)> = Vec::new();
    let mut k: usize = 0;
    while k < keys.len()
        invariant
            k <= keys@.len(),
            lists_set(keys@, outer_nets@),
            pairs@.len() == k,
            forall|t: int| 0 <= t < k ==> #[trigger] pairs@[t] == (fanout_priority(edges, spans, keys@[t]) as usize, keys@[t]),
            forall|net: NetId| #[trigger] records@.contains_key(net) ==> (records@[net].1 >= MIN_FANOUT_AWARE_CHANNEL_EDGES && records@[net].2)
                == (fanout_priority(edges, spans, net) > 0) && (fanout_priority(edges, spans, net) > 0 ==> fanout_priority(edges, spans, net) == records@[net].1),
            forall|net: NetId| !records@.contains_key(net) ==> #[trigger] fanout_priority(edges, spans, net) == 0,
        decreases keys@.len() - k,
    {
        let net = keys[k];
        let priority = match records.get(&net) {
            Some(record) => {
                if record.1 >= MIN_FANOUT_AWARE_CHANNEL_EDGES && record.2 {
                    record.1
                } else {
                    0
                }
            },
            None => 0,
        };
        pairs.push((priority, net));
        k = k + 1;
    }
    assert(pairs@.no_duplicates()) by {
        assert forall|a: int, b: int| 0 <= a < pairs@.len() && 0 <= b < pairs@.len() && a != b implies pairs@[a] != pairs@[b] by {
            if a < b {
                assert(keys@[a] < keys@[b]);
            } else {
                assert(keys@[b] < keys@[a]);
            }
        }
    }
    let sorted = sort_pairs(&pairs);
    assert forall|t: int| 0 <= t < sorted@.len() implies #[trigger] sorted@[t].0 == fanout_priority(edges, spans, sorted@[t].1) as usize by {
        assert(sorted@.contains(sorted@[t]));
        let i = choose|i: int| 0 <= i < pairs@.len() && pairs@[i] == sorted@[t];
    }
    let mut lanes: BTreeMap<NetId, usize> = BTreeMap::new();
    let mut position: usize = 0;
    while position < sorted.len()
        invariant
            position <= sorted@.len(),
            sorted@.len() == pairs@.len(),
            forall|i: int, j: int| 0 <= i < j < sorted@.len() ==> pair_before(#[trigger] sorted@[i], #[trigger] sorted@[j]),
            forall|t: int| 0 <= t < sorted@.len() ==> #[trigger] sorted@[t].0 == fanout_priority(edges, spans, sorted@[t].1) as usize,
            lanes@.dom() == sorted@.take(position as int).map_values(|p: (usize, NetId)| p.1).to_set(),
            forall|t: int| 0 <= t < position ==> #[trigger] lanes@[sorted@[t].1] == t,
        decreases sorted@.len() - position,
    {
        proof {
            let before = sorted@.take(position as int).map_values(|p: (usize, NetId)| p.1);
            before.lemma_push_to_set_commute(sorted@[position as int].1);
            assert(sorted@.take(position + 1).map_values(|p: (usize, NetId)| p.1) =~= before.push(sorted@[position as int].1));
            assert forall|t: int| 0 <= t < position implies sorted@[t].1 != sorted@[position as int].1 by {
                assert(pair_before(sorted@[t], sorted@[position as int]));
                assert(sorted@[t].0 == fanout_priority(edges, spans, sorted@[t].1) as usize);
                assert(sorted@[position as int].0 == fanout_priority(edges, spans, sorted@[position as int].1) as usize);
            }
        }
        lanes.insert(sorted[position].1, position);
        position = position + 1;
    }
    proof {
        assert(sorted@.take(position as int) =~= sorted@);
        let nets = outer_nets@;
        assert forall|net: NetId| #[trigger] nets.contains(net) implies exists|t: int| 0 <= t < sorted@.len() && sorted@[t].1 == net && sorted@[t].0 == fanout_priority(edges, spans, net) as usize by {
            let i = choose|i: int| 0 <= i < keys@.len() && keys@[i] == net;
            assert(pairs@.contains(pairs@[i]));
            assert(sorted@.contains(pairs@[i]));
        }
        assert forall|t: int| 0 <= t < sorted@.len() implies nets.contains(#[trigger] sorted@[t].1) && sorted@[t].0 == fanout_priority(edges, spans, sorted@[t].1) as usize by {
            assert(sorted@.contains(sorted@[t]));
            let i = choose|i: int| 0 <= i < pairs@.len() && pairs@[i] == sorted@[t];
        }
        assert forall|net: NetId| lanes@.contains_key(net) <==> nets.contains(net) by {
            if nets.contains(net) {
                let t = choose|t: int| 0 <= t < sorted@.len() && sorted@[t].1 == net && sorted@[t].0 == fanout_priority(edges, spans, net) as usize;
                assert(sorted@.map_values(|p: (usize, NetId)| p.1)[t] == net);
            }
            if lanes@.contains_key(net) {
                let names = sorted@.map_values(|p: (usize, NetId)| p.1);
                assert(names.to_set().contains(net));
                let t = choose|t: int| 0 <= t < names.len() && #[trigger] names[t] == net;
                assert(nets.contains(sorted@[t].1));
            }
        }
        assert(lanes@.dom() =~= nets);
        assert forall|net: NetId| #[trigger] nets.contains(net) implies lanes@[net] < nets.len() by {
            let t = choose|t: int| 0 <= t < sorted@.len() && sorted@[t].1 == net && sorted@[t].0 == fanout_priority(edges, spans, net) as usize;
            assert(lanes@[sorted@[t].1] == t);
        }
        assert forall|a: NetId, b: NetId| nets.contains(a) && nets.contains(b) implies (pair_before(
            (fanout_priority(edges, spans, a) as usize, a),
            (fanout_priority(edges, spans, b) as usize, b),
        ) <==> #[trigger] lanes@[a] < #[trigger] lanes@[b]) by {
            let s = choose|t: int| 0 <= t < sorted@.len() && sorted@[t].1 == a && sorted@[t].0 == fanout_priority(edges, spans, a) as usize;
            let t = choose|t: int| 0 <= t < sorted@.len() && sorted@[t].1 == b && sorted@[t].0 == fanout_priority(edges, spans, b) as usize;
            assert(lanes@[sorted@[s].1] == s);
            assert(lanes@[sorted@[t].1] == t);
            if s < t {
                assert(pair_before(sorted@[s], sorted@[t]));
            } else if t < s {
                assert(pair_before(sorted@[t], sorted@[s]));
            }
        }
    }
    Some(lanes)
}

proof fn lemma_sides_step(
    edges: Seq<RouteEdge>,
    spans: Seq<Option<(usize, usize)>>,
    lanes: Map<EdgeId, OuterLane>,
    k: int,
)
    requires
        0 <= k,
    ensures
        forall|net: NetId, side: OuterSide| #[trigger] sides_seen(edges, spans, lanes, k + 1, net, side) <==> (sides_seen(edges, spans, lanes, k, net, side) || (
            outer_feedback_edge(edges, spans, k) && edges[k].edge.net == net && lanes[edges[k].edge.id].side == side)),
{
    assert forall|net: NetId, side: OuterSide| #[trigger] sides_seen(edges, spans, lanes, k + 1, net, side) <==> (sides_seen(edges, spans, lanes, k, net, side) || (
        outer_feedback_edge(edges, spans, k) && edges[k].edge.net == net && lanes[edges[k].edge.id].side == side)) by {
        if sides_seen(edges, spans, lanes, k + 1, net, side) {
            let i = choose|i: int| 0 <= i < k + 1 && #[trigger] outer_feedback_edge(edges, spans, i) && edges[i].edge.net == net && lanes[edges[i].edge.id].side == side;
            if i < k {
                assert(sides_seen(edges, spans, lanes, k, net, side));
            }
        }
        if sides_seen(edges, spans, lanes, k, net, side) {
            let i = choose|i: int| 0 <= i < k && #[trigger] outer_feedback_edge(edges, spans, i) && edges[i].edge.net == net && lanes[edges[i].edge.id].side == side;
            assert(0 <= i < k + 1);
        }
    }
}

proof fn lemma_split_monotone(
    edges: Seq<RouteEdge>,
    spans: Seq<Option<(usize, usize)>>,
    lanes: Map<EdgeId, OuterLane>,
    i: int,
    j: int,
    k: int,
    m: int,
)
    requires
        0 <= i < k,
        0 <= j < k,
        k <= m,
        outer_feedback_edge(edges, spans, i),
        outer_feedback_edge(edges, spans, j),
        edges[i].edge.net == edges[j].edge.net,
        lanes[edges[i].edge.id].side == OuterSide::Top,
        lanes[edges[j].edge.id].side == OuterSide::Bottom,
    ensures
        feedback_split_within(edges, spans, lanes, m),
{
}

/// Some edge of `net` is among the first `k`.
pub open spec fn net_has_edge(edges: Seq<RouteEdge>, k: int, net: NetId) -> bool {
    exists|i: int| 0 <= i < k && #[trigger] edges[i].edge.net == net
}

/// Every edge of `net` among the first `k` has a sparse span, and they all
/// leave from one source.
pub open spec fn net_is_sparse_fanout(
    edges: Seq<RouteEdge>,
    spans: Seq<Option<(usize, usize)>>,
    k: int,
    net: NetId,
) -> bool {
    &&& forall|i: int| 0 <= i < k && #[trigger] edges[i].edge.net == net ==> spans[i] is Some
    &&& forall|i: int, j: int|
        0 <= i < k && 0 <= j < k && #[trigger] edges[i].edge.net == net && #[trigger] edges[j].edge.net == net
            ==> edges[i].edge.source == edges[j].edge.source
}

/// A crossing path with at least one point.
pub open spec fn path_is_nonempty(length: Option<usize>) -> bool {
    match length {
        Some(points) => points > 0,
        None => false,
    }
}

/// Some edge of `net` among the first `k` has a non-empty crossing path.
pub open spec fn net_has_crossing_path(edges: Seq<RouteEdge>, path_lengths: Seq<Option<usize>>, k: int, net: NetId) -> bool {
    exists|i: int| 0 <= i < k && #[trigger] edges[i].edge.net == net && path_is_nonempty(path_lengths[i])
}

/// A net qualifies for a negotiated corridor: it has a crossing count, its
/// edges form one sparse fanout, and one of them has a crossing path.
pub open spec fn corridor_eligible(
    crossing_counts: Map<NetId, usize>,
    edges: Seq<RouteEdge>,
    spans: Seq<Option<(usize, usize)>>,
    path_lengths: Seq<Option<usize>>,
    k: int,
    net: NetId,
) -> bool {
    &&& crossing_counts.contains_key(net)
    &&& net_has_edge(edges, k, net)
    &&& net_is_sparse_fanout(edges, spans, k, net)
    &&& net_has_crossing_path(edges, path_lengths, k, net)
}

/// The summary of the nets of the first `k` edges: for each, the source of
/// its first edge, whether it is one sparse fanout, and whether it has a
/// crossing path.
spec fn corridor_summary_holds(
    summary: Map<NetId, (Endpoint, bool, bool)>,
    edges: Seq<RouteEdge>,
    spans: Seq<Option<(usize, usize)>>,
    path_lengths: Seq<Option<usize>>,
    k: int,
) -> bool {
    &&& forall|net: NetId| #[trigger] summary.contains_key(net) <==> net_has_edge(edges, k, net)
    &&& forall|net: NetId| #[trigger] summary.contains_key(net) ==> {
        &&& exists|i: int| 0 <= i < k && edges[i].edge.net == net && edges[i].edge.source == summary[net].0
        &&& summary[net].1 == net_is_sparse_fanout(edges, spans, k, net)
        &&& summary[net].2 == net_has_crossing_path(edges, path_lengths, k, net)
    }
}

/// The nets for negotiated corridors: the eligible nets (see
/// `corridor_eligible`) with the most crossings, ties to the smaller net, at
/// most `max_nets` of them, best first. `crossing_path_lengths` holds the
/// point count of each edge's crossing path, if it has one.
pub fn select_negotiated_corridor_nets(
    plan: &RoutingPlan,
    sparse_spans: &[Option<(usize, usize)>],
    crossing_path_lengths: &[Option<usize>],
    crossing_counts: &BTreeMap<NetId, usize>,
    max_nets: usize,
) -> (selected: Vec<NetId>)
    ensures
        ({
            let edges = plan.route_edges();
            let spans = sparse_spans@;
            let paths = crossing_path_lengths@;
            let k = if edges.len() <= spans.len() && edges.len() <= paths.len() {
                edges.len() as int
            } else if spans.len() <= paths.len() {
                spans.len() as int
            } else {
                paths.len() as int
            };
            let cc = crossing_counts@;
            &&& selected@.len() <= max_nets
            &&& forall|j: int|
                0 <= j < selected@.len() ==> corridor_eligible(cc, edges, spans, paths, k, #[trigger] selected@[j])
            &&& forall|a: int, b: int|
                0 <= a < b < selected@.len() ==> repair_ranked_before(cc, #[trigger] selected@[a], #[trigger] selected@[b])
            &&& selected@.len() < max_nets ==> forall|net: NetId|
                #[trigger] corridor_eligible(cc, edges, spans, paths, k, net) ==> selected@.contains(net)
            &&& forall|net: NetId|
                #[trigger] corridor_eligible(cc, edges, spans, paths, k, net) && !selected@.contains(net) ==> forall|j: int|
                    0 <= j < selected@.len() ==> repair_ranked_before(cc, #[trigger] selected@[j], net)
        }),
{
    let ghost edges = plan.edges@;
    let ghost spans = sparse_spans@;
    let ghost paths = crossing_path_lengths@;
    let count = if plan.edges.len() <= sparse_spans.len() && plan.edges.len() <= crossing_path_lengths.len() {
        plan.edges.len()
    } else if sparse_spans.len() <= crossing_path_lengths.len() {
        sparse_spans.len()
    } else {
        crossing_path_lengths.len()
    };
    let mut summary: BTreeMap<NetId, (Endpoint, bool, bool)> = BTreeMap::new();
    let mut index: usize = 0;
    while index < count
        invariant
            index <= count,
            count <= edges.len() && count <= spans.len() && count <= paths.len(),
            edges == plan.edges@,
            spans == sparse_spans@,
            paths == crossing_path_lengths@,
            corridor_summary_holds(summary@, edges, spans, paths, index as int),
        decreases count - index,
    {
        let resolved = plan.edges[index];
        let net = resolved.edge.net;
        let sparse = match sparse_spans[index] {
            Some(_) => true,
            None => false,
        };
        let has_path = match crossing_path_lengths[index] {
            Some(length) => length > 0,
            None => false,
        };
        let ghost before = summary@;
        let next = match summary.get(&net) {
            Some(entry) => (entry.0, entry.1 && sparse && resolved.edge.source == entry.0, entry.2 || has_path),
            None => (resolved.edge.source, sparse, has_path),
        };
        summary.insert(net, next);
        proof {
            let k = index as int;
            assert(edges[k].edge.net == net);
            assert forall|n: NetId| #[trigger] summary@.contains_key(n) <==> net_has_edge(edges, k + 1, n) by {
                if net_has_edge(edges, k + 1, n) && n != net {
                    let i = choose|i: int| 0 <= i < k + 1 && #[trigger] edges[i].edge.net == n;
                    assert(net_has_edge(edges, k, n));
                }
                if before.contains_key(n) {
                    let i = choose|i: int| 0 <= i < k && #[trigger] edges[i].edge.net == n;
                    assert(net_has_edge(edges, k + 1, n));
                }
            }
            assert forall|n: NetId| #[trigger] summary@.contains_key(n) implies {
                &&& exists|i: int| 0 <= i < k + 1 && edges[i].edge.net == n && edges[i].edge.source == summary@[n].0
                &&& summary@[n].1 == net_is_sparse_fanout(edges, spans, k + 1, n)
                &&& summary@[n].2 == net_has_crossing_path(edges, paths, k + 1, n)
            } by {
                if n != net {
                    assert(before.contains_key(n));
                    assert(!net_has_edge(edges, k, n) || true);
                    let i = choose|i: int| 0 <= i < k && edges[i].edge.net == n && edges[i].edge.source == before[n].0;
                    assert(net_is_sparse_fanout(edges, spans, k + 1, n) == net_is_sparse_fanout(edges, spans, k, n));
                    assert(net_has_crossing_path(edges, paths, k + 1, n) == net_has_crossing_path(edges, paths, k, n));
                } else if before.contains_key(n) {
                    let i = choose|i: int| 0 <= i < k && edges[i].edge.net == n && edges[i].edge.source == before[n].0;
                    if net_is_sparse_fanout(edges, spans, k + 1, n) {
                        assert(net_is_sparse_fanout(edges, spans, k, n));
                        assert(edges[i].edge.source == edges[k].edge.source);
                    }
                    if summary@[n].1 {
                        assert forall|a: int, b: int|
                            0 <= a < k + 1 && 0 <= b < k + 1 && #[trigger] edges[a].edge.net == n && #[trigger] edges[b].edge.net
                                == n implies edges[a].edge.source == edges[b].edge.source by {
                            if a < k {
                                assert(edges[a].edge.source == edges[i].edge.source);
                            }
                            if b < k {
                                assert(edges[b].edge.source == edges[i].edge.source);
                            }
                        }
                    }
                    if net_has_crossing_path(edges, paths, k + 1, n) && !has_path {
                        let j = choose|j: int| 0 <= j < k + 1 && #[trigger] edges[j].edge.net == n && path_is_nonempty(paths[j]);
                        assert(j < k);
                    }
                    if before[n].2 {
                        let j = choose|j: int| 0 <= j < k && #[trigger] edges[j].edge.net == n && path_is_nonempty(paths[j]);
                        assert(net_has_crossing_path(edges, paths, k + 1, n));
                    }
                } else {
                    assert(!net_has_edge(edges, k, n));
                    assert forall|a: int| 0 <= a < k implies #[trigger] edges[a].edge.net != n by {
                        if edges[a].edge.net == n {
                            assert(net_has_edge(edges, k, n));
                        }
                    }
                    if net_has_crossing_path(edges, paths, k + 1, n) {
                        let j = choose|j: int| 0 <= j < k + 1 && #[trigger] edges[j].edge.net == n && path_is_nonempty(paths[j]);
                        assert(j == k);
                    }
                }
            }
        }
        index = index + 1;
    }
    let ghost k = count as int;
    let ghost cc = crossing_counts@;
    let entries = map_entries(crossing_counts);
    let mut ranked: Vec<(usize, NetId)> = Vec::new();
    let ghost mut seen: Set<NetId> = Set::empty();
    let mut position: usize = 0;
    while position < entries.len()
        invariant
            position <= entries@.len(),
            lists_map(entries@, cc),
            cc == crossing_counts@,
            corridor_summary_holds(summary@, edges, spans, paths, k),
            ranking_holds(cc, ranked@, seen, max_nets),
            forall|n: NetId| #[trigger] seen.contains(n) <==> corridor_eligible(cc, edges, spans, paths, k, n)
                && exists|t: int| 0 <= t < position && entries@[t].0 == n,
        decreases entries@.len() - position,
    {
        let (net, crossings) = entries[position];
        let eligible = match summary.get(&net) {
            Some(entry) => entry.1 && entry.2,
            None => false,
        };
        proof {
            assert(entries@[position as int] == (net, crossings));
            assert(cc.contains_key(entries@[position as int].0));
        }
        if eligible {
            assert(!seen.contains(net)) by {
                if seen.contains(net) {
                    let t = choose|t: int| 0 <= t < position && entries@[t].0 == net;
                    assert(entries@[t].0 < entries@[position as int].0);
                }
            }
            rank_candidate(&mut ranked, crossings, net, max_nets, Ghost(cc), Ghost(seen));
            proof {
                seen = seen.insert(net);
            }
        }
        proof {
            assert forall|n: NetId| #[trigger] seen.contains(n) <==> corridor_eligible(cc, edges, spans, paths, k, n)
                && exists|t: int| 0 <= t < position + 1 && entries@[t].0 == n by {
                if corridor_eligible(cc, edges, spans, paths, k, n) && exists|t: int| 0 <= t < position + 1 && entries@[t].0 == n {
                    let t = choose|t: int| 0 <= t < position + 1 && entries@[t].0 == n;
                    if t < position {
                        assert(exists|t: int| 0 <= t < position && entries@[t].0 == n);
                    }
                }
            }
        }
        position = position + 1;
    }
    let mut selected: Vec<NetId> = Vec::new();
    let mut j: usize = 0;
    while j < ranked.len()
        invariant
            j <= ranked@.len(),
            selected@ == ranked@.take(j as int).map_values(|p: (usize, NetId)| p.1),
        decreases ranked@.len() - j,
    {
        selected.push(ranked[j].1);
        j = j + 1;
        assert(selected@ =~= ranked@.take(j as int).map_values(|p: (usize, NetId)| p.1));
    }
    proof {
        assert(ranked@.take(j as int) =~= ranked@);
        assert forall|n: NetId| #[trigger] corridor_eligible(cc, edges, spans, paths, k, n) implies seen.contains(n) by {
            let t = choose|t: int| 0 <= t < entries@.len() && entries@[t].0 == n;
        }
        assert forall|t: int| 0 <= t < selected@.len() implies corridor_eligible(cc, edges, spans, paths, k, #[trigger] selected@[t]) by {
            assert(ranked@[t].0 == cc[ranked@[t].1]);
            assert(seen.contains(ranked@[t].1));
        }
        assert forall|a: int, b: int| 0 <= a < b < selected@.len() implies repair_ranked_before(
            cc,
            #[trigger] selected@[a],
            #[trigger] selected@[b],
        ) by {
            assert(repair_ranked_before(cc, ranked@[a].1, ranked@[b].1));
        }
        assert forall|n: NetId| #[trigger] corridor_eligible(cc, edges, spans, paths, k, n) && !selected@.contains(n) implies forall|t: int|
            0 <= t < selected@.len() ==> repair_ranked_before(cc, #[trigger] selected@[t], n) by {
            if exists|t: int| 0 <= t < ranked@.len() && ranked@[t].1 == n {
                let t = choose|t: int| 0 <= t < ranked@.len() && ranked@[t].1 == n;
                assert(selected@[t] == n);
            }
            assert forall|t: int| 0 <= t < selected@.len() implies repair_ranked_before(cc, #[trigger] selected@[t], n) by {
                assert(repair_ranked_before(cc, ranked@[t].1, n));
            }
        }
        if selected@.len() < max_nets {
            assert forall|n: NetId| #[trigger] corridor_eligible(cc, edges, spans, paths, k, n) implies selected@.contains(n) by {
                let t = choose|t: int| 0 <= t < ranked@.len() && ranked@[t].1 == n;
                assert(selected@[t] == n);
            }
        }
    }
    selected
}

/// The positions of the edges of `net` among the first `k`, in order.
pub open spec fn net_edge_indices(edges: Seq<RouteEdge>, k: int, net: NetId) -> Seq<usize>
    decreases k,
{
    if k <= 0 {
        Seq::empty()
    } else if edges[k - 1].edge.net == net {
        net_edge_indices(edges, k - 1, net).push((k - 1) as usize)
    } else {
        net_edge_indices(edges, k - 1, net)
    }
}

/// An edge of a fanout: it leaves, from the fanout's source and an East
/// port, a node that ends its rank on the right, and enters at a West port a
/// node of a later rank that starts its rank on the left.
pub open spec fn fanout_edge_fits(
    ranks: Seq<usize>,
    ends_rank: Seq<bool>,
    starts_rank: Seq<bool>,
    first: RouteEdge,
    edge: RouteEdge,
) -> bool {
    &&& edge.edge.source == first.edge.source
    &&& edge.source_side == PortSide::East
    &&& edge.target_side == PortSide::West
    &&& ranks[edge.source_index as int] < ranks[edge.target_index as int]
    &&& ends_rank[edge.source_index as int]
    &&& starts_rank[edge.target_index as int]
}

/// `net` is a fanout with from `minimum_edges` to `maximum_edges` edges.
pub open spec fn is_fanout_in_range(
    edges: Seq<RouteEdge>,
    ranks: Seq<usize>,
    ends_rank: Seq<bool>,
    starts_rank: Seq<bool>,
    net: NetId,
    minimum_edges: usize,
    maximum_edges: usize,
) -> bool {
    let indices = net_edge_indices(edges, edges.len() as int, net);
    &&& indices.len() > 0
    &&& minimum_edges <= indices.len() <= maximum_edges
    &&& forall|k: int|
        0 <= k < indices.len() ==> fanout_edge_fits(
            ranks,
            ends_rank,
            starts_rank,
            edges[indices[0] as int],
            edges[#[trigger] indices[k] as int],
        )
}

proof fn lemma_net_edge_indices(edges: Seq<RouteEdge>, k: int, net: NetId)
    requires
        0 <= k <= edges.len(),
        edges.len() <= usize::MAX,
    ensures
        forall|t: int|
            0 <= t < net_edge_indices(edges, k, net).len() ==> #[trigger] net_edge_indices(edges, k, net)[t] < k
                && edges[net_edge_indices(edges, k, net)[t] as int].edge.net == net,
        net_edge_indices(edges, k, net).len() > 0 <==> exists|i: int| 0 <= i < k && #[trigger] edges[i].edge.net == net,
    decreases k,
{
    if k > 0 {
        lemma_net_edge_indices(edges, k - 1, net);
        let before = net_edge_indices(edges, k - 1, net);
        if edges[k - 1].edge.net == net {
            assert forall|t: int| 0 <= t < before.push((k - 1) as usize).len() implies #[trigger] before.push(
                (k - 1) as usize,
            )[t] < k && edges[before.push((k - 1) as usize)[t] as int].edge.net == net by {
                if t < before.len() {
                    assert(before.push((k - 1) as usize)[t] == before[t]);
                }
            }
        } else {
            if exists|i: int| 0 <= i < k && #[trigger] edges[i].edge.net == net {
                let i = choose|i: int| 0 <= i < k && #[trigger] edges[i].edge.net == net;
                assert(i < k - 1);
            }
        }
    }
}

/// A copy of a list of edge positions.
fn copy_indices(indices: &Vec<usize>) -> (copy: Vec<usize>)
    ensures
        copy@ == indices@,
{
    let mut copy: Vec<usize> = Vec::new();
    let mut index: usize = 0;
    while index < indices.len()
        invariant
            index <= indices@.len(),
            copy@ == indices@.take(index as int),
        decreases indices@.len() - index,
    {
        copy.push(indices[index]);
        index = index + 1;
        assert(copy@ =~= indices@.take(index as int));
    }
    assert(indices@.take(index as int) =~= indices@);
    copy
}

/// The fanouts of the plan with from `minimum_edges` to `maximum_edges`
/// edges, by increasing net, each with the positions of its edges in order
/// (see `is_fanout_in_range`). `ends_rank` and `starts_rank` say, for each
/// node position, whether the node ends its rank on the right and whether it
/// starts its rank on the left.
pub fn fanout_edges_in_range(
    plan: &RoutingPlan,
    ends_rank: &[bool],
    starts_rank: &[bool],
    minimum_edges: usize,
    maximum_edges: usize,
) -> (fanouts: Vec<(NetId, Vec<usize>)>)
    requires
        forall|i: int|
            0 <= i < plan.route_edges().len() ==> {
                let edge = #[trigger] plan.route_edges()[i];
                &&& edge.source_index < plan.ranks().len() && edge.target_index < plan.ranks().len()
                &&& edge.source_index < ends_rank@.len() && edge.target_index < starts_rank@.len()
            },
    ensures
        forall|a: int, b: int| 0 <= a < b < fanouts@.len() ==> (#[trigger] fanouts@[a]).0 < (#[trigger] fanouts@[b]).0,
        forall|a: int|
            0 <= a < fanouts@.len() ==> is_fanout_in_range(
                plan.route_edges(),
                plan.ranks(),
                ends_rank@,
                starts_rank@,
                (#[trigger] fanouts@[a]).0,
                minimum_edges,
                maximum_edges,
            ) && fanouts@[a].1@ == net_edge_indices(
                plan.route_edges(),
                plan.route_edges().len() as int,
                fanouts@[a].0,
            ),
        forall|net: NetId|
            #[trigger] is_fanout_in_range(
                plan.route_edges(),
                plan.ranks(),
                ends_rank@,
                starts_rank@,
                net,
                minimum_edges,
                maximum_edges,
            ) ==> exists|a: int| 0 <= a < fanouts@.len() && fanouts@[a].0 == net,
{
    let ghost edges = plan.edges@;
    let ghost ranks = plan.ranks@;
    let edge_count = plan.edges.len();
    assert(edges.len() <= usize::MAX);
    let mut by_net: BTreeMap<NetId, Vec<usize>> = BTreeMap::new();
    let mut nets: BTreeSet<NetId> = BTreeSet::new();
    let mut index: usize = 0;
    while index < plan.edges.len()
        invariant
            index <= edges.len(),
            edges == plan.edges@,
            edges.len() <= usize::MAX,
            forall|net: NetId| #[trigger] nets@.contains(net) <==> by_net@.contains_key(net),
            forall|net: NetId| #[trigger] by_net@.contains_key(net) <==> net_edge_indices(edges, index as int, net).len() > 0,
            forall|net: NetId| #[trigger] by_net@.contains_key(net) ==> by_net@[net]@ == net_edge_indices(
                edges,
                index as int,
                net,
            ),
        decreases edges.len() - index,
    {
        let net = plan.edges[index].edge.net;
        let ghost before = by_net@;
        let mut indices = match by_net.remove(&net) {
            Some(indices) => indices,
            None => Vec::new(),
        };
        proof {
            if !before.contains_key(net) {
                lemma_net_edge_indices(edges, index as int, net);
                assert(net_edge_indices(edges, index as int, net) =~= Seq::<usize>::empty());
            }
        }
        indices.push(index);
        by_net.insert(net, indices);
        nets.insert(net);
        proof {
            assert forall|n: NetId| #[trigger] by_net@.contains_key(n) <==> net_edge_indices(edges, index + 1, n).len() > 0 by {
                if n != net {
                    assert(net_edge_indices(edges, index + 1, n) == net_edge_indices(edges, index as int, n));
                }
            }
            assert forall|n: NetId| #[trigger] by_net@.contains_key(n) implies by_net@[n]@ == net_edge_indices(
                edges,
                index + 1,
                n,
            ) by {
                if n != net {
                    assert(net_edge_indices(edges, index + 1, n) == net_edge_indices(edges, index as int, n));
                }
            }
        }
        index = index + 1;
    }
    let keys = set_keys(&nets);
    assert(edges == plan.route_edges() && ranks == plan.ranks());
    assert forall|i: int| 0 <= i < edges.len() implies {
        let edge = #[trigger] edges[i];
        &&& edge.source_index < ranks.len() && edge.target_index < ranks.len()
        &&& edge.source_index < ends_rank@.len() && edge.target_index < starts_rank@.len()
    } by {
        assert(plan.route_edges()[i] == edges[i]);
    }
    let mut fanouts: Vec<(NetId, Vec<usize>)> = Vec::new();
    let mut position: usize = 0;
    while position < keys.len()
        invariant
            position <= keys@.len(),
            edges == plan.edges@,
            edges.len() <= usize::MAX,
            ranks == plan.ranks@,
            lists_set(keys@, nets@),
            forall|net: NetId| #[trigger] nets@.contains(net) <==> by_net@.contains_key(net),
            forall|net: NetId| #[trigger] by_net@.contains_key(net) <==> net_edge_indices(edges, edges.len() as int, net).len() > 0,
            forall|net: NetId| #[trigger] by_net@.contains_key(net) ==> by_net@[net]@ == net_edge_indices(
                edges,
                edges.len() as int,
                net,
            ),
            forall|i: int|
                0 <= i < edges.len() ==> {
                    let edge = #[trigger] edges[i];
                    &&& edge.source_index < ranks.len() && edge.target_index < ranks.len()
                    &&& edge.source_index < ends_rank@.len() && edge.target_index < starts_rank@.len()
                },
            forall|a: int, b: int| 0 <= a < b < fanouts@.len() ==> (#[trigger] fanouts@[a]).0 < (#[trigger] fanouts@[b]).0,
            forall|a: int| 0 <= a < fanouts@.len() ==> exists|t: int| 0 <= t < position && keys@[t] == (#[trigger] fanouts@[a]).0,
            forall|a: int|
                0 <= a < fanouts@.len() ==> is_fanout_in_range(
                    edges,
                    ranks,
                    ends_rank@,
                    starts_rank@,
                    (#[trigger] fanouts@[a]).0,
                    minimum_edges,
                    maximum_edges,
                ) && fanouts@[a].1@ == net_edge_indices(edges, edges.len() as int, fanouts@[a].0),
            forall|t: int|
                0 <= t < position && is_fanout_in_range(
                    edges,
                    ranks,
                    ends_rank@,
                    starts_rank@,
                    #[trigger] keys@[t],
                    minimum_edges,
                    maximum_edges,
                ) ==> exists|a: int| 0 <= a < fanouts@.len() && fanouts@[a].0 == keys@[t],
        decreases keys@.len() - position,
    {
        let net = keys[position];
        assert(nets@.contains(keys@[position as int]));
        let indices = by_net.get(&net).unwrap();
        let ghost all = net_edge_indices(edges, edges.len() as int, net);
        proof {
            lemma_net_edge_indices(edges, edges.len() as int, net);
        }
        let count = indices.len();
        let mut fits = minimum_edges <= count && count <= maximum_edges;
        if fits {
            let first = plan.edges[indices[0]];
            let mut k: usize = 0;
            while k < count
                invariant
                    k <= count,
                    count == all.len(),
                    indices@ == all,
                    count > 0,
                    edges == plan.edges@,
                    ranks == plan.ranks@,
                    first == edges[all[0] as int],
                    forall|t: int| 0 <= t < all.len() ==> #[trigger] all[t] < edges.len(),
                    forall|i: int|
                        0 <= i < edges.len() ==> {
                            let edge = #[trigger] edges[i];
                            &&& edge.source_index < ranks.len() && edge.target_index < ranks.len()
                            &&& edge.source_index < ends_rank@.len() && edge.target_index < starts_rank@.len()
                        },
                    fits == forall|t: int|
                        0 <= t < k ==> fanout_edge_fits(
                            ranks,
                            ends_rank@,
                            starts_rank@,
                            first,
                            edges[#[trigger] all[t] as int],
                        ),
                decreases count - k,
            {
                let edge = plan.edges[indices[k]];
                assert(edge == edges[all[k as int] as int]);
                let ok = edge.edge.source.node == first.edge.source.node && edge.edge.source.port
                    == first.edge.source.port && match edge.source_side {
                    PortSide::East => true,
                    _ => false,
                } && match edge.target_side {
                    PortSide::West => true,
                    _ => false,
                } && plan.ranks[edge.source_index] < plan.ranks[edge.target_index]
                    && ends_rank[edge.source_index] && starts_rank[edge.target_index];
                assert(ok == fanout_edge_fits(ranks, ends_rank@, starts_rank@, first, edge));
                fits = fits && ok;
                k = k + 1;
            }
        }
        let ghost before = fanouts@;
        if fits {
            let copied = copy_indices(indices);
            fanouts.push((net, copied));
        }
        proof {
            assert(is_fanout_in_range(edges, ranks, ends_rank@, starts_rank@, net, minimum_edges, maximum_edges) == fits);
            assert forall|a: int, b: int| 0 <= a < b < fanouts@.len() implies (#[trigger] fanouts@[a]).0
                < (#[trigger] fanouts@[b]).0 by {
                if b == before.len() {
                    let t = choose|t: int| 0 <= t < position && keys@[t] == before[a].0;
                    assert(keys@[t] < keys@[position as int]);
                }
            }
            assert forall|a: int| 0 <= a < fanouts@.len() implies exists|t: int|
                0 <= t < position + 1 && keys@[t] == (#[trigger] fanouts@[a]).0 by {
                if a < before.len() {
                    let t = choose|t: int| 0 <= t < position && keys@[t] == before[a].0;
                    assert(fanouts@[a] == before[a]);
                } else {
                    assert(keys@[position as int] == fanouts@[a].0);
                }
            }
            assert forall|t: int|
                0 <= t < position + 1 && is_fanout_in_range(
                    edges,
                    ranks,
                    ends_rank@,
                    starts_rank@,
                    #[trigger] keys@[t],
                    minimum_edges,
                    maximum_edges,
                ) implies exists|a: int| 0 <= a < fanouts@.len() && fanouts@[a].0 == keys@[t] by {
                if t < position {
                    let a = choose|a: int| 0 <= a < before.len() && before[a].0 == keys@[t];
                    assert(fanouts@[a] == before[a]);
                } else {
                    assert(fanouts@[before.len() as int].0 == keys@[t]);
                }
            }
        }
        position = position + 1;
    }
    proof {
        assert forall|net: NetId|
            #[trigger] is_fanout_in_range(
                edges,
                ranks,
                ends_rank@,
                starts_rank@,
                net,
                minimum_edges,
                maximum_edges,
            ) implies exists|a: int| 0 <= a < fanouts@.len() && fanouts@[a].0 == net by {
            assert(by_net@.contains_key(net));
            assert(nets@.contains(net));
            let t = choose|t: int| 0 <= t < keys@.len() && keys@[t] == net;
            assert(is_fanout_in_range(edges, ranks, ends_rank@, starts_rank@, keys@[t], minimum_edges, maximum_edges));
        }
    }
    fanouts
}

/// The regional fanout candidates: fanouts with from
/// `MIN_REGIONAL_FANOUT_EDGES` to `MAX_REGIONAL_FANOUT_EDGES` edges.
pub fn regional_fanout_edges(plan: &RoutingPlan, ends_rank: &[bool], starts_rank: &[bool]) -> (fanouts: Vec<
    (NetId, Vec<usize>),
>)
    requires
        forall|i: int|
            0 <= i < plan.route_edges().len() ==> {
                let edge = #[trigger] plan.route_edges()[i];
                &&& edge.source_index < plan.ranks().len() && edge.target_index < plan.ranks().len()
                &&& edge.source_index < ends_rank@.len() && edge.target_index < starts_rank@.len()
            },
    ensures
        forall|a: int, b: int| 0 <= a < b < fanouts@.len() ==> (#[trigger] fanouts@[a]).0 < (#[trigger] fanouts@[b]).0,
        forall|a: int|
            0 <= a < fanouts@.len() ==> is_fanout_in_range(
                plan.route_edges(),
                plan.ranks(),
                ends_rank@,
                starts_rank@,
                (#[trigger] fanouts@[a]).0,
                MIN_REGIONAL_FANOUT_EDGES,
                MAX_REGIONAL_FANOUT_EDGES,
            ) && fanouts@[a].1@ == net_edge_indices(
                plan.route_edges(),
                plan.route_edges().len() as int,
                fanouts@[a].0,
            ),
        forall|net: NetId|
            #[trigger] is_fanout_in_range(
                plan.route_edges(),
                plan.ranks(),
                ends_rank@,
                starts_rank@,
                net,
                MIN_REGIONAL_FANOUT_EDGES,
                MAX_REGIONAL_FANOUT_EDGES,
            ) ==> exists|a: int| 0 <= a < fanouts@.len() && fanouts@[a].0 == net,
{
    fanout_edges_in_range(plan, ends_rank, starts_rank, MIN_REGIONAL_FANOUT_EDGES, MAX_REGIONAL_FANOUT_EDGES)
}

/// Edge `i` runs through the sparse corridors between its ranks: it leaves
/// its source eastwards and enters its target westwards at a higher rank, its
/// net has at most `MAX_SPARSE_NET_EDGES` edges, and every rank strictly
/// between has free space.
pub open spec fn is_sparse_edge(plan_edges: Seq<RouteEdge>, ranks: Seq<usize>, net_edge_counts: Map<NetId, usize>, rank_has_free: Seq<bool>, i: int) -> bool {
    let edge = plan_edges[i];
    let source_rank = ranks[edge.source_index as int];
    let target_rank = ranks[edge.target_index as int];
    &&& edge.source_side == PortSide::East
    &&& edge.target_side == PortSide::West
    &&& source_rank < target_rank
    &&& net_edge_counts[edge.edge.net] <= MAX_SPARSE_NET_EDGES
    &&& forall|rank: int| source_rank < rank < target_rank ==> #[trigger] rank_has_free[rank]
}

/// The rank span of every edge that runs through the sparse corridors (see
/// `is_sparse_edge`), `None` for the others. `rank_has_free[r]` tells whether
/// rank `r` has any free vertical space.
pub fn sparse_spans(plan: &RoutingPlan, rank_has_free: &[bool]) -> (spans: Vec<Option<(usize, usize)>>)
    requires
        forall|i: int|
            0 <= i < plan.route_edges().len() ==> {
                let edge = #[trigger] plan.route_edges()[i];
                &&& edge.source_index < plan.ranks().len()
                &&& edge.target_index < plan.ranks().len()
                &&& plan.net_edge_counts().contains_key(edge.edge.net)
                &&& plan.ranks()[edge.target_index as int] <= rank_has_free@.len()
            },
    ensures
        spans@.len() == plan.route_edges().len(),
        forall|i: int|
            0 <= i < spans@.len() ==> #[trigger] spans@[i] == if is_sparse_edge(
                plan.route_edges(),
                plan.ranks(),
                plan.net_edge_counts(),
                rank_has_free@,
                i,
            ) {
                Some(
                    (
                        plan.ranks()[plan.route_edges()[i].source_index as int],
                        plan.ranks()[plan.route_edges()[i].target_index as int],
                    ),
                )
            } else {
                None
            },
{
    let mut spans: Vec<Option<(usize, usize)>> = Vec::new();
    let mut i: usize = 0;
    while i < plan.edges.len()
        invariant
            i <= plan.edges@.len(),
            spans@.len() == i,
            forall|k: int|
                0 <= k < plan.route_edges().len() ==> {
                    let edge = #[trigger] plan.route_edges()[k];
                    &&& edge.source_index < plan.ranks().len()
                    &&& edge.target_index < plan.ranks().len()
                    &&& plan.net_edge_counts().contains_key(edge.edge.net)
                    &&& plan.ranks()[edge.target_index as int] <= rank_has_free@.len()
                },
            forall|k: int|
                0 <= k < i ==> #[trigger] spans@[k] == if is_sparse_edge(
                    plan.route_edges(),
                    plan.ranks(),
                    plan.net_edge_counts(),
                    rank_has_free@,
                    k,
                ) {
                    Some(
                        (
                            plan.ranks()[plan.route_edges()[k].source_index as int],
                            plan.ranks()[plan.route_edges()[k].target_index as int],
                        ),
                    )
                } else {
                    None
                },
        decreases plan.edges@.len() - i,
    {
        let edge = plan.edges[i];
        assert(edge == plan.route_edges()[i as int]);
        let source_rank = plan.ranks[edge.source_index];
        let target_rank = plan.ranks[edge.target_index];
        proof {
            lemma_ids_ordered();
        }
        let count = *plan.net_edge_counts.get(&edge.edge.net).unwrap();
        let mut sparse = edge.source_side == PortSide::East && edge.target_side == PortSide::West && source_rank
            < target_rank && count <= MAX_SPARSE_NET_EDGES;
        if sparse {
            let mut rank = source_rank + 1;
            let mut all_free = true;
            while rank < target_rank && all_free
                invariant
                    source_rank < rank <= target_rank,
                    target_rank <= rank_has_free@.len(),
                    forall|r: int| source_rank < r < rank ==> #[trigger] rank_has_free@[r],
                    !all_free ==> rank < target_rank && !rank_has_free@[rank as int],
                decreases target_rank - rank + (if all_free {
                    1int
                } else {
                    0int
                }),
            {
                if !rank_has_free[rank] {
                    all_free = false;
                } else {
                    rank = rank + 1;
                }
            }
            sparse = all_free;
        }
        if sparse {
            spans.push(Some((source_rank, target_rank)));
        } else {
            spans.push(None);
        }
        i = i + 1;
    }
    spans
}

} // verus!
