//! Outer lanes: edges routed around the whole layout, above or below it.
use vstd::prelude::*;
use std::collections::BTreeMap;
use std::collections::BTreeSet;
use crate::gap_order::{
    is_pair_cost, lanes_from_order, lanes_of_order, lemma_refined_order_keeps_nets, refine_gap_lane_order,
    refined_order, reported_costs,
};
use crate::graph::{EdgeId, NetId};
use crate::ordered::{lists_map, lists_set, map_entries, set_keys};

verus! {

broadcast use vstd::std_specs::btree::group_btree_axioms;

/// Whether an outer route runs above or below the layout.
#[derive(Clone, Copy, Debug, PartialEq, Eq, Structural)]
pub enum OuterSide {
    Top,
    Bottom,
}

/// The outer lane of one edge: its side and index on that side, and its
/// channel among all outer channels.
#[derive(Clone, Copy, Debug, PartialEq, Eq, Structural)]
pub struct OuterLane {
    pub side: OuterSide,
    pub side_index: usize,
    pub channel_index: usize,
    pub channel_count: usize,
}

/// Both lane maps cover the same edges, and each edge has the same channel
/// coordinates in both; sides and side indices may differ.
pub open spec fn channels_match(left: Map<EdgeId, OuterLane>, right: Map<EdgeId, OuterLane>) -> bool {
    &&& left.len() == right.len()
    &&& forall|edge: EdgeId|
        #[trigger] left.contains_key(edge) ==> right.contains_key(edge) && left[edge].channel_index
            == right[edge].channel_index && left[edge].channel_count == right[edge].channel_count
}

spec fn lane_channel_found(right: Map<EdgeId, OuterLane>, entry: (EdgeId, OuterLane)) -> bool {
    right.contains_key(entry.0) && entry.1.channel_index == right[entry.0].channel_index
        && entry.1.channel_count == right[entry.0].channel_count
}

/// Whether two outer lane maps agree on every edge's channel coordinates.
pub fn outer_lane_channels_match(
    left: &BTreeMap<EdgeId, OuterLane>,
    right: &BTreeMap<EdgeId, OuterLane>,
) -> (matched: bool)
    ensures
        matched == channels_match(left@, right@),
{
    if left.len() != right.len() {
        return false;
    }
    let entries = map_entries(left);
    let mut index: usize = 0;
    while index < entries.len()
        invariant
            index <= entries.len(),
            lists_map(entries@, left@),
            left@.len() == right@.len(),
            forall|t: int| 0 <= t < index ==> lane_channel_found(right@, #[trigger] entries@[t]),
        decreases entries.len() - index,
    {
        let (edge, lane) = entries[index];
        match right.get(&edge) {
            Some(other) => {
                if lane.channel_index != other.channel_index || lane.channel_count
                    != other.channel_count {
                    assert(left@.contains_key(entries@[index as int].0));
                    return false;
                }
                assert(right@.contains_key(edge) && right@[edge] == *other);
                assert(entries@[index as int].0 == edge && entries@[index as int].1 == lane);
                assert(lane_channel_found(right@, entries@[index as int]));
            },
            None => {
                assert(left@.contains_key(entries@[index as int].0));
                return false;
            },
        }
        index = index + 1;
    }
    assert forall|edge: EdgeId| #[trigger] left@.contains_key(edge) implies right@.contains_key(edge)
        && left@[edge].channel_index == right@[edge].channel_index && left@[edge].channel_count
        == right@[edge].channel_count by {
        let t = choose|t: int| 0 <= t < entries@.len() && entries@[t].0 == edge;
        assert(lane_channel_found(right@, entries@[t]));
    }
    true
}

/// Matching channel coordinates is an equivalence: reflexive, symmetric and
/// transitive, and maps that match cover the same edges.
pub proof fn lemma_channels_match_equivalence(
    a: Map<EdgeId, OuterLane>,
    b: Map<EdgeId, OuterLane>,
    c: Map<EdgeId, OuterLane>,
)
    requires
        a.dom().finite(),
        b.dom().finite(),
        c.dom().finite(),
    ensures
        channels_match(a, a),
        channels_match(a, b) ==> a.dom() == b.dom(),
        channels_match(a, b) ==> channels_match(b, a),
        channels_match(a, b) && channels_match(b, c) ==> channels_match(a, c),
{
    if channels_match(a, b) {
        assert(a.dom().subset_of(b.dom()));
        vstd::set_lib::lemma_subset_equality(a.dom(), b.dom());
        assert(a.dom() =~= b.dom());
    }
}

/// Crossing-aware lanes of the outer nets on one side: the nets start in
/// increasing order and are refined by adjacent transposes under
/// `pair_cost` (the crossings of the first net lying inside the second);
/// each net's lane is its position.
pub fn crossing_aware_outer_lane_indices_with_rounds<F: Fn(NetId, NetId) -> usize>(
    nets: &BTreeSet<NetId>,
    pair_cost: F,
    lane_rounds: usize,
) -> (lanes: BTreeMap<NetId, usize>)
    requires
        is_pair_cost(pair_cost),
    ensures
        exists|seed: Seq<NetId>|
            lists_set(seed, nets@) && lanes@ == lanes_of_order(
                refined_order(seed, lane_rounds as nat, reported_costs(pair_cost)),
            ),
{
    let mut ordered = set_keys(nets);
    let ghost seed = ordered@;
    assert(seed.no_duplicates()) by {
        assert forall|i: int, j: int| 0 <= i < seed.len() && 0 <= j < seed.len() && i != j implies seed[i]
            != seed[j] by {
            if i < j {
                assert(seed[i] < seed[j]);
            } else {
                assert(seed[j] < seed[i]);
            }
        }
    }
    refine_gap_lane_order(&mut ordered, lane_rounds, pair_cost);
    proof {
        lemma_refined_order_keeps_nets(seed, lane_rounds as nat, reported_costs(pair_cost));
    }
    lanes_from_order(&ordered)
}

} // verus!
