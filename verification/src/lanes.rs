//! Lane maps of the inter-rank gaps: which vertical lane each net uses in a gap.
use vstd::prelude::*;
use std::collections::BTreeMap;
use std::collections::BTreeSet;
use crate::graph::NetId;
use crate::budget::{MIN_CROSSING_REPAIR_NET, MIN_CROSSING_REPAIR_TOTAL};
use crate::ordered::{lists_map, lists_set, map_entries, set_keys};

verus! {

broadcast use vstd::std_specs::btree::group_btree_axioms;

/// The nets of `nets` that have a lane in `lanes`, in priority order.
pub open spec fn selected_nets(lanes: Map<NetId, usize>, nets: Seq<NetId>) -> Seq<NetId>
    decreases nets.len(),
{
    if nets.len() == 0 {
        Seq::empty()
    } else {
        let rest = selected_nets(lanes, nets.drop_last());
        if lanes.contains_key(nets.last()) {
            rest.push(nets.last())
        } else {
            rest
        }
    }
}

/// How many entries of `selected` have a lane below `lane`.
pub open spec fn selected_lanes_below(lanes: Map<NetId, usize>, selected: Seq<NetId>, lane: int) -> nat
    decreases selected.len(),
{
    if selected.len() == 0 {
        0
    } else {
        selected_lanes_below(lanes, selected.drop_last(), lane) + (if lanes[selected.last()] < lane {
            1nat
        } else {
            0nat
        })
    }
}

/// Position of the first occurrence of `net` in `nets` (the length when absent).
pub open spec fn first_position(nets: Seq<NetId>, net: NetId) -> nat
    decreases nets.len(),
{
    if nets.len() == 0 {
        0
    } else if nets[0] == net {
        0
    } else {
        first_position(nets.drop_first(), net) + 1
    }
}

/// The lane a net takes when the selected nets move to the outer lanes of a
/// gap in priority order: selected nets take the last lanes, the first
/// selected net innermost; every other net closes up below them, keeping its
/// relative order.
pub open spec fn moved_lane(lanes: Map<NetId, usize>, nets: Seq<NetId>, net: NetId) -> int {
    let selected = selected_nets(lanes, nets);
    if selected.contains(net) {
        lanes.len() - selected.len() + first_position(selected, net)
    } else {
        lanes[net] - selected_lanes_below(lanes, selected, lanes[net] as int)
    }
}

/// The lane map of a gap after its selected nets moved to the outer lanes.
pub open spec fn moved_gap(lanes: Map<NetId, usize>, nets: Seq<NetId>) -> Map<NetId, usize> {
    Map::new(|net: NetId| lanes.contains_key(net), |net: NetId| moved_lane(lanes, nets, net) as usize)
}

/// The moved lanes of a gap can be computed without going below zero.
pub open spec fn move_is_defined(lanes: Map<NetId, usize>, nets: Seq<NetId>) -> bool {
    let selected = selected_nets(lanes, nets);
    &&& selected.len() > 0 ==> selected.len() <= lanes.len()
    &&& forall|net: NetId|
        lanes.contains_key(net) && !selected.contains(net) ==> selected_lanes_below(
            lanes,
            selected,
            lanes[net] as int,
        ) <= lanes[net]
}

/// Some net of some gap changes lane under the move.
pub open spec fn move_changes_lanes(gap_lanes: Seq<Map<NetId, usize>>, nets: Seq<NetId>) -> bool {
    exists|gap: int, net: NetId|
        0 <= gap < gap_lanes.len() && #[trigger] gap_lanes[gap].contains_key(net) && moved_lane(
            gap_lanes[gap],
            nets,
            net,
        ) != gap_lanes[gap][net]
}

proof fn lemma_selected_nets_step(lanes: Map<NetId, usize>, nets: Seq<NetId>, i: int)
    requires
        0 <= i < nets.len(),
    ensures
        selected_nets(lanes, nets.take(i + 1)) == (if lanes.contains_key(nets[i]) {
            selected_nets(lanes, nets.take(i)).push(nets[i])
        } else {
            selected_nets(lanes, nets.take(i))
        }),
{
    assert(nets.take(i + 1).drop_last() =~= nets.take(i));
}

pub(crate) proof fn lemma_selected_nets_in_lanes(lanes: Map<NetId, usize>, nets: Seq<NetId>)
    ensures
        forall|j: int|
            0 <= j < selected_nets(lanes, nets).len() ==> lanes.contains_key(
                #[trigger] selected_nets(lanes, nets)[j],
            ),
    decreases nets.len(),
{
    if nets.len() > 0 {
        lemma_selected_nets_in_lanes(lanes, nets.drop_last());
        let rest = selected_nets(lanes, nets.drop_last());
        if lanes.contains_key(nets.last()) {
            assert forall|j: int| 0 <= j < rest.push(nets.last()).len() implies lanes.contains_key(
                rest.push(nets.last())[j],
            ) by {
                if j < rest.len() {
                    assert(rest.push(nets.last())[j] == rest[j]);
                }
            }
        }
    }
}

pub(crate) proof fn lemma_first_position_bounds(nets: Seq<NetId>, net: NetId)
    ensures
        first_position(nets, net) <= nets.len(),
        nets.contains(net) <==> first_position(nets, net) < nets.len(),
        nets.contains(net) ==> nets[first_position(nets, net) as int] == net,
        forall|j: int| 0 <= j < first_position(nets, net) ==> nets[j] != net,
    decreases nets.len(),
{
    if nets.len() > 0 && nets[0] != net {
        lemma_first_position_bounds(nets.drop_first(), net);
        if nets.contains(net) {
            let j = choose|j: int| 0 <= j < nets.len() && nets[j] == net;
            assert(nets.drop_first()[j - 1] == net);
        }
        assert forall|j: int| 0 <= j < first_position(nets, net) implies nets[j] != net by {
            if j > 0 {
                assert(nets[j] == nets.drop_first()[j - 1]);
            }
        }
    }
}

/// Position of the first entry of `selected` equal to `net`, or its length.
fn first_position_of(selected: &Vec<NetId>, net: NetId) -> (position: usize)
    ensures
        position == first_position(selected@, net),
{
    let mut index: usize = 0;
    while index < selected.len()
        invariant
            index <= selected.len(),
            forall|j: int| 0 <= j < index ==> selected@[j] != net,
        decreases selected.len() - index,
    {
        if selected[index] == net {
            proof {
                lemma_first_position_prefix(selected@, net, index as int);
            }
            return index;
        }
        index = index + 1;
    }
    proof {
        lemma_first_position_prefix(selected@, net, index as int);
    }
    index
}

proof fn lemma_first_position_prefix(nets: Seq<NetId>, net: NetId, index: int)
    requires
        0 <= index <= nets.len(),
        forall|j: int| 0 <= j < index ==> nets[j] != net,
        index < nets.len() ==> nets[index] == net,
    ensures
        first_position(nets, net) == index,
    decreases index,
{
    if index > 0 {
        assert forall|j: int| 0 <= j < index - 1 implies nets.drop_first()[j] != net by {
            assert(nets.drop_first()[j] == nets[j + 1]);
        }
        lemma_first_position_prefix(nets.drop_first(), net, index - 1);
    }
}

/// How many entries of `selected` have a lane below `lane`.
fn count_selected_below(selected_lanes: &Vec<usize>, lane: usize, Ghost(lanes): Ghost<
    Map<NetId, usize>,
>, Ghost(selected): Ghost<Seq<NetId>>) -> (count: usize)
    requires
        selected_lanes@.len() == selected.len(),
        forall|j: int| 0 <= j < selected.len() ==> selected_lanes@[j] == lanes[selected[j]],
    ensures
        count == selected_lanes_below(lanes, selected, lane as int),
{
    let mut count: usize = 0;
    let mut index: usize = 0;
    while index < selected_lanes.len()
        invariant
            index <= selected_lanes.len(),
            selected_lanes@.len() == selected.len(),
            forall|j: int| 0 <= j < selected.len() ==> selected_lanes@[j] == lanes[selected[j]],
            count == selected_lanes_below(lanes, selected.take(index as int), lane as int),
            count <= index,
        decreases selected_lanes.len() - index,
    {
        assert(selected.take(index + 1).drop_last() =~= selected.take(index as int));
        if selected_lanes[index] < lane {
            count = count + 1;
        }
        index = index + 1;
    }
    assert(selected.take(index as int) =~= selected);
    count
}

/// Moves the given nets to the outer lanes of every gap, in priority order
/// (see `moved_lane`). `None` when no net of any gap changes lane.
pub fn move_nets_to_outer_lanes(gap_lanes: &[BTreeMap<NetId, usize>], nets: &[NetId]) -> (moved:
    Option<Vec<BTreeMap<NetId, usize>>>)
    requires
        forall|gap: int| 0 <= gap < gap_lanes@.len() ==> move_is_defined(#[trigger] gap_lanes@[gap]@, nets@),
    ensures
        moved is Some <==> move_changes_lanes(gap_lanes@.map_values(|m: BTreeMap<NetId, usize>| m@), nets@),
        moved matches Some(result) ==> {
            &&& result@.len() == gap_lanes@.len()
            &&& forall|gap: int|
                0 <= gap < gap_lanes@.len() ==> (#[trigger] result@[gap])@.dom() == gap_lanes@[gap]@.dom()
            &&& forall|gap: int, net: NetId|
                0 <= gap < gap_lanes@.len() && #[trigger] gap_lanes@[gap]@.contains_key(net) ==> result@[gap]@[net]
                    == moved_lane(gap_lanes@[gap]@, nets@, net)
            &&& forall|gap: int|
                0 <= gap < gap_lanes@.len() ==> (#[trigger] result@[gap])@ == moved_gap(gap_lanes@[gap]@, nets@)
        },
{
    if nets.len() == 0 {
        proof {
            assert forall|gap: int, net: NetId|
                0 <= gap < gap_lanes@.len() && #[trigger] gap_lanes@[gap]@.contains_key(net) implies moved_lane(
                    gap_lanes@[gap]@, nets@, net) == gap_lanes@[gap]@[net] by {
                assert(selected_nets(gap_lanes@[gap]@, nets@) =~= Seq::<NetId>::empty());
            }
        }
        return None;
    }
    let ghost views = gap_lanes@.map_values(|m: BTreeMap<NetId, usize>| m@);
    let mut changed = false;
    let mut result: Vec<BTreeMap<NetId, usize>> = Vec::new();
    let mut gap: usize = 0;
    while gap < gap_lanes.len()
        invariant
            gap <= gap_lanes.len(),
            views == gap_lanes@.map_values(|m: BTreeMap<NetId, usize>| m@),
            forall|g: int| 0 <= g < gap_lanes@.len() ==> move_is_defined(#[trigger] gap_lanes@[g]@, nets@),
            result@.len() == gap,
            forall|g: int|
                0 <= g < gap ==> (#[trigger] result@[g])@.dom() == gap_lanes@[g]@.dom(),
            forall|g: int, net: NetId|
                0 <= g < gap && #[trigger] gap_lanes@[g]@.contains_key(net) ==> result@[g]@[net]
                    == moved_lane(gap_lanes@[g]@, nets@, net),
            forall|g: int| 0 <= g < gap ==> (#[trigger] result@[g])@ == moved_gap(gap_lanes@[g]@, nets@),
            changed <==> exists|g: int, net: NetId|
                0 <= g < gap && #[trigger] views[g].contains_key(net) && moved_lane(
                    views[g],
                    nets@,
                    net,
                ) != views[g][net],
        decreases gap_lanes.len() - gap,
    {
        let lanes = &gap_lanes[gap];
        let (moved, gap_changed) = move_gap_to_outer_lanes(lanes, nets);
        assert(views[gap as int] == lanes@);
        result.push(moved);
        changed = changed || gap_changed;
        gap = gap + 1;
    }
    if changed {
        Some(result)
    } else {
        None
    }
}

/// Moves the selected nets of one gap to its outer lanes; also reports
/// whether any net changed lane.
fn move_gap_to_outer_lanes(lanes: &BTreeMap<NetId, usize>, nets: &[NetId]) -> (out: (
    BTreeMap<NetId, usize>,
    bool,
))
    requires
        move_is_defined(lanes@, nets@),
    ensures
        out.0@.dom() == lanes@.dom(),
        forall|net: NetId| #[trigger] lanes@.contains_key(net) ==> out.0@[net] == moved_lane(lanes@, nets@, net),
        out.0@ == moved_gap(lanes@, nets@),
        out.1 <==> exists|net: NetId| #[trigger] lanes@.contains_key(net) && moved_lane(lanes@, nets@, net) != lanes@[net],
{
    let mut selected: Vec<NetId> = Vec::new();
    let mut selected_lanes: Vec<usize> = Vec::new();
    let mut index: usize = 0;
    while index < nets.len()
        invariant
            index <= nets.len(),
            selected@ == selected_nets(lanes@, nets@.take(index as int)),
            selected_lanes@.len() == selected@.len(),
            forall|j: int| 0 <= j < selected@.len() ==> selected_lanes@[j] == lanes@[selected@[j]],
        decreases nets.len() - index,
    {
        proof {
            lemma_selected_nets_step(lanes@, nets@, index as int);
        }
        let net = nets[index];
        match lanes.get(&net) {
            Some(lane) => {
                selected.push(net);
                selected_lanes.push(*lane);
            },
            None => {},
        }
        index = index + 1;
    }
    assert(nets@.take(index as int) =~= nets@);
    let ghost sel = selected@;
    proof {
        lemma_selected_nets_in_lanes(lanes@, nets@);
    }
    let count = lanes.len();
    let mut out: BTreeMap<NetId, usize> = BTreeMap::new();
    let mut changed = false;
    let ghost mut visited: int = 0;
    for entry in it: lanes.iter()
        invariant
            visited == it.index(),
            visited == lanes@.len() ==> out@.dom() == lanes@.dom(),
            sel == selected_nets(lanes@, nets@),
            selected@ == sel,
            selected_lanes@.len() == sel.len(),
            forall|j: int| 0 <= j < sel.len() ==> selected_lanes@[j] == lanes@[sel[j]],
            move_is_defined(lanes@, nets@),
            count == lanes@.len(),
            it.seq().len() == lanes@.dom().len(),
            forall|i: int| 0 <= i < it.seq().len() ==> #[trigger] lanes@.contains_key(*it.seq()[i].0) && lanes@[*it.seq()[i].0] == *it.seq()[i].1,
            forall|net: NetId| #[trigger] lanes@.contains_key(net) ==> exists|i: int| 0 <= i < it.seq().len() && *it.seq()[i].0 == net,
            out@.dom() == Set::new(|net: NetId| exists|i: int| 0 <= i < it.index() && *it.seq()[i].0 == net),
            forall|net: NetId| #[trigger] out@.contains_key(net) ==> out@[net] == moved_lane(lanes@, nets@, net),
            changed <==> exists|net: NetId| #[trigger] out@.contains_key(net) && moved_lane(lanes@, nets@, net) != lanes@[net],
    {
        let (net_ref, lane_ref) = entry;
        let net = *net_ref;
        let lane = *lane_ref;
        assert(lanes@.contains_key(net) && lanes@[net] == lane);
        let position = first_position_of(&selected, net);
        proof {
            lemma_first_position_bounds(sel, net);
        }
        let next = if position < selected.len() {
            count - selected.len() + position
        } else {
            let below = count_selected_below(&selected_lanes, lane, Ghost(lanes@), Ghost(sel));
            lane - below
        };
        assert(next == moved_lane(lanes@, nets@, net));
        let ghost old_out = out@;
        if next != lane {
            changed = true;
        }
        out.insert(net, next);
        proof {
            if next != lane {
                assert(out@.contains_key(net) && moved_lane(lanes@, nets@, net) != lanes@[net]);
            } else {
                assert forall|n: NetId| #[trigger] out@.contains_key(n) && moved_lane(lanes@, nets@, n) != lanes@[n]
                    implies old_out.contains_key(n) && moved_lane(lanes@, nets@, n) != lanes@[n] by {
                    if n == net {
                        assert(false);
                    }
                }
                if changed {
                    let w = choose|n: NetId| #[trigger] old_out.contains_key(n) && moved_lane(lanes@, nets@, n) != lanes@[n];
                    assert(out@.contains_key(w));
                }
            }
            assert(out@.dom() =~= Set::new(|n: NetId| exists|i: int| 0 <= i < it.index() + 1 && *it.seq()[i].0 == n));
            visited = visited + 1;
            if visited == lanes@.len() {
                assert(out@.dom() =~= lanes@.dom());
            }
        }
    }
    assert(out@ =~= moved_gap(lanes@, nets@));
    (out, changed)
}

/// `lanes` numbers the members of `nets` by rank: the smallest net gets lane
/// zero and lanes follow the order of the nets.
pub open spec fn ranks_nets(lanes: Map<NetId, usize>, nets: Set<NetId>) -> bool {
    &&& lanes.dom() == nets
    &&& forall|net: NetId| #[trigger] nets.contains(net) ==> lanes[net] < nets.len()
    &&& forall|a: NetId, b: NetId|
        nets.contains(a) && nets.contains(b) ==> (a < b <==> #[trigger] lanes[a] < #[trigger] lanes[b])
}

/// Numbers a set of nets by rank, in increasing net order.
pub fn lane_indices(nets: &BTreeSet<NetId>) -> (lanes: BTreeMap<NetId, usize>)
    ensures
        ranks_nets(lanes@, nets@),
{
    let keys = set_keys(nets);
    let mut lanes: BTreeMap<NetId, usize> = BTreeMap::new();
    let mut index: usize = 0;
    while index < keys.len()
        invariant
            index <= keys.len(),
            lists_set(keys@, nets@),
            lanes@.dom() == keys@.take(index as int).to_set(),
            forall|i: int| 0 <= i < index ==> #[trigger] lanes@[keys@[i]] == i,
        decreases keys.len() - index,
    {
        proof {
            keys@.take(index as int).lemma_push_to_set_commute(keys@[index as int]);
            assert(keys@.take(index + 1) =~= keys@.take(index as int).push(keys@[index as int]));
        }
        lanes.insert(keys[index], index);
        index = index + 1;
    }
    proof {
        assert(keys@.take(index as int) =~= keys@);
        assert forall|net: NetId| nets@.contains(net) implies lanes@.contains_key(net) by {
            let i = choose|i: int| 0 <= i < keys@.len() && keys@[i] == net;
            assert(keys@.contains(net));
        }
        assert forall|net: NetId| lanes@.contains_key(net) implies nets@.contains(net) by {
            assert(keys@.contains(net));
        }
        assert(lanes@.dom() =~= nets@);
        assert forall|a: NetId, b: NetId|
            nets@.contains(a) && nets@.contains(b) implies (a < b <==> #[trigger] lanes@[a] < #[trigger] lanes@[b]) by {
            let i = choose|i: int| 0 <= i < keys@.len() && keys@[i] == a;
            let j = choose|j: int| 0 <= j < keys@.len() && keys@[j] == b;
            assert(lanes@[keys@[i]] == i);
            assert(lanes@[keys@[j]] == j);
        }
        assert forall|net: NetId| #[trigger] nets@.contains(net) implies lanes@[net] < nets@.len() by {
            let i = choose|i: int| 0 <= i < keys@.len() && keys@[i] == net;
            assert(lanes@[keys@[i]] == i);
        }
    }
    lanes
}

/// Some gap has `net` in a lane other than its outermost one.
pub open spec fn net_is_movable(gap_lanes: Seq<Map<NetId, usize>>, net: NetId) -> bool {
    exists|gap: int|
        0 <= gap < gap_lanes.len() && #[trigger] gap_lanes[gap].contains_key(net)
            && gap_lanes[gap][net] + 1 < gap_lanes[gap].len()
}

/// A net qualifies for crossing repair: enough predicted crossings, and a lane
/// it can move out of.
pub open spec fn repair_eligible(
    crossing_counts: Map<NetId, usize>,
    gap_lanes: Seq<Map<NetId, usize>>,
    net: NetId,
) -> bool {
    &&& crossing_counts.contains_key(net)
    &&& crossing_counts[net] >= MIN_CROSSING_REPAIR_NET
    &&& net_is_movable(gap_lanes, net)
}

/// Repair priority: more crossings first, then the smaller net.
pub open spec fn repair_ranked_before(crossing_counts: Map<NetId, usize>, a: NetId, b: NetId) -> bool {
    crossing_counts[a] > crossing_counts[b] || (crossing_counts[a] == crossing_counts[b] && a < b)
}

/// The nets movable in some gap, from the gap lane maps.
fn movable_nets(gap_lanes: &[BTreeMap<NetId, usize>]) -> (movable: BTreeSet<NetId>)
    ensures
        forall|net: NetId| #[trigger] movable@.contains(net) <==> net_is_movable(
            gap_lanes@.map_values(|m: BTreeMap<NetId, usize>| m@),
            net,
        ),
{
    let ghost views = gap_lanes@.map_values(|m: BTreeMap<NetId, usize>| m@);
    let mut movable: BTreeSet<NetId> = BTreeSet::new();
    let mut gap: usize = 0;
    while gap < gap_lanes.len()
        invariant
            gap <= gap_lanes.len(),
            views == gap_lanes@.map_values(|m: BTreeMap<NetId, usize>| m@),
            forall|net: NetId| #[trigger] movable@.contains(net) <==> exists|g: int|
                0 <= g < gap && #[trigger] views[g].contains_key(net) && views[g][net] + 1 < views[g].len(),
        decreases gap_lanes.len() - gap,
    {
        let entries = map_entries(&gap_lanes[gap]);
        let ghost before = movable@;
        assert(views[gap as int] == gap_lanes@[gap as int]@);
        let mut index: usize = 0;
        while index < entries.len()
            invariant
                gap < gap_lanes.len(),
                index <= entries.len(),
                views == gap_lanes@.map_values(|m: BTreeMap<NetId, usize>| m@),
                lists_map(entries@, views[gap as int]),
                forall|net: NetId| #[trigger] before.contains(net) <==> exists|g: int|
                    0 <= g < gap && #[trigger] views[g].contains_key(net) && views[g][net] + 1 < views[g].len(),
                forall|net: NetId| #[trigger] movable@.contains(net) <==> (before.contains(net) || exists|t: int|
                    0 <= t < index && entries@[t].0 == net && entries@[t].1 + 1 < entries@.len()),
            decreases entries.len() - index,
        {
            let (net, lane) = entries[index];
            if lane < entries.len() - 1 {
                movable.insert(net);
            }
            index = index + 1;
        }
        proof {
            assert forall|net: NetId| #[trigger] movable@.contains(net) <==> exists|g: int|
                0 <= g < gap + 1 && #[trigger] views[g].contains_key(net) && views[g][net] + 1 < views[g].len() by {
                if movable@.contains(net) && !before.contains(net) {
                    let t = choose|t: int| 0 <= t < index && entries@[t].0 == net && entries@[t].1 + 1 < entries@.len();
                    assert(views[gap as int].contains_key(entries@[t].0));
                }
                if exists|g: int| 0 <= g < gap + 1 && #[trigger] views[g].contains_key(net) && views[g][net] + 1 < views[g].len() {
                    let g = choose|g: int| 0 <= g < gap + 1 && #[trigger] views[g].contains_key(net) && views[g][net] + 1 < views[g].len();
                    if g == gap {
                        let t = choose|t: int| 0 <= t < entries@.len() && entries@[t].0 == net;
                        assert(views[gap as int][entries@[t].0] == entries@[t].1);
                    }
                }
            }
        }
        gap = gap + 1;
    }
    movable
}

/// `ranked` holds, in repair priority order, the best `max` nets of `seen`
/// (or all of them), each with its crossing count.
pub open spec fn ranking_holds(
    cc: Map<NetId, usize>,
    ranked: Seq<(usize, NetId)>,
    seen: Set<NetId>,
    max: usize,
) -> bool {
    &&& ranked.len() <= max
    &&& forall|k: int| 0 <= k < ranked.len() ==> #[trigger] ranked[k].0 == cc[ranked[k].1] && seen.contains(ranked[k].1)
    &&& forall|a: int, b: int| 0 <= a < b < ranked.len() ==> repair_ranked_before(cc, #[trigger] ranked[a].1, #[trigger] ranked[b].1)
    &&& ranked.len() < max ==> forall|n: NetId| #[trigger] seen.contains(n) ==> exists|k: int| 0 <= k < ranked.len() && ranked[k].1 == n
    &&& forall|n: NetId| #[trigger] seen.contains(n) && !(exists|k: int| 0 <= k < ranked.len() && ranked[k].1 == n) ==> forall|k: int|
        0 <= k < ranked.len() ==> repair_ranked_before(cc, #[trigger] ranked[k].1, n)
}

/// Ranks one more candidate net into the priority list.
pub(crate) fn rank_candidate(
    ranked: &mut Vec<(usize, NetId)>,
    crossings: usize,
    net: NetId,
    max: usize,
    Ghost(cc): Ghost<Map<NetId, usize>>,
    Ghost(seen): Ghost<Set<NetId>>,
)
    requires
        ranking_holds(cc, old(ranked)@, seen, max),
        !seen.contains(net),
        cc.contains_key(net),
        crossings == cc[net],
    ensures
        ranking_holds(cc, final(ranked)@, seen.insert(net), max),
{
    let ghost old_ranked = ranked@;
    assert forall|k: int| 0 <= k < old_ranked.len() implies old_ranked[k].1 != net by {
        assert(old_ranked[k].0 == cc[old_ranked[k].1]);
    }
    let mut position: usize = 0;
    while position < ranked.len() && (ranked[position].0 > crossings || (ranked[position].0
        == crossings && ranked[position].1 < net))
        invariant
            position <= ranked@.len(),
            ranked@ == old_ranked,
            crossings == cc[net],
            forall|k: int| 0 <= k < old_ranked.len() ==> #[trigger] old_ranked[k].0 == cc[old_ranked[k].1] && seen.contains(old_ranked[k].1),
            forall|k: int| 0 <= k < position ==> repair_ranked_before(cc, #[trigger] old_ranked[k].1, net),
        decreases ranked@.len() - position,
    {
        position = position + 1;
    }
    assert forall|k: int| position <= k < old_ranked.len() implies repair_ranked_before(cc, net, #[trigger] old_ranked[k].1) by {
        assert(old_ranked[k].0 == cc[old_ranked[k].1]);
        assert(old_ranked[position as int].0 == cc[old_ranked[position as int].1]);
        if k > position {
            assert(repair_ranked_before(cc, old_ranked[position as int].1, old_ranked[k].1));
        }
    }
    let ghost next_seen = seen.insert(net);
    if position < max {
        ranked.insert(position, (crossings, net));
        ranked.truncate(max);
        let ghost inserted = old_ranked.insert(position as int, (crossings, net));
        assert(ranked@ =~= inserted.subrange(0, ranked@.len() as int));
        assert forall|k: int| 0 <= k < ranked@.len() implies #[trigger] ranked@[k].0 == cc[ranked@[k].1] && next_seen.contains(ranked@[k].1) by {
            assert(ranked@[k] == inserted[k]);
            if k > position {
                assert(old_ranked[k - 1].0 == cc[old_ranked[k - 1].1]);
            } else if k < position {
                assert(old_ranked[k].0 == cc[old_ranked[k].1]);
            }
        }
        assert forall|a: int, b: int| 0 <= a < b < ranked@.len() implies repair_ranked_before(
            cc,
            #[trigger] ranked@[a].1,
            #[trigger] ranked@[b].1,
        ) by {
            assert(ranked@[a] == inserted[a]);
            assert(ranked@[b] == inserted[b]);
            if a < position && b > position {
                assert(repair_ranked_before(cc, old_ranked[a].1, net));
                assert(repair_ranked_before(cc, net, old_ranked[b - 1].1));
            } else if a < position && b < position {
                assert(repair_ranked_before(cc, old_ranked[a].1, old_ranked[b].1));
            } else if a > position {
                assert(repair_ranked_before(cc, old_ranked[a - 1].1, old_ranked[b - 1].1));
            } else if a < position {
                assert(repair_ranked_before(cc, old_ranked[a].1, net));
            } else {
                assert(repair_ranked_before(cc, net, old_ranked[b - 1].1));
            }
        }
        assert forall|n: NetId| #[trigger] next_seen.contains(n) && !(exists|k: int| 0 <= k < ranked@.len() && ranked@[k].1 == n)
            implies forall|k: int| 0 <= k < ranked@.len() ==> repair_ranked_before(cc, #[trigger] ranked@[k].1, n) by {
            if n == net {
                assert(ranked@[position as int].1 == net);
            }
            let was_kept = exists|k: int| 0 <= k < old_ranked.len() && old_ranked[k].1 == n;
            if was_kept {
                let j = choose|j: int| 0 <= j < old_ranked.len() && old_ranked[j].1 == n;
                if j + 1 < max {
                    if j < position {
                        assert(ranked@[j].1 == n);
                    } else {
                        assert(ranked@[j + 1].1 == n);
                    }
                }
                assert forall|k: int| 0 <= k < ranked@.len() implies repair_ranked_before(cc, #[trigger] ranked@[k].1, n) by {
                    assert(ranked@[k] == inserted[k]);
                    if k < position {
                        assert(repair_ranked_before(cc, old_ranked[k].1, old_ranked[j].1));
                    } else if k > position {
                        assert(repair_ranked_before(cc, old_ranked[k - 1].1, old_ranked[j].1));
                    } else {
                        assert(repair_ranked_before(cc, net, old_ranked[j].1));
                    }
                }
            } else {
                assert(old_ranked.len() == max);
                assert forall|k: int| 0 <= k < ranked@.len() implies repair_ranked_before(cc, #[trigger] ranked@[k].1, n) by {
                    assert(ranked@[k] == inserted[k]);
                    let last = old_ranked.len() - 1;
                    assert(repair_ranked_before(cc, old_ranked[last].1, n));
                    if k < position {
                        assert(repair_ranked_before(cc, old_ranked[k].1, n));
                    } else if k > position {
                        assert(repair_ranked_before(cc, old_ranked[k - 1].1, n));
                    } else {
                        assert(repair_ranked_before(cc, net, old_ranked[last].1));
                    }
                }
            }
        }
        if ranked.len() < max {
            assert forall|n: NetId| #[trigger] next_seen.contains(n) implies exists|k: int| 0 <= k < ranked@.len() && ranked@[k].1 == n by {
                if n == net {
                    assert(ranked@[position as int].1 == net);
                } else {
                    let k = choose|k: int| 0 <= k < old_ranked.len() && old_ranked[k].1 == n;
                    if k < position {
                        assert(ranked@[k].1 == n);
                    } else {
                        assert(ranked@[k + 1].1 == n);
                    }
                }
            }
        }
    } else {
        assert forall|k: int| 0 <= k < ranked@.len() implies #[trigger] ranked@[k].0 == cc[ranked@[k].1] && next_seen.contains(ranked@[k].1) by {
            assert(old_ranked[k].0 == cc[old_ranked[k].1]);
        }
        assert forall|n: NetId| #[trigger] next_seen.contains(n) && !(exists|k: int| 0 <= k < ranked@.len() && ranked@[k].1 == n)
            implies forall|k: int| 0 <= k < ranked@.len() ==> repair_ranked_before(cc, #[trigger] ranked@[k].1, n) by {
        }
    }
}

/// Picks up to `max_repair_nets` nets for crossing repair: nothing unless the
/// layout has at least `MIN_CROSSING_REPAIR_TOTAL` predicted crossings;
/// otherwise the eligible nets (see `repair_eligible`) with the highest repair
/// priority, in priority order.
pub fn select_crossing_repair_nets(
    total_crossings: usize,
    crossing_counts: &BTreeMap<NetId, usize>,
    gap_lanes: &[BTreeMap<NetId, usize>],
    max_repair_nets: usize,
) -> (selected: Vec<NetId>)
    ensures
        total_crossings < MIN_CROSSING_REPAIR_TOTAL ==> selected@.len() == 0,
        total_crossings >= MIN_CROSSING_REPAIR_TOTAL ==> {
            let views = gap_lanes@.map_values(|m: BTreeMap<NetId, usize>| m@);
            &&& selected@.len() <= max_repair_nets
            &&& forall|k: int| 0 <= k < selected@.len() ==> repair_eligible(crossing_counts@, views, #[trigger] selected@[k])
            &&& forall|a: int, b: int| 0 <= a < b < selected@.len() ==> repair_ranked_before(
                crossing_counts@,
                #[trigger] selected@[a],
                #[trigger] selected@[b],
            )
            &&& selected@.len() < max_repair_nets ==> forall|net: NetId|
                #[trigger] repair_eligible(crossing_counts@, views, net) ==> selected@.contains(net)
            &&& forall|net: NetId|
                #[trigger] repair_eligible(crossing_counts@, views, net) && !selected@.contains(net) ==> forall|k: int|
                    0 <= k < selected@.len() ==> repair_ranked_before(crossing_counts@, #[trigger] selected@[k], net)
        },
{
    if total_crossings < MIN_CROSSING_REPAIR_TOTAL {
        return Vec::new();
    }
    let ghost views = gap_lanes@.map_values(|m: BTreeMap<NetId, usize>| m@);
    let ghost cc = crossing_counts@;
    let movable = movable_nets(gap_lanes);
    let entries = map_entries(crossing_counts);
    let mut ranked: Vec<(usize, NetId)> = Vec::new();
    let ghost mut seen: Set<NetId> = Set::empty();
    let mut index: usize = 0;
    while index < entries.len()
        invariant
            index <= entries.len(),
            views == gap_lanes@.map_values(|m: BTreeMap<NetId, usize>| m@),
            cc == crossing_counts@,
            lists_map(entries@, cc),
            forall|net: NetId| #[trigger] movable@.contains(net) <==> net_is_movable(views, net),
            ranking_holds(cc, ranked@, seen, max_repair_nets),
            forall|n: NetId| #[trigger] seen.contains(n) <==> repair_eligible(cc, views, n) && exists|t: int|
                0 <= t < index && entries@[t].0 == n,
        decreases entries.len() - index,
    {
        let (net, crossings) = entries[index];
        assert(cc.contains_key(entries@[index as int].0));
        assert(!seen.contains(net)) by {
            if seen.contains(net) {
                let t = choose|t: int| 0 <= t < index && entries@[t].0 == net;
                assert(entries@[t].0 < entries@[index as int].0);
            }
        }
        if crossings >= MIN_CROSSING_REPAIR_NET && movable.contains(&net) {
            rank_candidate(&mut ranked, crossings, net, max_repair_nets, Ghost(cc), Ghost(seen));
            proof {
                seen = seen.insert(net);
            }
        }
        proof {
            assert forall|n: NetId| #[trigger] seen.contains(n) <==> repair_eligible(cc, views, n) && exists|t: int|
                0 <= t < index + 1 && entries@[t].0 == n by {
                if repair_eligible(cc, views, n) && exists|t: int| 0 <= t < index + 1 && entries@[t].0 == n {
                    let t = choose|t: int| 0 <= t < index + 1 && entries@[t].0 == n;
                    if t < index {
                        assert(exists|t: int| 0 <= t < index && entries@[t].0 == n);
                    }
                }
            }
        }
        index = index + 1;
    }
    let mut selected: Vec<NetId> = Vec::new();
    let mut k: usize = 0;
    while k < ranked.len()
        invariant
            k <= ranked@.len(),
            selected@ == ranked@.take(k as int).map_values(|p: (usize, NetId)| p.1),
        decreases ranked@.len() - k,
    {
        selected.push(ranked[k].1);
        k = k + 1;
        assert(selected@ =~= ranked@.take(k as int).map_values(|p: (usize, NetId)| p.1));
    }
    proof {
        assert(ranked@.take(k as int) =~= ranked@);
        assert forall|n: NetId| #[trigger] repair_eligible(cc, views, n) implies seen.contains(n) by {
            let t = choose|t: int| 0 <= t < entries@.len() && entries@[t].0 == n;
        }
        assert forall|j: int| 0 <= j < selected@.len() implies repair_eligible(cc, views, #[trigger] selected@[j]) by {
            assert(ranked@[j].0 == cc[ranked@[j].1]);
        }
        assert forall|a: int, b: int| 0 <= a < b < selected@.len() implies repair_ranked_before(
            cc,
            #[trigger] selected@[a],
            #[trigger] selected@[b],
        ) by {
            assert(repair_ranked_before(cc, ranked@[a].1, ranked@[b].1));
        }
        assert forall|n: NetId| #[trigger] repair_eligible(cc, views, n) && !selected@.contains(n) implies forall|j: int|
            0 <= j < selected@.len() ==> repair_ranked_before(cc, #[trigger] selected@[j], n) by {
            if exists|j: int| 0 <= j < ranked@.len() && ranked@[j].1 == n {
                let j = choose|j: int| 0 <= j < ranked@.len() && ranked@[j].1 == n;
                assert(selected@[j] == n);
            }
            assert forall|j: int| 0 <= j < selected@.len() implies repair_ranked_before(cc, #[trigger] selected@[j], n) by {
                assert(repair_ranked_before(cc, ranked@[j].1, n));
            }
        }
        if selected@.len() < max_repair_nets {
            assert forall|n: NetId| #[trigger] repair_eligible(cc, views, n) implies selected@.contains(n) by {
                let j = choose|j: int| 0 <= j < ranked@.len() && ranked@[j].1 == n;
                assert(selected@[j] == n);
            }
        }
    }
    selected
}

} // verus!
