//! Lane orders of large gaps: the "hot" nets (those with the most vertical
//! accesses) are taken out one at a time and put back where their pairwise
//! crossing costs against all other nets are smallest.
use vstd::prelude::*;
use std::collections::BTreeMap;
use crate::budget::{
    MAX_GLOBAL_GAP_LANES, MAX_LARGE_GLOBAL_GAP_HOT_NETS, MAX_LARGE_GLOBAL_GAP_LANES,
    MAX_PRESERVED_REFINED_LARGE_GLOBAL_GAP_HOT_NETS, MAX_PRESERVED_REFINED_LARGE_GLOBAL_GAP_HOT_ROUNDS,
    MAX_REFINED_LARGE_GLOBAL_GAP_HOT_NETS, MAX_REFINED_LARGE_GLOBAL_GAP_HOT_ROUNDS,
};
use crate::gap_order::{
    above_sum, below_sum, describes_lane_order, gap_lane_order_candidate, initial_large_gap_order, is_pair_cost,
    last_position_of, lanes_of_order, lemma_order_cost_insert, lemma_orders_baseline_unique, lemma_placement_step,
    lemma_reported_cost, order_cost, orders_baseline, pair_sum, placement_cost, reported_costs,
};
use crate::ordered::pair_before;
use crate::graph::NetId;
use crate::lane_moves::{candidate_is_permutation, is_lane_permutation, lemma_order_lanes_are_permutation};
use crate::lanes::{first_position, lemma_first_position_bounds};

verus! {

/// `a + b`, saturating at `usize::MAX`.
pub open spec fn saturating_sum(a: nat, b: nat) -> nat {
    if a + b > usize::MAX {
        usize::MAX as nat
    } else {
        a + b
    }
}

/// `a - b`, saturating at zero.
pub open spec fn saturating_difference(a: nat, b: nat) -> nat {
    if a < b {
        0
    } else {
        (a - b) as nat
    }
}

/// The nets of an order of (net, original lane) entries.
pub open spec fn nets_of(order: Seq<(NetId, usize)>) -> Seq<NetId> {
    order.map_values(|entry: (NetId, usize)| entry.0)
}

/// Saturating total of the costs of `hot` lying before each of the first `k`
/// entries of `rest`.
pub open spec fn hot_first_total(
    rest: Seq<(NetId, usize)>,
    hot: NetId,
    cost: spec_fn(NetId, NetId) -> nat,
    k: int,
) -> nat
    decreases k,
{
    if k <= 0 {
        0
    } else {
        saturating_sum(hot_first_total(rest, hot, cost, k - 1), cost(hot, rest[k - 1].0))
    }
}

/// Predicted cost of putting `hot` back at position `k` of `rest`: starting
/// from `hot` before everything, each step moves it past one more net,
/// trading that pair's cost for the reverse one (saturating).
pub open spec fn insertion_cost(
    rest: Seq<(NetId, usize)>,
    hot: NetId,
    cost: spec_fn(NetId, NetId) -> nat,
    k: int,
) -> nat
    decreases k,
{
    if k <= 0 {
        hot_first_total(rest, hot, cost, rest.len() as int)
    } else {
        saturating_sum(
            saturating_difference(insertion_cost(rest, hot, cost, k - 1), cost(hot, rest[k - 1].0)),
            cost(rest[k - 1].0, hot),
        )
    }
}

/// The first position in `0 ..= k` with the smallest insertion cost.
pub open spec fn best_insertion(
    rest: Seq<(NetId, usize)>,
    hot: NetId,
    cost: spec_fn(NetId, NetId) -> nat,
    k: int,
) -> int
    decreases k,
{
    if k <= 0 {
        0
    } else {
        let before = best_insertion(rest, hot, cost, k - 1);
        if insertion_cost(rest, hot, cost, k) < insertion_cost(rest, hot, cost, before) {
            k
        } else {
            before
        }
    }
}

/// One hot net's move: taken out of `order`, it goes back at its best
/// position when that is strictly cheaper than where it was, adding the
/// saving to `gain` (saturating); otherwise nothing changes. A net absent
/// from `order` changes nothing. Also reports whether the order changed.
pub open spec fn hot_step(
    order: Seq<(NetId, usize)>,
    hot: NetId,
    cost: spec_fn(NetId, NetId) -> nat,
    gain: nat,
) -> (Seq<(NetId, usize)>, nat, bool) {
    let current = first_position(nets_of(order), hot) as int;
    if current >= order.len() {
        (order, gain, false)
    } else {
        let rest = order.remove(current);
        let best = best_insertion(rest, hot, cost, rest.len() as int);
        let current_cost = insertion_cost(rest, hot, cost, current);
        let best_cost = insertion_cost(rest, hot, cost, best);
        if current_cost > best_cost {
            (rest.insert(best, order[current]), saturating_sum(gain, (current_cost - best_cost) as nat), true)
        } else {
            (order, gain, false)
        }
    }
}

/// The moves of the hot nets `hot[start .. end]`, in turn.
pub open spec fn insertion_range(
    order: Seq<(NetId, usize)>,
    hot: Seq<NetId>,
    cost: spec_fn(NetId, NetId) -> nat,
    start: int,
    end: int,
    gain: nat,
) -> (Seq<(NetId, usize)>, nat, bool)
    decreases end - start,
{
    if start >= end {
        (order, gain, false)
    } else {
        let first = hot_step(order, hot[start], cost, gain);
        let others = insertion_range(first.0, hot, cost, start + 1, end, first.1);
        (others.0, others.1, first.2 || others.2)
    }
}

/// Position of the first entry of `order` for `net`, or its length.
fn position_of_net(order: &Vec<(NetId, usize)>, net: NetId) -> (position: usize)
    ensures
        position == first_position(nets_of(order@), net),
{
    let ghost nets = nets_of(order@);
    let mut index: usize = 0;
    while index < order.len()
        invariant
            index <= order@.len(),
            nets == nets_of(order@),
            forall|j: int| 0 <= j < index ==> nets[j] != net,
        decreases order@.len() - index,
    {
        if order[index].0 == net {
            proof {
                lemma_first_position_at(nets, net, index as int);
            }
            return index;
        }
        index = index + 1;
    }
    proof {
        lemma_first_position_at(nets, net, index as int);
    }
    index
}

proof fn lemma_first_position_at(nets: Seq<NetId>, net: NetId, index: int)
    requires
        0 <= index <= nets.len(),
        forall|j: int| 0 <= j < index ==> nets[j] != net,
        index < nets.len() ==> nets[index] == net,
    ensures
        first_position(nets, net) == index,
    decreases index,
{
    if index > 0 {
        assert forall|j: int| 0 <= j < index - 1 implies nets.drop_first()[j] != net by {
            assert(nets.drop_first()[j] == nets[j + 1]);
        }
        lemma_first_position_at(nets.drop_first(), net, index - 1);
    }
}

/// Moves one hot net to its cheapest position (see `hot_step`).
fn move_hot_net<F: Fn(NetId, NetId) -> usize>(
    ordered: &mut Vec<(NetId, usize)>,
    hot_net: NetId,
    pair_cost: &F,
    total_gain: &mut usize,
) -> (changed: bool)
    requires
        is_pair_cost(*pair_cost),
    ensures
        (final(ordered)@, *final(total_gain) as nat, changed) == hot_step(
            old(ordered)@,
            hot_net,
            reported_costs(*pair_cost),
            *old(total_gain) as nat,
        ),
{
    let ghost cost = reported_costs(*pair_cost);
    let ghost start = ordered@;
    proof {
        lemma_reported_cost(*pair_cost);
    }
    let current_index = position_of_net(ordered, hot_net);
    if current_index >= ordered.len() {
        return false;
    }
    let hot_entry = ordered.remove(current_index);
    let ghost rest = ordered@;
    let mut pair_costs: Vec<(usize, usize)> = Vec::new();
    let mut k: usize = 0;
    while k < ordered.len()
        invariant
            k <= rest.len(),
            ordered@ == rest,
            pair_costs@.len() == k,
            forall|a: NetId, b: NetId| pair_cost.requires((a, b)),
            forall|a: NetId, b: NetId, r: usize| pair_cost.ensures((a, b), r) ==> r == cost(a, b),
            forall|t: int|
                0 <= t < k ==> #[trigger] pair_costs@[t] == (
                    cost(hot_net, rest[t].0) as usize,
                    cost(rest[t].0, hot_net) as usize,
                ) && cost(hot_net, rest[t].0) <= usize::MAX && cost(rest[t].0, hot_net) <= usize::MAX,
        decreases rest.len() - k,
    {
        let other = ordered[k].0;
        let hot_before = pair_cost(hot_net, other);
        let other_before = pair_cost(other, hot_net);
        pair_costs.push((hot_before, other_before));
        k = k + 1;
    }
    let mut insertion: usize = 0;
    let mut k: usize = 0;
    while k < pair_costs.len()
        invariant
            k <= pair_costs@.len(),
            pair_costs@.len() == rest.len(),
            forall|t: int|
                0 <= t < rest.len() ==> #[trigger] pair_costs@[t] == (
                    cost(hot_net, rest[t].0) as usize,
                    cost(rest[t].0, hot_net) as usize,
                ) && cost(hot_net, rest[t].0) <= usize::MAX && cost(rest[t].0, hot_net) <= usize::MAX,
            insertion == hot_first_total(rest, hot_net, cost, k as int),
        decreases pair_costs@.len() - k,
    {
        insertion = insertion.saturating_add(pair_costs[k].0);
        k = k + 1;
    }
    let mut best_index: usize = 0;
    let mut best_cost = insertion;
    let mut current_cost = if current_index == 0 {
        insertion
    } else {
        0
    };
    let mut index: usize = 0;
    while index < pair_costs.len()
        invariant
            index <= pair_costs@.len(),
            pair_costs@.len() == rest.len(),
            current_index <= rest.len(),
            forall|t: int|
                0 <= t < rest.len() ==> #[trigger] pair_costs@[t] == (
                    cost(hot_net, rest[t].0) as usize,
                    cost(rest[t].0, hot_net) as usize,
                ) && cost(hot_net, rest[t].0) <= usize::MAX && cost(rest[t].0, hot_net) <= usize::MAX,
            insertion == insertion_cost(rest, hot_net, cost, index as int),
            best_index == best_insertion(rest, hot_net, cost, index as int),
            best_index <= index,
            best_cost == insertion_cost(rest, hot_net, cost, best_index as int),
            current_index <= index ==> current_cost == insertion_cost(rest, hot_net, cost, current_index as int),
        decreases pair_costs@.len() - index,
    {
        let (hot_before, other_before) = pair_costs[index];
        insertion = insertion.saturating_sub(hot_before).saturating_add(other_before);
        if index + 1 == current_index {
            current_cost = insertion;
        }
        if insertion < best_cost {
            best_cost = insertion;
            best_index = index + 1;
        }
        index = index + 1;
    }
    if current_cost > best_cost {
        *total_gain = total_gain.saturating_add(current_cost - best_cost);
        ordered.insert(best_index, hot_entry);
        true
    } else {
        ordered.insert(current_index, hot_entry);
        assert(ordered@ =~= start);
        false
    }
}

proof fn lemma_range_split(
    order: Seq<(NetId, usize)>,
    hot: Seq<NetId>,
    cost: spec_fn(NetId, NetId) -> nat,
    start: int,
    middle: int,
    end: int,
    gain: nat,
)
    requires
        start <= middle <= end,
    ensures
        ({
            let first = insertion_range(order, hot, cost, start, middle, gain);
            let second = insertion_range(first.0, hot, cost, middle, end, first.1);
            let whole = insertion_range(order, hot, cost, start, end, gain);
            whole == (second.0, second.1, first.2 || second.2)
        }),
    decreases middle - start,
{
    if start < middle {
        let step = hot_step(order, hot[start], cost, gain);
        lemma_range_split(step.0, hot, cost, start + 1, middle, end, step.1);
    }
}

/// Moves the hot nets `hot[start .. end]` in turn (see `hot_step`), adding
/// their savings to `total_gain`; reports whether any moved.
pub fn run_large_gap_hot_insertion_range<F: Fn(NetId, NetId) -> usize>(
    ordered: &mut Vec<(NetId, usize)>,
    hot: &[NetId],
    pair_cost: &F,
    start: usize,
    end: usize,
    total_gain: &mut usize,
) -> (changed: bool)
    requires
        is_pair_cost(*pair_cost),
        start < end ==> end <= hot@.len(),
    ensures
        (final(ordered)@, *final(total_gain) as nat, changed) == insertion_range(
            old(ordered)@,
            hot@,
            reported_costs(*pair_cost),
            start as int,
            end as int,
            *old(total_gain) as nat,
        ),
{
    let ghost cost = reported_costs(*pair_cost);
    let ghost goal = insertion_range(ordered@, hot@, cost, start as int, end as int, *total_gain as nat);
    let mut changed = false;
    let mut hot_index = start;
    while hot_index < end
        invariant
            start <= hot_index || end <= start,
            hot_index < end ==> end <= hot@.len(),
            is_pair_cost(*pair_cost),
            cost == reported_costs(*pair_cost),
            ({
                let rest = insertion_range(ordered@, hot@, cost, hot_index as int, end as int, *total_gain as nat);
                goal == (rest.0, rest.1, changed || rest.2)
            }),
        decreases end - hot_index,
    {
        let ghost before = (ordered@, *total_gain as nat);
        let hot_net = hot[hot_index];
        let moved = move_hot_net(ordered, hot_net, pair_cost, total_gain);
        proof {
            assert(hot_step(before.0, hot@[hot_index as int], cost, before.1) == (ordered@, *total_gain as nat, moved));
            let rest = insertion_range(ordered@, hot@, cost, hot_index + 1, end as int, *total_gain as nat);
            assert(insertion_range(before.0, hot@, cost, hot_index as int, end as int, before.1) == (
                rest.0,
                rest.1,
                moved || rest.2,
            ));
        }
        changed = changed || moved;
        hot_index = hot_index + 1;
    }
    changed
}

/// The order and gain after up to `rounds` passes over all hot nets,
/// stopping after a pass that moves nothing.
pub open spec fn insertion_rounds(
    order: Seq<(NetId, usize)>,
    hot: Seq<NetId>,
    cost: spec_fn(NetId, NetId) -> nat,
    rounds: nat,
    gain: nat,
) -> (Seq<(NetId, usize)>, nat)
    decreases rounds,
{
    if rounds == 0 {
        (order, gain)
    } else {
        let pass = insertion_range(order, hot, cost, 0, hot.len() as int, gain);
        if pass.2 {
            insertion_rounds(pass.0, hot, cost, (rounds - 1) as nat, pass.1)
        } else {
            (pass.0, pass.1)
        }
    }
}

/// Where the first pass takes its snapshot: after the first
/// `snapshot_hot_limit` hot nets (capped by their number), or nowhere.
pub open spec fn snapshot_split(hot: Seq<NetId>, snapshot_hot_limit: Option<usize>) -> int {
    let limit = match snapshot_hot_limit {
        Some(limit) => limit as int,
        None => 0,
    };
    if limit < hot.len() {
        limit
    } else {
        hot.len() as int
    }
}

/// `candidates` are the snapshot and final candidates of up to `rounds`
/// passes over `ordered` (see `run_large_gap_hot_insertion_rounds`).
pub open spec fn describes_insertion_rounds(
    candidates: (Option<(BTreeMap<NetId, usize>, usize)>, Option<(BTreeMap<NetId, usize>, usize)>),
    ordered: Seq<(NetId, usize)>,
    hot: Seq<NetId>,
    cost: spec_fn(NetId, NetId) -> nat,
    rounds: nat,
    snapshot_hot_limit: Option<usize>,
) -> bool {
    let split = snapshot_split(hot, snapshot_hot_limit);
    let last = insertion_rounds(ordered, hot, cost, rounds, 0);
    &&& describes_lane_order(candidates.1, last.0, last.1)
    &&& if rounds > 0 && split > 0 {
        let first = insertion_range(ordered, hot, cost, 0, split, 0);
        describes_lane_order(candidates.0, first.0, first.1)
    } else {
        candidates.0 is None
    }
}

/// Up to `rounds` passes of hot-net moves over `ordered`, starting from no
/// gain and stopping after a pass that moves nothing. Returns the candidate
/// taken during the first pass after its first `snapshot_hot_limit` hot nets
/// (`None` when that is zero or there is no pass), and the final candidate.
pub fn run_large_gap_hot_insertion_rounds<F: Fn(NetId, NetId) -> usize>(
    ordered: Vec<(NetId, usize)>,
    hot: &[NetId],
    pair_cost: &F,
    rounds: usize,
    snapshot_hot_limit: Option<usize>,
) -> (candidates: (Option<(BTreeMap<NetId, usize>, usize)>, Option<(BTreeMap<NetId, usize>, usize)>))
    requires
        is_pair_cost(*pair_cost),
    ensures
        describes_insertion_rounds(
            candidates,
            ordered@,
            hot@,
            reported_costs(*pair_cost),
            rounds as nat,
            snapshot_hot_limit,
        ),
{
    let ghost cost = reported_costs(*pair_cost);
    let ghost start = ordered@;
    let ghost split = snapshot_split(hot@, snapshot_hot_limit);
    let mut ordered = ordered;
    let mut total_gain: usize = 0;
    let mut snapshot: Option<(BTreeMap<NetId, usize>, usize)> = None;
    let mut round: usize = 0;
    let mut settled = false;
    while round < rounds && !settled
        invariant
            round <= rounds,
            is_pair_cost(*pair_cost),
            cost == reported_costs(*pair_cost),
            split == snapshot_split(hot@, snapshot_hot_limit),
            !settled ==> insertion_rounds(start, hot@, cost, rounds as nat, 0) == insertion_rounds(
                ordered@,
                hot@,
                cost,
                (rounds - round) as nat,
                total_gain as nat,
            ),
            settled ==> insertion_rounds(start, hot@, cost, rounds as nat, 0) == (ordered@, total_gain as nat),
            round == 0 ==> ordered@ == start && total_gain == 0 && snapshot is None && !settled,
            round > 0 ==> if split > 0 {
                let first = insertion_range(start, hot@, cost, 0, split, 0);
                describes_lane_order(snapshot, first.0, first.1)
            } else {
                snapshot is None
            },
        decreases rounds - round,
    {
        let requested = if round == 0 {
            match snapshot_hot_limit {
                Some(limit) => limit,
                None => 0,
            }
        } else {
            0
        };
        let snapshot_index = if requested < hot.len() {
            requested
        } else {
            hot.len()
        };
        let ghost pass_start = ordered@;
        let ghost gain_start = total_gain as nat;
        let first_end = if snapshot_index == 0 {
            hot.len()
        } else {
            snapshot_index
        };
        let mut changed = run_large_gap_hot_insertion_range(
            &mut ordered,
            hot,
            pair_cost,
            0,
            first_end,
            &mut total_gain,
        );
        if snapshot_index > 0 {
            snapshot = gap_lane_order_candidate(&ordered, total_gain);
            let more = run_large_gap_hot_insertion_range(
                &mut ordered,
                hot,
                pair_cost,
                snapshot_index,
                hot.len(),
                &mut total_gain,
            );
            changed = changed || more;
            proof {
                lemma_range_split(pass_start, hot@, cost, 0, snapshot_index as int, hot@.len() as int, gain_start);
            }
        }
        proof {
            let pass = insertion_range(pass_start, hot@, cost, 0, hot@.len() as int, gain_start);
            assert(pass == (ordered@, total_gain as nat, changed));
            if changed {
                assert(insertion_rounds(pass_start, hot@, cost, (rounds - round) as nat, gain_start)
                    == insertion_rounds(ordered@, hot@, cost, (rounds - round - 1) as nat, total_gain as nat));
            } else {
                assert(insertion_rounds(pass_start, hot@, cost, (rounds - round) as nat, gain_start) == (
                    ordered@,
                    total_gain as nat,
                ));
            }
            if round == 0 && split > 0 {
                assert(snapshot_index == split);
            }
        }
        if !changed {
            settled = true;
        }
        round = round + 1;
    }
    proof {
        if !settled {
            assert(round == rounds);
            assert(insertion_rounds(ordered@, hot@, cost, 0, total_gain as nat) == (ordered@, total_gain as nat));
        }
    }
    let last = gap_lane_order_candidate(&ordered, total_gain);
    (snapshot, last)
}

/// A large gap has from `MAX_GLOBAL_GAP_LANES + 1` to
/// `MAX_LARGE_GLOBAL_GAP_LANES` nets.
pub open spec fn is_large_gap(baseline: Map<NetId, usize>) -> bool {
    MAX_GLOBAL_GAP_LANES < baseline.len() <= MAX_LARGE_GLOBAL_GAP_LANES
}

/// `candidates` come from hot-net moves over the baseline order of a large gap.
pub open spec fn is_hot_insertion_result(
    candidates: (Option<(BTreeMap<NetId, usize>, usize)>, Option<(BTreeMap<NetId, usize>, usize)>),
    baseline: Map<NetId, usize>,
    hot: Seq<NetId>,
    cost: spec_fn(NetId, NetId) -> nat,
    rounds: nat,
    snapshot_hot_limit: Option<usize>,
) -> bool {
    exists|ordered: Seq<(NetId, usize)>|
        orders_baseline(ordered, baseline) && #[trigger] describes_insertion_rounds(
            candidates,
            ordered,
            hot,
            cost,
            rounds,
            snapshot_hot_limit,
        )
}

/// The hot nets of a gap: the first `hot_limit` of its nets ranked by hotness.
pub open spec fn hot_prefix(ranked_hot: Seq<NetId>, hot_limit: usize) -> Seq<NetId> {
    if hot_limit < ranked_hot.len() {
        ranked_hot.take(hot_limit as int)
    } else {
        ranked_hot
    }
}

/// The first `hot_limit` ranked hot nets.
fn hot_prefix_of(ranked_hot: &[NetId], hot_limit: usize) -> (hot: Vec<NetId>)
    ensures
        hot@ == hot_prefix(ranked_hot@, hot_limit),
{
    let count = if hot_limit < ranked_hot.len() {
        hot_limit
    } else {
        ranked_hot.len()
    };
    let mut hot: Vec<NetId> = Vec::new();
    let mut index: usize = 0;
    while index < count
        invariant
            index <= count,
            count <= ranked_hot@.len(),
            hot@ == ranked_hot@.take(index as int),
        decreases count - index,
    {
        hot.push(ranked_hot[index]);
        index = index + 1;
        assert(hot@ =~= ranked_hot@.take(index as int));
    }
    assert(hot@ =~= hot_prefix(ranked_hot@, hot_limit));
    hot
}

/// Hot-net move candidates of a large gap, starting from its baseline lane
/// order (ties by net); `(None, None)` for a gap that is not large. The hot
/// nets are the first `hot_limit` of `ranked_hot`, the gap's nets ranked by
/// hotness, moved in that order.
pub fn large_gap_hot_insertion_orders_with_rounds<F: Fn(NetId, NetId) -> usize>(
    baseline: &BTreeMap<NetId, usize>,
    ranked_hot: &[NetId],
    hot_limit: usize,
    pair_cost: &F,
    rounds: usize,
    snapshot_hot_limit: Option<usize>,
) -> (candidates: (Option<(BTreeMap<NetId, usize>, usize)>, Option<(BTreeMap<NetId, usize>, usize)>))
    requires
        is_pair_cost(*pair_cost),
    ensures
        !is_large_gap(baseline@) ==> candidates.0 is None && candidates.1 is None,
        is_large_gap(baseline@) ==> is_hot_insertion_result(
            candidates,
            baseline@,
            hot_prefix(ranked_hot@, hot_limit),
            reported_costs(*pair_cost),
            rounds as nat,
            snapshot_hot_limit,
        ),
{
    if baseline.len() <= MAX_GLOBAL_GAP_LANES || baseline.len() > MAX_LARGE_GLOBAL_GAP_LANES {
        return (None, None);
    }
    let ordered = initial_large_gap_order(baseline);
    let ghost seed = ordered@;
    let hot = hot_prefix_of(ranked_hot, hot_limit);
    let candidates = run_large_gap_hot_insertion_rounds(ordered, hot.as_slice(), pair_cost, rounds, snapshot_hot_limit);
    assert(is_hot_insertion_result(candidates, baseline@, hot@, reported_costs(*pair_cost), rounds as nat, snapshot_hot_limit));
    candidates
}

/// The three lane order candidates of a large gap.
pub struct GapLaneOrderCandidates {
    pub global: Option<(BTreeMap<NetId, usize>, usize)>,
    pub preserved_refined: Option<(BTreeMap<NetId, usize>, usize)>,
    pub refined: Option<(BTreeMap<NetId, usize>, usize)>,
}

/// The candidates of `refined_large_gap_hot_insertion_orders` from the
/// baseline order `ordered`: one pass over the first
/// `MAX_LARGE_GLOBAL_GAP_HOT_NETS` hot nets gives the global candidate;
/// continuing to the first `MAX_PRESERVED_REFINED_LARGE_GLOBAL_GAP_HOT_NETS`
/// and then repeating them gives the preserved candidate; continuing to all
/// hot nets and, when that first pass moved any net, repeating full passes
/// gives the refined candidate.
pub open spec fn describes_refined_candidates(
    candidates: GapLaneOrderCandidates,
    ordered: Seq<(NetId, usize)>,
    hot: Seq<NetId>,
    cost: spec_fn(NetId, NetId) -> nat,
) -> bool {
    let global_count = if hot.len() < MAX_LARGE_GLOBAL_GAP_HOT_NETS {
        hot.len() as int
    } else {
        MAX_LARGE_GLOBAL_GAP_HOT_NETS as int
    };
    let preserved_count = if hot.len() < MAX_PRESERVED_REFINED_LARGE_GLOBAL_GAP_HOT_NETS {
        hot.len() as int
    } else {
        MAX_PRESERVED_REFINED_LARGE_GLOBAL_GAP_HOT_NETS as int
    };
    let global = insertion_range(ordered, hot, cost, 0, global_count, 0);
    let preserved_start = insertion_range(global.0, hot, cost, global_count, preserved_count, global.1);
    let preserved = insertion_rounds(
        preserved_start.0,
        hot.take(preserved_count),
        cost,
        (MAX_PRESERVED_REFINED_LARGE_GLOBAL_GAP_HOT_ROUNDS - 1) as nat,
        preserved_start.1,
    );
    let first_pass = insertion_range(preserved_start.0, hot, cost, preserved_count, hot.len() as int, preserved_start.1);
    let refined = if global.2 || preserved_start.2 || first_pass.2 {
        insertion_rounds(first_pass.0, hot, cost, (MAX_REFINED_LARGE_GLOBAL_GAP_HOT_ROUNDS - 1) as nat, first_pass.1)
    } else {
        (first_pass.0, first_pass.1)
    };
    &&& describes_lane_order(candidates.global, global.0, global.1)
    &&& describes_lane_order(candidates.preserved_refined, preserved.0, preserved.1)
    &&& describes_lane_order(candidates.refined, refined.0, refined.1)
}

/// `candidates` are the refined candidates of the baseline order of a gap.
pub open spec fn is_refined_result(
    candidates: GapLaneOrderCandidates,
    baseline: Map<NetId, usize>,
    hot: Seq<NetId>,
    cost: spec_fn(NetId, NetId) -> nat,
) -> bool {
    exists|ordered: Seq<(NetId, usize)>|
        orders_baseline(ordered, baseline) && #[trigger] describes_refined_candidates(candidates, ordered, hot, cost)
}

proof fn lemma_range_prefix(
    order: Seq<(NetId, usize)>,
    hot: Seq<NetId>,
    cost: spec_fn(NetId, NetId) -> nat,
    count: int,
    start: int,
    end: int,
    gain: nat,
)
    requires
        0 <= start,
        end <= count <= hot.len(),
    ensures
        insertion_range(order, hot, cost, start, end, gain) == insertion_range(
            order,
            hot.take(count),
            cost,
            start,
            end,
            gain,
        ),
    decreases end - start,
{
    if start < end {
        let step = hot_step(order, hot[start], cost, gain);
        lemma_range_prefix(step.0, hot, cost, count, start + 1, end, step.1);
    }
}

/// A copy of an order.
fn copy_order(order: &Vec<(NetId, usize)>) -> (copy: Vec<(NetId, usize)>)
    ensures
        copy@ == order@,
{
    let mut copy: Vec<(NetId, usize)> = Vec::new();
    let mut index: usize = 0;
    while index < order.len()
        invariant
            index <= order@.len(),
            copy@ == order@.take(index as int),
        decreases order@.len() - index,
    {
        copy.push(order[index]);
        index = index + 1;
        assert(copy@ =~= order@.take(index as int));
    }
    assert(order@.take(index as int) =~= order@);
    copy
}

/// The large-gap candidates refined over many hot nets; all `None` for a gap
/// that is not large. The hot nets are the first
/// `MAX_REFINED_LARGE_GLOBAL_GAP_HOT_NETS` of `ranked_hot`, the gap's nets
/// ranked by hotness (see `describes_refined_candidates`).
pub fn refined_large_gap_hot_insertion_orders<F: Fn(NetId, NetId) -> usize>(
    baseline: &BTreeMap<NetId, usize>,
    ranked_hot: &[NetId],
    pair_cost: &F,
) -> (candidates: GapLaneOrderCandidates)
    requires
        is_pair_cost(*pair_cost),
    ensures
        !is_large_gap(baseline@) ==> candidates.global is None && candidates.preserved_refined is None
            && candidates.refined is None,
        is_large_gap(baseline@) ==> is_refined_result(
            candidates,
            baseline@,
            hot_prefix(ranked_hot@, MAX_REFINED_LARGE_GLOBAL_GAP_HOT_NETS),
            reported_costs(*pair_cost),
        ),
{
    if baseline.len() <= MAX_GLOBAL_GAP_LANES || baseline.len() > MAX_LARGE_GLOBAL_GAP_LANES {
        return GapLaneOrderCandidates { global: None, preserved_refined: None, refined: None };
    }
    let hot_nets = hot_prefix_of(ranked_hot, MAX_REFINED_LARGE_GLOBAL_GAP_HOT_NETS);
    let hot = hot_nets.as_slice();
    let ghost cost = reported_costs(*pair_cost);
    let ordered = initial_large_gap_order(baseline);
    let ghost seed = ordered@;
    let mut refined_order = ordered;
    let mut refined_gain: usize = 0;
    let global_count = if hot.len() < MAX_LARGE_GLOBAL_GAP_HOT_NETS {
        hot.len()
    } else {
        MAX_LARGE_GLOBAL_GAP_HOT_NETS
    };
    let preserved_count = if hot.len() < MAX_PRESERVED_REFINED_LARGE_GLOBAL_GAP_HOT_NETS {
        hot.len()
    } else {
        MAX_PRESERVED_REFINED_LARGE_GLOBAL_GAP_HOT_NETS
    };
    let mut first_round_changed = run_large_gap_hot_insertion_range(
        &mut refined_order,
        hot,
        pair_cost,
        0,
        global_count,
        &mut refined_gain,
    );
    let ghost global_state = (refined_order@, refined_gain as nat, first_round_changed);
    let global = gap_lane_order_candidate(&refined_order, refined_gain);
    let more = run_large_gap_hot_insertion_range(
        &mut refined_order,
        hot,
        pair_cost,
        global_count,
        preserved_count,
        &mut refined_gain,
    );
    let ghost preserved_state = (refined_order@, refined_gain as nat, more);
    first_round_changed = first_round_changed || more;
    let ghost preserved_hot = hot@.take(preserved_count as int);
    let mut preserved_order = copy_order(&refined_order);
    let mut preserved_gain = refined_gain;
    assert(preserved_order@ == refined_order@);
    let ghost preserved_goal = insertion_rounds(
        preserved_order@,
        preserved_hot,
        cost,
        (MAX_PRESERVED_REFINED_LARGE_GLOBAL_GAP_HOT_ROUNDS - 1) as nat,
        preserved_gain as nat,
    );
    let mut round: usize = 1;
    let mut settled = false;
    while round < MAX_PRESERVED_REFINED_LARGE_GLOBAL_GAP_HOT_ROUNDS && !settled
        invariant
            1 <= round <= MAX_PRESERVED_REFINED_LARGE_GLOBAL_GAP_HOT_ROUNDS,
            is_pair_cost(*pair_cost),
            cost == reported_costs(*pair_cost),
            preserved_count <= hot@.len(),
            preserved_hot == hot@.take(preserved_count as int),
            !settled ==> preserved_goal == insertion_rounds(
                preserved_order@,
                preserved_hot,
                cost,
                (MAX_PRESERVED_REFINED_LARGE_GLOBAL_GAP_HOT_ROUNDS - round) as nat,
                preserved_gain as nat,
            ),
            settled ==> preserved_goal == (preserved_order@, preserved_gain as nat),
        decreases MAX_PRESERVED_REFINED_LARGE_GLOBAL_GAP_HOT_ROUNDS - round,
    {
        let ghost pass_start = (preserved_order@, preserved_gain as nat);
        let moved = run_large_gap_hot_insertion_range(
            &mut preserved_order,
            hot,
            pair_cost,
            0,
            preserved_count,
            &mut preserved_gain,
        );
        proof {
            lemma_range_prefix(pass_start.0, hot@, cost, preserved_count as int, 0, preserved_count as int, pass_start.1);
            assert(preserved_hot.len() == preserved_count);
        }
        if !moved {
            settled = true;
        }
        round = round + 1;
    }
    proof {
        if !settled {
            assert(preserved_goal == (preserved_order@, preserved_gain as nat));
        }
    }
    let preserved_refined = gap_lane_order_candidate(&preserved_order, preserved_gain);
    let last = run_large_gap_hot_insertion_range(
        &mut refined_order,
        hot,
        pair_cost,
        preserved_count,
        hot.len(),
        &mut refined_gain,
    );
    let ghost first_pass_state = (refined_order@, refined_gain as nat, last);
    first_round_changed = first_round_changed || last;
    assert(first_round_changed == (global_state.2 || preserved_state.2 || first_pass_state.2));
    if first_round_changed {
        let ghost refined_goal = insertion_rounds(
            refined_order@,
            hot@,
            cost,
            (MAX_REFINED_LARGE_GLOBAL_GAP_HOT_ROUNDS - 1) as nat,
            refined_gain as nat,
        );
        let mut round: usize = 1;
        let mut settled = false;
        while round < MAX_REFINED_LARGE_GLOBAL_GAP_HOT_ROUNDS && !settled
            invariant
                1 <= round <= MAX_REFINED_LARGE_GLOBAL_GAP_HOT_ROUNDS,
                is_pair_cost(*pair_cost),
                cost == reported_costs(*pair_cost),
                !settled ==> refined_goal == insertion_rounds(
                    refined_order@,
                    hot@,
                    cost,
                    (MAX_REFINED_LARGE_GLOBAL_GAP_HOT_ROUNDS - round) as nat,
                    refined_gain as nat,
                ),
                settled ==> refined_goal == (refined_order@, refined_gain as nat),
            decreases MAX_REFINED_LARGE_GLOBAL_GAP_HOT_ROUNDS - round,
        {
            let moved = run_large_gap_hot_insertion_range(
                &mut refined_order,
                hot,
                pair_cost,
                0,
                hot.len(),
                &mut refined_gain,
            );
            if !moved {
                settled = true;
            }
            round = round + 1;
        }
        proof {
            if !settled {
                assert(refined_goal == (refined_order@, refined_gain as nat));
            }
        }
    }
    let refined = gap_lane_order_candidate(&refined_order, refined_gain);
    let candidates = GapLaneOrderCandidates { global, preserved_refined, refined };
    proof {
        let gc = global_count as int;
        let pc = preserved_count as int;
        assert(global_state == insertion_range(seed, hot@, cost, 0, gc, 0));
        assert(preserved_state == insertion_range(global_state.0, hot@, cost, gc, pc, global_state.1));
        assert(first_pass_state == insertion_range(preserved_state.0, hot@, cost, pc, hot@.len() as int, preserved_state.1));
        assert(describes_lane_order(candidates.global, global_state.0, global_state.1));
        assert(preserved_goal == insertion_rounds(
            preserved_state.0,
            hot@.take(pc),
            cost,
            (MAX_PRESERVED_REFINED_LARGE_GLOBAL_GAP_HOT_ROUNDS - 1) as nat,
            preserved_state.1,
        ));
        assert(describes_lane_order(candidates.preserved_refined, preserved_goal.0, preserved_goal.1));
    }
    assert(describes_refined_candidates(candidates, seed, hot@, cost));
    assert(is_refined_result(candidates, baseline@, hot@, cost));
    candidates
}

proof fn lemma_range_unchanged(
    order: Seq<(NetId, usize)>,
    hot: Seq<NetId>,
    cost: spec_fn(NetId, NetId) -> nat,
    start: int,
    end: int,
    gain: nat,
)
    requires
        !insertion_range(order, hot, cost, start, end, gain).2,
    ensures
        insertion_range(order, hot, cost, start, end, gain) == (order, gain, false),
    decreases end - start,
{
    if start < end {
        let step = hot_step(order, hot[start], cost, gain);
        lemma_range_unchanged(step.0, hot, cost, start + 1, end, step.1);
    }
}

/// Two candidates give the same lanes and gain.
pub open spec fn same_candidate(
    left: Option<(BTreeMap<NetId, usize>, usize)>,
    right: Option<(BTreeMap<NetId, usize>, usize)>,
) -> bool {
    &&& left is None <==> right is None
    &&& left matches Some((left_lanes, left_gain)) ==> (right matches Some((right_lanes, right_gain))
        ==> left_lanes@ == right_lanes@ && left_gain == right_gain)
}

proof fn lemma_describes_same(
    left: Option<(BTreeMap<NetId, usize>, usize)>,
    right: Option<(BTreeMap<NetId, usize>, usize)>,
    order: Seq<(NetId, usize)>,
    gain: nat,
)
    requires
        describes_lane_order(left, order, gain),
        describes_lane_order(right, order, gain),
    ensures
        same_candidate(left, right),
{
    if let (Some(left_candidate), Some(right_candidate)) = (left, right) {
        let l = left_candidate.0@;
        let r = right_candidate.0@;
        assert forall|net: NetId| l.contains_key(net) implies r.contains_key(net) && l[net] == r[net] by {
            assert(last_position_of(order, net, l[net] as int));
            assert(r.contains_key(net));
            assert(last_position_of(order, net, r[net] as int));
            if l[net] < r[net] {
                assert(order[r[net] as int].0 == net);
            } else if r[net] < l[net] {
                assert(order[l[net] as int].0 == net);
            }
        }
        assert forall|net: NetId| r.contains_key(net) implies l.contains_key(net) by {
            assert(exists|k: int| 0 <= k < order.len() && order[k].0 == net);
        }
        assert(l =~= r);
    }
}

/// The fused refinement gives the same candidates as three separate runs of
/// hot-net moves from the baseline order: one pass over the first
/// `MAX_LARGE_GLOBAL_GAP_HOT_NETS` ranked hot nets,
/// `MAX_PRESERVED_REFINED_LARGE_GLOBAL_GAP_HOT_ROUNDS` passes over the first
/// `MAX_PRESERVED_REFINED_LARGE_GLOBAL_GAP_HOT_NETS`, and
/// `MAX_REFINED_LARGE_GLOBAL_GAP_HOT_ROUNDS` passes over the first
/// `MAX_REFINED_LARGE_GLOBAL_GAP_HOT_NETS`.
pub proof fn lemma_fused_candidates_match_separate_runs(
    candidates: GapLaneOrderCandidates,
    standard: (Option<(BTreeMap<NetId, usize>, usize)>, Option<(BTreeMap<NetId, usize>, usize)>),
    preserved: (Option<(BTreeMap<NetId, usize>, usize)>, Option<(BTreeMap<NetId, usize>, usize)>),
    refined: (Option<(BTreeMap<NetId, usize>, usize)>, Option<(BTreeMap<NetId, usize>, usize)>),
    baseline: Map<NetId, usize>,
    ranked_hot: Seq<NetId>,
    cost: spec_fn(NetId, NetId) -> nat,
)
    requires
        is_refined_result(candidates, baseline, hot_prefix(ranked_hot, MAX_REFINED_LARGE_GLOBAL_GAP_HOT_NETS), cost),
        is_hot_insertion_result(standard, baseline, hot_prefix(ranked_hot, MAX_LARGE_GLOBAL_GAP_HOT_NETS), cost, 1, None),
        is_hot_insertion_result(
            preserved,
            baseline,
            hot_prefix(ranked_hot, MAX_PRESERVED_REFINED_LARGE_GLOBAL_GAP_HOT_NETS),
            cost,
            MAX_PRESERVED_REFINED_LARGE_GLOBAL_GAP_HOT_ROUNDS as nat,
            None,
        ),
        is_hot_insertion_result(
            refined,
            baseline,
            hot_prefix(ranked_hot, MAX_REFINED_LARGE_GLOBAL_GAP_HOT_NETS),
            cost,
            MAX_REFINED_LARGE_GLOBAL_GAP_HOT_ROUNDS as nat,
            None,
        ),
    ensures
        same_candidate(candidates.global, standard.1),
        same_candidate(candidates.preserved_refined, preserved.1),
        same_candidate(candidates.refined, refined.1),
{
    let hot = hot_prefix(ranked_hot, MAX_REFINED_LARGE_GLOBAL_GAP_HOT_NETS);
    let gc = if hot.len() < MAX_LARGE_GLOBAL_GAP_HOT_NETS {
        hot.len() as int
    } else {
        MAX_LARGE_GLOBAL_GAP_HOT_NETS as int
    };
    let pc = if hot.len() < MAX_PRESERVED_REFINED_LARGE_GLOBAL_GAP_HOT_NETS {
        hot.len() as int
    } else {
        MAX_PRESERVED_REFINED_LARGE_GLOBAL_GAP_HOT_NETS as int
    };
    assert(hot.take(gc) =~= hot_prefix(ranked_hot, MAX_LARGE_GLOBAL_GAP_HOT_NETS));
    assert(hot.take(pc) =~= hot_prefix(ranked_hot, MAX_PRESERVED_REFINED_LARGE_GLOBAL_GAP_HOT_NETS));
    let ordered = choose|ordered: Seq<(NetId, usize)>|
        orders_baseline(ordered, baseline) && #[trigger] describes_refined_candidates(candidates, ordered, hot, cost);
    let o1 = choose|o: Seq<(NetId, usize)>|
        orders_baseline(o, baseline) && #[trigger] describes_insertion_rounds(standard, o, hot.take(gc), cost, 1, None);
    let o2 = choose|o: Seq<(NetId, usize)>|
        orders_baseline(o, baseline) && #[trigger] describes_insertion_rounds(
            preserved,
            o,
            hot.take(pc),
            cost,
            MAX_PRESERVED_REFINED_LARGE_GLOBAL_GAP_HOT_ROUNDS as nat,
            None,
        );
    let o3 = choose|o: Seq<(NetId, usize)>|
        orders_baseline(o, baseline) && #[trigger] describes_insertion_rounds(
            refined,
            o,
            hot,
            cost,
            MAX_REFINED_LARGE_GLOBAL_GAP_HOT_ROUNDS as nat,
            None,
        );
    lemma_orders_baseline_unique(ordered, o1, baseline);
    lemma_orders_baseline_unique(ordered, o2, baseline);
    lemma_orders_baseline_unique(ordered, o3, baseline);
    let global = insertion_range(ordered, hot, cost, 0, gc, 0);
    let preserved_start = insertion_range(global.0, hot, cost, gc, pc, global.1);
    let first_pass = insertion_range(preserved_start.0, hot, cost, pc, hot.len() as int, preserved_start.1);
    // The standard run: one pass over the first `gc` hot nets.
    lemma_range_prefix(ordered, hot, cost, gc, 0, gc, 0);
    let standard_pass = insertion_range(ordered, hot.take(gc), cost, 0, gc, 0);
    assert(hot.take(gc).len() == gc);
    assert(insertion_rounds(standard_pass.0, hot.take(gc), cost, 0, standard_pass.1) == (
        standard_pass.0,
        standard_pass.1,
    ));
    assert(insertion_rounds(ordered, hot.take(gc), cost, 1, 0) == (standard_pass.0, standard_pass.1));
    lemma_describes_same(candidates.global, standard.1, global.0, global.1);
    // The preserved run: passes over the first `pc` hot nets.
    lemma_range_split(ordered, hot, cost, 0, gc, pc, 0);
    lemma_range_prefix(ordered, hot, cost, pc, 0, pc, 0);
    assert(hot.take(pc).len() == pc);
    let preserved_pass = insertion_range(ordered, hot.take(pc), cost, 0, pc, 0);
    assert(preserved_pass == (preserved_start.0, preserved_start.1, global.2 || preserved_start.2));
    if !preserved_pass.2 {
        lemma_range_unchanged(ordered, hot.take(pc), cost, 0, pc, 0);
    }
    let fused_preserved = insertion_rounds(
        preserved_start.0,
        hot.take(pc),
        cost,
        (MAX_PRESERVED_REFINED_LARGE_GLOBAL_GAP_HOT_ROUNDS - 1) as nat,
        preserved_start.1,
    );
    assert(insertion_rounds(ordered, hot.take(pc), cost, MAX_PRESERVED_REFINED_LARGE_GLOBAL_GAP_HOT_ROUNDS as nat, 0)
        == fused_preserved);
    lemma_describes_same(candidates.preserved_refined, preserved.1, fused_preserved.0, fused_preserved.1);
    // The refined run: passes over all hot nets.
    lemma_range_split(ordered, hot, cost, 0, pc, hot.len() as int, 0);
    let full_pass = insertion_range(ordered, hot, cost, 0, hot.len() as int, 0);
    assert(full_pass == (first_pass.0, first_pass.1, global.2 || preserved_start.2 || first_pass.2));
    let fused_refined = if global.2 || preserved_start.2 || first_pass.2 {
        insertion_rounds(first_pass.0, hot, cost, (MAX_REFINED_LARGE_GLOBAL_GAP_HOT_ROUNDS - 1) as nat, first_pass.1)
    } else {
        (first_pass.0, first_pass.1)
    };
    assert(insertion_rounds(ordered, hot, cost, MAX_REFINED_LARGE_GLOBAL_GAP_HOT_ROUNDS as nat, 0) == fused_refined);
    lemma_describes_same(candidates.refined, refined.1, fused_refined.0, fused_refined.1);
}

proof fn lemma_hot_step_keeps_entries(
    order: Seq<(NetId, usize)>,
    hot: NetId,
    cost: spec_fn(NetId, NetId) -> nat,
    gain: nat,
)
    ensures
        hot_step(order, hot, cost, gain).0.to_multiset() == order.to_multiset(),
        gain <= usize::MAX ==> gain <= hot_step(order, hot, cost, gain).1 <= usize::MAX,
{
    broadcast use vstd::seq_lib::to_multiset_insert, vstd::seq_lib::to_multiset_remove,
        vstd::multiset::group_multiset_axioms;

    let current = first_position(nets_of(order), hot) as int;
    if current < order.len() {
        let rest = order.remove(current);
        let best = best_insertion(rest, hot, cost, rest.len() as int);
        lemma_best_insertion_bounds(rest, hot, cost, rest.len() as int);
        order.to_multiset_ensures();
        assert(order.contains(order[current]));
        assert(rest.to_multiset() == order.to_multiset().remove(order[current]));
        assert(rest.insert(best, order[current]).to_multiset() == rest.to_multiset().insert(order[current]));
        assert(rest.insert(best, order[current]).to_multiset() =~= order.to_multiset());
    }
}

proof fn lemma_best_insertion_bounds(
    rest: Seq<(NetId, usize)>,
    hot: NetId,
    cost: spec_fn(NetId, NetId) -> nat,
    k: int,
)
    ensures
        0 <= best_insertion(rest, hot, cost, k) <= if k < 0 { 0 } else { k },
    decreases k,
{
    if k > 0 {
        lemma_best_insertion_bounds(rest, hot, cost, k - 1);
    }
}

/// Moving hot nets only reorders the entries of a gap, and never lowers the gain.
pub proof fn lemma_hot_moves_keep_entries(
    order: Seq<(NetId, usize)>,
    hot: Seq<NetId>,
    cost: spec_fn(NetId, NetId) -> nat,
    start: int,
    end: int,
    rounds: nat,
    gain: nat,
)
    ensures
        insertion_range(order, hot, cost, start, end, gain).0.to_multiset() == order.to_multiset(),
        gain <= usize::MAX ==> gain <= insertion_range(order, hot, cost, start, end, gain).1 <= usize::MAX,
        insertion_rounds(order, hot, cost, rounds, gain).0.to_multiset() == order.to_multiset(),
        gain <= usize::MAX ==> gain <= insertion_rounds(order, hot, cost, rounds, gain).1 <= usize::MAX,
    decreases rounds, end - start,
{
    if start < end {
        let step = hot_step(order, hot[start], cost, gain);
        lemma_hot_step_keeps_entries(order, hot[start], cost, gain);
        lemma_hot_moves_keep_entries(step.0, hot, cost, start + 1, end, 0, step.1);
    }
    if rounds > 0 {
        let pass = insertion_range(order, hot, cost, 0, hot.len() as int, gain);
        lemma_hot_moves_keep_entries(order, hot, cost, 0, hot.len() as int, 0, gain);
        if pass.2 {
            lemma_hot_moves_keep_entries(pass.0, hot, cost, 0, 0, (rounds - 1) as nat, pass.1);
        }
    }
}

/// The costs between `hot` and the other entries of `order`, both ways, in
/// total (zero when `hot` is not in `order`).
pub open spec fn hot_pair_total(order: Seq<(NetId, usize)>, hot: NetId, cost: spec_fn(NetId, NetId) -> nat) -> nat {
    let current = first_position(nets_of(order), hot) as int;
    if current >= order.len() {
        0
    } else {
        let rest = nets_of(order.remove(current));
        below_sum(rest, hot, cost, rest.len() as int) + above_sum(rest, hot, cost, 0)
    }
}

proof fn lemma_hot_first_total_exact(
    rest: Seq<(NetId, usize)>,
    hot: NetId,
    cost: spec_fn(NetId, NetId) -> nat,
    k: int,
)
    requires
        0 <= k <= rest.len(),
        pair_sum(hot, nets_of(rest), cost, 0, k) <= usize::MAX,
    ensures
        hot_first_total(rest, hot, cost, k) == pair_sum(hot, nets_of(rest), cost, 0, k),
    decreases k,
{
    if k > 0 {
        lemma_hot_first_total_exact(rest, hot, cost, k - 1);
    }
}

proof fn lemma_below_sum_monotone(s: Seq<NetId>, x: NetId, cost: spec_fn(NetId, NetId) -> nat, k: int, m: int)
    requires
        0 <= k <= m,
    ensures
        below_sum(s, x, cost, k) <= below_sum(s, x, cost, m),
    decreases m - k,
{
    if k < m {
        lemma_below_sum_monotone(s, x, cost, k, m - 1);
    }
}

proof fn lemma_pair_sum_split_at(x: NetId, s: Seq<NetId>, cost: spec_fn(NetId, NetId) -> nat, mid: int, end: int)
    requires
        0 <= mid <= end,
    ensures
        pair_sum(x, s, cost, 0, end) == pair_sum(x, s, cost, 0, mid) + pair_sum(x, s, cost, mid, end),
    decreases end - mid,
{
    if mid < end {
        lemma_pair_sum_split_at(x, s, cost, mid, end - 1);
    }
}

/// Without saturation, the insertion cost at `k` is the placement cost there.
proof fn lemma_insertion_cost_exact(
    rest: Seq<(NetId, usize)>,
    hot: NetId,
    cost: spec_fn(NetId, NetId) -> nat,
    k: int,
)
    requires
        0 <= k <= rest.len(),
        below_sum(nets_of(rest), hot, cost, rest.len() as int) + above_sum(nets_of(rest), hot, cost, 0)
            <= usize::MAX,
    ensures
        insertion_cost(rest, hot, cost, k) == placement_cost(nets_of(rest), hot, cost, k),
    decreases k,
{
    let nets = nets_of(rest);
    let n = rest.len() as int;
    if k == 0 {
        lemma_hot_first_total_exact(rest, hot, cost, n);
    } else {
        lemma_insertion_cost_exact(rest, hot, cost, k - 1);
        lemma_placement_step(nets, hot, cost, k - 1);
        lemma_below_sum_monotone(nets, hot, cost, k, n);
        lemma_pair_sum_split_at(hot, nets, cost, k, n);
        assert(nets[k - 1] == rest[k - 1].0);
    }
}

/// Moving a hot net lowers the predicted cost of the order by exactly the
/// saving it adds to the gain (the gain saturating), as long as the costs
/// between the hot net and the others stay within `usize`; a step that moves
/// nothing changes nothing.
pub proof fn lemma_hot_step_gain_is_cost_drop(
    order: Seq<(NetId, usize)>,
    hot: NetId,
    cost: spec_fn(NetId, NetId) -> nat,
    gain: nat,
)
    requires
        hot_pair_total(order, hot, cost) <= usize::MAX,
    ensures
        hot_step(order, hot, cost, gain).2 ==> order_cost(nets_of(hot_step(order, hot, cost, gain).0), cost)
            < order_cost(nets_of(order), cost) && hot_step(order, hot, cost, gain).1 == saturating_sum(
            gain,
            (order_cost(nets_of(order), cost) - order_cost(nets_of(hot_step(order, hot, cost, gain).0), cost)) as nat,
        ),
        !hot_step(order, hot, cost, gain).2 ==> hot_step(order, hot, cost, gain).0 == order && hot_step(
            order,
            hot,
            cost,
            gain,
        ).1 == gain,
{
    let current = first_position(nets_of(order), hot) as int;
    if current < order.len() {
        let rest = order.remove(current);
        let nets = nets_of(rest);
        let best = best_insertion(rest, hot, cost, rest.len() as int);
        lemma_best_insertion_bounds(rest, hot, cost, rest.len() as int);
        lemma_first_position_bounds(nets_of(order), hot);
        assert(nets_of(order).contains(hot)) by {
            assert(nets_of(order)[current] == hot);
        }
        assert(order[current].0 == hot);
        assert(order =~= rest.insert(current, order[current]));
        assert(nets_of(order) =~= nets.insert(current, hot));
        assert(nets_of(rest.insert(best, order[current])) =~= nets.insert(best, hot));
        lemma_order_cost_insert(nets, hot, cost, current);
        lemma_order_cost_insert(nets, hot, cost, best);
        lemma_insertion_cost_exact(rest, hot, cost, current);
        lemma_insertion_cost_exact(rest, hot, cost, best);
    }
}

/// Reordering entries with distinct nets keeps their nets distinct.
proof fn lemma_reordered_nets_distinct(before: Seq<(NetId, usize)>, after: Seq<(NetId, usize)>)
    requires
        nets_of(before).no_duplicates(),
        after.to_multiset() == before.to_multiset(),
    ensures
        nets_of(after).no_duplicates(),
        forall|net: NetId| #[trigger] nets_of(after).contains(net) <==> nets_of(before).contains(net),
{
    before.to_multiset_ensures();
    after.to_multiset_ensures();
    assert(before.no_duplicates()) by {
        assert forall|i: int, j: int| 0 <= i < before.len() && 0 <= j < before.len() && i != j implies before[i]
            != before[j] by {
            assert(nets_of(before)[i] != nets_of(before)[j]);
        }
    }
    before.lemma_multiset_has_no_duplicates();
    after.lemma_multiset_has_no_duplicates_conv();
    assert forall|i: int, j: int| 0 <= i < after.len() && 0 <= j < after.len() && i != j implies nets_of(after)[i]
        != nets_of(after)[j] by {
        assert(after.contains(after[i]) && after.contains(after[j]));
        assert(before.to_multiset().count(after[i]) > 0);
        assert(before.to_multiset().count(after[j]) > 0);
        assert(before.contains(after[i]) && before.contains(after[j]));
        let a = choose|a: int| 0 <= a < before.len() && before[a] == after[i];
        let b = choose|b: int| 0 <= b < before.len() && before[b] == after[j];
        assert(after[i] != after[j]);
        assert(a != b);
        assert(nets_of(before)[a] != nets_of(before)[b]);
    }
    assert forall|net: NetId| #[trigger] nets_of(after).contains(net) <==> nets_of(before).contains(net) by {
        if nets_of(after).contains(net) {
            let i = choose|i: int| 0 <= i < after.len() && nets_of(after)[i] == net;
            assert(after.contains(after[i]));
            assert(before.to_multiset().count(after[i]) > 0);
            let a = choose|a: int| 0 <= a < before.len() && before[a] == after[i];
            assert(nets_of(before)[a] == net);
        }
        if nets_of(before).contains(net) {
            let a = choose|a: int| 0 <= a < before.len() && nets_of(before)[a] == net;
            assert(before.contains(before[a]));
            assert(after.to_multiset().count(before[a]) > 0);
            let i = choose|i: int| 0 <= i < after.len() && after[i] == before[a];
            assert(nets_of(after)[i] == net);
        }
    }
}

/// A candidate of an order with distinct nets numbers them by position.
proof fn lemma_candidate_lanes(candidate: Option<(BTreeMap<NetId, usize>, usize)>, order: Seq<(NetId, usize)>, gain: nat)
    requires
        describes_lane_order(candidate, order, gain),
        nets_of(order).no_duplicates(),
        order.len() <= usize::MAX,
    ensures
        candidate matches Some((lanes, g)) ==> lanes@ == lanes_of_order(nets_of(order)) && is_lane_permutation(lanes@),
{
    if let Some((lanes, g)) = candidate {
        let nets = nets_of(order);
        assert forall|net: NetId| lanes@.contains_key(net) <==> nets.contains(net) by {
            if lanes@.contains_key(net) {
                let k = choose|k: int| 0 <= k < order.len() && order[k].0 == net;
                assert(nets[k] == net);
            }
            if nets.contains(net) {
                let k = choose|k: int| 0 <= k < nets.len() && nets[k] == net;
                assert(order[k].0 == net);
            }
        }
        assert forall|net: NetId| lanes@.contains_key(net) implies lanes@[net] == first_position(nets, net) as usize by {
            assert(last_position_of(order, net, lanes@[net] as int));
            lemma_first_position_bounds(nets, net);
            assert(nets[lanes@[net] as int] == net);
        }
        assert(lanes@ =~= lanes_of_order(nets));
        lemma_order_lanes_are_permutation(nets);
    }
}

/// The nets of a baseline order are distinct.
proof fn lemma_baseline_nets_distinct(ordered: Seq<(NetId, usize)>, baseline: Map<NetId, usize>)
    requires
        orders_baseline(ordered, baseline),
    ensures
        nets_of(ordered).no_duplicates(),
        forall|net: NetId| #[trigger] nets_of(ordered).contains(net) <==> baseline.contains_key(net),
{
    assert forall|i: int, j: int| 0 <= i < ordered.len() && 0 <= j < ordered.len() && i != j implies nets_of(ordered)[i]
        != nets_of(ordered)[j] by {
        if i < j {
            assert(pair_before((baseline[ordered[i].0], ordered[i].0), (baseline[ordered[j].0], ordered[j].0)));
        } else {
            assert(pair_before((baseline[ordered[j].0], ordered[j].0), (baseline[ordered[i].0], ordered[i].0)));
        }
    }
    assert forall|net: NetId| #[trigger] nets_of(ordered).contains(net) <==> baseline.contains_key(net) by {
        if nets_of(ordered).contains(net) {
            let k = choose|k: int| 0 <= k < ordered.len() && nets_of(ordered)[k] == net;
            assert(ordered[k].1 == k);
        }
        if baseline.contains_key(net) {
            let k = choose|k: int| 0 <= k < ordered.len() && ordered[k].0 == net;
            assert(nets_of(ordered)[k] == net);
        }
    }
}

/// The candidates of hot-net moves over a baseline order number the gap's
/// nets `0 .. n`, each lane used once.
pub proof fn lemma_hot_insertion_candidates_are_permutations(
    candidates: (Option<(BTreeMap<NetId, usize>, usize)>, Option<(BTreeMap<NetId, usize>, usize)>),
    baseline: Map<NetId, usize>,
    hot: Seq<NetId>,
    cost: spec_fn(NetId, NetId) -> nat,
    rounds: nat,
    snapshot_hot_limit: Option<usize>,
)
    requires
        is_hot_insertion_result(candidates, baseline, hot, cost, rounds, snapshot_hot_limit),
        baseline.len() <= usize::MAX,
    ensures
        candidates.0 matches Some((lanes, g)) ==> is_lane_permutation(lanes@) && lanes@.dom() == baseline.dom(),
        candidates.1 matches Some((lanes, g)) ==> is_lane_permutation(lanes@) && lanes@.dom() == baseline.dom(),
{
    let ordered = choose|ordered: Seq<(NetId, usize)>|
        orders_baseline(ordered, baseline) && #[trigger] describes_insertion_rounds(
            candidates,
            ordered,
            hot,
            cost,
            rounds,
            snapshot_hot_limit,
        );
    lemma_baseline_nets_distinct(ordered, baseline);
    let last = insertion_rounds(ordered, hot, cost, rounds, 0);
    lemma_hot_moves_keep_entries(ordered, hot, cost, 0, 0, rounds, 0);
    lemma_reordered_nets_distinct(ordered, last.0);
    last.0.to_multiset_ensures();
    ordered.to_multiset_ensures();
    lemma_candidate_lanes(candidates.1, last.0, last.1);
    if let Some((lanes, g)) = candidates.1 {
        assert(lanes@.dom() =~= baseline.dom());
    }
    let split = snapshot_split(hot, snapshot_hot_limit);
    if rounds > 0 && split > 0 {
        let first = insertion_range(ordered, hot, cost, 0, split, 0);
        lemma_hot_moves_keep_entries(ordered, hot, cost, 0, split, 0, 0);
        lemma_reordered_nets_distinct(ordered, first.0);
        first.0.to_multiset_ensures();
        lemma_candidate_lanes(candidates.0, first.0, first.1);
        if let Some((lanes, g)) = candidates.0 {
            assert(lanes@.dom() =~= baseline.dom());
        }
    }
}

/// Each refined large-gap candidate, when there is one, numbers the nets of
/// the gap with lanes `0 .. n`.
pub proof fn lemma_refined_candidates_are_permutations(
    candidates: GapLaneOrderCandidates,
    baseline: Map<NetId, usize>,
    hot: Seq<NetId>,
    cost: spec_fn(NetId, NetId) -> nat,
)
    requires
        is_refined_result(candidates, baseline, hot, cost),
        baseline.len() <= usize::MAX,
    ensures
        candidate_is_permutation(candidates.global, baseline.dom()),
        candidate_is_permutation(candidates.preserved_refined, baseline.dom()),
        candidate_is_permutation(candidates.refined, baseline.dom()),
{
    let ordered = choose|ordered: Seq<(NetId, usize)>|
        orders_baseline(ordered, baseline) && #[trigger] describes_refined_candidates(candidates, ordered, hot, cost);
    lemma_baseline_nets_distinct(ordered, baseline);
    let global_count = if hot.len() < MAX_LARGE_GLOBAL_GAP_HOT_NETS {
        hot.len() as int
    } else {
        MAX_LARGE_GLOBAL_GAP_HOT_NETS as int
    };
    let preserved_count = if hot.len() < MAX_PRESERVED_REFINED_LARGE_GLOBAL_GAP_HOT_NETS {
        hot.len() as int
    } else {
        MAX_PRESERVED_REFINED_LARGE_GLOBAL_GAP_HOT_NETS as int
    };
    let global = insertion_range(ordered, hot, cost, 0, global_count, 0);
    let preserved_start = insertion_range(global.0, hot, cost, global_count, preserved_count, global.1);
    let preserved_rounds = (MAX_PRESERVED_REFINED_LARGE_GLOBAL_GAP_HOT_ROUNDS - 1) as nat;
    let preserved = insertion_rounds(preserved_start.0, hot.take(preserved_count), cost, preserved_rounds, preserved_start.1);
    let first_pass = insertion_range(preserved_start.0, hot, cost, preserved_count, hot.len() as int, preserved_start.1);
    let refined_rounds = (MAX_REFINED_LARGE_GLOBAL_GAP_HOT_ROUNDS - 1) as nat;
    let refined = if global.2 || preserved_start.2 || first_pass.2 {
        insertion_rounds(first_pass.0, hot, cost, refined_rounds, first_pass.1)
    } else {
        (first_pass.0, first_pass.1)
    };
    lemma_hot_moves_keep_entries(ordered, hot, cost, 0, global_count, 0, 0);
    lemma_hot_moves_keep_entries(global.0, hot, cost, global_count, preserved_count, 0, global.1);
    lemma_hot_moves_keep_entries(preserved_start.0, hot.take(preserved_count), cost, 0, 0, preserved_rounds, preserved_start.1);
    lemma_hot_moves_keep_entries(preserved_start.0, hot, cost, preserved_count, hot.len() as int, 0, preserved_start.1);
    lemma_hot_moves_keep_entries(first_pass.0, hot, cost, 0, 0, refined_rounds, first_pass.1);
    ordered.to_multiset_ensures();
    lemma_reordered_nets_distinct(ordered, global.0);
    global.0.to_multiset_ensures();
    lemma_candidate_lanes(candidates.global, global.0, global.1);
    lemma_reordered_nets_distinct(ordered, preserved.0);
    preserved.0.to_multiset_ensures();
    lemma_candidate_lanes(candidates.preserved_refined, preserved.0, preserved.1);
    lemma_reordered_nets_distinct(ordered, refined.0);
    refined.0.to_multiset_ensures();
    lemma_candidate_lanes(candidates.refined, refined.0, refined.1);
    if let Some((lanes, g)) = candidates.global {
        assert(lanes@.dom() =~= baseline.dom());
    }
    if let Some((lanes, g)) = candidates.preserved_refined {
        assert(lanes@.dom() =~= baseline.dom());
    }
    if let Some((lanes, g)) = candidates.refined {
        assert(lanes@.dom() =~= baseline.dom());
    }
}

/// One pass of hot-net moves over the baseline order of a gap gives, when it
/// gains anything, lanes `0 .. n` for the nets of the gap.
pub proof fn lemma_hot_pass_is_permutation(
    candidate: Option<(BTreeMap<NetId, usize>, usize)>,
    ordered: Seq<(NetId, usize)>,
    baseline: Map<NetId, usize>,
    hot: Seq<NetId>,
    cost: spec_fn(NetId, NetId) -> nat,
)
    requires
        orders_baseline(ordered, baseline),
        describes_lane_order(candidate, insertion_rounds(ordered, hot, cost, 1, 0).0, insertion_rounds(ordered, hot, cost, 1, 0).1),
        baseline.len() <= usize::MAX,
    ensures
        candidate_is_permutation(candidate, baseline.dom()),
{
    lemma_baseline_nets_distinct(ordered, baseline);
    let pass = insertion_rounds(ordered, hot, cost, 1, 0);
    lemma_hot_moves_keep_entries(ordered, hot, cost, 0, 0, 1, 0);
    ordered.to_multiset_ensures();
    lemma_reordered_nets_distinct(ordered, pass.0);
    pass.0.to_multiset_ensures();
    lemma_candidate_lanes(candidate, pass.0, pass.1);
    if let Some((lanes, g)) = candidate {
        assert(lanes@.dom() =~= baseline.dom());
    }
}

} // verus!
